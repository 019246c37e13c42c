use cmdsift::command::{build_remote_command, BUILD_MARKER};

#[test]
fn without_cwd() {
    assert_eq!(
        build_remote_command("make -j8", None, BUILD_MARKER),
        "make -j8 2>&1; echo \"___MCP_BUILD_DONE___:$?\""
    );
}

#[test]
fn with_cwd() {
    assert_eq!(
        build_remote_command("make", Some("/srv/build"), BUILD_MARKER),
        "(cd /srv/build && make 2>&1); echo \"___MCP_BUILD_DONE___:$?\""
    );
}

#[test]
fn command_with_other_marker_and_spaces() {
    assert_eq!(
        build_remote_command("./build.sh alpha -a -c", Some("/srv/my dir"), "DONE"),
        "(cd /srv/my dir && ./build.sh alpha -a -c 2>&1); echo \"DONE:$?\""
    );
}

#[test]
fn every_command_ends_with_status_echo() {
    for (command, cwd) in [("true", None), ("make all", Some("/tmp")), ("", None)] {
        let wrapped = build_remote_command(command, cwd, BUILD_MARKER);
        assert!(wrapped.ends_with("; echo \"___MCP_BUILD_DONE___:$?\""));
        assert!(wrapped.contains(&format!("{command} 2>&1")));
    }
}
