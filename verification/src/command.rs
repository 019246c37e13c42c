//! The completion marker and the shell command that carries it.

use vstd::prelude::*;

use crate::text::push_str;

verus! {

/// Printed after the build command finishes, followed by `:` and its exit code.
pub const BUILD_MARKER: &'static str = "___MCP_BUILD_DONE___";

/// The tail that every wrapped command ends with: `; echo "<marker>:$?"`.
pub open spec fn status_echo(marker: Seq<char>) -> Seq<char> {
    "; echo \""@ + marker + ":$?\""@
}

/// The wrapped command: `(cd <cwd> && <command> 2>&1); echo "<marker>:$?"`,
/// or `<command> 2>&1; echo "<marker>:$?"` without a working directory.
pub open spec fn remote_command(command: Seq<char>, cwd: Option<Seq<char>>, marker: Seq<char>) -> Seq<
    char,
> {
    let build_cmd = command + " 2>&1"@;
    match cwd {
        Some(dir) => "(cd "@ + dir + " && "@ + build_cmd + ")"@ + status_echo(marker),
        None => build_cmd + status_echo(marker),
    }
}

/// The working directory, as characters.
pub open spec fn opt_view(cwd: Option<&str>) -> Option<Seq<char>> {
    match cwd {
        Some(d) => Some(d@),
        None => None,
    }
}

/// Builds the shell command that runs `command` (in `cwd` when given, inside
/// a subshell so that the `cd` stays local), merges its stderr into stdout,
/// and then prints the completion marker with the exit status.
pub fn build_remote_command(command: &str, cwd: Option<&str>, marker: &str) -> (r: String)
    ensures
        r@ == remote_command(command@, opt_view(cwd), marker@),
{
    let mut r = String::new();
    match cwd {
        Some(dir) => {
            push_str(&mut r, "(cd ");
            push_str(&mut r, dir);
            push_str(&mut r, " && ");
        },
        None => {},
    }
    push_str(&mut r, command);
    push_str(&mut r, " 2>&1");
    match cwd {
        Some(_) => {
            push_str(&mut r, ")");
        },
        None => {},
    }
    push_str(&mut r, "; echo \"");
    push_str(&mut r, marker);
    push_str(&mut r, ":$?\"");
    proof {
        match cwd {
            Some(dir) => {
                assert(r@ =~= remote_command(command@, opt_view(cwd), marker@));
            },
            None => {
                assert(r@ =~= remote_command(command@, opt_view(cwd), marker@));
            },
        }
    }
    r
}

/// Whatever the command and directory, the wrapped command ends by echoing
/// the marker with the exit status, and the command text appears in it
/// unchanged, followed by the stderr redirection.
pub proof fn lemma_remote_command_reports_status(
    command: Seq<char>,
    cwd: Option<Seq<char>>,
    marker: Seq<char>,
)
    ensures
        remote_command(command, cwd, marker).len() >= status_echo(marker).len(),
        remote_command(command, cwd, marker).subrange(
            remote_command(command, cwd, marker).len() - status_echo(marker).len(),
            remote_command(command, cwd, marker).len() as int,
        ) == status_echo(marker),
        exists|i: int|
            0 <= i && i + command.len() + 5 <= remote_command(command, cwd, marker).len()
                && #[trigger] remote_command(command, cwd, marker).subrange(i, i + command.len() + 5)
                == command + " 2>&1"@,
{
    let r = remote_command(command, cwd, marker);
    let tail = status_echo(marker);
    let build_cmd = command + " 2>&1"@;
    match cwd {
        Some(dir) => {
            let head = "(cd "@ + dir + " && "@;
            let before = head + build_cmd + ")"@;
            assert(r =~= before + tail);
            assert(r.subrange(r.len() - tail.len(), r.len() as int) =~= tail);
            reveal_strlit(" 2>&1");
            let i = head.len() as int;
            assert(r.subrange(i, i + command.len() + 5) =~= build_cmd);
        },
        None => {
            assert(r =~= build_cmd + tail);
            assert(r.subrange(r.len() - tail.len(), r.len() as int) =~= tail);
            reveal_strlit(" 2>&1");
            let i = 0int;
            assert(r.subrange(i, i + command.len() + 5) =~= build_cmd);
        },
    }
}

} // verus!
