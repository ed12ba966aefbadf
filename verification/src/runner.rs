//! The decision half of running an external command: turning a captured
//! exit status and output into the caller's result. Starting the process
//! and capturing its output live with the surrounding runtime.

use vstd::prelude::*;

use crate::text::{dec_str_signed, i64_to_string};

verus! {

/// The message reported when a command exits unsuccessfully.
pub open spec fn run_error_msg(program: Seq<char>, code: int, stderr: Seq<char>) -> Seq<char> {
    program + " exited "@ + dec_str_signed(code) + ": "@ + stderr
}

/// Judges one captured command run: a successful exit hands back the
/// captured standard output; a failed one reports the program, the exit
/// code (-1 when the process was ended by a signal) and the captured
/// standard error.
pub fn run_command(
    program: &str,
    success: bool,
    code: Option<i32>,
    stdout: String,
    stderr: &str,
) -> (r: Result<String, String>)
    ensures
        success ==> r == Ok::<String, String>(stdout),
        !success ==> match r {
            Err(m) => m@ == run_error_msg(
                program@,
                match code {
                    Some(c) => c as int,
                    None => -1,
                },
                stderr@,
            ),
            Ok(_) => false,
        },
{
    if success {
        return Ok(stdout);
    }
    let c: i64 = match code {
        Some(c) => c as i64,
        None => -1,
    };
    let msg = String::from_str(program).concat(" exited ").concat(
        i64_to_string(c).as_str(),
    ).concat(": ").concat(stderr);
    proof {
        assert(msg@ =~= run_error_msg(
            program@,
            match code {
                Some(c) => c as int,
                None => -1,
            },
            stderr@,
        ));
    }
    Err(msg)
}

} // verus!
