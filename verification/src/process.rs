//! Process inspection and termination: the decision halves. Running `ps`
//! and `kill` and sleeping between the steps live with the surrounding
//! runtime, which hands each captured output here.

use vstd::prelude::*;

use crate::text::{
    contains_ci, contains_ci_spec, dec_val, is_digit_seq, lines_spec, split_lines, split_ws,
    tokens_spec, trim, trim_spec,
};

verus! {

/// What is known about one running process.
#[derive(Debug)]
pub struct ProcessDetail {
    pub pid: u32,
    pub ppid: Option<u32>,
    pub user: Option<String>,
    pub elapsed: Option<String>,
    pub name: Option<String>,
    pub command: Option<String>,
}

/// Spec-level mirror of one process detail.
pub struct DetailModel {
    pub pid: u32,
    pub ppid: Option<u32>,
    pub user: Option<Seq<char>>,
    pub elapsed: Option<Seq<char>>,
    pub name: Option<Seq<char>>,
    pub command: Option<Seq<char>>,
}

impl View for ProcessDetail {
    type V = DetailModel;

    open spec fn view(&self) -> DetailModel {
        DetailModel {
            pid: self.pid,
            ppid: self.ppid,
            user: match self.user {
                Some(s) => Some(s@),
                None => None,
            },
            elapsed: match self.elapsed {
                Some(s) => Some(s@),
                None => None,
            },
            name: match self.name {
                Some(s) => Some(s@),
                None => None,
            },
            command: match self.command {
                Some(s) => Some(s@),
                None => None,
            },
        }
    }
}

/// The index of the first line whose trimmed text is non-empty, or -1.
pub open spec fn first_filled_line(ls: Seq<Seq<char>>) -> int
    decreases ls.len(),
{
    if ls.len() == 0 {
        -1
    } else if trim_spec(ls[0]).len() > 0 {
        0
    } else {
        let r = first_filled_line(ls.drop_first());
        if r < 0 {
            -1
        } else {
            r + 1
        }
    }
}

proof fn lemma_first_filled_line_at(ls: Seq<Seq<char>>, i: int)
    requires
        0 <= i < ls.len(),
        trim_spec(ls[i]).len() > 0,
        forall|j: int| 0 <= j < i ==> trim_spec(#[trigger] ls[j]).len() == 0,
    ensures
        first_filled_line(ls) == i,
    decreases i,
{
    if i > 0 {
        let t = ls.drop_first();
        assert(t[i - 1] == ls[i]);
        assert forall|j: int| 0 <= j < i - 1 implies trim_spec(#[trigger] t[j]).len() == 0 by {
            assert(trim_spec(ls[j + 1]).len() == 0);
        }
        lemma_first_filled_line_at(t, i - 1);
    }
}

proof fn lemma_first_filled_line_none(ls: Seq<Seq<char>>)
    requires
        forall|j: int| 0 <= j < ls.len() ==> trim_spec(#[trigger] ls[j]).len() == 0,
    ensures
        first_filled_line(ls) == -1,
    decreases ls.len(),
{
    if ls.len() > 0 {
        let t = ls.drop_first();
        assert forall|j: int| 0 <= j < t.len() implies trim_spec(#[trigger] t[j]).len() == 0 by {
            assert(trim_spec(ls[j + 1]).len() == 0);
        }
        lemma_first_filled_line_none(t);
    }
}

/// A pid field parsed if it is a plain decimal that fits.
pub open spec fn opt_pid(s: Seq<char>) -> Option<u32> {
    if is_digit_seq(s) && dec_val(s) <= u32::MAX {
        Some(dec_val(s) as u32)
    } else {
        None
    }
}

/// The detail read from captured `ps` output. `base` is the output of the
/// five-column listing (pid, parent pid, user, elapsed time, command name)
/// for the queried pid; `args` is the captured full-command listing, if
/// that second run succeeded.
///
/// The first non-blank line must carry at least five fields; fewer is a
/// parse error, and no line at all means the process was not found. A pid
/// field that does not parse falls back to the queried pid; a blank
/// full-command listing yields no command.
pub fn get_process_detail(pid: u32, base: &str, args: Option<&str>) -> (r: Result<
    ProcessDetail,
    String,
>)
    ensures
        ({
            let ls = lines_spec(base@);
            let li = first_filled_line(ls);
            match r {
                Err(m) => (li < 0 && m@ == "process not found"@) || (li >= 0 && tokens_spec(
                    ls[li],
                ).len() < 5 && m@ == "parse ps output failed"@),
                Ok(d) => li >= 0 && {
                    let parts = tokens_spec(ls[li]);
                    &&& parts.len() >= 5
                    &&& d@.pid == match opt_pid(parts[0]) {
                        Some(v) => v,
                        None => pid,
                    }
                    &&& d@.ppid == opt_pid(parts[1])
                    &&& d@.user == Some(parts[2])
                    &&& d@.elapsed == Some(parts[3])
                    &&& d@.name == Some(parts[4])
                    &&& d@.command == match args {
                        Some(a) => if trim_spec(a@).len() > 0 {
                            Some(trim_spec(a@))
                        } else {
                            None
                        },
                        None => None,
                    }
                },
            }
        }),
{
    let lines = split_lines(base);
    let ghost lview = lines.deep_view();
    let mut li: usize = 0;
    let mut found = false;
    while !found && li < lines.len()
        invariant
            lview == lines.deep_view(),
            lview.len() == lines@.len(),
            li <= lines@.len(),
            forall|j: int| 0 <= j < li ==> trim_spec(#[trigger] lview[j]).len() == 0,
            found ==> li < lines@.len() && trim_spec(lview[li as int]).len() > 0,
        decreases lines@.len() - li + if found {
            0int
        } else {
            1int
        },
    {
        let t = trim(lines[li].as_str());
        if t.unicode_len() > 0 {
            found = true;
        } else {
            li = li + 1;
        }
    }
    if !found {
        proof {
            lemma_first_filled_line_none(lview);
            reveal_strlit("process not found");
        }
        return Err(String::from_str("process not found"));
    }
    proof {
        lemma_first_filled_line_at(lview, li as int);
    }
    let parts = split_ws(lines[li].as_str());
    if parts.len() < 5 {
        proof {
            reveal_strlit("parse ps output failed");
        }
        return Err(String::from_str("parse ps output failed"));
    }
    let ghost pview = parts.deep_view();
    let pid_v = match crate::text::parse_dec_u32(parts[0].as_str()) {
        Some(v) => v,
        None => pid,
    };
    let ppid = crate::text::parse_dec_u32(parts[1].as_str());
    let command = match args {
        Some(a) => {
            let t = trim(a);
            if t.unicode_len() > 0 {
                Some(t.to_owned())
            } else {
                None
            }
        },
        None => None,
    };
    let d = ProcessDetail {
        pid: pid_v,
        ppid,
        user: Some(parts[2].clone()),
        elapsed: Some(parts[3].clone()),
        name: Some(parts[4].clone()),
        command,
    };
    proof {
        assert(pview[0] == parts@[0]@);
        assert(pview[1] == parts@[1]@);
        assert(pview[2] == parts@[2]@);
        assert(pview[3] == parts@[3]@);
        assert(pview[4] == parts@[4]@);
    }
    Ok(d)
}

/// The phrase in a `kill` error that means the process was already gone.
pub open spec fn gone_phrase() -> Seq<char> {
    "no such process"@
}

/// Judges the polite-termination step: a successful `kill -TERM` — or one
/// that failed only because the process was already gone — is fine;
/// anything else is reported with the trimmed error text.
pub fn kill_term_verdict(success: bool, stderr: &str) -> (r: Result<(), String>)
    ensures
        match r {
            Ok(u) => success || contains_ci_spec(stderr@, gone_phrase()),
            Err(m) => !success && !contains_ci_spec(stderr@, gone_phrase()) && m@
                == "kill -TERM failed: "@ + trim_spec(stderr@),
        },
{
    if success {
        return Ok(());
    }
    if contains_ci(stderr, "no such process") {
        return Ok(());
    }
    let msg = String::from_str("kill -TERM failed: ").concat(trim(stderr));
    Err(msg)
}

/// Judges the forced-termination step, as `kill_term_verdict` does for the
/// polite one.
pub fn kill_kill_verdict(success: bool, stderr: &str) -> (r: Result<(), String>)
    ensures
        match r {
            Ok(u) => success || contains_ci_spec(stderr@, gone_phrase()),
            Err(m) => !success && !contains_ci_spec(stderr@, gone_phrase()) && m@
                == "kill -KILL failed: "@ + trim_spec(stderr@),
        },
{
    if success {
        return Ok(());
    }
    if contains_ci(stderr, "no such process") {
        return Ok(());
    }
    let msg = String::from_str("kill -KILL failed: ").concat(trim(stderr));
    Err(msg)
}

/// The detail built from one decoded Windows process record: pid, parent
/// pid and name are taken as given; a blank command line yields no
/// command; user and elapsed time are not in the record.
pub fn process_detail_from_record(
    process_id: u32,
    parent_process_id: u32,
    name: String,
    command_line: Option<&str>,
) -> (d: ProcessDetail)
    ensures
        d@.pid == process_id,
        d@.ppid == Some(parent_process_id),
        d@.user is None,
        d@.elapsed is None,
        d@.name == Some(name@),
        d@.command == match command_line {
            Some(c) => if trim_spec(c@).len() > 0 {
                Some(trim_spec(c@))
            } else {
                None
            },
            None => None,
        },
{
    let command = match command_line {
        Some(c) => {
            let t = trim(c);
            if t.unicode_len() > 0 {
                Some(t.to_owned())
            } else {
                None
            }
        },
        None => None,
    };
    ProcessDetail {
        pid: process_id,
        ppid: Some(parent_process_id),
        user: None,
        elapsed: None,
        name: Some(name),
        command,
    }
}

/// Judges the forced-termination fallback on Windows: if neither the
/// polite nor the forced attempt succeeded, the trimmed error of the
/// forced one is reported.
pub fn taskkill_verdict(polite_success: bool, forced_success: bool, forced_stderr: &str) -> (r:
    Result<(), String>)
    ensures
        match r {
            Ok(u) => polite_success || forced_success,
            Err(m) => !polite_success && !forced_success && m@ == "taskkill failed: "@ + trim_spec(
                forced_stderr@,
            ),
        },
{
    if polite_success || forced_success {
        return Ok(());
    }
    Err(String::from_str("taskkill failed: ").concat(trim(forced_stderr)))
}

} // verus!
