//! Launch-request validation: the decision halves of starting an external
//! player and of resolving a window's start page. The file-system probes
//! and the actual spawning and window building live with the surrounding
//! runtime.

use vstd::prelude::*;

use crate::text::{has_prefix, starts_with, trim, trim_spec};
use crate::ports::{drop_leading, drop_trailing};

verus! {

/// The player path as the request cleans it: trimmed, then stripped of
/// surrounding quotes.
pub open spec fn cleaned_exe_path(s: Seq<char>) -> Seq<char> {
    drop_trailing(drop_leading(trim_spec(s), '"'), '"')
}

/// Validates a player launch request: the executable path (trimmed and
/// unquoted) and the url (trimmed) must both be non-empty; the cleaned
/// values are handed back for the spawn.
pub fn prepare_launch(exe_path: &str, url: &str) -> (r: Result<(String, String), String>)
    ensures
        match r {
            Ok(p) => p.0@ == cleaned_exe_path(exe_path@) && p.0@.len() > 0 && p.1@ == trim_spec(
                url@,
            ) && p.1@.len() > 0,
            Err(m) => (cleaned_exe_path(exe_path@).len() == 0 && m@
                == "potplayer 可执行文件路径不能为空"@) || (cleaned_exe_path(exe_path@).len() > 0
                && trim_spec(url@).len() == 0 && m@ == "url 不能为空"@),
        },
{
    let t = trim(exe_path);
    let n = t.unicode_len();
    // peel surrounding quotes
    let mut a: usize = 0;
    let mut stop = false;
    while !stop && a < n
        invariant
            n == t@.len(),
            a <= n,
            forall|j: int| 0 <= j < a ==> (#[trigger] t@[j]) == '"',
            stop ==> a < n && t@[a as int] != '"',
        decreases n - a + if stop {
            0int
        } else {
            1int
        },
    {
        if t.get_char(a) == '"' {
            a = a + 1;
        } else {
            stop = true;
        }
    }
    proof {
        crate::ports::lemma_drop_leading_at(t@, '"', a as int);
    }
    let ghost mid = t@.skip(a as int);
    let mut b: usize = n;
    let mut stop2 = false;
    while !stop2 && b > a
        invariant
            n == t@.len(),
            a <= b <= n,
            forall|j: int| b <= j < n ==> (#[trigger] t@[j]) == '"',
            stop2 ==> b > a && t@[b - 1] != '"',
        decreases b - a + if stop2 {
            0int
        } else {
            1int
        },
    {
        if t.get_char(b - 1) == '"' {
            b = b - 1;
        } else {
            stop2 = true;
        }
    }
    proof {
        assert forall|j: int| b - a <= j < mid.len() implies (#[trigger] mid[j]) == '"' by {
            assert(t@[j + a] == '"');
        }
        if b > a {
            assert(mid[b - a - 1] == t@[b - 1]);
        }
        crate::ports::lemma_drop_trailing_at(mid, '"', b as int - a as int);
        assert(mid.take(b as int - a as int) =~= t@.subrange(a as int, b as int));
    }
    let exe = t.substring_char(a, b).to_owned();
    if exe.as_str().is_empty() {
        proof {
            reveal_strlit("potplayer 可执行文件路径不能为空");
        }
        return Err(String::from_str("potplayer 可执行文件路径不能为空"));
    }
    let u = trim(url).to_owned();
    if u.as_str().is_empty() {
        proof {
            reveal_strlit("url 不能为空");
        }
        return Err(String::from_str("url 不能为空"));
    }
    Ok((exe, u))
}

/// Judges the file-system probes on the cleaned player path: the path must
/// name an existing regular file, else the report says which check failed.
pub fn launch_path_verdict(exe_path: &String, path_exists: bool, is_file: bool) -> (r: Result<
    (),
    String,
>)
    ensures
        match r {
            Ok(u) => path_exists && is_file,
            Err(m) => (!path_exists && m@ == "potplayer 可执行文件不存在: "@ + exe_path@) || (
            path_exists && !is_file && m@ == "potplayer 路径不是文件: "@ + exe_path@),
        },
{
    if !path_exists {
        return Err(
            String::from_str("potplayer 可执行文件不存在: ").concat(exe_path.as_str()),
        );
    }
    if !is_file {
        return Err(String::from_str("potplayer 路径不是文件: ").concat(exe_path.as_str()));
    }
    Ok(())
}

/// The window start page a request resolves to: the given url or the
/// default page, with one leading "./" stripped.
pub open spec fn window_url_spec(url: Option<Seq<char>>) -> Seq<char> {
    let u0 = match url {
        Some(u) => u,
        None => "index.html"@,
    };
    if has_prefix(u0, "./"@) {
        u0.skip(2)
    } else {
        u0
    }
}

/// Whether a resolved start page is an external address rather than an
/// application page.
pub open spec fn window_url_external(u: Seq<char>) -> bool {
    has_prefix(u, "http://"@) || has_prefix(u, "https://"@)
}

/// Resolves a window request's start page: the given url or the default
/// page, one leading "./" stripped, and whether it is an external address.
pub fn resolve_window_url(url: Option<String>) -> (r: (bool, String))
    ensures
        r.1@ == window_url_spec(
            match url {
                Some(u) => Some(u@),
                None => None,
            },
        ),
        r.0 == window_url_external(r.1@),
{
    proof {
        reveal_strlit("index.html");
        reveal_strlit("./");
    }
    let u0: String = match url {
        Some(u) => u,
        None => String::from_str("index.html"),
    };
    let u1: String = if starts_with(u0.as_str(), "./") {
        let s = u0.as_str();
        let r = s.substring_char(2, s.unicode_len()).to_owned();
        proof {
            assert(r@ =~= u0@.skip(2));
        }
        r
    } else {
        u0
    };
    let ext = starts_with(u1.as_str(), "http://") || starts_with(u1.as_str(), "https://");
    (ext, u1)
}

} // verus!
