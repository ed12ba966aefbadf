//! Listening-port inspection: the parsing half of the port-usage listing.
//!
//! The surrounding runtime runs the platform tool and hands its captured
//! output here; everything from that text to the row list is verified.

use vstd::prelude::*;

use crate::text::{
    dec_val, is_digit_seq, lines_spec, parse_dec_u16, parse_dec_u32, split_lines, split_ws, str_eq,
    tokens_spec, trim, trim_spec,
};

verus! {

/// One socket that is in use: protocol, local address and port, and what is
/// known of the owning process.
pub struct PortUsage {
    pub protocol: String,
    pub local_addr: String,
    pub local_port: u16,
    pub state: Option<String>,
    pub pid: Option<u32>,
    pub process: Option<String>,
}

/// Spec-level mirror of one port-usage row.
pub struct RowModel {
    pub protocol: Seq<char>,
    pub local_addr: Seq<char>,
    pub local_port: u16,
    pub state: Option<Seq<char>>,
    pub pid: Option<u32>,
    pub process: Option<Seq<char>>,
}

impl View for PortUsage {
    type V = RowModel;

    open spec fn view(&self) -> RowModel {
        RowModel {
            protocol: self.protocol@,
            local_addr: self.local_addr@,
            local_port: self.local_port,
            state: match self.state {
                Some(s) => Some(s@),
                None => None,
            },
            pid: self.pid,
            process: match self.process {
                Some(s) => Some(s@),
                None => None,
            },
        }
    }
}

/// The rows as spec values.
pub open spec fn rows_view(s: Seq<PortUsage>) -> Seq<RowModel> {
    s.map_values(|r: PortUsage| r@)
}

/// The position of the last "]:" in `s`, or -1.
pub open spec fn rfind_br_colon(s: Seq<char>) -> int
    decreases s.len(),
{
    if s.len() < 2 {
        -1
    } else if s[s.len() - 2] == ']' && s[s.len() - 1] == ':' {
        s.len() - 2
    } else {
        rfind_br_colon(s.drop_last())
    }
}

/// The position of the last `c` in `s`, or -1.
pub open spec fn rfind_char(s: Seq<char>, c: char) -> int
    decreases s.len(),
{
    if s.len() == 0 {
        -1
    } else if s.last() == c {
        s.len() - 1
    } else {
        rfind_char(s.drop_last(), c)
    }
}

/// `s` without its leading run of `c`.
pub open spec fn drop_leading(s: Seq<char>, c: char) -> Seq<char>
    decreases s.len(),
{
    if s.len() > 0 && s[0] == c {
        drop_leading(s.drop_first(), c)
    } else {
        s
    }
}

/// The local address and port read from one socket name: the text after the
/// last "]:" (for a bracketed address) or the last ':' must be a decimal
/// port; the address is what precedes it, without leading brackets.
pub open spec fn addr_port_spec(raw: Seq<char>) -> Option<(Seq<char>, u16)> {
    let t = trim_spec(raw);
    if t.len() == 0 {
        None
    } else {
        let i = rfind_br_colon(t);
        if i >= 0 {
            let ps = t.skip(i + 2);
            if is_digit_seq(ps) && dec_val(ps) <= u16::MAX {
                Some((drop_leading(t.take(i + 1), '['), dec_val(ps) as u16))
            } else {
                None
            }
        } else {
            let j = rfind_char(t, ':');
            if j < 0 {
                None
            } else {
                let ps = t.skip(j + 1);
                if is_digit_seq(ps) && dec_val(ps) <= u16::MAX {
                    Some((t.take(j), dec_val(ps) as u16))
                } else {
                    None
                }
            }
        }
    }
}

proof fn lemma_rfind_br_colon_at(s: Seq<char>, i: int)
    requires
        0 <= i <= s.len() - 2,
        s[i] == ']',
        s[i + 1] == ':',
        forall|j: int| i < j <= s.len() - 2 ==> !((#[trigger] s[j]) == ']' && s[j + 1] == ':'),
    ensures
        rfind_br_colon(s) == i,
    decreases s.len(),
{
    if i == s.len() - 2 {
    } else {
        assert(!(s[s.len() - 2] == ']' && s[s.len() - 1] == ':'));
        let t = s.drop_last();
        assert(t[i] == ']' && t[i + 1] == ':');
        assert forall|j: int|
            i < j <= t.len() - 2 implies !((#[trigger] t[j]) == ']' && t[j + 1] == ':') by {
            assert(!(s[j] == ']' && s[j + 1] == ':'));
        }
        lemma_rfind_br_colon_at(t, i);
    }
}

proof fn lemma_rfind_br_colon_none(s: Seq<char>)
    requires
        forall|j: int| 0 <= j <= s.len() - 2 ==> !((#[trigger] s[j]) == ']' && s[j + 1] == ':'),
    ensures
        rfind_br_colon(s) == -1,
    decreases s.len(),
{
    if s.len() >= 2 {
        assert(!(s[s.len() - 2] == ']' && s[s.len() - 1] == ':'));
        let t = s.drop_last();
        assert forall|j: int|
            0 <= j <= t.len() - 2 implies !((#[trigger] t[j]) == ']' && t[j + 1] == ':') by {
            assert(!(s[j] == ']' && s[j + 1] == ':'));
        }
        lemma_rfind_br_colon_none(t);
    }
}

proof fn lemma_rfind_char_at(s: Seq<char>, c: char, i: int)
    requires
        0 <= i < s.len(),
        s[i] == c,
        forall|j: int| i < j < s.len() ==> (#[trigger] s[j]) != c,
    ensures
        rfind_char(s, c) == i,
    decreases s.len(),
{
    if i == s.len() - 1 {
    } else {
        let t = s.drop_last();
        assert forall|j: int| i < j < t.len() implies (#[trigger] t[j]) != c by {
            assert(s[j] != c);
        }
        lemma_rfind_char_at(t, c, i);
    }
}

proof fn lemma_rfind_char_none(s: Seq<char>, c: char)
    requires
        forall|j: int| 0 <= j < s.len() ==> (#[trigger] s[j]) != c,
    ensures
        rfind_char(s, c) == -1,
    decreases s.len(),
{
    if s.len() > 0 {
        let t = s.drop_last();
        assert forall|j: int| 0 <= j < t.len() implies (#[trigger] t[j]) != c by {
            assert(s[j] != c);
        }
        lemma_rfind_char_none(t, c);
    }
}

pub proof fn lemma_drop_leading_at(s: Seq<char>, c: char, a: int)
    requires
        0 <= a <= s.len(),
        forall|j: int| 0 <= j < a ==> (#[trigger] s[j]) == c,
        a < s.len() ==> s[a] != c,
    ensures
        drop_leading(s, c) == s.skip(a),
    decreases a,
{
    if a == 0 {
        assert(s.skip(0) =~= s);
    } else {
        assert(s[0] == c);
        let t = s.drop_first();
        assert forall|j: int| 0 <= j < a - 1 implies (#[trigger] t[j]) == c by {
            assert(s[j + 1] == c);
        }
        lemma_drop_leading_at(t, c, a - 1);
        assert(t.skip(a - 1) =~= s.skip(a));
    }
}

/// Reads "addr:port" (or "[addr]:port") from one socket name: the port is
/// the decimal number after the last colon (after "]:" when the address is
/// bracketed), the address is what precedes it without leading brackets.
pub fn parse_addr_port(raw: &str) -> (r: Option<(String, u16)>)
    ensures
        match r {
            Some(ap) => addr_port_spec(raw@) == Some((ap.0@, ap.1)),
            None => addr_port_spec(raw@) is None,
        },
{
    let s = trim(raw);
    let n = s.unicode_len();
    if n == 0 {
        return None;
    }
    // last "]:"
    let mut br: usize = n;  // n means none found
    let mut k: usize = n - 1;
    while k > 0
        invariant
            n == s@.len(),
            0 <= k <= n - 1,
            br == n || (br <= n - 2 && s@[br as int] == ']' && s@[br as int + 1] == ':'),
            br == n ==> forall|j: int|
                k <= j <= n - 2 ==> !((#[trigger] s@[j]) == ']' && s@[j + 1] == ':'),
            br < n ==> forall|j: int|
                br < j <= n - 2 ==> !((#[trigger] s@[j]) == ']' && s@[j + 1] == ':'),
            br < n ==> br >= k,
        decreases k,
    {
        if br == n && s.get_char(k - 1) == ']' && s.get_char(k) == ':' {
            br = k - 1;
        }
        k = k - 1;
    }
    if br < n {
        proof {
            lemma_rfind_br_colon_at(s@, br as int);
        }
        let port_str = s.substring_char(br + 2, n);
        proof {
            assert(port_str@ =~= s@.skip(br as int + 2));
        }
        match parse_dec_u16(port_str) {
            Some(p) => {
                // strip leading '[' from the address part
                let mut a: usize = 0;
                let stop = br + 1;
                while a < stop && s.get_char(a) == '['
                    invariant
                        n == s@.len(),
                        stop == br + 1 <= n,
                        a <= stop,
                        forall|j: int| 0 <= j < a ==> (#[trigger] s@[j]) == '[',
                    decreases stop - a,
                {
                    a = a + 1;
                }
                let addr = s.substring_char(a, br + 1).to_owned();
                proof {
                    let head = s@.take(br as int + 1);
                    assert forall|j: int| 0 <= j < a implies (#[trigger] head[j]) == '[' by {
                        assert(s@[j] == '[');
                    }
                    if (a as int) < head.len() {
                        assert(head[a as int] == s@[a as int]);
                    }
                    lemma_drop_leading_at(head, '[', a as int);
                    assert(head.skip(a as int) =~= s@.subrange(a as int, br as int + 1));
                }
                Some((addr, p))
            },
            None => None,
        }
    } else {
        proof {
            lemma_rfind_br_colon_none(s@);
        }
        // last ':'
        let mut co: usize = n;
        let mut k2: usize = n;
        while k2 > 0
            invariant
                n == s@.len(),
                k2 <= n,
                co == n || (co < n && s@[co as int] == ':'),
                co == n ==> forall|j: int| k2 <= j < n ==> (#[trigger] s@[j]) != ':',
                co < n ==> forall|j: int| co < j < n ==> (#[trigger] s@[j]) != ':',
                co < n ==> co >= k2,
            decreases k2,
        {
            if co == n && s.get_char(k2 - 1) == ':' {
                co = k2 - 1;
            }
            k2 = k2 - 1;
        }
        if co == n {
            proof {
                lemma_rfind_char_none(s@, ':');
            }
            return None;
        }
        proof {
            lemma_rfind_char_at(s@, ':', co as int);
        }
        let port_str = s.substring_char(co + 1, n);
        proof {
            assert(port_str@ =~= s@.skip(co as int + 1));
        }
        match parse_dec_u16(port_str) {
            Some(p) => {
                let addr = s.substring_char(0, co).to_owned();
                proof {
                    assert(addr@ =~= s@.take(co as int));
                }
                Some((addr, p))
            },
            None => None,
        }
    }
}

/// The first token that is "TCP" or "UDP", or -1.
pub open spec fn find_proto(parts: Seq<Seq<char>>) -> int
    decreases parts.len(),
{
    if parts.len() == 0 {
        -1
    } else if parts[0] == "TCP"@ || parts[0] == "UDP"@ {
        0
    } else {
        let r = find_proto(parts.drop_first());
        if r < 0 {
            -1
        } else {
            r + 1
        }
    }
}

/// The position of the first "->" in `s`, or -1.
pub open spec fn find_arrow(s: Seq<char>) -> int
    decreases s.len(),
{
    if s.len() < 2 {
        -1
    } else if s[0] == '-' && s[1] == '>' {
        0
    } else {
        let r = find_arrow(s.drop_first());
        if r < 0 {
            -1
        } else {
            r + 1
        }
    }
}

/// The prefix of a socket name before its first "->", or all of it.
pub open spec fn before_arrow(s: Seq<char>) -> Seq<char> {
    let i = find_arrow(s);
    if i < 0 {
        s
    } else {
        s.take(i)
    }
}

proof fn lemma_find_proto_at(parts: Seq<Seq<char>>, i: int)
    requires
        0 <= i < parts.len(),
        parts[i] == "TCP"@ || parts[i] == "UDP"@,
        forall|j: int| 0 <= j < i ==> (#[trigger] parts[j]) != "TCP"@ && parts[j] != "UDP"@,
    ensures
        find_proto(parts) == i,
    decreases i,
{
    if i > 0 {
        assert(parts[0] != "TCP"@ && parts[0] != "UDP"@);
        let t = parts.drop_first();
        assert(t[i - 1] == parts[i]);
        assert forall|j: int|
            0 <= j < i - 1 implies (#[trigger] t[j]) != "TCP"@ && t[j] != "UDP"@ by {
            assert(parts[j + 1] != "TCP"@ && parts[j + 1] != "UDP"@);
        }
        lemma_find_proto_at(t, i - 1);
    }
}

proof fn lemma_find_proto_none(parts: Seq<Seq<char>>)
    requires
        forall|j: int|
            0 <= j < parts.len() ==> (#[trigger] parts[j]) != "TCP"@ && parts[j] != "UDP"@,
    ensures
        find_proto(parts) == -1,
    decreases parts.len(),
{
    if parts.len() > 0 {
        assert(parts[0] != "TCP"@ && parts[0] != "UDP"@);
        let t = parts.drop_first();
        assert forall|j: int|
            0 <= j < t.len() implies (#[trigger] t[j]) != "TCP"@ && t[j] != "UDP"@ by {
            assert(parts[j + 1] != "TCP"@ && parts[j + 1] != "UDP"@);
        }
        lemma_find_proto_none(t);
    }
}

proof fn lemma_find_arrow_at(s: Seq<char>, i: int)
    requires
        0 <= i <= s.len() - 2,
        s[i] == '-',
        s[i + 1] == '>',
        forall|j: int| 0 <= j < i ==> !((#[trigger] s[j]) == '-' && s[j + 1] == '>'),
    ensures
        find_arrow(s) == i,
    decreases i,
{
    if i > 0 {
        assert(!(s[0] == '-' && s[1] == '>'));
        let t = s.drop_first();
        assert(t[i - 1] == s[i] && t[i] == s[i + 1]);
        assert forall|j: int|
            0 <= j < i - 1 implies !((#[trigger] t[j]) == '-' && t[j + 1] == '>') by {
            assert(!(s[j + 1] == '-' && s[j + 2] == '>'));
        }
        lemma_find_arrow_at(t, i - 1);
    }
}

proof fn lemma_find_arrow_none(s: Seq<char>)
    requires
        forall|j: int| 0 <= j <= s.len() - 2 ==> !((#[trigger] s[j]) == '-' && s[j + 1] == '>'),
    ensures
        find_arrow(s) == -1,
    decreases s.len(),
{
    if s.len() >= 2 {
        assert(!(s[0] == '-' && s[1] == '>'));
        let t = s.drop_first();
        assert forall|j: int|
            0 <= j <= t.len() - 2 implies !((#[trigger] t[j]) == '-' && t[j + 1] == '>') by {
            assert(!(s[j + 1] == '-' && s[j + 2] == '>'));
        }
        lemma_find_arrow_none(t);
    }
}

/// The row one line of `lsof -nP` output yields, if any: at least four
/// whitespace-separated fields, a "TCP" or "UDP" field followed by a socket
/// name whose local part parses as address and port. The first two fields
/// are the process name and pid.
pub open spec fn lsof_row_spec(line: Seq<char>) -> Option<RowModel> {
    let t = trim_spec(line);
    if t.len() == 0 {
        None
    } else {
        let parts = tokens_spec(t);
        if parts.len() < 4 {
            None
        } else {
            let i = find_proto(parts);
            if i < 0 || i + 1 >= parts.len() {
                None
            } else {
                match addr_port_spec(before_arrow(parts[i + 1])) {
                    Some(ap) => Some(
                        RowModel {
                            protocol: parts[i],
                            local_addr: ap.0,
                            local_port: ap.1,
                            state: None,
                            pid: if is_digit_seq(parts[1]) && dec_val(parts[1]) <= u32::MAX {
                                Some(dec_val(parts[1]) as u32)
                            } else {
                                None
                            },
                            process: Some(parts[0]),
                        },
                    ),
                    None => None,
                }
            }
        }
    }
}

/// The rows that a sequence of lines yields, in order.
pub open spec fn rows_of_lines(ls: Seq<Seq<char>>) -> Seq<RowModel>
    decreases ls.len(),
{
    if ls.len() == 0 {
        Seq::empty()
    } else {
        rows_of_lines(ls.drop_last()) + match lsof_row_spec(ls.last()) {
            Some(r) => seq![r],
            None => Seq::empty(),
        }
    }
}

/// The rows of one whole `lsof` output: every line after the header, in
/// order.
pub open spec fn lsof_rows_spec(out: Seq<char>) -> Seq<RowModel> {
    let ls = lines_spec(out);
    if ls.len() == 0 {
        Seq::empty()
    } else {
        rows_of_lines(ls.skip(1))
    }
}

/// Parses one `lsof` line into a row, if it describes a socket.
fn parse_lsof_line(line: &str) -> (r: Option<PortUsage>)
    ensures
        match r {
            Some(row) => lsof_row_spec(line@) == Some(row@),
            None => lsof_row_spec(line@) is None,
        },
{
    let t = trim(line);
    if t.unicode_len() == 0 {
        return None;
    }
    let parts = split_ws(t);
    if parts.len() < 4 {
        return None;
    }
    let ghost pview = parts.deep_view();
    // first "TCP" or "UDP" field
    let mut i: usize = 0;
    let mut proto: usize = parts.len();
    while i < parts.len() && proto == parts.len()
        invariant
            pview == parts.deep_view(),
            i <= parts@.len(),
            proto == parts@.len() || (proto <= i && (pview[proto as int] == "TCP"@
                || pview[proto as int] == "UDP"@)),
            proto == parts@.len() ==> forall|j: int|
                0 <= j < i ==> (#[trigger] pview[j]) != "TCP"@ && pview[j] != "UDP"@,
            proto < parts@.len() ==> forall|j: int|
                0 <= j < proto ==> (#[trigger] pview[j]) != "TCP"@ && pview[j] != "UDP"@,
        decreases parts@.len() - i + if proto == parts@.len() {
            1int
        } else {
            0int
        },
    {
        if str_eq(parts[i].as_str(), "TCP") || str_eq(parts[i].as_str(), "UDP") {
            proto = i;
        } else {
            i = i + 1;
        }
    }
    if proto >= parts.len() {
        proof {
            lemma_find_proto_none(pview);
        }
        return None;
    }
    proof {
        lemma_find_proto_at(pview, proto as int);
    }
    if proto + 1 >= parts.len() {
        return None;
    }
    let local = split_before_arrow(parts[proto + 1].as_str());
    let ap = match parse_addr_port(local) {
        Some(ap) => ap,
        None => {
            return None;
        },
    };
    let pid = parse_dec_u32(parts[1].as_str());
    let row = PortUsage {
        protocol: parts[proto].clone(),
        local_addr: ap.0,
        local_port: ap.1,
        state: None,
        pid,
        process: Some(parts[0].clone()),
    };
    proof {
        assert(row@ == lsof_row_spec(line@).unwrap());
    }
    Some(row)
}

/// Parses one whole `lsof -nP` output: every line after the header that
/// describes a socket becomes a row, in order.
pub fn parse_lsof(output: &str) -> (r: Vec<PortUsage>)
    ensures
        rows_view(r@) == lsof_rows_spec(output@),
{
    let lines = split_lines(output);
    let ghost lview = lines.deep_view();
    let mut r: Vec<PortUsage> = Vec::new();
    if lines.len() == 0 {
        proof {
            assert(rows_view(r@) =~= lsof_rows_spec(output@));
        }
        return r;
    }
    let ghost body = lview.skip(1);
    let mut li: usize = 1;
    proof {
        assert(body.take(0) =~= Seq::<Seq<char>>::empty());
        assert(rows_view(r@) =~= Seq::<RowModel>::empty());
    }
    while li < lines.len()
        invariant
            lview == lines.deep_view(),
            lview.len() == lines@.len(),
            1 <= li <= lines@.len(),
            body == lview.skip(1),
            rows_view(r@) == rows_of_lines(body.take(li as int - 1)),
        decreases lines@.len() - li,
    {
        proof {
            assert(body.take(li as int).drop_last() =~= body.take(li as int - 1));
            assert(body.take(li as int).last() == lview[li as int]);
        }
        let ghost rd = rows_view(r@);
        match parse_lsof_line(lines[li].as_str()) {
            Some(row) => {
                let ghost rv = row@;
                r.push(row);
                proof {
                    assert(rows_view(r@) =~= rd + seq![rv]);
                }
            },
            None => {
                proof {
                    assert(rows_of_lines(body.take(li as int)) =~= rd);
                }
            },
        }
        li = li + 1;
    }
    proof {
        assert(body.take(lines@.len() as int - 1) =~= body);
    }
    r
}

/// `s` without everything from its first '%' on (an interface suffix).
pub open spec fn before_percent(s: Seq<char>) -> Seq<char> {
    let i = crate::text::ffind_char(s, '%');
    if i < 0 {
        s
    } else {
        s.take(i)
    }
}

/// The position of the first "pid=" in `s`, or -1.
pub open spec fn find_pid_eq(s: Seq<char>) -> int
    decreases s.len(),
{
    if s.len() < 4 {
        -1
    } else if s[0] == 'p' && s[1] == 'i' && s[2] == 'd' && s[3] == '=' {
        0
    } else {
        let r = find_pid_eq(s.drop_first());
        if r < 0 {
            -1
        } else {
            r + 1
        }
    }
}

/// The position of the first `("` in `s`, or -1.
pub open spec fn find_paren_quote(s: Seq<char>) -> int
    decreases s.len(),
{
    if s.len() < 2 {
        -1
    } else if s[0] == '(' && s[1] == '"' {
        0
    } else {
        let r = find_paren_quote(s.drop_first());
        if r < 0 {
            -1
        } else {
            r + 1
        }
    }
}

proof fn lemma_find_pid_eq_at(s: Seq<char>, i: int)
    requires
        0 <= i <= s.len() - 4,
        s[i] == 'p' && s[i + 1] == 'i' && s[i + 2] == 'd' && s[i + 3] == '=',
        forall|j: int|
            0 <= j < i ==> !((#[trigger] s[j]) == 'p' && s[j + 1] == 'i' && s[j + 2] == 'd' && s[j
                + 3] == '='),
    ensures
        find_pid_eq(s) == i,
    decreases i,
{
    if i > 0 {
        assert(!(s[0] == 'p' && s[1] == 'i' && s[2] == 'd' && s[3] == '='));
        let t = s.drop_first();
        assert(t[i - 1] == s[i] && t[i] == s[i + 1] && t[i + 1] == s[i + 2] && t[i + 2] == s[i
            + 3]);
        assert forall|j: int|
            0 <= j < i - 1 implies !((#[trigger] t[j]) == 'p' && t[j + 1] == 'i' && t[j + 2] == 'd'
                && t[j + 3] == '=') by {
            assert(!(s[j + 1] == 'p' && s[j + 2] == 'i' && s[j + 3] == 'd' && s[j + 4] == '='));
        }
        lemma_find_pid_eq_at(t, i - 1);
    }
}

proof fn lemma_find_pid_eq_none(s: Seq<char>)
    requires
        forall|j: int|
            0 <= j <= s.len() - 4 ==> !((#[trigger] s[j]) == 'p' && s[j + 1] == 'i' && s[j + 2]
                == 'd' && s[j + 3] == '='),
    ensures
        find_pid_eq(s) == -1,
    decreases s.len(),
{
    if s.len() >= 4 {
        assert(!(s[0] == 'p' && s[1] == 'i' && s[2] == 'd' && s[3] == '='));
        let t = s.drop_first();
        assert forall|j: int|
            0 <= j <= t.len() - 4 implies !((#[trigger] t[j]) == 'p' && t[j + 1] == 'i' && t[j + 2]
                == 'd' && t[j + 3] == '=') by {
            assert(!(s[j + 1] == 'p' && s[j + 2] == 'i' && s[j + 3] == 'd' && s[j + 4] == '='));
        }
        lemma_find_pid_eq_none(t);
    }
}

proof fn lemma_find_paren_quote_at(s: Seq<char>, i: int)
    requires
        0 <= i <= s.len() - 2,
        s[i] == '(' && s[i + 1] == '"',
        forall|j: int| 0 <= j < i ==> !((#[trigger] s[j]) == '(' && s[j + 1] == '"'),
    ensures
        find_paren_quote(s) == i,
    decreases i,
{
    if i > 0 {
        assert(!(s[0] == '(' && s[1] == '"'));
        let t = s.drop_first();
        assert(t[i - 1] == s[i] && t[i] == s[i + 1]);
        assert forall|j: int|
            0 <= j < i - 1 implies !((#[trigger] t[j]) == '(' && t[j + 1] == '"') by {
            assert(!(s[j + 1] == '(' && s[j + 2] == '"'));
        }
        lemma_find_paren_quote_at(t, i - 1);
    }
}

proof fn lemma_find_paren_quote_none(s: Seq<char>)
    requires
        forall|j: int| 0 <= j <= s.len() - 2 ==> !((#[trigger] s[j]) == '(' && s[j + 1] == '"'),
    ensures
        find_paren_quote(s) == -1,
    decreases s.len(),
{
    if s.len() >= 2 {
        assert(!(s[0] == '(' && s[1] == '"'));
        let t = s.drop_first();
        assert forall|j: int|
            0 <= j <= t.len() - 2 implies !((#[trigger] t[j]) == '(' && t[j + 1] == '"') by {
            assert(!(s[j + 1] == '(' && s[j + 2] == '"'));
        }
        lemma_find_paren_quote_none(t);
    }
}

/// The fields joined back together with single spaces.
pub open spec fn join_sp(parts: Seq<Seq<char>>) -> Seq<char>
    decreases parts.len(),
{
    if parts.len() == 0 {
        Seq::empty()
    } else if parts.len() == 1 {
        parts[0]
    } else {
        join_sp(parts.drop_last()) + " "@ + parts.last()
    }
}

/// The owning pid named in a socket's process column, if any: the digits
/// right after the first "pid=".
pub open spec fn ss_pid_spec(s: Seq<char>) -> Option<u32> {
    let i = find_pid_eq(s);
    if i < 0 {
        None
    } else {
        let rest = s.skip(i + 4);
        let d = rest.take(crate::text::digit_run_len(rest));
        if is_digit_seq(d) && dec_val(d) <= u32::MAX {
            Some(dec_val(d) as u32)
        } else {
            None
        }
    }
}

/// The process name quoted in a socket's process column, if any: the text
/// between the first `("` and the next '"'.
pub open spec fn ss_process_spec(s: Seq<char>) -> Option<Seq<char>> {
    let i = find_paren_quote(s);
    if i < 0 {
        None
    } else {
        let rest = s.skip(i + 2);
        let e = crate::text::ffind_char(rest, '"');
        if e < 0 {
            None
        } else {
            Some(rest.take(e))
        }
    }
}

/// The row one line of `ss -H -lntup` output yields, if any: at least six
/// whitespace-separated fields, a protocol column beginning with "tcp" or
/// "udp", a state column, a local socket name, and an optional process
/// column carrying pid and name.
pub open spec fn ss_row_spec(line: Seq<char>) -> Option<RowModel> {
    let t = trim_spec(line);
    if t.len() == 0 {
        None
    } else {
        let parts = tokens_spec(t);
        if parts.len() < 6 {
            None
        } else {
            let netid = parts[0];
            let tcp = 3 <= netid.len() && netid.take(3) == "tcp"@;
            let udp = 3 <= netid.len() && netid.take(3) == "udp"@;
            if !tcp && !udp {
                None
            } else {
                let local = before_percent(before_arrow(parts[4]));
                match addr_port_spec(local) {
                    None => None,
                    Some(ap) => {
                        let pinfo = join_sp(parts.skip(6));
                        Some(
                            RowModel {
                                protocol: if tcp {
                                    "TCP"@
                                } else {
                                    "UDP"@
                                },
                                local_addr: ap.0,
                                local_port: ap.1,
                                state: Some(parts[1]),
                                pid: ss_pid_spec(pinfo),
                                process: ss_process_spec(pinfo),
                            },
                        )
                    },
                }
            }
        }
    }
}

/// The rows that a sequence of `ss` lines yields, in order.
pub open spec fn ss_rows_of_lines(ls: Seq<Seq<char>>) -> Seq<RowModel>
    decreases ls.len(),
{
    if ls.len() == 0 {
        Seq::empty()
    } else {
        ss_rows_of_lines(ls.drop_last()) + match ss_row_spec(ls.last()) {
            Some(r) => seq![r],
            None => Seq::empty(),
        }
    }
}

/// The rows of one whole `ss -H` output: every line, in order.
pub open spec fn ss_rows_spec(out: Seq<char>) -> Seq<RowModel> {
    ss_rows_of_lines(lines_spec(out))
}

/// The key that a row is deduplicated by: protocol, local address, local
/// port and pid.
pub open spec fn row_key(r: RowModel) -> (Seq<char>, Seq<char>, u16, Option<u32>) {
    (r.protocol, r.local_addr, r.local_port, r.pid)
}

/// Whether the row at `i` is the first of its key.
pub open spec fn first_of_key(s: Seq<RowModel>, i: int) -> bool {
    forall|j: int| 0 <= j < i ==> row_key(#[trigger] s[j]) != row_key(s[i])
}

/// The rows with every later duplicate of a key removed, in order.
pub open spec fn dedup_spec(s: Seq<RowModel>) -> Seq<RowModel>
    decreases s.len(),
{
    if s.len() == 0 {
        Seq::empty()
    } else {
        dedup_spec(s.drop_last()) + if first_of_key(s, s.len() - 1) {
            seq![s.last()]
        } else {
            Seq::empty()
        }
    }
}

fn same_key(a: &PortUsage, b: &PortUsage) -> (r: bool)
    ensures
        r == (row_key(a@) == row_key(b@)),
{
    let pids_eq = match (&a.pid, &b.pid) {
        (Some(x), Some(y)) => *x == *y,
        (None, None) => true,
        _ => false,
    };
    pids_eq && a.local_port == b.local_port && str_eq(a.protocol.as_str(), b.protocol.as_str())
        && str_eq(a.local_addr.as_str(), b.local_addr.as_str())
}

/// Keeps the first row of each (protocol, address, port, pid) key.
pub fn dedup_rows(rows: Vec<PortUsage>) -> (r: Vec<PortUsage>)
    ensures
        rows_view(r@) == dedup_spec(rows_view(rows@)),
{
    let ghost sview = rows_view(rows@);
    let mut r: Vec<PortUsage> = Vec::new();
    let mut i: usize = 0;
    proof {
        assert(sview.take(0) =~= Seq::<RowModel>::empty());
        assert(rows_view(r@) =~= Seq::<RowModel>::empty());
    }
    while i < rows.len()
        invariant
            sview == rows_view(rows@),
            sview.len() == rows@.len(),
            i <= rows@.len(),
            rows_view(r@) == dedup_spec(sview.take(i as int)),
        decreases rows@.len() - i,
    {
        proof {
            assert(sview.take(i as int + 1).drop_last() =~= sview.take(i as int));
            assert(sview.take(i as int + 1).last() == sview[i as int]);
        }
        // is an earlier row of the same key present?
        let mut j: usize = 0;
        let mut dup = false;
        while j < i
            invariant
                sview == rows_view(rows@),
                sview.len() == rows@.len(),
                i < rows@.len(),
                j <= i,
                dup ==> exists|k: int|
                    0 <= k < i && row_key(#[trigger] sview[k]) == row_key(sview[i as int]),
                !dup ==> forall|k: int|
                    0 <= k < j ==> row_key(#[trigger] sview[k]) != row_key(sview[i as int]),
            decreases i - j,
        {
            if !dup {
                if same_key(&rows[j], &rows[i]) {
                    proof {
                        assert(sview[j as int] == rows@[j as int]@);
                        assert(sview[i as int] == rows@[i as int]@);
                    }
                    dup = true;
                }
            }
            j = j + 1;
        }
        let ghost rd = rows_view(r@);
        if !dup {
            proof {
                assert forall|k: int|
                    0 <= k < i implies row_key(#[trigger] sview.take(i as int + 1)[k]) != row_key(
                    sview.take(i as int + 1)[i as int],
                ) by {
                    assert(row_key(sview[k]) != row_key(sview[i as int]));
                }
                assert(first_of_key(sview.take(i as int + 1), i as int));
            }
            let ghost rv = rows@[i as int]@;
            let row = clone_row(&rows[i]);
            r.push(row);
            proof {
                assert(rows_view(r@) =~= rd + seq![rv]);
            }
        } else {
            proof {
                let k = choose|k: int|
                    0 <= k < i && row_key(#[trigger] sview[k]) == row_key(sview[i as int]);
                assert(row_key(sview.take(i as int + 1)[k]) == row_key(
                    sview.take(i as int + 1)[i as int],
                ));
                assert(!first_of_key(sview.take(i as int + 1), i as int));
                assert(rows_view(r@) =~= rd + Seq::<RowModel>::empty());
            }
        }
        i = i + 1;
    }
    proof {
        assert(sview.take(rows@.len() as int) =~= sview);
    }
    r
}

fn clone_row(r: &PortUsage) -> (c: PortUsage)
    ensures
        c@ == r@,
{
    PortUsage {
        protocol: r.protocol.clone(),
        local_addr: r.local_addr.clone(),
        local_port: r.local_port,
        state: match &r.state {
            Some(s) => Some(s.clone()),
            None => None,
        },
        pid: r.pid,
        process: match &r.process {
            Some(s) => Some(s.clone()),
            None => None,
        },
    }
}

/// The port-usage listing built from the two captured tool outputs: the TCP
/// rows, then the UDP rows, keeping the first row of each key.
pub fn list_port_usage(tcp_output: &str, udp_output: &str) -> (r: Vec<PortUsage>)
    ensures
        rows_view(r@) == dedup_spec(lsof_rows_spec(tcp_output@) + lsof_rows_spec(udp_output@)),
{
    let mut rows = parse_lsof(tcp_output);
    let mut udp = parse_lsof(udp_output);
    let ghost tview = rows_view(rows@);
    let ghost uview = rows_view(udp@);
    let mut k: usize = 0;
    proof {
        assert(uview.take(0) =~= Seq::<RowModel>::empty());
        assert(tview + uview.take(0) =~= tview);
    }
    while k < udp.len()
        invariant
            uview == rows_view(udp@),
            uview.len() == udp@.len(),
            k <= udp@.len(),
            rows_view(rows@) == tview + uview.take(k as int),
        decreases udp@.len() - k,
    {
        let ghost rd = rows_view(rows@);
        let ghost rv = udp@[k as int]@;
        let row = clone_row(&udp[k]);
        rows.push(row);
        proof {
            assert(rows_view(rows@) =~= rd + seq![rv]);
            assert(uview.take(k as int + 1) =~= uview.take(k as int) + seq![rv]);
            assert((tview + uview.take(k as int)) + seq![rv] =~= tview + (uview.take(k as int)
                + seq![rv]));
        }
        k = k + 1;
    }
    proof {
        assert(uview.take(udp@.len() as int) =~= uview);
    }
    dedup_rows(rows)
}

/// The prefix of a socket name before its first "->", or all of it.
fn split_before_arrow<'a>(name: &'a str) -> (r: &'a str)
    ensures
        r@ == before_arrow(name@),
{
    let nn = name.unicode_len();
    let mut a: usize = 0;
    let mut arrow: usize = nn;
    while nn > 0 && a < nn - 1 && arrow == nn
        invariant
            nn == name@.len(),
            a <= nn,
            arrow == nn || (arrow + 1 < nn && name@[arrow as int] == '-' && name@[arrow as int
                + 1] == '>'),
            arrow == nn ==> forall|j: int|
                0 <= j < a ==> !((#[trigger] name@[j]) == '-' && name@[j + 1] == '>'),
            arrow < nn ==> forall|j: int|
                0 <= j < arrow ==> !((#[trigger] name@[j]) == '-' && name@[j + 1] == '>'),
        decreases nn - a + if arrow == nn {
            1int
        } else {
            0int
        },
    {
        if name.get_char(a) == '-' && name.get_char(a + 1) == '>' {
            arrow = a;
        } else {
            a = a + 1;
        }
    }
    let r = if arrow < nn {
        proof {
            lemma_find_arrow_at(name@, arrow as int);
        }
        name.substring_char(0, arrow)
    } else {
        proof {
            if nn >= 2 {
                lemma_find_arrow_none(name@);
            } else {
                assert(find_arrow(name@) == -1);
            }
        }
        name
    };
    proof {
        assert(r@ =~= before_arrow(name@));
    }
    r
}

/// The prefix of a socket name before its first '%', or all of it.
fn split_before_percent<'a>(s: &'a str) -> (r: &'a str)
    ensures
        r@ == before_percent(s@),
{
    let n = s.unicode_len();
    let mut k: usize = 0;
    let mut col: usize = n;
    while k < n && col == n
        invariant
            n == s@.len(),
            k <= n,
            col == n || (col < n && s@[col as int] == '%'),
            col == n ==> forall|j: int| 0 <= j < k ==> (#[trigger] s@[j]) != '%',
            col < n ==> forall|j: int| 0 <= j < col ==> (#[trigger] s@[j]) != '%',
        decreases n - k + if col == n {
            1int
        } else {
            0int
        },
    {
        if s.get_char(k) == '%' {
            col = k;
        } else {
            k = k + 1;
        }
    }
    let r = if col < n {
        proof {
            crate::text::lemma_ffind_char_at(s@, '%', col as int);
        }
        s.substring_char(0, col)
    } else {
        proof {
            crate::text::lemma_ffind_char_none(s@, '%');
        }
        s
    };
    proof {
        assert(r@ =~= before_percent(s@));
    }
    r
}

/// Reads the pid and process name out of an `ss` process column.
fn ss_process_fields(pinfo: &str) -> (r: (Option<u32>, Option<String>))
    ensures
        r.0 == ss_pid_spec(pinfo@),
        match r.1 {
            Some(p) => ss_process_spec(pinfo@) == Some(p@),
            None => ss_process_spec(pinfo@) is None,
        },
{
    let n = pinfo.unicode_len();
    // first "pid="
    let mut i: usize = 0;
    let mut at: usize = n;
    while n >= 4 && i <= n - 4 && at == n
        invariant
            n == pinfo@.len(),
            i <= n,
            at == n || (at <= n - 4 && pinfo@[at as int] == 'p' && pinfo@[at as int + 1] == 'i'
                && pinfo@[at as int + 2] == 'd' && pinfo@[at as int + 3] == '='),
            at == n ==> forall|j: int|
                0 <= j < i ==> !((#[trigger] pinfo@[j]) == 'p' && pinfo@[j + 1] == 'i' && pinfo@[j
                    + 2] == 'd' && pinfo@[j + 3] == '='),
            at < n ==> forall|j: int|
                0 <= j < at ==> !((#[trigger] pinfo@[j]) == 'p' && pinfo@[j + 1] == 'i' && pinfo@[j
                    + 2] == 'd' && pinfo@[j + 3] == '='),
        decreases n - i + if at == n {
            1int
        } else {
            0int
        },
    {
        if pinfo.get_char(i) == 'p' && pinfo.get_char(i + 1) == 'i' && pinfo.get_char(i + 2) == 'd'
            && pinfo.get_char(i + 3) == '=' {
            at = i;
        } else {
            i = i + 1;
        }
    }
    let pid = if at < n {
        proof {
            lemma_find_pid_eq_at(pinfo@, at as int);
        }
        let rest = pinfo.substring_char(at + 4, n);
        proof {
            assert(rest@ =~= pinfo@.skip(at as int + 4));
        }
        let rn = rest.unicode_len();
        let mut w: usize = 0;
        let mut stop = false;
        while !stop && w < rn
            invariant
                rn == rest@.len(),
                w <= rn,
                forall|j: int| 0 <= j < w ==> crate::text::is_digit_char(#[trigger] rest@[j]),
                stop ==> w < rn && !crate::text::is_digit_char(rest@[w as int]),
            decreases rn - w + if stop {
                0int
            } else {
                1int
            },
        {
            if crate::text::digit_char(rest.get_char(w)) {
                w = w + 1;
            } else {
                stop = true;
            }
        }
        proof {
            crate::text::lemma_digit_run_len_at(rest@, w as int);
        }
        let d = rest.substring_char(0, w);
        proof {
            assert(d@ =~= rest@.take(w as int));
        }
        parse_dec_u32(d)
    } else {
        proof {
            if n >= 4 {
                lemma_find_pid_eq_none(pinfo@);
            } else {
                assert(find_pid_eq(pinfo@) == -1);
            }
        }
        None
    };
    // first `("`
    let mut q: usize = 0;
    let mut pq: usize = n;
    while n > 0 && q < n - 1 && pq == n
        invariant
            n == pinfo@.len(),
            q <= n,
            pq == n || (pq <= n - 2 && pinfo@[pq as int] == '(' && pinfo@[pq as int + 1] == '"'),
            pq == n ==> forall|j: int|
                0 <= j < q ==> !((#[trigger] pinfo@[j]) == '(' && pinfo@[j + 1] == '"'),
            pq < n ==> forall|j: int|
                0 <= j < pq ==> !((#[trigger] pinfo@[j]) == '(' && pinfo@[j + 1] == '"'),
        decreases n - q + if pq == n {
            1int
        } else {
            0int
        },
    {
        if pinfo.get_char(q) == '(' && pinfo.get_char(q + 1) == '"' {
            pq = q;
        } else {
            q = q + 1;
        }
    }
    let process = if pq < n {
        proof {
            lemma_find_paren_quote_at(pinfo@, pq as int);
        }
        let rest = pinfo.substring_char(pq + 2, n);
        proof {
            assert(rest@ =~= pinfo@.skip(pq as int + 2));
        }
        let rn = rest.unicode_len();
        let mut e: usize = 0;
        let mut qe: usize = rn;
        while e < rn && qe == rn
            invariant
                rn == rest@.len(),
                e <= rn,
                qe == rn || (qe < rn && rest@[qe as int] == '"'),
                qe == rn ==> forall|j: int| 0 <= j < e ==> (#[trigger] rest@[j]) != '"',
                qe < rn ==> forall|j: int| 0 <= j < qe ==> (#[trigger] rest@[j]) != '"',
            decreases rn - e + if qe == rn {
                1int
            } else {
                0int
            },
        {
            if rest.get_char(e) == '"' {
                qe = e;
            } else {
                e = e + 1;
            }
        }
        if qe < rn {
            proof {
                crate::text::lemma_ffind_char_at(rest@, '"', qe as int);
            }
            let p = rest.substring_char(0, qe).to_owned();
            proof {
                assert(p@ =~= rest@.take(qe as int));
            }
            Some(p)
        } else {
            proof {
                crate::text::lemma_ffind_char_none(rest@, '"');
            }
            None
        }
    } else {
        proof {
            if n >= 2 {
                lemma_find_paren_quote_none(pinfo@);
            } else {
                assert(find_paren_quote(pinfo@) == -1);
            }
        }
        None
    };
    (pid, process)
}

/// Parses one `ss` line into a row, if it describes a socket.
fn parse_ss_line(line: &str) -> (r: Option<PortUsage>)
    ensures
        match r {
            Some(row) => ss_row_spec(line@) == Some(row@),
            None => ss_row_spec(line@) is None,
        },
{
    let t = trim(line);
    if t.unicode_len() == 0 {
        return None;
    }
    let parts = split_ws(t);
    if parts.len() < 6 {
        return None;
    }
    let ghost pview = parts.deep_view();
    proof {
        reveal_strlit("tcp");
        reveal_strlit("udp");
    }
    let tcp = crate::text::starts_with(parts[0].as_str(), "tcp");
    let udp = crate::text::starts_with(parts[0].as_str(), "udp");
    if !tcp && !udp {
        return None;
    }
    let local0 = split_before_arrow(parts[4].as_str());
    let local = split_before_percent(local0);
    let ap = match parse_addr_port(local) {
        Some(ap) => ap,
        None => {
            return None;
        },
    };
    // the process column, fields six onward joined back together
    let mut pinfo = String::new();
    let mut k: usize = 6;
    proof {
        assert(pview.subrange(6, 6) =~= Seq::<Seq<char>>::empty());
        assert(pinfo@ =~= join_sp(pview.subrange(6, 6)));
    }
    while k < parts.len()
        invariant
            pview == parts.deep_view(),
            pview.len() == parts@.len(),
            6 <= k <= parts@.len(),
            pinfo@ == join_sp(pview.subrange(6, k as int)),
        decreases parts@.len() - k,
    {
        proof {
            assert(pview.subrange(6, k as int + 1).drop_last() =~= pview.subrange(6, k as int));
            assert(pview.subrange(6, k as int + 1).last() == pview[k as int]);
        }
        if k > 6 {
            pinfo.append(" ");
        }
        pinfo.append(parts[k].as_str());
        k = k + 1;
    }
    proof {
        assert(pview.subrange(6, parts@.len() as int) =~= pview.skip(6));
    }
    let (pid, process) = ss_process_fields(pinfo.as_str());
    let protocol = if tcp {
        String::from_str("TCP")
    } else {
        String::from_str("UDP")
    };
    let row = PortUsage {
        protocol,
        local_addr: ap.0,
        local_port: ap.1,
        state: Some(parts[1].clone()),
        pid,
        process,
    };
    proof {
        assert(row@ == ss_row_spec(line@).unwrap());
    }
    Some(row)
}

/// Parses one whole `ss -H -lntup` output: every line that describes a
/// socket becomes a row, in order.
pub fn parse_ss(output: &str) -> (r: Vec<PortUsage>)
    ensures
        rows_view(r@) == ss_rows_spec(output@),
{
    let lines = split_lines(output);
    let ghost lview = lines.deep_view();
    let mut r: Vec<PortUsage> = Vec::new();
    let mut li: usize = 0;
    proof {
        assert(lview.take(0) =~= Seq::<Seq<char>>::empty());
        assert(rows_view(r@) =~= Seq::<RowModel>::empty());
    }
    while li < lines.len()
        invariant
            lview == lines.deep_view(),
            lview.len() == lines@.len(),
            li <= lines@.len(),
            rows_view(r@) == ss_rows_of_lines(lview.take(li as int)),
        decreases lines@.len() - li,
    {
        proof {
            assert(lview.take(li as int + 1).drop_last() =~= lview.take(li as int));
            assert(lview.take(li as int + 1).last() == lview[li as int]);
        }
        let ghost rd = rows_view(r@);
        match parse_ss_line(lines[li].as_str()) {
            Some(row) => {
                let ghost rv = row@;
                r.push(row);
                proof {
                    assert(rows_view(r@) =~= rd + seq![rv]);
                }
            },
            None => {
                proof {
                    assert(ss_rows_of_lines(lview.take(li as int)) =~= rd);
                }
            },
        }
        li = li + 1;
    }
    proof {
        assert(lview.take(lines@.len() as int) =~= lview);
    }
    r
}

/// `s` without its trailing run of `c`.
pub open spec fn drop_trailing(s: Seq<char>, c: char) -> Seq<char>
    decreases s.len(),
{
    if s.len() > 0 && s.last() == c {
        drop_trailing(s.drop_last(), c)
    } else {
        s
    }
}

pub proof fn lemma_drop_trailing_at(s: Seq<char>, c: char, b: int)
    requires
        0 <= b <= s.len(),
        forall|j: int| b <= j < s.len() ==> (#[trigger] s[j]) == c,
        b > 0 ==> s[b - 1] != c,
    ensures
        drop_trailing(s, c) == s.take(b),
    decreases s.len() - b,
{
    if b == s.len() {
        assert(s.take(b) =~= s);
    } else {
        assert(s.last() == c);
        let t = s.drop_last();
        assert forall|j: int| b <= j < t.len() implies (#[trigger] t[j]) == c by {
            assert(s[j] == c);
        }
        lemma_drop_trailing_at(t, c, b);
        assert(t.take(b) =~= s.take(b));
    }
}

/// The local-socket field of a `netstat` line, with surrounding brackets
/// and whitespace peeled off.
pub open spec fn netstat_local(s: Seq<char>) -> Seq<char> {
    trim_spec(drop_trailing(drop_leading(s, '['), ']'))
}

/// The row one line of `netstat -ano` output yields, if any: header lines
/// are skipped; a protocol field equal to "tcp" or "udp" (any case), a
/// local socket field, and for TCP listings a state field followed by the
/// owning pid.
pub open spec fn netstat_row_spec(line: Seq<char>) -> Option<RowModel> {
    let t = trim_spec(line);
    if t.len() == 0 {
        None
    } else if ("Proto"@.len() <= t.len() && t.take("Proto"@.len() as int) == "Proto"@) || (
    "Active"@.len() <= t.len() && t.take("Active"@.len() as int) == "Active"@) {
        None
    } else {
        let parts = tokens_spec(t);
        if parts.len() < 4 {
            None
        } else {
            let tcp = crate::text::eq_ci_spec(parts[0], "tcp"@);
            let udp = crate::text::eq_ci_spec(parts[0], "udp"@);
            if !tcp && !udp {
                None
            } else {
                match addr_port_spec(netstat_local(parts[1])) {
                    None => None,
                    Some(ap) => if tcp && parts.len() >= 5 {
                        Some(
                            RowModel {
                                protocol: "TCP"@,
                                local_addr: ap.0,
                                local_port: ap.1,
                                state: Some(parts[3]),
                                pid: if is_digit_seq(parts[4]) && dec_val(parts[4]) <= u32::MAX {
                                    Some(dec_val(parts[4]) as u32)
                                } else {
                                    None
                                },
                                process: None,
                            },
                        )
                    } else {
                        Some(
                            RowModel {
                                protocol: if tcp {
                                    "TCP"@
                                } else {
                                    "UDP"@
                                },
                                local_addr: ap.0,
                                local_port: ap.1,
                                state: None,
                                pid: if is_digit_seq(parts[3]) && dec_val(parts[3]) <= u32::MAX {
                                    Some(dec_val(parts[3]) as u32)
                                } else {
                                    None
                                },
                                process: None,
                            },
                        )
                    },
                }
            }
        }
    }
}

/// The rows that a sequence of `netstat` lines yields, in order.
pub open spec fn netstat_rows_of_lines(ls: Seq<Seq<char>>) -> Seq<RowModel>
    decreases ls.len(),
{
    if ls.len() == 0 {
        Seq::empty()
    } else {
        netstat_rows_of_lines(ls.drop_last()) + match netstat_row_spec(ls.last()) {
            Some(r) => seq![r],
            None => Seq::empty(),
        }
    }
}

/// The rows of one whole `netstat -ano` output: every line, in order.
pub open spec fn netstat_rows_spec(out: Seq<char>) -> Seq<RowModel> {
    netstat_rows_of_lines(lines_spec(out))
}

/// Peels brackets and whitespace off a `netstat` local-socket field.
fn netstat_local_exec(s: &str) -> (r: &str)
    ensures
        r@ == netstat_local(s@),
{
    let n = s.unicode_len();
    // leading '['
    let mut a: usize = 0;
    let mut stop = false;
    while !stop && a < n
        invariant
            n == s@.len(),
            a <= n,
            forall|j: int| 0 <= j < a ==> (#[trigger] s@[j]) == '[',
            stop ==> a < n && s@[a as int] != '[',
        decreases n - a + if stop {
            0int
        } else {
            1int
        },
    {
        if s.get_char(a) == '[' {
            a = a + 1;
        } else {
            stop = true;
        }
    }
    proof {
        lemma_drop_leading_at(s@, '[', a as int);
    }
    let ghost mid = s@.skip(a as int);
    // trailing ']' of what remains
    let mut b: usize = n;
    let mut stop2 = false;
    while !stop2 && b > a
        invariant
            n == s@.len(),
            a <= b <= n,
            forall|j: int| b <= j < n ==> (#[trigger] s@[j]) == ']',
            stop2 ==> b > a && s@[b - 1] != ']',
        decreases b - a + if stop2 {
            0int
        } else {
            1int
        },
    {
        if s.get_char(b - 1) == ']' {
            b = b - 1;
        } else {
            stop2 = true;
        }
    }
    proof {
        assert forall|j: int| b - a <= j < mid.len() implies (#[trigger] mid[j]) == ']' by {
            assert(s@[j + a] == ']');
        }
        if b > a {
            assert(mid[b - a - 1] == s@[b - 1]);
        }
        lemma_drop_trailing_at(mid, ']', b as int - a as int);
        assert(mid.take(b as int - a as int) =~= s@.subrange(a as int, b as int));
    }
    trim(s.substring_char(a, b))
}

/// Parses one `netstat` line into a row, if it describes a socket.
fn parse_netstat_line(line: &str) -> (r: Option<PortUsage>)
    ensures
        match r {
            Some(row) => netstat_row_spec(line@) == Some(row@),
            None => netstat_row_spec(line@) is None,
        },
{
    let t = trim(line);
    if t.unicode_len() == 0 {
        return None;
    }
    proof {
        reveal_strlit("Proto");
        reveal_strlit("Active");
        reveal_strlit("tcp");
        reveal_strlit("udp");
    }
    if crate::text::starts_with(t, "Proto") || crate::text::starts_with(t, "Active") {
        return None;
    }
    let parts = split_ws(t);
    if parts.len() < 4 {
        return None;
    }
    let ghost pview = parts.deep_view();
    let tcp = crate::text::eq_ignore_ci(parts[0].as_str(), "tcp");
    let udp = crate::text::eq_ignore_ci(parts[0].as_str(), "udp");
    if !tcp && !udp {
        return None;
    }
    let local = netstat_local_exec(parts[1].as_str());
    let ap = match parse_addr_port(local) {
        Some(ap) => ap,
        None => {
            return None;
        },
    };
    let row = if tcp && parts.len() >= 5 {
        PortUsage {
            protocol: String::from_str("TCP"),
            local_addr: ap.0,
            local_port: ap.1,
            state: Some(parts[3].clone()),
            pid: parse_dec_u32(parts[4].as_str()),
            process: None,
        }
    } else {
        PortUsage {
            protocol: if tcp {
                String::from_str("TCP")
            } else {
                String::from_str("UDP")
            },
            local_addr: ap.0,
            local_port: ap.1,
            state: None,
            pid: parse_dec_u32(parts[3].as_str()),
            process: None,
        }
    };
    proof {
        assert(row@ == netstat_row_spec(line@).unwrap());
    }
    Some(row)
}

/// Parses one whole `netstat -ano` output: every line that describes a
/// socket becomes a row, in order. The owning process names are not in the
/// listing; every row's process is unknown.
pub fn parse_netstat(output: &str) -> (r: Vec<PortUsage>)
    ensures
        rows_view(r@) == netstat_rows_spec(output@),
{
    let lines = split_lines(output);
    let ghost lview = lines.deep_view();
    let mut r: Vec<PortUsage> = Vec::new();
    let mut li: usize = 0;
    proof {
        assert(lview.take(0) =~= Seq::<Seq<char>>::empty());
        assert(rows_view(r@) =~= Seq::<RowModel>::empty());
    }
    while li < lines.len()
        invariant
            lview == lines.deep_view(),
            lview.len() == lines@.len(),
            li <= lines@.len(),
            rows_view(r@) == netstat_rows_of_lines(lview.take(li as int)),
        decreases lines@.len() - li,
    {
        proof {
            assert(lview.take(li as int + 1).drop_last() =~= lview.take(li as int));
            assert(lview.take(li as int + 1).last() == lview[li as int]);
        }
        let ghost rd = rows_view(r@);
        match parse_netstat_line(lines[li].as_str()) {
            Some(row) => {
                let ghost rv = row@;
                r.push(row);
                proof {
                    assert(rows_view(r@) =~= rd + seq![rv]);
                }
            },
            None => {
                proof {
                    assert(netstat_rows_of_lines(lview.take(li as int)) =~= rd);
                }
            },
        }
        li = li + 1;
    }
    proof {
        assert(lview.take(lines@.len() as int) =~= lview);
    }
    r
}

/// Lexicographic order on character sequences by code point — the order
/// the standard string comparison gives.
pub open spec fn lex_le(a: Seq<char>, b: Seq<char>) -> bool
    decreases a.len(),
{
    if a.len() == 0 {
        true
    } else if b.len() == 0 {
        false
    } else if (a[0] as u32) < (b[0] as u32) {
        true
    } else if (a[0] as u32) > (b[0] as u32) {
        false
    } else {
        lex_le(a.drop_first(), b.drop_first())
    }
}

proof fn lemma_char_code_inj(c1: char, c2: char)
    requires
        c1 as u32 == c2 as u32,
    ensures
        c1 == c2,
{
}

proof fn lemma_lex_le_total(a: Seq<char>, b: Seq<char>)
    ensures
        lex_le(a, b) || lex_le(b, a),
    decreases a.len(),
{
    if a.len() > 0 && b.len() > 0 && (a[0] as u32) == (b[0] as u32) {
        lemma_lex_le_total(a.drop_first(), b.drop_first());
    }
}

proof fn lemma_lex_le_antisym(a: Seq<char>, b: Seq<char>)
    requires
        lex_le(a, b),
        lex_le(b, a),
    ensures
        a == b,
    decreases a.len(),
{
    if a.len() == 0 {
        assert(b.len() == 0);
        assert(a =~= b);
    } else {
        assert((a[0] as u32) == (b[0] as u32));
        lemma_char_code_inj(a[0], b[0]);
        lemma_lex_le_antisym(a.drop_first(), b.drop_first());
        assert(a.len() == b.len());
        assert forall|j: int| 0 <= j < a.len() implies a[j] == b[j] by {
            if j > 0 {
                assert(a.drop_first()[j - 1] == b.drop_first()[j - 1]);
            }
        }
        assert(a =~= b);
    }
}

proof fn lemma_lex_le_trans(a: Seq<char>, b: Seq<char>, c: Seq<char>)
    requires
        lex_le(a, b),
        lex_le(b, c),
    ensures
        lex_le(a, c),
    decreases a.len(),
{
    if a.len() > 0 {
        assert(b.len() > 0);
        assert(c.len() > 0);
        if (a[0] as u32) == (b[0] as u32) && (b[0] as u32) == (c[0] as u32) {
            lemma_lex_le_trans(a.drop_first(), b.drop_first(), c.drop_first());
        }
    }
}

/// The pid a row is ordered by: an unknown pid counts as zero.
pub open spec fn pid_or_zero(p: Option<u32>) -> u32 {
    match p {
        Some(v) => v,
        None => 0,
    }
}

/// The listing order: by local port, then protocol, then local address,
/// then pid.
pub open spec fn row_le(a: RowModel, b: RowModel) -> bool {
    if a.local_port != b.local_port {
        a.local_port < b.local_port
    } else if a.protocol != b.protocol {
        lex_le(a.protocol, b.protocol)
    } else if a.local_addr != b.local_addr {
        lex_le(a.local_addr, b.local_addr)
    } else {
        pid_or_zero(a.pid) <= pid_or_zero(b.pid)
    }
}

proof fn lemma_row_le_total(a: RowModel, b: RowModel)
    ensures
        row_le(a, b) || row_le(b, a),
{
    lemma_lex_le_total(a.protocol, b.protocol);
    lemma_lex_le_total(a.local_addr, b.local_addr);
}

proof fn lemma_row_le_trans(a: RowModel, b: RowModel, c: RowModel)
    requires
        row_le(a, b),
        row_le(b, c),
    ensures
        row_le(a, c),
{
    if a.local_port == c.local_port && a.local_port == b.local_port {
        if a.protocol != b.protocol && b.protocol != c.protocol && a.protocol == c.protocol {
            lemma_lex_le_antisym(a.protocol, b.protocol);
        } else if a.protocol != b.protocol || b.protocol != c.protocol {
            if a.protocol != b.protocol && b.protocol != c.protocol {
                lemma_lex_le_trans(a.protocol, b.protocol, c.protocol);
            }
        } else {
            // protocols all equal: compare addresses the same way
            if a.local_addr != b.local_addr && b.local_addr != c.local_addr && a.local_addr
                == c.local_addr {
                lemma_lex_le_antisym(a.local_addr, b.local_addr);
            } else if a.local_addr != b.local_addr && b.local_addr != c.local_addr {
                lemma_lex_le_trans(a.local_addr, b.local_addr, c.local_addr);
            }
        }
    }
}

proof fn lemma_lex_le_skip(a: Seq<char>, b: Seq<char>, i: int)
    requires
        0 <= i <= a.len(),
        i <= b.len(),
        forall|j: int| 0 <= j < i ==> a[j] == b[j],
    ensures
        lex_le(a, b) == lex_le(a.skip(i), b.skip(i)),
    decreases i,
{
    if i > 0 {
        assert(a.len() > 0 && b.len() > 0);
        assert(a[0] == b[0]);
        let ta = a.drop_first();
        let tb = b.drop_first();
        assert forall|j: int| 0 <= j < i - 1 implies ta[j] == tb[j] by {
            assert(a[j + 1] == b[j + 1]);
        }
        lemma_lex_le_skip(ta, tb, i - 1);
        assert(ta.skip(i - 1) =~= a.skip(i));
        assert(tb.skip(i - 1) =~= b.skip(i));
    } else {
        assert(a.skip(0) =~= a);
        assert(b.skip(0) =~= b);
    }
}

fn lex_le_exec(a: &str, b: &str) -> (r: bool)
    ensures
        r == lex_le(a@, b@),
{
    let an = a.unicode_len();
    let bn = b.unicode_len();
    let mut i: usize = 0;
    while i < an && i < bn
        invariant
            an == a@.len(),
            bn == b@.len(),
            i <= an,
            i <= bn,
            forall|j: int| 0 <= j < i ==> a@[j] == b@[j],
        decreases an - i,
    {
        let ca = a.get_char(i) as u32;
        let cb = b.get_char(i) as u32;
        if ca < cb {
            proof {
                lemma_lex_le_skip(a@, b@, i as int);
                assert(a@.skip(i as int)[0] == a@[i as int]);
                assert(b@.skip(i as int)[0] == b@[i as int]);
            }
            return true;
        }
        if ca > cb {
            proof {
                lemma_lex_le_skip(a@, b@, i as int);
                assert(a@.skip(i as int)[0] == a@[i as int]);
                assert(b@.skip(i as int)[0] == b@[i as int]);
            }
            return false;
        }
        i = i + 1;
    }
    proof {
        lemma_lex_le_skip(a@, b@, i as int);
    }
    an <= bn
}

fn row_le_exec(a: &PortUsage, b: &PortUsage) -> (r: bool)
    ensures
        r == row_le(a@, b@),
{
    if a.local_port != b.local_port {
        return a.local_port < b.local_port;
    }
    if !str_eq(a.protocol.as_str(), b.protocol.as_str()) {
        return lex_le_exec(a.protocol.as_str(), b.protocol.as_str());
    }
    if !str_eq(a.local_addr.as_str(), b.local_addr.as_str()) {
        return lex_le_exec(a.local_addr.as_str(), b.local_addr.as_str());
    }
    let pa: u32 = match a.pid {
        Some(v) => v,
        None => 0,
    };
    let pb: u32 = match b.pid {
        Some(v) => v,
        None => 0,
    };
    pa <= pb
}

proof fn lemma_insert_to_multiset(s: Seq<RowModel>, k: int, x: RowModel)
    requires
        0 <= k <= s.len(),
    ensures
        s.insert(k, x).to_multiset() =~= s.to_multiset().insert(x),
{
    broadcast use vstd::seq_lib::group_to_multiset_ensures;

    let t = s.insert(k, x);
    assert(t.remove(k) =~= s);
    assert(t[k] == x);
    assert(t.remove(k).to_multiset() =~= t.to_multiset().remove(x));
    assert(t.to_multiset().count(x) > 0);
    assert forall|e: RowModel|
        s.to_multiset().insert(x).count(e) == t.to_multiset().count(e) by {
        if e == x {
            assert(s.to_multiset().count(e) == t.to_multiset().remove(x).count(e));
        } else {
            assert(s.to_multiset().count(e) == t.to_multiset().remove(x).count(e));
        }
    }
}

/// Sorts the listing by local port, then protocol, then local address,
/// then pid, keeping exactly the same rows.
pub fn sort_port_usage(rows: &Vec<PortUsage>) -> (r: Vec<PortUsage>)
    ensures
        forall|i: int, j: int| 0 <= i < j < r@.len() ==> row_le((#[trigger] r@[i])@, (#[trigger] r@[j])@),
        rows_view(r@).to_multiset() == rows_view(rows@).to_multiset(),
{
    let mut out: Vec<PortUsage> = Vec::new();
    let mut i: usize = 0;
    proof {
        broadcast use vstd::seq_lib::group_to_multiset_ensures;

        assert(rows_view(rows@.take(0)) =~= Seq::<RowModel>::empty());
        assert(rows_view(out@) =~= Seq::<RowModel>::empty());
        assert(rows_view(out@).to_multiset() =~= rows_view(rows@.take(0)).to_multiset());
    }
    while i < rows.len()
        invariant
            i <= rows@.len(),
            forall|a: int, b: int|
                0 <= a < b < out@.len() ==> row_le((#[trigger] out@[a])@, (#[trigger] out@[b])@),
            rows_view(out@).to_multiset() == rows_view(rows@.take(i as int)).to_multiset(),
        decreases rows@.len() - i,
    {
        let x = clone_row(&rows[i]);
        let ghost xv = x;
        let ghost before = out@;
        let mut k: usize = 0;
        let mut found = false;
        while !found && k < out.len()
            invariant
                out@ == before,
                k <= out@.len(),
                forall|j: int| 0 <= j < k ==> row_le((#[trigger] out@[j])@, x@),
                found ==> k < out@.len() && !row_le(out@[k as int]@, x@),
            decreases out@.len() - k + if found {
                0int
            } else {
                1int
            },
        {
            if row_le_exec(&out[k], &x) {
                k = k + 1;
            } else {
                found = true;
            }
        }
        proof {
            if found {
                lemma_row_le_total(before[k as int]@, x@);
                assert(row_le(x@, before[k as int]@));
                assert forall|j: int|
                    k <= j < before.len() implies row_le(x@, (#[trigger] before[j])@) by {
                    if j > k {
                        lemma_row_le_trans(x@, before[k as int]@, before[j]@);
                    }
                }
            }
            assert(rows_view(before.insert(k as int, x)) =~= rows_view(before).insert(
                k as int,
                x@,
            ));
            lemma_insert_to_multiset(rows_view(before), k as int, x@);
        }
        out.insert(k, x);
        i = i + 1;
        proof {
            broadcast use vstd::seq_lib::group_to_multiset_ensures;

            assert(rows_view(out@) =~= rows_view(before.insert(k as int, xv)));
            assert(rows_view(rows@.take(i as int)) =~= rows_view(rows@.take(i as int - 1)).push(
                rows@[i as int - 1]@,
            ));
            assert(rows_view(rows@.take(i as int - 1)).push(
                rows@[i as int - 1]@,
            ).to_multiset() =~= rows_view(rows@.take(i as int - 1)).to_multiset().insert(
                rows@[i as int - 1]@,
            ));
            assert(rows_view(rows@.take(i as int)).to_multiset() =~= rows_view(rows@.take(
                i as int - 1,
            )).to_multiset().insert(rows@[i as int - 1]@));
            assert(xv@ == rows@[i as int - 1]@);
            assert forall|a: int, b: int|
                0 <= a < b < out@.len() implies row_le(
                (#[trigger] out@[a])@,
                (#[trigger] out@[b])@,
            ) by {
                if b < k as int {
                    assert(out@[a] == before[a] && out@[b] == before[b]);
                } else if a < k as int && b == k as int {
                    assert(out@[a] == before[a]);
                    assert(out@[b] == xv);
                } else if a < k as int && b > k as int {
                    assert(out@[a] == before[a] && out@[b] == before[b - 1]);
                    assert(row_le(before[a]@, before[b - 1]@));
                } else if a == k as int {
                    assert(out@[a] == xv && out@[b] == before[b - 1]);
                } else {
                    assert(out@[a] == before[a - 1] && out@[b] == before[b - 1]);
                }
            }
        }
    }
    proof {
        assert(rows@.take(rows@.len() as int) =~= rows@);
    }
    out
}

/// The sorted port listing of one run: the merged, deduplicated rows in
/// listing order.
pub fn system_port_list(tcp_output: &str, udp_output: &str) -> (r: Vec<PortUsage>)
    ensures
        forall|i: int, j: int| 0 <= i < j < r@.len() ==> row_le((#[trigger] r@[i])@, (#[trigger] r@[j])@),
        rows_view(r@).to_multiset() == dedup_spec(
            lsof_rows_spec(tcp_output@) + lsof_rows_spec(udp_output@),
        ).to_multiset(),
{
    let merged = list_port_usage(tcp_output, udp_output);
    sort_port_usage(&merged)
}

/// The position of the first `","` field separator in a CSV line, or -1.
pub open spec fn find_qcq(s: Seq<char>) -> int
    decreases s.len(),
{
    if s.len() < 3 {
        -1
    } else if s[0] == '"' && s[1] == ',' && s[2] == '"' {
        0
    } else {
        let r = find_qcq(s.drop_first());
        if r < 0 {
            -1
        } else {
            r + 1
        }
    }
}

proof fn lemma_find_qcq_bounds(s: Seq<char>)
    ensures
        find_qcq(s) == -1 || (0 <= find_qcq(s) <= s.len() - 3),
    decreases s.len(),
{
    if s.len() >= 3 && !(s[0] == '"' && s[1] == ',' && s[2] == '"') {
        lemma_find_qcq_bounds(s.drop_first());
    }
}

proof fn lemma_find_qcq_at(s: Seq<char>, i: int)
    requires
        0 <= i <= s.len() - 3,
        s[i] == '"' && s[i + 1] == ',' && s[i + 2] == '"',
        forall|j: int|
            0 <= j < i ==> !((#[trigger] s[j]) == '"' && s[j + 1] == ',' && s[j + 2] == '"'),
    ensures
        find_qcq(s) == i,
    decreases i,
{
    if i > 0 {
        assert(!(s[0] == '"' && s[1] == ',' && s[2] == '"'));
        let t = s.drop_first();
        assert(t[i - 1] == s[i] && t[i] == s[i + 1] && t[i + 1] == s[i + 2]);
        assert forall|j: int|
            0 <= j < i - 1 implies !((#[trigger] t[j]) == '"' && t[j + 1] == ',' && t[j + 2]
                == '"') by {
            assert(!(s[j + 1] == '"' && s[j + 2] == ',' && s[j + 3] == '"'));
        }
        lemma_find_qcq_at(t, i - 1);
    }
}

proof fn lemma_find_qcq_none(s: Seq<char>)
    requires
        forall|j: int|
            0 <= j <= s.len() - 3 ==> !((#[trigger] s[j]) == '"' && s[j + 1] == ',' && s[j + 2]
                == '"'),
    ensures
        find_qcq(s) == -1,
    decreases s.len(),
{
    if s.len() >= 3 {
        assert(!(s[0] == '"' && s[1] == ',' && s[2] == '"'));
        let t = s.drop_first();
        assert forall|j: int|
            0 <= j <= t.len() - 3 implies !((#[trigger] t[j]) == '"' && t[j + 1] == ',' && t[j + 2]
                == '"') by {
            assert(!(s[j + 1] == '"' && s[j + 2] == ',' && s[j + 3] == '"'));
        }
        lemma_find_qcq_none(t);
    }
}

/// The fields of a CSV line, split at each `","` separator.
pub open spec fn split_qcq(s: Seq<char>) -> Seq<Seq<char>>
    decreases s.len(),
    via split_qcq_decreases
{
    let i = find_qcq(s);
    if i < 0 {
        seq![s]
    } else {
        seq![s.take(i)] + split_qcq(s.skip(i + 3))
    }
}

#[via_fn]
proof fn split_qcq_decreases(s: Seq<char>) {
    lemma_find_qcq_bounds(s);
}

/// One process listing entry: a pid and the process name.
pub open spec fn tasklist_entry_spec(line: Seq<char>) -> Option<(u32, Seq<char>)> {
    let t = trim_spec(line);
    if t.len() == 0 || t[0] != '"' {
        None
    } else {
        let bare = drop_trailing(drop_leading(t, '"'), '"');
        let parts = split_qcq(bare);
        if parts.len() < 2 {
            None
        } else if is_digit_seq(parts[1]) && dec_val(parts[1]) <= u32::MAX {
            Some((dec_val(parts[1]) as u32, parts[0]))
        } else {
            None
        }
    }
}

/// The pid-to-name entries of one whole CSV process listing, in order.
pub open spec fn tasklist_entries_spec(ls: Seq<Seq<char>>) -> Seq<(u32, Seq<char>)>
    decreases ls.len(),
{
    if ls.len() == 0 {
        Seq::empty()
    } else {
        tasklist_entries_spec(ls.drop_last()) + match tasklist_entry_spec(ls.last()) {
            Some(e) => seq![e],
            None => Seq::empty(),
        }
    }
}

/// The name the listing holds for a pid: the last entry wins, as repeated
/// map insertion would have it.
pub open spec fn tasklist_lookup(entries: Seq<(u32, Seq<char>)>, pid: u32) -> Option<Seq<char>>
    decreases entries.len(),
{
    if entries.len() == 0 {
        None
    } else if entries.last().0 == pid {
        Some(entries.last().1)
    } else {
        tasklist_lookup(entries.drop_last(), pid)
    }
}

/// The entries as spec values.
pub open spec fn entries_view(s: Seq<(u32, String)>) -> Seq<(u32, Seq<char>)> {
    s.map_values(|e: (u32, String)| (e.0, e.1@))
}

/// Splits one bare CSV line at each `","` separator.
fn split_qcq_exec(s: &str) -> (r: Vec<String>)
    ensures
        r.deep_view() == split_qcq(s@),
{
    let n = s.unicode_len();
    let mut r: Vec<String> = Vec::new();
    let mut i: usize = 0;
    let mut done = false;
    proof {
        assert(s@.skip(0) =~= s@);
        assert(r.deep_view() =~= Seq::<Seq<char>>::empty());
        assert(Seq::<Seq<char>>::empty() + split_qcq(s@) =~= split_qcq(s@));
    }
    while !done
        invariant
            n == s@.len(),
            i <= n,
            !done ==> r.deep_view() + split_qcq(s@.skip(i as int)) == split_qcq(s@),
            done ==> r.deep_view() == split_qcq(s@),
        decreases n - i + if done {
            0int
        } else {
            1int
        },
    {
        let ghost rest = s@.skip(i as int);
        // first separator at or after i
        let mut k: usize = i;
        let mut sep: usize = n;
        while n >= 3 && k <= n - 3 && sep == n
            invariant
                n == s@.len(),
                i <= k <= n,
                sep == n || (i <= sep && sep <= n - 3 && s@[sep as int] == '"' && s@[sep as int
                    + 1] == ',' && s@[sep as int + 2] == '"'),
                sep == n ==> forall|j: int|
                    i <= j < k ==> !((#[trigger] s@[j]) == '"' && s@[j + 1] == ',' && s@[j + 2]
                        == '"'),
                sep < n ==> forall|j: int|
                    i <= j < sep ==> !((#[trigger] s@[j]) == '"' && s@[j + 1] == ',' && s@[j + 2]
                        == '"'),
            decreases n - k + if sep == n {
                1int
            } else {
                0int
            },
        {
            if s.get_char(k) == '"' && s.get_char(k + 1) == ',' && s.get_char(k + 2) == '"' {
                sep = k;
            } else {
                k = k + 1;
            }
        }
        let ghost rd = r.deep_view();
        if sep < n {
            proof {
                assert forall|j: int|
                    0 <= j < sep - i implies !((#[trigger] rest[j]) == '"' && rest[j + 1] == ','
                        && rest[j + 2] == '"') by {
                    assert(!(s@[j + i] == '"' && s@[j + i + 1] == ',' && s@[j + i + 2] == '"'));
                }
                assert(rest[sep - i] == s@[sep as int] && rest[sep - i + 1] == s@[sep as int + 1]
                    && rest[sep - i + 2] == s@[sep as int + 2]);
                lemma_find_qcq_at(rest, sep as int - i as int);
                assert(rest.take(sep as int - i as int) =~= s@.subrange(i as int, sep as int));
                assert(rest.skip(sep as int - i as int + 3) =~= s@.skip(sep as int + 3));
            }
            let piece = s.substring_char(i, sep).to_owned();
            let ghost pv = piece@;
            r.push(piece);
            proof {
                assert(r.deep_view() =~= rd + seq![pv]);
                assert((rd + seq![pv]) + split_qcq(s@.skip(sep as int + 3)) =~= rd + (seq![pv]
                    + split_qcq(s@.skip(sep as int + 3))));
            }
            i = sep + 3;
        } else {
            proof {
                assert forall|j: int|
                    0 <= j <= rest.len() - 3 implies !((#[trigger] rest[j]) == '"' && rest[j + 1]
                        == ',' && rest[j + 2] == '"') by {
                    assert(!(s@[j + i] == '"' && s@[j + i + 1] == ',' && s@[j + i + 2] == '"'));
                }
                lemma_find_qcq_none(rest);
                assert(split_qcq(rest) == seq![rest]);
            }
            let piece = s.substring_char(i, n).to_owned();
            let ghost pv = piece@;
            r.push(piece);
            proof {
                assert(pv =~= rest);
                assert(r.deep_view() =~= rd + seq![rest]);
            }
            done = true;
        }
    }
    r
}

/// Parses one line of the CSV process listing into a pid and name.
fn parse_tasklist_line(line: &str) -> (r: Option<(u32, String)>)
    ensures
        match r {
            Some(e) => tasklist_entry_spec(line@) == Some((e.0, e.1@)),
            None => tasklist_entry_spec(line@) is None,
        },
{
    let t = trim(line);
    let n = t.unicode_len();
    if n == 0 {
        return None;
    }
    if t.get_char(0) != '"' {
        return None;
    }
    // peel the surrounding quotes
    let mut a: usize = 0;
    let mut stop = false;
    while !stop && a < n
        invariant
            n == t@.len(),
            a <= n,
            forall|j: int| 0 <= j < a ==> (#[trigger] t@[j]) == '"',
            stop ==> a < n && t@[a as int] != '"',
        decreases n - a + if stop {
            0int
        } else {
            1int
        },
    {
        if t.get_char(a) == '"' {
            a = a + 1;
        } else {
            stop = true;
        }
    }
    proof {
        lemma_drop_leading_at(t@, '"', a as int);
    }
    let ghost mid = t@.skip(a as int);
    let mut b: usize = n;
    let mut stop2 = false;
    while !stop2 && b > a
        invariant
            n == t@.len(),
            a <= b <= n,
            forall|j: int| b <= j < n ==> (#[trigger] t@[j]) == '"',
            stop2 ==> b > a && t@[b - 1] != '"',
        decreases b - a + if stop2 {
            0int
        } else {
            1int
        },
    {
        if t.get_char(b - 1) == '"' {
            b = b - 1;
        } else {
            stop2 = true;
        }
    }
    proof {
        assert forall|j: int| b - a <= j < mid.len() implies (#[trigger] mid[j]) == '"' by {
            assert(t@[j + a] == '"');
        }
        if b > a {
            assert(mid[b - a - 1] == t@[b - 1]);
        }
        lemma_drop_trailing_at(mid, '"', b as int - a as int);
        assert(mid.take(b as int - a as int) =~= t@.subrange(a as int, b as int));
    }
    let bare = t.substring_char(a, b);
    let parts = split_qcq_exec(bare);
    if parts.len() < 2 {
        return None;
    }
    let ghost pview = parts.deep_view();
    match parse_dec_u32(parts[1].as_str()) {
        Some(pid) => {
            proof {
                assert(pview[0] == parts@[0]@);
                assert(pview[1] == parts@[1]@);
            }
            Some((pid, parts[0].clone()))
        },
        None => None,
    }
}

/// Parses one whole CSV process listing into pid-to-name entries.
pub fn parse_tasklist(output: &str) -> (r: Vec<(u32, String)>)
    ensures
        entries_view(r@) == tasklist_entries_spec(lines_spec(output@)),
{
    let lines = split_lines(output);
    let ghost lview = lines.deep_view();
    let mut r: Vec<(u32, String)> = Vec::new();
    let mut li: usize = 0;
    proof {
        assert(lview.take(0) =~= Seq::<Seq<char>>::empty());
        assert(entries_view(r@) =~= Seq::<(u32, Seq<char>)>::empty());
    }
    while li < lines.len()
        invariant
            lview == lines.deep_view(),
            lview.len() == lines@.len(),
            li <= lines@.len(),
            entries_view(r@) == tasklist_entries_spec(lview.take(li as int)),
        decreases lines@.len() - li,
    {
        proof {
            assert(lview.take(li as int + 1).drop_last() =~= lview.take(li as int));
            assert(lview.take(li as int + 1).last() == lview[li as int]);
        }
        let ghost rd = entries_view(r@);
        match parse_tasklist_line(lines[li].as_str()) {
            Some(e) => {
                let ghost ev = (e.0, e.1@);
                r.push(e);
                proof {
                    assert(entries_view(r@) =~= rd + seq![ev]);
                }
            },
            None => {
                proof {
                    assert(tasklist_entries_spec(lview.take(li as int)) =~= rd);
                }
            },
        }
        li = li + 1;
    }
    proof {
        assert(lview.take(lines@.len() as int) =~= lview);
    }
    r
}

/// A row with its process name filled in from the listing, when its pid is
/// known there.
pub open spec fn enriched_row(row: RowModel, entries: Seq<(u32, Seq<char>)>) -> RowModel {
    match row.pid {
        Some(pid) => match tasklist_lookup(entries, pid) {
            Some(name) => RowModel { process: Some(name), ..row },
            None => row,
        },
        None => row,
    }
}

/// Fills each row's process name in from the pid-to-name entries; rows
/// whose pid the listing does not know keep what they had.
pub fn enrich_with_process_names(rows: &Vec<PortUsage>, entries: &Vec<(u32, String)>) -> (r: Vec<
    PortUsage,
>)
    ensures
        r@.len() == rows@.len(),
        forall|i: int|
            0 <= i < rows@.len() ==> (#[trigger] r@[i])@ == enriched_row(
                rows@[i]@,
                entries_view(entries@),
            ),
{
    let ghost eview = entries_view(entries@);
    let mut r: Vec<PortUsage> = Vec::new();
    let mut i: usize = 0;
    while i < rows.len()
        invariant
            eview == entries_view(entries@),
            eview.len() == entries@.len(),
            i <= rows@.len(),
            r@.len() == i,
            forall|j: int|
                0 <= j < i ==> (#[trigger] r@[j])@ == enriched_row(rows@[j]@, eview),
        decreases rows@.len() - i,
    {
        let mut row = clone_row(&rows[i]);
        match rows[i].pid {
            Some(pid) => {
                // the last matching entry wins
                let mut k: usize = entries.len();
                let mut hit: usize = entries.len();
                while k > 0 && hit == entries.len()
                    invariant
                        eview == entries_view(entries@),
                        eview.len() == entries@.len(),
                        k <= entries@.len(),
                        hit == entries@.len() || (hit < entries@.len() && eview[hit as int].0
                            == pid),
                        hit == entries@.len() ==> forall|j: int|
                            k <= j < entries@.len() ==> (#[trigger] eview[j]).0 != pid,
                        hit < entries@.len() ==> forall|j: int|
                            hit < j < entries@.len() ==> (#[trigger] eview[j]).0 != pid,
                    decreases k + if hit == entries@.len() {
                        1int
                    } else {
                        0int
                    },
                {
                    if entries[k - 1].0 == pid {
                        hit = k - 1;
                        proof {
                            assert(eview[k as int - 1] == (entries@[k as int - 1].0, entries@[k
                                as int - 1].1@));
                        }
                    } else {
                        proof {
                            assert(eview[k as int - 1] == (entries@[k as int - 1].0, entries@[k
                                as int - 1].1@));
                        }
                        k = k - 1;
                    }
                }
                if hit < entries.len() {
                    proof {
                        lemma_tasklist_lookup_at(eview, pid, hit as int);
                    }
                    row.process = Some(entries[hit].1.clone());
                } else {
                    proof {
                        lemma_tasklist_lookup_none(eview, pid);
                    }
                }
            },
            None => {},
        }
        r.push(row);
        i = i + 1;
    }
    r
}

proof fn lemma_tasklist_lookup_at(entries: Seq<(u32, Seq<char>)>, pid: u32, i: int)
    requires
        0 <= i < entries.len(),
        entries[i].0 == pid,
        forall|j: int| i < j < entries.len() ==> (#[trigger] entries[j]).0 != pid,
    ensures
        tasklist_lookup(entries, pid) == Some(entries[i].1),
    decreases entries.len(),
{
    if i < entries.len() - 1 {
        let t = entries.drop_last();
        assert(entries.last().0 != pid);
        assert forall|j: int| i < j < t.len() implies (#[trigger] t[j]).0 != pid by {
            assert(entries[j].0 != pid);
        }
        lemma_tasklist_lookup_at(t, pid, i);
    }
}

proof fn lemma_tasklist_lookup_none(entries: Seq<(u32, Seq<char>)>, pid: u32)
    requires
        forall|j: int| 0 <= j < entries.len() ==> (#[trigger] entries[j]).0 != pid,
    ensures
        tasklist_lookup(entries, pid) is None,
    decreases entries.len(),
{
    if entries.len() > 0 {
        let t = entries.drop_last();
        assert forall|j: int| 0 <= j < t.len() implies (#[trigger] t[j]).0 != pid by {
            assert(entries[j].0 != pid);
        }
        lemma_tasklist_lookup_none(t, pid);
    }
}

} // verus!
