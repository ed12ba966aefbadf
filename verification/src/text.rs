//! Character-level text utilities that the command-output parsers build on:
//! trimming, whitespace tokenization, line splitting, decimal parsing and
//! formatting, and case-insensitive search.

use vstd::prelude::*;

verus! {

/// ASCII whitespace, as the parsers here treat it.
pub open spec fn is_ws_char(c: char) -> bool {
    c == ' ' || c == '\t' || c == '\r' || c == '\n'
}

/// An ASCII decimal digit.
pub open spec fn is_digit_char(c: char) -> bool {
    48 <= c as u32 && c as u32 <= 57
}

/// The numeric value of a digit sequence, most significant digit first.
pub open spec fn dec_val(s: Seq<char>) -> int
    decreases s.len(),
{
    if s.len() == 0 {
        0
    } else {
        dec_val(s.drop_last()) * 10 + (s.last() as u32 - 48)
    }
}

/// A non-empty, all-digit sequence.
pub open spec fn is_digit_seq(s: Seq<char>) -> bool {
    s.len() > 0 && forall|i: int| 0 <= i < s.len() ==> is_digit_char(#[trigger] s[i])
}

pub proof fn lemma_dec_val_nonneg(s: Seq<char>)
    requires
        forall|i: int| 0 <= i < s.len() ==> is_digit_char(#[trigger] s[i]),
    ensures
        dec_val(s) >= 0,
    decreases s.len(),
{
    if s.len() > 0 {
        assert(is_digit_char(s[s.len() - 1]));
        lemma_dec_val_nonneg(s.drop_last());
    }
}

/// A digit sequence is worth at least any of its prefixes.
pub proof fn lemma_dec_val_prefix_le(s: Seq<char>, i: int)
    requires
        0 <= i <= s.len(),
        forall|j: int| 0 <= j < s.len() ==> is_digit_char(#[trigger] s[j]),
    ensures
        dec_val(s.take(i)) <= dec_val(s),
    decreases s.len() - i,
{
    if i < s.len() {
        assert(s.take(i + 1).drop_last() =~= s.take(i));
        assert(s.take(i + 1).last() == s[i]);
        assert forall|j: int| 0 <= j < s.take(i).len() implies is_digit_char(
            #[trigger] s.take(i)[j],
        ) by {
            assert(is_digit_char(s[j]));
        }
        lemma_dec_val_nonneg(s.take(i));
        assert(dec_val(s.take(i)) <= dec_val(s.take(i + 1)));
        lemma_dec_val_prefix_le(s, i + 1);
    } else {
        assert(s.take(i) =~= s);
    }
}

/// Is `c` an ASCII decimal digit?
pub fn digit_char(c: char) -> (r: bool)
    ensures
        r == is_digit_char(c),
{
    let u = c as u32;
    48 <= u && u <= 57
}

/// Is `c` ASCII whitespace?
pub fn ws_char(c: char) -> (r: bool)
    ensures
        r == is_ws_char(c),
{
    c == ' ' || c == '\t' || c == '\r' || c == '\n'
}

/// Parses a non-empty, all-digit string as a decimal number that fits in a
/// `u16`; anything else yields `None`.
pub fn parse_dec_u16(s: &str) -> (r: Option<u16>)
    ensures
        r is Some <==> is_digit_seq(s@) && dec_val(s@) <= u16::MAX,
        match r {
            Some(v) => v as int == dec_val(s@),
            None => true,
        },
{
    let n = s.unicode_len();
    if n == 0 {
        return None;
    }
    let mut acc: u32 = 0;
    let mut i: usize = 0;
    while i < n
        invariant
            n == s@.len(),
            i <= n,
            forall|j: int| 0 <= j < i ==> is_digit_char(#[trigger] s@[j]),
            acc as int == dec_val(s@.take(i as int)),
            acc <= 65535,
        decreases n - i,
    {
        let c = s.get_char(i);
        let u = c as u32;
        if u < 48 || u > 57 {
            return None;
        }
        proof {
            assert(s@.take(i as int + 1).drop_last() =~= s@.take(i as int));
            assert(s@.take(i as int + 1).last() == s@[i as int]);
        }
        let next = acc * 10 + (u - 48);
        if next > 65535 {
            proof {
                if is_digit_seq(s@) {
                    lemma_dec_val_prefix_le(s@, i as int + 1);
                }
            }
            return None;
        }
        acc = next;
        i = i + 1;
    }
    proof {
        assert(s@.take(n as int) =~= s@);
    }
    Some(acc as u16)
}

/// Parses a non-empty, all-digit string as a decimal number that fits in a
/// `u32`; anything else yields `None`.
pub fn parse_dec_u32(s: &str) -> (r: Option<u32>)
    ensures
        r is Some <==> is_digit_seq(s@) && dec_val(s@) <= u32::MAX,
        match r {
            Some(v) => v as int == dec_val(s@),
            None => true,
        },
{
    let n = s.unicode_len();
    if n == 0 {
        return None;
    }
    let mut acc: u64 = 0;
    let mut i: usize = 0;
    while i < n
        invariant
            n == s@.len(),
            i <= n,
            forall|j: int| 0 <= j < i ==> is_digit_char(#[trigger] s@[j]),
            acc as int == dec_val(s@.take(i as int)),
            acc <= u32::MAX,
        decreases n - i,
    {
        let c = s.get_char(i);
        let u = c as u32;
        if u < 48 || u > 57 {
            return None;
        }
        proof {
            assert(s@.take(i as int + 1).drop_last() =~= s@.take(i as int));
            assert(s@.take(i as int + 1).last() == s@[i as int]);
        }
        let next = acc * 10 + ((u - 48) as u64);
        if next > 0xffff_ffff {
            proof {
                if is_digit_seq(s@) {
                    lemma_dec_val_prefix_le(s@, i as int + 1);
                }
            }
            return None;
        }
        acc = next;
        i = i + 1;
    }
    proof {
        assert(s@.take(n as int) =~= s@);
    }
    Some(acc as u32)
}

/// The sequence without its leading whitespace.
pub open spec fn ltrim_spec(s: Seq<char>) -> Seq<char>
    decreases s.len(),
{
    if s.len() > 0 && is_ws_char(s[0]) {
        ltrim_spec(s.drop_first())
    } else {
        s
    }
}

/// The sequence without its trailing whitespace.
pub open spec fn rtrim_spec(s: Seq<char>) -> Seq<char>
    decreases s.len(),
{
    if s.len() > 0 && is_ws_char(s.last()) {
        rtrim_spec(s.drop_last())
    } else {
        s
    }
}

/// The sequence without leading and trailing whitespace.
pub open spec fn trim_spec(s: Seq<char>) -> Seq<char> {
    rtrim_spec(ltrim_spec(s))
}

proof fn lemma_ltrim_at(s: Seq<char>, a: int)
    requires
        0 <= a <= s.len(),
        forall|j: int| 0 <= j < a ==> is_ws_char(#[trigger] s[j]),
        a < s.len() ==> !is_ws_char(s[a]),
    ensures
        ltrim_spec(s) == s.skip(a),
    decreases a,
{
    if a == 0 {
        assert(s.skip(0) =~= s);
    } else {
        assert(is_ws_char(s[0]));
        let t = s.drop_first();
        assert forall|j: int| 0 <= j < a - 1 implies is_ws_char(#[trigger] t[j]) by {
            assert(is_ws_char(s[j + 1]));
        }
        assert(a - 1 < t.len() ==> !is_ws_char(t[a - 1]));
        lemma_ltrim_at(t, a - 1);
        assert(t.skip(a - 1) =~= s.skip(a));
    }
}

proof fn lemma_rtrim_at(s: Seq<char>, b: int)
    requires
        0 <= b <= s.len(),
        forall|j: int| b <= j < s.len() ==> is_ws_char(#[trigger] s[j]),
        b > 0 ==> !is_ws_char(s[b - 1]),
    ensures
        rtrim_spec(s) == s.take(b),
    decreases s.len() - b,
{
    if b == s.len() {
        if s.len() == 0 || !is_ws_char(s.last()) {
            assert(s.take(b) =~= s);
        } else {
            assert(!is_ws_char(s[b - 1]));
            assert(s.take(b) =~= s);
        }
    } else {
        assert(is_ws_char(s.last()));
        let t = s.drop_last();
        assert forall|j: int| b <= j < t.len() implies is_ws_char(#[trigger] t[j]) by {
            assert(is_ws_char(s[j]));
        }
        lemma_rtrim_at(t, b);
        assert(t.take(b) =~= s.take(b));
    }
}

/// Strips leading and trailing ASCII whitespace.
pub fn trim(s: &str) -> (r: &str)
    ensures
        r@ == trim_spec(s@),
{
    let n = s.unicode_len();
    let mut a: usize = 0;
    let mut stop: bool = false;
    while !stop && a < n
        invariant
            n == s@.len(),
            a <= n,
            forall|j: int| 0 <= j < a ==> is_ws_char(#[trigger] s@[j]),
            stop ==> a < n && !is_ws_char(s@[a as int]),
        decreases n - a + if stop {
            0int
        } else {
            1int
        },
    {
        if ws_char(s.get_char(a)) {
            a = a + 1;
        } else {
            stop = true;
        }
    }
    let mut b: usize = n;
    let mut stop2: bool = false;
    while !stop2 && b > a
        invariant
            n == s@.len(),
            a <= b <= n,
            forall|j: int| 0 <= j < a ==> is_ws_char(#[trigger] s@[j]),
            a < n ==> (a < b || !is_ws_char(s@[a as int]) || b == a),
            stop ==> a < n && !is_ws_char(s@[a as int]),
            forall|j: int| b <= j < n ==> is_ws_char(#[trigger] s@[j]),
            stop2 ==> b > a && !is_ws_char(s@[b - 1]),
        decreases b - a + if stop2 {
            0int
        } else {
            1int
        },
    {
        if ws_char(s.get_char(b - 1)) {
            b = b - 1;
        } else {
            stop2 = true;
        }
    }
    let r = s.substring_char(a, b);
    proof {
        let lt = ltrim_spec(s@);
        if b == a {
            // everything outside a..b is whitespace and the range is empty
            lemma_ltrim_at(s@, a as int);
            lemma_rtrim_at(lt, 0);
            assert(lt.take(0) =~= s@.subrange(a as int, b as int));
        } else {
            assert(!is_ws_char(s@[a as int]));
            lemma_ltrim_at(s@, a as int);
            assert(lt =~= s@.skip(a as int));
            assert forall|j: int| b - a <= j < lt.len() implies is_ws_char(#[trigger] lt[j]) by {
                assert(lt[j] == s@[j + a]);
                assert(is_ws_char(s@[j + a]));
            }
            assert(!is_ws_char(lt[b - a - 1]));
            lemma_rtrim_at(lt, b as int - a as int);
            assert(lt.take(b as int - a as int) =~= s@.subrange(a as int, b as int));
        }
    }
    r
}

/// The length of the maximal non-whitespace prefix.
pub open spec fn word_len(s: Seq<char>) -> int
    decreases s.len(),
{
    if s.len() > 0 && !is_ws_char(s[0]) {
        1 + word_len(s.drop_first())
    } else {
        0
    }
}

pub proof fn lemma_word_len_bounds(s: Seq<char>)
    ensures
        0 <= word_len(s) <= s.len(),
    decreases s.len(),
{
    if s.len() > 0 && !is_ws_char(s[0]) {
        lemma_word_len_bounds(s.drop_first());
    }
}

/// `w` is the word length of `s` exactly when the first `w` characters are
/// non-whitespace and the word is ended by the end of `s` or whitespace.
pub proof fn lemma_word_len_at(s: Seq<char>, w: int)
    requires
        0 <= w <= s.len(),
        forall|j: int| 0 <= j < w ==> !is_ws_char(#[trigger] s[j]),
        w < s.len() ==> is_ws_char(s[w]),
    ensures
        word_len(s) == w,
    decreases w,
{
    if w == 0 {
    } else {
        assert(!is_ws_char(s[0]));
        let t = s.drop_first();
        assert forall|j: int| 0 <= j < w - 1 implies !is_ws_char(#[trigger] t[j]) by {
            assert(!is_ws_char(s[j + 1]));
        }
        lemma_word_len_at(t, w - 1);
    }
}

/// The whitespace-separated tokens of `s`, in order.
pub open spec fn tokens_spec(s: Seq<char>) -> Seq<Seq<char>>
    decreases s.len(),
    via tokens_spec_decreases
{
    if s.len() == 0 {
        Seq::empty()
    } else if is_ws_char(s[0]) {
        tokens_spec(s.drop_first())
    } else {
        seq![s.take(word_len(s))] + tokens_spec(s.skip(word_len(s)))
    }
}

#[via_fn]
proof fn tokens_spec_decreases(s: Seq<char>) {
    if s.len() > 0 && !is_ws_char(s[0]) {
        lemma_word_len_bounds(s);
        lemma_word_len_bounds(s.drop_first());
    }
}

/// Splits on runs of ASCII whitespace; no token is empty.
pub fn split_ws(s: &str) -> (r: Vec<String>)
    ensures
        r.deep_view() == tokens_spec(s@),
{
    let n = s.unicode_len();
    let mut r: Vec<String> = Vec::new();
    let mut i: usize = 0;
    proof {
        assert(s@.skip(0) =~= s@);
        assert(r.deep_view() =~= Seq::<Seq<char>>::empty());
        assert(Seq::<Seq<char>>::empty() + tokens_spec(s@) =~= tokens_spec(s@));
    }
    while i < n
        invariant
            n == s@.len(),
            i <= n,
            r.deep_view() + tokens_spec(s@.skip(i as int)) == tokens_spec(s@),
        decreases n - i,
    {
        let c = s.get_char(i);
        if ws_char(c) {
            proof {
                assert(s@.skip(i as int).drop_first() =~= s@.skip(i as int + 1));
                assert(s@.skip(i as int)[0] == s@[i as int]);
            }
            i = i + 1;
        } else {
            let mut j = i + 1;
            let mut stop = false;
            while !stop && j < n
                invariant
                    n == s@.len(),
                    i < j <= n,
                    forall|k: int| i <= k < j ==> !is_ws_char(#[trigger] s@[k]),
                    stop ==> j < n && is_ws_char(s@[j as int]),
                decreases n - j + if stop {
                    0int
                } else {
                    1int
                },
            {
                if ws_char(s.get_char(j)) {
                    stop = true;
                } else {
                    j = j + 1;
                }
            }
            let w = s.substring_char(i, j).to_owned();
            let ghost rd = r.deep_view();
            let ghost rest = s@.skip(i as int);
            proof {
                assert forall|k: int| 0 <= k < j - i implies !is_ws_char(#[trigger] rest[k]) by {
                    assert(!is_ws_char(s@[k + i]));
                }
                if j < n {
                    assert(is_ws_char(rest[j - i]));
                }
                lemma_word_len_at(rest, j as int - i as int);
                assert(rest.take(j as int - i as int) =~= s@.subrange(i as int, j as int));
                assert(rest.skip(j as int - i as int) =~= s@.skip(j as int));
                assert(tokens_spec(rest) == seq![s@.subrange(i as int, j as int)] + tokens_spec(
                    s@.skip(j as int),
                ));
            }
            r.push(w);
            proof {
                assert(r.deep_view() =~= rd + seq![s@.subrange(i as int, j as int)]);
                assert((rd + seq![s@.subrange(i as int, j as int)]) + tokens_spec(
                    s@.skip(j as int),
                ) =~= rd + (seq![s@.subrange(i as int, j as int)] + tokens_spec(s@.skip(j as int))));
            }
            i = j;
        }
    }
    proof {
        assert(s@.skip(n as int) =~= Seq::<char>::empty());
        assert(r.deep_view() + Seq::<Seq<char>>::empty() =~= r.deep_view());
    }
    r
}

/// The length of the first line: characters before the first newline.
pub open spec fn line_len(s: Seq<char>) -> int
    decreases s.len(),
{
    if s.len() > 0 && s[0] != '\n' {
        1 + line_len(s.drop_first())
    } else {
        0
    }
}

pub proof fn lemma_line_len_bounds(s: Seq<char>)
    ensures
        0 <= line_len(s) <= s.len(),
    decreases s.len(),
{
    if s.len() > 0 && s[0] != '\n' {
        lemma_line_len_bounds(s.drop_first());
    }
}

pub proof fn lemma_line_len_at(s: Seq<char>, w: int)
    requires
        0 <= w <= s.len(),
        forall|j: int| 0 <= j < w ==> (#[trigger] s[j]) != '\n',
        w < s.len() ==> s[w] == '\n',
    ensures
        line_len(s) == w,
    decreases w,
{
    if w > 0 {
        assert(s[0] != '\n');
        let t = s.drop_first();
        assert forall|j: int| 0 <= j < w - 1 implies (#[trigger] t[j]) != '\n' by {
            assert(s[j + 1] != '\n');
        }
        lemma_line_len_at(t, w - 1);
    }
}

/// A line without a trailing carriage return.
pub open spec fn strip_cr(l: Seq<char>) -> Seq<char> {
    if l.len() > 0 && l.last() == '\r' {
        l.drop_last()
    } else {
        l
    }
}

/// The lines of `s`: split at newlines, each without a trailing carriage
/// return, with no empty trailing line after a final newline.
pub open spec fn lines_spec(s: Seq<char>) -> Seq<Seq<char>>
    decreases s.len(),
    via lines_spec_decreases
{
    if s.len() == 0 {
        Seq::empty()
    } else {
        let k = line_len(s);
        if k == s.len() {
            seq![strip_cr(s)]
        } else {
            seq![strip_cr(s.take(k))] + lines_spec(s.skip(k + 1))
        }
    }
}

#[via_fn]
proof fn lines_spec_decreases(s: Seq<char>) {
    if s.len() > 0 {
        lemma_line_len_bounds(s);
    }
}

/// Splits into lines at newlines, stripping one trailing carriage return
/// per line, as command output is usually consumed.
pub fn split_lines(s: &str) -> (r: Vec<String>)
    ensures
        r.deep_view() == lines_spec(s@),
{
    let n = s.unicode_len();
    let mut r: Vec<String> = Vec::new();
    let mut i: usize = 0;
    proof {
        assert(s@.skip(0) =~= s@);
        assert(r.deep_view() =~= Seq::<Seq<char>>::empty());
        assert(Seq::<Seq<char>>::empty() + lines_spec(s@) =~= lines_spec(s@));
    }
    while i < n
        invariant
            n == s@.len(),
            i <= n,
            r.deep_view() + lines_spec(s@.skip(i as int)) == lines_spec(s@),
        decreases n - i,
    {
        let mut j = i;
        let mut stop = false;
        while !stop && j < n
            invariant
                n == s@.len(),
                i <= j <= n,
                forall|k: int| i <= k < j ==> (#[trigger] s@[k]) != '\n',
                stop ==> j < n && s@[j as int] == '\n',
            decreases n - j + if stop {
                0int
            } else {
                1int
            },
        {
            if s.get_char(j) == '\n' {
                stop = true;
            } else {
                j = j + 1;
            }
        }
        let end = if j > i && s.get_char(j - 1) == '\r' {
            j - 1
        } else {
            j
        };
        let line = s.substring_char(i, end).to_owned();
        let ghost rd = r.deep_view();
        let ghost rest = s@.skip(i as int);
        proof {
            assert forall|k: int| 0 <= k < j - i implies (#[trigger] rest[k]) != '\n' by {
                assert(s@[k + i] != '\n');
            }
            if j < n {
                assert(rest[j - i] == s@[j as int]);
            }
            lemma_line_len_at(rest, j as int - i as int);
            assert(rest.take(j as int - i as int) =~= s@.subrange(i as int, j as int));
            assert(strip_cr(s@.subrange(i as int, j as int)) =~= s@.subrange(
                i as int,
                end as int,
            ));
            assert(line@ == s@.subrange(i as int, end as int));
        }
        r.push(line);
        if j < n {
            proof {
                assert(rest.skip(j as int - i as int + 1) =~= s@.skip(j as int + 1));
                assert(lines_spec(rest) == seq![s@.subrange(i as int, end as int)] + lines_spec(
                    s@.skip(j as int + 1),
                ));
                assert(r.deep_view() =~= rd + seq![s@.subrange(i as int, end as int)]);
                assert((rd + seq![s@.subrange(i as int, end as int)]) + lines_spec(
                    s@.skip(j as int + 1),
                ) =~= rd + (seq![s@.subrange(i as int, end as int)] + lines_spec(
                    s@.skip(j as int + 1),
                )));
            }
            i = j + 1;
        } else {
            proof {
                assert(lines_spec(rest) == seq![s@.subrange(i as int, end as int)]);
                assert(r.deep_view() =~= rd + seq![s@.subrange(i as int, end as int)]);
                assert(s@.skip(n as int) =~= Seq::<char>::empty());
                assert(r.deep_view() + lines_spec(s@.skip(n as int)) =~= r.deep_view());
            }
            i = n;
        }
    }
    proof {
        assert(s@.skip(n as int) =~= Seq::<char>::empty());
        assert(r.deep_view() + Seq::<Seq<char>>::empty() =~= r.deep_view());
    }
    r
}

/// ASCII lowercase of one character.
pub open spec fn lower_char(c: char) -> char {
    if 65 <= c as u32 && c as u32 <= 90 {
        ((c as u8) + 32) as char
    } else {
        c
    }
}

/// Whether `n` occurs in `h` at offset `o`, ignoring ASCII case.
pub open spec fn matches_ci_at(h: Seq<char>, n: Seq<char>, o: int) -> bool {
    0 <= o && o + n.len() <= h.len() && forall|k: int|
        0 <= k < n.len() ==> lower_char(#[trigger] h[o + k]) == lower_char(n[k])
}

/// Whether `n` occurs anywhere in `h`, ignoring ASCII case.
pub open spec fn contains_ci_spec(h: Seq<char>, n: Seq<char>) -> bool {
    exists|o: int| #[trigger] matches_ci_at(h, n, o)
}

fn lower_char_exec(c: char) -> (r: char)
    ensures
        r == lower_char(c),
{
    let u = c as u32;
    if 65 <= u && u <= 90 {
        ((c as u8) + 32) as char
    } else {
        c
    }
}

/// Does `h` contain `n`, ignoring ASCII case?
pub fn contains_ci(h: &str, n: &str) -> (r: bool)
    ensures
        r == contains_ci_spec(h@, n@),
{
    let hn = h.unicode_len();
    let nn = n.unicode_len();
    if nn > hn {
        return false;
    }
    let mut o: usize = 0;
    while o <= hn - nn
        invariant
            hn == h@.len(),
            nn == n@.len(),
            nn <= hn,
            o <= hn - nn + 1,
            forall|p: int| 0 <= p < o ==> !matches_ci_at(h@, n@, p),
        decreases hn - nn - o + 1,
    {
        let mut k: usize = 0;
        let mut mismatch = false;
        while !mismatch && k < nn
            invariant
                hn == h@.len(),
                nn == n@.len(),
                o + nn <= hn,
                k <= nn,
                forall|q: int| 0 <= q < k ==> lower_char(#[trigger] h@[o + q]) == lower_char(
                    n@[q],
                ),
                mismatch ==> k < nn && lower_char(h@[o + k]) != lower_char(n@[k as int]),
            decreases nn - k + if mismatch {
                0int
            } else {
                1int
            },
        {
            if lower_char_exec(h.get_char(o + k)) == lower_char_exec(n.get_char(k)) {
                k = k + 1;
            } else {
                mismatch = true;
            }
        }
        if !mismatch {
            assert(matches_ci_at(h@, n@, o as int));
            return true;
        }
        o = o + 1;
    }
    proof {
        if contains_ci_spec(h@, n@) {
            let p = choose|p: int| matches_ci_at(h@, n@, p);
            assert(!matches_ci_at(h@, n@, p));
        }
    }
    false
}

/// Are two strings the same sequence of characters?
pub fn str_eq(a: &str, b: &str) -> (r: bool)
    ensures
        r == (a@ == b@),
{
    let n = a.unicode_len();
    if n != b.unicode_len() {
        return false;
    }
    let mut i: usize = 0;
    while i < n
        invariant
            n == a@.len(),
            n == b@.len(),
            i <= n,
            forall|j: int| 0 <= j < i ==> a@[j] == b@[j],
        decreases n - i,
    {
        if a.get_char(i) != b.get_char(i) {
            return false;
        }
        i = i + 1;
    }
    proof {
        assert(a@ =~= b@);
    }
    true
}

/// The position of the first `c` in `s`, or -1.
pub open spec fn ffind_char(s: Seq<char>, c: char) -> int
    decreases s.len(),
{
    if s.len() == 0 {
        -1
    } else if s[0] == c {
        0
    } else {
        let r = ffind_char(s.drop_first(), c);
        if r < 0 {
            -1
        } else {
            r + 1
        }
    }
}

pub proof fn lemma_ffind_char_at(s: Seq<char>, c: char, i: int)
    requires
        0 <= i < s.len(),
        s[i] == c,
        forall|j: int| 0 <= j < i ==> (#[trigger] s[j]) != c,
    ensures
        ffind_char(s, c) == i,
    decreases i,
{
    if i > 0 {
        let t = s.drop_first();
        assert(t[i - 1] == s[i]);
        assert forall|j: int| 0 <= j < i - 1 implies (#[trigger] t[j]) != c by {
            assert(s[j + 1] != c);
        }
        lemma_ffind_char_at(t, c, i - 1);
    }
}

pub proof fn lemma_ffind_char_none(s: Seq<char>, c: char)
    requires
        forall|j: int| 0 <= j < s.len() ==> (#[trigger] s[j]) != c,
    ensures
        ffind_char(s, c) == -1,
    decreases s.len(),
{
    if s.len() > 0 {
        let t = s.drop_first();
        assert forall|j: int| 0 <= j < t.len() implies (#[trigger] t[j]) != c by {
            assert(s[j + 1] != c);
        }
        lemma_ffind_char_none(t, c);
    }
}


/// Whether `s` begins with `p`.
pub open spec fn has_prefix(s: Seq<char>, p: Seq<char>) -> bool {
    p.len() <= s.len() && s.take(p.len() as int) == p
}

/// Does `s` begin with `p`?
pub fn starts_with(s: &str, p: &str) -> (r: bool)
    ensures
        r == has_prefix(s@, p@),
{
    let pn = p.unicode_len();
    let sn = s.unicode_len();
    if pn > sn {
        return false;
    }
    let mut i: usize = 0;
    while i < pn
        invariant
            pn == p@.len(),
            sn == s@.len(),
            pn <= sn,
            i <= pn,
            forall|j: int| 0 <= j < i ==> s@[j] == p@[j],
        decreases pn - i,
    {
        if s.get_char(i) != p.get_char(i) {
            proof {
                if s@.take(pn as int) == p@ {
                    assert(s@.take(pn as int)[i as int] == p@[i as int]);
                }
            }
            return false;
        }
        i = i + 1;
    }
    proof {
        assert(s@.take(pn as int) =~= p@);
    }
    true
}

/// Are two strings the same, ignoring ASCII case?
pub open spec fn eq_ci_spec(a: Seq<char>, b: Seq<char>) -> bool {
    a.len() == b.len() && forall|i: int|
        0 <= i < a.len() ==> lower_char(#[trigger] a[i]) == lower_char(b[i])
}

/// Are two strings the same, ignoring ASCII case?
pub fn eq_ignore_ci(a: &str, b: &str) -> (r: bool)
    ensures
        r == eq_ci_spec(a@, b@),
{
    let n = a.unicode_len();
    if n != b.unicode_len() {
        return false;
    }
    let mut i: usize = 0;
    while i < n
        invariant
            n == a@.len(),
            n == b@.len(),
            i <= n,
            forall|j: int| 0 <= j < i ==> lower_char(#[trigger] a@[j]) == lower_char(b@[j]),
        decreases n - i,
    {
        if lower_char_exec(a.get_char(i)) != lower_char_exec(b.get_char(i)) {
            return false;
        }
        i = i + 1;
    }
    true
}

/// The length of the maximal all-digit prefix.
pub open spec fn digit_run_len(s: Seq<char>) -> int
    decreases s.len(),
{
    if s.len() > 0 && is_digit_char(s[0]) {
        1 + digit_run_len(s.drop_first())
    } else {
        0
    }
}

pub proof fn lemma_digit_run_len_at(s: Seq<char>, w: int)
    requires
        0 <= w <= s.len(),
        forall|j: int| 0 <= j < w ==> is_digit_char(#[trigger] s[j]),
        w < s.len() ==> !is_digit_char(s[w]),
    ensures
        digit_run_len(s) == w,
    decreases w,
{
    if w > 0 {
        assert(is_digit_char(s[0]));
        let t = s.drop_first();
        assert forall|j: int| 0 <= j < w - 1 implies is_digit_char(#[trigger] t[j]) by {
            assert(is_digit_char(s[j + 1]));
        }
        lemma_digit_run_len_at(t, w - 1);
    }
}

/// The decimal rendering of a non-negative number, without sign.
pub open spec fn dec_str(v: int) -> Seq<char>
    decreases v,
{
    if v < 10 {
        seq![digit_to_char(v)]
    } else {
        dec_str(v / 10) + seq![digit_to_char(v % 10)]
    }
}

/// The character for one decimal digit.
pub open spec fn digit_to_char(d: int) -> char {
    if d == 0 {
        '0'
    } else if d == 1 {
        '1'
    } else if d == 2 {
        '2'
    } else if d == 3 {
        '3'
    } else if d == 4 {
        '4'
    } else if d == 5 {
        '5'
    } else if d == 6 {
        '6'
    } else if d == 7 {
        '7'
    } else if d == 8 {
        '8'
    } else {
        '9'
    }
}

fn digit_str(d: u64) -> (r: &'static str)
    requires
        d < 10,
    ensures
        r@ == seq![digit_to_char(d as int)],
{
    proof {
        reveal_strlit("0");
        reveal_strlit("1");
        reveal_strlit("2");
        reveal_strlit("3");
        reveal_strlit("4");
        reveal_strlit("5");
        reveal_strlit("6");
        reveal_strlit("7");
        reveal_strlit("8");
        reveal_strlit("9");
    }
    match d {
        0 => "0",
        1 => "1",
        2 => "2",
        3 => "3",
        4 => "4",
        5 => "5",
        6 => "6",
        7 => "7",
        8 => "8",
        _ => "9",
    }
}

/// Renders a number in decimal.
pub fn u64_to_string(v: u64) -> (r: String)
    ensures
        r@ == dec_str(v as int),
    decreases v,
{
    if v < 10 {
        digit_str(v).to_owned()
    } else {
        let mut r = u64_to_string(v / 10);
        r.append(digit_str(v % 10));
        r
    }
}

/// The decimal rendering of a number, with a leading minus sign when
/// negative.
pub open spec fn dec_str_signed(v: int) -> Seq<char> {
    if v < 0 {
        seq!['-'] + dec_str(-v)
    } else {
        dec_str(v)
    }
}

/// Renders a signed number in decimal.
pub fn i64_to_string(v: i64) -> (r: String)
    ensures
        r@ == dec_str_signed(v as int),
{
    if v < 0 {
        proof {
            reveal_strlit("-");
        }
        let mut r = String::from_str("-");
        let mag: u64 = if v == i64::MIN {
            9223372036854775808u64
        } else {
            (-v) as u64
        };
        r.append(u64_to_string(mag).as_str());
        assert(r@ =~= dec_str_signed(v as int));
        r
    } else {
        u64_to_string(v as u64)
    }
}

} // verus!
