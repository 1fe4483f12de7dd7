//! The live event stream of the daemon as the dashboard reads it
//! (Server-Sent Events): frames end with a blank line, and each `data:` line
//! of a frame carries one event as JSON.

use vstd::prelude::*;
use crate::text::{chars_of, has_prefix, is_white, lead_white, slice_chars, starts_with, string_of, texts_view, trim_start, white};

verus! {

/// The first position from `i` on where `\n\n` starts.
pub open spec fn blank_from(s: Seq<u8>, i: int) -> Option<int>
    decreases s.len() - i,
{
    if i < 0 || i + 1 >= s.len() {
        None
    } else if s[i] == 10u8 && s[i + 1] == 10u8 {
        Some(i)
    } else {
        blank_from(s, i + 1)
    }
}

/// Where the first complete frame of `s` ends: just after its first blank
/// line.
pub open spec fn frame_end(s: Seq<u8>) -> Option<int> {
    match blank_from(s, 0) {
        Some(i) => Some(i + 2),
        None => None,
    }
}

proof fn lemma_blank_from_bounds(s: Seq<u8>, i: int)
    ensures
        blank_from(s, i) matches Some(k) ==> i <= k && k + 1 < s.len(),
    decreases s.len() - i,
{
    if !(i < 0 || i + 1 >= s.len()) && !(s[i] == 10u8 && s[i + 1] == 10u8) {
        lemma_blank_from_bounds(s, i + 1);
    }
}

/// Takes the first complete frame (blank line included) off the front of
/// `buf`; `None`, and `buf` unchanged, while no frame is complete.
pub fn take_frame(buf: &mut Vec<u8>) -> (r: Option<Vec<u8>>)
    ensures
        match frame_end(old(buf)@) {
            None => r is None && final(buf)@ == old(buf)@,
            Some(e) => r matches Some(f) && f@ == old(buf)@.take(e) && final(buf)@ == old(buf)@.skip(e),
        },
{
    let n = buf.len();
    let mut i: usize = 0;
    proof {
        lemma_blank_from_bounds(buf@, 0);
    }
    while i < n && i + 1 < n
        invariant
            n == buf@.len(),
            buf@ == old(buf)@,
            0 <= i <= n,
            blank_from(buf@, 0) == blank_from(buf@, i as int),
        decreases n - i,
    {
        if buf[i] == 10u8 && buf[i + 1] == 10u8 {
            let e = i + 2;
            let mut frame: Vec<u8> = Vec::new();
            let mut rest: Vec<u8> = Vec::new();
            let mut j: usize = 0;
            while j < n
                invariant
                    n == buf@.len(),
                    buf@ == old(buf)@,
                    e == i + 2,
                    blank_from(buf@, 0) == Some(i as int),
                    e <= n,
                    0 <= j <= n,
                    frame@ == buf@.take(if j < e { j as int } else { e as int }),
                    rest@ == buf@.subrange(e as int, if j < e { e as int } else { j as int }),
                decreases n - j,
            {
                if j < e {
                    frame.push(buf[j]);
                    assert(frame@ =~= buf@.take(j + 1));
                } else {
                    rest.push(buf[j]);
                    assert(rest@ =~= buf@.subrange(e as int, j + 1));
                }
                j = j + 1;
            }
            assert(rest@ =~= buf@.skip(e as int));
            *buf = rest;
            return Some(frame);
        }
        i = i + 1;
    }
    assert(blank_from(buf@, i as int) is None);
    None
}

/// `s` without one trailing `\r`.
pub open spec fn strip_cr(s: Seq<char>) -> Seq<char> {
    if s.len() > 0 && s.last() == '\r' {
        s.drop_last()
    } else {
        s
    }
}

/// The first `\n` of `s` at or after `i`.
pub open spec fn newline_from(s: Seq<char>, i: int) -> Option<int>
    decreases s.len() - i,
{
    if i < 0 || i >= s.len() {
        None
    } else if s[i] == '\n' {
        Some(i)
    } else {
        newline_from(s, i + 1)
    }
}

/// The lines of `s` (std's `str::lines`): split at `\n`, a `\r` before it
/// dropped, no empty line after a final `\n`.
pub open spec fn lines_of(s: Seq<char>) -> Seq<Seq<char>>
    decreases s.len(),
{
    if s.len() == 0 {
        Seq::empty()
    } else {
        match newline_from(s, 0) {
            None => seq![s],
            Some(k) => if 0 <= k < s.len() {
                seq![strip_cr(s.take(k))] + lines_of(s.skip(k + 1))
            } else {
                Seq::empty()
            },
        }
    }
}

/// The payload of a line: after leading whitespace, `data:` and at most one
/// space; `None` for other lines.
pub open spec fn data_of(line: Seq<char>) -> Option<Seq<char>> {
    let t = trim_start(line);
    if starts_with(t, "data:"@) {
        let rest = t.skip(5);
        Some(if rest.len() > 0 && rest[0] == ' ' {
            rest.skip(1)
        } else {
            rest
        })
    } else {
        None
    }
}

/// The payloads of the `data:` lines among `lines`, in order.
pub open spec fn payloads(lines: Seq<Seq<char>>) -> Seq<Seq<char>>
    decreases lines.len(),
{
    if lines.len() == 0 {
        Seq::empty()
    } else {
        let rest = payloads(lines.drop_last());
        match data_of(lines.last()) {
            Some(p) => rest.push(p),
            None => rest,
        }
    }
}

proof fn lemma_newline_from_bounds(s: Seq<char>, i: int)
    requires
        i >= 0,
    ensures
        newline_from(s, i) matches Some(k) ==> i <= k < s.len() && s[k] == '\n',
        newline_from(s, i) is None ==> forall|j: int| i <= j < s.len() && j >= 0 ==> s[j] != '\n',
    decreases s.len() - i,
{
    if !(i < 0 || i >= s.len()) && s[i] != '\n' {
        lemma_newline_from_bounds(s, i + 1);
    }
}

proof fn lemma_newline_shift(s: Seq<char>, a: int, i: int)
    requires
        0 <= a <= i,
        a <= s.len(),
    ensures
        newline_from(s.skip(a), i - a) == match newline_from(s, i) {
            Some(k) => Some(k - a),
            None => None::<int>,
        },
    decreases s.len() - i,
{
    if !(i >= s.len()) && s[i] != '\n' {
        lemma_newline_shift(s, a, i + 1);
    }
}

fn lead_white_exec(v: &[char]) -> (n: usize)
    ensures
        n as int == lead_white(v@),
        n <= v@.len(),
{
    let mut i: usize = 0;
    assert(v@.skip(0) =~= v@);
    while i < v.len() && white(v[i])
        invariant
            0 <= i <= v@.len(),
            lead_white(v@) == i + lead_white(v@.skip(i as int)),
        decreases v@.len() - i,
    {
        assert(v@.skip(i as int).drop_first() =~= v@.skip(i + 1));
        i = i + 1;
    }
    i
}

fn data_of_exec(line: &[char]) -> (r: Option<String>)
    ensures
        match r {
            Some(p) => data_of(line@) == Some(p@),
            None => data_of(line@) is None,
        },
{
    proof {
        assert(line@.skip(0) =~= line@);
    }
    let k = lead_white_exec(line);
    let n = line.len();
    let t = slice_chars(line, k, n);
    assert(t@ == trim_start(line@));
    if !has_prefix(&t, "data:") {
        return None;
    }
    proof {
        reveal_strlit("data:");
    }
    let m = t.len();
    let rest = slice_chars(&t, 5, m);
    assert(rest@ =~= t@.skip(5));
    if rest.len() > 0 && rest[0] == ' ' {
        let r = rest.len();
        let p = slice_chars(&rest, 1, r);
        assert(p@ =~= rest@.skip(1));
        Some(string_of(&p))
    } else {
        Some(string_of(&rest))
    }
}

/// The payloads of the `data:` lines of a frame's text, in order.
pub fn data_lines(text: &str) -> (r: Vec<String>)
    ensures
        texts_view(r@) == payloads(lines_of(text@)),
{
    let v = chars_of(text);
    let ghost s = v@;
    let mut out: Vec<String> = Vec::new();
    let mut start: usize = 0;
    let mut i: usize = 0;
    let n = v.len();
    let ghost mut done: Seq<Seq<char>> = Seq::empty();
    proof {
        lemma_newline_shift(s, 0, 0);
        assert(s.skip(0) =~= s);
    }
    while i < n
        invariant
            n == s.len(),
            v@ == s,
            0 <= start <= i <= n,
            forall|j: int| start <= j < i ==> s[j] != '\n',
            lines_of(s) == done + lines_of(s.skip(start as int)),
            texts_view(out@) == payloads(done),
        decreases n - i,
    {
        if v[i] == '\n' {
            let ghost t = s.skip(start as int);
            proof {
                lemma_newline_shift(s, start as int, start as int);
                lemma_newline_from_bounds(s, start as int);
                lemma_newline_from_bounds(t, 0);
                assert(t[i - start] == '\n');
                assert forall|j: int| 0 <= j < i - start implies t[j] != '\n' by {
                    assert(t[j] == s[start + j]);
                }
                assert(newline_from(t, 0) == Some(i - start as int)) by {
                    lemma_newline_from_first(t, 0, i - start);
                }
                assert(t.skip(i - start + 1) =~= s.skip(i + 1));
            }
            let line0 = slice_chars(&v, start, i);
            let line = if line0.len() > 0 && line0[line0.len() - 1] == '\r' {
                let l = line0.len() - 1;
                slice_chars(&line0, 0, l)
            } else {
                line0
            };
            proof {
                assert(t.take(i - start) =~= s.subrange(start as int, i as int));
                if s.subrange(start as int, i as int).len() > 0 && s.subrange(start as int, i as int).last() == '\r' {
                    assert(line@ =~= s.subrange(start as int, i as int).drop_last());
                }
                assert(line@ == strip_cr(t.take(i - start)));
            }
            let ghost before = done;
            match data_of_exec(&line) {
                Some(p) => {
                    out.push(p);
                },
                None => {},
            }
            proof {
                done = done.push(line@);
                assert(done.drop_last() =~= before);
                assert(lines_of(t) == seq![strip_cr(t.take(i - start))] + lines_of(t.skip(i - start + 1)));
                assert(lines_of(s) =~= done + lines_of(s.skip(i + 1)));
                assert(texts_view(out@) =~= payloads(done));
            }
            start = i + 1;
        }
        i = i + 1;
    }
    let ghost t = s.skip(start as int);
    if start < n {
        let last = slice_chars(&v, start, n);
        proof {
            assert(last@ =~= t);
            lemma_newline_from_bounds(t, 0);
            assert forall|j: int| 0 <= j < t.len() implies t[j] != '\n' by {
                assert(t[j] == s[start + j]);
            }
            lemma_newline_none(t, 0);
            assert(lines_of(t) == seq![t]);
        }
        let ghost before = done;
        match data_of_exec(&last) {
            Some(p) => {
                out.push(p);
            },
            None => {},
        }
        proof {
            done = done.push(t);
            assert(done.drop_last() =~= before);
            assert(lines_of(s) =~= done);
            assert(texts_view(out@) =~= payloads(done));
        }
    } else {
        proof {
            assert(t.len() == 0);
            assert(lines_of(s) =~= done);
        }
    }
    out
}

proof fn lemma_newline_from_first(s: Seq<char>, i: int, k: int)
    requires
        0 <= i <= k < s.len(),
        s[k] == '\n',
        forall|j: int| i <= j < k ==> s[j] != '\n',
    ensures
        newline_from(s, i) == Some(k),
    decreases k - i,
{
    if i < k {
        lemma_newline_from_first(s, i + 1, k);
    }
}

proof fn lemma_newline_none(s: Seq<char>, i: int)
    requires
        0 <= i,
        forall|j: int| i <= j < s.len() ==> s[j] != '\n',
    ensures
        newline_from(s, i) is None,
    decreases s.len() - i,
{
    if i < s.len() {
        lemma_newline_none(s, i + 1);
    }
}

} // verus!
