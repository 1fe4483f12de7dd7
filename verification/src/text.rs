//! Character-level helpers shared by the parsers: character classes, trimming,
//! searching, decimal and hexadecimal conversion.

use vstd::prelude::*;

verus! {

// ---------------------------------------------------------------------------
// conversions between `str`/`String` and character vectors
// ---------------------------------------------------------------------------

/// The characters of `s`, in order.
pub fn chars_of(s: &str) -> (v: Vec<char>)
    ensures
        v@ == s@,
{
    let mut v: Vec<char> = Vec::new();
    for c in it: s.chars()
        invariant
            v@ == it.seq().take(it.index() as int),
            it.seq() == s@,
    {
        v.push(c);
    }
    v
}

/// A `String` holding exactly the characters `v` (std's `FromIterator<&char>`).
#[verifier::external_body]
pub(crate) fn string_of(v: &[char]) -> (s: String)
    ensures
        s@ == v@,
{
    v.iter().collect()
}

/// An owned copy of `s`.
pub fn owned(s: &str) -> (r: String)
    ensures
        r@ == s@,
{
    s.to_owned()
}

/// Character-wise equality of two strings.
pub fn str_eq(a: &str, b: &str) -> (r: bool)
    ensures
        r == (a@ == b@),
{
    let av = chars_of(a);
    let bv = chars_of(b);
    chars_eq(&av, &bv)
}

/// Equality of two character slices.
pub fn chars_eq(a: &[char], b: &[char]) -> (r: bool)
    ensures
        r == (a@ == b@),
{
    if a.len() != b.len() {
        return false;
    }
    let mut i: usize = 0;
    while i < a.len()
        invariant
            a@.len() == b@.len(),
            0 <= i <= a@.len(),
            forall|j: int| 0 <= j < i ==> a@[j] == b@[j],
        decreases a@.len() - i,
    {
        if a[i] != b[i] {
            return false;
        }
        i = i + 1;
    }
    assert(a@ =~= b@);
    true
}

/// `v[from..to]` as a new vector.
pub fn slice_chars(v: &[char], from: usize, to: usize) -> (r: Vec<char>)
    requires
        from <= to <= v@.len(),
    ensures
        r@ == v@.subrange(from as int, to as int),
{
    let mut r: Vec<char> = Vec::new();
    let mut i = from;
    while i < to
        invariant
            from <= i <= to <= v@.len(),
            r@ == v@.subrange(from as int, i as int),
        decreases to - i,
    {
        r.push(v[i]);
        i = i + 1;
    }
    r
}

/// `a ++ b`.
pub fn concat_chars(a: &[char], b: &[char]) -> (r: Vec<char>)
    ensures
        r@ == a@ + b@,
{
    let mut r: Vec<char> = Vec::new();
    let mut i: usize = 0;
    while i < a.len()
        invariant
            0 <= i <= a@.len(),
            r@ == a@.subrange(0, i as int),
        decreases a@.len() - i,
    {
        r.push(a[i]);
        i = i + 1;
    }
    let mut j: usize = 0;
    while j < b.len()
        invariant
            0 <= j <= b@.len(),
            r@ == a@ + b@.subrange(0, j as int),
        decreases b@.len() - j,
    {
        r.push(b[j]);
        j = j + 1;
    }
    assert(a@.subrange(0, a@.len() as int) =~= a@);
    assert(b@.subrange(0, b@.len() as int) =~= b@);
    r
}

/// Appends the characters of `s` to `out`.
pub fn push_str(out: &mut Vec<char>, s: &str)
    ensures
        final(out)@ == old(out)@ + s@,
{
    let v = chars_of(s);
    push_chars(out, &v);
}

/// Appends `v` to `out`.
pub fn push_chars(out: &mut Vec<char>, v: &[char])
    ensures
        final(out)@ == old(out)@ + v@,
{
    let ghost start = out@;
    let mut i: usize = 0;
    while i < v.len()
        invariant
            0 <= i <= v@.len(),
            out@ == start + v@.subrange(0, i as int),
        decreases v@.len() - i,
    {
        out.push(v[i]);
        i = i + 1;
    }
    assert(v@.subrange(0, v@.len() as int) =~= v@);
}

// ---------------------------------------------------------------------------
// character classes (ASCII)
// ---------------------------------------------------------------------------

pub open spec fn is_digit(c: char) -> bool {
    '0' <= c && c <= '9'
}

pub open spec fn is_lower(c: char) -> bool {
    'a' <= c && c <= 'z'
}

pub open spec fn is_upper(c: char) -> bool {
    'A' <= c && c <= 'Z'
}

/// `[a-z0-9]`
pub open spec fn is_lower_alnum(c: char) -> bool {
    is_lower(c) || is_digit(c)
}

/// `[A-Za-z0-9]` (std's `is_ascii_alphanumeric`)
pub open spec fn is_alnum(c: char) -> bool {
    is_lower(c) || is_upper(c) || is_digit(c)
}

/// `[0-9a-f]`
pub open spec fn is_lower_hex(c: char) -> bool {
    is_digit(c) || ('a' <= c && c <= 'f')
}

/// `[0-9a-fA-F]` (std's `is_ascii_hexdigit`)
pub open spec fn is_hex_digit(c: char) -> bool {
    is_lower_hex(c) || ('A' <= c && c <= 'F')
}

/// The Unicode `White_Space` property (std's `char::is_whitespace`).
pub open spec fn is_white(c: char) -> bool {
    ('\u{9}' <= c && c <= '\u{d}') || c == ' ' || c == '\u{85}' || c == '\u{a0}' || c
        == '\u{1680}' || ('\u{2000}' <= c && c <= '\u{200a}') || c == '\u{2028}' || c
        == '\u{2029}' || c == '\u{202f}' || c == '\u{205f}' || c == '\u{3000}'
}

pub fn digit(c: char) -> (r: bool)
    ensures
        r == is_digit(c),
{
    c >= '0' && c <= '9'
}

pub fn lower_alnum(c: char) -> (r: bool)
    ensures
        r == is_lower_alnum(c),
{
    (c >= 'a' && c <= 'z') || (c >= '0' && c <= '9')
}

pub fn alnum(c: char) -> (r: bool)
    ensures
        r == is_alnum(c),
{
    (c >= 'a' && c <= 'z') || (c >= 'A' && c <= 'Z') || (c >= '0' && c <= '9')
}

pub fn lower_hex(c: char) -> (r: bool)
    ensures
        r == is_lower_hex(c),
{
    (c >= '0' && c <= '9') || (c >= 'a' && c <= 'f')
}

pub fn hex_digit(c: char) -> (r: bool)
    ensures
        r == is_hex_digit(c),
{
    (c >= '0' && c <= '9') || (c >= 'a' && c <= 'f') || (c >= 'A' && c <= 'F')
}

pub fn white(c: char) -> (r: bool)
    ensures
        r == is_white(c),
{
    (c >= '\u{9}' && c <= '\u{d}') || c == ' ' || c == '\u{85}' || c == '\u{a0}' || c
        == '\u{1680}' || (c >= '\u{2000}' && c <= '\u{200a}') || c == '\u{2028}' || c
        == '\u{2029}' || c == '\u{202f}' || c == '\u{205f}' || c == '\u{3000}'
}

// ---------------------------------------------------------------------------
// trimming and searching
// ---------------------------------------------------------------------------

/// Number of leading whitespace characters.
pub open spec fn lead_white(s: Seq<char>) -> nat
    decreases s.len(),
{
    if s.len() > 0 && is_white(s[0]) {
        1 + lead_white(s.drop_first())
    } else {
        0
    }
}

/// Number of trailing whitespace characters.
pub open spec fn trail_white(s: Seq<char>) -> nat
    decreases s.len(),
{
    if s.len() > 0 && is_white(s.last()) {
        1 + trail_white(s.drop_last())
    } else {
        0
    }
}

/// `s` without leading whitespace (std's `trim_start`).
pub open spec fn trim_start(s: Seq<char>) -> Seq<char> {
    s.subrange(lead_white(s) as int, s.len() as int)
}

/// `s` without trailing whitespace (std's `trim_end`).
pub open spec fn trim_end(s: Seq<char>) -> Seq<char> {
    s.subrange(0, s.len() - trail_white(s))
}

/// `s` without leading and trailing whitespace (std's `trim`).
pub open spec fn trim(s: Seq<char>) -> Seq<char> {
    trim_end(trim_start(s))
}

/// Number of trailing copies of `c`.
pub open spec fn trail_count(s: Seq<char>, c: char) -> nat
    decreases s.len(),
{
    if s.len() > 0 && s.last() == c {
        1 + trail_count(s.drop_last(), c)
    } else {
        0
    }
}

/// `s` without trailing copies of `c` (std's `trim_end_matches(c)`).
pub open spec fn trim_end_char(s: Seq<char>, c: char) -> Seq<char> {
    s.subrange(0, s.len() - trail_count(s, c))
}

/// Number of leading copies of `c`.
pub open spec fn lead_count(s: Seq<char>, c: char) -> nat
    decreases s.len(),
{
    if s.len() > 0 && s[0] == c {
        1 + lead_count(s.drop_first(), c)
    } else {
        0
    }
}

/// `s` without leading or trailing copies of `c` (std's `trim_matches(c)`).
pub open spec fn trim_char(s: Seq<char>, c: char) -> Seq<char> {
    let t = s.subrange(lead_count(s, c) as int, s.len() as int);
    trim_end_char(t, c)
}

proof fn lemma_lead_white_bound(s: Seq<char>)
    ensures
        lead_white(s) <= s.len(),
        forall|j: int| 0 <= j < lead_white(s) ==> is_white(#[trigger] s[j]),
        lead_white(s) < s.len() ==> !is_white(s[lead_white(s) as int]),
    decreases s.len(),
{
    if s.len() > 0 && is_white(s[0]) {
        lemma_lead_white_bound(s.drop_first());
        assert forall|j: int| 0 <= j < lead_white(s) implies is_white(#[trigger] s[j]) by {
            if j > 0 {
                assert(s[j] == s.drop_first()[j - 1]);
            }
        }
    }
}

proof fn lemma_lead_white_char(s: Seq<char>, k: nat)
    requires
        k <= s.len(),
        forall|j: int| 0 <= j < k ==> is_white(#[trigger] s[j]),
        k < s.len() ==> !is_white(s[k as int]),
    ensures
        lead_white(s) == k,
    decreases k,
{
    if k > 0 {
        assert forall|j: int| 0 <= j < k - 1 implies is_white(#[trigger] s.drop_first()[j]) by {
            assert(s.drop_first()[j] == s[j + 1]);
        }
        if k - 1 < s.drop_first().len() {
            assert(s.drop_first()[k - 1] == s[k as int]);
        }
        lemma_lead_white_char(s.drop_first(), (k - 1) as nat);
    }
}

proof fn lemma_trail_white_char(s: Seq<char>, k: nat)
    requires
        k <= s.len(),
        forall|j: int| s.len() - k <= j < s.len() ==> is_white(#[trigger] s[j]),
        k < s.len() ==> !is_white(s[s.len() - k - 1]),
    ensures
        trail_white(s) == k,
    decreases k,
{
    if k > 0 {
        let t = s.drop_last();
        assert forall|j: int| t.len() - (k - 1) <= j < t.len() implies is_white(#[trigger] t[j]) by {
            assert(t[j] == s[j]);
        }
        if k - 1 < t.len() {
            assert(t[t.len() - (k - 1) - 1] == s[s.len() - k - 1]);
        }
        lemma_trail_white_char(t, (k - 1) as nat);
    }
}

proof fn lemma_trail_count_char(s: Seq<char>, c: char, k: nat)
    requires
        k <= s.len(),
        forall|j: int| s.len() - k <= j < s.len() ==> #[trigger] s[j] == c,
        k < s.len() ==> s[s.len() - k - 1] != c,
    ensures
        trail_count(s, c) == k,
    decreases k,
{
    if k > 0 {
        let t = s.drop_last();
        assert forall|j: int| t.len() - (k - 1) <= j < t.len() implies #[trigger] t[j] == c by {
            assert(t[j] == s[j]);
        }
        if k - 1 < t.len() {
            assert(t[t.len() - (k - 1) - 1] == s[s.len() - k - 1]);
        }
        lemma_trail_count_char(t, c, (k - 1) as nat);
    }
}

proof fn lemma_lead_count_char(s: Seq<char>, c: char, k: nat)
    requires
        k <= s.len(),
        forall|j: int| 0 <= j < k ==> #[trigger] s[j] == c,
        k < s.len() ==> s[k as int] != c,
    ensures
        lead_count(s, c) == k,
    decreases k,
{
    if k > 0 {
        assert forall|j: int| 0 <= j < k - 1 implies #[trigger] s.drop_first()[j] == c by {
            assert(s.drop_first()[j] == s[j + 1]);
        }
        if k - 1 < s.drop_first().len() {
            assert(s.drop_first()[k - 1] == s[k as int]);
        }
        lemma_lead_count_char(s.drop_first(), c, (k - 1) as nat);
    }
}

/// Trimming changes nothing when both ends are not whitespace.
pub proof fn lemma_trim_noop(s: Seq<char>)
    requires
        s.len() > 0,
        !is_white(s[0]),
        !is_white(s.last()),
    ensures
        trim(s) == s,
{
    assert(lead_white(s) == 0);
    assert(trim_start(s) =~= s);
    assert(trail_white(s) == 0);
    assert(trim_end(s) =~= s);
}

proof fn lemma_trail_white_bound(s: Seq<char>)
    ensures
        trail_white(s) <= s.len(),
        forall|j: int| s.len() - trail_white(s) <= j < s.len() ==> is_white(#[trigger] s[j]),
        trail_white(s) < s.len() ==> !is_white(s[s.len() - trail_white(s) - 1]),
    decreases s.len(),
{
    if s.len() > 0 && is_white(s.last()) {
        let t = s.drop_last();
        lemma_trail_white_bound(t);
        assert forall|j: int| s.len() - trail_white(s) <= j < s.len() implies is_white(
            #[trigger] s[j],
        ) by {
            if j < s.len() - 1 {
                assert(s[j] == t[j]);
            }
        }
        if trail_white(s) < s.len() {
            assert(s[s.len() - trail_white(s) - 1] == t[t.len() - trail_white(t) - 1]);
        }
    }
}

/// Trimming twice is trimming once.
pub proof fn lemma_trim_idem(s: Seq<char>)
    ensures
        trim(trim(s)) == trim(s),
{
    let u = trim_start(s);
    lemma_lead_white_bound(s);
    lemma_trail_white_bound(u);
    let t = trim(s);
    if t.len() == 0 {
        assert(trim_start(t) =~= t);
        assert(trim_end(t) =~= t);
    } else {
        assert(u.len() > 0);
        assert(!is_white(u[0]));
        assert(trail_white(u) < u.len()) by {
            if trail_white(u) == u.len() {
                assert(is_white(u[0]));
            }
        }
        assert(t[0] == u[0]);
        assert(t.last() == u[u.len() - trail_white(u) - 1]);
        lemma_trim_noop(t);
    }
}

/// `trim` of a character vector.
pub fn trim_chars(v: &[char]) -> (r: Vec<char>)
    ensures
        r@ == trim(v@),
{
    let n = v.len();
    let mut a: usize = 0;
    while a < n && white(v[a])
        invariant
            0 <= a <= n == v@.len(),
            forall|j: int| 0 <= j < a ==> is_white(#[trigger] v@[j]),
        decreases n - a,
    {
        a = a + 1;
    }
    proof {
        lemma_lead_white_char(v@, a as nat);
    }
    let ghost t = v@.subrange(a as int, n as int);
    let mut b: usize = n;
    while b > a && white(v[b - 1])
        invariant
            a <= b <= n == v@.len(),
            t == v@.subrange(a as int, n as int),
            forall|j: int| b <= j < n ==> is_white(#[trigger] v@[j]),
        decreases b - a,
    {
        b = b - 1;
    }
    proof {
        let k = (n - b) as nat;
        assert forall|j: int| t.len() - k <= j < t.len() implies is_white(#[trigger] t[j]) by {
            assert(t[j] == v@[a + j]);
        }
        if k < t.len() {
            assert(t[t.len() - k - 1] == v@[b - 1]);
        }
        lemma_trail_white_char(t, k);
        assert(trim(v@) =~= v@.subrange(a as int, b as int));
    }
    slice_chars(v, a, b)
}

/// `trim_end_matches(c)` of a character vector.
pub fn trim_end_char_chars(v: &[char], c: char) -> (r: Vec<char>)
    ensures
        r@ == trim_end_char(v@, c),
{
    let n = v.len();
    let mut b: usize = n;
    while b > 0 && v[b - 1] == c
        invariant
            b <= n == v@.len(),
            forall|j: int| b <= j < n ==> #[trigger] v@[j] == c,
        decreases b,
    {
        b = b - 1;
    }
    proof {
        lemma_trail_count_char(v@, c, (n - b) as nat);
    }
    slice_chars(v, 0, b)
}

/// `trim_matches(c)` of a character vector.
pub fn trim_char_chars(v: &[char], c: char) -> (r: Vec<char>)
    ensures
        r@ == trim_char(v@, c),
{
    let n = v.len();
    let mut a: usize = 0;
    while a < n && v[a] == c
        invariant
            0 <= a <= n == v@.len(),
            forall|j: int| 0 <= j < a ==> #[trigger] v@[j] == c,
        decreases n - a,
    {
        a = a + 1;
    }
    proof {
        lemma_lead_count_char(v@, c, a as nat);
    }
    let t = slice_chars(v, a, n);
    trim_end_char_chars(&t, c)
}

/// Index of the first `c` in `s`, if any.
pub open spec fn find(s: Seq<char>, c: char) -> Option<int>
    decreases s.len(),
{
    if s.len() == 0 {
        None
    } else if s[0] == c {
        Some(0)
    } else {
        match find(s.drop_first(), c) {
            Some(i) => Some(i + 1),
            None => None,
        }
    }
}

/// Index of the last `c` in `s`, if any.
pub open spec fn rfind(s: Seq<char>, c: char) -> Option<int>
    decreases s.len(),
{
    if s.len() == 0 {
        None
    } else if s.last() == c {
        Some(s.len() - 1)
    } else {
        rfind(s.drop_last(), c)
    }
}

pub proof fn lemma_find(s: Seq<char>, c: char)
    ensures
        match find(s, c) {
            Some(i) => 0 <= i < s.len() && s[i] == c && forall|j: int|
                0 <= j < i ==> #[trigger] s[j] != c,
            None => forall|j: int| 0 <= j < s.len() ==> #[trigger] s[j] != c,
        },
    decreases s.len(),
{
    if s.len() > 0 && s[0] != c {
        lemma_find(s.drop_first(), c);
        match find(s.drop_first(), c) {
            Some(i) => {
                assert forall|j: int| 0 <= j < i + 1 implies #[trigger] s[j] != c by {
                    if j > 0 {
                        assert(s[j] == s.drop_first()[j - 1]);
                    }
                }
            },
            None => {
                assert forall|j: int| 0 <= j < s.len() implies #[trigger] s[j] != c by {
                    if j > 0 {
                        assert(s[j] == s.drop_first()[j - 1]);
                    }
                }
            },
        }
    }
}

pub proof fn lemma_rfind(s: Seq<char>, c: char)
    ensures
        match rfind(s, c) {
            Some(i) => 0 <= i < s.len() && s[i] == c && forall|j: int|
                i < j < s.len() ==> #[trigger] s[j] != c,
            None => forall|j: int| 0 <= j < s.len() ==> #[trigger] s[j] != c,
        },
    decreases s.len(),
{
    if s.len() > 0 && s.last() != c {
        let t = s.drop_last();
        lemma_rfind(t, c);
        match rfind(t, c) {
            Some(i) => {
                assert forall|j: int| i < j < s.len() implies #[trigger] s[j] != c by {
                    if j < s.len() - 1 {
                        assert(s[j] == t[j]);
                    }
                }
            },
            None => {
                assert forall|j: int| 0 <= j < s.len() implies #[trigger] s[j] != c by {
                    if j < s.len() - 1 {
                        assert(s[j] == t[j]);
                    }
                }
            },
        }
    }
}

/// A characterisation that determines `find`.
pub proof fn lemma_find_is(s: Seq<char>, c: char, r: Option<int>)
    requires
        match r {
            Some(i) => 0 <= i < s.len() && s[i] == c && forall|j: int|
                0 <= j < i ==> #[trigger] s[j] != c,
            None => forall|j: int| 0 <= j < s.len() ==> #[trigger] s[j] != c,
        },
    ensures
        find(s, c) == r,
{
    lemma_find(s, c);
}

/// A characterisation that determines `rfind`.
pub proof fn lemma_rfind_is(s: Seq<char>, c: char, r: Option<int>)
    requires
        match r {
            Some(i) => 0 <= i < s.len() && s[i] == c && forall|j: int|
                i < j < s.len() ==> #[trigger] s[j] != c,
            None => forall|j: int| 0 <= j < s.len() ==> #[trigger] s[j] != c,
        },
    ensures
        rfind(s, c) == r,
{
    lemma_rfind(s, c);
}

/// First index of `c` in `v`.
pub fn find_char(v: &[char], c: char) -> (r: Option<usize>)
    ensures
        match r {
            Some(i) => find(v@, c) == Some(i as int),
            None => find(v@, c) is None,
        },
{
    let mut i: usize = 0;
    while i < v.len()
        invariant
            0 <= i <= v@.len(),
            forall|j: int| 0 <= j < i ==> #[trigger] v@[j] != c,
        decreases v@.len() - i,
    {
        if v[i] == c {
            proof {
                lemma_find_is(v@, c, Some(i as int));
            }
            return Some(i);
        }
        i = i + 1;
    }
    proof {
        lemma_find_is(v@, c, None);
    }
    None
}

/// Last index of `c` in `v`.
pub fn rfind_char(v: &[char], c: char) -> (r: Option<usize>)
    ensures
        match r {
            Some(i) => rfind(v@, c) == Some(i as int),
            None => rfind(v@, c) is None,
        },
{
    let mut i: usize = v.len();
    while i > 0
        invariant
            i <= v@.len(),
            forall|j: int| i <= j < v@.len() ==> #[trigger] v@[j] != c,
        decreases i,
    {
        if v[i - 1] == c {
            proof {
                lemma_rfind_is(v@, c, Some(i - 1));
            }
            return Some(i - 1);
        }
        i = i - 1;
    }
    proof {
        lemma_rfind_is(v@, c, None);
    }
    None
}

/// Does `s` start with `p`?
pub open spec fn starts_with(s: Seq<char>, p: Seq<char>) -> bool {
    p.len() <= s.len() && s.subrange(0, p.len() as int) == p
}

/// Does `s` end with `p`?
pub open spec fn ends_with(s: Seq<char>, p: Seq<char>) -> bool {
    p.len() <= s.len() && s.subrange(s.len() - p.len(), s.len() as int) == p
}

/// Does `s` contain `p` as a contiguous piece?
pub open spec fn contains_seq(s: Seq<char>, p: Seq<char>) -> bool {
    exists|i: int| 0 <= i <= s.len() - p.len() && #[trigger] s.subrange(i, i + p.len()) == p
}

pub fn has_prefix(v: &[char], p: &str) -> (r: bool)
    ensures
        r == starts_with(v@, p@),
{
    let pv = chars_of(p);
    if pv.len() > v.len() {
        return false;
    }
    let mut i: usize = 0;
    while i < pv.len()
        invariant
            pv@ == p@,
            pv@.len() <= v@.len(),
            0 <= i <= pv@.len(),
            forall|j: int| 0 <= j < i ==> v@[j] == pv@[j],
        decreases pv@.len() - i,
    {
        if v[i] != pv[i] {
            assert(v@.subrange(0, pv@.len() as int)[i as int] != pv@[i as int]);
            return false;
        }
        i = i + 1;
    }
    assert(v@.subrange(0, pv@.len() as int) =~= pv@);
    true
}

pub fn has_suffix(v: &[char], p: &str) -> (r: bool)
    ensures
        r == ends_with(v@, p@),
{
    let pv = chars_of(p);
    if pv.len() > v.len() {
        return false;
    }
    let n = v.len();
    let off = n - pv.len();
    let mut i: usize = 0;
    while i < pv.len()
        invariant
            n == v@.len(),
            pv@ == p@,
            pv@.len() <= v@.len(),
            off == v@.len() - pv@.len(),
            0 <= i <= pv@.len(),
            forall|j: int| 0 <= j < i ==> v@[off + j] == pv@[j],
        decreases pv@.len() - i,
    {
        if v[off + i] != pv[i] {
            assert(v@.subrange(off as int, v@.len() as int)[i as int] != pv@[i as int]);
            return false;
        }
        i = i + 1;
    }
    assert(v@.subrange(off as int, v@.len() as int) =~= pv@);
    true
}

pub fn has_infix(v: &[char], p: &str) -> (r: bool)
    ensures
        r == contains_seq(v@, p@),
{
    let pv = chars_of(p);
    if pv.len() > v.len() {
        return false;
    }
    let n = v.len();
    let last = n - pv.len();
    let mut i: usize = 0;
    loop
        invariant
            n == v@.len(),
            pv@ == p@,
            last == v@.len() - pv@.len(),
            0 <= i <= last,
            forall|k: int| 0 <= k < i ==> #[trigger] v@.subrange(k, k + pv@.len()) != pv@,
        decreases last - i,
    {
        let piece = slice_chars(v, i, i + pv.len());
        if chars_eq(&piece, &pv) {
            return true;
        }
        if i == last {
            return false;
        }
        i = i + 1;
    }
}

// ---------------------------------------------------------------------------
// decimal numbers
// ---------------------------------------------------------------------------

pub open spec fn digit_char(d: nat) -> char
    recommends
        d < 10,
{
    (('0' as u8) + d) as char
}

pub open spec fn digit_value(c: char) -> nat {
    (c as u32 - '0' as u32) as nat
}

/// The shortest decimal rendering of `n` (std's `Display` for integers).
pub open spec fn dec(n: nat) -> Seq<char>
    decreases n,
{
    if n < 10 {
        seq![digit_char(n)]
    } else {
        dec(n / 10).push(digit_char(n % 10))
    }
}

/// The value of a sequence of decimal digits.
pub open spec fn dec_value(s: Seq<char>) -> nat
    decreases s.len(),
{
    if s.len() == 0 {
        0
    } else {
        dec_value(s.drop_last()) * 10 + digit_value(s.last())
    }
}

pub open spec fn all_digits(s: Seq<char>) -> bool {
    forall|i: int| 0 <= i < s.len() ==> is_digit(#[trigger] s[i])
}

/// `s` without one leading `+`, if it has one.
pub open spec fn unsigned_digits(s: Seq<char>) -> Seq<char> {
    if s.len() > 0 && s[0] == '+' {
        s.drop_first()
    } else {
        s
    }
}

/// `s` as std's `u32::from_str` reads it: an optional `+`, then at least one
/// ASCII digit, and a value that fits.
pub open spec fn parse_u32(s: Seq<char>) -> Option<u32> {
    let d = unsigned_digits(s);
    if d.len() > 0 && all_digits(d) && dec_value(d) <= u32::MAX {
        Some(dec_value(d) as u32)
    } else {
        None
    }
}

/// `s` as std's `u64::from_str` reads it.
pub open spec fn parse_u64(s: Seq<char>) -> Option<u64> {
    let d = unsigned_digits(s);
    if d.len() > 0 && all_digits(d) && dec_value(d) <= u64::MAX {
        Some(dec_value(d) as u64)
    } else {
        None
    }
}

proof fn lemma_dec_value_push(s: Seq<char>, c: char)
    ensures
        dec_value(s.push(c)) == dec_value(s) * 10 + digit_value(c),
{
    assert(s.push(c).drop_last() =~= s);
}

proof fn lemma_dec_value_mono(s: Seq<char>, c: char)
    requires
        is_digit(c),
    ensures
        dec_value(s.push(c)) >= dec_value(s) * 10,
{
    lemma_dec_value_push(s, c);
}

/// Value of the digits `d`, or `None` when it exceeds `bound`.
fn digits_value(d: &[char], bound: u64) -> (r: Option<u64>)
    requires
        all_digits(d@),
        bound >= 9,
    ensures
        match r {
            Some(v) => v == dec_value(d@) && v <= bound,
            None => dec_value(d@) > bound,
        },
{
    let mut acc: u64 = 0;
    let mut i: usize = 0;
    while i < d.len()
        invariant
            all_digits(d@),
            0 <= i <= d@.len(),
            acc == dec_value(d@.subrange(0, i as int)),
            acc <= bound,
            bound >= 9,
        decreases d@.len() - i,
    {
        let ghost pre = d@.subrange(0, i as int);
        assert(d@.subrange(0, i + 1) =~= pre.push(d@[i as int]));
        proof {
            lemma_dec_value_push(pre, d@[i as int]);
        }
        assert(is_digit(d@[i as int]));
        let dv = (d[i] as u32 - '0' as u32) as u64;
        assert(dv <= 9);
        assert(dv as nat == digit_value(d@[i as int]));
        if acc > (bound - dv) / 10 {
            // acc * 10 + dv > bound, and the value only grows from here
            proof {
                assert(acc * 10 + dv > bound) by (nonlinear_arith)
                    requires
                        acc > (bound - dv) / 10,
                        dv <= 9,
                        dv <= bound,
                ;
                lemma_prefix_value_grows(d@, (i + 1) as nat);
            }
            return None;
        }
        proof {
            assert(acc * 10 + dv <= bound) by (nonlinear_arith)
                requires
                    acc <= (bound - dv) / 10,
                    dv <= bound,
            ;
        }
        acc = acc * 10 + dv;
        i = i + 1;
    }
    assert(d@.subrange(0, d@.len() as int) =~= d@);
    Some(acc)
}

proof fn lemma_prefix_value_grows(s: Seq<char>, k: nat)
    requires
        k <= s.len(),
        all_digits(s),
    ensures
        dec_value(s) >= dec_value(s.subrange(0, k as int)),
    decreases s.len() - k,
{
    if k < s.len() {
        lemma_prefix_value_grows(s, (k + 1) as nat);
        let p = s.subrange(0, k as int);
        assert(s.subrange(0, (k + 1) as int) =~= p.push(s[k as int]));
        lemma_dec_value_mono(p, s[k as int]);
        assert(dec_value(p) * 10 >= dec_value(p)) by (nonlinear_arith);
    } else {
        assert(s.subrange(0, k as int) =~= s);
    }
}

/// std's `u32::from_str` on a character vector.
pub fn parse_u32_chars(s: &[char]) -> (r: Option<u32>)
    ensures
        r == parse_u32(s@),
{
    let d = if s.len() > 0 && s[0] == '+' {
        assert(s@.subrange(1, s@.len() as int) =~= s@.drop_first());
        slice_chars(s, 1, s.len())
    } else {
        assert(s@.subrange(0, s@.len() as int) =~= s@);
        slice_chars(s, 0, s.len())
    };
    assert(d@ == unsigned_digits(s@));
    if d.len() == 0 {
        return None;
    }
    let mut i: usize = 0;
    while i < d.len()
        invariant
            d@ == unsigned_digits(s@),
            0 <= i <= d@.len(),
            forall|j: int| 0 <= j < i ==> is_digit(#[trigger] d@[j]),
        decreases d@.len() - i,
    {
        if !digit(d[i]) {
            assert(!all_digits(d@)) by {
                assert(!is_digit(d@[i as int]));
            }
            return None;
        }
        i = i + 1;
    }
    match digits_value(&d, u32::MAX as u64) {
        Some(v) => Some(v as u32),
        None => None,
    }
}

/// std's `u64::from_str` on a character vector.
pub fn parse_u64_chars(s: &[char]) -> (r: Option<u64>)
    ensures
        r == parse_u64(s@),
{
    let d = if s.len() > 0 && s[0] == '+' {
        assert(s@.subrange(1, s@.len() as int) =~= s@.drop_first());
        slice_chars(s, 1, s.len())
    } else {
        assert(s@.subrange(0, s@.len() as int) =~= s@);
        slice_chars(s, 0, s.len())
    };
    assert(d@ == unsigned_digits(s@));
    if d.len() == 0 {
        return None;
    }
    let mut i: usize = 0;
    while i < d.len()
        invariant
            d@ == unsigned_digits(s@),
            0 <= i <= d@.len(),
            forall|j: int| 0 <= j < i ==> is_digit(#[trigger] d@[j]),
        decreases d@.len() - i,
    {
        if !digit(d[i]) {
            assert(!all_digits(d@)) by {
                assert(!is_digit(d@[i as int]));
            }
            return None;
        }
        i = i + 1;
    }
    digits_value(&d, u64::MAX)
}

/// The decimal rendering of `n`, appended to `out`.
pub fn push_dec(out: &mut Vec<char>, n: u64)
    ensures
        final(out)@ == old(out)@ + dec(n as nat),
    decreases n,
{
    if n < 10 {
        out.push(((n as u8) + ('0' as u8)) as char);
        assert(dec(n as nat) =~= seq![digit_char(n as nat)]);
    } else {
        push_dec(out, n / 10);
        out.push((((n % 10) as u8) + ('0' as u8)) as char);
        assert(dec(n as nat) == dec((n / 10) as nat).push(digit_char((n % 10) as nat)));
    }
}

/// The decimal rendering of `n`.
pub fn dec_string(n: u64) -> (s: String)
    ensures
        s@ == dec(n as nat),
{
    let mut v: Vec<char> = Vec::new();
    push_dec(&mut v, n);
    string_of(&v)
}

proof fn lemma_digit_char(d: nat)
    requires
        d < 10,
    ensures
        digit_value(digit_char(d)) == d,
        is_digit(digit_char(d)),
        d > 0 ==> digit_char(d) != '0',
{
}

pub proof fn lemma_dec_digits(n: nat)
    ensures
        dec(n).len() > 0,
        all_digits(dec(n)),
        dec_value(dec(n)) == n,
        n > 0 ==> dec(n)[0] != '0',
    decreases n,
{
    if n >= 10 {
        lemma_dec_digits(n / 10);
        let p = dec(n / 10);
        lemma_dec_value_push(p, digit_char(n % 10));
        lemma_digit_char(n % 10);
        assert((n / 10) * 10 + n % 10 == n);
        assert(dec(n) == p.push(digit_char(n % 10)));
        assert(dec_value(p) == n / 10);
        assert(dec_value(dec(n)) == dec_value(p) * 10 + digit_value(digit_char(n % 10)));
        assert(dec(n)[0] == p[0]);
        assert(dec_value(dec(n)) == n);
    } else {
        lemma_digit_char(n);
        assert(dec(n).drop_last() =~= Seq::<char>::empty());
        assert(dec_value(dec(n).drop_last()) == 0);
        assert(dec_value(dec(n)) == n);
    }
}

/// Decimal rendering and std's parsing agree.
pub proof fn lemma_parse_dec_u32(n: u32)
    ensures
        parse_u32(dec(n as nat)) == Some(n),
{
    lemma_dec_digits(n as nat);
}

// ---------------------------------------------------------------------------
// hexadecimal
// ---------------------------------------------------------------------------

pub open spec fn hex_char(d: nat) -> char
    recommends
        d < 16,
{
    if d < 10 {
        (('0' as u8) + d) as char
    } else {
        (('a' as u8) + (d - 10)) as char
    }
}

pub open spec fn hex_value(c: char) -> nat {
    if is_digit(c) {
        (c as u32 - '0' as u32) as nat
    } else if 'a' <= c && c <= 'f' {
        (c as u32 - 'a' as u32 + 10) as nat
    } else {
        (c as u32 - 'A' as u32 + 10) as nat
    }
}

/// Lowercase hex rendering of `b`, two characters per byte.
pub open spec fn hex_encode(b: Seq<u8>) -> Seq<char> {
    Seq::new(
        2 * b.len(),
        |j: int|
            if j % 2 == 0 {
                hex_char((b[j / 2] / 16) as nat)
            } else {
                hex_char((b[j / 2] % 16) as nat)
            },
    )
}

/// The bytes `s` spells in hex (either case), if it is hex of even length.
pub open spec fn hex_decode(s: Seq<char>) -> Option<Seq<u8>> {
    if s.len() % 2 == 0 && forall|i: int| 0 <= i < s.len() ==> is_hex_digit(#[trigger] s[i]) {
        Some(
            Seq::new(
                (s.len() / 2) as nat,
                |i: int| (hex_value(s[2 * i]) * 16 + hex_value(s[2 * i + 1])) as u8,
            ),
        )
    } else {
        None
    }
}

fn hex_char_of(d: u8) -> (c: char)
    requires
        d < 16,
    ensures
        c == hex_char(d as nat),
{
    if d < 10 {
        ((d + ('0' as u8)) as char)
    } else {
        ((d - 10 + ('a' as u8)) as char)
    }
}

/// Lowercase hex rendering of `b`, appended to `out`.
pub fn push_hex(out: &mut Vec<char>, b: &[u8])
    ensures
        final(out)@ == old(out)@ + hex_encode(b@),
{
    let ghost start = out@;
    let mut i: usize = 0;
    while i < b.len()
        invariant
            0 <= i <= b@.len(),
            out@ == start + hex_encode(b@.subrange(0, i as int)),
        decreases b@.len() - i,
    {
        let x = b[i];
        let hi = hex_char_of(x / 16);
        let lo = hex_char_of(x % 16);
        let ghost before = out@;
        out.push(hi);
        out.push(lo);
        proof {
            let p = b@.subrange(0, i as int);
            let q = b@.subrange(0, i + 1);
            assert(hex_encode(q) =~= hex_encode(p).push(hi).push(lo)) by {
                assert forall|j: int| 0 <= j < 2 * p.len() implies hex_encode(q)[j] == hex_encode(
                    p,
                )[j] by {
                    assert(q[j / 2] == p[j / 2]);
                }
                assert((2 * i) / 2 == i);
                assert((2 * i + 1) / 2 == i);
                assert((2 * i + 1) % 2 == 1);
            }
        }
        i = i + 1;
    }
    assert(b@.subrange(0, b@.len() as int) =~= b@);
}

/// Lowercase hex rendering of `b` (the `hex` crate's `encode`).
pub fn hex_string(b: &[u8]) -> (s: String)
    ensures
        s@ == hex_encode(b@),
{
    let mut v: Vec<char> = Vec::new();
    push_hex(&mut v, b);
    string_of(&v)
}

fn hex_val_of(c: char) -> (d: u8)
    requires
        is_hex_digit(c),
    ensures
        d as nat == hex_value(c),
        d < 16,
{
    if c >= '0' && c <= '9' {
        (c as u32 - '0' as u32) as u8
    } else if c >= 'a' && c <= 'f' {
        (c as u32 - 'a' as u32 + 10) as u8
    } else {
        (c as u32 - 'A' as u32 + 10) as u8
    }
}

/// Decodes hex of either case (the `hex` crate's `decode`).
pub fn hex_bytes(s: &[char]) -> (r: Option<Vec<u8>>)
    ensures
        match r {
            Some(v) => hex_decode(s@) == Some(v@),
            None => hex_decode(s@) is None,
        },
{
    if s.len() % 2 != 0 {
        return None;
    }
    let mut i: usize = 0;
    while i < s.len()
        invariant
            0 <= i <= s@.len(),
            forall|j: int| 0 <= j < i ==> is_hex_digit(#[trigger] s@[j]),
        decreases s@.len() - i,
    {
        if !hex_digit(s[i]) {
            return None;
        }
        i = i + 1;
    }
    let mut out: Vec<u8> = Vec::new();
    let mut k: usize = 0;
    let n = s.len();
    let half = n / 2;
    while k < half
        invariant
            n == s@.len(),
            half == s@.len() / 2,
            s@.len() % 2 == 0,
            forall|j: int| 0 <= j < s@.len() ==> is_hex_digit(#[trigger] s@[j]),
            0 <= k <= half,
            out@.len() == k,
            forall|j: int|
                0 <= j < k ==> #[trigger] out@[j] == (hex_value(s@[2 * j]) * 16 + hex_value(
                    s@[2 * j + 1],
                )) as u8,
        decreases half - k,
    {
        let hi = hex_val_of(s[2 * k]);
        let lo = hex_val_of(s[2 * k + 1]);
        out.push(hi * 16 + lo);
        k = k + 1;
    }
    proof {
        let exp = hex_decode(s@).unwrap();
        assert(out@ =~= exp);
    }
    Some(out)
}

/// Hex encoding and decoding are inverse.
pub proof fn lemma_hex_roundtrip(b: Seq<u8>)
    ensures
        hex_decode(hex_encode(b)) == Some(b),
{
    let s = hex_encode(b);
    assert forall|i: int| 0 <= i < s.len() implies is_hex_digit(#[trigger] s[i]) by {
        let d = if i % 2 == 0 { b[i / 2] / 16 } else { b[i / 2] % 16 };
        assert(d < 16);
    }
    let d = hex_decode(s).unwrap();
    assert forall|i: int| 0 <= i < b.len() implies d[i] == b[i] by {
        assert((2 * i) / 2 == i);
        assert((2 * i + 1) / 2 == i);
        assert((2 * i) % 2 == 0);
        assert((2 * i + 1) % 2 == 1);
        let x = b[i];
        assert(hex_value(hex_char((x / 16) as nat)) == x / 16);
        assert(hex_value(hex_char((x % 16) as nat)) == x % 16);
        assert((x / 16) * 16 + x % 16 == x);
    }
    assert(d =~= b);
}


// ---------------------------------------------------------------------------
// sets of strings held in vectors
// ---------------------------------------------------------------------------

/// The texts held by `v`, as a set.
pub open spec fn string_set(v: Seq<String>) -> Set<Seq<char>> {
    Set::new(|t: Seq<char>| exists|i: int| 0 <= i < v.len() && #[trigger] v[i]@ == t)
}

/// No text occurs twice in `v`.
pub open spec fn distinct_strings(v: Seq<String>) -> bool {
    forall|i: int, j: int| 0 <= i < j < v.len() ==> #[trigger] v[i]@ != #[trigger] v[j]@
}

/// Does `v` hold the text `s`?
pub fn contains_string(v: &[String], s: &str) -> (r: bool)
    ensures
        r == string_set(v@).contains(s@),
{
    let mut i: usize = 0;
    while i < v.len()
        invariant
            0 <= i <= v@.len(),
            forall|j: int| 0 <= j < i ==> #[trigger] v@[j]@ != s@,
        decreases v@.len() - i,
    {
        if str_eq(v[i].as_str(), s) {
            assert(v@[i as int]@ == s@);
            return true;
        }
        i = i + 1;
    }
    false
}

/// Adds `s` to `out` unless it is already there.
pub fn insert_string(out: &mut Vec<String>, s: &str)
    requires
        distinct_strings(old(out)@),
    ensures
        distinct_strings(final(out)@),
        string_set(final(out)@) == string_set(old(out)@).insert(s@),
{
    if contains_string(out, s) {
        assert(string_set(out@).insert(s@) =~= string_set(out@));
        return ;
    }
    let ghost before = out@;
    out.push(owned(s));
    proof {
        assert forall|t: Seq<char>| #[trigger] string_set(out@).contains(t) == string_set(
            before,
        ).insert(s@).contains(t) by {
            if string_set(before).contains(t) {
                let i = choose|i: int| 0 <= i < before.len() && #[trigger] before[i]@ == t;
                assert(out@[i]@ == t);
            }
            if t == s@ {
                assert(out@[before.len() as int]@ == t);
            }
        }
        assert(string_set(out@) =~= string_set(before).insert(s@));
    }
}

/// Adds every text of `v` to `out`.
pub fn insert_strings(out: &mut Vec<String>, v: &[String])
    requires
        distinct_strings(old(out)@),
    ensures
        distinct_strings(final(out)@),
        string_set(final(out)@) == string_set(old(out)@) + string_set(v@),
{
    let ghost start = string_set(out@);
    let mut i: usize = 0;
    while i < v.len()
        invariant
            0 <= i <= v@.len(),
            distinct_strings(out@),
            string_set(out@) == start + string_set(v@.take(i as int)),
        decreases v@.len() - i,
    {
        insert_string(out, v[i].as_str());
        proof {
            assert(string_set(v@.take(i + 1)) =~= string_set(v@.take(i as int)).insert(v@[i as int]@)) by {
                assert forall|t: Seq<char>| #[trigger] string_set(v@.take(i + 1)).contains(t) implies string_set(v@.take(i as int)).insert(v@[i as int]@).contains(t) by {
                    let j = choose|j: int| 0 <= j < v@.take(i + 1).len() && #[trigger] v@.take(i + 1)[j]@ == t;
                    if j < i {
                        assert(v@.take(i as int)[j]@ == t);
                    }
                }
                assert forall|t: Seq<char>| #[trigger] string_set(v@.take(i as int)).contains(t) implies string_set(v@.take(i + 1)).contains(t) by {
                    let j = choose|j: int| 0 <= j < v@.take(i as int).len() && #[trigger] v@.take(i as int)[j]@ == t;
                    assert(v@.take(i + 1)[j]@ == t);
                }
                assert(v@.take(i + 1)[i as int]@ == v@[i as int]@);
            }
            assert(string_set(out@) =~= start + string_set(v@.take(i + 1)));
        }
        i = i + 1;
    }
    assert(v@.take(v@.len() as int) =~= v@);
}

/// Are the characters `v` exactly the text `s`?
pub fn chars_is(v: &[char], s: &str) -> (r: bool)
    ensures
        r == (v@ == s@),
{
    let w = chars_of(s);
    chars_eq(v, &w)
}

/// The characters of each string.
pub open spec fn texts_view(v: Seq<String>) -> Seq<Seq<char>> {
    Seq::new(v.len(), |i: int| v[i]@)
}

/// A vector without repeated texts holds as many texts as its set has.
pub proof fn lemma_string_set_len(v: Seq<String>)
    requires
        distinct_strings(v),
    ensures
        string_set(v).finite(),
        string_set(v).len() == v.len(),
    decreases v.len(),
{
    if v.len() == 0 {
        assert(string_set(v) =~= Set::<Seq<char>>::empty());
    } else {
        let w = v.drop_last();
        assert(distinct_strings(w)) by {
            assert forall|i: int, j: int| 0 <= i < j < w.len() implies #[trigger] w[i]@ != #[trigger] w[j]@ by {
                assert(w[i] == v[i] && w[j] == v[j]);
            }
        }
        lemma_string_set_len(w);
        assert(string_set(v) =~= string_set(w).insert(v.last()@)) by {
            assert forall|t: Seq<char>| #[trigger] string_set(v).contains(t) implies string_set(w).insert(v.last()@).contains(t) by {
                let i = choose|i: int| 0 <= i < v.len() && #[trigger] v[i]@ == t;
                if i < v.len() - 1 {
                    assert(w[i]@ == t);
                }
            }
            assert forall|t: Seq<char>| #[trigger] string_set(w).contains(t) implies string_set(v).contains(t) by {
                let i = choose|i: int| 0 <= i < w.len() && #[trigger] w[i]@ == t;
                assert(v[i]@ == t);
            }
        }
        assert(!string_set(w).contains(v.last()@)) by {
            if string_set(w).contains(v.last()@) {
                let i = choose|i: int| 0 <= i < w.len() && #[trigger] w[i]@ == v.last()@;
                assert(v[i]@ == v[v.len() - 1]@);
            }
        }
    }
}

} // verus!
