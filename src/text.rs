//! Character-level models of the string operations the comparator and the
//! extractor rely on, with verified executable counterparts.
use substring::Substring;
use core::cmp::Ordering;
use vstd::prelude::*;

verus! {

/// The characters of `s` from `start` up to `end`, with both positions
/// clamped to the length of `s`; empty whenever `end <= start`.
pub open spec fn char_slice(s: Seq<char>, start: int, end: int) -> Seq<char> {
    if end <= start {
        Seq::empty()
    } else {
        let lo = if start < s.len() { start } else { s.len() as int };
        let hi = if end < s.len() { end } else { s.len() as int };
        s.subrange(lo, hi)
    }
}

/// Relies on `substring::Substring::substring`: the characters between two
/// char positions, clamped to the string, and "" when `end <= start`.
#[verifier::external_body]
pub(crate) fn slice_chars(s: &str, start: usize, end: usize) -> (r: &str)
    ensures
        r@ == char_slice(s@, start as int, end as int),
{
    s.substring(start, end)
}

/// Position of the first occurrence of `c` in `s`, or -1.
pub open spec fn first_index(s: Seq<char>, c: char) -> int
    decreases s.len(),
{
    if s.len() == 0 {
        -1
    } else {
        let f = first_index(s.drop_last(), c);
        if f >= 0 {
            f
        } else if s.last() == c {
            s.len() - 1
        } else {
            -1
        }
    }
}

/// Position of the last occurrence of `c` in `s`, or -1.
pub open spec fn last_index(s: Seq<char>, c: char) -> int
    decreases s.len(),
{
    if s.len() == 0 {
        -1
    } else if s.last() == c {
        s.len() - 1
    } else {
        last_index(s.drop_last(), c)
    }
}

/// `first_index` is the position of the earliest occurrence.
pub proof fn lemma_first_index(s: Seq<char>, c: char, k: int)
    requires
        0 <= k <= s.len(),
        forall|i: int| 0 <= i < k ==> s[i] != c,
        k < s.len() ==> s[k] == c,
    ensures
        first_index(s, c) == if k < s.len() { k } else { -1 },
    decreases s.len(),
{
    if s.len() > 0 {
        let t = s.drop_last();
        if k < s.len() - 1 {
            lemma_first_index(t, c, k);
        } else {
            lemma_first_index(t, c, t.len() as int);
        }
    }
}

/// `last_index` is the position of the latest occurrence.
pub proof fn lemma_last_index(s: Seq<char>, c: char, k: int)
    requires
        -1 <= k < s.len(),
        forall|i: int| k < i < s.len() ==> s[i] != c,
        k >= 0 ==> s[k] == c,
    ensures
        last_index(s, c) == k,
    decreases s.len(),
{
    if s.len() > 0 && k < s.len() - 1 {
        lemma_last_index(s.drop_last(), c, k);
    }
}

/// What `first_index` and `last_index` return is an occurrence, with none
/// before (resp. after) it.
pub proof fn lemma_index_facts(s: Seq<char>, c: char)
    ensures
        -1 <= first_index(s, c) < s.len(),
        -1 <= last_index(s, c) < s.len(),
        first_index(s, c) >= 0 ==> s[first_index(s, c)] == c,
        last_index(s, c) >= 0 ==> s[last_index(s, c)] == c,
        forall|i: int| 0 <= i < s.len() && (first_index(s, c) < 0 || i < first_index(s, c)) ==> s[i] != c,
        forall|i: int| 0 <= i < s.len() && last_index(s, c) < i ==> s[i] != c,
    decreases s.len(),
{
    if s.len() > 0 {
        let t = s.drop_last();
        lemma_index_facts(t, c);
        assert(forall|i: int| 0 <= i < t.len() ==> t[i] == s[i]);
    }
}

/// Finds the first occurrence of `c` in `s`.
pub fn find_first(s: &str, c: char) -> (r: Option<usize>)
    ensures
        r is Some <==> first_index(s@, c) >= 0,
        r is Some ==> r->0 as int == first_index(s@, c),
{
    let n = s.unicode_len();
    let mut i: usize = 0;
    while i < n
        invariant
            n == s@.len(),
            i <= n,
            forall|j: int| 0 <= j < i ==> s@[j] != c,
        decreases n - i,
    {
        if s.get_char(i) == c {
            proof {
                lemma_first_index(s@, c, i as int);
            }
            return Some(i);
        }
        i = i + 1;
    }
    proof {
        lemma_first_index(s@, c, n as int);
    }
    None
}

/// Finds the last occurrence of `c` in `s`.
pub fn find_last(s: &str, c: char) -> (r: Option<usize>)
    ensures
        r is Some <==> last_index(s@, c) >= 0,
        r is Some ==> r->0 as int == last_index(s@, c),
{
    let n = s.unicode_len();
    let mut i: usize = n;
    while i > 0
        invariant
            n == s@.len(),
            i <= n,
            forall|j: int| i <= j < n ==> s@[j] != c,
        decreases i,
    {
        if s.get_char(i - 1) == c {
            proof {
                lemma_last_index(s@, c, i - 1);
            }
            return Some(i - 1);
        }
        i = i - 1;
    }
    proof {
        lemma_last_index(s@, c, -1);
    }
    None
}


/// The opposite order: `Less` and `Greater` swap, `Equal` stays.
pub open spec fn flip(o: Ordering) -> Ordering {
    match o {
        Ordering::Less => Ordering::Greater,
        Ordering::Equal => Ordering::Equal,
        Ordering::Greater => Ordering::Less,
    }
}

/// Lexicographic order of two character sequences by code point, a proper
/// prefix coming first.
pub open spec fn lex_cmp(a: Seq<char>, b: Seq<char>) -> Ordering
    decreases a.len(),
{
    if a.len() == 0 {
        if b.len() == 0 {
            Ordering::Equal
        } else {
            Ordering::Less
        }
    } else if b.len() == 0 {
        Ordering::Greater
    } else if a[0] < b[0] {
        Ordering::Less
    } else if a[0] > b[0] {
        Ordering::Greater
    } else {
        lex_cmp(a.drop_first(), b.drop_first())
    }
}

/// Swapping the arguments of `lex_cmp` flips the result, and `Equal` means
/// the sequences are the same.
pub proof fn lemma_lex_cmp_antisymmetric(a: Seq<char>, b: Seq<char>)
    ensures
        lex_cmp(b, a) == flip(lex_cmp(a, b)),
        lex_cmp(a, b) == Ordering::Equal <==> a == b,
    decreases a.len(),
{
    if a.len() > 0 && b.len() > 0 {
        lemma_lex_cmp_antisymmetric(a.drop_first(), b.drop_first());
        if a[0] == b[0] && a.drop_first() == b.drop_first() {
            assert(a =~= seq![a[0]] + a.drop_first());
            assert(b =~= seq![b[0]] + b.drop_first());
        }
        if a == b {
            assert(a.drop_first() == b.drop_first());
        }
    } else if a.len() == 0 && b.len() == 0 {
        assert(a =~= b);
    }
}

/// A proper prefix comes before the longer sequence.
pub proof fn lemma_lex_cmp_prefix(a: Seq<char>, b: Seq<char>)
    requires
        a.len() < b.len(),
        b.subrange(0, a.len() as int) == a,
    ensures
        lex_cmp(a, b) == Ordering::Less,
    decreases a.len(),
{
    if a.len() > 0 {
        assert(a[0] == b[0]);
        assert(b.drop_first().subrange(0, a.len() - 1) =~= a.drop_first());
        lemma_lex_cmp_prefix(a.drop_first(), b.drop_first());
    }
}

/// Compares two strings character by character.
pub fn lex_compare(a: &str, b: &str) -> (r: Ordering)
    ensures
        r == lex_cmp(a@, b@),
{
    let n = a.unicode_len();
    let m = b.unicode_len();
    let mut i: usize = 0;
    assert(a@.skip(0) =~= a@);
    assert(b@.skip(0) =~= b@);
    while i < n && i < m
        invariant
            n == a@.len(),
            m == b@.len(),
            i <= n,
            i <= m,
            lex_cmp(a@, b@) == lex_cmp(a@.skip(i as int), b@.skip(i as int)),
        decreases n - i,
    {
        let x = a.get_char(i);
        let y = b.get_char(i);
        assert(a@.skip(i as int)[0] == x);
        assert(b@.skip(i as int)[0] == y);
        if x < y {
            return Ordering::Less;
        } else if x > y {
            return Ordering::Greater;
        }
        assert(a@.skip(i as int).drop_first() =~= a@.skip(i + 1));
        assert(b@.skip(i as int).drop_first() =~= b@.skip(i + 1));
        i = i + 1;
    }
    if i < m {
        Ordering::Less
    } else if i < n {
        Ordering::Greater
    } else {
        Ordering::Equal
    }
}

/// `s` holds `pat` as a contiguous run somewhere.
pub open spec fn has_infix(s: Seq<char>, pat: Seq<char>) -> bool {
    exists|i: int| 0 <= i && i + pat.len() <= s.len() && #[trigger] s.subrange(i, i + pat.len()) == pat
}

/// Whether `pat` occurs in `s` at character position `at`.
fn occurs_at(s: &str, pat: &str, at: usize, m: usize, n: usize) -> (r: bool)
    requires
        n == s@.len(),
        m == pat@.len(),
        at + m <= s@.len(),
    ensures
        r == (s@.subrange(at as int, at + m) == pat@),
{
    let mut k: usize = 0;
    while k < m
        invariant
            n == s@.len(),
            m == pat@.len(),
            at + m <= n,
            k <= m,
            forall|j: int| 0 <= j < k ==> s@[at + j] == pat@[j],
        decreases m - k,
    {
        if s.get_char(at + k) != pat.get_char(k) {
            assert(s@.subrange(at as int, at + m)[k as int] != pat@[k as int]);
            return false;
        }
        k = k + 1;
    }
    assert(s@.subrange(at as int, at + m) =~= pat@);
    true
}

/// Whether `pat` occurs anywhere in `s`.
pub fn contains_infix(s: &str, pat: &str) -> (r: bool)
    ensures
        r == has_infix(s@, pat@),
{
    let n = s.unicode_len();
    let m = pat.unicode_len();
    if m > n {
        return false;
    }
    if m == 0 {
        assert(s@.subrange(0, 0 + pat@.len() as int) =~= pat@);
        return true;
    }
    let mut at: usize = 0;
    while at <= n - m
        invariant
            n == s@.len(),
            m == pat@.len(),
            1 <= m <= n,
            at <= n - m + 1,
            forall|i: int| 0 <= i < at ==> #[trigger] s@.subrange(i, i + m) != pat@,
        decreases n - m + 1 - at,
    {
        if occurs_at(s, pat, at, m, n) {
            return true;
        }
        at = at + 1;
    }
    false
}


/// A decimal digit `0` to `9`.
pub open spec fn is_digit(c: char) -> bool {
    '0' <= c && c <= '9'
}

/// Numeric value of a digit character.
pub open spec fn digit_value(c: char) -> int {
    (c as u32) as int - 48
}

/// The number that a run of decimal digits spells.
pub open spec fn digits_value(s: Seq<char>) -> int
    decreases s.len(),
{
    if s.len() == 0 {
        0
    } else {
        digits_value(s.drop_last()) * 10 + digit_value(s.last())
    }
}

/// The digits part of an unsigned number: a leading `+` is allowed.
pub open spec fn unsigned_digits(s: Seq<char>) -> Seq<char> {
    if s.len() > 0 && s[0] == '+' {
        s.drop_first()
    } else {
        s
    }
}

/// `s` read as an unsigned decimal number in `0..=255`: an optional `+` and
/// then one or more digits, leading zeros allowed. `None` for anything else.
pub open spec fn parse_u8(s: Seq<char>) -> Option<u8> {
    let d = unsigned_digits(s);
    if d.len() > 0 && (forall|i: int| 0 <= i < d.len() ==> is_digit(#[trigger] d[i]))
        && digits_value(d) <= 255 {
        Some(digits_value(d) as u8)
    } else {
        None
    }
}

/// Extending a run of digits never makes its value smaller.
pub proof fn lemma_digits_value_grows(s: Seq<char>, k: int)
    requires
        0 <= k <= s.len(),
        forall|i: int| 0 <= i < s.len() ==> is_digit(#[trigger] s[i]),
    ensures
        0 <= digits_value(s.take(k)) <= digits_value(s),
    decreases s.len(),
{
    if s.len() > 0 {
        let t = s.drop_last();
        assert(forall|i: int| 0 <= i < t.len() ==> t[i] == s[i]);
        if k < s.len() {
            assert(t.take(k) =~= s.take(k));
            lemma_digits_value_grows(t, k);
        } else {
            assert(s.take(k) =~= s);
            lemma_digits_value_grows(t, 0);
        }
    } else {
        assert(s.take(k) =~= s);
    }
}

/// Reads `s` as an unsigned decimal number that fits in a `u8`.
pub fn parse_u8_decimal(s: &str) -> (r: Option<u8>)
    ensures
        r == parse_u8(s@),
{
    let n = s.unicode_len();
    let start: usize = if n > 0 && s.get_char(0) == '+' {
        1
    } else {
        0
    };
    let ghost d = unsigned_digits(s@);
    assert(d =~= s@.skip(start as int));
    if start == n {
        return None;
    }
    let mut i: usize = start;
    let mut v: u32 = 0;
    assert(d.take(0) =~= Seq::<char>::empty());
    while i < n
        invariant
            n == s@.len(),
            start < n,
            start <= i <= n,
            d == s@.skip(start as int),
            d == unsigned_digits(s@),
            v as int == digits_value(d.take(i - start)),
            v <= 255,
            forall|j: int| 0 <= j < i - start ==> is_digit(#[trigger] d[j]),
        decreases n - i,
    {
        let c = s.get_char(i);
        assert(d[i - start] == c);
        if !('0' <= c && c <= '9') {
            assert(!is_digit(d[i - start]));
            return None;
        }
        let nv = v * 10 + (c as u32 - 48);
        assert(d.take(i + 1 - start).drop_last() =~= d.take(i - start));
        assert(d.take(i + 1 - start).last() == c);
        assert(digits_value(d.take(i + 1 - start)) == nv);
        if nv > 255 {
            proof {
                if forall|j: int| 0 <= j < d.len() ==> is_digit(#[trigger] d[j]) {
                    lemma_digits_value_grows(d, i + 1 - start);
                }
            }
            return None;
        }
        v = nv;
        i = i + 1;
    }
    assert(d.take(n - start) =~= d);
    Some(v as u8)
}

/// The pieces of `s` between `.` characters, in order; one piece more than
/// there are dots, empty pieces kept.
pub open spec fn dot_segments(s: Seq<char>) -> Seq<Seq<char>>
    decreases s.len(),
{
    if s.len() == 0 {
        seq![Seq::empty()]
    } else {
        let p = dot_segments(s.drop_last());
        if s.last() == '.' {
            p.push(Seq::empty())
        } else {
            p.update(p.len() - 1, p.last().push(s.last()))
        }
    }
}

/// There is always at least one piece.
pub proof fn lemma_dot_segments_len(s: Seq<char>)
    ensures
        dot_segments(s).len() >= 1,
    decreases s.len(),
{
    if s.len() > 0 {
        lemma_dot_segments_len(s.drop_last());
    }
}

/// A string that starts with a dot has an empty first piece and a second one.
pub proof fn lemma_dot_segments_leading_dot(s: Seq<char>)
    requires
        s.len() > 0,
        s[0] == '.',
    ensures
        dot_segments(s).len() >= 2,
        dot_segments(s)[0].len() == 0,
    decreases s.len(),
{
    let t = s.drop_last();
    if s.len() > 1 {
        assert(t[0] == s[0]);
        lemma_dot_segments_leading_dot(t);
    } else {
        assert(s.last() == '.');
        assert(dot_segments(t) =~= seq![Seq::<char>::empty()]);
    }
}

/// A string that starts with another character has a non-empty first piece.
pub proof fn lemma_dot_segments_leading_other(s: Seq<char>)
    requires
        s.len() > 0,
        s[0] != '.',
    ensures
        dot_segments(s)[0].len() > 0,
    decreases s.len(),
{
    let t = s.drop_last();
    lemma_dot_segments_len(t);
    if s.len() > 1 {
        assert(t[0] == s[0]);
        lemma_dot_segments_leading_other(t);
    } else {
        assert(s.last() != '.');
        assert(dot_segments(t) =~= seq![Seq::<char>::empty()]);
    }
}

/// Splits `s` at every `.`.
pub fn split_on_dots(s: &str) -> (r: Vec<&str>)
    ensures
        r@.map_values(|x: &str| x@) == dot_segments(s@),
{
    let n = s.unicode_len();
    let mut segs: Vec<&str> = Vec::new();
    let mut start: usize = 0;
    let mut i: usize = 0;
    assert(s@.take(0) =~= Seq::<char>::empty());
    assert(segs@.map_values(|x: &str| x@).push(s@.subrange(0, 0)) =~= dot_segments(s@.take(0)));
    while i < n
        invariant
            n == s@.len(),
            start <= i <= n,
            dot_segments(s@.take(i as int)) == segs@.map_values(|x: &str| x@).push(
                s@.subrange(start as int, i as int),
            ),
        decreases n - i,
    {
        let c = s.get_char(i);
        let ghost before = segs@.map_values(|x: &str| x@);
        assert(s@.take(i + 1).drop_last() =~= s@.take(i as int));
        assert(s@.take(i + 1).last() == c);
        if c == '.' {
            let piece = slice_chars(s, start, i);
            assert(piece@ =~= s@.subrange(start as int, i as int));
            segs.push(piece);
            assert(segs@.map_values(|x: &str| x@) =~= before.push(piece@));
            start = i + 1;
            assert(s@.subrange(start as int, i + 1) =~= Seq::<char>::empty());
            assert(dot_segments(s@.take(i + 1)) =~= segs@.map_values(|x: &str| x@).push(
                s@.subrange(start as int, i + 1),
            ));
        } else {
            assert(s@.subrange(start as int, i + 1) =~= s@.subrange(start as int, i as int).push(c));
            assert(dot_segments(s@.take(i + 1)) =~= segs@.map_values(|x: &str| x@).push(
                s@.subrange(start as int, i + 1),
            ));
        }
        i = i + 1;
    }
    let ghost before = segs@.map_values(|x: &str| x@);
    let last = slice_chars(s, start, n);
    if start < n {
        assert(last@ =~= s@.subrange(start as int, n as int));
    } else {
        assert(last@ =~= s@.subrange(start as int, n as int));
    }
    segs.push(last);
    assert(s@.take(n as int) =~= s@);
    assert(segs@.map_values(|x: &str| x@) =~= before.push(last@));
    segs
}

} // verus!
