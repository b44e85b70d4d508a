//! The version-aware order on module identifiers.
use crate::text::{
    char_slice, dot_segments, find_last, flip, is_digit, last_index, lemma_dot_segments_leading_dot,
    lemma_dot_segments_leading_other, lemma_index_facts, lemma_lex_cmp_antisymmetric,
    lemma_lex_cmp_prefix, lex_cmp, lex_compare, parse_u8, parse_u8_decimal, slice_chars,
    split_on_dots, unsigned_digits,
};
use core::cmp::Ordering;
use vstd::prelude::*;

verus! {

/// Order of two `u8` values.
pub open spec fn num_cmp(x: u8, y: u8) -> Ordering {
    if x < y {
        Ordering::Less
    } else if x > y {
        Ordering::Greater
    } else {
        Ordering::Equal
    }
}

/// Two tokens compare as numbers when both read as a `u8`, and as text
/// otherwise.
pub open spec fn token_cmp(a: Seq<char>, b: Seq<char>) -> Ordering {
    match (parse_u8(a), parse_u8(b)) {
        (Some(x), Some(y)) => num_cmp(x, y),
        _ => lex_cmp(a, b),
    }
}

/// Version segments compared pairwise; the first unequal pair decides, and
/// running out of segments on either side counts as `Equal`.
pub open spec fn segments_cmp(a: Seq<Seq<char>>, b: Seq<Seq<char>>) -> Ordering
    decreases a.len(),
{
    if a.len() == 0 || b.len() == 0 {
        Ordering::Equal
    } else if token_cmp(a[0], b[0]) != Ordering::Equal {
        token_cmp(a[0], b[0])
    } else {
        segments_cmp(a.drop_first(), b.drop_first())
    }
}

/// The identifier without its version suffix: everything before the last
/// `-`, or the whole identifier when it has none.
pub open spec fn base_name(s: Seq<char>) -> Seq<char> {
    let k = last_index(s, '-');
    if k < 0 {
        s
    } else {
        s.take(k)
    }
}

/// The order on identifiers. Equal strings are `Equal`; different base
/// names decide by text; with equal base names, an `a` without a dash is
/// compared to `b` as one token, and otherwise the parts of `a` and `b` after
/// the position of `a`'s last dash are compared segment by segment.
#[verifier::opaque]
pub open spec fn package_cmp(a: Seq<char>, b: Seq<char>) -> Ordering {
    if a == b {
        Ordering::Equal
    } else if lex_cmp(base_name(a), base_name(b)) != Ordering::Equal {
        lex_cmp(base_name(a), base_name(b))
    } else {
        let k = last_index(a, '-');
        if k < 0 {
            token_cmp(a, b)
        } else {
            segments_cmp(
                dot_segments(a.skip(k + 1)),
                dot_segments(char_slice(b, k + 1, b.len() as int)),
            )
        }
    }
}

/// Compares two tokens numerically when both are numbers in `0..=255`, and
/// as text otherwise.
pub fn cmp_as_num_if_possible(a: &str, b: &str) -> (r: Ordering)
    ensures
        r == token_cmp(a@, b@),
{
    let i = parse_u8_decimal(a);
    let j = parse_u8_decimal(b);
    match (i, j) {
        (Some(x), Some(y)) => {
            if x < y {
                Ordering::Less
            } else if x > y {
                Ordering::Greater
            } else {
                Ordering::Equal
            }
        },
        _ => lex_compare(a, b),
    }
}

/// The identifier up to its last `-`, or all of it when there is none.
pub fn package_wo_version(s: &str) -> (r: &str)
    ensures
        r@ == base_name(s@),
{
    match find_last(s, '-') {
        Some(k) => {
            proof {
                lemma_index_facts(s@, '-');
            }
            let r = slice_chars(s, 0, k);
            assert(r@ =~= s@.take(k as int));
            r
        },
        None => s,
    }
}

/// Compares two lists of version segments pairwise.
fn cmp_segments(a: &Vec<&str>, b: &Vec<&str>) -> (r: Ordering)
    ensures
        r == segments_cmp(a@.map_values(|x: &str| x@), b@.map_values(|x: &str| x@)),
{
    let ghost sa = a@.map_values(|x: &str| x@);
    let ghost sb = b@.map_values(|x: &str| x@);
    let mut i: usize = 0;
    assert(sa.skip(0) =~= sa);
    assert(sb.skip(0) =~= sb);
    while i < a.len() && i < b.len()
        invariant
            sa == a@.map_values(|x: &str| x@),
            sb == b@.map_values(|x: &str| x@),
            i <= a.len(),
            i <= b.len(),
            segments_cmp(sa, sb) == segments_cmp(sa.skip(i as int), sb.skip(i as int)),
        decreases a.len() - i,
    {
        let order = cmp_as_num_if_possible(a[i], b[i]);
        assert(sa.skip(i as int)[0] == a[i as int]@);
        assert(sb.skip(i as int)[0] == b[i as int]@);
        match order {
            Ordering::Equal => {},
            _ => {
                return order;
            },
        }
        assert(sa.skip(i as int).drop_first() =~= sa.skip(i + 1));
        assert(sb.skip(i as int).drop_first() =~= sb.skip(i + 1));
        i = i + 1;
    }
    Ordering::Equal
}

/// Orders two identifiers: by base name first, then by version segments.
pub fn cmp_pkgs(a: &str, b: &str) -> (r: Ordering)
    ensures
        r == package_cmp(a@, b@),
{
    reveal(package_cmp);
    let same = lex_compare(a, b);
    proof {
        lemma_lex_cmp_antisymmetric(a@, b@);
    }
    if let Ordering::Equal = same {
        return Ordering::Equal;
    }
    let asub = package_wo_version(a);
    let bsub = package_wo_version(b);
    let first_order = lex_compare(asub, bsub);
    match first_order {
        Ordering::Equal => {},
        _ => {
            return first_order;
        },
    }
    match find_last(a, '-') {
        None => cmp_as_num_if_possible(a, b),
        Some(start) => {
            proof {
                lemma_index_facts(a@, '-');
            }
            let a_len = a.unicode_len();
            let b_len = b.unicode_len();
            let a_tail = slice_chars(a, start + 1, a_len);
            let b_tail = slice_chars(b, start + 1, b_len);
            assert(a_tail@ =~= a@.skip(start + 1));
            let a_split = split_on_dots(a_tail);
            let b_split = split_on_dots(b_tail);
            cmp_segments(&a_split, &b_split)
        },
    }
}


/// Swapping the tokens flips their order.
pub proof fn lemma_token_cmp_antisymmetric(a: Seq<char>, b: Seq<char>)
    ensures
        token_cmp(b, a) == flip(token_cmp(a, b)),
{
    lemma_lex_cmp_antisymmetric(a, b);
}

/// Swapping the segment lists flips their order.
pub proof fn lemma_segments_cmp_antisymmetric(a: Seq<Seq<char>>, b: Seq<Seq<char>>)
    ensures
        segments_cmp(b, a) == flip(segments_cmp(a, b)),
    decreases a.len(),
{
    if a.len() > 0 && b.len() > 0 {
        lemma_token_cmp_antisymmetric(a[0], b[0]);
        lemma_segments_cmp_antisymmetric(a.drop_first(), b.drop_first());
    }
}

/// `x` is `y`, which has no dash, followed by a dash and a version suffix
/// whose first segment is empty (`"java-"`, `"java-.1"` after `"java"`).
pub open spec fn blank_version_of(x: Seq<char>, y: Seq<char>) -> bool {
    &&& last_index(y, '-') < 0
    &&& last_index(x, '-') == y.len()
    &&& x.take(y.len() as int) == y
    &&& (x.len() == y.len() + 1 || x[y.len() + 1int] == '.')
}

/// `y` has no dash and `x` is `y` with a dash and a version added: `y`
/// comes first, and `x` comes after `y` unless its first version segment
/// is empty, in which case the two are `Equal` from `x`'s side.
proof fn lemma_dash_against_plain(x: Seq<char>, y: Seq<char>)
    requires
        last_index(y, '-') < 0,
        last_index(x, '-') == y.len(),
        x.take(y.len() as int) == y,
    ensures
        package_cmp(y, x) == Ordering::Less,
        package_cmp(x, y) == if blank_version_of(x, y) {
            Ordering::Equal
        } else {
            Ordering::Greater
        },
{
    reveal(package_cmp);
    let k = y.len() as int;
    lemma_index_facts(x, '-');
    assert(x != y);
    assert(base_name(x) == y);
    assert(base_name(y) == y);
    lemma_lex_cmp_antisymmetric(y, y);
    // `x` holds a dash, so it does not read as a number.
    let d = unsigned_digits(x);
    let j = if x.len() > 0 && x[0] == '+' { k - 1 } else { k };
    assert(d[j] == '-');
    assert(!is_digit(d[j]));
    assert(parse_u8(x) is None);
    assert(x.subrange(0, k) == y);
    lemma_lex_cmp_prefix(y, x);
    // From `x`'s side, the version part of `y` is empty.
    let t = x.skip(k + 1);
    let e = char_slice(y, k + 1, k);
    assert(e =~= Seq::<char>::empty());
    let ds = dot_segments(e);
    assert(ds =~= seq![Seq::<char>::empty()]);
    assert(parse_u8(Seq::<char>::empty()) is None);
    lemma_lex_cmp_antisymmetric(Seq::<char>::empty(), Seq::<char>::empty());
    assert(lex_cmp(base_name(x), base_name(y)) == Ordering::Equal);
    assert(package_cmp(x, y) == segments_cmp(dot_segments(t), ds));
    assert(t.len() == 0 <==> x.len() == k + 1);
    assert(t.len() > 0 ==> t[0] == x[k + 1]);
    assert(token_cmp(Seq::<char>::empty(), Seq::<char>::empty()) == Ordering::Equal);
    if t.len() == 0 {
        assert(dot_segments(t) =~= seq![Seq::<char>::empty()]);
        assert(segments_cmp(dot_segments(t).drop_first(), ds.drop_first()) == Ordering::Equal);
        assert(segments_cmp(dot_segments(t), ds) == Ordering::Equal);
        assert(blank_version_of(x, y));
    } else if t[0] == '.' {
        lemma_dot_segments_leading_dot(t);
        assert(dot_segments(t)[0] =~= Seq::<char>::empty());
        assert(segments_cmp(dot_segments(t).drop_first(), ds.drop_first()) == Ordering::Equal);
        assert(segments_cmp(dot_segments(t), ds) == Ordering::Equal);
        assert(blank_version_of(x, y));
    } else {
        lemma_dot_segments_leading_other(t);
        let first = dot_segments(t)[0];
        assert(lex_cmp(first, Seq::<char>::empty()) == Ordering::Greater);
        assert(token_cmp(first, ds[0]) == Ordering::Greater);
        crate::text::lemma_dot_segments_len(t);
        assert(segments_cmp(dot_segments(t), ds) == Ordering::Greater);
        assert(!blank_version_of(x, y));
    }
}

/// Every identifier is `Equal` to itself.
pub proof fn package_cmp_reflexive(x: Seq<char>)
    ensures
        package_cmp(x, x) == Ordering::Equal,
{
    reveal(package_cmp);
}

/// Swapping the identifiers flips their order, except where one of them is
/// the other with a dash and an empty first version segment added; there
/// the shorter one is `Less` and the other only `Equal`.
pub proof fn package_cmp_antisymmetric(a: Seq<char>, b: Seq<char>)
    ensures
        !blank_version_of(a, b) && !blank_version_of(b, a) ==> package_cmp(b, a) == flip(
            package_cmp(a, b),
        ),
        blank_version_of(a, b) ==> package_cmp(a, b) == Ordering::Equal && package_cmp(b, a)
            == Ordering::Less,
        blank_version_of(b, a) ==> package_cmp(b, a) == Ordering::Equal && package_cmp(a, b)
            == Ordering::Less,
{
    reveal(package_cmp);
    lemma_index_facts(a, '-');
    lemma_index_facts(b, '-');
    lemma_lex_cmp_antisymmetric(base_name(a), base_name(b));
    let ka = last_index(a, '-');
    let kb = last_index(b, '-');
    if a != b && base_name(a) == base_name(b) {
        if ka < 0 && kb < 0 {
            lemma_token_cmp_antisymmetric(a, b);
        } else if ka >= 0 && kb >= 0 {
            assert(a.take(ka).len() == b.take(kb).len());
            assert(char_slice(b, ka + 1, b.len() as int) =~= b.skip(ka + 1));
            assert(char_slice(a, ka + 1, a.len() as int) =~= a.skip(ka + 1));
            lemma_segments_cmp_antisymmetric(
                dot_segments(a.skip(ka + 1)),
                dot_segments(b.skip(ka + 1)),
            );
        } else if ka < 0 {
            assert(b.take(kb).len() == a.len());
            lemma_dash_against_plain(b, a);
        } else {
            assert(a.take(ka).len() == b.len());
            lemma_dash_against_plain(a, b);
        }
    }
}

/// Whenever `a` comes after `b`, `b` comes before `a`.
pub proof fn package_cmp_greater_flips(a: Seq<char>, b: Seq<char>)
    requires
        package_cmp(a, b) == Ordering::Greater,
    ensures
        package_cmp(b, a) == Ordering::Less,
{
    package_cmp_antisymmetric(a, b);
}

} // verus!
