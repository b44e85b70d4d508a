//! Recognising instrumentation module lines and collecting their
//! identifiers in comparator order.
use crate::compare::{cmp_pkgs, package_cmp, package_cmp_greater_flips};
use crate::text::{char_slice, contains_infix, find_first, first_index, has_infix, lemma_index_facts, slice_chars};
use core::cmp::Ordering;
use vstd::prelude::*;
use vstd::seq_lib::{to_multiset_build, to_multiset_insert};

verus! {

/// The identifier a line names: present when the line contains
/// `instrumentation` and a `:`, and then everything after the first `:` up
/// to, but not including, the line's last character.
pub open spec fn extracted(line: Seq<char>) -> Option<Seq<char>> {
    let j = first_index(line, ':');
    if has_infix(line, "instrumentation"@) && j >= 0 {
        Some(char_slice(line, j + 1, line.len() - 1))
    } else {
        None
    }
}

/// Takes the identifier out of one configuration line, if it names one.
pub fn extract_package(val: &str) -> (r: Option<&str>)
    ensures
        r is Some <==> extracted(val@) is Some,
        r is Some ==> r->0@ == extracted(val@)->0,
{
    if contains_infix(val, "instrumentation") {
        let i = find_first(val, ':');
        if let Some(j) = i {
            proof {
                lemma_index_facts(val@, ':');
            }
            let n = val.unicode_len();
            let start = j + 1;
            let end = n - 1;
            let pkg = slice_chars(val, start, end);
            return Some(pkg);
        }
    }
    None
}

/// A line without `instrumentation`, or without a `:`, names no identifier.
pub proof fn extracted_needs_keyword_and_colon(line: Seq<char>)
    ensures
        !has_infix(line, "instrumentation"@) ==> extracted(line) is None,
        !line.contains(':') ==> extracted(line) is None,
{
    lemma_index_facts(line, ':');
}


/// The identifiers that the lines name, in the order of the lines.
pub open spec fn extracted_all(lines: Seq<Seq<char>>) -> Seq<Seq<char>>
    decreases lines.len(),
{
    if lines.len() == 0 {
        Seq::empty()
    } else {
        let before = extracted_all(lines.drop_last());
        match extracted(lines.last()) {
            Some(p) => before.push(p),
            None => before,
        }
    }
}

/// The characters of each line.
pub open spec fn line_views(lines: Seq<String>) -> Seq<Seq<char>> {
    lines.map_values(|l: String| l@)
}

/// The characters of each identifier.
pub open spec fn package_views(pkgs: Seq<&str>) -> Seq<Seq<char>> {
    pkgs.map_values(|p: &str| p@)
}

/// Each identifier is placed no later than the comparator allows against
/// its right-hand neighbour.
pub open spec fn neighbours_in_order(s: Seq<Seq<char>>) -> bool {
    forall|i: int| 0 <= i < s.len() - 1 ==> #[trigger] package_cmp(s[i], s[i + 1]) != Ordering::Greater
}

/// Collects, in line order, the identifiers that the lines name.
pub fn extract_packages<'a>(lines: &'a Vec<String>) -> (r: Vec<&'a str>)
    ensures
        package_views(r@) == extracted_all(line_views(lines@)),
{
    let mut pkgs: Vec<&'a str> = Vec::new();
    let mut i: usize = 0;
    assert(line_views(lines@).take(0) =~= Seq::<Seq<char>>::empty());
    while i < lines.len()
        invariant
            i <= lines.len(),
            package_views(pkgs@) == extracted_all(line_views(lines@).take(i as int)),
        decreases lines.len() - i,
    {
        let line = lines[i].as_str();
        let ghost before = package_views(pkgs@);
        assert(line_views(lines@).take(i + 1).drop_last() =~= line_views(lines@).take(i as int));
        assert(line_views(lines@).take(i + 1).last() == line@);
        if let Some(pkg) = extract_package(line) {
            pkgs.push(pkg);
            assert(package_views(pkgs@) =~= before.push(pkg@));
        }
        i = i + 1;
    }
    assert(line_views(lines@).take(lines.len() as int) =~= line_views(lines@));
    pkgs
}

/// Putting `x` between two neighbours that it is in order with keeps a
/// sequence in order.
proof fn lemma_insert_in_order(s: Seq<Seq<char>>, p: int, x: Seq<char>)
    requires
        neighbours_in_order(s),
        0 <= p <= s.len(),
        p > 0 ==> package_cmp(s[p - 1], x) != Ordering::Greater,
        p < s.len() ==> package_cmp(x, s[p]) != Ordering::Greater,
    ensures
        neighbours_in_order(s.insert(p, x)),
{
    let t = s.insert(p, x);
    assert forall|k: int| 0 <= k < t.len() - 1 implies #[trigger] package_cmp(t[k], t[k + 1])
        != Ordering::Greater by {
        if k < p - 1 {
            assert(t[k] == s[k] && t[k + 1] == s[k + 1]);
            assert(package_cmp(s[k], s[k + 1]) != Ordering::Greater);
        } else if k == p - 1 {
            assert(t[k] == s[p - 1] && t[k + 1] == x);
        } else if k == p {
            assert(t[k] == x && t[k + 1] == s[p]);
        } else {
            let j = k - 1;
            assert(t[k] == s[j] && t[k + 1] == s[j + 1]);
            assert(package_cmp(s[j], s[j + 1]) != Ordering::Greater);
        }
    }
}

/// Whether `a` sorts after `b`.
fn comes_after(a: &str, b: &str) -> (r: bool)
    ensures
        r == (package_cmp(a@, b@) == Ordering::Greater),
{
    match cmp_pkgs(a, b) {
        Ordering::Greater => true,
        _ => false,
    }
}

/// Sorts identifiers with the comparator, by insertion: the result holds
/// the same identifiers, each in comparator order with its neighbour.
pub fn sort_packages<'a>(pkgs: &Vec<&'a str>) -> (r: Vec<&'a str>)
    ensures
        package_views(r@).to_multiset() == package_views(pkgs@).to_multiset(),
        neighbours_in_order(package_views(r@)),
{
    let mut sorted: Vec<&'a str> = Vec::new();
    let mut i: usize = 0;
    assert(package_views(pkgs@).take(0) =~= Seq::<Seq<char>>::empty());
    assert(package_views(sorted@) =~= Seq::<Seq<char>>::empty());
    while i < pkgs.len()
        invariant
            i <= pkgs.len(),
            package_views(sorted@).to_multiset() == package_views(pkgs@).take(
                i as int,
            ).to_multiset(),
            neighbours_in_order(package_views(sorted@)),
        decreases pkgs.len() - i,
    {
        let x = pkgs[i];
        let ghost old_views = package_views(sorted@);
        let mut p: usize = sorted.len();
        while p > 0 && comes_after(sorted[p - 1], x)
            invariant
                p <= sorted.len(),
                old_views == package_views(sorted@),
                p < sorted.len() ==> package_cmp(old_views[p as int], x@) == Ordering::Greater,
            decreases p,
        {
            p = p - 1;
        }
        proof {
            if p < sorted.len() {
                package_cmp_greater_flips(old_views[p as int], x@);
            }
            lemma_insert_in_order(old_views, p as int, x@);
            to_multiset_insert(old_views, p as int, x@);
            to_multiset_build(package_views(pkgs@).take(i as int), x@);
        }
        sorted.insert(p, x);
        assert(package_views(sorted@) =~= old_views.insert(p as int, x@));
        assert(package_views(pkgs@).take(i + 1) =~= package_views(pkgs@).take(i as int).push(x@));
        i = i + 1;
    }
    assert(package_views(pkgs@).take(pkgs.len() as int) =~= package_views(pkgs@));
    sorted
}

/// The identifiers that the lines name, sorted with the comparator.
pub fn sorted_packages<'a>(lines: &'a Vec<String>) -> (r: Vec<&'a str>)
    ensures
        package_views(r@).to_multiset() == extracted_all(line_views(lines@)).to_multiset(),
        neighbours_in_order(package_views(r@)),
{
    let pkgs = extract_packages(lines);
    sort_packages(&pkgs)
}

} // verus!
