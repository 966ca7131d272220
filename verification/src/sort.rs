//! Ordering records within a group: a primary signal (geometric rank or
//! sequence number) with a stable lexicographic tie-break, and a sort that
//! arranges a group by it.

use crate::dicom::{DicomMeta, GeomOrder};
use crate::types::SortBy;
use core::cmp::Ordering;
use vstd::multiset::Multiset;
use vstd::prelude::*;

verus! {

broadcast use vstd::multiset::group_multiset_axioms, vstd::seq_lib::group_to_multiset_ensures;

/// Distinct characters have distinct code points.
proof fn lemma_char_code_inj(x: char, y: char)
    ensures
        (x as u32 == y as u32) ==> x == y,
{
    vstd::utf8::char_u32_cast(x, x as u32);
    vstd::utf8::char_u32_cast(y, y as u32);
}

/// Lexicographic comparison of two character sequences, by code point;
/// a proper prefix sorts before its extensions.
pub open spec fn spec_lex_cmp(a: Seq<char>, b: Seq<char>) -> Ordering
    decreases a.len(),
{
    if a.len() == 0 && b.len() == 0 {
        Ordering::Equal
    } else if a.len() == 0 {
        Ordering::Less
    } else if b.len() == 0 {
        Ordering::Greater
    } else if a[0] == b[0] {
        spec_lex_cmp(a.drop_first(), b.drop_first())
    } else if (a[0] as u32) < (b[0] as u32) {
        Ordering::Less
    } else {
        Ordering::Greater
    }
}

/// The geometric signal compared: two ranked scalars compare by rank;
/// every other pairing is left to the tie-break.
pub open spec fn geom_cmp(x: GeomOrder, y: GeomOrder) -> Ordering {
    match (x, y) {
        (GeomOrder::Ranked(i), GeomOrder::Ranked(j)) => if i < j {
            Ordering::Less
        } else if i > j {
            Ordering::Greater
        } else {
            Ordering::Equal
        },
        _ => Ordering::Equal,
    }
}

/// The sequence-number signal compared: a missing number sorts after any
/// present one; two missing numbers are left to the tie-break.
pub open spec fn inst_cmp(x: Option<i32>, y: Option<i32>) -> Ordering {
    match (x, y) {
        (Some(i), Some(j)) => if i < j {
            Ordering::Less
        } else if i > j {
            Ordering::Greater
        } else {
            Ordering::Equal
        },
        (Some(i), None) => Ordering::Less,
        (None, Some(j)) => Ordering::Greater,
        (None, None) => Ordering::Equal,
    }
}

/// The comparison between two sibling records: the chosen primary signal
/// first, then the stable identifier as the final tie-break.
pub open spec fn spec_compare(a: DicomMeta, b: DicomMeta, use_geom: bool) -> Ordering {
    let primary = if use_geom {
        geom_cmp(a.geom, b.geom)
    } else {
        inst_cmp(a.instance_number, b.instance_number)
    };
    if primary == Ordering::Equal {
        spec_lex_cmp(a.spec_stable_id(), b.spec_stable_id())
    } else {
        primary
    }
}

/// Two lexicographic comparisons in opposite directions give opposite
/// answers, and agree on equality.
pub proof fn lemma_lex_cmp_antisym(a: Seq<char>, b: Seq<char>)
    ensures
        (spec_lex_cmp(a, b) == Ordering::Less) <==> (spec_lex_cmp(b, a) == Ordering::Greater),
        (spec_lex_cmp(a, b) == Ordering::Equal) <==> (spec_lex_cmp(b, a) == Ordering::Equal),
    decreases a.len(),
{
    if a.len() > 0 && b.len() > 0 {
        if a[0] == b[0] {
            lemma_lex_cmp_antisym(a.drop_first(), b.drop_first());
        } else {
            lemma_char_code_inj(a[0], b[0]);
        }
    }
}

/// The lexicographic comparison calls two sequences equal only when they
/// are the same sequence.
pub proof fn lemma_lex_cmp_eq(a: Seq<char>, b: Seq<char>)
    ensures
        (spec_lex_cmp(a, b) == Ordering::Equal) <==> (a == b),
    decreases a.len(),
{
    if a.len() == 0 && b.len() == 0 {
        assert(a =~= b);
    } else if a.len() > 0 && b.len() > 0 && a[0] == b[0] {
        lemma_lex_cmp_eq(a.drop_first(), b.drop_first());
        if spec_lex_cmp(a, b) == Ordering::Equal {
            assert(a.drop_first() == b.drop_first());
            assert(a.len() == b.len());
            assert forall|i: int| 0 <= i < a.len() implies a[i] == b[i] by {
                if i > 0 {
                    assert(a[i] == a.drop_first()[i - 1]);
                    assert(b[i] == b.drop_first()[i - 1]);
                }
            }
            assert(a =~= b);
        }
        if a == b {
            assert(a.drop_first() =~= b.drop_first());
        }
    } else {
        if a == b {
            assert(a.len() == b.len());
            if a.len() > 0 {
                assert(a[0] == b[0]);
            }
            assert(false);
        }
    }
}

/// The lexicographic comparison is transitive.
pub proof fn lemma_lex_cmp_trans(a: Seq<char>, b: Seq<char>, c: Seq<char>)
    requires
        spec_lex_cmp(a, b) == Ordering::Less,
        spec_lex_cmp(b, c) == Ordering::Less,
    ensures
        spec_lex_cmp(a, c) == Ordering::Less,
    decreases a.len(),
{
    if a.len() == 0 {
        assert(c.len() > 0);
    } else {
        assert(b.len() > 0);
        assert(c.len() > 0);
        if a[0] == b[0] && b[0] == c[0] {
            lemma_lex_cmp_trans(a.drop_first(), b.drop_first(), c.drop_first());
        }
    }
}

/// The record comparison reverses cleanly: swapping the arguments swaps
/// `Less` and `Greater`, and keeps `Equal`.
pub proof fn lemma_compare_antisym(a: DicomMeta, b: DicomMeta, use_geom: bool)
    ensures
        (spec_compare(a, b, use_geom) == Ordering::Less) <==> (spec_compare(b, a, use_geom)
            == Ordering::Greater),
        (spec_compare(a, b, use_geom) == Ordering::Equal) <==> (spec_compare(b, a, use_geom)
            == Ordering::Equal),
{
    lemma_lex_cmp_antisym(a.spec_stable_id(), b.spec_stable_id());
}

/// Two records compare as equal only when their stable identifiers are the
/// same sequence: records with distinct stable identifiers never tie.
pub proof fn lemma_compare_equal_same_id(a: DicomMeta, b: DicomMeta, use_geom: bool)
    ensures
        spec_compare(a, b, use_geom) == Ordering::Equal ==> a.spec_stable_id()
            == b.spec_stable_id(),
{
    lemma_lex_cmp_eq(a.spec_stable_id(), b.spec_stable_id());
}

/// The record comparison is transitive: always under the sequence-number
/// signal, and under the geometric signal when all three records carry a
/// comparable (ranked) geometry. (With mixed ranked and unranked geometry
/// the pairwise fall-through to the tie-break is not transitive.)
pub proof fn lemma_compare_trans(a: DicomMeta, b: DicomMeta, c: DicomMeta, use_geom: bool)
    requires
        use_geom ==> a.geom is Ranked && b.geom is Ranked && c.geom is Ranked,
        spec_compare(a, b, use_geom) == Ordering::Less,
        spec_compare(b, c, use_geom) == Ordering::Less,
    ensures
        spec_compare(a, c, use_geom) == Ordering::Less,
{
    let pab = if use_geom {
        geom_cmp(a.geom, b.geom)
    } else {
        inst_cmp(a.instance_number, b.instance_number)
    };
    let pbc = if use_geom {
        geom_cmp(b.geom, c.geom)
    } else {
        inst_cmp(b.instance_number, c.instance_number)
    };
    if pab == Ordering::Equal && pbc == Ordering::Equal {
        lemma_lex_cmp_trans(a.spec_stable_id(), b.spec_stable_id(), c.spec_stable_id());
    }
}

fn lex_cmp_str(x: &String, y: &String) -> (o: Ordering)
    ensures
        o == spec_lex_cmp(x@, y@),
{
    let xs = x.as_str();
    let ys = y.as_str();
    let xn = xs.unicode_len();
    let yn = ys.unicode_len();
    let mut i: usize = 0;
    proof {
        assert(x@.skip(0) =~= x@);
        assert(y@.skip(0) =~= y@);
    }
    loop
        invariant
            i <= xn,
            i <= yn,
            xn == xs@.len(),
            yn == ys@.len(),
            xs@ == x@,
            ys@ == y@,
            spec_lex_cmp(x@, y@) == spec_lex_cmp(
                x@.skip(i as int),
                y@.skip(i as int),
            ),
        decreases xn - i,
    {
        if i == xn {
            if i == yn {
                proof {
                    assert(x@.skip(i as int) =~= Seq::<char>::empty());
                    assert(y@.skip(i as int) =~= Seq::<char>::empty());
                }
                return Ordering::Equal;
            }
            proof {
                assert(x@.skip(i as int) =~= Seq::<char>::empty());
                assert(y@.skip(i as int).len() > 0);
            }
            return Ordering::Less;
        }
        if i == yn {
            proof {
                assert(y@.skip(i as int) =~= Seq::<char>::empty());
                assert(x@.skip(i as int).len() > 0);
            }
            return Ordering::Greater;
        }
        let cx = xs.get_char(i);
        let cy = ys.get_char(i);
        if cx == cy {
            proof {
                assert(x@.skip(i as int)[0] == cx);
                assert(y@.skip(i as int)[0] == cy);
                assert(x@.skip(i as int).drop_first() =~= x@.skip(i + 1));
                assert(y@.skip(i as int).drop_first() =~= y@.skip(i + 1));
            }
            i = i + 1;
        } else {
            proof {
                assert(x@.skip(i as int)[0] == cx);
                assert(y@.skip(i as int)[0] == cy);
            }
            if (cx as u32) < (cy as u32) {
                return Ordering::Less;
            }
            return Ordering::Greater;
        }
    }
}

/// Compares two sibling records pairwise: by the chosen primary signal, then
/// by the stable identifier.
pub fn compare(a: &DicomMeta, b: &DicomMeta, use_geom: bool) -> (o: Ordering)
    ensures
        o == spec_compare(*a, *b, use_geom),
{
    if use_geom {
        match (a.geom, b.geom) {
            (GeomOrder::Ranked(x), GeomOrder::Ranked(y)) => {
                if x < y {
                    return Ordering::Less;
                }
                if x > y {
                    return Ordering::Greater;
                }
            },
            _ => {},
        }
    } else {
        match (a.instance_number, b.instance_number) {
            (Some(x), Some(y)) => {
                if x < y {
                    return Ordering::Less;
                }
                if x > y {
                    return Ordering::Greater;
                }
            },
            (Some(_), None) => {
                return Ordering::Less;
            },
            (None, Some(_)) => {
                return Ordering::Greater;
            },
            (None, None) => {},
        }
    }
    let ia = a.stable_id();
    let ib = b.stable_id();
    lex_cmp_str(&ia, &ib)
}

/// Every adjacent pair of the sequence is in order under the comparison.
pub open spec fn spec_sorted(s: Seq<DicomMeta>, use_geom: bool) -> bool {
    forall|i: int|
        0 <= i < s.len() - 1 ==> #[trigger] spec_compare(s[i], s[i + 1], use_geom)
            != Ordering::Greater
}

/// Whether a group is sorted geometrically: `Geometry` forces it,
/// `Instance` refuses it, and `Auto` takes it exactly when every record of
/// the group has a usable geometric order.
pub open spec fn spec_use_geom(sort_by: SortBy, items: Seq<DicomMeta>) -> bool {
    match sort_by {
        SortBy::Geometry => true,
        SortBy::Instance => false,
        SortBy::Auto => forall|i: int|
            0 <= i < items.len() ==> (#[trigger] items[i]).spec_has_geom(),
    }
}

fn all_have_geom(items: &Vec<DicomMeta>) -> (r: bool)
    ensures
        r == (forall|i: int| 0 <= i < items@.len() ==> (#[trigger] items@[i]).spec_has_geom()),
{
    let mut i: usize = 0;
    while i < items.len()
        invariant
            i <= items@.len(),
            forall|j: int| 0 <= j < i ==> (#[trigger] items@[j]).spec_has_geom(),
        decreases items@.len() - i,
    {
        match items[i].geom {
            GeomOrder::Missing => {
                return false;
            },
            _ => {},
        }
        i = i + 1;
    }
    true
}

fn insert_sorted(r: &mut Vec<DicomMeta>, x: DicomMeta, use_geom: bool)
    requires
        spec_sorted(old(r)@, use_geom),
    ensures
        spec_sorted(final(r)@, use_geom),
        final(r)@.to_multiset() == old(r)@.to_multiset().insert(x),
        final(r)@.len() == old(r)@.len() + 1,
{
    let mut j: usize = r.len();
    loop
        invariant
            j <= r@.len(),
            r@ == old(r)@,
            forall|k: int| j <= k < r@.len() ==> spec_compare(x, #[trigger] r@[k], use_geom)
                == Ordering::Less,
        ensures
            j <= r@.len(),
            r@ == old(r)@,
            forall|k: int| j <= k < r@.len() ==> spec_compare(x, #[trigger] r@[k], use_geom)
                == Ordering::Less,
            j > 0 ==> spec_compare(x, r@[j - 1], use_geom) != Ordering::Less,
        decreases j,
    {
        if j == 0 {
            break;
        }
        let c = compare(&x, &r[j - 1], use_geom);
        if !matches!(c, Ordering::Less) {
            break;
        }
        j = j - 1;
    }
    let ghost before = r@;
    r.insert(j, x);
    proof {
        vstd::seq_lib::to_multiset_insert(before, j as int, x);
        before.insert_ensures(j as int, x);
        let after = r@;
        assert forall|i: int| 0 <= i < after.len() - 1 implies #[trigger] spec_compare(
            after[i],
            after[i + 1],
            use_geom,
        ) != Ordering::Greater by {
            if i + 1 < j {
                assert(after[i] == before[i]);
                assert(after[i + 1] == before[i + 1]);
            } else if i + 1 == j {
                assert(after[i] == before[i]);
                assert(after[i + 1] == x);
                lemma_compare_antisym(x, before[i], use_geom);
            } else if i == j {
                assert(after[i] == x);
                assert(after[i + 1] == before[i]);
            } else {
                assert(after[i - 1 + 1] == before[i - 1]);
                assert(after[i + 1] == before[i]);
            }
        }
    }
}

/// Sorts one group of sibling records, deciding the ordering signal once
/// for the whole group: the result is a permutation of the group, every
/// adjacent pair is in order under the decided signal, and under `Auto` the
/// geometric signal is taken exactly when every record has usable geometry.
pub fn order(group: Vec<DicomMeta>, sort_by: SortBy) -> (r: Vec<DicomMeta>)
    ensures
        r@.to_multiset() == group@.to_multiset(),
        r@.len() == group@.len(),
        spec_sorted(r@, spec_use_geom(sort_by, group@)),
{
    let use_geom: bool = match sort_by {
        SortBy::Geometry => true,
        SortBy::Instance => false,
        SortBy::Auto => all_have_geom(&group),
    };
    let ghost orig = group@;
    let mut rest = group;
    let mut r: Vec<DicomMeta> = Vec::new();
    while rest.len() > 0
        invariant
            spec_sorted(r@, use_geom),
            r@.to_multiset().add(rest@.to_multiset()) =~= orig.to_multiset(),
            r@.len() + rest@.len() == orig.len(),
        decreases rest@.len(),
    {
        let ghost rest_before = rest@;
        let ghost r_before = r@;
        let x = rest.pop().unwrap();
        proof {
            vstd::seq_lib::to_multiset_remove(rest_before, rest_before.len() - 1);
            assert(rest_before.remove(rest_before.len() - 1) =~= rest_before.drop_last());
            assert(rest_before.contains(x));
            assert(rest_before.to_multiset().count(x) > 0);
        }
        insert_sorted(&mut r, x, use_geom);
        proof {
            assert(r@.to_multiset().add(rest@.to_multiset()) =~= orig.to_multiset());
        }
    }
    proof {
        assert(rest@ =~= Seq::<DicomMeta>::empty());
        assert forall|m: DicomMeta| rest@.to_multiset().count(m) == 0 by {
            if rest@.to_multiset().count(m) > 0 {
                assert(rest@.contains(m));
            }
        }
        assert(rest@.to_multiset() =~= Multiset::<DicomMeta>::empty());
        assert(r@.to_multiset() =~= orig.to_multiset());
    }
    r
}

/// Sorted geometrically with every record ranked, the ranks ascend over the
/// whole sequence, not only between neighbours.
pub proof fn lemma_sorted_geom_ascending(s: Seq<DicomMeta>, i: int, j: int)
    requires
        spec_sorted(s, true),
        forall|k: int| 0 <= k < s.len() ==> (#[trigger] s[k]).geom is Ranked,
        0 <= i <= j < s.len(),
    ensures
        s[i].geom->Ranked_0 <= s[j].geom->Ranked_0,
    decreases j - i,
{
    if i < j {
        lemma_sorted_geom_ascending(s, i, j - 1);
        assert(spec_compare(s[j - 1], s[j - 1 + 1], true) != Ordering::Greater);
    }
}

/// Sorted by sequence number, the numbers never descend over the whole
/// sequence, and a record with a number never follows one without.
pub proof fn lemma_sorted_instance_ascending(s: Seq<DicomMeta>, i: int, j: int)
    requires
        spec_sorted(s, false),
        0 <= i <= j < s.len(),
    ensures
        inst_cmp(s[i].instance_number, s[j].instance_number) != Ordering::Greater,
    decreases j - i,
{
    if i < j {
        lemma_sorted_instance_ascending(s, i, j - 1);
        assert(spec_compare(s[j - 1], s[j - 1 + 1], false) != Ordering::Greater);
    }
}

} // verus!
