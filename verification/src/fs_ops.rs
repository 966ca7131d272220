//! Collision-free destination resolution: probing `stem_1.ext, stem_2.ext,
//! ...` against the set of already-taken paths, up to a fixed bound.

use crate::digits::{spec_dec, u64_to_dec};
use crate::plan::Plan;
use crate::strutil::chars_to_string;
use vstd::prelude::*;

verus! {

/// How many probe names are tried before giving the original path back.
pub open spec fn probe_bound() -> nat {
    10000
}

/// The position of the extension dot of a path: the last `.` of the final
/// path component, provided it is not that component's first character.
pub open spec fn spec_dot_pos(dst: Seq<char>) -> Option<int>
    decreases dst.len(),
{
    if dst.len() == 0 {
        None
    } else if dst.last() == '/' {
        None
    } else if dst.last() == '.' {
        if dst.len() >= 2 && dst[dst.len() - 2] != '/' {
            Some(dst.len() - 1)
        } else {
            None
        }
    } else {
        spec_dot_pos(dst.drop_last())
    }
}

/// The i-th probe name: `_i` inserted before the extension, or appended
/// when the path has none.
pub open spec fn spec_candidate(dst: Seq<char>, i: nat) -> Seq<char> {
    match spec_dot_pos(dst) {
        Some(p) => dst.subrange(0, p) + "_"@ + spec_dec(i) + dst.subrange(p, dst.len() as int),
        None => dst + "_"@ + spec_dec(i),
    }
}

/// Whether one of the taken paths reads `s`.
pub open spec fn str_in(taken: Seq<String>, s: Seq<char>) -> bool {
    exists|k: int| 0 <= k < taken.len() && (#[trigger] taken[k])@ == s
}

/// The first free probe name from index `i` on, or the original path when
/// every probe up to the bound is taken.
pub open spec fn spec_unique_from(dst: Seq<char>, taken: Seq<String>, i: nat) -> Seq<char>
    decreases probe_bound() - i,
{
    if i >= probe_bound() {
        dst
    } else if !str_in(taken, spec_candidate(dst, i)) {
        spec_candidate(dst, i)
    } else {
        spec_unique_from(dst, taken, i + 1)
    }
}

/// The resolved destination: the path itself when free, else the first free
/// probe name, else (with every probe taken) the path itself again.
pub open spec fn spec_unique(dst: Seq<char>, taken: Seq<String>) -> Seq<char> {
    if !str_in(taken, dst) {
        dst
    } else {
        spec_unique_from(dst, taken, 1)
    }
}

fn contains_str(taken: &Vec<String>, s: &String) -> (r: bool)
    ensures
        r == str_in(taken@, s@),
{
    let mut k: usize = 0;
    while k < taken.len()
        invariant
            k <= taken@.len(),
            forall|j: int| 0 <= j < k ==> (#[trigger] taken@[j])@ != s@,
        decreases taken@.len() - k,
    {
        if taken[k].eq(s) {
            return true;
        }
        k = k + 1;
    }
    false
}

/// Builds the i-th probe name for a destination path.
pub fn probe_candidate(dst: &String, i: u64) -> (r: String)
    ensures
        r@ == spec_candidate(dst@, i as nat),
{
    let ds = dst.as_str();
    let n = ds.unicode_len();
    let mut v: Vec<char> = Vec::new();
    let mut k: usize = 0;
    while k < n
        invariant
            k <= n,
            n == dst@.len(),
            ds@ == dst@,
            v@ =~= dst@.take(k as int),
        decreases n - k,
    {
        v.push(ds.get_char(k));
        k = k + 1;
    }
    proof {
        assert(v@ =~= dst@);
    }
    // locate the extension dot
    let mut j: usize = n;
    let mut dot: usize = n;
    let mut has_dot: bool = false;
    loop
        invariant_except_break
            !has_dot,
            dot == n,
        invariant
            j <= n,
            n == v@.len(),
            v@ == dst@,
            spec_dot_pos(dst@) == spec_dot_pos(dst@.take(j as int)),
        ensures
            v@ == dst@,
            (has_dot ==> dot < n && spec_dot_pos(dst@) == Some(dot as int)),
            (!has_dot ==> spec_dot_pos(dst@) is None),
        decreases j,
    {
        if j == 0 {
            proof {
                assert(dst@.take(0) =~= Seq::<char>::empty());
            }
            break;
        }
        let c = v[j - 1];
        proof {
            assert(dst@.take(j as int).last() == c);
        }
        if c == '/' {
            break;
        }
        if c == '.' {
            if j >= 2 && v[j - 2] != '/' {
                proof {
                    assert(dst@.take(j as int)[j - 2] == dst@[j - 2]);
                }
                dot = j - 1;
                has_dot = true;
            }
            break;
        }
        proof {
            assert(dst@.take(j as int).drop_last() =~= dst@.take(j - 1));
        }
        j = j - 1;
    }
    let digits = u64_to_dec(i);
    let mut out: Vec<char> = Vec::new();
    let upto: usize = if has_dot {
        dot
    } else {
        n
    };
    let mut k: usize = 0;
    while k < upto
        invariant
            k <= upto <= n,
            n == v@.len(),
            v@ == dst@,
            out@ =~= dst@.take(k as int),
        decreases upto - k,
    {
        out.push(v[k]);
        k = k + 1;
    }
    out.push('_');
    let mut k: usize = 0;
    while k < digits.len()
        invariant
            k <= digits@.len(),
            out@ =~= dst@.take(upto as int) + seq!['_'] + digits@.take(k as int),
        decreases digits@.len() - k,
    {
        out.push(digits[k]);
        k = k + 1;
    }
    let mut k: usize = upto;
    while k < n
        invariant
            upto <= k <= n,
            n == v@.len(),
            v@ == dst@,
            out@ =~= dst@.take(upto as int) + seq!['_'] + digits@ + dst@.subrange(
                upto as int,
                k as int,
            ),
        decreases n - k,
    {
        out.push(v[k]);
        k = k + 1;
    }
    proof {
        reveal_strlit("_");
        assert("_"@ =~= seq!['_']);
        assert(dst@.take(upto as int) =~= dst@.subrange(0, upto as int));
        if has_dot {
            assert(out@ =~= spec_candidate(dst@, i as nat));
        } else {
            assert(dst@.subrange(n as int, n as int) =~= Seq::<char>::empty());
            assert(out@ =~= spec_candidate(dst@, i as nat));
        }
    }
    chars_to_string(&out)
}

/// Resolves one destination against the taken paths: the path itself when
/// free; else the first free probe name `stem_i.ext` for `i` from 1 up to
/// the bound; else, with every probe taken, the original path.
pub fn unique_path(dst: &String, taken: &Vec<String>) -> (r: String)
    ensures
        r@ == spec_unique(dst@, taken@),
{
    if !contains_str(taken, dst) {
        return dst.clone();
    }
    let mut i: u64 = 1;
    loop
        invariant
            1 <= i <= 10000,
            str_in(taken@, dst@),
            spec_unique_from(dst@, taken@, 1) == spec_unique_from(dst@, taken@, i as nat),
        decreases 10000 - i,
    {
        if i >= 10000 {
            return dst.clone();
        }
        let c = probe_candidate(dst, i);
        if !contains_str(taken, &c) {
            return c;
        }
        i = i + 1;
    }
}

proof fn lemma_unique_from_avoids(dst: Seq<char>, taken: Seq<String>, i: nat)
    requires
        1 <= i < probe_bound(),
        exists|j: nat|
            i <= j < probe_bound() && !str_in(taken, #[trigger] spec_candidate(dst, j)),
    ensures
        !str_in(taken, spec_unique_from(dst, taken, i)),
    decreases probe_bound() - i,
{
    if str_in(taken, spec_candidate(dst, i)) {
        let j = choose|j: nat|
            i <= j < probe_bound() && !str_in(taken, #[trigger] spec_candidate(dst, j));
        assert(j != i);
        assert(i + 1 <= j < probe_bound() && !str_in(taken, spec_candidate(dst, j)));
        lemma_unique_from_avoids(dst, taken, i + 1);
    }
}

/// Whether some probe name below the bound is still free.
pub open spec fn has_free_probe(dst: Seq<char>, taken: Seq<String>) -> bool {
    exists|j: nat| 1 <= j < probe_bound() && !str_in(taken, #[trigger] spec_candidate(dst, j))
}

/// A destination that is already taken resolves to a path that collides
/// with nothing taken — in particular it differs from the original — as
/// long as some probe name below the bound is still free.
pub proof fn lemma_unique_avoids_taken(dst: Seq<char>, taken: Seq<String>)
    requires
        has_free_probe(dst, taken),
    ensures
        !str_in(taken, spec_unique(dst, taken)),
        str_in(taken, dst) ==> spec_unique(dst, taken) != dst,
{
    if str_in(taken, dst) {
        lemma_unique_from_avoids(dst, taken, 1);
    }
}

/// Resolves every planned destination in order, each against the
/// pre-existing paths and all destinations resolved before it.
pub fn resolve_all(plans: &Vec<Plan>, existing: &Vec<String>) -> (r: Vec<String>)
    ensures
        r@.len() == plans@.len(),
        forall|k: int|
            0 <= k < r@.len() ==> (#[trigger] r@[k])@ == spec_unique(
                plans@[k].dst@,
                existing@ + r@.take(k),
            ),
{
    let mut taken: Vec<String> = Vec::new();
    let mut e: usize = 0;
    while e < existing.len()
        invariant
            e <= existing@.len(),
            taken@ =~= existing@.take(e as int),
        decreases existing@.len() - e,
    {
        taken.push(existing[e].clone());
        e = e + 1;
    }
    proof {
        assert(taken@ =~= existing@);
    }
    let mut r: Vec<String> = Vec::new();
    let mut k: usize = 0;
    while k < plans.len()
        invariant
            k <= plans@.len(),
            r@.len() == k,
            taken@ == existing@ + r@,
            forall|q: int|
                0 <= q < r@.len() ==> (#[trigger] r@[q])@ == spec_unique(
                    plans@[q].dst@,
                    existing@ + r@.take(q),
                ),
        decreases plans@.len() - k,
    {
        let ghost r_before = r@;
        let u = unique_path(&plans[k].dst, &taken);
        let u2 = u.clone();
        r.push(u);
        taken.push(u2);
        proof {
            assert(r@.take(k as int) =~= r_before);
            assert(taken@ =~= existing@ + r@);
            assert forall|q: int| 0 <= q < r@.len() implies (#[trigger] r@[q])@ == spec_unique(
                plans@[q].dst@,
                existing@ + r@.take(q),
            ) by {
                if q < k {
                    assert(r@[q] == r_before[q]);
                    assert(r@.take(q) =~= r_before.take(q));
                }
            }
        }
        k = k + 1;
    }
    r
}

/// Two entries of one run never resolve to the same destination, provided
/// each found a free name below the probe bound. The later entry's
/// resolution avoids everything taken before it, which includes every
/// earlier resolution.
pub proof fn lemma_run_destinations_distinct(
    plans: Seq<Plan>,
    resolved: Seq<String>,
    existing: Seq<String>,
    i: int,
    j: int,
)
    requires
        resolved.len() == plans.len(),
        forall|k: int|
            0 <= k < resolved.len() ==> (#[trigger] resolved[k])@ == spec_unique(
                plans[k].dst@,
                existing + resolved.take(k),
            ),
        forall|k: int|
            0 <= k < resolved.len() ==> #[trigger] has_free_probe(
                plans[k].dst@,
                existing + resolved.take(k),
            ),
        0 <= i < j < resolved.len(),
    ensures
        resolved[i]@ != resolved[j]@,
        !str_in(existing, resolved[j]@),
{
    let taken = existing + resolved.take(j);
    lemma_unique_avoids_taken(plans[j].dst@, taken);
    assert(!str_in(taken, resolved[j]@));
    assert(taken[existing.len() + i] == resolved[i]);
    if resolved[i]@ == resolved[j]@ {
        assert(str_in(taken, resolved[j]@));
    }
    assert forall|k: int| 0 <= k < existing.len() implies (#[trigger] existing[k])@
        != resolved[j]@ by {
        assert(taken[k] == existing[k]);
    }
}

} // verus!
