//! The metadata record: the unit that grouping, ordering and path synthesis
//! consume. One record stands for one source file; every field but the path
//! may be absent.

use crate::sanitize::unknown_seq;
use crate::strutil::chars_to_string;
use vstd::prelude::*;

verus! {

/// The geometric ordering signal of a record, reduced to plain values.
///
/// The signal is the signed projection of the slice position onto the stack
/// normal. The caller that decodes a file computes that scalar and reduces
/// it to this type: `Ranked(k)` carries an order-preserving integer key (two
/// comparable scalars compare exactly as their keys do), `Incomparable`
/// stands for a scalar that compares as equal against every other (a
/// not-a-number result), and `Missing` means position or orientation was
/// absent or malformed, so the record has no usable geometric order.
#[derive(Clone, Copy, Debug, PartialEq, Eq, Structural)]
pub enum GeomOrder {
    Missing,
    Incomparable,
    Ranked(i64),
}

/// One file's metadata. Absent identifiers are substituted with sentinels
/// only at the point of consumption, never earlier.
pub struct DicomMeta {
    /// Where the file was found; the identity of the record. Components are
    /// separated by `/`.
    pub path: String,
    pub patient_id: Option<String>,
    pub patient_name: Option<String>,
    pub study_uid: Option<String>,
    pub series_uid: Option<String>,
    pub sop_uid: Option<String>,
    pub modality: Option<String>,
    pub study_date: Option<String>,
    pub series_number: Option<i32>,
    pub instance_number: Option<i32>,
    pub study_description: Option<String>,
    pub series_description: Option<String>,
    /// The geometric ordering signal, already reduced to plain values.
    pub geom: GeomOrder,
}

/// The part of a path after its last `/`.
pub open spec fn file_tail(p: Seq<char>) -> Seq<char>
    decreases p.len(),
{
    if p.len() == 0 {
        Seq::empty()
    } else if p.last() == '/' {
        Seq::empty()
    } else {
        file_tail(p.drop_last()).push(p.last())
    }
}

/// The file-name component of a path, or the `UNKNOWN` sentinel when the
/// path has none.
pub open spec fn spec_file_name(p: Seq<char>) -> Seq<char> {
    if file_tail(p).len() == 0 {
        unknown_seq()
    } else {
        file_tail(p)
    }
}

proof fn lemma_file_tail_exact(p: Seq<char>, k: int)
    requires
        0 <= k <= p.len(),
        forall|j: int| k <= j < p.len() ==> p[j] != '/',
        k > 0 ==> p[k - 1] == '/',
    ensures
        file_tail(p) == p.subrange(k, p.len() as int),
    decreases p.len(),
{
    if k == p.len() {
        assert(file_tail(p) =~= p.subrange(k, p.len() as int));
    } else {
        assert(p.last() != '/');
        lemma_file_tail_exact(p.drop_last(), k);
        assert(p.drop_last().subrange(k, p.drop_last().len() as int) =~= p.subrange(
            k,
            p.len() - 1,
        ));
        assert(file_tail(p) =~= p.subrange(k, p.len() as int));
    }
}

fn file_name_of(p: &str) -> (r: String)
    ensures
        r@ == spec_file_name(p@),
{
    let n = p.unicode_len();
    let mut k: usize = n;
    loop
        invariant
            k <= n,
            n == p@.len(),
            forall|j: int| k <= j < p@.len() ==> p@[j] != '/',
        ensures
            k <= n,
            forall|j: int| k <= j < p@.len() ==> p@[j] != '/',
            k > 0 ==> p@[k - 1] == '/',
        decreases k,
    {
        if k == 0 {
            break;
        }
        if p.get_char(k - 1) == '/' {
            break;
        }
        k = k - 1;
    }
    proof {
        lemma_file_tail_exact(p@, k as int);
    }
    if k == n {
        let mut v: Vec<char> = Vec::new();
        v.push('U');
        v.push('N');
        v.push('K');
        v.push('N');
        v.push('O');
        v.push('W');
        v.push('N');
        proof {
            assert(v@ =~= unknown_seq());
        }
        chars_to_string(&v)
    } else {
        let mut v: Vec<char> = Vec::new();
        let mut i: usize = k;
        while i < n
            invariant
                k <= i <= n,
                n == p@.len(),
                v@ =~= p@.subrange(k as int, i as int),
            decreases n - i,
        {
            v.push(p.get_char(i));
            i = i + 1;
        }
        proof {
            assert(v@ =~= p@.subrange(k as int, p@.len() as int));
        }
        chars_to_string(&v)
    }
}

pub(crate) fn clone_opt_string(o: &Option<String>) -> (r: Option<String>)
    ensures
        r == *o,
{
    match o {
        Some(s) => Some(s.clone()),
        None => None,
    }
}

impl DicomMeta {
    /// The stable identifier used as the final tie-break: the SOP identifier
    /// when present, else the file-name component of the path.
    pub open spec fn spec_stable_id(self) -> Seq<char> {
        match self.sop_uid {
            Some(u) => u@,
            None => spec_file_name(self.path@),
        }
    }

    /// Whether the record carries a usable geometric order.
    pub open spec fn spec_has_geom(self) -> bool {
        !(self.geom is Missing)
    }

    /// The geometric ordering signal of this record.
    pub fn geom_order(&self) -> (g: GeomOrder)
        ensures
            g == self.geom,
    {
        self.geom
    }

    /// The stable tie-break identifier of this record.
    pub fn stable_id(&self) -> (r: String)
        ensures
            r@ == self.spec_stable_id(),
    {
        match &self.sop_uid {
            Some(u) => u.clone(),
            None => file_name_of(self.path.as_str()),
        }
    }

    /// An exact copy, spelled out so that verified callers know every field
    /// is kept.
    pub fn duplicate(&self) -> (r: DicomMeta)
        ensures
            r == *self,
    {
        DicomMeta {
            path: self.path.clone(),
            patient_id: clone_opt_string(&self.patient_id),
            patient_name: clone_opt_string(&self.patient_name),
            study_uid: clone_opt_string(&self.study_uid),
            series_uid: clone_opt_string(&self.series_uid),
            sop_uid: clone_opt_string(&self.sop_uid),
            modality: clone_opt_string(&self.modality),
            study_date: clone_opt_string(&self.study_date),
            series_number: self.series_number,
            instance_number: self.instance_number,
            study_description: clone_opt_string(&self.study_description),
            series_description: clone_opt_string(&self.series_description),
            geom: self.geom,
        }
    }
}

} // verus!
