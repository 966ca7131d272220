//! Grouping records into acquisitions, synthesizing destination paths, and
//! assembling the run plan.

use crate::dicom::DicomMeta;
use crate::digits::{dec_string_i32, padded5_string, spec_dec, spec_dec_int, spec_pad5};
use crate::sanitize::{sanitize_component, spec_sanitize};
use crate::sort::{order, spec_compare, spec_use_geom};
use crate::types::{Layout, SortBy};
use core::cmp::Ordering;
use vstd::multiset::Multiset;
use vstd::prelude::*;
use vstd::string::StringExecFns;

verus! {

broadcast use vstd::multiset::group_multiset_axioms, vstd::seq_lib::group_to_multiset_ensures;

/// The study half of a record's group key; a missing identifier maps to the
/// study sentinel.
pub open spec fn spec_study_key(m: DicomMeta) -> Seq<char> {
    match m.study_uid {
        Some(s) => s@,
        None => "UNKNOWN_STUDY"@,
    }
}

/// The series half of a record's group key; a missing identifier maps to
/// the series sentinel.
pub open spec fn spec_series_key(m: DicomMeta) -> Seq<char> {
    match m.series_uid {
        Some(s) => s@,
        None => "UNKNOWN_SERIES"@,
    }
}

/// Two records are siblings when both halves of their group keys agree.
pub open spec fn same_group(a: DicomMeta, b: DicomMeta) -> bool {
    spec_study_key(a) == spec_study_key(b) && spec_series_key(a) == spec_series_key(b)
}

/// Whether every sibling of `m` among the plan's entries carries a usable
/// geometric order.
pub open spec fn siblings_all_ranked(ps: Seq<Plan>, m: DicomMeta) -> bool {
    forall|k: int|
        0 <= k < ps.len() && same_group((#[trigger] ps[k]).meta, m) ==> ps[k].meta.spec_has_geom()
}

/// The ordering signal `m`'s group was sorted by, read off the finished
/// plan: geometry when forced or when (under `Auto`) every sibling has a
/// usable geometric order.
pub open spec fn plans_use_geom(sort_by: SortBy, ps: Seq<Plan>, m: DicomMeta) -> bool {
    match sort_by {
        SortBy::Geometry => true,
        SortBy::Instance => false,
        SortBy::Auto => siblings_all_ranked(ps, m),
    }
}

/// One acquisition group: its key and the records that carry it.
pub struct Group {
    pub study: String,
    pub series: String,
    pub items: Vec<DicomMeta>,
}

/// Whether two groups carry the same key.
pub open spec fn same_key_groups(a: Group, b: Group) -> bool {
    a.study@ == b.study@ && a.series@ == b.series@
}

/// Whether a plan entry's record belongs to a group's key.
pub open spec fn plan_in_group(p: Plan, g: Group) -> bool {
    spec_study_key(p.meta) == g.study@ && spec_series_key(p.meta) == g.series@
}

/// All records held by a sequence of groups, as a multiset.
pub open spec fn groups_mset(gs: Seq<Group>) -> Multiset<DicomMeta>
    decreases gs.len(),
{
    if gs.len() == 0 {
        Multiset::empty()
    } else {
        groups_mset(gs.drop_last()).add(gs.last().items@.to_multiset())
    }
}

proof fn lemma_groups_mset_update(gs: Seq<Group>, j: int, g2: Group, m: DicomMeta)
    requires
        0 <= j < gs.len(),
        g2.items@.to_multiset() == gs[j].items@.to_multiset().insert(m),
    ensures
        groups_mset(gs.update(j, g2)) == groups_mset(gs).insert(m),
    decreases gs.len(),
{
    let upd = gs.update(j, g2);
    if j == gs.len() - 1 {
        assert(upd.drop_last() =~= gs.drop_last());
        assert(upd.last() == g2);
        assert(groups_mset(gs.drop_last()).add(gs.last().items@.to_multiset().insert(m))
            =~= groups_mset(gs.drop_last()).add(gs.last().items@.to_multiset()).insert(m));
    } else {
        assert(upd.drop_last() =~= gs.drop_last().update(j, g2));
        assert(upd.last() == gs.last());
        lemma_groups_mset_update(gs.drop_last(), j, g2, m);
        assert(groups_mset(gs.drop_last()).insert(m).add(gs.last().items@.to_multiset())
            =~= groups_mset(gs.drop_last()).add(gs.last().items@.to_multiset()).insert(m));
    }
}

fn opt_or_sentinel(o: &Option<String>, alt: &str) -> (r: String)
    ensures
        r@ == (match *o {
            Some(s) => s@,
            None => alt@,
        }),
{
    match o {
        Some(s) => s.clone(),
        None => String::from_str(alt),
    }
}

fn opt_or_empty(o: &Option<String>) -> (r: String)
    ensures
        r@ == (match *o {
            Some(s) => s@,
            None => Seq::<char>::empty(),
        }),
{
    match o {
        Some(s) => s.clone(),
        None => String::new(),
    }
}

/// Partitions records into acquisition groups keyed by study and series,
/// with missing identifiers replaced by the sentinels. Every group is
/// non-empty, its members all carry its key, no two groups share a key, and
/// together the groups hold exactly the input records. A sentinel-keyed
/// group may aggregate unrelated records that share the same absence; that
/// is a documented limitation, not corrected here.
pub fn group_records(records: &Vec<DicomMeta>) -> (gs: Vec<Group>)
    ensures
        groups_mset(gs@) == records@.to_multiset(),
        forall|g: int| 0 <= g < gs@.len() ==> (#[trigger] gs@[g]).items@.len() > 0,
        forall|g: int, i: int|
            0 <= g < gs@.len() && 0 <= i < gs@[g].items@.len() ==> spec_study_key(
                #[trigger] gs@[g].items@[i],
            ) == gs@[g].study@ && spec_series_key(gs@[g].items@[i]) == gs@[g].series@,
        forall|g1: int, g2: int|
            0 <= g1 < g2 < gs@.len() ==> !same_key_groups(#[trigger] gs@[g1], #[trigger] gs@[g2]),
{
    let mut gs: Vec<Group> = Vec::new();
    let mut idx: usize = 0;
    proof {
        assert(records@.take(0) =~= Seq::<DicomMeta>::empty());
        assert forall|m: DicomMeta| Seq::<DicomMeta>::empty().to_multiset().count(m) == 0 by {
            if Seq::<DicomMeta>::empty().to_multiset().count(m) > 0 {
                assert(Seq::<DicomMeta>::empty().contains(m));
            }
        }
        assert(records@.take(0).to_multiset() =~= Multiset::<DicomMeta>::empty());
    }
    while idx < records.len()
        invariant
            idx <= records@.len(),
            groups_mset(gs@) == records@.take(idx as int).to_multiset(),
            forall|g: int| 0 <= g < gs@.len() ==> (#[trigger] gs@[g]).items@.len() > 0,
            forall|g: int, i: int|
                0 <= g < gs@.len() && 0 <= i < gs@[g].items@.len() ==> spec_study_key(
                    #[trigger] gs@[g].items@[i],
                ) == gs@[g].study@ && spec_series_key(gs@[g].items@[i]) == gs@[g].series@,
            forall|g1: int, g2: int|
                0 <= g1 < g2 < gs@.len() ==> !same_key_groups(
                    #[trigger] gs@[g1],
                    #[trigger] gs@[g2],
                ),
        decreases records@.len() - idx,
    {
        let m = records[idx].duplicate();
        let study = opt_or_sentinel(&m.study_uid, "UNKNOWN_STUDY");
        let series = opt_or_sentinel(&m.series_uid, "UNKNOWN_SERIES");
        proof {
            assert(spec_study_key(m) == study@);
            assert(spec_series_key(m) == series@);
        }
        let mut gi: usize = 0;
        loop
            invariant
                gi <= gs@.len(),
                forall|k: int|
                    0 <= k < gi ==> !((#[trigger] gs@[k]).study@ == study@ && gs@[k].series@
                        == series@),
            ensures
                gi <= gs@.len(),
                forall|k: int|
                    0 <= k < gi ==> !((#[trigger] gs@[k]).study@ == study@ && gs@[k].series@
                        == series@),
                gi < gs@.len() ==> gs@[gi as int].study@ == study@ && gs@[gi as int].series@
                    == series@,
            decreases gs@.len() - gi,
        {
            if gi >= gs.len() {
                break;
            }
            if gs[gi].study == study && gs[gi].series == series {
                break;
            }
            gi = gi + 1;
        }
        let ghost gs_before = gs@;
        let ghost taken_before = records@.take(idx as int);
        if gi < gs.len() {
            let ghost items_before = gs@[gi as int].items@;
            gs[gi].items.push(m);
            proof {
                let g2 = gs@[gi as int];
                assert(g2.items@ == items_before.push(m));
                assert(gs@ == gs_before.update(gi as int, g2));
                lemma_groups_mset_update(gs_before, gi as int, g2, m);
            }
        } else {
            let mut items: Vec<DicomMeta> = Vec::new();
            items.push(m);
            let g = Group { study, series, items };
            gs.push(g);
            proof {
                assert(gs@.drop_last() =~= gs_before);
                assert(gs@.last().items@ =~= seq![m]);
                assert(seq![m] =~= Seq::<DicomMeta>::empty().push(m));
                assert forall|x: DicomMeta| Seq::<DicomMeta>::empty().to_multiset().count(x)
                    == 0 by {
                    if Seq::<DicomMeta>::empty().to_multiset().count(x) > 0 {
                        assert(Seq::<DicomMeta>::empty().contains(x));
                    }
                }
                assert(seq![m].to_multiset() =~= Multiset::<DicomMeta>::empty().insert(m));
                assert(groups_mset(gs@) =~= groups_mset(gs_before).insert(m));
            }
        }
        proof {
            assert(records@.take(idx + 1).drop_last() =~= taken_before);
            assert(records@.take(idx + 1) =~= taken_before.push(records@[idx as int]));
            assert(records@[idx as int] == m);
            assert(records@.take(idx + 1).to_multiset() =~= taken_before.to_multiset().insert(m));
            assert(groups_mset(gs@) =~= records@.take(idx + 1).to_multiset());
        }
        idx = idx + 1;
    }
    proof {
        assert(records@.take(records@.len() as int) =~= records@);
    }
    gs
}

/// The value of an optional field, or a sentinel when it is absent.
pub open spec fn opt_view(o: Option<String>, sentinel: Seq<char>) -> Seq<char> {
    match o {
        Some(s) => s@,
        None => sentinel,
    }
}

/// The value of an optional field, or the empty string when it is absent.
pub open spec fn opt_view_empty(o: Option<String>) -> Seq<char> {
    match o {
        Some(s) => s@,
        None => Seq::empty(),
    }
}

/// The decimal text of an optional number, or the empty string.
pub open spec fn opt_num_view(o: Option<i32>) -> Seq<char> {
    match o {
        Some(n) => spec_dec_int(n as int),
        None => Seq::empty(),
    }
}

/// The patient-level path component. Without PHI it is derived from the
/// patient identifier alone.
pub open spec fn spec_patient_comp(m: DicomMeta, include_phi: bool) -> Seq<char> {
    if include_phi {
        spec_sanitize(
            opt_view(m.patient_id, "UNKNOWN_PATIENT"@) + "_"@ + opt_view_empty(m.patient_name),
        )
    } else {
        spec_sanitize(opt_view(m.patient_id, "UNKNOWN_PATIENT"@))
    }
}

/// The study-level path component. Without PHI it is derived from the study
/// identifier alone.
pub open spec fn spec_study_comp(m: DicomMeta, include_phi: bool) -> Seq<char> {
    if include_phi {
        spec_sanitize(
            opt_view_empty(m.study_date) + "_"@ + opt_view_empty(m.study_description) + "_"@
                + opt_view(m.study_uid, "UNKNOWN_STUDY"@),
        )
    } else {
        spec_sanitize(opt_view(m.study_uid, "UNKNOWN_STUDY"@))
    }
}

/// The series-level path component. Without PHI it is derived from the
/// series identifier alone.
pub open spec fn spec_series_comp(m: DicomMeta, include_phi: bool) -> Seq<char> {
    if include_phi {
        spec_sanitize(
            opt_view_empty(m.modality) + "_"@ + opt_num_view(m.series_number) + "_"@
                + opt_view_empty(m.series_description) + "_"@ + opt_view(
                m.series_uid,
                "UNKNOWN_SERIES"@,
            ),
        )
    } else {
        spec_sanitize(opt_view(m.series_uid, "UNKNOWN_SERIES"@))
    }
}

/// The file name: the one-based order index zero-padded to five digits, the
/// sanitized SOP identifier, and the fixed extension.
pub open spec fn spec_file_comp(m: DicomMeta, idx: nat) -> Seq<char> {
    spec_pad5(spec_dec(idx + 1)) + "_"@ + spec_sanitize(opt_view(m.sop_uid, "UNKNOWN_SOP"@))
        + ".dcm"@
}

/// The full destination path of one record under a layout: the components
/// the layout selects, joined with `/` onto the output root.
pub open spec fn spec_build_dst(
    out_dir: Seq<char>,
    layout: Layout,
    include_phi: bool,
    m: DicomMeta,
    idx: nat,
) -> Seq<char> {
    match layout {
        Layout::PatientStudySeries => out_dir + "/"@ + spec_patient_comp(m, include_phi) + "/"@
            + spec_study_comp(m, include_phi) + "/"@ + spec_series_comp(m, include_phi) + "/"@
            + spec_file_comp(m, idx),
        Layout::StudySeries => out_dir + "/"@ + spec_study_comp(m, include_phi) + "/"@
            + spec_series_comp(m, include_phi) + "/"@ + spec_file_comp(m, idx),
        Layout::SeriesOnly => out_dir + "/"@ + spec_series_comp(m, include_phi) + "/"@
            + spec_file_comp(m, idx),
        Layout::Flat => out_dir + "/"@ + spec_file_comp(m, idx),
    }
}

/// Without PHI, no path component is derived from the patient name, the
/// descriptions, or the study date: two records that agree on the four
/// identifiers get the same destination, whatever those fields hold.
pub proof fn lemma_no_phi_in_path(
    a: DicomMeta,
    b: DicomMeta,
    out_dir: Seq<char>,
    layout: Layout,
    idx: nat,
)
    requires
        a.patient_id == b.patient_id,
        a.study_uid == b.study_uid,
        a.series_uid == b.series_uid,
        a.sop_uid == b.sop_uid,
    ensures
        spec_build_dst(out_dir, layout, false, a, idx) == spec_build_dst(
            out_dir,
            layout,
            false,
            b,
            idx,
        ),
{
}

/// Builds the destination path of one record: each component is sanitized
/// independently, PHI-bearing fields enter only when `include_phi` is set,
/// and the layout selects which components are joined onto the output root.
pub fn build_dst(
    out_dir: &str,
    layout: Layout,
    include_phi: bool,
    m: &DicomMeta,
    order_index: usize,
) -> (r: String)
    requires
        order_index < usize::MAX,
    ensures
        r@ == spec_build_dst(out_dir@, layout, include_phi, *m, order_index as nat),
{
    let patient: String = if include_phi {
        let mut raw = opt_or_sentinel(&m.patient_id, "UNKNOWN_PATIENT");
        raw.append("_");
        let name = opt_or_empty(&m.patient_name);
        raw.append(name.as_str());
        sanitize_component(raw.as_str())
    } else {
        let raw = opt_or_sentinel(&m.patient_id, "UNKNOWN_PATIENT");
        sanitize_component(raw.as_str())
    };
    let study: String = if include_phi {
        let mut raw = opt_or_empty(&m.study_date);
        raw.append("_");
        let desc = opt_or_empty(&m.study_description);
        raw.append(desc.as_str());
        raw.append("_");
        let uid = opt_or_sentinel(&m.study_uid, "UNKNOWN_STUDY");
        raw.append(uid.as_str());
        sanitize_component(raw.as_str())
    } else {
        let raw = opt_or_sentinel(&m.study_uid, "UNKNOWN_STUDY");
        sanitize_component(raw.as_str())
    };
    let series: String = if include_phi {
        let mut raw = opt_or_empty(&m.modality);
        raw.append("_");
        let sn: String = match m.series_number {
            Some(n) => dec_string_i32(n),
            None => String::new(),
        };
        raw.append(sn.as_str());
        raw.append("_");
        let desc = opt_or_empty(&m.series_description);
        raw.append(desc.as_str());
        raw.append("_");
        let uid = opt_or_sentinel(&m.series_uid, "UNKNOWN_SERIES");
        raw.append(uid.as_str());
        sanitize_component(raw.as_str())
    } else {
        let raw = opt_or_sentinel(&m.series_uid, "UNKNOWN_SERIES");
        sanitize_component(raw.as_str())
    };
    let mut file = padded5_string((order_index as u64) + 1);
    file.append("_");
    let sop = opt_or_sentinel(&m.sop_uid, "UNKNOWN_SOP");
    let ssop = sanitize_component(sop.as_str());
    file.append(ssop.as_str());
    file.append(".dcm");
    let mut dst = String::from_str(out_dir);
    match layout {
        Layout::PatientStudySeries => {
            dst.append("/");
            dst.append(patient.as_str());
            dst.append("/");
            dst.append(study.as_str());
            dst.append("/");
            dst.append(series.as_str());
            dst.append("/");
            dst.append(file.as_str());
        },
        Layout::StudySeries => {
            dst.append("/");
            dst.append(study.as_str());
            dst.append("/");
            dst.append(series.as_str());
            dst.append("/");
            dst.append(file.as_str());
        },
        Layout::SeriesOnly => {
            dst.append("/");
            dst.append(series.as_str());
            dst.append("/");
            dst.append(file.as_str());
        },
        Layout::Flat => {
            dst.append("/");
            dst.append(file.as_str());
        },
    }
    proof {
        assert(dst@ =~= spec_build_dst(out_dir@, layout, include_phi, *m, order_index as nat));
    }
    dst
}

/// One planned placement: the source path, the computed destination, and
/// the record it came from.
pub struct Plan {
    pub src: String,
    pub dst: String,
    pub meta: DicomMeta,
}

/// The records of a plan sequence, in plan order.
pub open spec fn plan_metas(ps: Seq<Plan>) -> Seq<DicomMeta> {
    Seq::new(ps.len(), |i: int| ps[i].meta)
}

/// How many earlier plan entries are siblings of `m` (same group key).
pub open spec fn earlier_siblings(ps: Seq<Plan>, m: DicomMeta) -> nat
    decreases ps.len(),
{
    if ps.len() == 0 {
        0
    } else {
        earlier_siblings(ps.drop_last(), m) + (if same_group(ps.last().meta, m) {
            1nat
        } else {
            0nat
        })
    }
}

proof fn lemma_siblings_concat(a: Seq<Plan>, b: Seq<Plan>, m: DicomMeta)
    ensures
        earlier_siblings(a + b, m) == earlier_siblings(a, m) + earlier_siblings(b, m),
    decreases b.len(),
{
    if b.len() == 0 {
        assert(a + b =~= a);
    } else {
        assert((a + b).drop_last() =~= a + b.drop_last());
        assert((a + b).last() == b.last());
        lemma_siblings_concat(a, b.drop_last(), m);
    }
}

proof fn lemma_siblings_zero(a: Seq<Plan>, m: DicomMeta)
    requires
        forall|k: int| 0 <= k < a.len() ==> !same_group((#[trigger] a[k]).meta, m),
    ensures
        earlier_siblings(a, m) == 0,
    decreases a.len(),
{
    if a.len() > 0 {
        lemma_siblings_zero(a.drop_last(), m);
    }
}

proof fn lemma_siblings_full(a: Seq<Plan>, m: DicomMeta)
    requires
        forall|k: int| 0 <= k < a.len() ==> same_group((#[trigger] a[k]).meta, m),
    ensures
        earlier_siblings(a, m) == a.len(),
    decreases a.len(),
{
    if a.len() > 0 {
        lemma_siblings_full(a.drop_last(), m);
    }
}

/// Plans the whole run: records are grouped, each group is ordered by the
/// decided signal, and each record is assigned the destination built from
/// its group key, its metadata and its zero-based position within the
/// group. The plan holds exactly the input records; each entry's source is
/// its record's path, and each entry's destination is the built path whose
/// order index counts that entry's earlier siblings in the plan.
#[verifier::rlimit(100)]
pub fn plan_operations(
    metas: &Vec<DicomMeta>,
    out_dir: &str,
    layout: Layout,
    sort_by: SortBy,
    include_phi: bool,
) -> (plans: Vec<Plan>)
    ensures
        plans@.len() == metas@.len(),
        plan_metas(plans@).to_multiset() == metas@.to_multiset(),
        forall|i: int| 0 <= i < plans@.len() ==> (#[trigger] plans@[i]).src@ == plans@[i].meta.path@,
        forall|i: int|
            0 <= i < plans@.len() ==> (#[trigger] plans@[i]).dst@ == spec_build_dst(
                out_dir@,
                layout,
                include_phi,
                plans@[i].meta,
                earlier_siblings(plans@.take(i), plans@[i].meta),
            ),
        forall|i: int, k: int, j: int|
            #![trigger same_group(plans@[i].meta, plans@[j].meta), same_group(plans@[i].meta, plans@[k].meta)]
            0 <= i < k < j < plans@.len() && same_group(plans@[i].meta, plans@[j].meta)
                ==> same_group(plans@[i].meta, plans@[k].meta),
        forall|i: int|
            #![trigger same_group(plans@[i].meta, plans@[i + 1].meta)]
            0 <= i < plans@.len() - 1 && same_group(plans@[i].meta, plans@[i + 1].meta)
                ==> spec_compare(
                plans@[i].meta,
                plans@[i + 1].meta,
                plans_use_geom(sort_by, plans@, plans@[i].meta),
            ) != Ordering::Greater,
{
    let mut gs = group_records(metas);
    let mut plans: Vec<Plan> = Vec::new();
    proof {
        assert(plan_metas(plans@) =~= Seq::<DicomMeta>::empty());
        assert forall|x: DicomMeta| Seq::<DicomMeta>::empty().to_multiset().count(x) == 0 by {
            if Seq::<DicomMeta>::empty().to_multiset().count(x) > 0 {
                assert(Seq::<DicomMeta>::empty().contains(x));
            }
        }
        assert(plan_metas(plans@).to_multiset().add(groups_mset(gs@)) =~= groups_mset(gs@));
    }
    while gs.len() > 0
        invariant
            plan_metas(plans@).to_multiset().add(groups_mset(gs@)) == metas@.to_multiset(),
            forall|i: int|
                0 <= i < plans@.len() ==> (#[trigger] plans@[i]).src@ == plans@[i].meta.path@,
            forall|i: int|
                0 <= i < plans@.len() ==> (#[trigger] plans@[i]).dst@ == spec_build_dst(
                    out_dir@,
                    layout,
                    include_phi,
                    plans@[i].meta,
                    earlier_siblings(plans@.take(i), plans@[i].meta),
                ),
            forall|k: int, g: int|
                0 <= k < plans@.len() && 0 <= g < gs@.len() ==> !plan_in_group(
                    #[trigger] plans@[k],
                    #[trigger] gs@[g],
                ),
            forall|g: int, i: int|
                0 <= g < gs@.len() && 0 <= i < gs@[g].items@.len() ==> spec_study_key(
                    #[trigger] gs@[g].items@[i],
                ) == gs@[g].study@ && spec_series_key(gs@[g].items@[i]) == gs@[g].series@,
            forall|g1: int, g2: int|
                0 <= g1 < g2 < gs@.len() ==> !same_key_groups(
                    #[trigger] gs@[g1],
                    #[trigger] gs@[g2],
                ),
            forall|i: int, k: int, j: int|
                #![trigger same_group(plans@[i].meta, plans@[j].meta), same_group(plans@[i].meta, plans@[k].meta)]
                0 <= i < k < j < plans@.len() && same_group(plans@[i].meta, plans@[j].meta)
                    ==> same_group(plans@[i].meta, plans@[k].meta),
            forall|i: int|
                #![trigger same_group(plans@[i].meta, plans@[i + 1].meta)]
                0 <= i < plans@.len() - 1 && same_group(plans@[i].meta, plans@[i + 1].meta)
                    ==> spec_compare(
                    plans@[i].meta,
                    plans@[i + 1].meta,
                    plans_use_geom(sort_by, plans@, plans@[i].meta),
                ) != Ordering::Greater,
        decreases gs@.len(),
    {
        let ghost gs_before = gs@;
        let g = gs.pop().unwrap();
        proof {
            assert(gs@ =~= gs_before.drop_last());
            assert(g == gs_before.last());
        }
        let Group { study, series, items } = g;
        let ghost items_view = items@;
        let sorted = order(items, sort_by);
        proof {
            // every sorted record carries the group's key
            assert forall|k: int| 0 <= k < sorted@.len() implies spec_study_key(
                #[trigger] sorted@[k],
            ) == study@ && spec_series_key(sorted@[k]) == series@ by {
                assert(sorted@.to_multiset().count(sorted@[k]) > 0);
                assert(items_view.to_multiset().count(sorted@[k]) > 0);
                assert(items_view.contains(sorted@[k]));
            }
        }
        let ghost base_plans = plans@;
        let ghost base = plans@.len();
        let mut t: usize = 0;
        while t < sorted.len()
            invariant
                t <= sorted@.len(),
                plans@.len() == base + t,
                base == base_plans.len(),
                plans@.take(base as int) == base_plans,
                forall|k: int|
                    base <= k < plans@.len() ==> (#[trigger] plans@[k]).meta == sorted@[k - base],
                forall|k: int|
                    0 <= k < base ==> !(spec_study_key((#[trigger] base_plans[k]).meta) == study@
                        && spec_series_key(base_plans[k].meta) == series@),
                forall|k: int|
                    0 <= k < sorted@.len() ==> spec_study_key(#[trigger] sorted@[k]) == study@
                        && spec_series_key(sorted@[k]) == series@,
                forall|i: int|
                    0 <= i < plans@.len() ==> (#[trigger] plans@[i]).src@ == plans@[i].meta.path@,
                forall|i: int|
                    0 <= i < plans@.len() ==> (#[trigger] plans@[i]).dst@ == spec_build_dst(
                        out_dir@,
                        layout,
                        include_phi,
                        plans@[i].meta,
                        earlier_siblings(plans@.take(i), plans@[i].meta),
                    ),
                forall|i: int, k: int, j: int|
                    #![trigger same_group(plans@[i].meta, plans@[j].meta), same_group(plans@[i].meta, plans@[k].meta)]
                    0 <= i < k < j < plans@.len() && same_group(plans@[i].meta, plans@[j].meta)
                        ==> same_group(plans@[i].meta, plans@[k].meta),
                forall|i: int|
                    #![trigger same_group(plans@[i].meta, plans@[i + 1].meta)]
                    0 <= i < base - 1 && same_group(plans@[i].meta, plans@[i + 1].meta)
                        ==> spec_compare(
                        plans@[i].meta,
                        plans@[i + 1].meta,
                        plans_use_geom(sort_by, plans@, plans@[i].meta),
                    ) != Ordering::Greater,
            decreases sorted@.len() - t,
        {
            let mm = sorted[t].duplicate();
            let src = mm.path.clone();
            let dst = build_dst(out_dir, layout, include_phi, &mm, t);
            let ghost plans_before = plans@;
            plans.push(Plan { src, dst, meta: mm });
            proof {
                let p = plans@.last();
                assert(plans@.drop_last() =~= plans_before);
                assert(plans@.take(base as int) =~= plans_before.take(base as int));
                // the new entry's order index is its count of earlier siblings
                let run = plans_before.skip(base as int);
                assert(plans_before =~= base_plans + run);
                lemma_siblings_concat(base_plans, run, mm);
                lemma_siblings_zero(base_plans, mm);
                assert forall|k: int| 0 <= k < run.len() implies same_group(
                    (#[trigger] run[k]).meta,
                    mm,
                ) by {
                    assert(run[k] == plans_before[base + k]);
                    assert(run[k].meta == sorted@[k]);
                }
                lemma_siblings_full(run, mm);
                assert(earlier_siblings(plans_before, mm) == t);
                assert(plans@.take(plans@.len() - 1) =~= plans_before);
                // earlier entries keep their clauses: their prefixes are unchanged
                assert forall|i: int| 0 <= i < plans_before.len() implies plans@.take(i)
                    =~= plans_before.take(i) by {}
                // the new entry is a sibling of the run alone
                assert forall|k2: int| 0 <= k2 < base implies !same_group(
                    (#[trigger] plans@[k2]).meta,
                    mm,
                ) by {
                    assert(plans@[k2] == plans@.take(base as int)[k2]);
                    assert(plans@[k2] == base_plans[k2]);
                }
                // siblings stay contiguous
                assert forall|i2: int, k2: int, j2: int|
                    0 <= i2 < k2 < j2 < plans@.len() && same_group(
                        plans@[i2].meta,
                        plans@[j2].meta,
                    ) implies same_group(plans@[i2].meta, plans@[k2].meta) by {
                    if j2 < plans@.len() - 1 {
                        assert(plans@[i2] == plans_before[i2]);
                        assert(plans@[k2] == plans_before[k2]);
                        assert(plans@[j2] == plans_before[j2]);
                    } else {
                        assert(plans@[j2].meta == mm);
                        if i2 < base {
                            assert(!same_group(plans@[i2].meta, mm));
                        } else {
                            assert(plans@[i2].meta == sorted@[i2 - base]);
                            assert(plans@[k2].meta == sorted@[k2 - base]);
                        }
                    }
                }
                // pairs of earlier groups keep their clause: their sibling
                // sets do not change
                assert forall|i2: int|
                    0 <= i2 < base - 1 && same_group(
                        plans@[i2].meta,
                        plans@[i2 + 1].meta,
                    ) implies spec_compare(
                    plans@[i2].meta,
                    plans@[i2 + 1].meta,
                    plans_use_geom(sort_by, plans@, plans@[i2].meta),
                ) != Ordering::Greater by {
                    assert(plans@[i2] == plans_before[i2]);
                    assert(plans@[i2 + 1] == plans_before[i2 + 1]);
                    let m0 = plans_before[i2].meta;
                    assert(same_group(plans_before[i2].meta, plans_before[i2 + 1].meta));
                    assert(!same_group(mm, m0)) by {
                        assert(plans@[i2] == plans@.take(base as int)[i2]);
                        assert(plans_before[i2] == base_plans[i2]);
                    }
                    if siblings_all_ranked(plans_before, m0) {
                        assert forall|k2: int|
                            0 <= k2 < plans@.len() && same_group(
                                (#[trigger] plans@[k2]).meta,
                                m0,
                            ) implies plans@[k2].meta.spec_has_geom() by {
                            if k2 < plans@.len() - 1 {
                                assert(plans@[k2] == plans_before[k2]);
                            } else {
                                assert(plans@[k2].meta == mm);
                            }
                        }
                        assert(siblings_all_ranked(plans@, m0));
                    }
                    if siblings_all_ranked(plans@, m0) {
                        assert forall|k2: int|
                            0 <= k2 < plans_before.len() && same_group(
                                (#[trigger] plans_before[k2]).meta,
                                m0,
                            ) implies plans_before[k2].meta.spec_has_geom() by {
                            assert(plans_before[k2] == plans@[k2]);
                        }
                        assert(siblings_all_ranked(plans_before, m0));
                    }
                    assert(plans_use_geom(sort_by, plans@, m0) == plans_use_geom(
                        sort_by,
                        plans_before,
                        m0,
                    ));
                }
            }
            t = t + 1;
        }
        proof {
            // the run's records are exactly the sorted group
            let run = plans@.skip(base as int);
            assert(plan_metas(plans@) =~= plan_metas(base_plans) + plan_metas(run));
            assert(plan_metas(run) =~= sorted@);
            vstd::seq_lib::lemma_multiset_commutative(plan_metas(base_plans), plan_metas(run));
            assert(plan_metas(plans@).to_multiset() =~= plan_metas(base_plans).to_multiset().add(
                sorted@.to_multiset(),
            ));
            assert(groups_mset(gs_before) == groups_mset(gs@).add(
                gs_before.last().items@.to_multiset(),
            ));
            assert(plan_metas(plans@).to_multiset().add(groups_mset(gs@))
                =~= metas@.to_multiset());
            // the finished group's key never reappears among the remaining groups
            assert forall|k: int, gg: int|
                0 <= k < plans@.len() && 0 <= gg < gs@.len() implies !plan_in_group(
                #[trigger] plans@[k],
                #[trigger] gs@[gg],
            ) by {
                assert(gs@[gg] == gs_before[gg]);
                if k >= base {
                    assert(plans@[k].meta == plans@.skip(base as int)[k - base].meta);
                    assert(spec_study_key(plans@[k].meta) == study@);
                    assert(spec_series_key(plans@[k].meta) == series@);
                    assert(gs_before.last().study@ == study@);
                    assert(gs_before.last().series@ == series@);
                    assert(!same_key_groups(gs_before[gg], gs_before.last()));
                } else {
                    assert(plans@[k] == plans@.take(base as int)[k]);
                    assert(plans@[k] == base_plans[k]);
                    assert(!plan_in_group(base_plans[k], gs_before[gg]));
                }
            }
            // the run was sorted by the signal the finished plan shows
            let ug = spec_use_geom(sort_by, items_view);
            assert forall|i: int| base <= i < plans@.len() implies plans_use_geom(
                sort_by,
                plans@,
                (#[trigger] plans@[i]).meta,
            ) == ug by {
                let m0 = plans@[i].meta;
                assert(m0 == plans@.skip(base as int)[i - base].meta);
                assert(spec_study_key(m0) == study@ && spec_series_key(m0) == series@);
                match sort_by {
                    SortBy::Geometry => {},
                    SortBy::Instance => {},
                    SortBy::Auto => {
                        if siblings_all_ranked(plans@, m0) {
                            assert forall|j: int| 0 <= j < items_view.len() implies (
                            #[trigger] items_view[j]).spec_has_geom() by {
                                assert(items_view.contains(items_view[j]));
                                assert(items_view.to_multiset().count(items_view[j]) > 0);
                                assert(sorted@.to_multiset().count(items_view[j]) > 0);
                                assert(sorted@.contains(items_view[j]));
                                let k2 = choose|k2: int|
                                    0 <= k2 < sorted@.len() && sorted@[k2] == items_view[j];
                                assert(plans@[base + k2].meta == sorted@[k2]);
                                assert(same_group(plans@[base + k2].meta, m0));
                            }
                            assert(spec_use_geom(SortBy::Auto, items_view));
                        }
                        if spec_use_geom(SortBy::Auto, items_view) {
                            assert forall|k2: int|
                                0 <= k2 < plans@.len() && same_group(
                                    (#[trigger] plans@[k2]).meta,
                                    m0,
                                ) implies plans@[k2].meta.spec_has_geom() by {
                                if k2 < base {
                                    assert(plans@[k2] == plans@.take(base as int)[k2]);
                                    assert(plans@[k2] == base_plans[k2]);
                                    assert(false);
                                } else {
                                    assert(plans@[k2].meta == sorted@[k2 - base]);
                                    assert(sorted@.to_multiset().count(sorted@[k2 - base]) > 0);
                                    assert(items_view.to_multiset().count(sorted@[k2 - base]) > 0);
                                    assert(items_view.contains(sorted@[k2 - base]));
                                }
                            }
                            assert(siblings_all_ranked(plans@, m0));
                        }
                    },
                }
            }
            // adjacent siblings are in order under that signal
            assert forall|i: int|
                0 <= i < plans@.len() - 1 && same_group(
                    plans@[i].meta,
                    plans@[i + 1].meta,
                ) implies spec_compare(
                plans@[i].meta,
                plans@[i + 1].meta,
                plans_use_geom(sort_by, plans@, plans@[i].meta),
            ) != Ordering::Greater by {
                if i + 1 < base {
                } else if i >= base {
                    assert(plans@[i].meta == sorted@[i - base]);
                    assert(plans@[i + 1].meta == sorted@[i - base + 1]);
                    assert(spec_compare(sorted@[i - base], sorted@[(i - base) + 1], ug)
                        != Ordering::Greater);
                    assert(plans_use_geom(sort_by, plans@, plans@[i].meta) == ug);
                } else {
                    assert(plans@[i] == plans@.take(base as int)[i]);
                    assert(plans@[i] == base_plans[i]);
                    assert(plans@[i + 1].meta == sorted@[0]);
                    assert(spec_study_key(plans@[i + 1].meta) == study@);
                    assert(!same_group(plans@[i].meta, plans@[i + 1].meta));
                }
            }
        }
    }
    proof {
        assert(gs@ =~= Seq::<Group>::empty());
        assert(groups_mset(gs@) =~= Multiset::<DicomMeta>::empty());
        assert(plan_metas(plans@).to_multiset() =~= metas@.to_multiset());
        assert(plan_metas(plans@).to_multiset().len() == metas@.to_multiset().len());
        assert(plan_metas(plans@).len() == plans@.len());
    }
    plans
}

} // verus!
