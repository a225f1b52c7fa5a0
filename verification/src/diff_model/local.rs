//! The Local Diff Model: the set of entities this peer is authoritative
//! for, and the incremental diff batches broadcast to interested peers.
//!
//! Invariant: an entity is tracked here if and only if this peer currently
//! holds authority over it; a `Gid`, a `Lid` and a host entity handle each
//! belong to at most one record.

use vstd::prelude::*;
use crate::types::{DesError, Gid, Lid};
use crate::messages::{entries_view, EntityEntry, EntityEntryV, FullEntityData};
use crate::host::{cmds_view, samples_view, EntitySample, EntitySampleV, HostCommand, HostCommandV};

verus! {

/// Abstract value of one tracked-entity record.
pub struct TrackedRecordV {
    pub lid: u32,
    pub gid: u64,
    /// The host entity handle; `None` while a record gained through an
    /// authority grant awaits local materialization.
    pub entity: Option<u32>,
    /// The latest sampled snapshot.
    pub current: Seq<u8>,
    /// The baseline the last emitted diff was computed against.
    pub last_sent: Seq<u8>,
    /// Whether receivers of this peer's diffs can be assumed to hold a
    /// baseline for this record.
    pub baseline_valid: bool,
}

/// One tracked-entity record.
#[derive(Clone, PartialEq, Debug)]
pub struct TrackedRecord {
    pub lid: Lid,
    pub gid: Gid,
    pub entity: Option<u32>,
    pub current: Vec<u8>,
    pub last_sent: Vec<u8>,
    pub baseline_valid: bool,
}

impl View for TrackedRecord {
    type V = TrackedRecordV;

    open spec fn view(&self) -> TrackedRecordV {
        TrackedRecordV {
            lid: self.lid.0,
            gid: self.gid.0,
            entity: self.entity,
            current: self.current@,
            last_sent: self.last_sent@,
            baseline_valid: self.baseline_valid,
        }
    }
}

/// The abstract values of a record table.
pub open spec fn recs_view(s: Seq<TrackedRecord>) -> Seq<TrackedRecordV> {
    s.map_values(|r: TrackedRecord| r@)
}

/// The abstract values of a lid queue.
pub open spec fn lids_view(s: Seq<Lid>) -> Seq<u32> {
    s.map_values(|l: Lid| l.0)
}

pub open spec fn lids_unique(s: Seq<TrackedRecordV>) -> bool {
    forall|i: int, j: int| 0 <= i < j < s.len() ==> s[i].lid != s[j].lid
}

pub open spec fn gids_unique(s: Seq<TrackedRecordV>) -> bool {
    forall|i: int, j: int| 0 <= i < j < s.len() ==> s[i].gid != s[j].gid
}

pub open spec fn entities_unique(s: Seq<TrackedRecordV>) -> bool {
    forall|i: int, j: int|
        0 <= i < j < s.len() && s[i].entity is Some && s[j].entity is Some ==> s[i].entity
            != s[j].entity
}

pub open spec fn has_lid(s: Seq<TrackedRecordV>, l: u32) -> bool {
    exists|i: int| 0 <= i < s.len() && #[trigger] s[i].lid == l
}

pub open spec fn lid_idx(s: Seq<TrackedRecordV>, l: u32) -> int {
    choose|i: int| 0 <= i < s.len() && #[trigger] s[i].lid == l
}

pub open spec fn lid_rec(s: Seq<TrackedRecordV>, l: u32) -> TrackedRecordV {
    s[lid_idx(s, l)]
}

pub open spec fn has_gid(s: Seq<TrackedRecordV>, g: u64) -> bool {
    exists|i: int| 0 <= i < s.len() && #[trigger] s[i].gid == g
}

pub open spec fn gid_idx(s: Seq<TrackedRecordV>, g: u64) -> int {
    choose|i: int| 0 <= i < s.len() && #[trigger] s[i].gid == g
}

pub open spec fn gid_rec(s: Seq<TrackedRecordV>, g: u64) -> TrackedRecordV {
    s[gid_idx(s, g)]
}

pub open spec fn has_entity(s: Seq<TrackedRecordV>, e: u32) -> bool {
    exists|i: int| 0 <= i < s.len() && #[trigger] s[i].entity == Some(e)
}

pub open spec fn entity_idx(s: Seq<TrackedRecordV>, e: u32) -> int {
    choose|i: int| 0 <= i < s.len() && #[trigger] s[i].entity == Some(e)
}

/// With unique lids, an index holding `l` is the index `lid_idx` picks.
pub proof fn lemma_lid_idx(s: Seq<TrackedRecordV>, l: u32, k: int)
    requires
        lids_unique(s),
        0 <= k < s.len(),
        s[k].lid == l,
    ensures
        has_lid(s, l),
        lid_idx(s, l) == k,
        lid_rec(s, l) == s[k],
{
    assert(has_lid(s, l));
    let m = lid_idx(s, l);
    if m < k {
        assert(s[m].lid != s[k].lid);
    } else if k < m {
        assert(s[k].lid != s[m].lid);
    }
}

/// With unique gids, an index holding `g` is the index `gid_idx` picks.
pub proof fn lemma_gid_idx(s: Seq<TrackedRecordV>, g: u64, k: int)
    requires
        gids_unique(s),
        0 <= k < s.len(),
        s[k].gid == g,
    ensures
        has_gid(s, g),
        gid_idx(s, g) == k,
        gid_rec(s, g) == s[k],
{
    assert(has_gid(s, g));
    let m = gid_idx(s, g);
    if m < k {
        assert(s[m].gid != s[k].gid);
    } else if k < m {
        assert(s[k].gid != s[m].gid);
    }
}

/// How appending one record changes the lookup predicates, and when it
/// keeps the uniqueness invariants.
pub proof fn lemma_recs_push(s: Seq<TrackedRecordV>, r: TrackedRecordV)
    ensures
        forall|l: u32| has_lid(s.push(r), l) == (has_lid(s, l) || r.lid == l),
        forall|g: u64| has_gid(s.push(r), g) == (has_gid(s, g) || r.gid == g),
        forall|e: u32| has_entity(s.push(r), e) == (has_entity(s, e) || r.entity == Some(e)),
        (lids_unique(s) && !has_lid(s, r.lid)) ==> lids_unique(s.push(r)),
        (gids_unique(s) && !has_gid(s, r.gid)) ==> gids_unique(s.push(r)),
        (entities_unique(s) && (forall|e: u32| r.entity == Some(e) ==> !has_entity(s, e)))
            ==> entities_unique(s.push(r)),
{
    let t = s.push(r);
    assert(forall|k: int| 0 <= k < s.len() ==> #[trigger] t[k] == s[k]);
    assert(t[t.len() - 1] == r);
    assert forall|l: u32| has_lid(t, l) == (has_lid(s, l) || r.lid == l) by {
        if has_lid(t, l) {
            let k = lid_idx(t, l);
            assert(t[k].lid == l);
            if k < s.len() {
                assert(s[k].lid == l);
            }
        }
        if has_lid(s, l) {
            let k = lid_idx(s, l);
            assert(t[k].lid == l);
        }
        if r.lid == l {
            assert(t[t.len() - 1].lid == l);
        }
    }
    assert forall|g: u64| has_gid(t, g) == (has_gid(s, g) || r.gid == g) by {
        if has_gid(t, g) {
            let k = gid_idx(t, g);
            assert(t[k].gid == g);
            if k < s.len() {
                assert(s[k].gid == g);
            }
        }
        if has_gid(s, g) {
            let k = gid_idx(s, g);
            assert(t[k].gid == g);
        }
        if r.gid == g {
            assert(t[t.len() - 1].gid == g);
        }
    }
    assert forall|e: u32| has_entity(t, e) == (has_entity(s, e) || r.entity == Some(e)) by {
        if has_entity(t, e) {
            let k = entity_idx(t, e);
            assert(t[k].entity == Some(e));
            if k < s.len() {
                assert(s[k].entity == Some(e));
            }
        }
        if has_entity(s, e) {
            let k = entity_idx(s, e);
            assert(t[k].entity == Some(e));
        }
        if r.entity == Some(e) {
            assert(t[t.len() - 1].entity == Some(e));
        }
    }
    if lids_unique(s) && !has_lid(s, r.lid) {
        assert forall|i: int, j: int| 0 <= i < j < t.len() implies t[i].lid != t[j].lid by {
            if j == t.len() - 1 {
                assert(t[i] == s[i]);
                assert(has_lid(s, s[i].lid));
            }
        }
    }
    if gids_unique(s) && !has_gid(s, r.gid) {
        assert forall|i: int, j: int| 0 <= i < j < t.len() implies t[i].gid != t[j].gid by {
            if j == t.len() - 1 {
                assert(t[i] == s[i]);
                assert(has_gid(s, s[i].gid));
            }
        }
    }
    if entities_unique(s) && (forall|e: u32| r.entity == Some(e) ==> !has_entity(s, e)) {
        assert forall|i: int, j: int|
            0 <= i < j < t.len() && t[i].entity is Some && t[j].entity is Some implies t[i].entity
            != t[j].entity by {
            if j == t.len() - 1 {
                assert(t[i] == s[i]);
                let e = s[i].entity.unwrap();
                assert(has_entity(s, e));
                if r.entity == Some(e) {
                    assert(false);
                }
            }
        }
    }
}

/// No live record carries a lid at or above `next_lid`, so a fresh lid is
/// unused.
pub proof fn lemma_fresh_lid(s: Seq<TrackedRecordV>, next: u32)
    requires
        forall|i: int| 0 <= i < s.len() ==> (#[trigger] s[i]).lid < next,
    ensures
        !has_lid(s, next),
{
    if has_lid(s, next) {
        let k = lid_idx(s, next);
        assert(s[k].lid == next);
    }
}

/// The first sample that speaks of host entity `e`, scanning from the
/// front.
pub open spec fn first_sample(smp: Seq<EntitySampleV>, e: u32) -> Option<EntitySampleV>
    decreases smp.len(),
{
    if smp.len() == 0 {
        None
    } else if smp.first().entity == e {
        Some(smp.first())
    } else {
        first_sample(smp.drop_first(), e)
    }
}

/// How a sampling pass rewrites one record: a record without a host entity
/// or without a sample is kept; a live sample refreshes the snapshot; a
/// dead sample ends the record.
pub open spec fn record_after_sample(r: TrackedRecordV, smp: Seq<EntitySampleV>) -> Option<
    TrackedRecordV,
> {
    match r.entity {
        Option::None => Some(r),
        Option::Some(e) => match first_sample(smp, e) {
            Option::None => Some(r),
            Option::Some(sm) => if sm.alive {
                Some(TrackedRecordV { current: sm.data, ..r })
            } else {
                Option::None
            },
        },
    }
}

/// The records surviving a sampling pass, in order.
pub open spec fn updated_recs(s: Seq<TrackedRecordV>, smp: Seq<EntitySampleV>) -> Seq<
    TrackedRecordV,
>
    decreases s.len(),
{
    if s.len() == 0 {
        Seq::empty()
    } else {
        let rest = updated_recs(s.drop_last(), smp);
        match record_after_sample(s.last(), smp) {
            Option::Some(r) => rest.push(r),
            Option::None => rest,
        }
    }
}

/// The lids of the records a sampling pass ends, in order.
pub open spec fn newly_removed(s: Seq<TrackedRecordV>, smp: Seq<EntitySampleV>) -> Seq<u32>
    decreases s.len(),
{
    if s.len() == 0 {
        Seq::empty()
    } else {
        let rest = newly_removed(s.drop_last(), smp);
        match record_after_sample(s.last(), smp) {
            Option::Some(_) => rest,
            Option::None => rest.push(s.last().lid),
        }
    }
}

/// A sampling pass keeps each record's identity, keeps unique keys unique,
/// and ends exactly the records whose lids it reports.
pub proof fn lemma_sampling_pass(s: Seq<TrackedRecordV>, smp: Seq<EntitySampleV>)
    ensures
        forall|k: int|
            0 <= k < updated_recs(s, smp).len() ==> exists|m: int|
                0 <= m < s.len() && #[trigger] updated_recs(s, smp)[k]
                    == record_after_sample(s[m], smp).unwrap() && record_after_sample(s[m], smp)
                    is Some && updated_recs(s, smp)[k].lid == s[m].lid && updated_recs(s, smp)[k].gid
                    == s[m].gid && updated_recs(s, smp)[k].entity == s[m].entity,
        forall|l: u32| has_lid(updated_recs(s, smp), l) ==> has_lid(s, l),
        forall|g: u64| has_gid(updated_recs(s, smp), g) ==> has_gid(s, g),
        forall|e: u32| has_entity(updated_recs(s, smp), e) ==> has_entity(s, e),
        lids_unique(s) ==> lids_unique(updated_recs(s, smp)),
        gids_unique(s) ==> gids_unique(updated_recs(s, smp)),
        entities_unique(s) ==> entities_unique(updated_recs(s, smp)),
        forall|k: int|
            0 <= k < newly_removed(s, smp).len() ==> has_lid(s, #[trigger] newly_removed(s, smp)[k]),
        lids_unique(s) ==> forall|i: int, j: int|
            0 <= i < j < newly_removed(s, smp).len() ==> newly_removed(s, smp)[i] != newly_removed(
                s,
                smp,
            )[j],
        lids_unique(s) ==> forall|k: int|
            0 <= k < newly_removed(s, smp).len() ==> !has_lid(
                updated_recs(s, smp),
                #[trigger] newly_removed(s, smp)[k],
            ),
    decreases s.len(),
{
    if s.len() == 0 {
    } else {
        let s0 = s.drop_last();
        let e = s.last();
        lemma_sampling_pass(s0, smp);
        assert(forall|m: int| 0 <= m < s0.len() ==> s0[m] == s[m]);
        let up = updated_recs(s, smp);
        let up0 = updated_recs(s0, smp);
        let rm = newly_removed(s, smp);
        let rm0 = newly_removed(s0, smp);
        assert forall|k: int|
            0 <= k < up.len() implies exists|m: int|
            0 <= m < s.len() && #[trigger] up[k] == record_after_sample(s[m], smp).unwrap()
                && record_after_sample(s[m], smp) is Some && up[k].lid == s[m].lid && up[k].gid
                == s[m].gid && up[k].entity == s[m].entity by {
            match record_after_sample(e, smp) {
                Option::Some(r) => {
                    if k < up.len() - 1 {
                        assert(up[k] == up0[k]);
                        let m = choose|m: int|
                            0 <= m < s0.len() && #[trigger] up0[k] == record_after_sample(
                                s0[m],
                                smp,
                            ).unwrap() && record_after_sample(s0[m], smp) is Some && up0[k].lid
                                == s0[m].lid && up0[k].gid == s0[m].gid && up0[k].entity
                                == s0[m].entity;
                        assert(s[m] == s0[m]);
                    } else {
                        assert(up[k] == r);
                        assert(record_after_sample(s[s.len() - 1], smp) == Some(r));
                        match e.entity {
                            Option::None => {}
                            Option::Some(_) => {}
                        }
                        assert(r.lid == e.lid && r.gid == e.gid && r.entity == e.entity);
                    }
                }
                Option::None => {
                    assert(up[k] == up0[k]);
                    let m = choose|m: int|
                        0 <= m < s0.len() && #[trigger] up0[k] == record_after_sample(
                            s0[m],
                            smp,
                        ).unwrap() && record_after_sample(s0[m], smp) is Some && up0[k].lid
                            == s0[m].lid && up0[k].gid == s0[m].gid && up0[k].entity
                            == s0[m].entity;
                    assert(s[m] == s0[m]);
                }
            }
        }
        assert forall|l: u32| has_lid(up, l) implies has_lid(s, l) by {
            let k = lid_idx(up, l);
            assert(up[k].lid == l);
            let m = choose|m: int|
                0 <= m < s.len() && #[trigger] up[k] == record_after_sample(s[m], smp).unwrap()
                    && record_after_sample(s[m], smp) is Some && up[k].lid == s[m].lid && up[k].gid
                    == s[m].gid && up[k].entity == s[m].entity;
            assert(s[m].lid == l);
        }
        assert forall|g: u64| has_gid(up, g) implies has_gid(s, g) by {
            let k = gid_idx(up, g);
            assert(up[k].gid == g);
            let m = choose|m: int|
                0 <= m < s.len() && #[trigger] up[k] == record_after_sample(s[m], smp).unwrap()
                    && record_after_sample(s[m], smp) is Some && up[k].lid == s[m].lid && up[k].gid
                    == s[m].gid && up[k].entity == s[m].entity;
            assert(s[m].gid == g);
        }
        assert forall|x: u32| has_entity(up, x) implies has_entity(s, x) by {
            let k = entity_idx(up, x);
            assert(up[k].entity == Some(x));
            let m = choose|m: int|
                0 <= m < s.len() && #[trigger] up[k] == record_after_sample(s[m], smp).unwrap()
                    && record_after_sample(s[m], smp) is Some && up[k].lid == s[m].lid && up[k].gid
                    == s[m].gid && up[k].entity == s[m].entity;
            assert(s[m].entity == Some(x));
        }
        if lids_unique(s) {
            assert(lids_unique(s0));
            assert forall|i: int, j: int| 0 <= i < j < up.len() implies up[i].lid != up[j].lid by {
                match record_after_sample(e, smp) {
                    Option::Some(r) => {
                        if j == up.len() - 1 {
                            assert(up[i] == up0[i]);
                            assert(has_lid(up0, up0[i].lid));
                            assert(has_lid(s0, up0[i].lid));
                            let m = lid_idx(s0, up0[i].lid);
                            assert(s[m].lid == up0[i].lid);
                            assert(m < s.len() - 1);
                            assert(s[m].lid != e.lid);
                            assert(up[j].lid == e.lid);
                        } else {
                            assert(up[i] == up0[i] && up[j] == up0[j]);
                        }
                    }
                    Option::None => {
                        assert(up[i] == up0[i] && up[j] == up0[j]);
                    }
                }
            }
        }
        if gids_unique(s) {
            assert(gids_unique(s0));
            assert forall|i: int, j: int| 0 <= i < j < up.len() implies up[i].gid != up[j].gid by {
                match record_after_sample(e, smp) {
                    Option::Some(r) => {
                        if j == up.len() - 1 {
                            assert(up[i] == up0[i]);
                            assert(has_gid(up0, up0[i].gid));
                            assert(has_gid(s0, up0[i].gid));
                            let m = gid_idx(s0, up0[i].gid);
                            assert(s[m].gid == up0[i].gid);
                            assert(m < s.len() - 1);
                            assert(s[m].gid != e.gid);
                            assert(up[j].gid == e.gid);
                        } else {
                            assert(up[i] == up0[i] && up[j] == up0[j]);
                        }
                    }
                    Option::None => {
                        assert(up[i] == up0[i] && up[j] == up0[j]);
                    }
                }
            }
        }
        if entities_unique(s) {
            assert(entities_unique(s0));
            assert forall|i: int, j: int|
                0 <= i < j < up.len() && up[i].entity is Some && up[j].entity is Some implies up[i].entity
                != up[j].entity by {
                match record_after_sample(e, smp) {
                    Option::Some(r) => {
                        if j == up.len() - 1 {
                            assert(up[i] == up0[i]);
                            let x = up0[i].entity.unwrap();
                            assert(has_entity(up0, x));
                            assert(has_entity(s0, x));
                            let m = entity_idx(s0, x);
                            assert(s[m].entity == Some(x));
                            assert(m < s.len() - 1);
                            assert(s[m].entity != e.entity || !(e.entity is Some));
                            assert(up[j].entity == e.entity);
                        } else {
                            assert(up[i] == up0[i] && up[j] == up0[j]);
                        }
                    }
                    Option::None => {
                        assert(up[i] == up0[i] && up[j] == up0[j]);
                    }
                }
            }
        }
        assert forall|k: int| 0 <= k < rm.len() implies has_lid(s, #[trigger] rm[k]) by {
            match record_after_sample(e, smp) {
                Option::Some(_) => {
                    assert(rm[k] == rm0[k]);
                    assert(has_lid(s0, rm0[k]));
                    let m = lid_idx(s0, rm0[k]);
                    assert(s[m].lid == rm[k]);
                }
                Option::None => {
                    if k < rm.len() - 1 {
                        assert(rm[k] == rm0[k]);
                        assert(has_lid(s0, rm0[k]));
                        let m = lid_idx(s0, rm0[k]);
                        assert(s[m].lid == rm[k]);
                    } else {
                        assert(rm[k] == e.lid);
                        assert(s[s.len() - 1].lid == e.lid);
                    }
                }
            }
        }
        if lids_unique(s) {
            assert forall|i: int, j: int| 0 <= i < j < rm.len() implies rm[i] != rm[j] by {
                match record_after_sample(e, smp) {
                    Option::Some(_) => {}
                    Option::None => {
                        if j == rm.len() - 1 {
                            assert(rm[i] == rm0[i]);
                            assert(has_lid(s0, rm0[i]));
                            let m = lid_idx(s0, rm0[i]);
                            assert(s[m].lid == rm[i]);
                            assert(m < s.len() - 1);
                            assert(s[m].lid != e.lid);
                        } else {
                            assert(rm[i] == rm0[i] && rm[j] == rm0[j]);
                        }
                    }
                }
            }
            assert forall|k: int|
                0 <= k < rm.len() implies !has_lid(up, #[trigger] rm[k]) by {
                if has_lid(up, rm[k]) {
                    let a = lid_idx(up, rm[k]);
                    assert(up[a].lid == rm[k]);
                    let m = choose|m: int|
                        0 <= m < s.len() && #[trigger] up[a] == record_after_sample(
                            s[m],
                            smp,
                        ).unwrap() && record_after_sample(s[m], smp) is Some && up[a].lid
                            == s[m].lid && up[a].gid == s[m].gid && up[a].entity == s[m].entity;
                    // the record with this lid survived, but the same lid was removed
                    if record_after_sample(e, smp) is None && k == rm.len() - 1 {
                        assert(s[m].lid == e.lid);
                        assert(m == s.len() - 1) by {
                            if m < s.len() - 1 {
                                assert(s[m].lid != s[s.len() - 1].lid);
                            }
                        }
                        assert(record_after_sample(s[m], smp) is None);
                        assert(false);
                    } else {
                        assert(rm[k] == rm0[k]);
                        assert(!has_lid(up0, rm0[k]));
                        // up[a] is also in up0
                        match record_after_sample(e, smp) {
                            Option::Some(r) => {
                                if a == up.len() - 1 {
                                    assert(up[a].lid == e.lid);
                                    assert(has_lid(s0, rm0[k]));
                                    let m2 = lid_idx(s0, rm0[k]);
                                    assert(s[m2].lid == e.lid);
                                    assert(m2 < s.len() - 1);
                                    assert(s[m2].lid != s[s.len() - 1].lid);
                                    assert(false);
                                } else {
                                    assert(up[a] == up0[a]);
                                    lemma_lid_idx_remote_free(up0, rm0[k], a);
                                    assert(false);
                                }
                            }
                            Option::None => {
                                assert(up[a] == up0[a]);
                                lemma_lid_idx_remote_free(up0, rm0[k], a);
                                assert(false);
                            }
                        }
                    }
                }
            }
        }
    }
}

/// An index holding lid `l` witnesses `has_lid` (no uniqueness needed).
pub proof fn lemma_lid_idx_remote_free(s: Seq<TrackedRecordV>, l: u32, k: int)
    requires
        0 <= k < s.len(),
        s[k].lid == l,
    ensures
        has_lid(s, l),
{
    assert(has_lid(s, l));
}

/// The diff entry one record contributes: a full snapshot where no
/// receiver-side baseline can be assumed, an incremental delta where the
/// snapshot changed since the last one sent, nothing otherwise.
pub open spec fn entry_for(r: TrackedRecordV) -> Option<EntityEntryV> {
    if !r.baseline_valid {
        Some(EntityEntryV::Full { lid: r.lid, gid: r.gid, data: r.current })
    } else if r.current != r.last_sent {
        Some(EntityEntryV::Delta { lid: r.lid, data: r.current })
    } else {
        Option::None
    }
}

/// The per-record entries of a diff batch, in record order.
pub open spec fn diff_entries(s: Seq<TrackedRecordV>) -> Seq<EntityEntryV>
    decreases s.len(),
{
    if s.len() == 0 {
        Seq::empty()
    } else {
        let rest = diff_entries(s.drop_last());
        match entry_for(s.last()) {
            Option::Some(e) => rest.push(e),
            Option::None => rest,
        }
    }
}

/// The removal entries of a diff batch, in queue order.
pub open spec fn removal_entries(l: Seq<u32>) -> Seq<EntityEntryV> {
    l.map_values(|x: u32| EntityEntryV::Removed { lid: x })
}

/// A record after a diff batch was emitted: the snapshot just sent becomes
/// the baseline, and receivers are assumed to hold it.
pub open spec fn record_after_diff(r: TrackedRecordV) -> TrackedRecordV {
    TrackedRecordV { baseline_valid: true, last_sent: r.current, ..r }
}

/// Every per-record diff entry carries the lid of the record it came from.
pub proof fn lemma_diff_entries_lids(s: Seq<TrackedRecordV>)
    ensures
        forall|k: int|
            0 <= k < diff_entries(s).len() ==> exists|m: int|
                0 <= m < s.len() && (#[trigger] diff_entries(s)[k]).lid() == s[m].lid,
        lids_unique(s) ==> forall|i: int, j: int|
            0 <= i < j < diff_entries(s).len() ==> diff_entries(s)[i].lid() != diff_entries(
                s,
            )[j].lid(),
    decreases s.len(),
{
    if s.len() == 0 {
    } else {
        let s0 = s.drop_last();
        lemma_diff_entries_lids(s0);
        assert(forall|m: int| 0 <= m < s0.len() ==> s0[m] == s[m]);
        let d = diff_entries(s);
        let d0 = diff_entries(s0);
        assert forall|k: int|
            0 <= k < d.len() implies exists|m: int|
            0 <= m < s.len() && (#[trigger] d[k]).lid() == s[m].lid by {
            match entry_for(s.last()) {
                Option::Some(e) => {
                    if k < d.len() - 1 {
                        assert(d[k] == d0[k]);
                        let m = choose|m: int| 0 <= m < s0.len() && d0[k].lid() == s0[m].lid;
                        assert(d[k].lid() == s[m].lid);
                    } else {
                        assert(d[k] == e);
                        assert(e.lid() == s[s.len() - 1].lid);
                    }
                }
                Option::None => {
                    assert(d[k] == d0[k]);
                    let m = choose|m: int| 0 <= m < s0.len() && d0[k].lid() == s0[m].lid;
                    assert(d[k].lid() == s[m].lid);
                }
            }
        }
        if lids_unique(s) {
            assert(lids_unique(s0));
            assert forall|i: int, j: int|
                0 <= i < j < d.len() implies d[i].lid() != d[j].lid() by {
                match entry_for(s.last()) {
                    Option::Some(e) => {
                        if j == d.len() - 1 {
                            assert(d[i] == d0[i]);
                            let m = choose|m: int| 0 <= m < s0.len() && d0[i].lid() == s0[m].lid;
                            assert(s[m].lid != s[s.len() - 1].lid);
                            assert(d[j].lid() == s[s.len() - 1].lid);
                        } else {
                            assert(d[i] == d0[i] && d[j] == d0[j]);
                        }
                    }
                    Option::None => {
                        assert(d[i] == d0[i] && d[j] == d0[j]);
                    }
                }
            }
        }
    }
}

/// A diff built while no record assumes a receiver-side baseline consists
/// of full snapshots only — never an incremental delta. This is what makes
/// a forced re-baseline safe for a peer that just became interested.
pub proof fn lemma_fresh_baseline_diff_is_full(s: Seq<TrackedRecordV>)
    requires
        forall|i: int| 0 <= i < s.len() ==> !(#[trigger] s[i]).baseline_valid,
    ensures
        forall|k: int| 0 <= k < diff_entries(s).len() ==> (#[trigger] diff_entries(s)[k]) is Full,
    decreases s.len(),
{
    if s.len() == 0 {
    } else {
        let s0 = s.drop_last();
        assert(forall|m: int| 0 <= m < s0.len() ==> s0[m] == s[m]);
        lemma_fresh_baseline_diff_is_full(s0);
        assert(s[s.len() - 1] == s.last());
        assert(!s.last().baseline_valid);
    }
}

/// Compares two byte strings.
pub fn bytes_eq(a: &Vec<u8>, b: &Vec<u8>) -> (r: bool)
    ensures
        r == (a@ == b@),
{
    if a.len() != b.len() {
        return false;
    }
    let mut i: usize = 0;
    while i < a.len()
        invariant
            a@.len() == b@.len(),
            i <= a@.len(),
            forall|k: int| 0 <= k < i ==> a@[k] == b@[k],
        decreases a@.len() - i,
    {
        if a[i] != b[i] {
            return false;
        }
        i = i + 1;
    }
    proof {
        assert(a@ =~= b@);
    }
    true
}

/// Copies a byte string.
pub fn clone_bytes(v: &Vec<u8>) -> (r: Vec<u8>)
    ensures
        r@ == v@,
{
    let mut r: Vec<u8> = Vec::new();
    let mut i: usize = 0;
    while i < v.len()
        invariant
            i <= v@.len(),
            r@ == v@.take(i as int),
        decreases v@.len() - i,
    {
        r.push(v[i]);
        proof {
            assert(r@ =~= v@.take(i + 1 as int));
        }
        i = i + 1;
    }
    proof {
        assert(v@.take(v@.len() as int) =~= v@);
    }
    r
}

/// The Local Diff Model: this peer's authoritative tracking table.
pub struct LocalDiffModel {
    /// One record per owned entity.
    pub records: Vec<TrackedRecord>,
    /// The next unused `Lid`; lids are never reused.
    pub next_lid: u32,
    /// Lids whose records ended since the last emitted diff.
    pub removed: Vec<Lid>,
}

impl LocalDiffModel {
    /// The abstract tracking table.
    pub open spec fn recs(self) -> Seq<TrackedRecordV> {
        recs_view(self.records@)
    }

    /// The abstract removal queue.
    pub open spec fn removed_lids(self) -> Seq<u32> {
        lids_view(self.removed@)
    }

    /// Lids, gids and host entities are unique; every lid ever issued lies
    /// below `next_lid`; the removal queue repeats nothing and names no
    /// live record.
    pub open spec fn wf(self) -> bool {
        &&& lids_unique(self.recs())
        &&& gids_unique(self.recs())
        &&& entities_unique(self.recs())
        &&& forall|i: int| 0 <= i < self.recs().len() ==> (#[trigger] self.recs()[i]).lid < self.next_lid
        &&& forall|i: int, j: int|
            0 <= i < j < self.removed_lids().len() ==> self.removed_lids()[i]
                != self.removed_lids()[j]
        &&& forall|i: int|
            0 <= i < self.removed_lids().len() ==> #[trigger] self.removed_lids()[i] < self.next_lid
        &&& forall|i: int|
            0 <= i < self.removed_lids().len() ==> !has_lid(
                self.recs(),
                #[trigger] self.removed_lids()[i],
            )
    }

    pub fn new() -> (m: Self)
        ensures
            m.wf(),
            m.recs().len() == 0,
            m.removed_lids().len() == 0,
            m.next_lid == 0,
    {
        LocalDiffModel { records: Vec::new(), next_lid: 0, removed: Vec::new() }
    }

    /// The index of the record with lid `l`, if any.
    fn find_lid(&self, l: Lid) -> (r: Option<usize>)
        ensures
            match r {
                Some(i) => i < self.recs().len() && self.recs()[i as int].lid == l.0,
                None => !has_lid(self.recs(), l.0),
            },
    {
        let mut i: usize = 0;
        while i < self.records.len()
            invariant
                i <= self.recs().len(),
                forall|k: int| 0 <= k < i ==> self.recs()[k].lid != l.0,
            decreases self.recs().len() - i,
        {
            if self.records[i].lid.0 == l.0 {
                return Some(i);
            }
            i = i + 1;
        }
        None
    }

    /// The index of the record with gid `g`, if any.
    fn find_gid(&self, g: Gid) -> (r: Option<usize>)
        ensures
            match r {
                Some(i) => i < self.recs().len() && self.recs()[i as int].gid == g.0,
                None => !has_gid(self.recs(), g.0),
            },
    {
        let mut i: usize = 0;
        while i < self.records.len()
            invariant
                i <= self.recs().len(),
                forall|k: int| 0 <= k < i ==> self.recs()[k].gid != g.0,
            decreases self.recs().len() - i,
        {
            if self.records[i].gid.0 == g.0 {
                return Some(i);
            }
            i = i + 1;
        }
        None
    }

    /// The index of the record owning host entity `e`, if any.
    fn find_entity(&self, e: u32) -> (r: Option<usize>)
        ensures
            match r {
                Some(i) => i < self.recs().len() && self.recs()[i as int].entity == Some(e),
                None => !has_entity(self.recs(), e),
            },
    {
        let mut i: usize = 0;
        while i < self.records.len()
            invariant
                i <= self.recs().len(),
                forall|k: int| 0 <= k < i ==> self.recs()[k].entity != Some(e),
            decreases self.recs().len() - i,
        {
            match self.records[i].entity {
                Some(x) => {
                    if x == e {
                        return Some(i);
                    }
                }
                None => {}
            }
            i = i + 1;
        }
        None
    }

    /// Whether this peer currently holds authority over `gid`.
    pub fn is_tracked_gid(&self, gid: Gid) -> (r: bool)
        ensures
            r == has_gid(self.recs(), gid.0),
    {
        self.find_gid(gid).is_some()
    }

    /// Begins authoritative tracking of a host entity under a fresh `Lid`,
    /// with `data` as its first full snapshot. Fails if the entity or the
    /// gid is already tracked.
    pub fn track_entity(&mut self, entity: u32, gid: Gid, data: Vec<u8>) -> (r: Result<
        Lid,
        DesError,
    >)
        requires
            old(self).wf(),
            old(self).next_lid < u32::MAX,
        ensures
            final(self).wf(),
            match r {
                Result::Err(e) => e == DesError::AlreadyTracked && *final(self) == *old(self) && (
                has_entity(old(self).recs(), entity) || has_gid(old(self).recs(), gid.0)),
                Result::Ok(lid) => {
                    &&& !has_entity(old(self).recs(), entity)
                    &&& !has_gid(old(self).recs(), gid.0)
                    &&& lid.0 == old(self).next_lid
                    &&& final(self).recs() == old(self).recs().push(
                        TrackedRecordV {
                            lid: old(self).next_lid,
                            gid: gid.0,
                            entity: Some(entity),
                            current: data@,
                            last_sent: Seq::empty(),
                            baseline_valid: false,
                        },
                    )
                    &&& final(self).next_lid == old(self).next_lid + 1
                    &&& final(self).removed_lids() == old(self).removed_lids()
                },
            },
    {
        if self.find_entity(entity).is_some() || self.find_gid(gid).is_some() {
            return Err(DesError::AlreadyTracked);
        }
        let lid = Lid(self.next_lid);
        let rec = TrackedRecord {
            lid,
            gid,
            entity: Some(entity),
            current: data,
            last_sent: Vec::new(),
            baseline_valid: false,
        };
        let ghost recs0 = self.recs();
        self.records.push(rec);
        self.next_lid = self.next_lid + 1;
        proof {
            let newr = TrackedRecordV {
                lid: old(self).next_lid,
                gid: gid.0,
                entity: Some(entity),
                current: rec.current@,
                last_sent: Seq::empty(),
                baseline_valid: false,
            };
            assert(self.recs() =~= recs0.push(newr));
            assert(forall|k: int| 0 <= k < recs0.len() ==> recs0[k].lid < old(self).next_lid);
            lemma_fresh_lid(recs0, old(self).next_lid);
            lemma_recs_push(recs0, newr);
            assert forall|k: int|
                0 <= k < self.removed_lids().len() implies !has_lid(
                self.recs(),
                #[trigger] self.removed_lids()[k],
            ) by {
                assert(self.removed@ == old(self).removed@);
                let x = old(self).removed_lids()[k];
                assert(self.removed_lids()[k] == x);
                assert(!has_lid(recs0, x));
                assert(x < old(self).next_lid);
            }
            assert forall|a: int, b: int|
                0 <= a < b < self.removed_lids().len() implies self.removed_lids()[a]
                != self.removed_lids()[b] by {
                assert(self.removed@ == old(self).removed@);
                assert(self.removed_lids()[a] == old(self).removed_lids()[a]);
                assert(self.removed_lids()[b] == old(self).removed_lids()[b]);
            }
            assert forall|k: int|
                0 <= k < self.removed_lids().len() implies #[trigger] self.removed_lids()[k]
                < self.next_lid by {
                assert(self.removed@ == old(self).removed@);
                assert(self.removed_lids()[k] == old(self).removed_lids()[k]);
                assert(old(self).removed_lids()[k] < old(self).next_lid);
            }
        }
        Ok(lid)
    }

    /// The complete, non-incremental snapshot of the record under `lid`,
    /// used at tracking start and for forced re-baselines. Returns nothing
    /// for an unknown lid.
    pub fn full_entity_data_for(&self, lid: Lid) -> (r: Option<FullEntityData>)
        requires
            self.wf(),
        ensures
            match r {
                Some(fd) => has_lid(self.recs(), lid.0) && fd@.gid == lid_rec(
                    self.recs(),
                    lid.0,
                ).gid && fd@.data == lid_rec(self.recs(), lid.0).current,
                None => !has_lid(self.recs(), lid.0),
            },
    {
        match self.find_lid(lid) {
            Some(i) => {
                let data = clone_bytes(&self.records[i].current);
                proof {
                    lemma_lid_idx(self.recs(), lid.0, i as int);
                }
                Some(FullEntityData { gid: self.records[i].gid, data })
            }
            None => None,
        }
    }

    /// Installs a record directly from a full snapshot handed over on an
    /// authority grant, without going through the new-entity scan. The
    /// record has no host entity yet; `update_pending_authority` asks the
    /// host to materialize it. A grant for an already-tracked gid changes
    /// nothing.
    pub fn got_authority(&mut self, full_entity_data: FullEntityData)
        requires
            old(self).wf(),
            old(self).next_lid < u32::MAX,
        ensures
            final(self).wf(),
            has_gid(old(self).recs(), full_entity_data@.gid) ==> *final(self) == *old(self),
            !has_gid(old(self).recs(), full_entity_data@.gid) ==> {
                &&& final(self).recs() == old(self).recs().push(
                    TrackedRecordV {
                        lid: old(self).next_lid,
                        gid: full_entity_data@.gid,
                        entity: Option::None,
                        current: full_entity_data@.data,
                        last_sent: Seq::empty(),
                        baseline_valid: false,
                    },
                )
                &&& final(self).next_lid == old(self).next_lid + 1
                &&& final(self).removed_lids() == old(self).removed_lids()
            },
    {
        if self.find_gid(full_entity_data.gid).is_some() {
            return ;
        }
        let ghost recs0 = self.recs();
        let rec = TrackedRecord {
            lid: Lid(self.next_lid),
            gid: full_entity_data.gid,
            entity: None,
            current: full_entity_data.data,
            last_sent: Vec::new(),
            baseline_valid: false,
        };
        self.records.push(rec);
        self.next_lid = self.next_lid + 1;
        proof {
            let newr = TrackedRecordV {
                lid: old(self).next_lid,
                gid: rec.gid.0,
                entity: Option::None,
                current: rec.current@,
                last_sent: Seq::empty(),
                baseline_valid: false,
            };
            assert(self.recs() =~= recs0.push(newr));
            assert(forall|k: int| 0 <= k < recs0.len() ==> recs0[k].lid < old(self).next_lid);
            lemma_fresh_lid(recs0, old(self).next_lid);
            lemma_recs_push(recs0, newr);
            assert forall|k: int|
                0 <= k < self.removed_lids().len() implies !has_lid(
                self.recs(),
                #[trigger] self.removed_lids()[k],
            ) by {
                assert(self.removed@ == old(self).removed@);
                let x = old(self).removed_lids()[k];
                assert(self.removed_lids()[k] == x);
                assert(!has_lid(recs0, x));
                assert(x < old(self).next_lid);
            }
            assert forall|a: int, b: int|
                0 <= a < b < self.removed_lids().len() implies self.removed_lids()[a]
                != self.removed_lids()[b] by {
                assert(self.removed@ == old(self).removed@);
                assert(self.removed_lids()[a] == old(self).removed_lids()[a]);
                assert(self.removed_lids()[b] == old(self).removed_lids()[b]);
            }
            assert forall|k: int|
                0 <= k < self.removed_lids().len() implies #[trigger] self.removed_lids()[k]
                < self.next_lid by {
                assert(self.removed@ == old(self).removed@);
                assert(self.removed_lids()[k] == old(self).removed_lids()[k]);
                assert(old(self).removed_lids()[k] < old(self).next_lid);
            }
        }
    }

    /// Advances in-flight authority transfers: every granted record not yet
    /// materialized asks the host to spawn it. The model itself is
    /// unchanged until the host confirms through `granted_entity_spawned`.
    pub fn update_pending_authority(&mut self, host: &mut Vec<HostCommand>)
        requires
            old(self).wf(),
        ensures
            *final(self) == *old(self),
            cmds_view(final(host)@) == cmds_view(old(host)@) + grant_commands(old(self).recs()),
    {
        let ghost cmds0 = cmds_view(host@);
        let mut i: usize = 0;
        while i < self.records.len()
            invariant
                *self == *old(self),
                i <= self.recs().len(),
                cmds_view(host@) == cmds0 + grant_commands(
                    self.recs().take(i as int),
                ),
            decreases self.recs().len() - i,
        {
            proof {
                assert(self.recs().take(i + 1 as int).drop_last() =~= self.recs().take(i as int));
                assert(self.recs().take(i + 1 as int).last() == self.recs()[i as int]);
            }
            if self.records[i].entity.is_none() {
                let data = clone_bytes(&self.records[i].current);
                let cmd = HostCommand::SpawnGranted {
                    lid: self.records[i].lid,
                    gid: self.records[i].gid,
                    data,
                };
                let ghost h0 = host@;
                host.push(cmd);
                proof {
                    let gc0 = grant_commands(self.recs().take(i as int));
                    let gc1 = grant_commands(self.recs().take(i + 1 as int));
                    assert(self.recs().take(i + 1 as int).last().entity is None);
                    assert(gc1 == gc0.push(
                        HostCommandV::SpawnGranted {
                            lid: self.recs()[i as int].lid,
                            gid: self.recs()[i as int].gid,
                            data: self.recs()[i as int].current,
                        },
                    ));
                    assert(cmd@ == (HostCommandV::SpawnGranted {
                        lid: self.recs()[i as int].lid,
                        gid: self.recs()[i as int].gid,
                        data: self.recs()[i as int].current,
                    }));
                    assert(cmds_view(h0.push(cmd)) =~= cmds_view(h0).push(cmd@));
                    assert((cmds0 + gc0).push(cmd@) =~= cmds0 + gc0.push(cmd@));
                    assert(cmds_view(host@) == cmds0 + gc1);
                }
            }
            proof {
                if !(self.recs()[i as int].entity is None) {
                    assert(grant_commands(self.recs().take(i + 1 as int)) == grant_commands(
                        self.recs().take(i as int),
                    ));
                }
            }
            i = i + 1;
        }
        proof {
            assert(self.recs().take(self.recs().len() as int) =~= self.recs());
        }
    }

    /// The host confirms that a granted record was materialized as host
    /// entity `entity`. Ignored for unknown lids, already-materialized
    /// records, or a handle already owned by another record.
    pub fn granted_entity_spawned(&mut self, lid: Lid, entity: u32)
        requires
            old(self).wf(),
        ensures
            final(self).wf(),
            final(self).next_lid == old(self).next_lid,
            final(self).removed_lids() == old(self).removed_lids(),
            if has_lid(old(self).recs(), lid.0) && lid_rec(old(self).recs(), lid.0).entity is None
                && !has_entity(old(self).recs(), entity) {
                final(self).recs() == old(self).recs().update(
                    lid_idx(old(self).recs(), lid.0),
                    TrackedRecordV { entity: Some(entity), ..lid_rec(old(self).recs(), lid.0) },
                )
            } else {
                *final(self) == *old(self)
            },
    {
        let found = self.find_lid(lid);
        match found {
            Some(i) => {
                proof {
                    lemma_lid_idx(self.recs(), lid.0, i as int);
                }
                if self.records[i].entity.is_none() && self.find_entity(entity).is_none() {
                    let ghost recs0 = self.recs();
                    self.records[i].entity = Some(entity);
                    proof {
                        assert(self.records@[i as int]@ == (TrackedRecordV {
                            entity: Some(entity),
                            ..recs0[i as int]
                        }));
                        assert(self.recs() =~= recs0.update(
                            i as int,
                            TrackedRecordV { entity: Some(entity), ..recs0[i as int] },
                        ));
                        assert(forall|k: int|
                            0 <= k < self.recs().len() && k != i ==> self.recs()[k] == recs0[k]);
                        assert(forall|k: int|
                            0 <= k < self.recs().len() ==> (#[trigger] self.recs()[k]).lid
                                == recs0[k].lid && self.recs()[k].gid == recs0[k].gid);
                        assert forall|a: int, b: int|
                            0 <= a < b < self.recs().len() && self.recs()[a].entity is Some
                                && self.recs()[b].entity is Some implies self.recs()[a].entity
                            != self.recs()[b].entity by {
                            if a != i && b != i {
                                assert(self.recs()[a] == recs0[a] && self.recs()[b] == recs0[b]);
                            } else if a == i {
                                assert(self.recs()[b] == recs0[b]);
                                let e2 = recs0[b].entity.unwrap();
                                assert(has_entity(recs0, e2));
                            } else {
                                assert(self.recs()[a] == recs0[a]);
                                let e2 = recs0[a].entity.unwrap();
                                assert(has_entity(recs0, e2));
                            }
                        }
                        assert forall|l: u32| has_lid(self.recs(), l) implies has_lid(
                            recs0,
                            l,
                        ) by {
                            let k = lid_idx(self.recs(), l);
                            assert(recs0[k].lid == l);
                        }
                        assert(self.removed@ == old(self).removed@);
                        assert forall|a: int, b: int|
                            0 <= a < b < self.removed_lids().len() implies self.removed_lids()[a]
                            != self.removed_lids()[b] by {
                            assert(self.removed_lids()[a] == old(self).removed_lids()[a]);
                            assert(self.removed_lids()[b] == old(self).removed_lids()[b]);
                        }
                        assert forall|k: int|
                            0 <= k < self.removed_lids().len() implies #[trigger] self.removed_lids()[k]
                            < self.next_lid by {
                            assert(self.removed_lids()[k] == old(self).removed_lids()[k]);
                            assert(old(self).removed_lids()[k] < old(self).next_lid);
                        }
                        assert forall|k: int|
                            0 <= k < self.removed_lids().len() implies !has_lid(
                            self.recs(),
                            #[trigger] self.removed_lids()[k],
                        ) by {
                            let x = old(self).removed_lids()[k];
                            assert(self.removed_lids()[k] == x);
                            assert(!has_lid(recs0, x));
                            if has_lid(self.recs(), x) {
                                assert(has_lid(recs0, x));
                            }
                        }
                    }
                }
            }
            None => {}
        }
    }

    /// Samples the host's current state for every owned record: a live
    /// sample refreshes the record's snapshot, a dead sample ends the
    /// record and queues its removal for the next diff, a missing sample is
    /// skipped as benign.
    pub fn update_tracked_entities(&mut self, samples: &Vec<EntitySample>)
        requires
            old(self).wf(),
        ensures
            final(self).wf(),
            final(self).next_lid == old(self).next_lid,
            final(self).recs() == updated_recs(
                old(self).recs(),
                samples_view(samples@),
            ),
            final(self).removed_lids() == old(self).removed_lids() + newly_removed(
                old(self).recs(),
                samples_view(samples@),
            ),
            forall|g: u64| has_gid(final(self).recs(), g) ==> has_gid(old(self).recs(), g),
    {
        let ghost recs0 = self.recs();
        let ghost smp = samples_view(samples@);
        let ghost removed0 = self.removed_lids();
        let mut kept: Vec<TrackedRecord> = Vec::new();
        let mut i: usize = 0;
        while i < self.records.len()
            invariant
                old(self).wf(),
                recs0 == self.recs(),
                recs0 == old(self).recs(),
                removed0 == old(self).removed_lids(),
                self.next_lid == old(self).next_lid,
                smp == samples_view(samples@),
                i <= self.recs().len(),
                recs_view(kept@) == updated_recs(recs0.take(i as int), smp),
                lids_view(self.removed@) == removed0 + newly_removed(recs0.take(i as int), smp),
            decreases self.recs().len() - i,
        {
            proof {
                assert(recs0.take(i + 1 as int).drop_last() =~= recs0.take(i as int));
                assert(recs0.take(i + 1 as int).last() == recs0[i as int]);
            }
            let mut keep: bool = true;
            let mut fresh_data: Option<Vec<u8>> = None;
            match self.records[i].entity {
                None => {
                    proof {
                        assert(record_after_sample(recs0[i as int], smp) == Some(
                            recs0[i as int],
                        ));
                    }
                }
                Some(e) => {
                    match Self::find_sample(samples, e) {
                        None => {
                            proof {
                                assert(record_after_sample(recs0[i as int], smp) == Some(
                                    recs0[i as int],
                                ));
                            }
                        }
                        Some(j) => {
                            if samples[j].alive {
                                fresh_data = Some(clone_bytes(&samples[j].data));
                                proof {
                                    assert(first_sample(smp, e) == Some(samples@[j as int]@));
                                    assert(record_after_sample(recs0[i as int], smp) == Some(
                                        TrackedRecordV {
                                            current: samples@[j as int]@.data,
                                            ..recs0[i as int]
                                        },
                                    ));
                                }
                            } else {
                                keep = false;
                                proof {
                                    assert(first_sample(smp, e) == Some(samples@[j as int]@));
                                    assert(record_after_sample(recs0[i as int], smp) is None);
                                }
                            }
                        }
                    }
                }
            }
            if keep {
                let mut rec = TrackedRecord {
                    lid: self.records[i].lid,
                    gid: self.records[i].gid,
                    entity: self.records[i].entity,
                    current: clone_bytes(&self.records[i].current),
                    last_sent: clone_bytes(&self.records[i].last_sent),
                    baseline_valid: self.records[i].baseline_valid,
                };
                match fresh_data {
                    Some(d) => {
                        rec.current = d;
                    }
                    None => {}
                }
                proof {
                    assert(rec@ == record_after_sample(recs0[i as int], smp).unwrap());
                }
                let ghost k0 = kept@;
                kept.push(rec);
                proof {
                    assert(recs_view(k0.push(rec)) =~= recs_view(k0).push(rec@));
                    assert(updated_recs(recs0.take(i + 1 as int), smp) == updated_recs(
                        recs0.take(i as int),
                        smp,
                    ).push(record_after_sample(recs0[i as int], smp).unwrap()));
                    assert(newly_removed(recs0.take(i + 1 as int), smp) == newly_removed(
                        recs0.take(i as int),
                        smp,
                    ));
                }
            } else {
                let ghost r0 = self.removed@;
                let l = self.records[i].lid;
                self.removed.push(l);
                proof {
                    assert(lids_view(r0.push(l)) =~= lids_view(r0).push(l.0));
                    assert(newly_removed(recs0.take(i + 1 as int), smp) == newly_removed(
                        recs0.take(i as int),
                        smp,
                    ).push(recs0[i as int].lid));
                    assert(updated_recs(recs0.take(i + 1 as int), smp) == updated_recs(
                        recs0.take(i as int),
                        smp,
                    ));
                    assert((removed0 + newly_removed(recs0.take(i as int), smp)).push(l.0)
                        =~= removed0 + newly_removed(recs0.take(i as int), smp).push(l.0));
                }
            }
            i = i + 1;
        }
        proof {
            assert(recs0.take(recs0.len() as int) =~= recs0);
        }
        self.records = kept;
        proof {
            lemma_sampling_pass(recs0, smp);
            assert(self.recs() == updated_recs(recs0, smp));
            assert(self.removed_lids() == removed0 + newly_removed(recs0, smp));
            assert forall|k: int|
                0 <= k < self.removed_lids().len() implies !has_lid(
                self.recs(),
                #[trigger] self.removed_lids()[k],
            ) by {
                if k < removed0.len() {
                    assert(self.removed_lids()[k] == removed0[k]);
                    assert(!has_lid(recs0, removed0[k]));
                    if has_lid(self.recs(), removed0[k]) {
                        assert(has_lid(recs0, removed0[k]));
                    }
                } else {
                    assert(self.removed_lids()[k] == newly_removed(recs0, smp)[k - removed0.len()]);
                }
            }
            assert forall|i2: int, j2: int|
                0 <= i2 < j2 < self.removed_lids().len() implies self.removed_lids()[i2]
                != self.removed_lids()[j2] by {
                let nr = newly_removed(recs0, smp);
                if i2 < removed0.len() && j2 >= removed0.len() {
                    assert(self.removed_lids()[j2] == nr[j2 - removed0.len()]);
                    assert(has_lid(recs0, nr[j2 - removed0.len()]));
                    assert(self.removed_lids()[i2] == removed0[i2]);
                    assert(!has_lid(recs0, removed0[i2]));
                }
            }
            assert forall|k: int|
                0 <= k < self.removed_lids().len() implies #[trigger] self.removed_lids()[k] < self.next_lid by {
                if k < removed0.len() {
                } else {
                    let nr = newly_removed(recs0, smp);
                    assert(self.removed_lids()[k] == nr[k - removed0.len()]);
                    assert(has_lid(recs0, nr[k - removed0.len()]));
                    let m = lid_idx(recs0, nr[k - removed0.len()]);
                    assert(recs0[m].lid < self.next_lid);
                }
            }
            assert forall|k: int|
                0 <= k < self.recs().len() implies (#[trigger] self.recs()[k]).lid < self.next_lid by {
                assert(updated_recs(recs0, smp)[k] == self.recs()[k]);
                let m = choose|m: int|
                    0 <= m < recs0.len() && #[trigger] self.recs()[k] == record_after_sample(
                        recs0[m],
                        smp,
                    ).unwrap() && record_after_sample(recs0[m], smp) is Some && self.recs()[k].lid
                        == recs0[m].lid && self.recs()[k].gid == recs0[m].gid
                        && self.recs()[k].entity == recs0[m].entity;
                assert(recs0[m].lid < self.next_lid);
            }
        }
    }

    /// The position of the first sample for host entity `e`, if any.
    fn find_sample(samples: &Vec<EntitySample>, e: u32) -> (r: Option<usize>)
        ensures
            match r {
                Some(j) => j < samples@.len() && first_sample(
                    samples_view(samples@),
                    e,
                ) == Some(samples@[j as int]@),
                None => first_sample(samples_view(samples@), e) is None,
            },
    {
        let ghost smp = samples_view(samples@);
        let mut j: usize = 0;
        proof {
            assert(smp.skip(0) =~= smp);
        }
        while j < samples.len()
            invariant
                smp == samples_view(samples@),
                j <= samples@.len(),
                first_sample(smp, e) == first_sample(smp.skip(j as int), e),
                forall|k: int| 0 <= k < j ==> smp[k].entity != e,
            decreases samples@.len() - j,
        {
            proof {
                assert(smp.skip(j as int).first() == smp[j as int]);
                assert(smp.skip(j as int).drop_first() =~= smp.skip(j + 1 as int));
            }
            if samples[j].entity == e {
                return Some(j);
            }
            j = j + 1;
        }
        proof {
            assert(smp.skip(smp.len() as int) =~= Seq::<EntitySampleV>::empty());
        }
        None
    }

    /// Invalidates every receiver-side baseline assumption, so that the
    /// next diff batch is re-encoded from full snapshots. Called when a
    /// peer with no prior baseline starts receiving the shared batch.
    pub fn reset_diff_encoding(&mut self)
        requires
            old(self).wf(),
        ensures
            final(self).wf(),
            final(self).next_lid == old(self).next_lid,
            final(self).removed_lids() == old(self).removed_lids(),
            final(self).recs().len() == old(self).recs().len(),
            forall|k: int|
                0 <= k < old(self).recs().len() ==> final(self).recs()[k] == (TrackedRecordV {
                    baseline_valid: false,
                    ..old(self).recs()[k]
                }),
    {
        let ghost recs0 = self.recs();
        let mut i: usize = 0;
        while i < self.records.len()
            invariant
                old(self).wf(),
                self.next_lid == old(self).next_lid,
                self.removed@ == old(self).removed@,
                i <= self.recs().len(),
                self.recs().len() == recs0.len(),
                forall|k: int|
                    0 <= k < i ==> self.recs()[k] == (TrackedRecordV {
                        baseline_valid: false,
                        ..recs0[k]
                    }),
                forall|k: int| i <= k < recs0.len() ==> self.recs()[k] == recs0[k],
            decreases self.recs().len() - i,
        {
            let ghost prev = self.records@;
            self.records[i].baseline_valid = false;
            proof {
                assert(self.records@[i as int]@ == (TrackedRecordV {
                    baseline_valid: false,
                    ..prev[i as int]@
                }));
                assert(forall|k: int|
                    0 <= k < prev.len() && k != i ==> self.records@[k] == prev[k]);
                assert forall|k: int| 0 <= k < recs0.len() implies #[trigger] self.recs()[k] == (
                if k == i {
                    TrackedRecordV { baseline_valid: false, ..recs_view(prev)[k] }
                } else {
                    recs_view(prev)[k]
                }) by {
                    assert(self.recs()[k] == self.records@[k]@);
                    assert(recs_view(prev)[k] == prev[k]@);
                }
                assert(recs_view(prev)[i as int] == recs0[i as int]);
            }
            i = i + 1;
        }
        proof {
            assert(forall|k: int|
                0 <= k < self.recs().len() ==> (#[trigger] self.recs()[k]).lid == recs0[k].lid
                    && self.recs()[k].gid == recs0[k].gid && self.recs()[k].entity
                    == recs0[k].entity);
            assert forall|l: u32| has_lid(self.recs(), l) implies has_lid(recs0, l) by {
                let k = lid_idx(self.recs(), l);
                assert(recs0[k].lid == l);
            }
            assert(self.removed@ == old(self).removed@);
            assert forall|k: int|
                0 <= k < self.removed_lids().len() implies !has_lid(
                self.recs(),
                #[trigger] self.removed_lids()[k],
            ) by {
                let x = old(self).removed_lids()[k];
                assert(self.removed_lids()[k] == x);
                assert(!has_lid(recs0, x));
                if has_lid(self.recs(), x) {
                    assert(has_lid(recs0, x));
                }
            }
            assert forall|a: int, b: int|
                0 <= a < b < self.removed_lids().len() implies self.removed_lids()[a]
                != self.removed_lids()[b] by {
                assert(self.removed_lids()[a] == old(self).removed_lids()[a]);
                assert(self.removed_lids()[b] == old(self).removed_lids()[b]);
            }
            assert forall|k: int|
                0 <= k < self.removed_lids().len() implies #[trigger] self.removed_lids()[k]
                < self.next_lid by {
                assert(self.removed_lids()[k] == old(self).removed_lids()[k]);
                assert(old(self).removed_lids()[k] < old(self).next_lid);
            }
        }
    }

    /// Encodes one diff batch for every owned entity: queued removals,
    /// then, per record, a full snapshot where no receiver baseline can be
    /// assumed, a delta where the snapshot changed, nothing where it did
    /// not. The batch is shared by all interested peers of the tick.
    /// Afterwards every record's snapshot is its baseline and the removal
    /// queue is empty.
    pub fn make_diff(&mut self) -> (diff: Vec<EntityEntry>)
        requires
            old(self).wf(),
        ensures
            final(self).wf(),
            entries_view(diff@) == removal_entries(old(self).removed_lids())
                + diff_entries(old(self).recs()),
            final(self).next_lid == old(self).next_lid,
            final(self).removed_lids().len() == 0,
            final(self).recs().len() == old(self).recs().len(),
            forall|k: int|
                0 <= k < old(self).recs().len() ==> final(self).recs()[k] == record_after_diff(
                    old(self).recs()[k],
                ),
            // entries in one batch never repeat a lid
            forall|i: int, j: int|
                0 <= i < j < diff@.len() ==> (#[trigger] diff@[i]@).lid() != (#[trigger] diff@[j]@).lid(),
    {
        let ghost recs0 = self.recs();
        let ghost removed0 = self.removed_lids();
        let mut diff: Vec<EntityEntry> = Vec::new();
        let mut i: usize = 0;
        while i < self.removed.len()
            invariant
                self.removed@ == old(self).removed@,
                i <= self.removed@.len(),
                entries_view(diff@) == removal_entries(
                    old(self).removed_lids().take(i as int),
                ),
            decreases self.removed@.len() - i,
        {
            let ent = EntityEntry::Removed { lid: self.removed[i] };
            let ghost d0 = diff@;
            diff.push(ent);
            proof {
                assert(ent@ == (EntityEntryV::Removed { lid: old(self).removed_lids()[i as int] }));
                assert(entries_view(d0.push(ent)) =~= entries_view(d0).push(ent@));
                assert(removal_entries(old(self).removed_lids().take(i + 1 as int))
                    =~= removal_entries(old(self).removed_lids().take(i as int)).push(ent@));
                assert(entries_view(diff@) == removal_entries(
                    old(self).removed_lids().take(i + 1 as int),
                ));
            }
            i = i + 1;
        }
        proof {
            assert(old(self).removed_lids().take(old(self).removed_lids().len() as int) =~= old(
                self,
            ).removed_lids());
        }
        self.removed = Vec::new();
        let mut j: usize = 0;
        while j < self.records.len()
            invariant
                old(self).wf(),
                self.next_lid == old(self).next_lid,
                self.removed@.len() == 0,
                j <= self.recs().len(),
                self.recs().len() == recs0.len(),
                forall|k: int| 0 <= k < j ==> self.recs()[k] == record_after_diff(recs0[k]),
                forall|k: int| j <= k < recs0.len() ==> self.recs()[k] == recs0[k],
                entries_view(diff@) == removal_entries(removed0) + diff_entries(
                    recs0.take(j as int),
                ),
            decreases self.recs().len() - j,
        {
            proof {
                assert(recs0.take(j + 1 as int).drop_last() =~= recs0.take(j as int));
                assert(recs0.take(j + 1 as int).last() == recs0[j as int]);
            }
            proof {
                assert(self.recs()[j as int] == recs0[j as int]);
            }
            if !self.records[j].baseline_valid {
                let data = clone_bytes(&self.records[j].current);
                let ent = EntityEntry::Full {
                    lid: self.records[j].lid,
                    gid: self.records[j].gid,
                    data,
                };
                let ghost d0 = diff@;
                diff.push(ent);
                proof {
                    assert(entry_for(recs0[j as int]) == Some(ent@));
                    assert(entries_view(d0.push(ent)) =~= entries_view(d0).push(ent@));
                    assert(diff_entries(recs0.take(j + 1 as int)) == diff_entries(
                        recs0.take(j as int),
                    ).push(ent@));
                    assert((removal_entries(removed0) + diff_entries(recs0.take(j as int))).push(
                        ent@,
                    ) =~= removal_entries(removed0) + diff_entries(recs0.take(j + 1 as int)));
                    assert(entries_view(diff@) == removal_entries(removed0) + diff_entries(
                        recs0.take(j + 1 as int),
                    ));
                }
            } else if !bytes_eq(&self.records[j].current, &self.records[j].last_sent) {
                let data = clone_bytes(&self.records[j].current);
                let ent = EntityEntry::Delta { lid: self.records[j].lid, data };
                let ghost d0 = diff@;
                diff.push(ent);
                proof {
                    assert(entry_for(recs0[j as int]) == Some(ent@));
                    assert(entries_view(d0.push(ent)) =~= entries_view(d0).push(ent@));
                    assert(diff_entries(recs0.take(j + 1 as int)) == diff_entries(
                        recs0.take(j as int),
                    ).push(ent@));
                    assert((removal_entries(removed0) + diff_entries(recs0.take(j as int))).push(
                        ent@,
                    ) =~= removal_entries(removed0) + diff_entries(recs0.take(j + 1 as int)));
                    assert(entries_view(diff@) == removal_entries(removed0) + diff_entries(
                        recs0.take(j + 1 as int),
                    ));
                }
            } else {
                proof {
                    assert(entry_for(recs0[j as int]) is None);
                    assert(diff_entries(recs0.take(j + 1 as int)) == diff_entries(
                        recs0.take(j as int),
                    ));
                }
            }
            let ls = clone_bytes(&self.records[j].current);
            let ghost prev = self.records@;
            self.records[j].last_sent = ls;
            self.records[j].baseline_valid = true;
            proof {
                assert(self.records@[j as int]@ == (TrackedRecordV {
                    baseline_valid: true,
                    last_sent: prev[j as int]@.current,
                    ..prev[j as int]@
                }));
                assert(forall|k: int|
                    0 <= k < prev.len() && k != j ==> self.records@[k] == prev[k]);
                assert(prev[j as int]@ == recs0[j as int]);
                assert forall|k: int| 0 <= k < recs0.len() implies #[trigger] self.recs()[k] == (
                if k == j {
                    record_after_diff(recs0[k])
                } else {
                    recs_view(prev)[k]
                }) by {
                    assert(self.recs()[k] == self.records@[k]@);
                    assert(recs_view(prev)[k] == prev[k]@);
                }
            }
            j = j + 1;
        }
        proof {
            assert(recs0.take(recs0.len() as int) =~= recs0);
            assert(forall|k: int|
                0 <= k < self.recs().len() ==> (#[trigger] self.recs()[k]).lid == recs0[k].lid
                    && self.recs()[k].gid == recs0[k].gid && self.recs()[k].entity
                    == recs0[k].entity);
            // lids stay unique after re-baselining
            assert forall|l: u32| has_lid(self.recs(), l) implies has_lid(recs0, l) by {
                let k = lid_idx(self.recs(), l);
                assert(recs0[k].lid == l);
            }
            // distinct lids across the whole batch
            lemma_diff_entries_lids(recs0);
            let dv = entries_view(diff@);
            assert forall|a: int, b: int|
                0 <= a < b < dv.len() implies dv[a].lid() != dv[b].lid() by {
                let nrem = removed0.len() as int;
                if b < nrem {
                    assert(dv[a] == removal_entries(removed0)[a]);
                    assert(dv[b] == removal_entries(removed0)[b]);
                    assert(dv[a].lid() == removed0[a] && dv[b].lid() == removed0[b]);
                } else if a >= nrem {
                    assert(dv[a] == diff_entries(recs0)[a - nrem]);
                    assert(dv[b] == diff_entries(recs0)[b - nrem]);
                } else {
                    assert(dv[a] == removal_entries(removed0)[a]);
                    assert(dv[a].lid() == removed0[a]);
                    assert(dv[b] == diff_entries(recs0)[b - nrem]);
                    let m = choose|m: int|
                        0 <= m < recs0.len() && (#[trigger] diff_entries(recs0)[b - nrem]).lid()
                            == recs0[m].lid;
                    assert(has_lid(recs0, recs0[m].lid));
                    assert(!has_lid(recs0, removed0[a]));
                }
            }
            assert(dv == removal_entries(removed0) + diff_entries(recs0));
            assert forall|a: int, b: int|
                0 <= a < b < diff@.len() implies (#[trigger] diff@[a]@).lid()
                != (#[trigger] diff@[b]@).lid() by {
                assert(diff@[a]@ == dv[a]);
                assert(diff@[b]@ == dv[b]);
            }
        }
        diff
    }

    /// The `Lid` of the record owning host entity `entity`, used to verify
    /// local authority before emitting authority-sensitive events.
    pub fn lid_by_entity(&self, entity: u32) -> (r: Option<Lid>)
        requires
            self.wf(),
        ensures
            match r {
                Some(l) => has_entity(self.recs(), entity) && has_lid(self.recs(), l.0) && lid_rec(
                    self.recs(),
                    l.0,
                ).entity == Some(entity),
                None => !has_entity(self.recs(), entity),
            },
    {
        match self.find_entity(entity) {
            Some(i) => {
                proof {
                    lemma_lid_idx(self.recs(), self.recs()[i as int].lid, i as int);
                }
                Some(self.records[i].lid)
            }
            None => None,
        }
    }

    /// Ends authority over `gid` on an explicit revocation: the record is
    /// dropped, its removal rides the next diff, and the host copy of the
    /// entity is killed (the new owner's diffs respawn it as a shadow).
    pub fn remove_gid(&mut self, gid: Gid, host: &mut Vec<HostCommand>)
        requires
            old(self).wf(),
        ensures
            final(self).wf(),
            final(self).next_lid == old(self).next_lid,
            !has_gid(final(self).recs(), gid.0),
            forall|g: u64|
                g != gid.0 ==> has_gid(final(self).recs(), g) == has_gid(old(self).recs(), g),
            if has_gid(old(self).recs(), gid.0) {
                &&& final(self).recs() == old(self).recs().remove(gid_idx(old(self).recs(), gid.0))
                &&& final(self).removed_lids() == old(self).removed_lids().push(
                    gid_rec(old(self).recs(), gid.0).lid,
                )
                &&& final(host)@ == if gid_rec(old(self).recs(), gid.0).entity is Some {
                    old(host)@.push(
                        HostCommand::KillEntity {
                            entity: gid_rec(old(self).recs(), gid.0).entity.unwrap(),
                        },
                    )
                } else {
                    old(host)@
                }
            } else {
                *final(self) == *old(self) && final(host)@ == old(host)@
            },
    {
        let found = self.find_gid(gid);
        match found {
            Some(i) => {
                proof {
                    lemma_gid_idx(self.recs(), gid.0, i as int);
                }
                let ghost recs0 = self.recs();
                let lid = self.records[i].lid;
                match self.records[i].entity {
                    Some(e) => {
                        host.push(HostCommand::KillEntity { entity: e });
                    }
                    None => {}
                }
                self.records.remove(i);
                self.removed.push(lid);
                proof {
                    assert(self.recs() =~= recs0.remove(i as int));
                    assert forall|k: int| 0 <= k < self.recs().len() implies (#[trigger] self.recs()[k]
                        == if k < i { recs0[k] } else { recs0[k + 1] }) by {}
                    assert forall|g: u64| has_gid(self.recs(), g) implies has_gid(recs0, g) by {
                        let k = gid_idx(self.recs(), g);
                        assert(self.recs()[k].gid == g);
                        if k < i {
                            assert(recs0[k].gid == g);
                        } else {
                            assert(recs0[k + 1].gid == g);
                        }
                    }
                    assert forall|g: u64| g != gid.0 && has_gid(recs0, g) implies has_gid(
                        self.recs(),
                        g,
                    ) by {
                        let k = gid_idx(recs0, g);
                        assert(recs0[k].gid == g);
                        assert(k != i);
                        if k < i {
                            assert(self.recs()[k].gid == g);
                        } else {
                            assert(self.recs()[k - 1].gid == g);
                        }
                    }
                    assert forall|k: int| 0 <= k < self.recs().len() implies #[trigger] self.recs()[k].gid
                        != gid.0 by {
                        if k < i {
                            assert(recs0[k].gid != recs0[i as int].gid);
                        } else {
                            assert(recs0[k + 1].gid != recs0[i as int].gid);
                        }
                    }
                    assert forall|l: u32| has_lid(self.recs(), l) implies has_lid(recs0, l) by {
                        let k = lid_idx(self.recs(), l);
                        assert(self.recs()[k].lid == l);
                        if k < i {
                            assert(recs0[k].lid == l);
                        } else {
                            assert(recs0[k + 1].lid == l);
                        }
                    }
                    assert forall|x: u32| has_entity(self.recs(), x) implies has_entity(
                        recs0,
                        x,
                    ) by {
                        let k = entity_idx(self.recs(), x);
                        assert(self.recs()[k].entity == Some(x));
                        if k < i {
                            assert(recs0[k].entity == Some(x));
                        } else {
                            assert(recs0[k + 1].entity == Some(x));
                        }
                    }
                    assert forall|k: int| 0 <= k < self.recs().len() implies #[trigger] self.recs()[k].lid
                        != recs0[i as int].lid by {
                        if k < i {
                            assert(recs0[k].lid != recs0[i as int].lid);
                        } else {
                            assert(recs0[k + 1].lid != recs0[i as int].lid);
                        }
                    }
                    // uniqueness carries over to the shortened table
                    assert forall|a: int, b: int|
                        0 <= a < b < self.recs().len() implies self.recs()[a].lid
                        != self.recs()[b].lid && self.recs()[a].gid != self.recs()[b].gid && ((
                    self.recs()[a].entity is Some && self.recs()[b].entity is Some)
                        ==> self.recs()[a].entity != self.recs()[b].entity) by {
                        let a2: int = if a < i { a } else { a + 1 };
                        let b2: int = if b < i { b } else { b + 1 };
                        assert(self.recs()[a] == recs0[a2] && self.recs()[b] == recs0[b2]);
                    }
                    // the freshly queued lid repeats nothing in the queue
                    assert(has_lid(recs0, recs0[i as int].lid));
                    assert(forall|k: int|
                        0 <= k < old(self).removed_lids().len() ==> #[trigger] old(
                            self,
                        ).removed_lids()[k] != recs0[i as int].lid);
                    assert(self.removed_lids() =~= old(self).removed_lids().push(
                        recs0[i as int].lid,
                    ));
                }
            }
            None => {}
        }
    }
}

/// The materialization requests of the not-yet-spawned granted records, in
/// record order.
pub open spec fn grant_commands(s: Seq<TrackedRecordV>) -> Seq<HostCommandV>
    decreases s.len(),
{
    if s.len() == 0 {
        Seq::empty()
    } else {
        let rest = grant_commands(s.drop_last());
        if s.last().entity is None {
            rest.push(
                HostCommandV::SpawnGranted {
                    lid: s.last().lid,
                    gid: s.last().gid,
                    data: s.last().current,
                },
            )
        } else {
            rest
        }
    }
}

impl Default for LocalDiffModel {
    /// An empty tracking table.
    fn default() -> (m: Self)
        ensures
            m.wf(),
            m.recs().len() == 0,
            m.removed_lids().len() == 0,
            m.next_lid == 0,
    {
        LocalDiffModel::new()
    }
}

} // verus!
