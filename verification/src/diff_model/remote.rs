//! The Remote Diff Model: a read-only mirror of one remote peer's owned
//! entities, reconstructed from received diff batches.
//!
//! Invariant: a remote model never mutates the authoritative source of
//! truth; it merges received batches into pending records and materializes
//! them into local shadow entities through deferred host commands.

use vstd::prelude::*;
use crate::types::{Gid, Lid, PeerId};
use crate::messages::{entries_view, projectiles_view, EntityEntry, EntityEntryV, ProjectileFired, ProjectileFiredV};
use crate::host::{cmds_view, HostCommand, HostCommandV};
use crate::diff_model::local::clone_bytes;

verus! {

/// Abstract value of one mirrored record.
pub struct RemoteRecordV {
    /// The sender-local lid the record is keyed by.
    pub lid: u32,
    /// The entity's cross-peer identity, bound by the first full snapshot.
    pub gid: u64,
    /// The last merged snapshot.
    pub data: Seq<u8>,
    /// The local shadow entity, once materialized.
    pub entity: Option<u32>,
    /// Whether the snapshot changed since the last materialization.
    pub dirty: bool,
}

/// One mirrored record.
#[derive(Clone, PartialEq, Debug)]
pub struct RemoteRecord {
    pub lid: Lid,
    pub gid: Gid,
    pub data: Vec<u8>,
    pub entity: Option<u32>,
    pub dirty: bool,
}

impl View for RemoteRecord {
    type V = RemoteRecordV;

    open spec fn view(&self) -> RemoteRecordV {
        RemoteRecordV {
            lid: self.lid.0,
            gid: self.gid.0,
            data: self.data@,
            entity: self.entity,
            dirty: self.dirty,
        }
    }
}

/// The abstract values of a mirrored table.
pub open spec fn rrecs_view(s: Seq<RemoteRecord>) -> Seq<RemoteRecordV> {
    s.map_values(|r: RemoteRecord| r@)
}

pub open spec fn r_lids_unique(s: Seq<RemoteRecordV>) -> bool {
    forall|i: int, j: int| 0 <= i < j < s.len() ==> s[i].lid != s[j].lid
}

pub open spec fn r_has_lid(s: Seq<RemoteRecordV>, l: u32) -> bool {
    exists|i: int| 0 <= i < s.len() && #[trigger] s[i].lid == l
}

pub open spec fn r_lid_idx(s: Seq<RemoteRecordV>, l: u32) -> int {
    choose|i: int| 0 <= i < s.len() && #[trigger] s[i].lid == l
}

pub open spec fn r_has_gid(s: Seq<RemoteRecordV>, g: u64) -> bool {
    exists|i: int| 0 <= i < s.len() && #[trigger] s[i].gid == g
}

/// The record keyed by `l`, if the table holds one.
pub open spec fn rec_for(s: Seq<RemoteRecordV>, l: u32) -> Option<RemoteRecordV> {
    if r_has_lid(s, l) {
        Some(s[r_lid_idx(s, l)])
    } else {
        None
    }
}

/// With unique lids, an index holding `l` is the index `r_lid_idx` picks.
pub proof fn lemma_r_lid_idx(s: Seq<RemoteRecordV>, l: u32, k: int)
    requires
        r_lids_unique(s),
        0 <= k < s.len(),
        s[k].lid == l,
    ensures
        r_has_lid(s, l),
        r_lid_idx(s, l) == k,
        rec_for(s, l) == Some(s[k]),
{
    assert(r_has_lid(s, l));
    let m = r_lid_idx(s, l);
    if m < k {
        assert(s[m].lid != s[k].lid);
    } else if k < m {
        assert(s[k].lid != s[m].lid);
    }
}

/// How one diff entry rewrites the mirrored table. A full snapshot
/// overwrites or creates its record; a delta refreshes an existing record
/// and is dropped when no baseline is held; a removal ends the record.
pub open spec fn apply_entry(s: Seq<RemoteRecordV>, e: EntityEntryV) -> Seq<RemoteRecordV> {
    match e {
        EntityEntryV::Full { lid, gid, data } => if r_has_lid(s, lid) {
            s.update(
                r_lid_idx(s, lid),
                RemoteRecordV { lid, gid, data, entity: s[r_lid_idx(s, lid)].entity, dirty: true },
            )
        } else {
            s.push(RemoteRecordV { lid, gid, data, entity: None, dirty: true })
        },
        EntityEntryV::Delta { lid, data } => if r_has_lid(s, lid) {
            s.update(r_lid_idx(s, lid), RemoteRecordV { data, dirty: true, ..s[r_lid_idx(s, lid)] })
        } else {
            s
        },
        EntityEntryV::Removed { lid } => if r_has_lid(s, lid) {
            s.remove(r_lid_idx(s, lid))
        } else {
            s
        },
    }
}

/// The shadow entities a diff entry orphans: the materialized record a
/// removal ends must be killed on the host.
pub open spec fn kills_entry(s: Seq<RemoteRecordV>, e: EntityEntryV) -> Seq<u32> {
    match e {
        EntityEntryV::Removed { lid } => if r_has_lid(s, lid) && s[r_lid_idx(s, lid)].entity
            is Some {
            seq![s[r_lid_idx(s, lid)].entity.unwrap()]
        } else {
            Seq::empty()
        },
        _ => Seq::empty(),
    }
}

/// A whole batch, applied in order.
pub open spec fn apply_batch(s: Seq<RemoteRecordV>, b: Seq<EntityEntryV>) -> Seq<RemoteRecordV>
    decreases b.len(),
{
    if b.len() == 0 {
        s
    } else {
        apply_entry(apply_batch(s, b.drop_last()), b.last())
    }
}

/// The shadow entities a whole batch orphans, in order.
pub open spec fn kills_batch(s: Seq<RemoteRecordV>, b: Seq<EntityEntryV>) -> Seq<u32>
    decreases b.len(),
{
    if b.len() == 0 {
        Seq::empty()
    } else {
        kills_batch(s, b.drop_last()) + kills_entry(apply_batch(s, b.drop_last()), b.last())
    }
}

/// What one entry leaves for its own lid, as a function of what was there.
pub open spec fn entry_effect(o: Option<RemoteRecordV>, e: EntityEntryV) -> Option<RemoteRecordV> {
    match e {
        EntityEntryV::Full { lid, gid, data } => Some(
            RemoteRecordV {
                lid,
                gid,
                data,
                entity: match o {
                    Some(r) => r.entity,
                    None => None,
                },
                dirty: true,
            },
        ),
        EntityEntryV::Delta { lid, data } => match o {
            Some(r) => Some(RemoteRecordV { data, dirty: true, ..r }),
            None => None,
        },
        EntityEntryV::Removed { .. } => None,
    }
}

/// No two entries of the batch speak of the same lid. Batches built by
/// `LocalDiffModel::make_diff` have this shape.
pub open spec fn distinct_entry_lids(b: Seq<EntityEntryV>) -> bool {
    forall|i: int, j: int| 0 <= i < j < b.len() ==> b[i].lid() != b[j].lid()
}

pub open spec fn batch_has_lid(b: Seq<EntityEntryV>, l: u32) -> bool {
    exists|i: int| 0 <= i < b.len() && (#[trigger] b[i]).lid() == l
}

pub open spec fn batch_entry(b: Seq<EntityEntryV>, l: u32) -> EntityEntryV {
    b[choose|i: int| 0 <= i < b.len() && (#[trigger] b[i]).lid() == l]
}

/// One entry keeps unique lids unique, touches only its own lid, and
/// leaves `entry_effect` for it.
pub proof fn lemma_apply_entry(s: Seq<RemoteRecordV>, e: EntityEntryV)
    requires
        r_lids_unique(s),
    ensures
        r_lids_unique(apply_entry(s, e)),
        forall|l: u32| l != e.lid() ==> #[trigger] rec_for(apply_entry(s, e), l) == rec_for(s, l),
        rec_for(apply_entry(s, e), e.lid()) == entry_effect(rec_for(s, e.lid()), e),
        forall|k: int|
            0 <= k < apply_entry(s, e).len() ==> r_has_gid(s, (#[trigger] apply_entry(s, e)[k]).gid)
                || (e is Full && apply_entry(s, e)[k].gid == e->Full_gid),
{
    let t = apply_entry(s, e);
    match e {
        EntityEntryV::Full { lid, gid, data } => {
            if r_has_lid(s, lid) {
                let i = r_lid_idx(s, lid);
                assert(s[i].lid == lid);
                assert(forall|k: int| 0 <= k < t.len() ==> #[trigger] t[k].lid == s[k].lid);
                assert forall|l: u32| l != e.lid() implies #[trigger] rec_for(t, l) == rec_for(
                    s,
                    l,
                ) by {
                    if r_has_lid(s, l) {
                        let k = r_lid_idx(s, l);
                        assert(s[k].lid == l);
                        assert(k != i);
                        assert(t[k] == s[k]);
                        lemma_r_lid_idx(t, l, k);
                    } else {
                        if r_has_lid(t, l) {
                            let k = r_lid_idx(t, l);
                            assert(t[k].lid == l);
                            assert(s[k].lid == l);
                        }
                    }
                }
                lemma_r_lid_idx(t, lid, i);
                assert forall|k: int|
                    0 <= k < t.len() implies r_has_gid(s, (#[trigger] t[k]).gid) || (e is Full
                    && t[k].gid == e->Full_gid) by {
                    if k != i {
                        assert(t[k] == s[k]);
                        assert(s[k].gid == t[k].gid);
                    }
                }
            } else {
                assert(forall|k: int| 0 <= k < s.len() ==> #[trigger] t[k] == s[k]);
                assert(forall|k: int| 0 <= k < s.len() ==> #[trigger] s[k].lid != lid);
                assert(t[t.len() - 1].lid == lid);
                assert forall|i: int, j: int| 0 <= i < j < t.len() implies t[i].lid != t[j].lid by {
                    if j == t.len() - 1 {
                        assert(t[i] == s[i]);
                    }
                }
                lemma_r_lid_idx(t, lid, t.len() - 1);
                assert forall|l: u32| l != e.lid() implies #[trigger] rec_for(t, l) == rec_for(
                    s,
                    l,
                ) by {
                    if r_has_lid(s, l) {
                        let k = r_lid_idx(s, l);
                        assert(s[k].lid == l);
                        assert(t[k] == s[k]);
                        lemma_r_lid_idx(t, l, k);
                    } else {
                        if r_has_lid(t, l) {
                            let k = r_lid_idx(t, l);
                            assert(t[k].lid == l);
                            assert(k != t.len() - 1);
                            assert(s[k].lid == l);
                        }
                    }
                }
                assert forall|k: int|
                    0 <= k < t.len() implies r_has_gid(s, (#[trigger] t[k]).gid) || (e is Full
                    && t[k].gid == e->Full_gid) by {
                    if k != t.len() - 1 {
                        assert(t[k] == s[k]);
                        assert(s[k].gid == t[k].gid);
                    }
                }
            }
        }
        EntityEntryV::Delta { lid, data } => {
            if r_has_lid(s, lid) {
                let i = r_lid_idx(s, lid);
                assert(s[i].lid == lid);
                assert(forall|k: int| 0 <= k < t.len() ==> #[trigger] t[k].lid == s[k].lid);
                assert forall|l: u32| l != e.lid() implies #[trigger] rec_for(t, l) == rec_for(
                    s,
                    l,
                ) by {
                    if r_has_lid(s, l) {
                        let k = r_lid_idx(s, l);
                        assert(s[k].lid == l);
                        assert(k != i);
                        assert(t[k] == s[k]);
                        lemma_r_lid_idx(t, l, k);
                    } else {
                        if r_has_lid(t, l) {
                            let k = r_lid_idx(t, l);
                            assert(t[k].lid == l);
                            assert(s[k].lid == l);
                        }
                    }
                }
                lemma_r_lid_idx(t, lid, i);
                assert forall|k: int|
                    0 <= k < t.len() implies r_has_gid(s, (#[trigger] t[k]).gid) || (e is Full
                    && t[k].gid == e->Full_gid) by {
                    if k != i {
                        assert(t[k] == s[k]);
                        assert(s[k].gid == t[k].gid);
                    } else {
                        assert(t[k].gid == s[i].gid);
                    }
                }
            } else {
                assert(t == s);
                assert(forall|k: int|
                    0 <= k < t.len() ==> r_has_gid(s, (#[trigger] t[k]).gid));
            }
        }
        EntityEntryV::Removed { lid } => {
            if r_has_lid(s, lid) {
                let i = r_lid_idx(s, lid);
                assert(s[i].lid == lid);
                assert forall|k: int| 0 <= k < t.len() implies (#[trigger] t[k] == if k < i {
                    s[k]
                } else {
                    s[k + 1]
                }) by {}
                assert forall|a: int, b2: int| 0 <= a < b2 < t.len() implies t[a].lid
                    != t[b2].lid by {
                    let a2: int = if a < i { a } else { a + 1 };
                    let b3: int = if b2 < i { b2 } else { b2 + 1 };
                    assert(t[a] == s[a2] && t[b2] == s[b3]);
                }
                assert forall|k: int| 0 <= k < t.len() implies #[trigger] t[k].lid != lid by {
                    if k < i {
                        assert(t[k] == s[k]);
                    } else {
                        assert(t[k] == s[k + 1]);
                    }
                }
                assert(!r_has_lid(t, lid));
                assert forall|l: u32| l != e.lid() implies #[trigger] rec_for(t, l) == rec_for(
                    s,
                    l,
                ) by {
                    if r_has_lid(s, l) {
                        let k = r_lid_idx(s, l);
                        assert(s[k].lid == l);
                        assert(k != i);
                        if k < i {
                            assert(t[k] == s[k]);
                            lemma_r_lid_idx(t, l, k);
                        } else {
                            assert(t[k - 1] == s[k]);
                            lemma_r_lid_idx(t, l, k - 1);
                        }
                    } else {
                        if r_has_lid(t, l) {
                            let k = r_lid_idx(t, l);
                            assert(t[k].lid == l);
                            if k < i {
                                assert(s[k].lid == l);
                            } else {
                                assert(s[k + 1].lid == l);
                            }
                        }
                    }
                }
                assert forall|k: int|
                    0 <= k < t.len() implies r_has_gid(s, (#[trigger] t[k]).gid) by {
                    if k < i {
                        assert(t[k] == s[k]);
                        assert(s[k].gid == t[k].gid);
                    } else {
                        assert(t[k] == s[k + 1]);
                        assert(s[k + 1].gid == t[k].gid);
                    }
                }
            } else {
                assert(t == s);
                assert(forall|k: int|
                    0 <= k < t.len() ==> r_has_gid(s, (#[trigger] t[k]).gid));
            }
        }
    }
}

/// A batch keeps unique lids unique, and every surviving gid was either
/// there before or arrived in a full snapshot of the batch.
pub proof fn lemma_apply_batch_gids(s: Seq<RemoteRecordV>, b: Seq<EntityEntryV>)
    requires
        r_lids_unique(s),
    ensures
        r_lids_unique(apply_batch(s, b)),
        forall|k: int|
            0 <= k < apply_batch(s, b).len() ==> r_has_gid(
                s,
                (#[trigger] apply_batch(s, b)[k]).gid,
            ) || (exists|i: int|
                0 <= i < b.len() && (#[trigger] b[i]) is Full && b[i]->Full_gid == apply_batch(
                    s,
                    b,
                )[k].gid),
    decreases b.len(),
{
    if b.len() == 0 {
    } else {
        let b0 = b.drop_last();
        let e = b.last();
        lemma_apply_batch_gids(s, b0);
        let s1 = apply_batch(s, b0);
        lemma_apply_entry(s1, e);
        assert(apply_batch(s, b) == apply_entry(s1, e));
        let t = apply_batch(s, b);
        assert forall|k: int|
            0 <= k < t.len() implies r_has_gid(s, (#[trigger] t[k]).gid) || (exists|i: int|
            0 <= i < b.len() && (#[trigger] b[i]) is Full && b[i]->Full_gid == t[k].gid) by {
            if r_has_gid(s1, t[k].gid) {
                let m = choose|m: int| 0 <= m < s1.len() && #[trigger] s1[m].gid == t[k].gid;
                if r_has_gid(s, s1[m].gid) {
                } else {
                    let i = choose|i: int|
                        0 <= i < b0.len() && (#[trigger] b0[i]) is Full && b0[i]->Full_gid
                            == s1[m].gid;
                    assert(b[i] == b0[i]);
                    assert(b[i] is Full && b[i]->Full_gid == t[k].gid);
                }
            } else {
                assert(e is Full && t[k].gid == e->Full_gid);
                assert(b[b.len() - 1] == e);
            }
        }
    }
}

/// A batch of no-op entries leaves the table alone and kills nothing.
proof fn lemma_no_op_batch(s: Seq<RemoteRecordV>, b: Seq<EntityEntryV>)
    requires
        forall|k: int|
            0 <= k < b.len() ==> apply_entry(s, #[trigger] b[k]) == s && kills_entry(s, b[k])
                == Seq::<u32>::empty(),
    ensures
        apply_batch(s, b) == s,
        kills_batch(s, b) == Seq::<u32>::empty(),
    decreases b.len(),
{
    if b.len() == 0 {
    } else {
        let b0 = b.drop_last();
        assert(forall|k: int| 0 <= k < b0.len() ==> b0[k] == b[k]);
        lemma_no_op_batch(s, b0);
        assert(b[b.len() - 1] == b.last());
        assert(apply_batch(s, b) == apply_entry(apply_batch(s, b0), b.last()));
        assert(kills_batch(s, b) =~= kills_batch(s, b0) + kills_entry(s, b.last()));
        assert(kills_batch(s, b) =~= Seq::<u32>::empty());
    }
}

/// What a batch with distinct lids leaves for each lid: the effect of its
/// one entry for that lid, or the old record where it has none.
pub proof fn lemma_apply_batch_rec_for(s: Seq<RemoteRecordV>, b: Seq<EntityEntryV>, l: u32)
    requires
        r_lids_unique(s),
        distinct_entry_lids(b),
    ensures
        rec_for(apply_batch(s, b), l) == if batch_has_lid(b, l) {
            entry_effect(rec_for(s, l), batch_entry(b, l))
        } else {
            rec_for(s, l)
        },
    decreases b.len(),
{
    lemma_apply_batch_gids(s, b);
    if b.len() == 0 {
    } else {
        let b0 = b.drop_last();
        let e = b.last();
        assert(forall|k: int| 0 <= k < b0.len() ==> b0[k] == b[k]);
        let s1 = apply_batch(s, b0);
        lemma_apply_batch_gids(s, b0);
        lemma_apply_entry(s1, e);
        lemma_apply_batch_rec_for(s, b0, l);
        assert(b[b.len() - 1] == e);
        if l == e.lid() {
            assert(forall|i: int| 0 <= i < b0.len() ==> (#[trigger] b0[i]).lid() != l);
            assert(!batch_has_lid(b0, l));
            assert(rec_for(s1, l) == rec_for(s, l));
            assert(rec_for(apply_batch(s, b), l) == entry_effect(rec_for(s, l), e));
            assert(batch_has_lid(b, l));
            let i = choose|i: int| 0 <= i < b.len() && (#[trigger] b[i]).lid() == l;
            assert(i == b.len() - 1) by {
                if i < b.len() - 1 {
                    assert(b0[i].lid() == l);
                }
            }
            assert(batch_entry(b, l) == e);
        } else {
            assert(rec_for(apply_batch(s, b), l) == rec_for(s1, l));
            if batch_has_lid(b0, l) {
                let i = choose|i: int| 0 <= i < b0.len() && (#[trigger] b0[i]).lid() == l;
                assert(b[i].lid() == l);
                assert(batch_has_lid(b, l));
                let i2 = choose|i2: int| 0 <= i2 < b.len() && (#[trigger] b[i2]).lid() == l;
                assert(i2 < b.len() - 1) by {
                    if i2 == b.len() - 1 {
                        assert(b[i2] == e);
                    }
                }
                assert(b0[i2].lid() == l);
                assert(batch_entry(b, l) == b[i2]);
                assert(batch_entry(b0, l) == b0[choose|i3: int|
                    0 <= i3 < b0.len() && (#[trigger] b0[i3]).lid() == l]);
                let i3 = choose|i3: int| 0 <= i3 < b0.len() && (#[trigger] b0[i3]).lid() == l;
                assert(i3 == i2) by {
                    if i3 < i2 {
                        assert(b[i3].lid() != b[i2].lid());
                    } else if i2 < i3 {
                        assert(b[i2].lid() != b[i3].lid());
                    }
                }
                assert(batch_entry(b, l) == batch_entry(b0, l));
            } else {
                if batch_has_lid(b, l) {
                    let i = choose|i: int| 0 <= i < b.len() && (#[trigger] b[i]).lid() == l;
                    assert(i == b.len() - 1) by {
                        if i < b.len() - 1 {
                            assert(b0[i].lid() == l);
                        }
                    }
                    assert(false);
                }
            }
        }
    }
}

/// Applying the same diff batch twice leaves exactly the state one
/// application leaves, and the second pass orphans no shadow entity: diff
/// application is idempotent.
pub proof fn lemma_apply_batch_idempotent(s: Seq<RemoteRecordV>, b: Seq<EntityEntryV>)
    requires
        r_lids_unique(s),
        distinct_entry_lids(b),
    ensures
        apply_batch(apply_batch(s, b), b) == apply_batch(s, b),
        kills_batch(apply_batch(s, b), b) == Seq::<u32>::empty(),
{
    let s1 = apply_batch(s, b);
    lemma_apply_batch_gids(s, b);
    assert forall|k: int|
        0 <= k < b.len() implies apply_entry(s1, #[trigger] b[k]) == s1 && kills_entry(s1, b[k])
        == Seq::<u32>::empty() by {
        let e = b[k];
        let l = e.lid();
        assert(batch_has_lid(b, l));
        lemma_apply_batch_rec_for(s, b, l);
        let i2 = choose|i2: int| 0 <= i2 < b.len() && (#[trigger] b[i2]).lid() == l;
        assert(i2 == k) by {
            if i2 < k {
                assert(b[i2].lid() != b[k].lid());
            } else if k < i2 {
                assert(b[k].lid() != b[i2].lid());
            }
        }
        assert(batch_entry(b, l) == e);
        assert(rec_for(s1, l) == entry_effect(rec_for(s, l), e));
        match e {
            EntityEntryV::Full { lid, gid, data } => {
                let v = entry_effect(rec_for(s, l), e).unwrap();
                assert(rec_for(s1, lid) == Some(v));
                assert(r_has_lid(s1, lid));
                let i = r_lid_idx(s1, lid);
                assert(s1[i] == v);
                assert(apply_entry(s1, e) == s1.update(
                    i,
                    RemoteRecordV { lid, gid, data, entity: s1[i].entity, dirty: true },
                ));
                assert((RemoteRecordV { lid, gid, data, entity: s1[i].entity, dirty: true }) == v);
                assert(s1.update(i, v) =~= s1);
            }
            EntityEntryV::Delta { lid, data } => {
                match rec_for(s, l) {
                    Some(r0) => {
                        let v = RemoteRecordV { data, dirty: true, ..r0 };
                        assert(rec_for(s1, lid) == Some(v));
                        assert(r_has_lid(s1, lid));
                        let i = r_lid_idx(s1, lid);
                        assert(s1[i] == v);
                        assert(apply_entry(s1, e) == s1.update(
                            i,
                            RemoteRecordV { data, dirty: true, ..s1[i] },
                        ));
                        assert((RemoteRecordV { data, dirty: true, ..s1[i] }) == v);
                        assert(s1.update(i, v) =~= s1);
                    }
                    None => {
                        assert(rec_for(s1, lid) is None);
                        assert(!r_has_lid(s1, lid));
                        assert(apply_entry(s1, e) == s1);
                    }
                }
            }
            EntityEntryV::Removed { lid } => {
                assert(rec_for(s1, lid) is None);
                assert(!r_has_lid(s1, lid));
                assert(apply_entry(s1, e) == s1);
            }
        }
    }
    lemma_no_op_batch(s1, b);
}

/// Kill commands for a queue of orphaned shadow entities.
pub open spec fn kill_cmds(kq: Seq<u32>) -> Seq<HostCommandV> {
    kq.map_values(|e: u32| HostCommandV::KillEntity { entity: e })
}

/// The materialization commands of a table: spawn what has no shadow yet,
/// update what changed since its last materialization.
pub open spec fn entity_cmds(s: Seq<RemoteRecordV>, peer: PeerId) -> Seq<HostCommandV>
    decreases s.len(),
{
    if s.len() == 0 {
        Seq::empty()
    } else {
        let rest = entity_cmds(s.drop_last(), peer);
        let r = s.last();
        match r.entity {
            Option::None => rest.push(
                HostCommandV::SpawnShadow { source_peer: peer, lid: r.lid, gid: r.gid, data: r.data },
            ),
            Option::Some(e) => if r.dirty {
                rest.push(HostCommandV::UpdateShadow { entity: e, data: r.data })
            } else {
                rest
            },
        }
    }
}

/// A record after a materialization pass: a shadowed record is clean.
pub open spec fn rec_after_materialize(r: RemoteRecordV) -> RemoteRecordV {
    if r.entity is Some {
        RemoteRecordV { dirty: false, ..r }
    } else {
        r
    }
}

/// The spawn commands a projectile batch produces: one per event whose
/// shooter is a materialized record; events naming an unknown or
/// unmaterialized shooter are dropped.
pub open spec fn projectile_cmds(s: Seq<RemoteRecordV>, b: Seq<ProjectileFiredV>) -> Seq<
    HostCommandV,
>
    decreases b.len(),
{
    if b.len() == 0 {
        Seq::empty()
    } else {
        let rest = projectile_cmds(s, b.drop_last());
        let pf = b.last();
        if r_has_lid(s, pf.shooter_lid) && s[r_lid_idx(s, pf.shooter_lid)].entity is Some {
            rest.push(
                HostCommandV::SpawnProjectile {
                    shooter_entity: s[r_lid_idx(s, pf.shooter_lid)].entity.unwrap(),
                    position: pf.position,
                    target: pf.target,
                    data: pf.serialized,
                },
            )
        } else {
            rest
        }
    }
}

/// The records that survive dropping `gid` from a table.
pub open spec fn gid_kept(s: Seq<RemoteRecordV>, g: u64) -> Seq<RemoteRecordV>
    decreases s.len(),
{
    if s.len() == 0 {
        Seq::empty()
    } else {
        let rest = gid_kept(s.drop_last(), g);
        if s.last().gid == g {
            rest
        } else {
            rest.push(s.last())
        }
    }
}

/// The shadow entities orphaned by dropping `gid` from a table.
pub open spec fn gid_kills(s: Seq<RemoteRecordV>, g: u64) -> Seq<u32>
    decreases s.len(),
{
    if s.len() == 0 {
        Seq::empty()
    } else {
        let rest = gid_kills(s.drop_last(), g);
        if s.last().gid == g && s.last().entity is Some {
            rest.push(s.last().entity.unwrap())
        } else {
            rest
        }
    }
}

/// Dropping a gid keeps every other record, keeps unique lids unique, and
/// leaves no record of that gid behind.
pub proof fn lemma_gid_kept(s: Seq<RemoteRecordV>, g: u64)
    ensures
        forall|k: int|
            0 <= k < gid_kept(s, g).len() ==> s.contains(#[trigger] gid_kept(s, g)[k])
                && gid_kept(s, g)[k].gid != g,
        forall|l: u32| r_has_lid(gid_kept(s, g), l) ==> r_has_lid(s, l),
        forall|g2: u64| r_has_gid(gid_kept(s, g), g2) ==> r_has_gid(s, g2) && g2 != g,
        !r_has_gid(gid_kept(s, g), g),
        r_lids_unique(s) ==> r_lids_unique(gid_kept(s, g)),
    decreases s.len(),
{
    if s.len() == 0 {
    } else {
        let s0 = s.drop_last();
        let e = s.last();
        assert(forall|k: int| 0 <= k < s0.len() ==> s0[k] == s[k]);
        lemma_gid_kept(s0, g);
        let t = gid_kept(s, g);
        let t0 = gid_kept(s0, g);
        assert forall|x: RemoteRecordV| s0.contains(x) implies #[trigger] s.contains(x) by {
            let k = choose|k: int| 0 <= k < s0.len() && s0[k] == x;
            assert(s[k] == x);
        }
        assert forall|k: int|
            0 <= k < t.len() implies s.contains(#[trigger] t[k]) && t[k].gid != g by {
            if e.gid == g {
                assert(t[k] == t0[k]);
                assert(s0.contains(t0[k]));
            } else {
                if k < t.len() - 1 {
                    assert(t[k] == t0[k]);
                    assert(s0.contains(t0[k]));
                } else {
                    assert(t[k] == e);
                    assert(s[s.len() - 1] == e);
                }
            }
        }
        assert forall|l: u32| r_has_lid(t, l) implies r_has_lid(s, l) by {
            let k = r_lid_idx(t, l);
            assert(t[k].lid == l);
            assert(s.contains(t[k]));
            let m = choose|m: int| 0 <= m < s.len() && s[m] == t[k];
            assert(s[m].lid == l);
        }
        assert forall|g2: u64| r_has_gid(t, g2) implies r_has_gid(s, g2) && g2 != g by {
            let k = choose|k: int| 0 <= k < t.len() && #[trigger] t[k].gid == g2;
            assert(s.contains(t[k]));
            let m = choose|m: int| 0 <= m < s.len() && s[m] == t[k];
            assert(s[m].gid == g2);
        }
        if r_lids_unique(s) {
            assert(r_lids_unique(s0));
            if e.gid == g {
                assert(t == t0);
            } else {
                assert(t == t0.push(e));
                assert(forall|k: int| 0 <= k < s.len() - 1 ==> s[k].lid != e.lid);
                assert forall|a: int, b: int| 0 <= a < b < t.len() implies t[a].lid
                    != t[b].lid by {
                    if b == t.len() - 1 {
                        assert(t[a] == t0[a]);
                        assert(r_has_lid(t0, t0[a].lid));
                        assert(r_has_lid(s0, t0[a].lid));
                        let m = r_lid_idx(s0, t0[a].lid);
                        assert(s[m].lid == t0[a].lid);
                        assert(t[b] == e);
                    } else {
                        assert(t[a] == t0[a] && t[b] == t0[b]);
                    }
                }
            }
        }
    }
}

/// The mirrored table for one remote peer, plus the shadow entities whose
/// records ended and which still await a host-side kill.
pub struct RemoteDiffModel {
    pub records: Vec<RemoteRecord>,
    pub kills: Vec<u32>,
}

impl RemoteDiffModel {
    /// The abstract mirrored table.
    pub open spec fn recs(self) -> Seq<RemoteRecordV> {
        rrecs_view(self.records@)
    }

    /// Each sender-local lid keys at most one record.
    pub open spec fn wf(self) -> bool {
        r_lids_unique(self.recs())
    }

    pub fn new() -> (m: Self)
        ensures
            m.wf(),
            m.recs().len() == 0,
            m.kills@.len() == 0,
    {
        RemoteDiffModel { records: Vec::new(), kills: Vec::new() }
    }

    /// The index of the record keyed by `l`, if any.
    fn find_lid(&self, l: u32) -> (r: Option<usize>)
        ensures
            match r {
                Some(i) => i < self.recs().len() && self.recs()[i as int].lid == l,
                None => !r_has_lid(self.recs(), l),
            },
    {
        let mut i: usize = 0;
        while i < self.records.len()
            invariant
                i <= self.recs().len(),
                forall|k: int| 0 <= k < i ==> self.recs()[k].lid != l,
            decreases self.recs().len() - i,
        {
            if self.records[i].lid.0 == l {
                return Some(i);
            }
            i = i + 1;
        }
        None
    }

    /// Whether any mirrored record carries gid `g`.
    pub fn has_gid(&self, gid: Gid) -> (r: bool)
        ensures
            r == r_has_gid(self.recs(), gid.0),
    {
        let mut i: usize = 0;
        while i < self.records.len()
            invariant
                i <= self.recs().len(),
                forall|k: int| 0 <= k < i ==> self.recs()[k].gid != gid.0,
            decreases self.recs().len() - i,
        {
            if self.records[i].gid.0 == gid.0 {
                proof {
                    assert(self.recs()[i as int].gid == gid.0);
                }
                return true;
            }
            i = i + 1;
        }
        proof {
            if r_has_gid(self.recs(), gid.0) {
                let k = choose|k: int|
                    0 <= k < self.recs().len() && #[trigger] self.recs()[k].gid == gid.0;
                assert(false);
            }
        }
        false
    }

    /// Merges an incoming diff batch into the pending table, in order:
    /// full snapshots overwrite or create records, deltas refresh held
    /// baselines and are dropped where none is held, removals end records
    /// and queue their shadows for a kill. Host entities are not touched
    /// here; materialization is deferred to `apply_entities`.
    pub fn apply_diff(&mut self, batch: &Vec<EntityEntry>)
        requires
            old(self).wf(),
        ensures
            final(self).wf(),
            final(self).recs() == apply_batch(old(self).recs(), entries_view(batch@)),
            final(self).kills@ == old(self).kills@ + kills_batch(
                old(self).recs(),
                entries_view(batch@),
            ),
    {
        let ghost recs0 = self.recs();
        let ghost kills0 = self.kills@;
        let ghost ev = entries_view(batch@);
        let mut i: usize = 0;
        while i < batch.len()
            invariant
                ev == entries_view(batch@),
                i <= batch@.len(),
                r_lids_unique(self.recs()),
                self.recs() == apply_batch(recs0, ev.take(i as int)),
                self.kills@ == kills0 + kills_batch(recs0, ev.take(i as int)),
            decreases batch@.len() - i,
        {
            proof {
                assert(ev.take(i + 1 as int).drop_last() =~= ev.take(i as int));
                assert(ev.take(i + 1 as int).last() == ev[i as int]);
                assert(ev[i as int] == batch@[i as int]@);
                lemma_apply_entry(self.recs(), ev[i as int]);
            }
            let ghost cur = self.recs();
            match &batch[i] {
                EntityEntry::Full { lid, gid, data } => {
                    let d = clone_bytes(data);
                    match self.find_lid(lid.0) {
                        Some(idx) => {
                            proof {
                                lemma_r_lid_idx(cur, lid.0, idx as int);
                            }
                            let rec = RemoteRecord {
                                lid: *lid,
                                gid: *gid,
                                data: d,
                                entity: self.records[idx].entity,
                                dirty: true,
                            };
                            let ghost prev = self.records@;
                            self.records[idx] = rec;
                            proof {
                                assert(self.records@ == prev.update(idx as int, rec));
                                assert(self.recs() =~= apply_entry(cur, ev[i as int]));
                            }
                        }
                        None => {
                            let rec = RemoteRecord {
                                lid: *lid,
                                gid: *gid,
                                data: d,
                                entity: None,
                                dirty: true,
                            };
                            let ghost prev = self.records@;
                            self.records.push(rec);
                            proof {
                                assert(self.records@ == prev.push(rec));
                                assert(self.recs() =~= apply_entry(cur, ev[i as int]));
                            }
                        }
                    }
                    proof {
                        assert(kills_entry(cur, ev[i as int]) =~= Seq::<u32>::empty());
                        assert(self.kills@ =~= kills0 + kills_batch(recs0, ev.take(i + 1 as int)));
                    }
                }
                EntityEntry::Delta { lid, data } => {
                    match self.find_lid(lid.0) {
                        Some(idx) => {
                            proof {
                                lemma_r_lid_idx(cur, lid.0, idx as int);
                            }
                            let d = clone_bytes(data);
                            let rec = RemoteRecord {
                                lid: self.records[idx].lid,
                                gid: self.records[idx].gid,
                                data: d,
                                entity: self.records[idx].entity,
                                dirty: true,
                            };
                            let ghost prev = self.records@;
                            self.records[idx] = rec;
                            proof {
                                assert(self.records@ == prev.update(idx as int, rec));
                                assert(self.recs() =~= apply_entry(cur, ev[i as int]));
                            }
                        }
                        None => {
                            proof {
                                assert(apply_entry(cur, ev[i as int]) == cur);
                            }
                        }
                    }
                    proof {
                        assert(kills_entry(cur, ev[i as int]) =~= Seq::<u32>::empty());
                        assert(self.kills@ =~= kills0 + kills_batch(recs0, ev.take(i + 1 as int)));
                    }
                }
                EntityEntry::Removed { lid } => {
                    match self.find_lid(lid.0) {
                        Some(idx) => {
                            proof {
                                lemma_r_lid_idx(cur, lid.0, idx as int);
                            }
                            let ghost prev = self.records@;
                            let ghost kprev = self.kills@;
                            match self.records[idx].entity {
                                Some(e) => {
                                    self.kills.push(e);
                                    proof {
                                        assert(kills_entry(cur, ev[i as int]) =~= seq![e]);
                                        assert(self.kills@ =~= kprev + kills_entry(
                                            cur,
                                            ev[i as int],
                                        ));
                                    }
                                }
                                None => {
                                    proof {
                                        assert(kills_entry(cur, ev[i as int]) =~= Seq::<
                                            u32,
                                        >::empty());
                                        assert(self.kills@ =~= kprev + kills_entry(
                                            cur,
                                            ev[i as int],
                                        ));
                                    }
                                }
                            }
                            self.records.remove(idx);
                            proof {
                                assert(self.records@ == prev.remove(idx as int));
                                assert(self.recs() =~= apply_entry(cur, ev[i as int]));
                                assert(self.kills@ =~= kills0 + kills_batch(
                                    recs0,
                                    ev.take(i + 1 as int),
                                ));
                            }
                        }
                        None => {
                            proof {
                                assert(apply_entry(cur, ev[i as int]) == cur);
                                assert(kills_entry(cur, ev[i as int]) =~= Seq::<u32>::empty());
                                assert(self.kills@ =~= kills0 + kills_batch(
                                    recs0,
                                    ev.take(i + 1 as int),
                                ));
                            }
                        }
                    }
                }
            }
            i = i + 1;
        }
        proof {
            assert(ev.take(ev.len() as int) =~= ev);
        }
    }

    /// Materializes the merged pending state into host shadow entities:
    /// kills what removals orphaned, asks the host to spawn records seen
    /// for the first time, and writes changed snapshots into existing
    /// shadows. Idempotent when diffs replay: a clean record issues no
    /// command.
    pub fn apply_entities(&mut self, source_peer: PeerId, host: &mut Vec<HostCommand>)
        requires
            old(self).wf(),
        ensures
            final(self).wf(),
            cmds_view(final(host)@) == cmds_view(old(host)@) + kill_cmds(old(self).kills@)
                + entity_cmds(old(self).recs(), source_peer),
            final(self).kills@.len() == 0,
            final(self).recs().len() == old(self).recs().len(),
            forall|k: int|
                0 <= k < old(self).recs().len() ==> final(self).recs()[k] == rec_after_materialize(
                    old(self).recs()[k],
                ),
    {
        let ghost recs0 = self.recs();
        let ghost kills0 = self.kills@;
        let ghost cmds0 = cmds_view(host@);
        let mut i: usize = 0;
        while i < self.kills.len()
            invariant
                self.kills@ == kills0,
                recs0 == self.recs(),
                i <= kills0.len(),
                cmds_view(host@) == cmds0 + kill_cmds(kills0.take(i as int)),
            decreases kills0.len() - i,
        {
            let cmd = HostCommand::KillEntity { entity: self.kills[i] };
            let ghost h0 = host@;
            host.push(cmd);
            proof {
                assert(cmds_view(h0.push(cmd)) =~= cmds_view(h0).push(cmd@));
                assert(kill_cmds(kills0.take(i + 1 as int)) =~= kill_cmds(
                    kills0.take(i as int),
                ).push(cmd@));
                assert(cmds_view(host@) == cmds0 + kill_cmds(kills0.take(i + 1 as int)));
            }
            i = i + 1;
        }
        proof {
            assert(kills0.take(kills0.len() as int) =~= kills0);
        }
        self.kills = Vec::new();
        let ghost cmds1 = cmds0 + kill_cmds(kills0);
        let mut j: usize = 0;
        while j < self.records.len()
            invariant
                old(self).wf(),
                self.kills@.len() == 0,
                j <= self.recs().len(),
                self.recs().len() == recs0.len(),
                forall|k: int| 0 <= k < j ==> self.recs()[k] == rec_after_materialize(recs0[k]),
                forall|k: int| j <= k < recs0.len() ==> self.recs()[k] == recs0[k],
                cmds_view(host@) == cmds1 + entity_cmds(recs0.take(j as int), source_peer),
            decreases self.recs().len() - j,
        {
            proof {
                assert(recs0.take(j + 1 as int).drop_last() =~= recs0.take(j as int));
                assert(recs0.take(j + 1 as int).last() == recs0[j as int]);
                assert(self.recs()[j as int] == recs0[j as int]);
            }
            match self.records[j].entity {
                None => {
                    let data = clone_bytes(&self.records[j].data);
                    let cmd = HostCommand::SpawnShadow {
                        source_peer,
                        lid: self.records[j].lid,
                        gid: self.records[j].gid,
                        data,
                    };
                    let ghost h0 = host@;
                    host.push(cmd);
                    proof {
                        assert(cmds_view(h0.push(cmd)) =~= cmds_view(h0).push(cmd@));
                        assert(entity_cmds(recs0.take(j + 1 as int), source_peer) == entity_cmds(
                            recs0.take(j as int),
                            source_peer,
                        ).push(cmd@));
                        assert((cmds1 + entity_cmds(recs0.take(j as int), source_peer)).push(cmd@)
                            =~= cmds1 + entity_cmds(recs0.take(j as int), source_peer).push(cmd@));
                        assert(rec_after_materialize(recs0[j as int]) == recs0[j as int]);
                    }
                }
                Some(e) => {
                    if self.records[j].dirty {
                        let data = clone_bytes(&self.records[j].data);
                        let cmd = HostCommand::UpdateShadow { entity: e, data };
                        let ghost h0 = host@;
                        host.push(cmd);
                        proof {
                            assert(cmds_view(h0.push(cmd)) =~= cmds_view(h0).push(cmd@));
                            assert(entity_cmds(recs0.take(j + 1 as int), source_peer)
                                == entity_cmds(recs0.take(j as int), source_peer).push(cmd@));
                            assert((cmds1 + entity_cmds(recs0.take(j as int), source_peer)).push(
                                cmd@,
                            ) =~= cmds1 + entity_cmds(recs0.take(j as int), source_peer).push(
                                cmd@,
                            ));
                        }
                    } else {
                        proof {
                            assert(entity_cmds(recs0.take(j + 1 as int), source_peer)
                                == entity_cmds(recs0.take(j as int), source_peer));
                        }
                    }
                    let ghost prev = self.records@;
                    self.records[j].dirty = false;
                    proof {
                        assert(self.records@[j as int]@ == (RemoteRecordV {
                            dirty: false,
                            ..prev[j as int]@
                        }));
                        assert(forall|k: int|
                            0 <= k < prev.len() && k != j ==> self.records@[k] == prev[k]);
                        assert(prev[j as int]@ == recs0[j as int]);
                        assert forall|k: int|
                            0 <= k < recs0.len() implies #[trigger] self.recs()[k] == (if k == j {
                            rec_after_materialize(recs0[k])
                        } else {
                            rrecs_view(prev)[k]
                        }) by {
                            assert(self.recs()[k] == self.records@[k]@);
                            assert(rrecs_view(prev)[k] == prev[k]@);
                        }
                    }
                }
            }
            j = j + 1;
        }
        proof {
            assert(recs0.take(recs0.len() as int) =~= recs0);
            assert forall|l: u32| r_has_lid(self.recs(), l) implies r_has_lid(recs0, l) by {
                let k = r_lid_idx(self.recs(), l);
                assert(self.recs()[k].lid == l);
                assert(recs0[k].lid == l);
            }
            assert forall|a: int, b: int|
                0 <= a < b < self.recs().len() implies self.recs()[a].lid != self.recs()[b].lid by {
                assert(self.recs()[a].lid == recs0[a].lid);
                assert(self.recs()[b].lid == recs0[b].lid);
            }
        }
    }

    /// The host confirms that the record keyed by `lid` was materialized
    /// as shadow entity `entity`. Ignored for unknown lids and records
    /// already shadowed.
    pub fn shadow_spawned(&mut self, lid: Lid, entity: u32)
        requires
            old(self).wf(),
        ensures
            final(self).wf(),
            final(self).kills@ == old(self).kills@,
            if r_has_lid(old(self).recs(), lid.0) && old(self).recs()[r_lid_idx(
                old(self).recs(),
                lid.0,
            )].entity is None {
                final(self).recs() == old(self).recs().update(
                    r_lid_idx(old(self).recs(), lid.0),
                    RemoteRecordV {
                        entity: Some(entity),
                        dirty: false,
                        ..old(self).recs()[r_lid_idx(old(self).recs(), lid.0)]
                    },
                )
            } else {
                *final(self) == *old(self)
            },
    {
        match self.find_lid(lid.0) {
            Some(i) => {
                proof {
                    lemma_r_lid_idx(self.recs(), lid.0, i as int);
                }
                if self.records[i].entity.is_none() {
                    let ghost recs0 = self.recs();
                    let ghost prev = self.records@;
                    self.records[i].entity = Some(entity);
                    self.records[i].dirty = false;
                    proof {
                        assert(self.records@[i as int]@ == (RemoteRecordV {
                            entity: Some(entity),
                            dirty: false,
                            ..prev[i as int]@
                        }));
                        assert(forall|k: int|
                            0 <= k < prev.len() && k != i ==> self.records@[k] == prev[k]);
                        assert forall|k: int|
                            0 <= k < recs0.len() implies #[trigger] self.recs()[k] == (if k == i {
                            RemoteRecordV { entity: Some(entity), dirty: false, ..recs0[k] }
                        } else {
                            recs0[k]
                        }) by {
                            assert(self.recs()[k] == self.records@[k]@);
                            assert(rrecs_view(prev)[k] == prev[k]@);
                        }
                        assert(self.recs() =~= recs0.update(
                            i as int,
                            RemoteRecordV { entity: Some(entity), dirty: false, ..recs0[i as int] },
                        ));
                        assert forall|a: int, b: int|
                            0 <= a < b < self.recs().len() implies self.recs()[a].lid
                            != self.recs()[b].lid by {
                            assert(self.recs()[a].lid == recs0[a].lid);
                            assert(self.recs()[b].lid == recs0[b].lid);
                        }
                    }
                }
            }
            None => {}
        }
    }

    /// Applies discrete projectile-fired events against their materialized
    /// shooters. An event whose shooter is unknown or not yet materialized
    /// is dropped: its baseline has not arrived, which is expected under
    /// reordering, not an error.
    pub fn spawn_projectiles(&self, batch: &Vec<ProjectileFired>, host: &mut Vec<HostCommand>)
        requires
            self.wf(),
        ensures
            cmds_view(final(host)@) == cmds_view(old(host)@) + projectile_cmds(
                self.recs(),
                projectiles_view(batch@),
            ),
    {
        let ghost pv = projectiles_view(batch@);
        let ghost cmds0 = cmds_view(host@);
        let mut i: usize = 0;
        while i < batch.len()
            invariant
                self.wf(),
                pv == projectiles_view(batch@),
                i <= batch@.len(),
                cmds_view(host@) == cmds0 + projectile_cmds(self.recs(), pv.take(i as int)),
            decreases batch@.len() - i,
        {
            proof {
                assert(pv.take(i + 1 as int).drop_last() =~= pv.take(i as int));
                assert(pv.take(i + 1 as int).last() == pv[i as int]);
                assert(pv[i as int] == batch@[i as int]@);
            }
            match self.find_lid(batch[i].shooter_lid.0) {
                Some(idx) => {
                    proof {
                        lemma_r_lid_idx(self.recs(), pv[i as int].shooter_lid, idx as int);
                    }
                    match self.records[idx].entity {
                        Some(e) => {
                            let data = clone_bytes(&batch[i].serialized);
                            let cmd = HostCommand::SpawnProjectile {
                                shooter_entity: e,
                                position: batch[i].position,
                                target: batch[i].target,
                                data,
                            };
                            let ghost h0 = host@;
                            host.push(cmd);
                            proof {
                                assert(cmds_view(h0.push(cmd)) =~= cmds_view(h0).push(cmd@));
                                assert(projectile_cmds(self.recs(), pv.take(i + 1 as int))
                                    == projectile_cmds(self.recs(), pv.take(i as int)).push(cmd@));
                                assert((cmds0 + projectile_cmds(self.recs(), pv.take(i as int))).push(
                                    cmd@,
                                ) =~= cmds0 + projectile_cmds(self.recs(), pv.take(i as int)).push(
                                    cmd@,
                                ));
                            }
                        }
                        None => {
                            proof {
                                assert(projectile_cmds(self.recs(), pv.take(i + 1 as int))
                                    == projectile_cmds(self.recs(), pv.take(i as int)));
                            }
                        }
                    }
                }
                None => {
                    proof {
                        assert(projectile_cmds(self.recs(), pv.take(i + 1 as int))
                            == projectile_cmds(self.recs(), pv.take(i as int)));
                    }
                }
            }
            i = i + 1;
        }
        proof {
            assert(pv.take(pv.len() as int) =~= pv);
        }
    }

    /// Drops every record of `gid` from the mirror, queueing any
    /// materialized shadow for a host-side kill. Used when this peer gains
    /// authority over `gid`: an entity must never be both owned and
    /// mirrored here.
    pub fn remove_gid(&mut self, gid: Gid)
        requires
            old(self).wf(),
        ensures
            final(self).wf(),
            final(self).recs() == gid_kept(old(self).recs(), gid.0),
            final(self).kills@ == old(self).kills@ + gid_kills(old(self).recs(), gid.0),
            !r_has_gid(final(self).recs(), gid.0),
            forall|g2: u64| r_has_gid(final(self).recs(), g2) ==> r_has_gid(old(self).recs(), g2),
    {
        let ghost recs0 = self.recs();
        let ghost kills0 = self.kills@;
        let mut kept: Vec<RemoteRecord> = Vec::new();
        let mut i: usize = 0;
        while i < self.records.len()
            invariant
                recs0 == self.recs(),
                kills0 + gid_kills(recs0.take(i as int), gid.0) == self.kills@,
                i <= self.recs().len(),
                rrecs_view(kept@) == gid_kept(recs0.take(i as int), gid.0),
            decreases self.recs().len() - i,
        {
            proof {
                assert(recs0.take(i + 1 as int).drop_last() =~= recs0.take(i as int));
                assert(recs0.take(i + 1 as int).last() == recs0[i as int]);
            }
            if self.records[i].gid.0 == gid.0 {
                match self.records[i].entity {
                    Some(e) => {
                        self.kills.push(e);
                        proof {
                            assert(gid_kills(recs0.take(i + 1 as int), gid.0) == gid_kills(
                                recs0.take(i as int),
                                gid.0,
                            ).push(e));
                            assert(kills0 + gid_kills(recs0.take(i as int), gid.0).push(e)
                                =~= (kills0 + gid_kills(recs0.take(i as int), gid.0)).push(e));
                        }
                    }
                    None => {
                        proof {
                            assert(gid_kills(recs0.take(i + 1 as int), gid.0) == gid_kills(
                                recs0.take(i as int),
                                gid.0,
                            ));
                        }
                    }
                }
                proof {
                    assert(gid_kept(recs0.take(i + 1 as int), gid.0) == gid_kept(
                        recs0.take(i as int),
                        gid.0,
                    ));
                }
            } else {
                let rec = RemoteRecord {
                    lid: self.records[i].lid,
                    gid: self.records[i].gid,
                    data: clone_bytes(&self.records[i].data),
                    entity: self.records[i].entity,
                    dirty: self.records[i].dirty,
                };
                proof {
                    assert(rec@ == recs0[i as int]);
                }
                let ghost k0 = kept@;
                kept.push(rec);
                proof {
                    assert(rrecs_view(k0.push(rec)) =~= rrecs_view(k0).push(rec@));
                    assert(gid_kept(recs0.take(i + 1 as int), gid.0) == gid_kept(
                        recs0.take(i as int),
                        gid.0,
                    ).push(recs0[i as int]));
                    assert(gid_kills(recs0.take(i + 1 as int), gid.0) == gid_kills(
                        recs0.take(i as int),
                        gid.0,
                    ));
                }
            }
            i = i + 1;
        }
        proof {
            assert(recs0.take(recs0.len() as int) =~= recs0);
        }
        self.records = kept;
        proof {
            lemma_gid_kept(recs0, gid.0);
        }
    }
}

} // verus!

