//! The entity-sync orchestrator: the tick-driven control loop binding the
//! interest tracker, the local diff model and the per-peer remote models
//! together, plus cross-cutting projectile capture.
//!
//! Host reads arrive as plain-value inputs (`TickInput`); host writes and
//! relay traffic leave as queued `HostCommand`s and `NoitaOutbound`
//! messages in the `ModuleCtx`. The caller performs both after the tick.

use vstd::prelude::*;
use crate::types::{DesError, Destination, Gid, Lid, PeerId, WorldPos};
use crate::messages::{
    entries_view, outbound_view, projectiles_view, DesToProxy, DesToProxyV, EntityEntry,
    EntityEntryV, FullEntityDataV, InterestRequest, NoitaOutbound, NoitaOutboundV,
    ProjectileFired, ProjectileFiredV, ProxyToDes, RemoteDes, RemoteDesV, RemoteMessage,
};
use crate::host::{cmds_view, EntityInfo, EntitySample, HostCommand, HostCommandV, ProjectileInfo};
use crate::interest::{live_entries, stale_peers, InterestTracker};
use crate::diff_model::local::{
    diff_entries, grant_commands, has_entity, has_gid, lid_rec, newly_removed, record_after_diff,
    removal_entries, updated_recs, LocalDiffModel, TrackedRecordV,
};
use crate::diff_model::remote::{
    entity_cmds, kill_cmds, r_has_gid, rec_after_materialize, RemoteDiffModel,
};
use crate::host::samples_view;

verus! {

/// Radius of the interest circle this peer announces.
pub const INTEREST_REQUEST_RADIUS: u32 = 1024;

/// Radius around the viewpoint within which authority is requested.
pub const REQUEST_AUTHORITY_RADIUS: u32 = 512;

/// Widening applied to announced radii when deciding coverage.
pub const INTEREST_SLACK: u32 = 512;

/// Everything the host hands the orchestrator for one tick.
#[derive(Clone, PartialEq, Debug)]
pub struct TickInput {
    /// The host's frame counter.
    pub frame_num: u64,
    /// The camera/viewpoint position.
    pub camera: WorldPos,
    /// The maximum live entity handle at scan time.
    pub max_entity: u32,
    /// Entities observed by the new-entity scan.
    pub scan: Vec<EntityInfo>,
    /// Fresh samples of the already-tracked entities.
    pub samples: Vec<EntitySample>,
}

/// The per-tick context: messages for the relay and deferred host
/// operations, both performed by the caller after the tick returns.
pub struct ModuleCtx {
    pub outbound: Vec<NoitaOutbound>,
    pub host: Vec<HostCommand>,
}

impl ModuleCtx {
    pub fn new() -> (c: Self)
        ensures
            c.outbound@.len() == 0,
            c.host@.len() == 0,
    {
        ModuleCtx { outbound: Vec::new(), host: Vec::new() }
    }
}

/// Queues one cross-peer payload for the relay, wrapped in its envelope,
/// with the sender's delivery-reliability choice.
pub fn send_remotedes(
    ctx: &mut ModuleCtx,
    reliable: bool,
    destination: Destination,
    remote_des: RemoteDes,
)
    ensures
        final(ctx).outbound@ == old(ctx).outbound@.push(
            NoitaOutbound::RemoteMessage {
                reliable,
                destination,
                message: RemoteMessage::RemoteDes(remote_des),
            },
        ),
        final(ctx).host@ == old(ctx).host@,
{
    let msg = NoitaOutbound::RemoteMessage {
        reliable,
        destination,
        message: RemoteMessage::RemoteDes(remote_des),
    };
    ctx.outbound.push(msg);
}

/// Copies a diff batch (payload bytes included) for another recipient.
fn clone_entries(v: &Vec<EntityEntry>) -> (r: Vec<EntityEntry>)
    ensures
        entries_view(r@) == entries_view(v@),
{
    let mut r: Vec<EntityEntry> = Vec::new();
    let mut i: usize = 0;
    while i < v.len()
        invariant
            i <= v@.len(),
            entries_view(r@) == entries_view(v@.take(i as int)),
        decreases v@.len() - i,
    {
        let ent = match &v[i] {
            EntityEntry::Full { lid, gid, data } => EntityEntry::Full {
                lid: *lid,
                gid: *gid,
                data: crate::diff_model::local::clone_bytes(data),
            },
            EntityEntry::Delta { lid, data } => EntityEntry::Delta {
                lid: *lid,
                data: crate::diff_model::local::clone_bytes(data),
            },
            EntityEntry::Removed { lid } => EntityEntry::Removed { lid: *lid },
        };
        let ghost r0 = r@;
        proof {
            assert(ent@ == v@[i as int]@);
        }
        r.push(ent);
        proof {
            assert(entries_view(r0.push(ent)) =~= entries_view(r0).push(ent@));
            assert(entries_view(v@.take(i + 1 as int)) =~= entries_view(v@.take(i as int)).push(
                v@[i as int]@,
            ));
        }
        i = i + 1;
    }
    proof {
        assert(v@.take(v@.len() as int) =~= v@);
    }
    r
}

/// Copies a projectile batch for another recipient.
fn clone_projectiles(v: &Vec<ProjectileFired>) -> (r: Vec<ProjectileFired>)
    ensures
        projectiles_view(r@) == projectiles_view(v@),
{
    let mut r: Vec<ProjectileFired> = Vec::new();
    let mut i: usize = 0;
    while i < v.len()
        invariant
            i <= v@.len(),
            projectiles_view(r@) == projectiles_view(v@.take(i as int)),
        decreases v@.len() - i,
    {
        let p = ProjectileFired {
            shooter_lid: v[i].shooter_lid,
            position: v[i].position,
            target: v[i].target,
            serialized: crate::diff_model::local::clone_bytes(&v[i].serialized),
        };
        let ghost r0 = r@;
        proof {
            assert(p@ == v@[i as int]@);
        }
        r.push(p);
        proof {
            assert(projectiles_view(r0.push(p)) =~= projectiles_view(r0).push(p@));
            assert(projectiles_view(v@.take(i + 1 as int)) =~= projectiles_view(
                v@.take(i as int),
            ).push(v@[i as int]@));
        }
        i = i + 1;
    }
    proof {
        assert(v@.take(v@.len() as int) =~= v@);
    }
    r
}

/// One remote model per source peer.
pub open spec fn model_peers_unique(s: Seq<(PeerId, RemoteDiffModel)>) -> bool {
    forall|i: int, j: int| 0 <= i < j < s.len() ==> s[i].0 != s[j].0
}

pub open spec fn has_model(s: Seq<(PeerId, RemoteDiffModel)>, p: PeerId) -> bool {
    exists|i: int| 0 <= i < s.len() && (#[trigger] s[i]).0 == p
}

pub open spec fn model_idx(s: Seq<(PeerId, RemoteDiffModel)>, p: PeerId) -> int {
    choose|i: int| 0 <= i < s.len() && (#[trigger] s[i]).0 == p
}

/// The model mirroring peer `p` (meaningful only under `has_model`).
pub open spec fn model_of(s: Seq<(PeerId, RemoteDiffModel)>, p: PeerId) -> RemoteDiffModel {
    s[model_idx(s, p)].1
}

/// Whether any remote model mirrors an entity of gid `g`.
pub open spec fn models_have_gid(s: Seq<(PeerId, RemoteDiffModel)>, g: u64) -> bool {
    exists|i: int| 0 <= i < s.len() && r_has_gid((#[trigger] s[i]).1.recs(), g)
}

/// With unique peers, an index holding `p` is the index `model_idx` picks.
pub proof fn lemma_model_idx(s: Seq<(PeerId, RemoteDiffModel)>, p: PeerId, k: int)
    requires
        model_peers_unique(s),
        0 <= k < s.len(),
        s[k].0 == p,
    ensures
        has_model(s, p),
        model_idx(s, p) == k,
        model_of(s, p) == s[k].1,
{
    assert(has_model(s, p));
    let m = model_idx(s, p);
    if m < k {
        assert(s[m].0 != s[k].0);
    } else if k < m {
        assert(s[k].0 != s[m].0);
    }
}

/// What handling one relay control message does: the frame (nothing else
/// moves) and the per-variant effect on the local model, the mirrors and
/// the host queue.
pub open spec fn proxytodes_outcome(
    pre: EntitySync,
    post: EntitySync,
    cpre: ModuleCtx,
    cpost: ModuleCtx,
    proxy_to_des: ProxyToDes,
) -> bool {
    &&& cpost.outbound@ == cpre.outbound@
    &&& post.interest_tracker == pre.interest_tracker
    &&& post.pending_fired_projectiles == pre.pending_fired_projectiles
    &&& post.look_current_entity == pre.look_current_entity
    &&& match proxy_to_des {
                ProxyToDes::GotAuthority(fd) => {
                    &&& cpost.host@ == cpre.host@
                    &&& (pre.local_diff_model.next_lid < u32::MAX ==> has_gid(
                        post.local_diff_model.recs(),
                        fd@.gid,
                    ))
                    &&& (pre.local_diff_model.next_lid < u32::MAX && !has_gid(
                        pre.local_diff_model.recs(),
                        fd@.gid,
                    ) ==> post.local_diff_model.recs() == pre.local_diff_model.recs().push(
                        TrackedRecordV {
                            lid: pre.local_diff_model.next_lid,
                            gid: fd@.gid,
                            entity: Option::None,
                            current: fd@.data,
                            last_sent: Seq::empty(),
                            baseline_valid: false,
                        },
                    ))
                    &&& (pre.local_diff_model.next_lid < u32::MAX ==> forall|i: int|
                        0 <= i < post.remote_models@.len() ==> !r_has_gid(
                            (#[trigger] post.remote_models@[i]).1.recs(),
                            fd@.gid,
                        ))
                },
                ProxyToDes::LostAuthority(gid) => {
                    &&& !has_gid(post.local_diff_model.recs(), gid.0)
                    &&& post.remote_models@ == pre.remote_models@
                    &&& post.local_diff_model.next_lid == pre.local_diff_model.next_lid
                    &&& if has_gid(pre.local_diff_model.recs(), gid.0) {
                        let idx = crate::diff_model::local::gid_idx(
                            pre.local_diff_model.recs(),
                            gid.0,
                        );
                        let rec = crate::diff_model::local::gid_rec(
                            pre.local_diff_model.recs(),
                            gid.0,
                        );
                        &&& post.local_diff_model.recs() == pre.local_diff_model.recs().remove(idx)
                        &&& post.local_diff_model.removed_lids() == pre.local_diff_model.removed_lids().push(rec.lid)
                        &&& cpost.host@ == if rec.entity is Some {
                            cpre.host@.push(
                                HostCommand::KillEntity { entity: rec.entity.unwrap() },
                            )
                        } else {
                            cpre.host@
                        }
                    } else {
                        post.local_diff_model == pre.local_diff_model && cpost.host@ == cpre.host@
                    }
                },
            }
}

/// What routing one cross-peer payload from `source` does: the frame and
/// the per-variant effect on the tracker and the mirrors.
pub open spec fn remotedes_outcome(
    pre: EntitySync,
    post: EntitySync,
    cpre: ModuleCtx,
    cpost: ModuleCtx,
    source: PeerId,
    remote_des: RemoteDes,
) -> bool {
    &&& post.local_diff_model == pre.local_diff_model
    &&& post.pending_fired_projectiles == pre.pending_fired_projectiles
    &&& post.look_current_entity == pre.look_current_entity
    &&& cpost.outbound@ == cpre.outbound@
    &&& match remote_des {
                RemoteDes::InterestRequest(req) => {
                    &&& post.remote_models@ == pre.remote_models@
                    &&& cpost.host@ == cpre.host@
                    &&& post.interest_tracker.interested(source) == crate::types::circle_covers(
                        req.pos,
                        req.radius,
                        pre.interest_tracker.center,
                        pre.interest_tracker.slack,
                    )
                    &&& post.interest_tracker.any_new == (pre.interest_tracker.any_new
                        || (crate::types::circle_covers(
                        req.pos,
                        req.radius,
                        pre.interest_tracker.center,
                        pre.interest_tracker.slack,
                    ) && !pre.interest_tracker.interested(source)))
                    &&& forall|q: PeerId|
                        q != source ==> (post.interest_tracker.interested(q) == pre.interest_tracker.interested(q) && post.interest_tracker.pending_lost(q) == pre.interest_tracker.pending_lost(q))
                },
                RemoteDes::EntityUpdate(batch) => {
                    &&& post.interest_tracker == pre.interest_tracker
                    &&& cpost.host@ == cpre.host@
                    &&& has_model(post.remote_models@, source)
                    &&& model_of(post.remote_models@, source).recs()
                        == crate::diff_model::remote::apply_batch(
                        mirror_recs(pre.remote_models@, source),
                        allowed_entries(
                            entries_view(batch@),
                            pre.local_diff_model.recs(),
                        ),
                    )
                    &&& forall|q: PeerId|
                        q != source ==> (has_model(post.remote_models@, q) == has_model(
                            pre.remote_models@,
                            q,
                        ) && (has_model(pre.remote_models@, q) ==> model_of(
                            post.remote_models@,
                            q,
                        ) == model_of(pre.remote_models@, q)))
                },
                RemoteDes::ExitedInterest => {
                    &&& post.interest_tracker == pre.interest_tracker
                    &&& cpost.host@ == cpre.host@
                    &&& !has_model(post.remote_models@, source)
                    &&& forall|q: PeerId|
                        q != source ==> (has_model(post.remote_models@, q) == has_model(
                            pre.remote_models@,
                            q,
                        ) && (has_model(pre.remote_models@, q) ==> model_of(
                            post.remote_models@,
                            q,
                        ) == model_of(pre.remote_models@, q)))
                },
                RemoteDes::Reset => {
                    &&& cpost.host@ == cpre.host@
                    &&& !has_model(post.remote_models@, source)
                    &&& !post.interest_tracker.interested(source)
                    &&& post.interest_tracker.pending_lost(source) == (pre.interest_tracker.interested(source) || pre.interest_tracker.pending_lost(source))
                    &&& forall|q: PeerId|
                        q != source ==> (has_model(post.remote_models@, q) == has_model(
                            pre.remote_models@,
                            q,
                        ) && (has_model(pre.remote_models@, q) ==> model_of(
                            post.remote_models@,
                            q,
                        ) == model_of(pre.remote_models@, q)) && post.interest_tracker.interested(q) == pre.interest_tracker.interested(
                            q,
                        ) && post.interest_tracker.pending_lost(q) == pre.interest_tracker.pending_lost(q))
                },
                RemoteDes::Projectiles(batch) => {
                    &&& post.interest_tracker == pre.interest_tracker
                    &&& has_model(post.remote_models@, source)
                    &&& cmds_view(cpost.host@) == cmds_view(cpre.host@)
                        + crate::diff_model::remote::projectile_cmds(
                        mirror_recs(pre.remote_models@, source),
                        projectiles_view(batch@),
                    )
                    &&& model_of(post.remote_models@, source).recs() == mirror_recs(
                        pre.remote_models@,
                        source,
                    )
                    &&& forall|q: PeerId|
                        q != source ==> (has_model(post.remote_models@, q) == has_model(
                            pre.remote_models@,
                            q,
                        ) && (has_model(pre.remote_models@, q) ==> model_of(
                            post.remote_models@,
                            q,
                        ) == model_of(pre.remote_models@, q)))
                },
            }
}

/// What capturing one projectile-fired event does: nothing moves but the
/// pending queue, which grows by the event exactly when the shooter
/// resolves to a locally owned record, the projectile handle is valid with
/// a projectile component, and no prior shooter is attributed.
pub open spec fn projectile_outcome(
    pre: EntitySync,
    post: EntitySync,
    shooter: Option<u32>,
    projectile: Option<ProjectileInfo>,
    position: WorldPos,
    target: WorldPos,
) -> bool {
    &&& post.interest_tracker == pre.interest_tracker
    &&& post.local_diff_model == pre.local_diff_model
    &&& post.remote_models@ == pre.remote_models@
    &&& post.look_current_entity == pre.look_current_entity
    &&& ({
                let enqueue = shooter is Some && has_entity(
                    pre.local_diff_model.recs(),
                    shooter.unwrap(),
                ) && projectile is Some && projectile.unwrap().has_projectile_component
                    && projectile.unwrap().entity_that_shot is None;
                if enqueue {
                    exists|l: u32|
                        {
                            &&& #[trigger] crate::diff_model::local::has_lid(
                                pre.local_diff_model.recs(),
                                l,
                            )
                            &&& lid_rec(pre.local_diff_model.recs(), l).entity == Some(
                                shooter.unwrap(),
                            )
                            &&& projectiles_view(post.pending_fired_projectiles@)
                                == projectiles_view(
                                pre.pending_fired_projectiles@,
                            ).push(
                                crate::messages::ProjectileFiredV {
                                    shooter_lid: l,
                                    position,
                                    target,
                                    serialized: projectile.unwrap().serialized@,
                                },
                            )
                        }
                } else {
                    post.pending_fired_projectiles == pre.pending_fired_projectiles
                }
            })
}

/// The entity-sync module: this peer's share of the distributed entity
/// state, advanced once per simulation tick.
pub struct EntitySync {
    /// Last entity handle the new-entity scan stopped at.
    pub look_current_entity: u32,
    pub interest_tracker: InterestTracker,
    pub local_diff_model: LocalDiffModel,
    /// One read-only mirror per remote peer, created lazily.
    pub remote_models: Vec<(PeerId, RemoteDiffModel)>,
    /// Projectile-launch events captured mid-tick, flushed with the next
    /// even-tick batch.
    pub pending_fired_projectiles: Vec<ProjectileFired>,
}

impl EntitySync {
    /// An entity owned here is mirrored nowhere here: authority is
    /// exclusive.
    pub open spec fn authority_exclusive(self) -> bool {
        forall|i: int, k: int|
            0 <= i < self.remote_models@.len() && 0 <= k
                < self.remote_models@[i].1.recs().len() ==> !has_gid(
                self.local_diff_model.recs(),
                (#[trigger] self.remote_models@[i].1.recs()[k]).gid,
            )
    }

    pub open spec fn wf(self) -> bool {
        &&& self.interest_tracker.wf()
        &&& self.local_diff_model.wf()
        &&& model_peers_unique(self.remote_models@)
        &&& forall|i: int| 0 <= i < self.remote_models@.len() ==> (#[trigger] self.remote_models@[i]).1.wf()
        &&& self.authority_exclusive()
    }

    /// Whether `g` is known anywhere in this module: owned locally or
    /// mirrored from some peer.
    pub open spec fn knows_gid(self, g: u64) -> bool {
        has_gid(self.local_diff_model.recs(), g) || models_have_gid(self.remote_models@, g)
    }

    /// Decides whether a freshly scanned entity falls under entity sync:
    /// the tag-based tracked-eligibility predicate.
    pub fn should_be_tracked(&self, info: &EntityInfo) -> (r: bool)
        ensures
            r == (info.is_enemy || info.is_physics_prop),
    {
        info.is_enemy || info.is_physics_prop
    }

    /// Whether `gid` is known anywhere in this module.
    fn gid_known(&self, gid: Gid) -> (r: bool)
        ensures
            r == self.knows_gid(gid.0),
    {
        if self.local_diff_model.is_tracked_gid(gid) {
            return true;
        }
        let mut i: usize = 0;
        while i < self.remote_models.len()
            invariant
                i <= self.remote_models@.len(),
                forall|k: int|
                    0 <= k < i ==> !r_has_gid((#[trigger] self.remote_models@[k]).1.recs(), gid.0),
            decreases self.remote_models@.len() - i,
        {
            if self.remote_models[i].1.has_gid(gid) {
                return true;
            }
            i = i + 1;
        }
        false
    }

    /// The position of the model mirroring `peer`, if any.
    fn find_model(&self, peer: PeerId) -> (r: Option<usize>)
        ensures
            match r {
                Some(i) => i < self.remote_models@.len() && self.remote_models@[i as int].0
                    == peer,
                None => !has_model(self.remote_models@, peer),
            },
    {
        let mut i: usize = 0;
        while i < self.remote_models.len()
            invariant
                i <= self.remote_models@.len(),
                forall|k: int| 0 <= k < i ==> (#[trigger] self.remote_models@[k]).0 != peer,
            decreases self.remote_models@.len() - i,
        {
            if self.remote_models[i].0 == peer {
                return Some(i);
            }
            i = i + 1;
        }
        None
    }

    /// Advances the scan boundary past entities the host spawned while
    /// performing this tick's queued commands (shadow and granted
    /// materializations happen after the tick returns), so entities
    /// spawned by remote materialization are never mistaken for locally
    /// originated ones by the next scan.
    pub fn note_scan_boundary(&mut self, max_entity: u32)
        ensures
            *final(self) == (EntitySync {
                look_current_entity: if max_entity > old(self).look_current_entity {
                    max_entity
                } else {
                    old(self).look_current_entity
                },
                ..*old(self)
            }),
    {
        if max_entity > self.look_current_entity {
            self.look_current_entity = max_entity;
        }
    }

    /// Handles a control message from the relay. An authority grant
    /// installs the snapshot in the local model and evicts any mirror of
    /// the same entity, so ownership stays exclusive; a revocation ends
    /// the local record, queues its removal for the next diff, and kills
    /// its host entity. A grant that would overflow the lid space is
    /// skipped and retried on a later grant.
    pub fn handle_proxytodes(&mut self, ctx: &mut ModuleCtx, proxy_to_des: ProxyToDes)
        requires
            old(self).wf(),
        ensures
            final(self).wf(),
            proxytodes_outcome(
                *old(self),
                *final(self),
                *old(ctx),
                *final(ctx),
                proxy_to_des,
            ),
    {
        match proxy_to_des {
            ProxyToDes::GotAuthority(full_entity_data) => {
                if self.local_diff_model.next_lid == u32::MAX {
                    return ;
                }
                let gid = full_entity_data.gid;
                let ghost local0 = self.local_diff_model.recs();
                self.local_diff_model.got_authority(full_entity_data);
                let ghost local_after = self.local_diff_model.recs();
                proof {
                    if !has_gid(local0, gid.0) {
                        crate::diff_model::local::lemma_recs_push(
                            local0,
                            TrackedRecordV {
                                lid: old(self).local_diff_model.next_lid,
                                gid: gid.0,
                                entity: Option::None,
                                current: local_after.last().current,
                                last_sent: Seq::empty(),
                                baseline_valid: false,
                            },
                        );
                    }
                    assert(forall|g2: u64|
                        #[trigger] has_gid(local_after, g2) ==> has_gid(local0, g2) || g2
                            == gid.0);
                    assert(has_gid(local_after, gid.0)) by {
                        if has_gid(local0, gid.0) {
                        } else {
                            assert(local_after[local_after.len() - 1].gid == gid.0);
                        }
                    }
                }
                let ghost models0 = self.remote_models@;
                let ghost mid_local = self.local_diff_model;
                let ghost ctx0 = *ctx;
                let mut i: usize = 0;
                while i < self.remote_models.len()
                    invariant
                        i <= self.remote_models@.len(),
                        self.local_diff_model == mid_local,
                        self.local_diff_model.recs() == local_after,
                        self.local_diff_model.wf(),
                        self.interest_tracker == old(self).interest_tracker,
                        self.pending_fired_projectiles == old(self).pending_fired_projectiles,
                        self.look_current_entity == old(self).look_current_entity,
                        *ctx == ctx0,
                        self.remote_models@.len() == models0.len(),
                        forall|k: int|
                            0 <= k < models0.len() ==> (#[trigger] self.remote_models@[k]).0
                                == models0[k].0,
                        forall|k: int|
                            i <= k < models0.len() ==> (#[trigger] self.remote_models@[k]).1
                                == models0[k].1,
                        forall|k: int|
                            0 <= k < models0.len() ==> (#[trigger] models0[k]).1.wf(),
                        forall|k: int|
                            0 <= k < i ==> (#[trigger] self.remote_models@[k]).1.recs()
                                == crate::diff_model::remote::gid_kept(
                                models0[k].1.recs(),
                                gid.0,
                            ) && self.remote_models@[k].1.wf(),
                    decreases self.remote_models@.len() - i,
                {
                    let ghost before = self.remote_models@;
                    let mut pair = self.remote_models.remove(i);
                    pair.1.remove_gid(gid);
                    self.remote_models.insert(i, pair);
                    proof {
                        assert(self.remote_models@ =~= before.update(
                            i as int,
                            (before[i as int].0, pair.1),
                        ));
                    }
                    i = i + 1;
                }
                proof {
                    assert forall|k: int, k2: int|
                        0 <= k < self.remote_models@.len() && 0 <= k2 < self.remote_models@[
                            k
                        ].1.recs().len() implies !has_gid(
                        self.local_diff_model.recs(),
                        (#[trigger] self.remote_models@[k].1.recs()[k2]).gid,
                    ) by {
                        let g2 = self.remote_models@[k].1.recs()[k2].gid;
                        assert(r_has_gid(self.remote_models@[k].1.recs(), g2));
                        crate::diff_model::remote::lemma_gid_kept(models0[k].1.recs(), gid.0);
                        assert(r_has_gid(models0[k].1.recs(), g2) && g2 != gid.0);
                        if has_gid(local_after, g2) {
                            assert(has_gid(local0, g2));
                            assert(!has_gid(local0, g2)) by {
                                let m = choose|m: int|
                                    0 <= m < models0[k].1.recs().len() && #[trigger] models0[
                                        k
                                    ].1.recs()[m].gid == g2;
                                assert(!has_gid(local0, models0[k].1.recs()[m].gid));
                            }
                        }
                    }
                    assert forall|i2: int|
                        0 <= i2 < self.remote_models@.len() implies !r_has_gid(
                        (#[trigger] self.remote_models@[i2]).1.recs(),
                        gid.0,
                    ) by {
                        crate::diff_model::remote::lemma_gid_kept(models0[i2].1.recs(), gid.0);
                    }
                }
            }
            ProxyToDes::LostAuthority(gid) => {
                let ghost local0 = self.local_diff_model.recs();
                self.local_diff_model.remove_gid(gid, &mut ctx.host);
                proof {
                    assert forall|i: int, k: int|
                        0 <= i < self.remote_models@.len() && 0 <= k < self.remote_models@[
                            i
                        ].1.recs().len() implies !has_gid(
                        self.local_diff_model.recs(),
                        (#[trigger] self.remote_models@[i].1.recs()[k]).gid,
                    ) by {
                        let g2 = self.remote_models@[i].1.recs()[k].gid;
                        if has_gid(self.local_diff_model.recs(), g2) {
                            assert(g2 != gid.0);
                            assert(has_gid(local0, g2));
                        }
                    }
                }
            }
        }
    }
}

/// Growing the mirror list by a fresh entry for `source` leaves every
/// other peer's mirror as it was.
proof fn lemma_models_push_preserves(
    models0: Seq<(PeerId, RemoteDiffModel)>,
    models1: Seq<(PeerId, RemoteDiffModel)>,
    source: PeerId,
)
    requires
        model_peers_unique(models1),
        models1 == models0 || (models1.len() == models0.len() + 1 && models1 == models0.push(
            models1.last(),
        ) && models1.last().0 == source),
    ensures
        forall|q: PeerId|
            q != source ==> (has_model(models1, q) == has_model(models0, q) && (has_model(
                models0,
                q,
            ) ==> model_of(models1, q) == model_of(models0, q))),
{
    if models1 == models0 {
    } else {
        assert(forall|k: int| 0 <= k < models0.len() ==> #[trigger] models1[k] == models0[k]);
        assert forall|q: PeerId|
            q != source implies (has_model(models1, q) == has_model(models0, q) && (has_model(
            models0,
            q,
        ) ==> model_of(models1, q) == model_of(models0, q))) by {
            if has_model(models0, q) {
                let k = model_idx(models0, q);
                assert(models0[k].0 == q);
                assert forall|a: int, b: int|
                    0 <= a < b < models0.len() implies models0[a].0 != models0[b].0 by {
                    assert(models1[a] == models0[a]);
                    assert(models1[b] == models0[b]);
                    assert(models1[a].0 != models1[b].0);
                }
                assert(model_peers_unique(models0));
                lemma_model_idx(models0, q, k);
                lemma_model_idx(models1, q, k);
            } else {
                if has_model(models1, q) {
                    let k = model_idx(models1, q);
                    assert(models1[k].0 == q);
                    assert(k != models1.len() - 1);
                    assert(models0[k].0 == q);
                }
            }
        }
    }
}

/// The entries of a batch that may enter a mirror while `local` holds
/// authority: a full snapshot for an entity owned here is discarded, so
/// that ownership stays exclusive whatever a peer sends.
pub open spec fn allowed_entries(b: Seq<EntityEntryV>, local: Seq<TrackedRecordV>) -> Seq<
    EntityEntryV,
>
    decreases b.len(),
{
    if b.len() == 0 {
        Seq::empty()
    } else {
        let rest = allowed_entries(b.drop_last(), local);
        if b.last() is Full && has_gid(local, b.last()->Full_gid) {
            rest
        } else {
            rest.push(b.last())
        }
    }
}

/// No allowed full snapshot names an owned gid.
pub proof fn lemma_allowed_entries(b: Seq<EntityEntryV>, local: Seq<TrackedRecordV>)
    ensures
        forall|k: int|
            0 <= k < allowed_entries(b, local).len() && (#[trigger] allowed_entries(b, local)[k])
                is Full ==> !has_gid(local, allowed_entries(b, local)[k]->Full_gid),
    decreases b.len(),
{
    if b.len() == 0 {
    } else {
        lemma_allowed_entries(b.drop_last(), local);
        let t = allowed_entries(b, local);
        let t0 = allowed_entries(b.drop_last(), local);
        assert forall|k: int|
            0 <= k < t.len() && (#[trigger] t[k]) is Full implies !has_gid(
            local,
            t[k]->Full_gid,
        ) by {
            if b.last() is Full && has_gid(local, b.last()->Full_gid) {
                assert(t[k] == t0[k]);
            } else {
                if k < t.len() - 1 {
                    assert(t[k] == t0[k]);
                } else {
                    assert(t[k] == b.last());
                }
            }
        }
    }
}

/// The mirror held for `p`, or an empty one where none exists yet.
pub open spec fn mirror_recs(
    s: Seq<(PeerId, RemoteDiffModel)>,
    p: PeerId,
) -> Seq<crate::diff_model::remote::RemoteRecordV> {
    if has_model(s, p) {
        model_of(s, p).recs()
    } else {
        Seq::empty()
    }
}

impl EntitySync {
    /// Keeps of `batch` only what may enter a mirror: full snapshots for
    /// entities owned here are discarded.
    fn filter_allowed(&self, batch: &Vec<EntityEntry>) -> (r: Vec<EntityEntry>)
        requires
            self.local_diff_model.wf(),
        ensures
            entries_view(r@) == allowed_entries(
                entries_view(batch@),
                self.local_diff_model.recs(),
            ),
    {
        let ghost bv = entries_view(batch@);
        let ghost local = self.local_diff_model.recs();
        let mut r: Vec<EntityEntry> = Vec::new();
        let mut i: usize = 0;
        while i < batch.len()
            invariant
                self.local_diff_model.wf(),
                bv == entries_view(batch@),
                local == self.local_diff_model.recs(),
                i <= batch@.len(),
                entries_view(r@) == allowed_entries(bv.take(i as int), local),
            decreases batch@.len() - i,
        {
            proof {
                assert(bv.take(i + 1 as int).drop_last() =~= bv.take(i as int));
                assert(bv.take(i + 1 as int).last() == bv[i as int]);
                assert(bv[i as int] == batch@[i as int]@);
            }
            let skip: bool = match &batch[i] {
                EntityEntry::Full { gid, .. } => self.local_diff_model.is_tracked_gid(*gid),
                _ => false,
            };
            if !skip {
                let ent = match &batch[i] {
                    EntityEntry::Full { lid, gid, data } => EntityEntry::Full {
                        lid: *lid,
                        gid: *gid,
                        data: crate::diff_model::local::clone_bytes(data),
                    },
                    EntityEntry::Delta { lid, data } => EntityEntry::Delta {
                        lid: *lid,
                        data: crate::diff_model::local::clone_bytes(data),
                    },
                    EntityEntry::Removed { lid } => EntityEntry::Removed { lid: *lid },
                };
                let ghost r0 = r@;
                proof {
                    assert(ent@ == bv[i as int]);
                }
                r.push(ent);
                proof {
                    assert(entries_view(r0.push(ent)) =~= entries_view(r0).push(ent@));
                    assert(allowed_entries(bv.take(i + 1 as int), local) == allowed_entries(
                        bv.take(i as int),
                        local,
                    ).push(bv[i as int]));
                }
            } else {
                proof {
                    assert(allowed_entries(bv.take(i + 1 as int), local) == allowed_entries(
                        bv.take(i as int),
                        local,
                    ));
                }
            }
            i = i + 1;
        }
        proof {
            assert(bv.take(bv.len() as int) =~= bv);
        }
        r
    }

    /// The position of `peer`'s mirror, creating an empty one if absent
    /// (mirrors are created lazily on first contact).
    fn ensure_model(&mut self, peer: PeerId) -> (i: usize)
        requires
            old(self).wf(),
        ensures
            final(self).wf(),
            i < final(self).remote_models@.len(),
            final(self).remote_models@[i as int].0 == peer,
            final(self).local_diff_model == old(self).local_diff_model,
            final(self).interest_tracker == old(self).interest_tracker,
            final(self).pending_fired_projectiles == old(self).pending_fired_projectiles,
            final(self).look_current_entity == old(self).look_current_entity,
            if has_model(old(self).remote_models@, peer) {
                final(self).remote_models@ == old(self).remote_models@ && i == model_idx(
                    old(self).remote_models@,
                    peer,
                )
            } else {
                final(self).remote_models@ == old(self).remote_models@.push(
                    (peer, final(self).remote_models@[i as int].1),
                ) && final(self).remote_models@[i as int].1.recs().len() == 0 && final(self).remote_models@[i as int].1.kills@.len() == 0
            },
    {
        match self.find_model(peer) {
            Some(i) => {
                proof {
                    lemma_model_idx(self.remote_models@, peer, i as int);
                }
                i
            }
            None => {
                let ghost models0 = self.remote_models@;
                let fresh = RemoteDiffModel::new();
                self.remote_models.push((peer, fresh));
                let i = self.remote_models.len() - 1;
                proof {
                    assert(self.remote_models@[i as int].0 == peer);
                    assert(forall|k: int|
                        0 <= k < models0.len() ==> #[trigger] self.remote_models@[k]
                            == models0[k]);
                    assert forall|a: int, b: int|
                        0 <= a < b < self.remote_models@.len() implies self.remote_models@[a].0
                        != self.remote_models@[b].0 by {
                        if b == self.remote_models@.len() - 1 {
                            assert(self.remote_models@[a] == models0[a]);
                            assert(has_model(models0, models0[a].0));
                        }
                    }
                }
                i
            }
        }
    }

    /// Routes one cross-peer payload from `source` into this module's
    /// state: interest requests feed the tracker, entity updates and
    /// projectile events feed `source`'s mirror (created lazily), an
    /// exited-interest or reset signal tears the mirror down, and a reset
    /// additionally withdraws `source`'s interest circle.
    pub fn handle_remotedes(&mut self, ctx: &mut ModuleCtx, source: PeerId, remote_des: RemoteDes)
        requires
            old(self).wf(),
        ensures
            final(self).wf(),
            remotedes_outcome(
                *old(self),
                *final(self),
                *old(ctx),
                *final(ctx),
                source,
                remote_des,
            ),
    {
        match remote_des {
            RemoteDes::InterestRequest(interest_request) => {
                self.interest_tracker.handle_interest_request(source, interest_request);
            }
            RemoteDes::EntityUpdate(vec) => {
                let filtered = self.filter_allowed(&vec);
                let i = self.ensure_model(source);
                let ghost models1 = self.remote_models@;
                let ghost before_pair = self.remote_models@[i as int];
                let mut pair = self.remote_models.remove(i);
                pair.1.apply_diff(&filtered);
                self.remote_models.insert(i, pair);
                proof {
                    assert(self.remote_models@ =~= models1.update(
                        i as int,
                        (before_pair.0, pair.1),
                    ));
                    self.lemma_after_model_update(models1, i as int, source, pair.1);
                    lemma_model_idx(self.remote_models@, source, i as int);
                    // exclusivity for the rewritten mirror
                    crate::diff_model::remote::lemma_apply_batch_gids(
                        before_pair.1.recs(),
                        allowed_entries(
                            entries_view(vec@),
                            self.local_diff_model.recs(),
                        ),
                    );
                    lemma_allowed_entries(
                        entries_view(vec@),
                        self.local_diff_model.recs(),
                    );
                    assert forall|k2: int|
                        0 <= k2 < pair.1.recs().len() implies !has_gid(
                        self.local_diff_model.recs(),
                        (#[trigger] pair.1.recs()[k2]).gid,
                    ) by {
                        let g2 = pair.1.recs()[k2].gid;
                        if crate::diff_model::remote::r_has_gid(before_pair.1.recs(), g2) {
                            let m = choose|m: int|
                                0 <= m < before_pair.1.recs().len()
                                    && #[trigger] before_pair.1.recs()[m].gid == g2;
                            if has_model(old(self).remote_models@, source) {
                                assert(before_pair.1 == model_of(
                                    old(self).remote_models@,
                                    source,
                                ));
                                let mi = model_idx(old(self).remote_models@, source);
                                assert(old(self).remote_models@[mi].1.recs()[m].gid == g2);
                                assert(!has_gid(self.local_diff_model.recs(), g2));
                            } else {
                                assert(before_pair.1.recs().len() == 0);
                                assert(false);
                            }
                        } else {
                            let b2 = allowed_entries(
                                entries_view(vec@),
                                self.local_diff_model.recs(),
                            );
                            let m = choose|m: int|
                                0 <= m < b2.len() && (#[trigger] b2[m]) is Full && b2[m]->Full_gid
                                    == g2;
                            assert(!has_gid(self.local_diff_model.recs(), g2));
                        }
                    }
                    assert(mirror_recs(old(self).remote_models@, source) == before_pair.1.recs());
                    lemma_models_push_preserves(old(self).remote_models@, models1, source);
                }
            }
            RemoteDes::ExitedInterest => {
                match self.find_model(source) {
                    Some(i) => {
                        proof {
                            lemma_model_idx(self.remote_models@, source, i as int);
                        }
                        let ghost models0 = self.remote_models@;
                        self.remote_models.remove(i);
                        proof {
                            self.lemma_after_model_remove(models0, i as int, source);
                        }
                    }
                    None => {}
                }
            }
            RemoteDes::Reset => {
                self.interest_tracker.reset_interest_for(source);
                match self.find_model(source) {
                    Some(i) => {
                        proof {
                            lemma_model_idx(self.remote_models@, source, i as int);
                        }
                        let ghost models0 = self.remote_models@;
                        self.remote_models.remove(i);
                        proof {
                            self.lemma_after_model_remove(models0, i as int, source);
                        }
                    }
                    None => {}
                }
            }
            RemoteDes::Projectiles(vec) => {
                let i = self.ensure_model(source);
                let ghost models1 = self.remote_models@;
                let ghost before_pair = self.remote_models@[i as int];
                let mut pair = self.remote_models.remove(i);
                pair.1.spawn_projectiles(&vec, &mut ctx.host);
                self.remote_models.insert(i, pair);
                proof {
                    assert(self.remote_models@ =~= models1.update(
                        i as int,
                        (before_pair.0, pair.1),
                    ));
                    assert(pair.1 == before_pair.1);
                    assert(self.remote_models@ =~= models1);
                    lemma_model_idx(self.remote_models@, source, i as int);
                    assert(mirror_recs(old(self).remote_models@, source) == before_pair.1.recs());
                    lemma_models_push_preserves(old(self).remote_models@, models1, source);
                    self.lemma_after_model_update(models1, i as int, source, pair.1);
                }
            }
        }
    }

    /// After rewriting the mirror at `i` (which holds `source`), every
    /// other peer's mirror stands as before.
    proof fn lemma_after_model_update(
        &self,
        models1: Seq<(PeerId, RemoteDiffModel)>,
        i: int,
        source: PeerId,
        m: RemoteDiffModel,
    )
        requires
            model_peers_unique(models1),
            0 <= i < models1.len(),
            models1[i].0 == source,
            self.remote_models@ == models1.update(i, (models1[i].0, m)),
        ensures
            model_peers_unique(self.remote_models@),
            forall|q: PeerId|
                q != source ==> (has_model(self.remote_models@, q) == has_model(models1, q) && (
                has_model(models1, q) ==> model_of(self.remote_models@, q) == model_of(
                    models1,
                    q,
                ))),
            has_model(self.remote_models@, source),
    {
        let t = self.remote_models@;
        assert(forall|k: int| 0 <= k < t.len() ==> (#[trigger] t[k]).0 == models1[k].0);
        assert(t[i].0 == source);
        assert forall|q: PeerId|
            q != source implies (has_model(t, q) == has_model(models1, q) && (has_model(
            models1,
            q,
        ) ==> model_of(t, q) == model_of(models1, q))) by {
            if has_model(models1, q) {
                let k = model_idx(models1, q);
                assert(models1[k].0 == q);
                assert(k != i);
                assert(t[k] == models1[k]);
                lemma_model_idx(models1, q, k);
                lemma_model_idx(t, q, k);
            } else {
                if has_model(t, q) {
                    let k = model_idx(t, q);
                    assert(t[k].0 == q);
                    assert(models1[k].0 == q);
                }
            }
        }
    }

    /// After removing the mirror at `i` (which held `source`), every other
    /// peer's mirror stands as before, and `source` has none.
    proof fn lemma_after_model_remove(
        &self,
        models0: Seq<(PeerId, RemoteDiffModel)>,
        i: int,
        source: PeerId,
    )
        requires
            model_peers_unique(models0),
            0 <= i < models0.len(),
            models0[i].0 == source,
            self.remote_models@ == models0.remove(i),
        ensures
            model_peers_unique(self.remote_models@),
            !has_model(self.remote_models@, source),
            forall|q: PeerId|
                q != source ==> (has_model(self.remote_models@, q) == has_model(models0, q) && (
                has_model(models0, q) ==> model_of(self.remote_models@, q) == model_of(
                    models0,
                    q,
                ))),
    {
        let t = self.remote_models@;
        assert forall|k: int| 0 <= k < t.len() implies (#[trigger] t[k] == if k < i {
            models0[k]
        } else {
            models0[k + 1]
        }) by {}
        assert forall|a: int, b: int| 0 <= a < b < t.len() implies t[a].0 != t[b].0 by {
            let a2: int = if a < i { a } else { a + 1 };
            let b2: int = if b < i { b } else { b + 1 };
            assert(t[a] == models0[a2] && t[b] == models0[b2]);
        }
        assert forall|k: int| 0 <= k < t.len() implies (#[trigger] t[k]).0 != source by {
            if k < i {
                assert(t[k] == models0[k]);
            } else {
                assert(t[k] == models0[k + 1]);
            }
        }
        assert forall|q: PeerId|
            q != source implies (has_model(t, q) == has_model(models0, q) && (has_model(
            models0,
            q,
        ) ==> model_of(t, q) == model_of(models0, q))) by {
            if has_model(models0, q) {
                let k = model_idx(models0, q);
                assert(models0[k].0 == q);
                assert(k != i);
                lemma_model_idx(models0, q, k);
                if k < i {
                    assert(t[k] == models0[k]);
                    lemma_model_idx(t, q, k);
                } else {
                    assert(t[k - 1] == models0[k]);
                    lemma_model_idx(t, q, k - 1);
                }
            } else {
                if has_model(t, q) {
                    let k = model_idx(t, q);
                    assert(t[k].0 == q);
                    if k < i {
                        assert(models0[k].0 == q);
                    } else {
                        assert(models0[k + 1].0 == q);
                    }
                }
            }
        }
    }
}

/// Abstract value of a scanned entity.
pub struct EntityInfoV {
    pub entity: u32,
    pub alive: bool,
    pub has_des_tag: bool,
    pub is_enemy: bool,
    pub is_physics_prop: bool,
    pub data: Seq<u8>,
}

impl View for EntityInfo {
    type V = EntityInfoV;

    open spec fn view(&self) -> EntityInfoV {
        EntityInfoV {
            entity: self.entity,
            alive: self.alive,
            has_des_tag: self.has_des_tag,
            is_enemy: self.is_enemy,
            is_physics_prop: self.is_physics_prop,
            data: self.data@,
        }
    }
}

/// The abstract values of a scan batch.
pub open spec fn infos_view(s: Seq<EntityInfo>) -> Seq<EntityInfoV> {
    s.map_values(|x: EntityInfo| x@)
}

/// What the new-entity scan has produced so far: the tracking table, the
/// snapshots announced to the relay, and the entities killed as stale
/// sync-managed leftovers.
pub struct ScanEffectV {
    pub recs: Seq<TrackedRecordV>,
    pub next_lid: u32,
    pub inits: Seq<FullEntityDataV>,
    pub kills: Seq<u32>,
}

/// Whether the scan looks at this entity at all: freshly spawned within
/// the scan window and still alive.
pub open spec fn scan_considers(info: EntityInfoV, lo: u32, hi: u32) -> bool {
    lo < info.entity <= hi && info.alive
}

/// One scan decision. A live entity already carrying the sync-managed
/// marker is killed (stale leftover of a prior session); an eligible
/// entity starts being tracked under the drawn gid, unless that gid is
/// already in use anywhere, the entity is already tracked, or the lid
/// space is exhausted — then it is skipped and retried on a later tick.
pub open spec fn scan_step(
    st: ScanEffectV,
    info: EntityInfoV,
    gid: u64,
    lo: u32,
    hi: u32,
    models: Seq<(PeerId, RemoteDiffModel)>,
) -> ScanEffectV {
    if !scan_considers(info, lo, hi) {
        st
    } else if info.has_des_tag {
        ScanEffectV { kills: st.kills.push(info.entity), ..st }
    } else if (info.is_enemy || info.is_physics_prop) && !has_gid(st.recs, gid)
        && !models_have_gid(models, gid) && !has_entity(st.recs, info.entity) && st.next_lid
        < u32::MAX {
        ScanEffectV {
            recs: st.recs.push(
                TrackedRecordV {
                    lid: st.next_lid,
                    gid,
                    entity: Some(info.entity),
                    current: info.data,
                    last_sent: Seq::empty(),
                    baseline_valid: false,
                },
            ),
            next_lid: (st.next_lid + 1) as u32,
            inits: st.inits.push(FullEntityDataV { gid, data: info.data }),
            kills: st.kills,
        }
    } else {
        st
    }
}

/// The whole scan, one decision per observed entity, each under its own
/// drawn gid.
pub open spec fn scan_fold(
    st0: ScanEffectV,
    infos: Seq<EntityInfoV>,
    gids: Seq<u64>,
    lo: u32,
    hi: u32,
    models: Seq<(PeerId, RemoteDiffModel)>,
) -> ScanEffectV
    decreases infos.len(),
{
    if infos.len() == 0 {
        st0
    } else {
        scan_step(
            scan_fold(st0, infos.drop_last(), gids.drop_last(), lo, hi, models),
            infos.last(),
            gids.last(),
            lo,
            hi,
            models,
        )
    }
}

/// The relay announcements of the snapshots a scan produced.
pub open spec fn init_msgs(inits: Seq<FullEntityDataV>) -> Seq<NoitaOutboundV> {
    inits.map_values(
        |fd: FullEntityDataV| NoitaOutboundV::DesToProxy(DesToProxyV::InitOrUpdateEntity(fd)),
    )
}

/// How one new-entity scan relates the state before it to the state after
/// it, for one sequence of drawn gids.
pub open spec fn scan_outcome(
    old_recs: Seq<TrackedRecordV>,
    old_next: u32,
    old_out: Seq<NoitaOutbound>,
    old_host: Seq<HostCommand>,
    new_recs: Seq<TrackedRecordV>,
    new_next: u32,
    new_out: Seq<NoitaOutbound>,
    new_host: Seq<HostCommand>,
    infos: Seq<EntityInfoV>,
    gids: Seq<u64>,
    lo: u32,
    hi: u32,
    models: Seq<(PeerId, RemoteDiffModel)>,
) -> bool {
    let st = scan_fold(
        ScanEffectV { recs: old_recs, next_lid: old_next, inits: Seq::empty(), kills: Seq::empty() },
        infos,
        gids,
        lo,
        hi,
        models,
    );
    &&& gids.len() == infos.len()
    &&& new_recs == st.recs
    &&& new_next == st.next_lid
    &&& outbound_view(new_out) == outbound_view(old_out) + init_msgs(st.inits)
    &&& cmds_view(new_host) == cmds_view(old_host) + kill_cmds(st.kills)
}

impl EntitySync {
    /// Scans the entities newly spawned since the last boundary: kills
    /// stale sync-managed leftovers, begins tracking eligible entities
    /// under freshly drawn gids, announces each new snapshot to the relay,
    /// and advances the boundary so remotely materialized entities are
    /// never mistaken for local ones.
    pub fn look_for_tracked(&mut self, ctx: &mut ModuleCtx, input: &TickInput) -> (gids: Ghost<
        Seq<u64>,
    >)
        requires
            old(self).wf(),
        ensures
            final(self).wf(),
            final(self).interest_tracker == old(self).interest_tracker,
            final(self).remote_models@ == old(self).remote_models@,
            final(self).pending_fired_projectiles == old(self).pending_fired_projectiles,
            final(self).local_diff_model.removed_lids() == old(self).local_diff_model.removed_lids(),
            final(self).look_current_entity == if input.max_entity > old(self).look_current_entity {
                input.max_entity
            } else {
                old(self).look_current_entity
            },
            scan_outcome(
                old(self).local_diff_model.recs(),
                old(self).local_diff_model.next_lid,
                old(ctx).outbound@,
                old(ctx).host@,
                final(self).local_diff_model.recs(),
                final(self).local_diff_model.next_lid,
                final(ctx).outbound@,
                final(ctx).host@,
                infos_view(input.scan@),
                gids@,
                old(self).look_current_entity,
                input.max_entity,
                old(self).remote_models@,
            ),
    {
        let ghost infos = infos_view(input.scan@);
        let ghost lo = self.look_current_entity;
        let ghost hi = input.max_entity;
        let ghost models0 = self.remote_models@;
        let ghost out0 = ctx.outbound@;
        let ghost host0 = ctx.host@;
        let ghost st0 = ScanEffectV {
            recs: self.local_diff_model.recs(),
            next_lid: self.local_diff_model.next_lid,
            inits: Seq::empty(),
            kills: Seq::empty(),
        };
        let ghost mut gids: Seq<u64> = Seq::empty();
        let ghost mut st = st0;
        proof {
            assert(outbound_view(out0) + init_msgs(st.inits) =~= outbound_view(out0));
            assert(cmds_view(host0) + kill_cmds(st.kills) =~= cmds_view(host0));
        }
        let look_lo = self.look_current_entity;
        let mut i: usize = 0;
        while i < input.scan.len()
            invariant
                self.wf(),
                look_lo == lo,
                hi == input.max_entity,
                infos == infos_view(input.scan@),
                i <= input.scan@.len(),
                gids.len() == i as int,
                st == scan_fold(st0, infos.take(i as int), gids, lo, hi, models0),
                self.interest_tracker == old(self).interest_tracker,
                self.remote_models@ == models0,
                self.pending_fired_projectiles == old(self).pending_fired_projectiles,
                self.look_current_entity == old(self).look_current_entity,
                self.local_diff_model.removed_lids() == old(self).local_diff_model.removed_lids(),
                self.local_diff_model.recs() == st.recs,
                self.local_diff_model.next_lid == st.next_lid,
                outbound_view(ctx.outbound@) == outbound_view(out0) + init_msgs(st.inits),
                cmds_view(ctx.host@) == cmds_view(host0) + kill_cmds(st.kills),
            decreases input.scan@.len() - i,
        {
            let ghost st_prev = st;
            let ghost gids_prev = gids;
            let info = &input.scan[i];
            let ghost cur = infos[i as int];
            proof {
                assert(infos.take(i + 1 as int).last() == infos[i as int]);
                assert(*info == input.scan@[i as int]);
                assert(cur == (*info)@);
                assert(cur.entity == info.entity && cur.alive == info.alive && cur.has_des_tag
                    == info.has_des_tag && cur.is_enemy == info.is_enemy && cur.is_physics_prop
                    == info.is_physics_prop && cur.data == info.data@);
            }
            let mut g: u64 = 0;
            if info.entity > look_lo && info.entity <= input.max_entity && info.alive {
                if info.has_des_tag {
                    let cmd = HostCommand::KillEntity { entity: info.entity };
                    let ghost h0 = ctx.host@;
                    ctx.host.push(cmd);
                    proof {
                        st = ScanEffectV { kills: st.kills.push(cur.entity), ..st };
                        assert(scan_considers(cur, lo, hi));
                        assert(st == scan_step(st_prev, cur, g, lo, hi, models0));
                        assert(cmds_view(h0.push(cmd)) =~= cmds_view(h0).push(cmd@));
                        assert(kill_cmds(st.kills) =~= kill_cmds(st_prev.kills).push(cmd@));
                        assert(cmds_view(host0) + kill_cmds(st_prev.kills).push(cmd@)
                            =~= (cmds_view(host0) + kill_cmds(st_prev.kills)).push(cmd@));
                    }
                } else if self.should_be_tracked(info) {
                    let gid = Gid(rand::random::<u64>());
                    g = gid.0;
                    if !self.gid_known(gid) && self.local_diff_model.next_lid < u32::MAX {
                        let data = crate::diff_model::local::clone_bytes(&info.data);
                        let ghost local0 = self.local_diff_model.recs();
                        match self.local_diff_model.track_entity(info.entity, gid, data) {
                            Ok(lid) => {
                                proof {
                                    st = ScanEffectV {
                                        recs: self.local_diff_model.recs(),
                                        next_lid: self.local_diff_model.next_lid,
                                        inits: st.inits.push(
                                            FullEntityDataV { gid: gid.0, data: cur.data },
                                        ),
                                        kills: st.kills,
                                    };
                                    assert(scan_considers(cur, lo, hi));
                                    assert(!cur.has_des_tag);
                                    assert(cur.is_enemy || cur.is_physics_prop);
                                    assert(!has_gid(st_prev.recs, g));
                                    assert(!models_have_gid(models0, g));
                                    assert(!has_entity(st_prev.recs, cur.entity));
                                    assert(st_prev.next_lid < u32::MAX);
                                    assert(st.recs == st_prev.recs.push(
                                        TrackedRecordV {
                                            lid: st_prev.next_lid,
                                            gid: g,
                                            entity: Some(cur.entity),
                                            current: cur.data,
                                            last_sent: Seq::empty(),
                                            baseline_valid: false,
                                        },
                                    ));
                                    assert(st == scan_step(st_prev, cur, g, lo, hi, models0));
                                    crate::diff_model::local::lemma_lid_idx(
                                        self.local_diff_model.recs(),
                                        lid.0,
                                        self.local_diff_model.recs().len() - 1,
                                    );
                                }
                                match self.local_diff_model.full_entity_data_for(lid) {
                                    Some(fd) => {
                                        let msg = NoitaOutbound::DesToProxy(
                                            DesToProxy::InitOrUpdateEntity(fd),
                                        );
                                        let ghost o0 = ctx.outbound@;
                                        ctx.outbound.push(msg);
                                        proof {
                                            assert(msg@ == (NoitaOutboundV::DesToProxy(
                                                DesToProxyV::InitOrUpdateEntity(
                                                    FullEntityDataV {
                                                        gid: gid.0,
                                                        data: cur.data,
                                                    },
                                                ),
                                            )));
                                            assert(outbound_view(o0.push(msg)) =~= outbound_view(
                                                o0,
                                            ).push(msg@));
                                            assert(init_msgs(st.inits) =~= init_msgs(
                                                st_prev.inits,
                                            ).push(msg@));
                                            assert(outbound_view(out0) + init_msgs(
                                                st_prev.inits,
                                            ).push(msg@) =~= (outbound_view(out0) + init_msgs(
                                                st_prev.inits,
                                            )).push(msg@));
                                        }
                                    }
                                    None => {
                                        proof {
                                            assert(false);
                                        }
                                    }
                                }
                                proof {
                                    crate::diff_model::local::lemma_recs_push(
                                        local0,
                                        TrackedRecordV {
                                            lid: st_prev.next_lid,
                                            gid: gid.0,
                                            entity: Some(cur.entity),
                                            current: cur.data,
                                            last_sent: Seq::empty(),
                                            baseline_valid: false,
                                        },
                                    );
                                    assert forall|i2: int, k2: int|
                                        0 <= i2 < self.remote_models@.len() && 0 <= k2
                                            < self.remote_models@[i2].1.recs().len() implies !has_gid(
                                        self.local_diff_model.recs(),
                                        (#[trigger] self.remote_models@[i2].1.recs()[k2]).gid,
                                    ) by {
                                        let g2 = self.remote_models@[i2].1.recs()[k2].gid;
                                        if has_gid(self.local_diff_model.recs(), g2) {
                                            if g2 == gid.0 {
                                                assert(crate::diff_model::remote::r_has_gid(
                                                    self.remote_models@[i2].1.recs(),
                                                    g2,
                                                ));
                                                assert(models_have_gid(models0, gid.0));
                                                assert(false);
                                            } else {
                                                assert(has_gid(local0, g2));
                                                assert(false);
                                            }
                                        }
                                    }
                                }
                            }
                            Err(_) => {
                                proof {
                                    assert(has_entity(local0, cur.entity) || has_gid(
                                        local0,
                                        gid.0,
                                    ));
                                    assert(!has_gid(local0, gid.0));
                                    assert(has_entity(st_prev.recs, cur.entity));
                                    assert(st == scan_step(st_prev, cur, g, lo, hi, models0));
                                }
                            }
                        }
                    } else {
                        proof {
                            assert(has_gid(st_prev.recs, g) || models_have_gid(models0, g)
                                || !(st_prev.next_lid < u32::MAX));
                            assert(st == scan_step(st_prev, cur, g, lo, hi, models0));
                        }
                    }
                } else {
                    proof {
                        assert(!(cur.is_enemy || cur.is_physics_prop));
                        assert(st == scan_step(st_prev, cur, g, lo, hi, models0));
                    }
                }
            } else {
                proof {
                    assert(!scan_considers(cur, lo, hi));
                    assert(st == scan_step(st_prev, cur, g, lo, hi, models0));
                }
            }
            proof {
                gids = gids.push(g);
                assert(gids.drop_last() =~= gids_prev);
                assert(infos.take(i + 1 as int).drop_last() =~= infos.take(i as int));
                assert(scan_fold(st0, infos.take(i + 1 as int), gids, lo, hi, models0)
                    == scan_step(st_prev, cur, g, lo, hi, models0));
                assert(st == scan_step(st_prev, cur, g, lo, hi, models0));
            }
            i = i + 1;
        }
        proof {
            assert(infos.take(infos.len() as int) =~= infos);
        }
        if input.max_entity > self.look_current_entity {
            self.look_current_entity = input.max_entity;
        }
        proof {
            assert(scan_outcome(
                old(self).local_diff_model.recs(),
                old(self).local_diff_model.next_lid,
                out0,
                host0,
                self.local_diff_model.recs(),
                self.local_diff_model.next_lid,
                ctx.outbound@,
                ctx.host@,
                infos,
                gids,
                lo,
                hi,
                models0,
            ));
        }
        Ghost(gids)
    }

    /// Captures a projectile-launch event at firing time. The event is
    /// enqueued if and only if the firing entity resolves to a locally
    /// owned record, the host reports a valid projectile handle with a
    /// projectile component, and no prior shooter is already attributed —
    /// a remote-origin projectile re-fired locally must not be attributed
    /// to the wrong owner.
    pub fn on_projectile_fired(
        &mut self,
        _ctx: &mut ModuleCtx,
        shooter: Option<u32>,
        projectile: Option<ProjectileInfo>,
        _initial_rng: i32,
        position: WorldPos,
        target: WorldPos,
        _multicast_index: i32,
    ) -> (r: Result<(), DesError>)
        requires
            old(self).wf(),
        ensures
            final(self).wf(),
            r is Ok,
            *final(_ctx) == *old(_ctx),
            projectile_outcome(
                *old(self),
                *final(self),
                shooter,
                projectile,
                position,
                target,
            ),
    {
        let shooter_lid: Lid;
        match shooter {
            Some(e) => {
                match self.local_diff_model.lid_by_entity(e) {
                    Some(l) => {
                        shooter_lid = l;
                    }
                    None => {
                        return Ok(());
                    }
                }
            }
            None => {
                return Ok(());
            }
        }
        let proj: ProjectileInfo;
        match projectile {
            Some(p) => {
                proj = p;
            }
            None => {
                return Ok(());
            }
        }
        if !proj.has_projectile_component {
            return Ok(());
        }
        if proj.entity_that_shot.is_some() {
            return Ok(());
        }
        let ghost p0 = self.pending_fired_projectiles@;
        let pf = ProjectileFired {
            shooter_lid,
            position,
            target,
            serialized: proj.serialized,
        };
        proof {
            assert(pf@ == (crate::messages::ProjectileFiredV {
                shooter_lid: shooter_lid.0,
                position,
                target,
                serialized: projectile.unwrap().serialized@,
            }));
        }
        self.pending_fired_projectiles.push(pf);
        proof {
            assert(projectiles_view(p0.push(pf)) =~= projectiles_view(p0).push(pf@));
        }
        Ok(())
    }

    /// Announces a session (re)initialization: a reliable broadcast
    /// `Reset`, so every peer discards cached interest and mirror state
    /// for this sender.
    pub fn on_world_init(&mut self, ctx: &mut ModuleCtx) -> (r: Result<(), DesError>)
        requires
            old(self).wf(),
        ensures
            final(self).wf(),
            r is Ok,
            *final(self) == *old(self),
            final(ctx).host@ == old(ctx).host@,
            final(ctx).outbound@ == old(ctx).outbound@.push(
                NoitaOutbound::RemoteMessage {
                    reliable: true,
                    destination: Destination::Broadcast,
                    message: RemoteMessage::RemoteDes(RemoteDes::Reset),
                },
            ),
    {
        send_remotedes(ctx, true, Destination::Broadcast, RemoteDes::Reset);
        Ok(())
    }
}

impl Default for EntitySync {
    /// A freshly initialized module: the scan boundary starts at the first
    /// host entity handle, no peer is interested, nothing is tracked or
    /// mirrored, and no projectile is pending.
    fn default() -> (s: Self)
        ensures
            s.wf(),
            s.look_current_entity == 1,
            s.interest_tracker.entries@.len() == 0,
            s.interest_tracker.lost@.len() == 0,
            !s.interest_tracker.any_new,
            s.interest_tracker.slack == INTEREST_SLACK,
            s.local_diff_model.recs().len() == 0,
            s.local_diff_model.removed_lids().len() == 0,
            s.local_diff_model.next_lid == 0,
            s.remote_models@.len() == 0,
            s.pending_fired_projectiles@.len() == 0,
    {
        EntitySync {
            look_current_entity: 1,
            interest_tracker: InterestTracker::new(INTEREST_SLACK),
            local_diff_model: LocalDiffModel::new(),
            remote_models: Vec::new(),
            pending_fired_projectiles: Vec::new(),
        }
    }
}

/// Ownership exclusivity: an entity with authority on this peer appears in
/// exactly one record of the Local Diff Model and in no Remote Diff Model,
/// in every well-formed state.
pub proof fn lemma_authority_exclusive(s: EntitySync, g: u64)
    requires
        s.wf(),
        has_gid(s.local_diff_model.recs(), g),
    ensures
        exists|i: int|
            0 <= i < s.local_diff_model.recs().len() && (#[trigger] s.local_diff_model.recs()[
                i
            ]).gid == g,
        forall|i: int, j: int|
            0 <= i < j < s.local_diff_model.recs().len() ==> !((#[trigger] s.local_diff_model.recs()[
                i
            ]).gid == g && (#[trigger] s.local_diff_model.recs()[j]).gid == g),
        forall|i: int, k: int|
            0 <= i < s.remote_models@.len() && 0 <= k < s.remote_models@[i].1.recs().len() ==> (
            #[trigger] s.remote_models@[i].1.recs()[k]).gid != g,
{
    let k = crate::diff_model::local::gid_idx(s.local_diff_model.recs(), g);
    assert(s.local_diff_model.recs()[k].gid == g);
    assert forall|i: int, k2: int|
        0 <= i < s.remote_models@.len() && 0 <= k2 < s.remote_models@[i].1.recs().len() implies (
    #[trigger] s.remote_models@[i].1.recs()[k2]).gid != g by {
        if s.remote_models@[i].1.recs()[k2].gid == g {
            assert(!has_gid(s.local_diff_model.recs(), g));
        }
    }
}

/// The interest announcement broadcast on the announcement cadence.
pub open spec fn interest_msg(camera: WorldPos) -> NoitaOutboundV {
    NoitaOutboundV::RemoteMessage {
        reliable: true,
        destination: Destination::Broadcast,
        message: RemoteDesV::InterestRequest(
            InterestRequest { pos: camera, radius: INTEREST_REQUEST_RADIUS },
        ),
    }
}

/// The authority request sent on the authority cadence.
pub open spec fn authority_msg(camera: WorldPos) -> NoitaOutboundV {
    NoitaOutboundV::DesToProxy(
        DesToProxyV::RequestAuthority { pos: camera, radius: REQUEST_AUTHORITY_RADIUS },
    )
}

/// The two messages each interested peer receives on an even tick, in
/// peer order: the pending projectile batch (reliable) and the one shared
/// diff batch (reliable exactly when it carries a forced fresh baseline).
pub open spec fn peer_msgs(
    peers: Seq<PeerId>,
    projs: Seq<ProjectileFiredV>,
    batch: Seq<EntityEntryV>,
    fresh_baseline: bool,
) -> Seq<NoitaOutboundV>
    decreases peers.len(),
{
    if peers.len() == 0 {
        Seq::empty()
    } else {
        peer_msgs(peers.drop_last(), projs, batch, fresh_baseline).push(
            NoitaOutboundV::RemoteMessage {
                reliable: true,
                destination: Destination::Peer(peers.last()),
                message: RemoteDesV::Projectiles(projs),
            },
        ).push(
            NoitaOutboundV::RemoteMessage {
                reliable: fresh_baseline,
                destination: Destination::Peer(peers.last()),
                message: RemoteDesV::EntityUpdate(batch),
            },
        )
    }
}

/// The host commands an odd tick's materialization pass issues, one
/// mirror after the other in model order.
pub open spec fn materialize_cmds(models: Seq<(PeerId, RemoteDiffModel)>) -> Seq<HostCommandV>
    decreases models.len(),
{
    if models.len() == 0 {
        Seq::empty()
    } else {
        materialize_cmds(models.drop_last()) + kill_cmds(models.last().1.kills@) + entity_cmds(
            models.last().1.recs(),
            models.last().0,
        )
    }
}

/// Every mirror after a materialization pass: same peers, records clean,
/// kill queues drained.
pub open spec fn models_materialized(
    pre: Seq<(PeerId, RemoteDiffModel)>,
    post: Seq<(PeerId, RemoteDiffModel)>,
) -> bool {
    &&& post.len() == pre.len()
    &&& forall|i: int|
        0 <= i < pre.len() ==> (#[trigger] post[i]).0 == pre[i].0 && post[i].1.kills@.len() == 0
            && post[i].1.recs().len() == pre[i].1.recs().len() && (forall|k: int|
            0 <= k < pre[i].1.recs().len() ==> (#[trigger] post[i].1.recs()[k])
                == rec_after_materialize(pre[i].1.recs()[k]))
}

/// A table with every receiver-baseline assumption withdrawn.
pub open spec fn reset_recs(s: Seq<TrackedRecordV>) -> Seq<TrackedRecordV> {
    s.map_values(|r: TrackedRecordV| TrackedRecordV { baseline_valid: false, ..r })
}

/// A table after a batch was emitted from every record.
pub open spec fn recs_rebased(pre: Seq<TrackedRecordV>, post: Seq<TrackedRecordV>) -> bool {
    post.len() == pre.len() && forall|k: int|
        0 <= k < pre.len() ==> #[trigger] post[k] == record_after_diff(pre[k])
}

/// The records an even tick's diff batch is encoded from: the scanned
/// table refreshed by the samples, with every baseline withdrawn when a
/// peer just became interested.
pub open spec fn tick_diff_source(
    scanned: Seq<TrackedRecordV>,
    samples: Seq<crate::host::EntitySampleV>,
    fresh_baseline: bool,
) -> Seq<TrackedRecordV> {
    if fresh_baseline {
        reset_recs(updated_recs(scanned, samples))
    } else {
        updated_recs(scanned, samples)
    }
}

/// The one shared diff batch of an even tick: removals queued before the
/// tick and by this tick's sampling, then each record's contribution.
pub open spec fn tick_batch(
    scanned: Seq<TrackedRecordV>,
    removed: Seq<u32>,
    samples: Seq<crate::host::EntitySampleV>,
    fresh_baseline: bool,
) -> Seq<EntityEntryV> {
    removal_entries(removed + newly_removed(scanned, samples)) + diff_entries(
        tick_diff_source(scanned, samples, fresh_baseline),
    )
}

/// Everything one tick does, for the gid sequence the scan drew: the
/// exact relay traffic and host commands it queues, in order, and the
/// exact state every component is left in.
#[verifier::opaque]
pub open spec fn tick_outcome(
    pre: EntitySync,
    post: EntitySync,
    cpre: ModuleCtx,
    cpost: ModuleCtx,
    input: TickInput,
    gids: Seq<u64>,
) -> bool {
    let st = scan_fold(
        ScanEffectV {
            recs: pre.local_diff_model.recs(),
            next_lid: pre.local_diff_model.next_lid,
            inits: Seq::empty(),
            kills: Seq::empty(),
        },
        infos_view(input.scan@),
        gids,
        pre.look_current_entity,
        input.max_entity,
        pre.remote_models@,
    );
    let now1 = tick_after(pre.interest_tracker.now);
    let lost = pre.interest_tracker.lost@ + stale_peers(pre.interest_tracker.entries@, now1);
    let live = live_entries(pre.interest_tracker.entries@, now1);
    let peers = crate::interest::entry_peers_of(live);
    let even = input.frame_num % 2 == 0;
    let fresh = pre.interest_tracker.any_new;
    let samples = samples_view(input.samples@);
    let batch = tick_batch(st.recs, pre.local_diff_model.removed_lids(), samples, fresh);
    let interest_part: Seq<NoitaOutboundV> = if input.frame_num % 20 == 0 {
        seq![interest_msg(input.camera)]
    } else {
        Seq::empty()
    };
    let send_part: Seq<NoitaOutboundV> = if even {
        peer_msgs(peers, projectiles_view(pre.pending_fired_projectiles@), batch, fresh)
    } else {
        Seq::empty()
    };
    let authority_part: Seq<NoitaOutboundV> = if input.frame_num % 60 == 0 {
        seq![authority_msg(input.camera)]
    } else {
        Seq::empty()
    };
    &&& gids.len() == input.scan@.len()
    // every relay message of the tick, in order
    &&& outbound_view(cpost.outbound@) == outbound_view(cpre.outbound@) + init_msgs(st.inits)
        + interest_part + exited_msgs(lost) + send_part + authority_part
    // every host command of the tick, in order
    &&& cmds_view(cpost.host@) == cmds_view(cpre.host@) + kill_cmds(st.kills) + grant_commands(
        st.recs,
    ) + (if even {
        Seq::<HostCommandV>::empty()
    } else {
        materialize_cmds(pre.remote_models@)
    })
    // the scan boundary
    &&& post.look_current_entity == (if input.max_entity > pre.look_current_entity {
        input.max_entity
    } else {
        pre.look_current_entity
    })
    // the tracker: refreshed viewpoint, advanced clock, exactly the live
    // circles kept, nothing pending
    &&& post.interest_tracker.center == input.camera
    &&& post.interest_tracker.now == now1
    &&& post.interest_tracker.slack == pre.interest_tracker.slack
    &&& post.interest_tracker.entries@ == live
    &&& post.interest_tracker.lost@.len() == 0
    &&& post.interest_tracker.any_new == (if even {
        false
    } else {
        pre.interest_tracker.any_new
    })
    // the local model
    &&& post.local_diff_model.next_lid == st.next_lid
    &&& (if even {
        recs_rebased(tick_diff_source(st.recs, samples, fresh), post.local_diff_model.recs())
            && post.local_diff_model.removed_lids().len() == 0
    } else {
        post.local_diff_model.recs() == st.recs && post.local_diff_model.removed_lids()
            == pre.local_diff_model.removed_lids()
    })
    // the mirrors
    &&& (if even {
        post.remote_models@ == pre.remote_models@
    } else {
        models_materialized(pre.remote_models@, post.remote_models@)
    })
    // the projectile queue
    &&& (if even {
        post.pending_fired_projectiles@.len() == 0
    } else {
        post.pending_fired_projectiles == pre.pending_fired_projectiles
    })
}

/// The entries an outbound unit carries, where it is an entity-update
/// message; empty otherwise.
pub open spec fn msg_update_entries(m: NoitaOutboundV) -> Seq<EntityEntryV> {
    match m {
        NoitaOutboundV::RemoteMessage { message: RemoteDesV::EntityUpdate(es), .. } => es,
        _ => Seq::empty(),
    }
}

/// No unit from position `base` on carries an incremental delta.
pub open spec fn no_deltas_from(v: Seq<NoitaOutboundV>, base: int) -> bool {
    forall|k: int, j: int|
        base <= k < v.len() && 0 <= j < msg_update_entries(v[k]).len() ==> !(
        #[trigger] msg_update_entries(v[k])[j]).is_delta()
}

/// The exited-interest notification each lost peer receives.
pub open spec fn exited_msgs(lost: Seq<PeerId>) -> Seq<NoitaOutboundV> {
    lost.map_values(
        |p: PeerId| NoitaOutboundV::RemoteMessage {
            reliable: true,
            destination: Destination::Peer(p),
            message: RemoteDesV::ExitedInterest,
        },
    )
}

/// The tracker clock after one tick (saturating).
pub open spec fn tick_after(now: u64) -> u64 {
    if now == u64::MAX {
        u64::MAX
    } else {
        (now + 1) as u64
    }
}

impl EntitySync {
    /// One simulation tick. Scans for newly spawned entities, refreshes the
    /// viewpoint, announces interest every twentieth tick, notifies and
    /// prunes peers whose interest is gone, advances pending authority
    /// transfers, and then alternates: on even ticks it samples owned
    /// entities, re-baselines if a peer just became interested, and sends
    /// one shared projectile batch and one shared diff batch to every
    /// interested peer; on odd ticks it materializes all mirrors into host
    /// shadow entities. Every sixtieth tick it requests authority over
    /// entities near the viewpoint.
    #[verifier::rlimit(80)]
    pub fn on_world_update(&mut self, ctx: &mut ModuleCtx, input: &TickInput) -> (r: Result<
        (),
        DesError,
    >)
        requires
            old(self).wf(),
        ensures
            final(self).wf(),
            r is Ok,
            // the whole tick, exactly: traffic, commands and final state,
            // for the gid sequence the scan drew
            exists|gids: Seq<u64>|
                #[trigger] tick_outcome(
                    *old(self),
                    *final(self),
                    *old(ctx),
                    *final(ctx),
                    *input,
                    gids,
                ),
            // a tick that saw fresh interest sends no incremental delta: the
            // shared batch was re-encoded from full baselines
            old(self).interest_tracker.any_new ==> no_deltas_from(
                outbound_view(final(ctx).outbound@),
                old(ctx).outbound@.len() as int,
            ),
            // every peer whose interest is gone is told so, reliably
            forall|p: PeerId|
                (old(self).interest_tracker.pending_lost(p) || (old(
                    self,
                ).interest_tracker.interested(p) && crate::interest::is_stale(
                    old(self).interest_tracker.entry_of(p),
                    tick_after(old(self).interest_tracker.now),
                ))) ==> exists|k: int|
                    old(ctx).outbound@.len() <= k < final(ctx).outbound@.len()
                        && #[trigger] outbound_view(final(ctx).outbound@)[k]
                        == (NoitaOutboundV::RemoteMessage {
                        reliable: true,
                        destination: Destination::Peer(p),
                        message: RemoteDesV::ExitedInterest,
                    }),
    {
        let ghost out_base = ctx.outbound@.len() as int;
        let ghost ov0 = outbound_view(ctx.outbound@);
        let ghost h0 = cmds_view(ctx.host@);
        let ghost any_new0 = self.interest_tracker.any_new;
        let ghost samples = samples_view(input.samples@);
        // 1. scan for newly spawned entities
        let drawn = self.look_for_tracked(ctx, input);
        let ghost gids = drawn@;
        let ghost st = scan_fold(
            ScanEffectV {
                recs: old(self).local_diff_model.recs(),
                next_lid: old(self).local_diff_model.next_lid,
                inits: Seq::empty(),
                kills: Seq::empty(),
            },
            infos_view(input.scan@),
            gids,
            old(self).look_current_entity,
            input.max_entity,
            old(self).remote_models@,
        );
        proof {
            assert(outbound_view(ctx.outbound@) == ov0 + init_msgs(st.inits));
            assert(cmds_view(ctx.host@) == h0 + kill_cmds(st.kills));
            assert forall|k: int, j: int|
                out_base <= k < outbound_view(ctx.outbound@).len() && 0 <= j < msg_update_entries(
                    outbound_view(ctx.outbound@)[k],
                ).len() implies !(#[trigger] msg_update_entries(outbound_view(ctx.outbound@)[k])[
                j
            ]).is_delta() by {
                assert(outbound_view(ctx.outbound@)[k] == init_msgs(st.inits)[k - out_base]);
            }
            assert(no_deltas_from(outbound_view(ctx.outbound@), out_base));
        }
        let ghost ov1 = outbound_view(ctx.outbound@);
        // 2. refresh the viewpoint and the tick clock
        self.interest_tracker.set_center(input.camera.x, input.camera.y);
        self.interest_tracker.begin_tick();
        // 3. announce interest every twentieth tick
        let ghost mut interest_idx: int = 0;
        if input.frame_num % 20 == 0 {
            proof {
                interest_idx = ctx.outbound@.len() as int;
            }
            send_remotedes(
                ctx,
                true,
                Destination::Broadcast,
                RemoteDes::InterestRequest(
                    InterestRequest { pos: input.camera, radius: INTEREST_REQUEST_RADIUS },
                ),
            );
        }
        let ghost interest_part: Seq<NoitaOutboundV> = if input.frame_num % 20 == 0 {
            seq![interest_msg(input.camera)]
        } else {
            Seq::empty()
        };
        proof {
            if input.frame_num % 20 == 0 {
                assert(outbound_view(ctx.outbound@) =~= ov1.push(interest_msg(input.camera)));
                assert(ov1.push(interest_msg(input.camera)) =~= ov1 + interest_part);
                assert(outbound_view(ctx.outbound@)[interest_idx] == interest_msg(input.camera));
            } else {
                assert(ov1 + interest_part =~= ov1);
            }
            assert(outbound_view(ctx.outbound@) == ov1 + interest_part);
            assert forall|k: int, j: int|
                out_base <= k < outbound_view(ctx.outbound@).len() && 0 <= j < msg_update_entries(
                    outbound_view(ctx.outbound@)[k],
                ).len() implies !(#[trigger] msg_update_entries(outbound_view(ctx.outbound@)[k])[
                j
            ]).is_delta() by {
                if k < ov1.len() {
                    assert(outbound_view(ctx.outbound@)[k] == ov1[k]);
                } else {
                    assert(outbound_view(ctx.outbound@)[k] == interest_msg(input.camera));
                    assert(msg_update_entries(interest_msg(input.camera)) =~= Seq::<
                        EntityEntryV,
                    >::empty());
                }
            }
            assert(no_deltas_from(outbound_view(ctx.outbound@), out_base));
        }
        // 4. notify peers whose interest is gone
        let lost = self.interest_tracker.drain_lost_interest();
        proof {
            assert(lost@ == old(self).interest_tracker.lost@ + stale_peers(
                old(self).interest_tracker.entries@,
                tick_after(old(self).interest_tracker.now),
            ));
        }
        let ghost ov2 = outbound_view(ctx.outbound@);
        let ghost exited_base = ctx.outbound@.len() as int;
        let mut li: usize = 0;
        proof {
            assert(ov2 + exited_msgs(lost@.take(0)) =~= ov2);
        }
        while li < lost.len()
            invariant
                li <= lost@.len(),
                outbound_view(ctx.outbound@) == ov2 + exited_msgs(lost@.take(li as int)),
                cmds_view(ctx.host@) == h0 + kill_cmds(st.kills),
            decreases lost@.len() - li,
        {
            let p = lost[li];
            let ghost o0 = ctx.outbound@;
            send_remotedes(ctx, true, Destination::Peer(p), RemoteDes::ExitedInterest);
            proof {
                let mv = (NoitaOutboundV::RemoteMessage {
                    reliable: true,
                    destination: Destination::Peer(p),
                    message: RemoteDesV::ExitedInterest,
                });
                assert(outbound_view(ctx.outbound@) =~= outbound_view(o0).push(mv));
                assert(exited_msgs(lost@.take(li + 1 as int)) =~= exited_msgs(
                    lost@.take(li as int),
                ).push(mv));
                assert(ov2 + exited_msgs(lost@.take(li as int)).push(mv) =~= (ov2 + exited_msgs(
                    lost@.take(li as int),
                )).push(mv));
            }
            li = li + 1;
        }
        proof {
            assert(lost@.take(lost@.len() as int) =~= lost@);
            assert(outbound_view(ctx.outbound@) == ov2 + exited_msgs(lost@));
            assert(no_deltas_from(outbound_view(ctx.outbound@), out_base)) by {
                assert forall|k: int, j: int|
                    out_base <= k < outbound_view(ctx.outbound@).len() && 0 <= j
                        < msg_update_entries(outbound_view(ctx.outbound@)[k]).len() implies !(
                #[trigger] msg_update_entries(outbound_view(ctx.outbound@)[k])[j]).is_delta() by {
                    if k < exited_base {
                        assert(outbound_view(ctx.outbound@)[k] == ov2[k]);
                    } else {
                        assert(outbound_view(ctx.outbound@)[k] == exited_msgs(lost@)[k
                            - exited_base]);
                    }
                }
            }
        }
        // 5. advance pending authority transfers
        self.local_diff_model.update_pending_authority(&mut ctx.host);
        proof {
            assert(cmds_view(ctx.host@) == (h0 + kill_cmds(st.kills)) + grant_commands(st.recs));
        }
        let ghost ov3 = outbound_view(ctx.outbound@);
        let ghost h1 = cmds_view(ctx.host@);
        // 6. even ticks broadcast; odd ticks materialize
        if input.frame_num % 2 == 0 {
            self.local_diff_model.update_tracked_entities(&input.samples);
            proof {
                assert(self.local_diff_model.recs() == updated_recs(st.recs, samples));
                assert forall|i2: int, k2: int|
                    0 <= i2 < self.remote_models@.len() && 0 <= k2 < self.remote_models@[
                        i2
                    ].1.recs().len() implies !has_gid(
                    self.local_diff_model.recs(),
                    (#[trigger] self.remote_models@[i2].1.recs()[k2]).gid,
                ) by {
                    if has_gid(
                        self.local_diff_model.recs(),
                        self.remote_models@[i2].1.recs()[k2].gid,
                    ) {
                        assert(false);
                    }
                }
            }
            let had_new = self.interest_tracker.got_any_new_interested();
            proof {
                assert(had_new == any_new0);
            }
            let ghost pre_reset = self.local_diff_model.recs();
            if had_new {
                self.local_diff_model.reset_diff_encoding();
                proof {
                    assert(self.local_diff_model.recs() =~= reset_recs(pre_reset));
                    assert forall|i2: int, k2: int|
                        0 <= i2 < self.remote_models@.len() && 0 <= k2 < self.remote_models@[
                            i2
                        ].1.recs().len() implies !has_gid(
                        self.local_diff_model.recs(),
                        (#[trigger] self.remote_models@[i2].1.recs()[k2]).gid,
                    ) by {
                        let g2 = self.remote_models@[i2].1.recs()[k2].gid;
                        if has_gid(self.local_diff_model.recs(), g2) {
                            let k = crate::diff_model::local::gid_idx(
                                self.local_diff_model.recs(),
                                g2,
                            );
                            assert(self.local_diff_model.recs()[k].gid == g2);
                            assert(pre_reset[k].gid == g2);
                            assert(has_gid(pre_reset, g2));
                            assert(false);
                        }
                    }
                }
            }
            proof {
                assert(self.local_diff_model.recs() == tick_diff_source(
                    st.recs,
                    samples,
                    any_new0,
                )) by {
                    if !had_new {
                        assert(tick_diff_source(st.recs, samples, any_new0) == updated_recs(
                            st.recs,
                            samples,
                        ));
                    }
                }
            }
            let ghost recs_pre_diff = self.local_diff_model.recs();
            let ghost removed_pre_diff = self.local_diff_model.removed_lids();
            let diff = self.local_diff_model.make_diff();
            proof {
                assert(removed_pre_diff == old(self).local_diff_model.removed_lids()
                    + newly_removed(st.recs, samples));
                assert(entries_view(diff@) == tick_batch(
                    st.recs,
                    old(self).local_diff_model.removed_lids(),
                    samples,
                    any_new0,
                ));
                assert forall|g2: u64| has_gid(self.local_diff_model.recs(), g2) implies has_gid(
                    recs_pre_diff,
                    g2,
                ) by {
                    let k = crate::diff_model::local::gid_idx(self.local_diff_model.recs(), g2);
                    assert(self.local_diff_model.recs()[k].gid == g2);
                    assert(recs_pre_diff[k].gid == g2);
                }
                assert forall|i2: int, k2: int|
                    0 <= i2 < self.remote_models@.len() && 0 <= k2 < self.remote_models@[
                        i2
                    ].1.recs().len() implies !has_gid(
                    self.local_diff_model.recs(),
                    (#[trigger] self.remote_models@[i2].1.recs()[k2]).gid,
                ) by {}
                if had_new {
                    crate::diff_model::local::lemma_fresh_baseline_diff_is_full(recs_pre_diff);
                    assert forall|j: int|
                        0 <= j < entries_view(diff@).len() implies !entries_view(diff@)[
                        j
                    ].is_delta() by {
                        let nrem = removed_pre_diff.len() as int;
                        if j < nrem {
                            assert(entries_view(diff@)[j] == removal_entries(removed_pre_diff)[j]);
                        } else {
                            assert(entries_view(diff@)[j] == diff_entries(recs_pre_diff)[j
                                - nrem]);
                        }
                    }
                }
            }
            let interested = self.interest_tracker.iter_interested();
            proof {
                assert(interested@ == crate::interest::entry_peers_of(live_entries(
                    old(self).interest_tracker.entries@,
                    tick_after(old(self).interest_tracker.now),
                )));
            }
            let ghost peers = interested@;
            let ghost projs_v = projectiles_view(self.pending_fired_projectiles@);
            let ghost batch_v = entries_view(diff@);
            let mut pi: usize = 0;
            proof {
                assert(ov3 + peer_msgs(peers.take(0), projs_v, batch_v, any_new0) =~= ov3);
            }
            while pi < interested.len()
                invariant
                    pi <= interested@.len(),
                    peers == interested@,
                    projs_v == projectiles_view(self.pending_fired_projectiles@),
                    batch_v == entries_view(diff@),
                    had_new == any_new0,
                    any_new0 ==> (forall|j: int|
                        0 <= j < entries_view(diff@).len() ==> !(#[trigger] entries_view(diff@)[
                            j
                        ]).is_delta()),
                    0 <= out_base <= ov3.len() <= outbound_view(ctx.outbound@).len(),
                    outbound_view(ctx.outbound@) == ov3 + peer_msgs(
                        peers.take(pi as int),
                        projs_v,
                        batch_v,
                        any_new0,
                    ),
                    cmds_view(ctx.host@) == h1,
                    any_new0 ==> no_deltas_from(outbound_view(ctx.outbound@), out_base),
                decreases interested@.len() - pi,
            {
                proof {
                    assert(peers.take(pi + 1 as int).drop_last() =~= peers.take(pi as int));
                    assert(peers.take(pi + 1 as int).last() == peers[pi as int]);
                }
                let projs = clone_projectiles(&self.pending_fired_projectiles);
                let ghost oa = ctx.outbound@;
                send_remotedes(
                    ctx,
                    true,
                    Destination::Peer(interested[pi]),
                    RemoteDes::Projectiles(projs),
                );
                let ghost pm = (NoitaOutboundV::RemoteMessage {
                    reliable: true,
                    destination: Destination::Peer(peers[pi as int]),
                    message: RemoteDesV::Projectiles(projs_v),
                });
                proof {
                    assert(ctx.outbound@[ctx.outbound@.len() - 1]@ == pm);
                    assert(outbound_view(ctx.outbound@) =~= outbound_view(oa).push(pm));
                }
                let entries = clone_entries(&diff);
                let ghost ob = ctx.outbound@;
                send_remotedes(
                    ctx,
                    had_new,
                    Destination::Peer(interested[pi]),
                    RemoteDes::EntityUpdate(entries),
                );
                let ghost um = (NoitaOutboundV::RemoteMessage {
                    reliable: any_new0,
                    destination: Destination::Peer(peers[pi as int]),
                    message: RemoteDesV::EntityUpdate(batch_v),
                });
                proof {
                    assert(ctx.outbound@[ctx.outbound@.len() - 1]@ == um);
                    assert(outbound_view(ctx.outbound@) =~= outbound_view(ob).push(um));
                    assert(peer_msgs(peers.take(pi + 1 as int), projs_v, batch_v, any_new0)
                        == peer_msgs(peers.take(pi as int), projs_v, batch_v, any_new0).push(
                        pm,
                    ).push(um));
                    assert((ov3 + peer_msgs(peers.take(pi as int), projs_v, batch_v, any_new0)).push(
                        pm,
                    ).push(um) =~= ov3 + peer_msgs(
                        peers.take(pi as int),
                        projs_v,
                        batch_v,
                        any_new0,
                    ).push(pm).push(um));
                    let ovn = outbound_view(ctx.outbound@);
                    if any_new0 {
                        assert forall|k: int, j: int|
                            out_base <= k < ovn.len() && 0 <= j < msg_update_entries(
                                ovn[k],
                            ).len() implies !(#[trigger] msg_update_entries(ovn[k])[
                            j
                        ]).is_delta() by {
                            if k < oa.len() {
                                assert(outbound_view(ob) =~= outbound_view(oa).push(pm));
                                assert(outbound_view(oa).len() == oa.len());
                                assert(ob == oa.push(ob[ob.len() - 1]));
                                assert(outbound_view(ob).len() == ob.len());
                                assert(ovn == outbound_view(ob).push(um));
                                assert(outbound_view(ob).push(um)[k] == outbound_view(ob)[k]);
                                assert(outbound_view(oa).push(pm)[k] == outbound_view(oa)[k]);
                                assert(ovn[k] == outbound_view(oa)[k]);
                            } else if k == oa.len() {
                                assert(ovn[k] == pm);
                                assert(msg_update_entries(pm) =~= Seq::<EntityEntryV>::empty());
                            } else {
                                assert(ovn[k] == um);
                                assert(msg_update_entries(um) == batch_v);
                            }
                        }
                    }
                }
                pi = pi + 1;
            }
            proof {
                assert(peers.take(peers.len() as int) =~= peers);
            }
            self.pending_fired_projectiles = Vec::new();
        } else {
            let ghost models_b = self.remote_models@;
            let ghost local_b = self.local_diff_model;
            let ghost trk1 = self.interest_tracker;
            let ghost lc1 = self.look_current_entity;
            let mut mi: usize = 0;
            proof {
                assert(h1 + materialize_cmds(models_b.take(0)) =~= h1);
            }
            while mi < self.remote_models.len()
                invariant
                    mi <= self.remote_models@.len(),
                    self.local_diff_model == local_b,
                    self.local_diff_model.wf(),
                    self.interest_tracker == trk1,
                    self.interest_tracker.wf(),
                    self.look_current_entity == lc1,
                    self.pending_fired_projectiles == old(self).pending_fired_projectiles,
                    self.remote_models@.len() == models_b.len(),
                    forall|k: int|
                        0 <= k < models_b.len() ==> (#[trigger] self.remote_models@[k]).0
                            == models_b[k].0,
                    forall|k: int|
                        mi <= k < models_b.len() ==> (#[trigger] self.remote_models@[k]).1
                            == models_b[k].1,
                    forall|k: int|
                        0 <= k < models_b.len() ==> (#[trigger] models_b[k]).1.wf(),
                    forall|k: int|
                        0 <= k < mi ==> (#[trigger] self.remote_models@[k]).1.wf()
                            && self.remote_models@[k].1.kills@.len() == 0
                            && self.remote_models@[k].1.recs().len() == models_b[k].1.recs().len()
                            && (forall|k2: int|
                            0 <= k2 < models_b[k].1.recs().len()
                                ==> (#[trigger] self.remote_models@[k].1.recs()[k2])
                                == rec_after_materialize(models_b[k].1.recs()[k2])),
                    outbound_view(ctx.outbound@) == ov3,
                    cmds_view(ctx.host@) == h1 + materialize_cmds(models_b.take(mi as int)),
                decreases self.remote_models@.len() - mi,
            {
                proof {
                    assert(models_b.take(mi + 1 as int).drop_last() =~= models_b.take(mi as int));
                    assert(models_b.take(mi + 1 as int).last() == models_b[mi as int]);
                }
                let ghost before = self.remote_models@;
                let ghost hb = cmds_view(ctx.host@);
                let mut pair = self.remote_models.remove(mi);
                let source = pair.0;
                pair.1.apply_entities(source, &mut ctx.host);
                self.remote_models.insert(mi, pair);
                proof {
                    assert(self.remote_models@ =~= before.update(
                        mi as int,
                        (before[mi as int].0, pair.1),
                    ));
                    assert(cmds_view(ctx.host@) == hb + kill_cmds(models_b[mi as int].1.kills@)
                        + entity_cmds(models_b[mi as int].1.recs(), models_b[mi as int].0));
                    assert(materialize_cmds(models_b.take(mi + 1 as int)) == materialize_cmds(
                        models_b.take(mi as int),
                    ) + kill_cmds(models_b[mi as int].1.kills@) + entity_cmds(
                        models_b[mi as int].1.recs(),
                        models_b[mi as int].0,
                    ));
                    assert(cmds_view(ctx.host@) =~= h1 + materialize_cmds(
                        models_b.take(mi + 1 as int),
                    ));
                    assert forall|k2: int|
                        0 <= k2 < models_b[mi as int].1.recs().len() implies (
                    #[trigger] self.remote_models@[mi as int].1.recs()[k2])
                        == rec_after_materialize(models_b[mi as int].1.recs()[k2]) by {
                        assert(pair.1.recs()[k2] == rec_after_materialize(
                            models_b[mi as int].1.recs()[k2],
                        ));
                    }
                }
                mi = mi + 1;
            }
            proof {
                assert(models_b.take(models_b.len() as int) =~= models_b);
                assert forall|i2: int, k2: int|
                    0 <= i2 < self.remote_models@.len() && 0 <= k2 < self.remote_models@[
                        i2
                    ].1.recs().len() implies !has_gid(
                    self.local_diff_model.recs(),
                    (#[trigger] self.remote_models@[i2].1.recs()[k2]).gid,
                ) by {
                    assert(self.remote_models@[i2].1.recs()[k2].gid == models_b[i2].1.recs()[
                        k2
                    ].gid);
                }
                assert forall|a: int, b: int|
                    0 <= a < b < self.remote_models@.len() implies self.remote_models@[a].0
                    != self.remote_models@[b].0 by {
                    assert(self.remote_models@[a].0 == models_b[a].0);
                    assert(self.remote_models@[b].0 == models_b[b].0);
                }
            }
        }
        // 7. request authority near the viewpoint every sixtieth tick
        let ghost ov4 = outbound_view(ctx.outbound@);
        let ghost mut request_idx: int = 0;
        if input.frame_num % 60 == 0 {
            proof {
                request_idx = ctx.outbound@.len() as int;
            }
            let msg = NoitaOutbound::DesToProxy(
                DesToProxy::RequestAuthority {
                    pos: input.camera,
                    radius: REQUEST_AUTHORITY_RADIUS,
                },
            );
            let ghost oc = ctx.outbound@;
            ctx.outbound.push(msg);
            proof {
                assert(outbound_view(ctx.outbound@) =~= outbound_view(oc).push(msg@));
            }
        }
        let ghost authority_part: Seq<NoitaOutboundV> = if input.frame_num % 60 == 0 {
            seq![authority_msg(input.camera)]
        } else {
            Seq::empty()
        };
        proof {
            if input.frame_num % 60 == 0 {
                assert(ov4.push(authority_msg(input.camera)) =~= ov4 + authority_part);
            } else {
                assert(ov4 + authority_part =~= ov4);
            }
            assert(outbound_view(ctx.outbound@) == ov4 + authority_part);
            // the witnesses queued earlier still stand at their indices
            assert(forall|k: int|
                0 <= k < ov4.len() ==> #[trigger] outbound_view(ctx.outbound@)[k] == ov4[k]);
            assert forall|p: PeerId|
                (old(self).interest_tracker.pending_lost(p) || (old(
                    self,
                ).interest_tracker.interested(p) && crate::interest::is_stale(
                    old(self).interest_tracker.entry_of(p),
                    tick_after(old(self).interest_tracker.now),
                ))) implies exists|k: int|
                out_base <= k < outbound_view(ctx.outbound@).len()
                    && #[trigger] outbound_view(ctx.outbound@)[k]
                    == (NoitaOutboundV::RemoteMessage {
                    reliable: true,
                    destination: Destination::Peer(p),
                    message: RemoteDesV::ExitedInterest,
                }) by {
                assert(lost@.contains(p));
                let m = choose|m: int| 0 <= m < lost@.len() && lost@[m] == p;
                assert(exited_msgs(lost@)[m] == (NoitaOutboundV::RemoteMessage {
                    reliable: true,
                    destination: Destination::Peer(p),
                    message: RemoteDesV::ExitedInterest,
                }));
                assert(outbound_view(ctx.outbound@)[exited_base + m] == (ov2 + exited_msgs(
                    lost@,
                ))[exited_base + m]);
            }
            // assemble the whole tick
            assert(tick_outcome(*old(self), *self, *old(ctx), *ctx, *input, gids)) by {
                reveal(tick_outcome);
                let even = input.frame_num % 2 == 0;
                let send_part: Seq<NoitaOutboundV> = if even {
                    peer_msgs(
                        crate::interest::entry_peers_of(live_entries(
                            old(self).interest_tracker.entries@,
                            tick_after(old(self).interest_tracker.now),
                        )),
                        projectiles_view(old(self).pending_fired_projectiles@),
                        tick_batch(
                            st.recs,
                            old(self).local_diff_model.removed_lids(),
                            samples,
                            any_new0,
                        ),
                        any_new0,
                    )
                } else {
                    Seq::empty()
                };
                if even {
                    assert(ov4 == ov3 + send_part);
                } else {
                    assert(ov3 + send_part =~= ov3);
                    assert(ov4 == ov3 + send_part);
                }
                assert(outbound_view(ctx.outbound@) == ov0 + init_msgs(st.inits) + interest_part
                    + exited_msgs(lost@) + send_part + authority_part);
                if even {
                    assert(cmds_view(ctx.host@) == h1);
                    assert(h1 + Seq::<HostCommandV>::empty() =~= h1);
                } else {
                    assert(cmds_view(ctx.host@) == h1 + materialize_cmds(
                        old(self).remote_models@,
                    ));
                }
            }
        }
        Ok(())
    }
}

} // verus!