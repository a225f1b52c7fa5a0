//! Session state and entry points.
//!
//! A session object is passed explicitly into every entry point: the
//! registered tick-reactive modules, the peer-to-player-entity map, and
//! this peer's identity once the relay has announced it. Inbound messages
//! are dispatched from here; module failures are collected per batch and
//! reported together, never aborting the remaining handlers.

use vstd::prelude::*;
use crate::types::{DesError, PeerId, WorldPos};
use crate::messages::{NoitaInbound, RemoteMessage};
use crate::host::ProjectileInfo;
use crate::entity_sync::{EntitySync, ModuleCtx, TickInput};
use crate::outside::{bimap_get_by_left, bimap_get_by_right, bimap_insert, bimap_new, bimap_pairs};

verus! {

/// The registry of pluggable tick-reactive modules. Entity sync is the
/// one variant that currently exists.
pub struct Modules {
    pub entity_sync: Option<EntitySync>,
}

/// One peer's session state, passed by reference into every entry point.
pub struct ExtState {
    pub modules: Modules,
    /// Which host entity embodies which peer's player.
    pub player_entity_map: bimap::BiHashMap<u64, u32>,
    /// This peer's identity, established by the relay's readiness message.
    pub peer_id: Option<PeerId>,
}

impl ExtState {
    pub open spec fn wf(self) -> bool {
        match self.modules.entity_sync {
            Some(es) => es.wf(),
            None => true,
        }
    }

    pub fn new() -> (s: Self)
        ensures
            s.wf(),
            s.modules.entity_sync is None,
            s.peer_id is None,
            bimap_pairs(s.player_entity_map) == Set::<(u64, u32)>::empty(),
    {
        ExtState {
            modules: Modules { entity_sync: None },
            player_entity_map: bimap_new(),
            peer_id: None,
        }
    }
}

/// This peer's identity. Callable only once the relay has announced it.
pub fn my_peer_id(state: &ExtState) -> (r: PeerId)
    requires
        state.peer_id is Some,
    ensures
        r == state.peer_id.unwrap(),
{
    match state.peer_id {
        Some(p) => p,
        None => {
            proof {
                assert(false);
            }
            PeerId(0)
        }
    }
}

/// Brings the entity-sync module up when the host world is initialized.
pub fn on_world_initialized(state: &mut ExtState)
    ensures
        final(state).wf(),
        final(state).peer_id == old(state).peer_id,
        final(state).player_entity_map == old(state).player_entity_map,
        // the installed module is the freshly initialized one, whatever
        // was registered before
        final(state).modules.entity_sync is Some,
        ({
            let es = final(state).modules.entity_sync.unwrap();
            &&& es.look_current_entity == 1
            &&& es.interest_tracker.entries@.len() == 0
            &&& es.interest_tracker.lost@.len() == 0
            &&& !es.interest_tracker.any_new
            &&& es.interest_tracker.slack == crate::entity_sync::INTEREST_SLACK
            &&& es.local_diff_model.recs().len() == 0
            &&& es.local_diff_model.removed_lids().len() == 0
            &&& es.local_diff_model.next_lid == 0
            &&& es.remote_models@.len() == 0
            &&& es.pending_fired_projectiles@.len() == 0
        }),
{
    let es: EntitySync = Default::default();
    state.modules.entity_sync = Some(es);
}

/// Buffered key/value blobs received while the session bootstraps.
pub struct SessionBootstrap {
    pub kvs: Vec<Vec<u8>>,
}

impl SessionBootstrap {
    pub fn new() -> (b: Self)
        ensures
            b.kvs@.len() == 0,
    {
        SessionBootstrap { kvs: Vec::new() }
    }
}

/// Consumes one inbound message during session bootstrap. Raw blobs are
/// buffered for the host's own initialization; the readiness message
/// establishes the local peer identity and completes the bootstrap; any
/// other message at this stage is a protocol violation and aborts the
/// initialization, as is a second readiness message.
pub fn bootstrap_feed(b: &mut SessionBootstrap, state: &mut ExtState, msg: NoitaInbound) -> (r:
    Result<bool, DesError>)
    ensures
        match msg {
            NoitaInbound::RawMessage(v) => r == Ok::<bool, DesError>(false) && final(b).kvs@ == old(
                b,
            ).kvs@.push(v) && *final(state) == *old(state),
            NoitaInbound::Ready { my_peer_id } => if old(state).peer_id is None {
                &&& r == Ok::<bool, DesError>(true)
                &&& final(state).peer_id == Some(my_peer_id)
                &&& final(state).modules == old(state).modules
                &&& final(state).player_entity_map == old(state).player_entity_map
                &&& *final(b) == *old(b)
            } else {
                r == Err::<bool, DesError>(DesError::UnexpectedReady) && *final(state) == *old(
                    state,
                ) && *final(b) == *old(b)
            },
            _ => r == Err::<bool, DesError>(DesError::UnexpectedMessage) && *final(state) == *old(
                state,
            ) && *final(b) == *old(b),
        },
{
    match msg {
        NoitaInbound::RawMessage(v) => {
            b.kvs.push(v);
            Ok(false)
        }
        NoitaInbound::Ready { my_peer_id } => {
            if state.peer_id.is_some() {
                return Err(DesError::UnexpectedReady);
            }
            state.peer_id = Some(my_peer_id);
            Ok(true)
        }
        _ => Err(DesError::UnexpectedMessage),
    }
}

/// Dispatches one inbound message into the session once it is ready. Raw
/// blobs are handed back to the host; a second readiness message is a
/// protocol violation; relay control and cross-peer messages feed the
/// entity-sync module, where one exists.
pub fn handle_inbound(state: &mut ExtState, ctx: &mut ModuleCtx, msg: NoitaInbound) -> (r: Result<
    Option<Vec<u8>>,
    DesError,
>)
    requires
        old(state).wf(),
    ensures
        final(state).wf(),
        final(state).peer_id == old(state).peer_id,
        final(state).player_entity_map == old(state).player_entity_map,
        match msg {
            NoitaInbound::RawMessage(v) => r == Ok::<Option<Vec<u8>>, DesError>(Some(v))
                && *final(state) == *old(state) && *final(ctx) == *old(ctx),
            NoitaInbound::Ready { .. } => r == Err::<Option<Vec<u8>>, DesError>(
                DesError::UnexpectedReady,
            ) && *final(state) == *old(state) && *final(ctx) == *old(ctx),
            NoitaInbound::ProxyToDes(p) => {
                &&& r == Ok::<Option<Vec<u8>>, DesError>(None)
                &&& match old(state).modules.entity_sync {
                    Some(es0) => final(state).modules.entity_sync is Some
                        && crate::entity_sync::proxytodes_outcome(
                        es0,
                        final(state).modules.entity_sync.unwrap(),
                        *old(ctx),
                        *final(ctx),
                        p,
                    ),
                    None => *final(state) == *old(state) && *final(ctx) == *old(ctx),
                }
            },
            NoitaInbound::RemoteMessage { source, message } => {
                &&& r == Ok::<Option<Vec<u8>>, DesError>(None)
                &&& match message {
                    RemoteMessage::RemoteDes(rd) => match old(state).modules.entity_sync {
                        Some(es0) => final(state).modules.entity_sync is Some
                            && crate::entity_sync::remotedes_outcome(
                            es0,
                            final(state).modules.entity_sync.unwrap(),
                            *old(ctx),
                            *final(ctx),
                            source,
                            rd,
                        ),
                        None => *final(state) == *old(state) && *final(ctx) == *old(ctx),
                    },
                }
            },
        },
{
    match msg {
        NoitaInbound::RawMessage(v) => Ok(Some(v)),
        NoitaInbound::Ready { .. } => Err(DesError::UnexpectedReady),
        NoitaInbound::ProxyToDes(proxy_to_des) => {
            match &mut state.modules.entity_sync {
                Some(es) => {
                    es.handle_proxytodes(ctx, proxy_to_des);
                }
                None => {}
            }
            Ok(None)
        }
        NoitaInbound::RemoteMessage { source, message } => {
            match message {
                RemoteMessage::RemoteDes(remote_des) => {
                    match &mut state.modules.entity_sync {
                        Some(es) => {
                            es.handle_remotedes(ctx, source, remote_des);
                        }
                        None => {}
                    }
                }
            }
            Ok(None)
        }
    }
}

/// The report `with_every_module` hands back: one failure as it was, or
/// an aggregate of several, so that no handler's failure silences the
/// others.
#[derive(Clone, PartialEq, Debug)]
pub enum ModuleError {
    Single(DesError),
    Multiple(Vec<DesError>),
}

/// Folds the failures collected across independent module operations into
/// one report: nothing, the single failure, or the aggregate.
pub fn collect_module_errors(errs: Vec<DesError>) -> (r: Result<(), ModuleError>)
    ensures
        match r {
            Result::Ok(()) => errs@.len() == 0,
            Result::Err(ModuleError::Single(e)) => errs@.len() == 1 && e == errs@[0],
            Result::Err(ModuleError::Multiple(v)) => errs@.len() > 1 && v@ == errs@,
        },
{
    if errs.len() == 0 {
        Ok(())
    } else if errs.len() == 1 {
        Err(ModuleError::Single(errs[0]))
    } else {
        Err(ModuleError::Multiple(errs))
    }
}

/// One host event, fanned out to every registered module.
pub enum ModuleEvent {
    WorldInit,
    WorldUpdate(TickInput),
    ProjectileFired {
        shooter: Option<u32>,
        projectile: Option<ProjectileInfo>,
        initial_rng: i32,
        position: WorldPos,
        target: WorldPos,
        multicast_index: i32,
    },
}

/// Fans one host event out to every registered module, collecting each
/// failure and reporting them together after every handler has run. The
/// entity-sync handlers never fail, so the report is empty; the collection
/// path stands for any module added beside it.
#[verifier::rlimit(50)]
#[verifier::spinoff_prover]
pub fn with_every_module(state: &mut ExtState, ctx: &mut ModuleCtx, event: ModuleEvent) -> (r:
    Result<(), ModuleError>)
    requires
        old(state).wf(),
    ensures
        final(state).wf(),
        final(state).peer_id == old(state).peer_id,
        final(state).player_entity_map == old(state).player_entity_map,
        r is Ok,
        old(state).modules.entity_sync is None ==> *final(state) == *old(state) && *final(ctx)
            == *old(ctx),
        // a world-init event announces the session reset to every peer
        (old(state).modules.entity_sync is Some && event is WorldInit) ==> final(ctx).outbound@
            == old(ctx).outbound@.push(
            crate::messages::NoitaOutbound::RemoteMessage {
                reliable: true,
                destination: crate::types::Destination::Broadcast,
                message: RemoteMessage::RemoteDes(crate::messages::RemoteDes::Reset),
            },
        ),
        // the registered module's handler ran, with its full effect
        match event {
            ModuleEvent::WorldInit => true,
            ModuleEvent::WorldUpdate(input) => match old(state).modules.entity_sync {
                Some(es0) => final(state).modules.entity_sync is Some && (exists|gids: Seq<u64>|
                    #[trigger] crate::entity_sync::tick_outcome(
                        es0,
                        final(state).modules.entity_sync.unwrap(),
                        *old(ctx),
                        *final(ctx),
                        input,
                        gids,
                    )),
                None => true,
            },
            ModuleEvent::ProjectileFired { shooter, projectile, position, target, .. } => {
                match old(state).modules.entity_sync {
                    Some(es0) => final(state).modules.entity_sync is Some
                        && crate::entity_sync::projectile_outcome(
                        es0,
                        final(state).modules.entity_sync.unwrap(),
                        shooter,
                        projectile,
                        position,
                        target,
                    ) && *final(ctx) == *old(ctx),
                    None => true,
                }
            },
        },
{
    let mut errs: Vec<DesError> = Vec::new();
    match &mut state.modules.entity_sync {
        Some(es) => {
            match event {
                ModuleEvent::WorldInit => {
                    match es.on_world_init(ctx) {
                        Ok(()) => {}
                        Err(e) => {
                            errs.push(e);
                        }
                    }
                }
                ModuleEvent::WorldUpdate(input) => {
                    let ghost es0 = *es;
                    let ghost c0 = *ctx;
                    match es.on_world_update(ctx, &input) {
                        Ok(()) => {}
                        Err(e) => {
                            errs.push(e);
                        }
                    }
                    proof {
                        assert(exists|gids: Seq<u64>|
                            #[trigger] crate::entity_sync::tick_outcome(
                                es0,
                                *es,
                                c0,
                                *ctx,
                                input,
                                gids,
                            ));
                    }
                }
                ModuleEvent::ProjectileFired {
                    shooter,
                    projectile,
                    initial_rng,
                    position,
                    target,
                    multicast_index,
                } => {
                    match es.on_projectile_fired(
                        ctx,
                        shooter,
                        projectile,
                        initial_rng,
                        position,
                        target,
                        multicast_index,
                    ) {
                        Ok(()) => {}
                        Err(e) => {
                            errs.push(e);
                        }
                    }
                }
            }
        }
        None => {}
    }
    let r = collect_module_errors(errs);
    proof {
        assert(r is Ok);
    }
    r
}

/// Records which host entity embodies `peer`'s player. A pair holding the
/// same peer or the same entity is displaced, as the bidirectional map
/// requires.
pub fn register_player_entity(state: &mut ExtState, peer: PeerId, entity: u32)
    ensures
        final(state).wf() == old(state).wf(),
        final(state).modules == old(state).modules,
        final(state).peer_id == old(state).peer_id,
        bimap_pairs(final(state).player_entity_map) == bimap_pairs(
            old(state).player_entity_map,
        ).filter(|p: (u64, u32)| p.0 != peer.0 && p.1 != entity).insert((peer.0, entity)),
{
    bimap_insert(&mut state.player_entity_map, peer.0, entity);
}

/// The host entity embodying `peer`'s player, if one is registered.
pub fn player_entity_by_peer(state: &ExtState, peer: PeerId) -> (r: Option<u32>)
    ensures
        match r {
            Some(e) => bimap_pairs(state.player_entity_map).contains((peer.0, e)),
            None => forall|e: u32| !bimap_pairs(state.player_entity_map).contains((peer.0, e)),
        },
{
    bimap_get_by_left(&state.player_entity_map, peer.0)
}

/// The peer whose player `entity` embodies, if any.
pub fn peer_by_player_entity(state: &ExtState, entity: u32) -> (r: Option<PeerId>)
    ensures
        match r {
            Some(p) => bimap_pairs(state.player_entity_map).contains((p.0, entity)),
            None => forall|p: u64| !bimap_pairs(state.player_entity_map).contains((p, entity)),
        },
{
    match bimap_get_by_right(&state.player_entity_map, entity) {
        Some(p) => Some(PeerId(p)),
        None => None,
    }
}

} // verus!
