//! Component-level checks: the interest tracker, the diff models, the
//! projectile capture, the session layer, and the error paths.

use ewext::diff_model::local::{bytes_eq, LocalDiffModel};
use ewext::entity_sync::{EntitySync, ModuleCtx, TickInput};
use ewext::host::{EntityInfo, EntitySample, HostCommand, ProjectileInfo};
use ewext::interest::{InterestTracker, STALENESS_WINDOW_TICKS};
use ewext::messages::{
    EntityEntry, InterestRequest, NoitaInbound, NoitaOutbound, RemoteDes, RemoteMessage,
};
use ewext::session::{
    bootstrap_feed, collect_module_errors, handle_inbound, my_peer_id, on_world_initialized,
    peer_by_player_entity, player_entity_by_peer, register_player_entity, with_every_module,
    ExtState, ModuleError, ModuleEvent, SessionBootstrap,
};
use ewext::types::{covers, DesError, Destination, Gid, Lid, PeerId, WorldPos};
use ewext::effects::{GameEffectData, GameEffectEnum};

#[test]
fn covers_decides_circle_membership() {
    let center = WorldPos { x: 0, y: 0 };
    assert!(covers(WorldPos { x: 30, y: 40 }, 50, center, 0));
    assert!(!covers(WorldPos { x: 30, y: 41 }, 50, center, 0));
    // the slack widens the announced radius
    assert!(covers(WorldPos { x: 30, y: 41 }, 50, center, 2));
    // extreme coordinates do not overflow
    let far = WorldPos { x: i32::MIN, y: i32::MIN };
    let opposite = WorldPos { x: i32::MAX, y: i32::MAX };
    assert!(!covers(far, 0, opposite, 0));
    assert!(covers(far, u32::MAX, opposite, u32::MAX));
}

#[test]
fn drained_peer_needs_fresh_request() {
    // drain_lost_interest never returns the same peer twice without an
    // intervening fresh request from it.
    let p = PeerId(5);
    let mut t = InterestTracker::new(512);
    t.handle_interest_request(p, InterestRequest { pos: WorldPos { x: 1, y: 1 }, radius: 10 });
    t.reset_interest_for(p);
    let first = t.drain_lost_interest();
    assert_eq!(first, vec![p]);
    let second = t.drain_lost_interest();
    assert!(second.is_empty());
    // a fresh request re-introduces the peer, so a new loss event drains it
    t.handle_interest_request(p, InterestRequest { pos: WorldPos { x: 1, y: 1 }, radius: 10 });
    t.reset_interest_for(p);
    assert_eq!(t.drain_lost_interest(), vec![p]);
}

#[test]
fn stale_circles_expire_after_the_window() {
    let p = PeerId(5);
    let mut t = InterestTracker::new(512);
    t.handle_interest_request(p, InterestRequest { pos: WorldPos { x: 0, y: 0 }, radius: 10 });
    for _ in 0..STALENESS_WINDOW_TICKS {
        t.begin_tick();
    }
    assert!(t.drain_lost_interest().is_empty());
    assert_eq!(t.iter_interested(), vec![p]);
    t.begin_tick();
    assert_eq!(t.drain_lost_interest(), vec![p]);
    assert!(t.iter_interested().is_empty());
}

#[test]
fn non_covering_request_withdraws_interest() {
    let p = PeerId(5);
    let mut t = InterestTracker::new(0);
    t.handle_interest_request(p, InterestRequest { pos: WorldPos { x: 1000, y: 0 }, radius: 10 });
    assert!(t.iter_interested().is_empty());
    assert!(t.drain_lost_interest().is_empty());
    t.handle_interest_request(p, InterestRequest { pos: WorldPos { x: 3, y: 4 }, radius: 5 });
    assert_eq!(t.iter_interested(), vec![p]);
    assert!(t.got_any_new_interested());
    assert!(!t.got_any_new_interested());
    t.handle_interest_request(p, InterestRequest { pos: WorldPos { x: 1000, y: 0 }, radius: 10 });
    assert_eq!(t.drain_lost_interest(), vec![p]);
}

#[test]
fn tracking_twice_is_refused() {
    let mut m = LocalDiffModel::new();
    let lid = m.track_entity(10, Gid(1), vec![1]).unwrap();
    assert_eq!(lid, Lid(0));
    assert_eq!(m.track_entity(10, Gid(2), vec![1]), Err(DesError::AlreadyTracked));
    assert_eq!(m.track_entity(11, Gid(1), vec![1]), Err(DesError::AlreadyTracked));
    assert_eq!(m.track_entity(11, Gid(2), vec![2]).unwrap(), Lid(1));
}

#[test]
fn diff_encoding_follows_the_baseline() {
    let mut m = LocalDiffModel::new();
    m.track_entity(10, Gid(1), vec![1]).unwrap();
    // first batch: a full snapshot
    let d1 = m.make_diff();
    assert_eq!(d1.len(), 1);
    assert!(matches!(&d1[0], EntityEntry::Full { lid: Lid(0), gid: Gid(1), data } if *data == vec![1]));
    // nothing changed: the batch is empty
    assert_eq!(m.make_diff().len(), 0);
    // a changed snapshot yields a delta
    m.update_tracked_entities(&vec![EntitySample { entity: 10, alive: true, data: vec![2] }]);
    let d3 = m.make_diff();
    assert_eq!(d3.len(), 1);
    assert!(matches!(&d3[0], EntityEntry::Delta { lid: Lid(0), data } if *data == vec![2]));
    // a dead entity ends the record and rides the next batch as a removal
    m.update_tracked_entities(&vec![EntitySample { entity: 10, alive: false, data: vec![] }]);
    let d4 = m.make_diff();
    assert_eq!(d4.len(), 1);
    assert!(matches!(&d4[0], EntityEntry::Removed { lid: Lid(0) }));
    assert_eq!(m.lid_by_entity(10), None);
    // a forced re-baseline re-encodes everything as full snapshots
    m.track_entity(11, Gid(2), vec![7]).unwrap();
    m.make_diff();
    m.reset_diff_encoding();
    let d5 = m.make_diff();
    assert_eq!(d5.len(), 1);
    assert!(matches!(&d5[0], EntityEntry::Full { .. }));
}

#[test]
fn projectile_enqueued_only_with_local_authority() {
    // Enqueued if and only if the shooter resolves locally, the projectile
    // handle is valid, and no prior shooter is attributed.
    let mut es = EntitySync::default();
    let mut ctx = ModuleCtx::new();
    es.local_diff_model.track_entity(10, Gid(1), vec![1]).unwrap();
    let pos = WorldPos { x: 0, y: 0 };
    let tgt = WorldPos { x: 5, y: 5 };
    let proj = ProjectileInfo {
        entity: 77,
        has_projectile_component: true,
        entity_that_shot: None,
        serialized: vec![9],
    };
    // all conditions hold: enqueued
    es.on_projectile_fired(&mut ctx, Some(10), Some(proj.clone()), 0, pos, tgt, 0).unwrap();
    assert_eq!(es.pending_fired_projectiles.len(), 1);
    assert_eq!(es.pending_fired_projectiles[0].shooter_lid, Lid(0));
    assert_eq!(es.pending_fired_projectiles[0].serialized, vec![9]);
    // unknown shooter: dropped
    es.on_projectile_fired(&mut ctx, Some(11), Some(proj.clone()), 0, pos, tgt, 0).unwrap();
    assert_eq!(es.pending_fired_projectiles.len(), 1);
    // no shooter at all: dropped
    es.on_projectile_fired(&mut ctx, None, Some(proj.clone()), 0, pos, tgt, 0).unwrap();
    assert_eq!(es.pending_fired_projectiles.len(), 1);
    // no projectile handle: dropped
    es.on_projectile_fired(&mut ctx, Some(10), None, 0, pos, tgt, 0).unwrap();
    assert_eq!(es.pending_fired_projectiles.len(), 1);
    // no projectile component: dropped
    let mut p2 = proj.clone();
    p2.has_projectile_component = false;
    es.on_projectile_fired(&mut ctx, Some(10), Some(p2), 0, pos, tgt, 0).unwrap();
    assert_eq!(es.pending_fired_projectiles.len(), 1);
    // a prior shooter is already attributed: dropped
    let mut p3 = proj;
    p3.entity_that_shot = Some(3);
    es.on_projectile_fired(&mut ctx, Some(10), Some(p3), 0, pos, tgt, 0).unwrap();
    assert_eq!(es.pending_fired_projectiles.len(), 1);
}

#[test]
fn scan_tracks_eligible_entities_and_kills_stale_markers() {
    let mut es = EntitySync::default();
    let mut ctx = ModuleCtx::new();
    let scan = vec![
        EntityInfo {
            entity: 2,
            alive: true,
            has_des_tag: false,
            is_enemy: true,
            is_physics_prop: false,
            data: vec![1],
        },
        EntityInfo {
            entity: 3,
            alive: true,
            has_des_tag: true,
            is_enemy: false,
            is_physics_prop: false,
            data: vec![],
        },
        EntityInfo {
            entity: 4,
            alive: false,
            has_des_tag: false,
            is_enemy: true,
            is_physics_prop: false,
            data: vec![],
        },
        EntityInfo {
            entity: 5,
            alive: true,
            has_des_tag: false,
            is_enemy: false,
            is_physics_prop: false,
            data: vec![],
        },
    ];
    let input = TickInput {
        frame_num: 1,
        camera: WorldPos { x: 0, y: 0 },
        max_entity: 5,
        scan,
        samples: Vec::new(),
    };
    es.look_for_tracked(&mut ctx, &input);
    // the eligible live entity is tracked and announced
    assert!(es.local_diff_model.lid_by_entity(2).is_some());
    assert!(ctx.outbound.iter().any(|m| matches!(m, NoitaOutbound::DesToProxy(_))));
    // the stale marker is killed
    assert!(ctx.host.iter().any(|c| matches!(c, HostCommand::KillEntity { entity: 3 })));
    // the dead and the ineligible are skipped
    assert!(es.local_diff_model.lid_by_entity(4).is_none());
    assert!(es.local_diff_model.lid_by_entity(5).is_none());
    assert_eq!(es.look_current_entity, 5);
}

#[test]
fn bootstrap_establishes_identity_once() {
    let mut b = SessionBootstrap::new();
    let mut state = ExtState::new();
    assert_eq!(
        bootstrap_feed(&mut b, &mut state, NoitaInbound::RawMessage(vec![1, 2])),
        Ok(false)
    );
    assert_eq!(b.kvs, vec![vec![1, 2]]);
    // a non-bootstrap message before readiness is a protocol violation
    assert_eq!(
        bootstrap_feed(
            &mut b,
            &mut state,
            NoitaInbound::RemoteMessage {
                source: PeerId(9),
                message: RemoteMessage::RemoteDes(RemoteDes::Reset),
            },
        ),
        Err(DesError::UnexpectedMessage)
    );
    assert_eq!(
        bootstrap_feed(&mut b, &mut state, NoitaInbound::Ready { my_peer_id: PeerId(4) }),
        Ok(true)
    );
    assert_eq!(my_peer_id(&state), PeerId(4));
    // a second readiness message is a protocol violation
    assert_eq!(
        bootstrap_feed(&mut b, &mut state, NoitaInbound::Ready { my_peer_id: PeerId(5) }),
        Err(DesError::UnexpectedReady)
    );
    assert_eq!(my_peer_id(&state), PeerId(4));
}

#[test]
fn inbound_dispatch_routes_messages() {
    let mut state = ExtState::new();
    on_world_initialized(&mut state);
    let mut ctx = ModuleCtx::new();
    // raw blobs are handed back to the host
    assert_eq!(
        handle_inbound(&mut state, &mut ctx, NoitaInbound::RawMessage(vec![7])),
        Ok(Some(vec![7]))
    );
    // readiness after bootstrap is a violation
    assert_eq!(
        handle_inbound(&mut state, &mut ctx, NoitaInbound::Ready { my_peer_id: PeerId(1) }),
        Err(DesError::UnexpectedReady)
    );
    // a cross-peer interest request lands in the tracker
    handle_inbound(
        &mut state,
        &mut ctx,
        NoitaInbound::RemoteMessage {
            source: PeerId(2),
            message: RemoteMessage::RemoteDes(RemoteDes::InterestRequest(InterestRequest {
                pos: WorldPos { x: 0, y: 0 },
                radius: 10,
            })),
        },
    )
    .unwrap();
    let es = state.modules.entity_sync.as_ref().unwrap();
    assert_eq!(es.interest_tracker.iter_interested(), vec![PeerId(2)]);
}

#[test]
fn world_init_broadcasts_a_reliable_reset() {
    let mut state = ExtState::new();
    on_world_initialized(&mut state);
    let mut ctx = ModuleCtx::new();
    assert!(with_every_module(&mut state, &mut ctx, ModuleEvent::WorldInit).is_ok());
    assert_eq!(ctx.outbound.len(), 1);
    assert!(matches!(
        &ctx.outbound[0],
        NoitaOutbound::RemoteMessage {
            reliable: true,
            destination: Destination::Broadcast,
            message: RemoteMessage::RemoteDes(RemoteDes::Reset),
        }
    ));
}

#[test]
fn module_errors_are_collected_per_batch() {
    assert_eq!(collect_module_errors(Vec::new()), Ok(()));
    assert_eq!(
        collect_module_errors(vec![DesError::AlreadyTracked]),
        Err(ModuleError::Single(DesError::AlreadyTracked))
    );
    assert_eq!(
        collect_module_errors(vec![DesError::AlreadyTracked, DesError::UnexpectedReady]),
        Err(ModuleError::Multiple(vec![
            DesError::AlreadyTracked,
            DesError::UnexpectedReady,
        ]))
    );
}

#[test]
fn player_entity_map_is_bidirectional() {
    let mut state = ExtState::new();
    register_player_entity(&mut state, PeerId(1), 100);
    register_player_entity(&mut state, PeerId(2), 200);
    assert_eq!(player_entity_by_peer(&state, PeerId(1)), Some(100));
    assert_eq!(peer_by_player_entity(&state, 200), Some(PeerId(2)));
    assert_eq!(player_entity_by_peer(&state, PeerId(3)), None);
    // re-registering displaces both colliding pairs
    register_player_entity(&mut state, PeerId(1), 200);
    assert_eq!(player_entity_by_peer(&state, PeerId(1)), Some(200));
    assert_eq!(player_entity_by_peer(&state, PeerId(2)), None);
    assert_eq!(peer_by_player_entity(&state, 100), None);
}

#[test]
fn byte_comparison_is_exact() {
    assert!(bytes_eq(&vec![], &vec![]));
    assert!(bytes_eq(&vec![1, 2], &vec![1, 2]));
    assert!(!bytes_eq(&vec![1, 2], &vec![1, 3]));
    assert!(!bytes_eq(&vec![1, 2], &vec![1, 2, 3]));
}

#[test]
fn interest_cadence_and_authority_cadence() {
    let mut es = EntitySync::default();
    let mut ctx = ModuleCtx::new();
    let tick = TickInput {
        frame_num: 60,
        camera: WorldPos { x: 8, y: 9 },
        max_entity: 1,
        scan: Vec::new(),
        samples: Vec::new(),
    };
    es.on_world_update(&mut ctx, &tick).unwrap();
    // exactly one reliable broadcast announcement, exactly one request
    let announcements = ctx
        .outbound
        .iter()
        .filter(|m| {
            matches!(
                m,
                NoitaOutbound::RemoteMessage {
                    reliable: true,
                    destination: Destination::Broadcast,
                    message: RemoteMessage::RemoteDes(RemoteDes::InterestRequest(_)),
                }
            )
        })
        .count();
    assert_eq!(announcements, 1);
    let requests = ctx
        .outbound
        .iter()
        .filter(|m| {
            matches!(m, NoitaOutbound::DesToProxy(ewext::messages::DesToProxy::RequestAuthority { .. }))
        })
        .count();
    assert_eq!(requests, 1);
    // a frame on neither cadence sends neither
    let mut ctx2 = ModuleCtx::new();
    let mut tick2 = tick;
    tick2.frame_num = 62;
    es.on_world_update(&mut ctx2, &tick2).unwrap();
    assert!(!ctx2.outbound.iter().any(|m| matches!(
        m,
        NoitaOutbound::RemoteMessage {
            message: RemoteMessage::RemoteDes(RemoteDes::InterestRequest(_)),
            ..
        }
    )));
    assert!(!ctx2.outbound.iter().any(|m| matches!(m, NoitaOutbound::DesToProxy(_))));
}

#[test]
fn effects_round_their_variants() {
    let a = GameEffectData::Normal(GameEffectEnum::Frozen);
    let b = GameEffectData::Custom(String::from("aura"));
    let c = GameEffectData::Projectile(vec![1, 2]);
    assert_eq!(a, GameEffectData::Normal(GameEffectEnum::Frozen));
    assert_ne!(a, GameEffectData::Normal(GameEffectEnum::OnFire));
    assert_ne!(b, c);
}
