//! End-to-end flows between two in-process sync modules, exchanging the
//! messages a relay would carry.

use ewext::entity_sync::{EntitySync, ModuleCtx, TickInput, INTEREST_REQUEST_RADIUS};
use ewext::messages::{
    EntityEntry, FullEntityData, InterestRequest, NoitaOutbound, ProxyToDes, RemoteDes,
    RemoteMessage,
};
use ewext::types::Destination;
use ewext::host::HostCommand;
use ewext::types::{Gid, PeerId, WorldPos};

fn empty_tick(frame: u64) -> TickInput {
    TickInput {
        frame_num: frame,
        camera: WorldPos { x: 0, y: 0 },
        max_entity: 1,
        scan: Vec::new(),
        samples: Vec::new(),
    }
}

fn updates_for(ctx: &ModuleCtx, peer: PeerId) -> Vec<Vec<EntityEntry>> {
    let mut found = Vec::new();
    for m in &ctx.outbound {
        if let NoitaOutbound::RemoteMessage {
            destination: Destination::Peer(p),
            message: RemoteMessage::RemoteDes(RemoteDes::EntityUpdate(entries)),
            ..
        } = m
        {
            if *p == peer {
                found.push(entries.clone());
            }
        }
    }
    found
}

fn exited_for(ctx: &ModuleCtx, peer: PeerId) -> usize {
    let mut n = 0;
    for m in &ctx.outbound {
        if let NoitaOutbound::RemoteMessage {
            destination: Destination::Peer(p),
            message: RemoteMessage::RemoteDes(RemoteDes::ExitedInterest),
            ..
        } = m
        {
            if *p == peer {
                n += 1;
            }
        }
    }
    n
}

#[test]
fn full_snapshot_reaches_interested_peer() {
    // Scenario: peer A tracks an entity under Gid 7; peer B declares
    // interest; A's next even tick emits a full-baseline diff for it to B;
    // B's next odd tick materializes a shadow entity.
    let peer_b = PeerId(2);
    let mut a = EntitySync::default();
    let mut a_ctx = ModuleCtx::new();
    let lid = a
        .local_diff_model
        .track_entity(10, Gid(7), vec![1, 2, 3])
        .unwrap();
    let snapshot = a.local_diff_model.full_entity_data_for(lid).unwrap();
    assert_eq!(snapshot.gid, Gid(7));
    assert_eq!(snapshot.data, vec![1, 2, 3]);

    a.handle_remotedes(
        &mut a_ctx,
        peer_b,
        RemoteDes::InterestRequest(InterestRequest {
            pos: WorldPos { x: 10, y: 10 },
            radius: INTEREST_REQUEST_RADIUS,
        }),
    );

    a.on_world_update(&mut a_ctx, &empty_tick(2)).unwrap();
    let batches = updates_for(&a_ctx, peer_b);
    assert_eq!(batches.len(), 1);
    let batch = &batches[0];
    assert_eq!(batch.len(), 1);
    match &batch[0] {
        EntityEntry::Full { gid, data, .. } => {
            assert_eq!(*gid, Gid(7));
            assert_eq!(*data, vec![1, 2, 3]);
        }
        other => panic!("expected a full snapshot, got {:?}", other),
    }

    // an odd tick materializes and sends no batch, even to interested peers
    let mut odd_ctx = ModuleCtx::new();
    a.on_world_update(&mut odd_ctx, &empty_tick(3)).unwrap();
    assert!(updates_for(&odd_ctx, peer_b).is_empty());
    assert!(!odd_ctx.outbound.iter().any(|m| matches!(
        m,
        NoitaOutbound::RemoteMessage {
            message: RemoteMessage::RemoteDes(RemoteDes::Projectiles(_)),
            ..
        }
    )));

    let peer_a = PeerId(1);
    let mut b = EntitySync::default();
    let mut b_ctx = ModuleCtx::new();
    b.handle_remotedes(&mut b_ctx, peer_a, RemoteDes::EntityUpdate(batch.clone()));
    b.on_world_update(&mut b_ctx, &empty_tick(3)).unwrap();
    let spawned: Vec<_> = b_ctx
        .host
        .iter()
        .filter(|c| {
            matches!(
                c,
                HostCommand::SpawnShadow { source_peer, gid, data, .. }
                    if *source_peer == peer_a && *gid == Gid(7) && *data == vec![1, 2, 3]
            )
        })
        .collect();
    assert_eq!(spawned.len(), 1);
}

#[test]
fn stale_interest_is_drained_exactly_once() {
    // Scenario: peer B sends no further interest request for more than one
    // staleness window; A yields B from the drain exactly once, sends one
    // ExitedInterest, and stops sending diffs to B.
    let peer_b = PeerId(2);
    let mut a = EntitySync::default();
    let mut ctx = ModuleCtx::new();
    a.local_diff_model
        .track_entity(10, Gid(7), vec![9])
        .unwrap();
    a.handle_remotedes(
        &mut ctx,
        peer_b,
        RemoteDes::InterestRequest(InterestRequest {
            pos: WorldPos { x: 0, y: 0 },
            radius: 100,
        }),
    );
    // run well past one staleness window without any refresh
    for frame in 1..200u64 {
        a.on_world_update(&mut ctx, &empty_tick(frame)).unwrap();
    }
    assert_eq!(exited_for(&ctx, peer_b), 1);
    let batches = updates_for(&ctx, peer_b);
    assert!(!batches.is_empty());
    // after the exit, no further diff goes to B: the messages to B end with
    // the ExitedInterest
    let mut last_update = 0;
    let mut exit_pos = 0;
    for (i, m) in ctx.outbound.iter().enumerate() {
        if let NoitaOutbound::RemoteMessage {
            destination: Destination::Peer(p),
            message: RemoteMessage::RemoteDes(des),
            ..
        } = m
        {
            if *p == peer_b {
                match des {
                    RemoteDes::EntityUpdate(_) => last_update = i,
                    RemoteDes::ExitedInterest => exit_pos = i,
                    _ => {}
                }
            }
        }
    }
    assert!(last_update < exit_pos);
}

#[test]
fn authority_transfer_is_never_shared() {
    // Scenario: peer A requests authority over an entity owned by peer C;
    // C grants with a full snapshot. C's tracking record ends before A's
    // begins: at no point do both peers hold the record.
    let mut c = EntitySync::default();
    let mut c_ctx = ModuleCtx::new();
    c.local_diff_model
        .track_entity(42, Gid(9), vec![5, 6])
        .unwrap();
    let snapshot = FullEntityData { gid: Gid(9), data: vec![5, 6] };

    let mut a = EntitySync::default();
    let mut a_ctx = ModuleCtx::new();
    assert!(c.local_diff_model.is_tracked_gid(Gid(9)));
    assert!(!a.local_diff_model.is_tracked_gid(Gid(9)));

    // the relay revokes C first...
    c.handle_proxytodes(&mut c_ctx, ProxyToDes::LostAuthority(Gid(9)));
    assert!(!c.local_diff_model.is_tracked_gid(Gid(9)));
    assert!(!a.local_diff_model.is_tracked_gid(Gid(9)));
    assert!(c_ctx
        .host
        .iter()
        .any(|cmd| matches!(cmd, HostCommand::KillEntity { entity: 42 })));

    // ...then grants A from the snapshot it holds
    a.handle_proxytodes(&mut a_ctx, ProxyToDes::GotAuthority(snapshot));
    assert!(a.local_diff_model.is_tracked_gid(Gid(9)));
    assert!(!c.local_diff_model.is_tracked_gid(Gid(9)));

    // the granted record is materialized through the host on the next tick
    a.on_world_update(&mut a_ctx, &empty_tick(4)).unwrap();
    assert!(a_ctx
        .host
        .iter()
        .any(|cmd| matches!(cmd, HostCommand::SpawnGranted { gid, .. } if *gid == Gid(9))));
}

#[test]
fn reset_discards_mirror_state() {
    // Scenario: a reset from peer A mid-session discards B's mirror of A,
    // so a later delta for a previously-known record is dropped and only a
    // fresh full snapshot re-creates it.
    let peer_a = PeerId(1);
    let mut b = EntitySync::default();
    let mut ctx = ModuleCtx::new();
    b.handle_remotedes(
        &mut ctx,
        peer_a,
        RemoteDes::EntityUpdate(vec![EntityEntry::Full {
            lid: ewext::types::Lid(0),
            gid: Gid(7),
            data: vec![1],
        }]),
    );
    assert_eq!(b.remote_models.len(), 1);
    assert_eq!(b.remote_models[0].1.records.len(), 1);

    b.handle_remotedes(&mut ctx, peer_a, RemoteDes::Reset);
    assert!(b.remote_models.iter().all(|(p, _)| *p != peer_a));

    // a delta referencing the previously-known record is now first-time
    // incremental data with no baseline: it is dropped
    b.handle_remotedes(
        &mut ctx,
        peer_a,
        RemoteDes::EntityUpdate(vec![EntityEntry::Delta {
            lid: ewext::types::Lid(0),
            data: vec![2],
        }]),
    );
    let model = &b.remote_models.iter().find(|(p, _)| *p == peer_a).unwrap().1;
    assert_eq!(model.records.len(), 0);

    // a full snapshot is treated as first-time and re-creates the record
    b.handle_remotedes(
        &mut ctx,
        peer_a,
        RemoteDes::EntityUpdate(vec![EntityEntry::Full {
            lid: ewext::types::Lid(0),
            gid: Gid(7),
            data: vec![3],
        }]),
    );
    let model = &b.remote_models.iter().find(|(p, _)| *p == peer_a).unwrap().1;
    assert_eq!(model.records.len(), 1);
    assert_eq!(model.records[0].data, vec![3]);
}

#[test]
fn new_interest_forces_full_baseline() {
    // A peer transitioning into interested receives a batch re-encoded
    // from full baselines, never a partial delta.
    let peer_b = PeerId(2);
    let peer_c = PeerId(3);
    let mut a = EntitySync::default();
    let mut ctx = ModuleCtx::new();
    a.local_diff_model
        .track_entity(10, Gid(7), vec![1])
        .unwrap();
    a.handle_remotedes(
        &mut ctx,
        peer_b,
        RemoteDes::InterestRequest(InterestRequest { pos: WorldPos { x: 0, y: 0 }, radius: 50 }),
    );
    // first even tick: everything is a full snapshot anyway
    a.on_world_update(&mut ctx, &empty_tick(2)).unwrap();
    // mutate the entity, steady-state tick: B receives a delta
    let mut ctx2 = ModuleCtx::new();
    let mut tick = empty_tick(4);
    tick.samples = vec![ewext::host::EntitySample { entity: 10, alive: true, data: vec![1, 1] }];
    a.on_world_update(&mut ctx2, &tick).unwrap();
    let steady = updates_for(&ctx2, peer_b);
    assert_eq!(steady.len(), 1);
    assert!(steady[0]
        .iter()
        .any(|e| matches!(e, EntityEntry::Delta { .. })));

    // now C becomes interested; the next batch carries no delta at all
    let mut ctx3 = ModuleCtx::new();
    a.handle_remotedes(
        &mut ctx3,
        peer_c,
        RemoteDes::InterestRequest(InterestRequest { pos: WorldPos { x: 0, y: 0 }, radius: 50 }),
    );
    let mut tick2 = empty_tick(6);
    tick2.samples = vec![ewext::host::EntitySample { entity: 10, alive: true, data: vec![1, 2] }];
    a.on_world_update(&mut ctx3, &tick2).unwrap();
    for peer in [peer_b, peer_c] {
        let batches = updates_for(&ctx3, peer);
        assert_eq!(batches.len(), 1);
        assert!(!batches[0].is_empty());
        assert!(batches[0]
            .iter()
            .all(|e| !matches!(e, EntityEntry::Delta { .. })));
    }
}

#[test]
fn applying_a_batch_twice_changes_nothing() {
    // Idempotence: merging the same diff batch twice leaves the mirror
    // exactly as one merge does.
    let peer_a = PeerId(1);
    let mut b = EntitySync::default();
    let mut ctx = ModuleCtx::new();
    let batch = vec![
        EntityEntry::Full { lid: ewext::types::Lid(0), gid: Gid(7), data: vec![1, 2] },
        EntityEntry::Full { lid: ewext::types::Lid(1), gid: Gid(8), data: vec![3] },
        EntityEntry::Removed { lid: ewext::types::Lid(2) },
    ];
    b.handle_remotedes(&mut ctx, peer_a, RemoteDes::EntityUpdate(batch.clone()));
    let once = b.remote_models[0].1.records.clone();
    let kills_once = b.remote_models[0].1.kills.clone();
    b.handle_remotedes(&mut ctx, peer_a, RemoteDes::EntityUpdate(batch));
    assert_eq!(b.remote_models[0].1.records, once);
    assert_eq!(b.remote_models[0].1.kills, kills_once);
}

#[test]
fn owned_entities_are_never_mirrored() {
    // Ownership exclusivity: a full snapshot for a gid this peer owns is
    // discarded rather than mirrored.
    let peer_a = PeerId(1);
    let mut b = EntitySync::default();
    let mut ctx = ModuleCtx::new();
    b.local_diff_model
        .track_entity(10, Gid(7), vec![1])
        .unwrap();
    b.handle_remotedes(
        &mut ctx,
        peer_a,
        RemoteDes::EntityUpdate(vec![
            EntityEntry::Full { lid: ewext::types::Lid(0), gid: Gid(7), data: vec![2] },
            EntityEntry::Full { lid: ewext::types::Lid(1), gid: Gid(8), data: vec![3] },
        ]),
    );
    let model = &b.remote_models[0].1;
    assert_eq!(model.records.len(), 1);
    assert_eq!(model.records[0].gid, Gid(8));
    // and a grant evicts an existing mirror of the same entity
    b.handle_remotedes(
        &mut ctx,
        peer_a,
        RemoteDes::EntityUpdate(vec![EntityEntry::Full {
            lid: ewext::types::Lid(2),
            gid: Gid(9),
            data: vec![4],
        }]),
    );
    b.handle_proxytodes(
        &mut ctx,
        ProxyToDes::GotAuthority(FullEntityData { gid: Gid(9), data: vec![4] }),
    );
    assert!(b.local_diff_model.is_tracked_gid(Gid(9)));
    for (_, m) in &b.remote_models {
        assert!(m.records.iter().all(|r| r.gid != Gid(9)));
    }
}
