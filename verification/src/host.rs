//! Plain-value boundary to the host simulation.
//!
//! The host's entity/component API is an external collaborator: the caller
//! samples host state into these records before a tick, and performs the
//! commands the tick hands back. Failures of the host API (an entity that
//! vanished mid-operation) surface as missing or dead samples and are
//! skipped, never fatal.

use vstd::prelude::*;
use crate::types::{Gid, Lid, PeerId, WorldPos};

verus! {

/// One entity observed by the new-entity scan, with everything the
/// tracked-eligibility decision reads.
#[derive(Clone, PartialEq, Debug)]
pub struct EntityInfo {
    /// Host entity handle.
    pub entity: u32,
    /// Whether the host still reports the entity alive.
    pub alive: bool,
    /// Whether the entity already carries the sync-managed marker tag.
    pub has_des_tag: bool,
    /// Whether the host tags the entity as an enemy.
    pub is_enemy: bool,
    /// Whether the host tags the entity as a physics prop.
    pub is_physics_prop: bool,
    /// The entity's serialized component payload, from the entity codec.
    pub data: Vec<u8>,
}

/// A fresh sample of one already-tracked entity's host state.
#[derive(Clone, PartialEq, Debug)]
pub struct EntitySample {
    pub entity: u32,
    pub alive: bool,
    pub data: Vec<u8>,
}

/// What the host reports about a fired projectile at capture time.
#[derive(Clone, PartialEq, Debug)]
pub struct ProjectileInfo {
    /// Host handle of the projectile entity.
    pub entity: u32,
    /// Whether the projectile carries a projectile component at all.
    pub has_projectile_component: bool,
    /// The shooter the host has already attributed, if any.
    pub entity_that_shot: Option<u32>,
    /// The projectile's serialized payload, from the entity codec.
    pub serialized: Vec<u8>,
}

/// A deferred operation against the host, performed by the caller after the
/// tick returns.
#[derive(Clone, PartialEq, Debug)]
pub enum HostCommand {
    /// Kill a host entity.
    KillEntity { entity: u32 },
    /// Spawn a shadow entity mirroring `gid`, owned by `source_peer`, from
    /// a full snapshot.
    SpawnShadow { source_peer: PeerId, lid: Lid, gid: Gid, data: Vec<u8> },
    /// Write an updated snapshot into an existing shadow entity.
    UpdateShadow { entity: u32, data: Vec<u8> },
    /// Spawn a locally-owned entity from a snapshot received through an
    /// authority grant.
    SpawnGranted { lid: Lid, gid: Gid, data: Vec<u8> },
    /// Spawn a remote-fired projectile against its materialized shooter.
    SpawnProjectile { shooter_entity: u32, position: WorldPos, target: WorldPos, data: Vec<u8> },
}

/// Abstract value of an `EntitySample`.
pub struct EntitySampleV {
    pub entity: u32,
    pub alive: bool,
    pub data: Seq<u8>,
}

impl View for EntitySample {
    type V = EntitySampleV;

    open spec fn view(&self) -> EntitySampleV {
        EntitySampleV { entity: self.entity, alive: self.alive, data: self.data@ }
    }
}

/// Abstract value of a `HostCommand`.
pub enum HostCommandV {
    KillEntity { entity: u32 },
    SpawnShadow { source_peer: PeerId, lid: u32, gid: u64, data: Seq<u8> },
    UpdateShadow { entity: u32, data: Seq<u8> },
    SpawnGranted { lid: u32, gid: u64, data: Seq<u8> },
    SpawnProjectile { shooter_entity: u32, position: WorldPos, target: WorldPos, data: Seq<u8> },
}

impl View for HostCommand {
    type V = HostCommandV;

    open spec fn view(&self) -> HostCommandV {
        match self {
            HostCommand::KillEntity { entity } => HostCommandV::KillEntity { entity: *entity },
            HostCommand::SpawnShadow { source_peer, lid, gid, data } => HostCommandV::SpawnShadow {
                source_peer: *source_peer,
                lid: lid.0,
                gid: gid.0,
                data: data@,
            },
            HostCommand::UpdateShadow { entity, data } => HostCommandV::UpdateShadow {
                entity: *entity,
                data: data@,
            },
            HostCommand::SpawnGranted { lid, gid, data } => HostCommandV::SpawnGranted {
                lid: lid.0,
                gid: gid.0,
                data: data@,
            },
            HostCommand::SpawnProjectile { shooter_entity, position, target, data } => {
                HostCommandV::SpawnProjectile {
                    shooter_entity: *shooter_entity,
                    position: *position,
                    target: *target,
                    data: data@,
                }
            }
        }
    }
}

/// The abstract values of a command queue.
pub open spec fn cmds_view(s: Seq<HostCommand>) -> Seq<HostCommandV> {
    s.map_values(|c: HostCommand| c@)
}

/// The abstract values of a sample batch.
pub open spec fn samples_view(s: Seq<EntitySample>) -> Seq<EntitySampleV> {
    s.map_values(|x: EntitySample| x@)
}

} // verus!
