//! The message protocol: every unit that crosses the relay is one of these
//! shapes. Entity payload bytes inside them are produced by an external
//! entity codec and are opaque here.

use vstd::prelude::*;
use crate::types::{Destination, Gid, Lid, PeerId, WorldPos};

verus! {

/// A key/value pair handed to the host during session bootstrap.
#[derive(Clone, PartialEq, Debug)]
pub struct ProxyKV {
    pub key: String,
    pub value: String,
}

/// A binary key/value pair handed to the host during session bootstrap.
#[derive(Clone, PartialEq, Debug)]
pub struct ProxyKVBin {
    pub key: u8,
    pub value: Vec<u8>,
}

/// An opaque payload attributed to a peer.
#[derive(Clone, PartialEq, Debug)]
pub struct ModMessage {
    pub peer: PeerId,
    pub value: Vec<u8>,
}

/// A periodic announcement of the area a peer wants to receive updates for.
/// The radius is taken from the request as sent: the remote peer alone
/// controls how much it is willing to receive.
#[derive(Clone, Copy, PartialEq, Eq, Structural, Debug)]
pub struct InterestRequest {
    pub pos: WorldPos,
    pub radius: u32,
}

/// One projectile-launch event, captured mid-tick on the owning peer and
/// replayed against the materialized shooter on receiving peers.
#[derive(Clone, PartialEq, Debug)]
pub struct ProjectileFired {
    pub shooter_lid: Lid,
    pub position: WorldPos,
    pub target: WorldPos,
    pub serialized: Vec<u8>,
}

/// One entity's change inside a diff batch. `Full` carries a complete
/// snapshot and binds the sender-local `Lid` to the entity's `Gid`; `Delta`
/// is incremental relative to the receiver's last baseline for that `Lid`
/// and is dropped by receivers that hold no baseline; `Removed` ends the
/// entity's replicated lifetime.
#[derive(Clone, PartialEq, Debug)]
pub enum EntityEntry {
    Full { lid: Lid, gid: Gid, data: Vec<u8> },
    Delta { lid: Lid, data: Vec<u8> },
    Removed { lid: Lid },
}

/// A complete snapshot of one owned entity, as handed to the relay for
/// authority bookkeeping and transfer.
#[derive(Clone, PartialEq, Debug)]
pub struct FullEntityData {
    pub gid: Gid,
    pub data: Vec<u8>,
}

/// Cross-peer payloads of the sync module.
#[derive(Clone, PartialEq, Debug)]
pub enum RemoteDes {
    InterestRequest(InterestRequest),
    EntityUpdate(Vec<EntityEntry>),
    ExitedInterest,
    Reset,
    Projectiles(Vec<ProjectileFired>),
}

/// Control messages from the sync module to the relay.
#[derive(Clone, PartialEq, Debug)]
pub enum DesToProxy {
    InitOrUpdateEntity(FullEntityData),
    RequestAuthority { pos: WorldPos, radius: u32 },
}

/// Control messages from the relay to the sync module: an authority grant
/// carries the granting peer's full snapshot; a revocation names the `Gid`
/// this peer must stop tracking.
#[derive(Clone, PartialEq, Debug)]
pub enum ProxyToDes {
    GotAuthority(FullEntityData),
    LostAuthority(Gid),
}

/// Envelope of a cross-peer message.
#[derive(Clone, PartialEq, Debug)]
pub enum RemoteMessage {
    RemoteDes(RemoteDes),
}

/// Everything the relay can deliver to this peer.
#[derive(Clone, PartialEq, Debug)]
pub enum NoitaInbound {
    RawMessage(Vec<u8>),
    Ready { my_peer_id: PeerId },
    ProxyToDes(ProxyToDes),
    RemoteMessage { source: PeerId, message: RemoteMessage },
}

/// Everything this peer can hand to the relay. Each cross-peer message
/// carries the sender's delivery-reliability choice.
#[derive(Clone, PartialEq, Debug)]
pub enum NoitaOutbound {
    Raw(Vec<u8>),
    DesToProxy(DesToProxy),
    RemoteMessage { reliable: bool, destination: Destination, message: RemoteMessage },
}

/// Abstract value of an `EntityEntry`.
pub enum EntityEntryV {
    Full { lid: u32, gid: u64, data: Seq<u8> },
    Delta { lid: u32, data: Seq<u8> },
    Removed { lid: u32 },
}

impl EntityEntryV {
    /// The sender-local `Lid` the entry speaks of.
    pub open spec fn lid(self) -> u32 {
        match self {
            EntityEntryV::Full { lid, .. } => lid,
            EntityEntryV::Delta { lid, .. } => lid,
            EntityEntryV::Removed { lid } => lid,
        }
    }

    /// Whether the entry needs a prior baseline on the receiving side.
    pub open spec fn is_delta(self) -> bool {
        self is Delta
    }
}

impl View for EntityEntry {
    type V = EntityEntryV;

    open spec fn view(&self) -> EntityEntryV {
        match self {
            EntityEntry::Full { lid, gid, data } => EntityEntryV::Full {
                lid: lid.0,
                gid: gid.0,
                data: data@,
            },
            EntityEntry::Delta { lid, data } => EntityEntryV::Delta { lid: lid.0, data: data@ },
            EntityEntry::Removed { lid } => EntityEntryV::Removed { lid: lid.0 },
        }
    }
}

/// The abstract values of a batch of entries.
pub open spec fn entries_view(s: Seq<EntityEntry>) -> Seq<EntityEntryV> {
    s.map_values(|e: EntityEntry| e@)
}

/// Abstract value of a `ProjectileFired`.
pub struct ProjectileFiredV {
    pub shooter_lid: u32,
    pub position: WorldPos,
    pub target: WorldPos,
    pub serialized: Seq<u8>,
}

impl View for ProjectileFired {
    type V = ProjectileFiredV;

    open spec fn view(&self) -> ProjectileFiredV {
        ProjectileFiredV {
            shooter_lid: self.shooter_lid.0,
            position: self.position,
            target: self.target,
            serialized: self.serialized@,
        }
    }
}

/// The abstract values of a projectile batch.
pub open spec fn projectiles_view(s: Seq<ProjectileFired>) -> Seq<ProjectileFiredV> {
    s.map_values(|p: ProjectileFired| p@)
}

/// Abstract value of a `FullEntityData`.
pub struct FullEntityDataV {
    pub gid: u64,
    pub data: Seq<u8>,
}

impl View for FullEntityData {
    type V = FullEntityDataV;

    open spec fn view(&self) -> FullEntityDataV {
        FullEntityDataV { gid: self.gid.0, data: self.data@ }
    }
}

/// Abstract value of a cross-peer payload.
pub enum RemoteDesV {
    InterestRequest(InterestRequest),
    EntityUpdate(Seq<EntityEntryV>),
    ExitedInterest,
    Reset,
    Projectiles(Seq<ProjectileFiredV>),
}

impl View for RemoteDes {
    type V = RemoteDesV;

    open spec fn view(&self) -> RemoteDesV {
        match self {
            RemoteDes::InterestRequest(r) => RemoteDesV::InterestRequest(*r),
            RemoteDes::EntityUpdate(v) => RemoteDesV::EntityUpdate(entries_view(v@)),
            RemoteDes::ExitedInterest => RemoteDesV::ExitedInterest,
            RemoteDes::Reset => RemoteDesV::Reset,
            RemoteDes::Projectiles(v) => RemoteDesV::Projectiles(projectiles_view(v@)),
        }
    }
}

/// Abstract value of a relay control message.
pub enum DesToProxyV {
    InitOrUpdateEntity(FullEntityDataV),
    RequestAuthority { pos: WorldPos, radius: u32 },
}

impl View for DesToProxy {
    type V = DesToProxyV;

    open spec fn view(&self) -> DesToProxyV {
        match self {
            DesToProxy::InitOrUpdateEntity(fd) => DesToProxyV::InitOrUpdateEntity(fd@),
            DesToProxy::RequestAuthority { pos, radius } => DesToProxyV::RequestAuthority {
                pos: *pos,
                radius: *radius,
            },
        }
    }
}

/// Abstract value of an outbound unit.
pub enum NoitaOutboundV {
    Raw(Seq<u8>),
    DesToProxy(DesToProxyV),
    RemoteMessage { reliable: bool, destination: Destination, message: RemoteDesV },
}

impl View for NoitaOutbound {
    type V = NoitaOutboundV;

    open spec fn view(&self) -> NoitaOutboundV {
        match self {
            NoitaOutbound::Raw(v) => NoitaOutboundV::Raw(v@),
            NoitaOutbound::DesToProxy(d) => NoitaOutboundV::DesToProxy(d@),
            NoitaOutbound::RemoteMessage { reliable, destination, message } => {
                match message {
                    RemoteMessage::RemoteDes(rd) => NoitaOutboundV::RemoteMessage {
                        reliable: *reliable,
                        destination: *destination,
                        message: rd@,
                    },
                }
            }
        }
    }
}

/// The abstract values of an outbound queue.
pub open spec fn outbound_view(s: Seq<NoitaOutbound>) -> Seq<NoitaOutboundV> {
    s.map_values(|m: NoitaOutbound| m@)
}

} // verus!
