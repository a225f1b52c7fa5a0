//! Core identifiers and plain-value geometry for distributed entity sync.
//!
//! A `Gid` is the cross-peer handle of a replicated entity, assigned by the
//! owning peer. A `Lid` is a peer-local index into the local tracking table
//! and is only meaningful together with the peer that created it. A `PeerId`
//! names a peer of the session. Positions travel as integer world
//! coordinates.

use vstd::prelude::*;

verus! {

/// Identifier of a peer in the session.
#[derive(Clone, Copy, PartialEq, Eq, Structural, Hash, Debug)]
pub struct PeerId(pub u64);

/// Globally unique identifier of a replicated entity, assigned by the peer
/// that owns it.
#[derive(Clone, Copy, PartialEq, Eq, Structural, Hash, Debug)]
pub struct Gid(pub u64);

/// Peer-local index of an owned entity's tracking record; never stands in
/// for a `Gid` across peers.
#[derive(Clone, Copy, PartialEq, Eq, Structural, Hash, Debug)]
pub struct Lid(pub u32);

/// A position in world coordinates.
#[derive(Clone, Copy, PartialEq, Eq, Structural, Debug)]
pub struct WorldPos {
    pub x: i32,
    pub y: i32,
}

/// Where a cross-peer message is addressed.
#[derive(Clone, Copy, PartialEq, Eq, Structural, Debug)]
pub enum Destination {
    Broadcast,
    Peer(PeerId),
}

/// Errors of the sync module itself. Transient conditions (an entity that
/// vanished, a diff that is not ready) are not errors: they are skipped and
/// retried on a later tick.
#[derive(Clone, Copy, PartialEq, Eq, Structural, Debug)]
pub enum DesError {
    /// `track_entity` was asked to track an entity or a `Gid` that already
    /// has a tracking record.
    AlreadyTracked,
    /// A message other than a raw key/value blob or `Ready` arrived while the
    /// session was still bootstrapping.
    UnexpectedMessage,
    /// A `Ready` message arrived after the peer identity was already
    /// established.
    UnexpectedReady,
}

/// Squared Euclidean distance between two positions, in unbounded integers.
pub open spec fn dist2(a: WorldPos, b: WorldPos) -> int {
    (a.x - b.x) * (a.x - b.x) + (a.y - b.y) * (a.y - b.y)
}

/// Whether the circle at `pos` with radius `radius`, widened by `slack`,
/// covers the point `center`.
pub open spec fn circle_covers(pos: WorldPos, radius: u32, center: WorldPos, slack: u32) -> bool {
    dist2(pos, center) <= (radius + slack) * (radius + slack)
}

/// Decides `circle_covers` executably; the squares are taken in `i128`,
/// which cannot overflow for `i32` coordinates.
pub fn covers(pos: WorldPos, radius: u32, center: WorldPos, slack: u32) -> (r: bool)
    ensures
        r == circle_covers(pos, radius, center, slack),
{
    let dx: i128 = (pos.x as i128) - (center.x as i128);
    let dy: i128 = (pos.y as i128) - (center.y as i128);
    let rr: i128 = (radius as i128) + (slack as i128);
    proof {
        assert(-0x1_0000_0000 < dx < 0x1_0000_0000);
        assert(-0x1_0000_0000 < dy < 0x1_0000_0000);
        assert(0 <= rr < 0x2_0000_0000);
        assert(dx * dx < 0x1_0000_0000_0000_0000_0000 && dx * dx >= 0) by (nonlinear_arith)
            requires -0x1_0000_0000 < dx < 0x1_0000_0000,
        ;
        assert(dy * dy < 0x1_0000_0000_0000_0000_0000 && dy * dy >= 0) by (nonlinear_arith)
            requires -0x1_0000_0000 < dy < 0x1_0000_0000,
        ;
        assert(rr * rr < 0x10_0000_0000_0000_0000_0000 && rr * rr >= 0) by (nonlinear_arith)
            requires 0 <= rr < 0x2_0000_0000,
        ;
    }
    dx * dx + dy * dy <= rr * rr
}

} // verus!
