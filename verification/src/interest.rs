//! Per-peer interest tracking.
//!
//! Each remote peer periodically announces an interest circle. A peer is
//! *interested* while its most recent announcement covers this peer's own
//! viewpoint (widened by a fixed slack) and has been refreshed within the
//! staleness window. A peer whose circle is withdrawn, stale, or reset
//! becomes a *lost* peer exactly once, until a fresh request re-introduces
//! it.

use vstd::prelude::*;
use crate::types::{circle_covers, covers, PeerId, WorldPos};
use crate::messages::InterestRequest;

verus! {

/// How many ticks an interest circle stays valid without a refresh.
pub const STALENESS_WINDOW_TICKS: u64 = 120;

/// One remote peer's current interest circle.
#[derive(Clone, Copy, PartialEq, Eq, Structural, Debug)]
pub struct InterestEntry {
    pub peer: PeerId,
    pub pos: WorldPos,
    pub radius: u32,
    pub last_refresh: u64,
}

/// No two entries speak of the same peer.
pub open spec fn peers_unique(s: Seq<InterestEntry>) -> bool {
    forall|i: int, j: int| 0 <= i < j < s.len() ==> s[i].peer != s[j].peer
}

/// Whether some entry speaks of `q`.
pub open spec fn has_peer(s: Seq<InterestEntry>, q: PeerId) -> bool {
    exists|i: int| 0 <= i < s.len() && #[trigger] s[i].peer == q
}

/// The index of `q`'s entry (meaningful only under `has_peer`).
pub open spec fn peer_idx(s: Seq<InterestEntry>, q: PeerId) -> int {
    choose|i: int| 0 <= i < s.len() && #[trigger] s[i].peer == q
}

/// `q`'s entry (meaningful only under `has_peer`).
pub open spec fn peer_entry(s: Seq<InterestEntry>, q: PeerId) -> InterestEntry {
    s[peer_idx(s, q)]
}

/// Whether an entry is stale at tick `now`: its last refresh lies more than
/// a staleness window in the past.
pub open spec fn is_stale(e: InterestEntry, now: u64) -> bool {
    now - e.last_refresh > STALENESS_WINDOW_TICKS
}

/// The peers of the stale entries of `s`, in entry order.
pub open spec fn stale_peers(s: Seq<InterestEntry>, now: u64) -> Seq<PeerId>
    decreases s.len(),
{
    if s.len() == 0 {
        Seq::empty()
    } else {
        let rest = stale_peers(s.drop_last(), now);
        if is_stale(s.last(), now) {
            rest.push(s.last().peer)
        } else {
            rest
        }
    }
}

/// The peers of `s`'s entries, in entry order.
pub open spec fn entry_peers_of(s: Seq<InterestEntry>) -> Seq<PeerId> {
    s.map_values(|e: InterestEntry| e.peer)
}

/// The non-stale entries of `s`, in entry order.
pub open spec fn live_entries(s: Seq<InterestEntry>, now: u64) -> Seq<InterestEntry>
    decreases s.len(),
{
    if s.len() == 0 {
        Seq::empty()
    } else {
        let rest = live_entries(s.drop_last(), now);
        if is_stale(s.last(), now) {
            rest
        } else {
            rest.push(s.last())
        }
    }
}

/// With unique peers, an index holding `q` is the index `peer_idx` picks.
proof fn lemma_peer_idx(s: Seq<InterestEntry>, q: PeerId, k: int)
    requires
        peers_unique(s),
        0 <= k < s.len(),
        s[k].peer == q,
    ensures
        has_peer(s, q),
        peer_idx(s, q) == k,
        peer_entry(s, q) == s[k],
{
    assert(has_peer(s, q));
    let m = peer_idx(s, q);
    assert(0 <= m < s.len() && s[m].peer == q);
    if m < k {
        assert(s[m].peer != s[k].peer);
        assert(false);
    } else if k < m {
        assert(s[k].peer != s[m].peer);
        assert(false);
    }
}

/// Splitting off the stale entries keeps unique peers unique, keeps every
/// live entry as it was, and reports exactly the stale peers, each once.
proof fn lemma_partition(s: Seq<InterestEntry>, now: u64)
    requires
        peers_unique(s),
    ensures
        peers_unique(live_entries(s, now)),
        forall|q: PeerId|
            has_peer(live_entries(s, now), q) == (has_peer(s, q) && !is_stale(
                peer_entry(s, q),
                now,
            )),
        forall|q: PeerId|
            has_peer(live_entries(s, now), q) ==> peer_entry(live_entries(s, now), q)
                == peer_entry(s, q),
        forall|q: PeerId|
            #[trigger] stale_peers(s, now).contains(q) == (has_peer(s, q) && is_stale(
                peer_entry(s, q),
                now,
            )),
        forall|i: int, j: int|
            0 <= i < j < stale_peers(s, now).len() ==> stale_peers(s, now)[i] != stale_peers(
                s,
                now,
            )[j],
        forall|k: int| 0 <= k < live_entries(s, now).len() ==> s.contains(
            #[trigger] live_entries(s, now)[k],
        ),
    decreases s.len(),
{
    if s.len() == 0 {
    } else {
        let s0 = s.drop_last();
        let e = s.last();
        assert(peers_unique(s0));
        lemma_partition(s0, now);
        assert(forall|q: PeerId| has_peer(s0, q) ==> #[trigger] has_peer(s, q));
        // q's entry in s agrees with its entry in s0, for q other than e.peer
        assert forall|q: PeerId| q != e.peer && has_peer(s, q) implies has_peer(s0, q)
            && peer_entry(s0, q) == peer_entry(s, q) by {
            let k = peer_idx(s, q);
            assert(s[k].peer == q);
            assert(k != s.len() - 1);
            assert(s0[k] == s[k]);
            lemma_peer_idx(s0, q, k);
        }
        assert forall|q: PeerId| q != e.peer && has_peer(s0, q) implies peer_entry(s0, q)
            == peer_entry(s, q) by {
            let k = peer_idx(s0, q);
            assert(s0[k].peer == q);
            lemma_peer_idx(s, q, k);
        }
        assert(forall|k: int| 0 <= k < s.len() - 1 ==> s[k].peer != e.peer);
        assert(!has_peer(s0, e.peer));
        lemma_peer_idx(s, e.peer, s.len() - 1);
        assert forall|x: InterestEntry| s0.contains(x) implies #[trigger] s.contains(x) by {
            let k = choose|k: int| 0 <= k < s0.len() && s0[k] == x;
            assert(s[k] == x);
        }
        assert forall|k: int|
            0 <= k < live_entries(s, now).len() implies s.contains(
            #[trigger] live_entries(s, now)[k],
        ) by {
            let live_all = live_entries(s, now);
            if is_stale(e, now) {
                assert(live_all[k] == live_entries(s0, now)[k]);
                assert(s0.contains(live_all[k]));
            } else {
                if k < live_all.len() - 1 {
                    assert(live_all[k] == live_entries(s0, now)[k]);
                    assert(s0.contains(live_all[k]));
                } else {
                    assert(live_all[k] == e);
                    assert(s[s.len() - 1] == e);
                    assert(s.contains(e));
                }
            }
        }
        let live = live_entries(s, now);
        let stale = stale_peers(s, now);
        if is_stale(e, now) {
            assert(live == live_entries(s0, now));
            assert(stale == stale_peers(s0, now).push(e.peer));
            assert forall|q: PeerId| #[trigger]
                stale.contains(q) == (has_peer(s, q) && is_stale(peer_entry(s, q), now)) by {
                if q == e.peer {
                    assert(stale[stale.len() - 1] == q);
                    assert(stale.contains(q));
                } else {
                    if stale.contains(q) {
                        let k = choose|k: int| 0 <= k < stale.len() && stale[k] == q;
                        assert(stale_peers(s0, now)[k] == q);
                        assert(stale_peers(s0, now).contains(q));
                    }
                    if stale_peers(s0, now).contains(q) {
                        let k = choose|k: int|
                            0 <= k < stale_peers(s0, now).len() && stale_peers(s0, now)[k] == q;
                        assert(stale[k] == q);
                    }
                }
            }
            assert forall|q: PeerId|
                has_peer(live, q) == (has_peer(s, q) && !is_stale(peer_entry(s, q), now)) by {
                if q == e.peer {
                    if has_peer(live, q) {
                        assert(has_peer(s0, q));
                        assert(false);
                    }
                }
            }
            assert forall|i: int, j: int| 0 <= i < j < stale.len() implies stale[i] != stale[j] by {
                if j == stale.len() - 1 {
                    assert(stale_peers(s0, now).contains(stale[i]));
                    assert(has_peer(s0, stale[i]));
                }
            }
        } else {
            assert(live == live_entries(s0, now).push(e));
            assert(stale == stale_peers(s0, now));
            let live0 = live_entries(s0, now);
            assert forall|q: PeerId|
                has_peer(live, q) == (has_peer(s, q) && !is_stale(peer_entry(s, q), now)) by {
                if q == e.peer {
                    assert(live[live.len() - 1].peer == q);
                    assert(has_peer(live, q));
                } else {
                    if has_peer(live, q) {
                        let k = peer_idx(live, q);
                        assert(live[k].peer == q);
                        assert(k != live.len() - 1);
                        assert(live0[k] == live[k]);
                        assert(has_peer(live0, q));
                    }
                    if has_peer(live0, q) {
                        let k = peer_idx(live0, q);
                        assert(live0[k].peer == q);
                        assert(live[k].peer == q);
                        assert(has_peer(live, q));
                    }
                }
            }
            assert(forall|q: PeerId| has_peer(live0, q) ==> #[trigger] has_peer(s0, q));
            assert(!has_peer(live0, e.peer));
            assert forall|i: int, j: int| 0 <= i < j < live.len() implies live[i].peer
                != live[j].peer by {
                if j == live.len() - 1 {
                    assert(live0[i] == live[i]);
                    assert(has_peer(live0, live[i].peer));
                } else {
                    assert(live0[i] == live[i] && live0[j] == live[j]);
                }
            }
            lemma_peer_idx(live, e.peer, live.len() - 1);
            assert forall|q: PeerId| has_peer(live, q) implies peer_entry(live, q) == peer_entry(
                s,
                q,
            ) by {
                if q == e.peer {
                } else {
                    let k = peer_idx(live, q);
                    assert(live[k].peer == q);
                    assert(k != live.len() - 1);
                    assert(live0[k] == live[k]);
                    lemma_peer_idx(live0, q, k);
                    assert(peer_entry(live0, q) == live[k]);
                    assert(peer_entry(live, q) == live[k]);
                }
            }
        }
    }
}

/// Tracks which peers are currently interested in this peer's owned
/// entities, and which peers have just lost interest.
pub struct InterestTracker {
    /// Interested peers, one entry per peer.
    pub entries: Vec<InterestEntry>,
    /// Peers that lost interest and have not been drained yet.
    pub lost: Vec<PeerId>,
    /// This peer's own viewpoint.
    pub center: WorldPos,
    /// Widening added to every announced radius when deciding coverage.
    pub slack: u32,
    /// The tracker's tick clock, advanced once per simulation tick.
    pub now: u64,
    /// Whether some peer became interested since the last check.
    pub any_new: bool,
}

impl InterestTracker {
    /// Entries hold one circle per peer, lost peers are recorded once and
    /// never while still interested, and no refresh stamp lies in the
    /// future.
    pub open spec fn wf(self) -> bool {
        &&& peers_unique(self.entries@)
        &&& forall|i: int, j: int|
            0 <= i < j < self.lost@.len() ==> self.lost@[i] != self.lost@[j]
        &&& forall|i: int, j: int|
            0 <= i < self.entries@.len() && 0 <= j < self.lost@.len()
                ==> #[trigger] self.entries@[i].peer != #[trigger] self.lost@[j]
        &&& forall|i: int|
            0 <= i < self.entries@.len() ==> #[trigger] self.entries@[i].last_refresh <= self.now
    }

    /// The interested peers, in entry order.
    pub open spec fn entry_peers(self) -> Seq<PeerId> {
        entry_peers_of(self.entries@)
    }

    /// Whether `peer` is currently interested.
    pub open spec fn interested(self, peer: PeerId) -> bool {
        has_peer(self.entries@, peer)
    }

    /// `peer`'s current circle entry (meaningful only while `interested`).
    pub open spec fn entry_of(self, peer: PeerId) -> InterestEntry {
        peer_entry(self.entries@, peer)
    }

    /// Whether `peer` has lost interest and the loss has not been drained.
    pub open spec fn pending_lost(self, peer: PeerId) -> bool {
        self.lost@.contains(peer)
    }

    /// Whether the tracker holds any state at all for `peer`.
    pub open spec fn knows(self, peer: PeerId) -> bool {
        self.interested(peer) || self.pending_lost(peer)
    }

    pub fn new(slack: u32) -> (t: Self)
        ensures
            t.wf(),
            t.entries@.len() == 0,
            t.lost@.len() == 0,
            t.center == (WorldPos { x: 0, y: 0 }),
            t.slack == slack,
            t.now == 0,
            !t.any_new,
    {
        InterestTracker {
            entries: Vec::new(),
            lost: Vec::new(),
            center: WorldPos { x: 0, y: 0 },
            slack,
            now: 0,
            any_new: false,
        }
    }

    /// Updates this peer's own viewpoint.
    pub fn set_center(&mut self, x: i32, y: i32)
        ensures
            *final(self) == (InterestTracker { center: WorldPos { x, y }, ..*old(self) }),
    {
        self.center = WorldPos { x, y };
    }

    /// Advances the tracker's tick clock (saturating at the clock's end).
    pub fn begin_tick(&mut self)
        ensures
            *final(self) == (InterestTracker {
                now: if old(self).now == u64::MAX {
                    u64::MAX
                } else {
                    (old(self).now + 1) as u64
                },
                ..*old(self)
            }),
    {
        if self.now < u64::MAX {
            self.now = self.now + 1;
        }
    }

    /// The index of `peer`'s entry, if any.
    fn find_peer(&self, peer: PeerId) -> (r: Option<usize>)
        ensures
            match r {
                Some(i) => i < self.entries@.len() && self.entries@[i as int].peer == peer,
                None => !self.interested(peer),
            },
    {
        let mut i: usize = 0;
        while i < self.entries.len()
            invariant
                i <= self.entries@.len(),
                forall|k: int| 0 <= k < i ==> self.entries@[k].peer != peer,
            decreases self.entries@.len() - i,
        {
            if self.entries[i].peer == peer {
                return Some(i);
            }
            i = i + 1;
        }
        None
    }

    /// Withdraws `peer`'s circle: a previously interested peer becomes a
    /// lost peer; anyone else is untouched.
    fn withdraw_peer(&mut self, peer: PeerId)
        requires
            old(self).wf(),
        ensures
            final(self).wf(),
            final(self).center == old(self).center,
            final(self).slack == old(self).slack,
            final(self).now == old(self).now,
            final(self).any_new == old(self).any_new,
            forall|q: PeerId|
                q != peer ==> (final(self).interested(q) == old(self).interested(q) && final(self).pending_lost(q) == old(self).pending_lost(q)),
            forall|q: PeerId|
                q != peer && old(self).interested(q) ==> final(self).entry_of(q) == old(self).entry_of(q),
            !final(self).interested(peer),
            final(self).pending_lost(peer) == (old(self).interested(peer) || old(self).pending_lost(peer)),
    {
        let found = self.find_peer(peer);
        match found {
            Some(i) => {
                let ghost s0 = self.entries@;
                let ghost l0 = self.lost@;
                self.entries.remove(i);
                self.lost.push(peer);
                proof {
                    let s1 = self.entries@;
                    assert(s1 == s0.remove(i as int));
                    assert forall|k: int| 0 <= k < s1.len() implies (#[trigger] s1[k] == if k < i {
                        s0[k]
                    } else {
                        s0[k + 1]
                    }) by {}
                    assert forall|k: int| 0 <= k < s1.len() implies #[trigger] s1[k].peer
                        != peer by {
                        if k < i {
                            assert(s1[k] == s0[k]);
                        } else {
                            assert(s1[k] == s0[k + 1]);
                        }
                    }
                    assert forall|q: PeerId| q != peer && has_peer(s0, q) implies has_peer(s1, q)
                        && peer_entry(s1, q) == peer_entry(s0, q) by {
                        let k = peer_idx(s0, q);
                        assert(s0[k].peer == q);
                        assert(k != i);
                        if k < i {
                            assert(s1[k] == s0[k]);
                            lemma_peer_idx(s0, q, k);
                            lemma_peer_idx(s1, q, k);
                        } else {
                            assert(s1[k - 1] == s0[k]);
                            lemma_peer_idx(s0, q, k);
                            lemma_peer_idx(s1, q, k - 1);
                        }
                    }
                    assert forall|q: PeerId| has_peer(s1, q) implies has_peer(s0, q) by {
                        let k = peer_idx(s1, q);
                        assert(s1[k].peer == q);
                        if k < i {
                            assert(s0[k].peer == q);
                        } else {
                            assert(s0[k + 1].peer == q);
                        }
                    }
                    // the lost queue gained exactly `peer`
                    assert(self.lost@ == l0.push(peer));
                    assert forall|q: PeerId| q != peer implies #[trigger] self.lost@.contains(q)
                        == l0.contains(q) by {
                        if self.lost@.contains(q) {
                            let k = choose|k: int|
                                0 <= k < self.lost@.len() && self.lost@[k] == q;
                            assert(l0[k] == q);
                        }
                        if l0.contains(q) {
                            let k = choose|k: int| 0 <= k < l0.len() && l0[k] == q;
                            assert(self.lost@[k] == q);
                        }
                    }
                    assert(s0[i as int].peer == peer);
                    assert(!l0.contains(peer));
                    assert(self.lost@[self.lost@.len() - 1] == peer);
                }
            }
            None => {}
        }
    }

    /// Records or refreshes `peer`'s declared circle. The radius is taken
    /// from the request, never computed here. A circle that covers this
    /// peer's viewpoint makes (or keeps) the peer interested; one that does
    /// not withdraws it, turning a previously interested peer into a lost
    /// peer.
    pub fn handle_interest_request(&mut self, peer: PeerId, request: InterestRequest)
        requires
            old(self).wf(),
        ensures
            final(self).wf(),
            final(self).center == old(self).center,
            final(self).slack == old(self).slack,
            final(self).now == old(self).now,
            forall|q: PeerId|
                q != peer ==> (final(self).interested(q) == old(self).interested(q) && final(self).pending_lost(q) == old(self).pending_lost(q)),
            forall|q: PeerId|
                q != peer && old(self).interested(q) ==> final(self).entry_of(q) == old(self).entry_of(q),
            final(self).interested(peer) == circle_covers(
                request.pos,
                request.radius,
                old(self).center,
                old(self).slack,
            ),
            final(self).interested(peer) ==> final(self).entry_of(peer) == (InterestEntry {
                peer,
                pos: request.pos,
                radius: request.radius,
                last_refresh: old(self).now,
            }),
            final(self).pending_lost(peer) == if circle_covers(
                request.pos,
                request.radius,
                old(self).center,
                old(self).slack,
            ) {
                false
            } else {
                old(self).interested(peer) || old(self).pending_lost(peer)
            },
            final(self).any_new == (old(self).any_new || (circle_covers(
                request.pos,
                request.radius,
                old(self).center,
                old(self).slack,
            ) && !old(self).interested(peer))),
    {
        let is_covering = covers(request.pos, request.radius, self.center, self.slack);
        if !is_covering {
            self.withdraw_peer(peer);
            return ;
        }
        let refreshed = InterestEntry {
            peer,
            pos: request.pos,
            radius: request.radius,
            last_refresh: self.now,
        };
        let found = self.find_peer(peer);
        match found {
            Some(i) => {
                let ghost s0 = self.entries@;
                self.entries[i] = refreshed;
                proof {
                    let s1 = self.entries@;
                    assert(s1 == s0.update(i as int, refreshed));
                    assert(forall|k: int|
                        0 <= k < s1.len() ==> #[trigger] s1[k].peer == s0[k].peer);
                    assert forall|q: PeerId| has_peer(s1, q) == has_peer(s0, q) by {
                        if has_peer(s1, q) {
                            let k = peer_idx(s1, q);
                            assert(s0[k].peer == q);
                        }
                        if has_peer(s0, q) {
                            let k = peer_idx(s0, q);
                            assert(s1[k].peer == q);
                        }
                    }
                    lemma_peer_idx(s1, peer, i as int);
                    assert forall|q: PeerId| q != peer && has_peer(s0, q) implies peer_entry(
                        s1,
                        q,
                    ) == peer_entry(s0, q) by {
                        let k = peer_idx(s0, q);
                        assert(s0[k].peer == q);
                        assert(k != i);
                        lemma_peer_idx(s0, q, k);
                        lemma_peer_idx(s1, q, k);
                    }
                }
            }
            None => {
                let lost_found = self.find_lost(peer);
                let ghost l0 = self.lost@;
                match lost_found {
                    Some(j) => {
                        self.lost.remove(j);
                        proof {
                            let l1 = self.lost@;
                            assert(l1 == l0.remove(j as int));
                            assert forall|q: PeerId| q != peer implies #[trigger] l1.contains(q)
                                == l0.contains(q) by {
                                if l1.contains(q) {
                                    let k = choose|k: int| 0 <= k < l1.len() && l1[k] == q;
                                    if k < j {
                                        assert(l0[k] == q);
                                    } else {
                                        assert(l0[k + 1] == q);
                                    }
                                }
                                if l0.contains(q) {
                                    let k = choose|k: int| 0 <= k < l0.len() && l0[k] == q;
                                    assert(k != j);
                                    if k < j {
                                        assert(l1[k] == q);
                                    } else {
                                        assert(l1[k - 1] == q);
                                    }
                                }
                            }
                            assert forall|k: int| 0 <= k < l1.len() implies #[trigger] l1[k]
                                != peer by {
                                if k < j {
                                    assert(l1[k] == l0[k]);
                                } else {
                                    assert(l1[k] == l0[k + 1]);
                                }
                            }
                        }
                    }
                    None => {}
                }
                let ghost s0 = self.entries@;
                self.entries.push(refreshed);
                self.any_new = true;
                proof {
                    let s1 = self.entries@;
                    assert(s1 == s0.push(refreshed));
                    assert(forall|k: int| 0 <= k < s0.len() ==> #[trigger] s1[k] == s0[k]);
                    assert(forall|k: int| 0 <= k < s0.len() ==> #[trigger] s0[k].peer != peer);
                    lemma_peer_idx(s1, peer, s1.len() - 1);
                    assert forall|q: PeerId| q != peer && has_peer(s0, q) implies has_peer(s1, q)
                        && peer_entry(s1, q) == peer_entry(s0, q) by {
                        let k = peer_idx(s0, q);
                        assert(s0[k].peer == q);
                        lemma_peer_idx(s0, q, k);
                        lemma_peer_idx(s1, q, k);
                    }
                    assert forall|q: PeerId| q != peer && has_peer(s1, q) implies has_peer(
                        s0,
                        q,
                    ) by {
                        let k = peer_idx(s1, q);
                        assert(s1[k].peer == q);
                        assert(k != s1.len() - 1);
                        assert(s0[k].peer == q);
                    }
                }
            }
        }
    }

    /// The position of `peer` in the lost queue, if any.
    fn find_lost(&self, peer: PeerId) -> (r: Option<usize>)
        ensures
            match r {
                Some(i) => i < self.lost@.len() && self.lost@[i as int] == peer,
                None => !self.pending_lost(peer),
            },
    {
        let mut i: usize = 0;
        while i < self.lost.len()
            invariant
                i <= self.lost@.len(),
                forall|k: int| 0 <= k < i ==> self.lost@[k] != peer,
            decreases self.lost@.len() - i,
        {
            if self.lost[i] == peer {
                return Some(i);
            }
            i = i + 1;
        }
        proof {
            if self.lost@.contains(peer) {
                let k = choose|k: int| 0 <= k < self.lost@.len() && self.lost@[k] == peer;
                assert(false);
            }
        }
        None
    }

    /// Withdraws `peer`'s circle on a session reset from that peer, as if a
    /// non-covering request had arrived.
    pub fn reset_interest_for(&mut self, peer: PeerId)
        requires
            old(self).wf(),
        ensures
            final(self).wf(),
            final(self).center == old(self).center,
            final(self).slack == old(self).slack,
            final(self).now == old(self).now,
            final(self).any_new == old(self).any_new,
            forall|q: PeerId|
                q != peer ==> (final(self).interested(q) == old(self).interested(q) && final(self).pending_lost(q) == old(self).pending_lost(q)),
            forall|q: PeerId|
                q != peer && old(self).interested(q) ==> final(self).entry_of(q) == old(self).entry_of(q),
            !final(self).interested(peer),
            final(self).pending_lost(peer) == (old(self).interested(peer) || old(self).pending_lost(peer)),
    {
        self.withdraw_peer(peer);
    }

    /// Produces, once and exactly once per loss event, the peers whose
    /// interest is gone: those withdrawn or reset since the last drain, and
    /// those whose circle went stale. A drained peer is no longer known to
    /// the tracker, so it cannot be returned again before a fresh
    /// `InterestRequest` from that peer re-introduces it.
    pub fn drain_lost_interest(&mut self) -> (r: Vec<PeerId>)
        requires
            old(self).wf(),
        ensures
            final(self).wf(),
            final(self).center == old(self).center,
            final(self).slack == old(self).slack,
            final(self).now == old(self).now,
            final(self).any_new == old(self).any_new,
            // exactly the queued losses, then the freshly stale, in order
            r@ == old(self).lost@ + stale_peers(old(self).entries@, old(self).now),
            // and exactly the live circles survive, in entry order
            final(self).entries@ == live_entries(old(self).entries@, old(self).now),
            forall|q: PeerId|
                #[trigger] r@.contains(q) == (old(self).pending_lost(q) || (old(self).interested(q)
                    && is_stale(old(self).entry_of(q), old(self).now))),
            forall|i: int, j: int| 0 <= i < j < r@.len() ==> r@[i] != r@[j],
            forall|q: PeerId|
                final(self).interested(q) == (old(self).interested(q) && !is_stale(
                    old(self).entry_of(q),
                    old(self).now,
                )),
            forall|q: PeerId|
                final(self).interested(q) ==> final(self).entry_of(q) == old(self).entry_of(q),
            final(self).lost@.len() == 0,
            forall|q: PeerId| #[trigger] r@.contains(q) ==> !final(self).knows(q),
    {
        let ghost entries0 = self.entries@;
        let ghost lost0 = self.lost@;
        let ghost now0 = self.now;
        let mut result: Vec<PeerId> = Vec::new();
        let mut i: usize = 0;
        while i < self.lost.len()
            invariant
                i <= self.lost@.len(),
                lost0 == self.lost@,
                result@ == self.lost@.take(i as int),
            decreases self.lost@.len() - i,
        {
            let p = self.lost[i];
            result.push(p);
            proof {
                assert(result@ =~= self.lost@.take(i + 1 as int));
            }
            i = i + 1;
        }
        proof {
            assert(lost0.take(lost0.len() as int) =~= lost0);
        }
        let mut kept: Vec<InterestEntry> = Vec::new();
        let mut j: usize = 0;
        while j < self.entries.len()
            invariant
                self.wf(),
                j <= self.entries@.len(),
                entries0 == self.entries@,
                now0 == self.now,
                result@ == lost0 + stale_peers(entries0.take(j as int), now0),
                kept@ == live_entries(entries0.take(j as int), now0),
            decreases self.entries@.len() - j,
        {
            let e = self.entries[j];
            proof {
                assert(entries0.take(j + 1 as int).drop_last() =~= entries0.take(j as int));
                assert(entries0.take(j + 1 as int).last() == entries0[j as int]);
            }
            if self.now - e.last_refresh > STALENESS_WINDOW_TICKS {
                result.push(e.peer);
            } else {
                kept.push(e);
            }
            j = j + 1;
        }
        proof {
            assert(entries0.take(entries0.len() as int) =~= entries0);
        }
        self.entries = kept;
        self.lost = Vec::new();
        proof {
            lemma_partition(entries0, now0);
            let stale = stale_peers(entries0, now0);
            assert forall|k: int|
                0 <= k < self.entries@.len() implies #[trigger] self.entries@[k].last_refresh
                <= self.now by {
                assert(entries0.contains(self.entries@[k]));
                let m = choose|m: int| 0 <= m < entries0.len() && entries0[m] == self.entries@[k];
                assert(entries0[m].last_refresh <= now0);
            }
            assert forall|q: PeerId| #[trigger]
                result@.contains(q) == (lost0.contains(q) || stale.contains(q)) by {
                if result@.contains(q) {
                    let k = choose|k: int| 0 <= k < result@.len() && result@[k] == q;
                    if k < lost0.len() {
                        assert(lost0[k] == q);
                    } else {
                        assert(stale[k - lost0.len()] == q);
                    }
                } else {
                    if lost0.contains(q) {
                        let k = choose|k: int| 0 <= k < lost0.len() && lost0[k] == q;
                        assert(result@[k] == q);
                        assert(false);
                    }
                    if stale.contains(q) {
                        let k = choose|k: int| 0 <= k < stale.len() && stale[k] == q;
                        assert(result@[k + lost0.len()] == q);
                        assert(false);
                    }
                }
            }
            assert forall|a: int, b: int| 0 <= a < b < result@.len() implies result@[a]
                != result@[b] by {
                if b < lost0.len() {
                } else if a >= lost0.len() {
                    assert(stale[a - lost0.len()] == result@[a]);
                    assert(stale[b - lost0.len()] == result@[b]);
                } else {
                    assert(result@[a] == lost0[a]);
                    assert(result@[b] == stale[b - lost0.len()]);
                    assert(stale.contains(result@[b]));
                    assert(has_peer(entries0, result@[b]));
                    let k = peer_idx(entries0, result@[b]);
                    assert(entries0[k].peer == result@[b]);
                    assert(lost0.contains(result@[a]));
                    if result@[a] == result@[b] {
                        assert(false);
                    }
                }
            }
            assert forall|q: PeerId| #[trigger] result@.contains(q) implies !has_peer(
                self.entries@,
                q,
            ) by {
                if lost0.contains(q) {
                    if has_peer(entries0, q) {
                        let k = peer_idx(entries0, q);
                        assert(entries0[k].peer == q);
                        assert(false);
                    }
                }
            }
        }
        result
    }

    /// A stable snapshot of the currently interested peers, in entry order.
    /// A peer that has never sent an `InterestRequest` is never included.
    pub fn iter_interested(&self) -> (r: Vec<PeerId>)
        ensures
            r@ == self.entry_peers(),
    {
        let mut r: Vec<PeerId> = Vec::new();
        let mut i: usize = 0;
        while i < self.entries.len()
            invariant
                i <= self.entries@.len(),
                r@ == entry_peers_of(self.entries@.take(i as int)),
            decreases self.entries@.len() - i,
        {
            r.push(self.entries[i].peer);
            proof {
                assert(entry_peers_of(self.entries@.take(i + 1 as int)) =~= entry_peers_of(
                    self.entries@.take(i as int),
                ).push(self.entries@[i as int].peer));
            }
            i = i + 1;
        }
        proof {
            assert(self.entries@.take(self.entries@.len() as int) =~= self.entries@);
        }
        r
    }

    /// True once per tick in which at least one peer transitioned into
    /// interested since the last check; reading it clears the flag.
    pub fn got_any_new_interested(&mut self) -> (r: bool)
        ensures
            r == old(self).any_new,
            *final(self) == (InterestTracker { any_new: false, ..*old(self) }),
    {
        let r = self.any_new;
        self.any_new = false;
        r
    }
}

} // verus!
