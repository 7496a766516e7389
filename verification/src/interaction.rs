//! The block-interaction state that is plain bookkeeping: the arm swing's
//! timer, and the block changes predicted locally until the server
//! acknowledges them.
use vstd::prelude::*;

verus! {

/// Ticks a swing lasts.
pub const SWING_DURATION: i32 = 6;

/// The arm swing: whether one is running and its tick.
#[derive(Clone, Copy, Debug, PartialEq, Eq, Structural)]
pub struct SwingState {
    pub swinging: bool,
    pub swing_time: i32,
}

impl SwingState {
    pub fn new() -> (s: Self)
        ensures
            s == (SwingState { swinging: false, swing_time: 0 }),
    {
        SwingState { swinging: false, swing_time: 0 }
    }

    /// Starts a swing, unless one is in its first half: a swing restarts
    /// only once it is half done.
    pub fn swing(&mut self)
        ensures
            if !old(self).swinging || old(self).swing_time >= SWING_DURATION / 2 || old(self).swing_time < 0 {
                *final(self) == (SwingState { swinging: true, swing_time: -1i32 })
            } else {
                *final(self) == *old(self)
            },
    {
        if !self.swinging || self.swing_time >= SWING_DURATION / 2 || self.swing_time < 0 {
            self.swing_time = -1;
            self.swinging = true;
        }
    }

    /// Advances the swing by one tick; a finished swing stops at tick 0.
    pub fn tick(&mut self)
        requires
            old(self).swing_time < i32::MAX,
        ensures
            if old(self).swinging {
                if old(self).swing_time + 1 >= SWING_DURATION {
                    *final(self) == (SwingState { swinging: false, swing_time: 0 })
                } else {
                    *final(self) == (SwingState { swinging: true, swing_time: (old(self).swing_time + 1) as i32 })
                }
            } else {
                *final(self) == (SwingState { swinging: false, swing_time: 0 })
            },
            final(self).swing_time < SWING_DURATION,
    {
        if self.swinging {
            self.swing_time += 1;
            if self.swing_time >= SWING_DURATION {
                self.swing_time = 0;
                self.swinging = false;
            }
        } else {
            self.swing_time = 0;
        }
    }
}

/// Blocks changed locally, each with the sequence number of the request
/// that changed it.
pub struct Predictions {
    entries: Vec<((i32, i32, i32), u32)>,
}

impl Predictions {
    /// The predicted blocks and their sequence numbers.
    pub closed spec fn view_map(&self) -> Map<(i32, i32, i32), u32> {
        Map::new(
            |p: (i32, i32, i32)| exists|i: int| 0 <= i < self.entries@.len() && self.entries@[i].0 == p,
            |p: (i32, i32, i32)|
                self.entries@[choose|i: int| 0 <= i < self.entries@.len() && self.entries@[i].0 == p].1,
        )
    }

    /// No block is listed twice.
    pub closed spec fn wf(&self) -> bool {
        forall|i: int, j: int|
            0 <= i < j < self.entries@.len() ==> (#[trigger] self.entries@[i]).0 != (#[trigger] self.entries@[j]).0
    }

    pub fn new() -> (p: Self)
        ensures
            p.wf(),
            p.view_map() == Map::<(i32, i32, i32), u32>::empty(),
    {
        let p = Predictions { entries: Vec::new() };
        assert(p.view_map() =~= Map::<(i32, i32, i32), u32>::empty());
        p
    }

    /// Whether a change to `pos` awaits acknowledgement.
    pub fn has_pending(&self, pos: (i32, i32, i32)) -> (r: bool)
        ensures
            r == self.view_map().contains_key(pos),
    {
        let mut i: usize = 0;
        while i < self.entries.len()
            invariant
                i <= self.entries@.len(),
                forall|j: int| 0 <= j < i ==> self.entries@[j].0 != pos,
            decreases self.entries@.len() - i,
        {
            let e = self.entries[i];
            if e.0.0 == pos.0 && e.0.1 == pos.1 && e.0.2 == pos.2 {
                assert(self.entries@[i as int].0 == pos);
                return true;
            }
            i += 1;
        }
        false
    }

    /// Records that the request with sequence number `seq` changed `pos`,
    /// replacing an earlier record of it.
    pub fn insert(&mut self, pos: (i32, i32, i32), seq: u32)
        requires
            old(self).wf(),
        ensures
            final(self).wf(),
            final(self).view_map() == old(self).view_map().insert(pos, seq),
    {
        let ghost old_map = self.view_map();
        let mut i: usize = 0;
        while i < self.entries.len()
            invariant
                self.wf(),
                self.entries@ == old(self).entries@,
                old_map == old(self).view_map(),
                i <= self.entries@.len(),
                forall|j: int| 0 <= j < i ==> self.entries@[j].0 != pos,
            decreases self.entries@.len() - i,
        {
            let e = self.entries[i];
            if e.0.0 == pos.0 && e.0.1 == pos.1 && e.0.2 == pos.2 {
                let ghost before = self.entries@;
                self.entries.set(i, (pos, seq));
                proof {
                    assert(before[i as int].0 == pos);
                    assert forall|a: int, b: int| 0 <= a < b < self.entries@.len() implies (
                    #[trigger] self.entries@[a]).0 != (#[trigger] self.entries@[b]).0 by {
                        assert(before[a].0 != before[b].0);
                    }
                    assert forall|p: (i32, i32, i32)| #[trigger] self.view_map().contains_key(p) == old_map.insert(
                        pos,
                        seq,
                    ).contains_key(p) by {
                        if p == pos {
                            assert(self.entries@[i as int].0 == p);
                        } else if old_map.contains_key(p) {
                            let k = choose|k: int| 0 <= k < before.len() && before[k].0 == p;
                            assert(self.entries@[k].0 == p);
                        } else if self.view_map().contains_key(p) {
                            let k = choose|k: int| 0 <= k < self.entries@.len() && self.entries@[k].0 == p;
                            assert(before[k].0 == p);
                        }
                    }
                    assert forall|p: (i32, i32, i32)| #[trigger] self.view_map().contains_key(p) implies self.view_map()[p]
                        == old_map.insert(pos, seq)[p] by {
                        let k = choose|k: int| 0 <= k < self.entries@.len() && self.entries@[k].0 == p;
                        if p == pos {
                            assert(k == i);
                        } else {
                            assert(before[k].0 == p);
                            let k2 = choose|k2: int| 0 <= k2 < before.len() && before[k2].0 == p;
                            assert(k2 == k);
                        }
                    }
                    assert(self.view_map() =~= old_map.insert(pos, seq));
                }
                return;
            }
            i += 1;
        }
        let ghost before = self.entries@;
        self.entries.push((pos, seq));
        proof {
            let n = before.len() as int;
            assert forall|a: int, b: int| 0 <= a < b < self.entries@.len() implies (#[trigger] self.entries@[a]).0
                != (#[trigger] self.entries@[b]).0 by {
                if b < n {
                    assert(before[a].0 != before[b].0);
                }
            }
            assert forall|p: (i32, i32, i32)| #[trigger] self.view_map().contains_key(p) == old_map.insert(pos,
                seq).contains_key(p) by {
                if p == pos {
                    assert(self.entries@[n].0 == pos);
                } else if old_map.contains_key(p) {
                    let k = choose|k: int| 0 <= k < before.len() && before[k].0 == p;
                    assert(self.entries@[k].0 == p);
                } else if self.view_map().contains_key(p) {
                    let k = choose|k: int| 0 <= k < self.entries@.len() && self.entries@[k].0 == p;
                    assert(k < n);
                    assert(before[k].0 == p);
                }
            }
            assert forall|p: (i32, i32, i32)| #[trigger] self.view_map().contains_key(p) implies self.view_map()[p]
                == old_map.insert(pos, seq)[p] by {
                let k = choose|k: int| 0 <= k < self.entries@.len() && self.entries@[k].0 == p;
                if p == pos {
                    assert(k == n);
                } else {
                    assert(k < n);
                    assert(before[k].0 == p);
                    let k2 = choose|k2: int| 0 <= k2 < before.len() && before[k2].0 == p;
                    assert(k2 == k);
                }
            }
            assert(self.view_map() =~= old_map.insert(pos, seq));
        }
    }

    /// Forgets every prediction that the server's acknowledgement of
    /// sequence number `seq` covers: those made by requests up to `seq`.
    pub fn acknowledge(&mut self, seq: u32)
        requires
            old(self).wf(),
        ensures
            final(self).wf(),
            final(self).view_map() == acknowledged(old(self).view_map(), seq),
    {
        let ghost old_map = self.view_map();
        let ghost before = self.entries@;
        let mut kept: Vec<((i32, i32, i32), u32)> = Vec::new();
        let ghost mut from: Seq<int> = Seq::empty();
        let mut i: usize = 0;
        while i < self.entries.len()
            invariant
                self.entries@ == before,
                forall|a: int, b: int| 0 <= a < b < before.len() ==> (#[trigger] before[a]).0 != (#[trigger] before[b]).0,
                i <= before.len(),
                from.len() == kept@.len(),
                forall|k: int| 0 <= k < kept@.len() ==> 0 <= #[trigger] from[k] < i && kept@[k] == before[from[k]],
                forall|k: int, l: int| 0 <= k < l < kept@.len() ==> #[trigger] from[k] < #[trigger] from[l],
                forall|j: int| 0 <= j < i && before[j].1 > seq ==> exists|k: int| 0 <= k < kept@.len() && #[trigger] from[k] == j,
                forall|k: int| 0 <= k < kept@.len() ==> (#[trigger] kept@[k]).1 > seq,
            decreases before.len() - i,
        {
            let e = self.entries[i];
            let ghost from_before = from;
            if e.1 > seq {
                proof {
                    from = from.push(i as int);
                }
                kept.push(e);
                proof {
                    assert(kept@[kept@.len() - 1] == before[i as int]);
                    assert forall|j: int| 0 <= j < i + 1 && before[j].1 > seq implies exists|k: int| 0 <= k < kept@.len() && #[trigger] from[k] == j by {
                        if j == i {
                            assert(from[kept@.len() - 1] == j);
                        } else {
                            let k = choose|k: int| 0 <= k < from_before.len() && #[trigger] from_before[k] == j;
                            assert(from[k] == j);
                        }
                    }
                }
            } else {
                proof {
                    assert forall|j: int| 0 <= j < i + 1 && before[j].1 > seq implies exists|k: int| 0 <= k < kept@.len() && #[trigger] from[k] == j by {
                        if j < i {
                            let k = choose|k: int| 0 <= k < kept@.len() && #[trigger] from[k] == j;
                            assert(from[k] == j);
                        }
                    }
                }
            }
            i += 1;
        }
        self.entries = kept;
        proof {
            let target = acknowledged(old_map, seq);
            assert forall|a: int, b: int| 0 <= a < b < self.entries@.len() implies (#[trigger] self.entries@[a]).0
                != (#[trigger] self.entries@[b]).0 by {
                assert(from[a] < from[b]);
                assert(before[from[a]].0 != before[from[b]].0);
            }
            assert forall|p: (i32, i32, i32)| #[trigger] self.view_map().contains_key(p) == target.contains_key(p) by {
                if self.view_map().contains_key(p) {
                    let k = choose|k: int| 0 <= k < self.entries@.len() && self.entries@[k].0 == p;
                    let j = from[k];
                    assert(before[j].0 == p);
                    assert(old_map.contains_key(p));
                    let j2 = choose|j2: int| 0 <= j2 < before.len() && before[j2].0 == p;
                    assert(j2 == j);
                    assert(old_map[p] > seq);
                }
                if target.contains_key(p) {
                    let j = choose|j: int| 0 <= j < before.len() && before[j].0 == p;
                    assert(old_map[p] == before[j].1);
                    let k = choose|k: int| 0 <= k < self.entries@.len() && #[trigger] from[k] == j;
                    assert(self.entries@[k].0 == p);
                }
            }
            assert forall|p: (i32, i32, i32)| #[trigger] self.view_map().contains_key(p) implies self.view_map()[p]
                == target[p] by {
                let k = choose|k: int| 0 <= k < self.entries@.len() && self.entries@[k].0 == p;
                let j = from[k];
                let j2 = choose|j2: int| 0 <= j2 < before.len() && before[j2].0 == p;
                assert(before[j].0 == p);
                assert(j2 == j);
            }
            assert(self.view_map() =~= target);
        }
    }
}


/// The predictions left after acknowledging sequence number `seq`.
pub open spec fn acknowledged(m: Map<(i32, i32, i32), u32>, seq: u32) -> Map<(i32, i32, i32), u32> {
    m.restrict(m.dom().filter(|p: (i32, i32, i32)| m[p] > seq))
}

/// Once the server acknowledges a sequence number, a change predicted by
/// that request or an earlier one is no longer pending, and one predicted
/// by a later request still is.
pub proof fn law_acknowledge_clears(m: Map<(i32, i32, i32), u32>, pos: (i32, i32, i32), s: u32, t: u32)
    ensures
        s <= t ==> !acknowledged(m.insert(pos, s), t).contains_key(pos),
        s > t ==> acknowledged(m.insert(pos, s), t).contains_key(pos) && acknowledged(m.insert(pos, s), t)[pos] == s,
{
}

/// Ticks to wait after breaking a block at once before the next.
pub const DESTROY_COOLDOWN: u32 = 5;

/// Where breaking blocks stands: whether a block is being broken and
/// which, the last request's sequence number, and the ticks to wait.
#[derive(Clone, Copy, Debug, PartialEq, Eq)]
pub struct DestroyState {
    pub is_destroying: bool,
    pub destroy_pos: (i32, i32, i32),
    pub seq: u32,
    pub destroy_delay: u32,
}

/// The face sent with a request to abort breaking a block.
#[derive(Clone, Copy, Debug, PartialEq, Eq, Structural)]
pub enum AbortFace {
    /// Downward.
    Down,
    /// The face of the block that was hit.
    Hit,
}

/// What starting to break the hit block asks of the caller.
#[derive(Clone, Copy, Debug, PartialEq, Eq)]
pub struct DestroyStart {
    pub state: DestroyState,
    /// Send an abort for the block at this position, with this face.
    pub abort: Option<((i32, i32, i32), AbortFace)>,
    /// Send a start for the hit block with this sequence number.
    pub start: Option<u32>,
    /// The block breaks now: set it to air, predict that change under the
    /// start's sequence number, mark its chunk dirty, play its break sound.
    pub instant: bool,
    /// Set the breaking progress and its tick count to zero.
    pub reset_progress: bool,
}

/// Whether starting on `hit` sends a new request, and so takes a new
/// sequence number.
pub open spec fn starts_request(st: DestroyState, hit: (i32, i32, i32), air: bool, instant: bool) -> bool {
    !air && (instant || !(st.is_destroying && st.destroy_pos == hit))
}

/// Starting to break the hit block: air is ignored; a block that breaks at
/// once (its progress reaches 1 in one tick) aborts any block being broken,
/// is requested and broken now, and starts the cooldown; the block already
/// being broken is left to go on; any other block aborts the one being
/// broken and becomes the one being broken.
pub open spec fn spec_start_destroy(st: DestroyState, hit: (i32, i32, i32), air: bool, instant: bool) -> DestroyStart {
    let nothing = DestroyStart { state: st, abort: None, start: None, instant: false, reset_progress: false };
    if air {
        nothing
    } else if instant {
        DestroyStart {
            state: DestroyState { is_destroying: false, seq: (st.seq + 1) as u32, destroy_delay: DESTROY_COOLDOWN, ..st },
            abort: if st.is_destroying { Some((st.destroy_pos, AbortFace::Down)) } else { None },
            start: Some((st.seq + 1) as u32),
            instant: true,
            reset_progress: false,
        }
    } else if st.is_destroying && st.destroy_pos == hit {
        nothing
    } else {
        DestroyStart {
            state: DestroyState { is_destroying: true, destroy_pos: hit, seq: (st.seq + 1) as u32, ..st },
            abort: if st.is_destroying { Some((st.destroy_pos, AbortFace::Hit)) } else { None },
            start: Some((st.seq + 1) as u32),
            instant: false,
            reset_progress: true,
        }
    }
}

/// Starts breaking the block at `hit`: `air` says the block there is air,
/// `instant` that one tick of breaking already completes it.
pub fn start_destroy(st: DestroyState, hit: (i32, i32, i32), air: bool, instant: bool) -> (r: DestroyStart)
    requires
        starts_request(st, hit, air, instant) ==> st.seq < u32::MAX,
    ensures
        r == spec_start_destroy(st, hit, air, instant),
{
    let nothing = DestroyStart { state: st, abort: None, start: None, instant: false, reset_progress: false };
    if air {
        return nothing;
    }
    if instant {
        let seq = st.seq + 1;
        return DestroyStart {
            state: DestroyState { is_destroying: false, seq, destroy_delay: DESTROY_COOLDOWN, ..st },
            abort: if st.is_destroying { Some((st.destroy_pos, AbortFace::Down)) } else { None },
            start: Some(seq),
            instant: true,
            reset_progress: false,
        };
    }
    if st.is_destroying && st.destroy_pos.0 == hit.0 && st.destroy_pos.1 == hit.1 && st.destroy_pos.2 == hit.2 {
        return nothing;
    }
    let seq = st.seq + 1;
    DestroyStart {
        state: DestroyState { is_destroying: true, destroy_pos: hit, seq, ..st },
        abort: if st.is_destroying { Some((st.destroy_pos, AbortFace::Hit)) } else { None },
        start: Some(seq),
        instant: false,
        reset_progress: true,
    }
}

/// Each request a start sends carries a sequence number one past the last,
/// and the state remembers it; a start that sends none changes nothing.
pub proof fn law_start_numbers_requests(st: DestroyState, hit: (i32, i32, i32), air: bool, instant: bool)
    requires
        starts_request(st, hit, air, instant) ==> st.seq < u32::MAX,
    ensures
        starts_request(st, hit, air, instant) ==> spec_start_destroy(st, hit, air, instant).start == Some((st.seq + 1) as u32)
            && spec_start_destroy(st, hit, air, instant).state.seq == st.seq + 1,
        !starts_request(st, hit, air, instant) ==> spec_start_destroy(st, hit, air, instant).state == st
            && spec_start_destroy(st, hit, air, instant).start is None,
{
}

} // verus!
