//! The playout buffer: reassembled NAL units wait until a fixed delay after
//! their arrival, and leave in order of that deadline, then of RTP
//! timestamp, then of arrival.

use vstd::prelude::*;
use bytes::Bytes;

verus! {

/// A NAL unit waiting for playout. Times are in media clock ticks.
pub struct PlayoutBufferNode {
    pub arrival_time: u128,
    pub rtp_timestamp: u32,
    pub playout_time: u128,
    pub coded_data: Bytes,
}

/// `a` leaves no later than `b`.
pub open spec fn leaves_before(a: PlayoutBufferNode, b: PlayoutBufferNode) -> bool {
    a.playout_time < b.playout_time || (a.playout_time == b.playout_time && a.rtp_timestamp
        <= b.rtp_timestamp)
}

/// Ordered for playout.
pub open spec fn playout_ordered(s: Seq<PlayoutBufferNode>) -> bool {
    forall|i: int, j: int| 0 <= i < j < s.len() ==> leaves_before(#[trigger] s[i], #[trigger] s[j])
}

/// What became of a unit handed to the buffer.
pub enum PlayoutAdmission {
    /// Waiting in the buffer.
    Queued,
    /// Its deadline had passed; it is to be delivered at once.
    DeliverNow(PlayoutBufferNode),
    /// Its deadline had passed and late delivery is off; it is dropped.
    Dropped,
}

/// What handing `node` to the buffer `before` at time `now` does: past its
/// deadline it is delivered at once or dropped (and counted), as the buffer
/// was made; else it joins the queue after every unit that leaves no later
/// than it and before the others.
pub open spec fn admitted(
    before: PlayoutBuffer,
    after: PlayoutBuffer,
    r: PlayoutAdmission,
    node: PlayoutBufferNode,
    now: u128,
) -> bool {
    &&& after.delay() == before.delay()
    &&& after.late_delivery() == before.late_delivery()
    &&& if node.playout_time < now {
        &&& after.queue() == before.queue()
        &&& before.late_delivery() ==> r == PlayoutAdmission::DeliverNow(node) && after.drop_count()
            == before.drop_count()
        &&& !before.late_delivery() ==> r == PlayoutAdmission::Dropped && after.drop_count() == (
        if before.drop_count() < u64::MAX {
            (before.drop_count() + 1) as u64
        } else {
            before.drop_count()
        })
    } else {
        &&& r == PlayoutAdmission::Queued
        &&& after.drop_count() == before.drop_count()
        &&& exists|pos: int|
            0 <= pos <= before.queue().len() && after.queue() == before.queue().insert(pos, node)
                && (forall|i: int| 0 <= i < pos ==> leaves_before(#[trigger] before.queue()[i], node))
                && (forall|i: int|
                pos <= i < before.queue().len() ==> !leaves_before(#[trigger] before.queue()[i], node))
    }
}

/// Units waiting for playout.
pub struct PlayoutBuffer {
    nodes: Vec<PlayoutBufferNode>,
    jitter_delay: u128,
    deliver_late: bool,
    dropped: u64,
}

impl PlayoutBuffer {
    /// The waiting units, first to leave first.
    pub closed spec fn queue(&self) -> Seq<PlayoutBufferNode> {
        self.nodes@
    }

    /// Ticks between a unit's arrival and its deadline.
    pub closed spec fn delay(&self) -> u128 {
        self.jitter_delay
    }

    /// Whether units past their deadline are delivered at once.
    pub closed spec fn late_delivery(&self) -> bool {
        self.deliver_late
    }

    /// Units dropped for lateness, saturating.
    pub closed spec fn drop_count(&self) -> u64 {
        self.dropped
    }

    /// An empty buffer that holds each unit `jitter_delay` ticks after its
    /// arrival; with `deliver_late`, a unit already past its deadline is
    /// delivered at once rather than dropped.
    pub fn new(jitter_delay: u128, deliver_late: bool) -> (r: PlayoutBuffer)
        ensures
            r.queue() == Seq::<PlayoutBufferNode>::empty(),
            r.delay() == jitter_delay,
            r.late_delivery() == deliver_late,
            r.drop_count() == 0,
    {
        PlayoutBuffer { nodes: Vec::new(), jitter_delay, deliver_late, dropped: 0 }
    }

    /// Number of units dropped for lateness, saturating.
    pub fn dropped(&self) -> (r: u64)
        ensures
            r == self.drop_count(),
    {
        self.dropped
    }

    /// Number of waiting units.
    pub fn len(&self) -> (r: usize)
        ensures
            r == self.queue().len(),
    {
        self.nodes.len()
    }

    /// Hands a unit that arrived at `arrival_time` to the buffer at time
    /// `now`. Its deadline is `arrival_time` plus the delay. Past that
    /// deadline it is delivered at once or dropped, as the buffer was made;
    /// else it joins the queue after every unit that leaves no later than it
    /// and before the others.
    pub fn insert(
        &mut self,
        arrival_time: u128,
        rtp_timestamp: u32,
        coded_data: Bytes,
        now: u128,
    ) -> (r: PlayoutAdmission)
        requires
            arrival_time + old(self).delay() <= u128::MAX,
            playout_ordered(old(self).queue()),
        ensures
            playout_ordered(final(self).queue()),
            admitted(
                *old(self),
                *final(self),
                r,
                PlayoutBufferNode {
                    arrival_time,
                    rtp_timestamp,
                    playout_time: (arrival_time + old(self).delay()) as u128,
                    coded_data,
                },
                now,
            ),
    {
        let playout_time = arrival_time + self.jitter_delay;
        let node = PlayoutBufferNode { arrival_time, rtp_timestamp, playout_time, coded_data };
        if playout_time < now {
            if self.deliver_late {
                return PlayoutAdmission::DeliverNow(node);
            }
            if self.dropped < u64::MAX {
                self.dropped = self.dropped + 1;
            }
            return PlayoutAdmission::Dropped;
        }
        let mut pos: usize = 0;
        while pos < self.nodes.len() && (self.nodes[pos].playout_time < playout_time || (
        self.nodes[pos].playout_time == playout_time && self.nodes[pos].rtp_timestamp
            <= rtp_timestamp))
            invariant
                pos <= self.nodes@.len(),
                node.playout_time == playout_time,
                node.rtp_timestamp == rtp_timestamp,
                playout_ordered(self.nodes@),
                forall|i: int| 0 <= i < pos ==> leaves_before(#[trigger] self.nodes@[i], node),
            decreases self.nodes@.len() - pos,
        {
            pos = pos + 1;
        }
        let ghost before = self.nodes@;
        proof {
            assert(playout_ordered(before));
            assert forall|i: int| pos <= i < before.len() implies !leaves_before(
                #[trigger] before[i],
                node,
            ) by {
                assert(!leaves_before(before[pos as int], node));
                if i > pos {
                    assert(leaves_before(before[pos as int], before[i]));
                }
            }
        }
        self.nodes.insert(pos, node);
        proof {
            let after = self.nodes@;
            assert forall|i: int, j: int| 0 <= i < j < after.len() implies leaves_before(
                #[trigger] after[i],
                #[trigger] after[j],
            ) by {
                if j < pos {
                    assert(after[i] == before[i] && after[j] == before[j]);
                } else if j == pos {
                    assert(after[i] == before[i]);
                } else if i < pos {
                    assert(after[i] == before[i] && after[j] == before[j - 1]);
                    assert(leaves_before(before[i], before[j - 1]));
                } else if i == pos {
                    assert(after[j] == before[j - 1]);
                    assert(!leaves_before(before[j - 1], node));
                } else {
                    assert(after[i] == before[i - 1] && after[j] == before[j - 1]);
                }
            }
        }
        PlayoutAdmission::Queued
    }

    /// The deadline of the unit that leaves next.
    pub fn next_deadline(&self) -> (r: Option<u128>)
        ensures
            self.queue().len() == 0 ==> r is None,
            self.queue().len() > 0 ==> r == Some(self.queue()[0].playout_time),
    {
        if self.nodes.len() == 0 {
            None
        } else {
            Some(self.nodes[0].playout_time)
        }
    }

    /// Takes out the unit that leaves next, when its deadline is no later
    /// than `now`.
    pub fn pop_due(&mut self, now: u128) -> (r: Option<PlayoutBufferNode>)
        requires
            playout_ordered(old(self).queue()),
        ensures
            playout_ordered(final(self).queue()),
            final(self).delay() == old(self).delay(),
            final(self).late_delivery() == old(self).late_delivery(),
            final(self).drop_count() == old(self).drop_count(),
            old(self).queue().len() > 0 && old(self).queue()[0].playout_time <= now ==> {
                &&& r == Some(old(self).queue()[0])
                &&& final(self).queue() == old(self).queue().drop_first()
            },
            !(old(self).queue().len() > 0 && old(self).queue()[0].playout_time <= now) ==> {
                &&& r is None
                &&& final(self).queue() == old(self).queue()
            },
    {
        if self.nodes.len() > 0 && self.nodes[0].playout_time <= now {
            let n = self.nodes.remove(0);
            assert(self.nodes@ =~= old(self).nodes@.drop_first());
            Some(n)
        } else {
            None
        }
    }
}

} // verus!
