//! The peer-report state machine: turns connection events into peer reports,
//! and emits a periodic reputation-decay signal. The network layer performs
//! the connections and the timer; this module only decides what to report.

use vstd::prelude::*;

verus! {

/// An identifier of a connected peer.
#[derive(Debug, Clone, Copy, PartialEq, Eq, Structural)]
pub struct PeerId {
    pub hi: u128,
    pub lo: u128,
}

/// Events reported about peers.
#[derive(Debug, Clone, Copy, PartialEq, Eq, Structural)]
pub enum PeerReportEvent {
    /// A connection to `peer_id` was established; `initial_connection` is
    /// true when it is the first connection to that peer.
    PeerConnected { peer_id: PeerId, initial_connection: bool },
    /// The last connection to `peer_id` was closed.
    PeerDisconnected { peer_id: PeerId },
    /// The reputation of connected peers should decay.
    PerformDecay,
}

/// The pending peer reports, oldest first.
pub struct Behaviour {
    /// Events not yet handed to the consumer.
    pub pending_events: Vec<PeerReportEvent>,
}

impl Behaviour {
    /// A report queue with nothing pending.
    pub fn new() -> (r: Self)
        ensures
            r.pending_events@ == Seq::<PeerReportEvent>::empty(),
    {
        Behaviour { pending_events: Vec::new() }
    }

    /// Records an established connection; the report marks the first
    /// connection to the peer.
    pub fn on_connection_established(&mut self, peer_id: PeerId, other_established: usize)
        ensures
            final(self).pending_events@ == old(self).pending_events@.push(
                PeerReportEvent::PeerConnected { peer_id, initial_connection: other_established == 0 },
            ),
    {
        self.pending_events.push(
            PeerReportEvent::PeerConnected { peer_id, initial_connection: other_established == 0 },
        );
    }

    /// Records a closed connection; only the loss of the last connection to
    /// the peer is reported.
    pub fn on_connection_closed(&mut self, peer_id: PeerId, remaining_established: usize)
        ensures
            final(self).pending_events@ == if remaining_established == 0 {
                old(self).pending_events@.push(PeerReportEvent::PeerDisconnected { peer_id })
            } else {
                old(self).pending_events@
            },
    {
        if remaining_established == 0 {
            self.pending_events.push(PeerReportEvent::PeerDisconnected { peer_id });
        }
    }

    /// The next report: the oldest pending event, or a decay signal when the
    /// decay interval has elapsed, or nothing.
    pub fn poll(&mut self, decay_due: bool) -> (r: Option<PeerReportEvent>)
        ensures
            old(self).pending_events@.len() > 0 ==> r == Some(old(self).pending_events@[0])
                && final(self).pending_events@ == old(self).pending_events@.drop_first(),
            old(self).pending_events@.len() == 0 ==> final(self).pending_events@ == old(
                self,
            ).pending_events@ && r == if decay_due {
                Some(PeerReportEvent::PerformDecay)
            } else {
                None::<PeerReportEvent>
            },
    {
        if self.pending_events.len() > 0 {
            let e = self.pending_events.remove(0);
            proof {
                assert(final(self).pending_events@ =~= old(self).pending_events@.drop_first());
            }
            return Some(e);
        }
        if decay_due {
            return Some(PeerReportEvent::PerformDecay);
        }
        None
    }
}

} // verus!
