//! Round-trip timing over UDP: what a peer answers to each message, and the statistics
//! that the measurements accumulate. Times are microseconds since the Unix epoch.

use vstd::prelude::*;

verus! {

/// A timing message: a ping carries its send time; a pong carries the ping's send time and
/// the time the pong was made.
#[derive(Debug, Clone, Copy, PartialEq, Eq, Structural)]
pub enum Phase {
    Ping(i64),
    Pong(i64, i64),
}

/// What a peer does with a received message.
#[derive(Debug, Clone, Copy, PartialEq, Eq, Structural)]
pub enum ServerAction {
    /// Send this message back to the sender.
    Reply(Phase),
    /// Record a round trip of this many microseconds.
    RecordRtt(i64),
}

/// The round trip of a pong received at `now` fits an `i64`.
pub open spec fn rtt_in_range(phase: Phase, now: i64) -> bool {
    phase matches Phase::Pong(sent, _) ==> i64::MIN <= now - sent <= i64::MAX
}

/// What a peer does with a message received at `now`: a ping is answered with a pong
/// carrying the ping's time and `now`; a pong gives the round trip from its ping's time to
/// `now`.
pub open spec fn respond(phase: Phase, now: i64) -> ServerAction {
    match phase {
        Phase::Ping(sent) => ServerAction::Reply(Phase::Pong(sent, now)),
        Phase::Pong(sent, _) => ServerAction::RecordRtt((now - sent) as i64),
    }
}

/// Answers a message received at `now`.
pub fn on_phase(phase: Phase, now: i64) -> (r: ServerAction)
    requires
        rtt_in_range(phase, now),
    ensures
        r == respond(phase, now),
{
    match phase {
        Phase::Ping(v1) => ServerAction::Reply(Phase::Pong(v1, now)),
        Phase::Pong(v1, _v2) => ServerAction::RecordRtt(now - v1),
    }
}

/// A ping sent at `sent` and answered by a peer at any time `answered` comes back as a
/// pong whose round trip, received at `back`, is `back - sent`.
pub proof fn lemma_ping_round_trip(sent: i64, answered: i64, back: i64)
    requires
        i64::MIN <= back - sent <= i64::MAX,
    ensures
        respond(Phase::Ping(sent), answered) == ServerAction::Reply(Phase::Pong(sent, answered)),
        rtt_in_range(Phase::Pong(sent, answered), back),
        respond(Phase::Pong(sent, answered), back) == ServerAction::RecordRtt((back - sent) as i64),
{
}

/// Counts of pings sent and the round trips measured, each with the time it was measured.
#[derive(Debug)]
pub struct Statistics {
    pub ping_num: usize,
    pub rtt_s: Vec<(i64, i64)>,
}

impl Statistics {
    /// No pings and no round trips.
    pub fn new() -> (r: Statistics)
        ensures
            r.ping_num == 0,
            r.rtt_s@.len() == 0,
    {
        Statistics { ping_num: 0, rtt_s: Vec::new() }
    }

    /// Counts one more ping; the count wraps around at the largest `usize`, as an atomic
    /// `fetch_add` does.
    pub fn add_ping(&mut self)
        ensures
            final(self).ping_num == (if old(self).ping_num == usize::MAX {
                0
            } else {
                old(self).ping_num + 1
            }),
            final(self).rtt_s@ == old(self).rtt_s@,
    {
        self.ping_num = self.ping_num.wrapping_add(1);
    }

    /// Records a round trip of `v` microseconds measured at time `at`.
    pub fn add_rtt(&mut self, at: i64, v: i64)
        ensures
            final(self).ping_num == old(self).ping_num,
            final(self).rtt_s@ == old(self).rtt_s@.push((at, v)),
    {
        self.rtt_s.push((at, v));
    }

    /// The number of pings without a measured round trip.
    pub fn lost(&self) -> (r: usize)
        requires
            self.rtt_s@.len() <= self.ping_num,
        ensures
            r == self.ping_num - self.rtt_s@.len(),
    {
        self.ping_num - self.rtt_s.len()
    }
}

} // verus!
