//! A client that measures round trips: its messages carry the time at which
//! they were sent, and come back as they are.

use bytes::Bytes;
use vstd::prelude::*;

use crate::wire;

verus! {

/// Nanoseconds since the epoch; zero where the clock stands before it.
pub open spec fn clock(since_epoch: Option<u128>) -> u128 {
    match since_epoch {
        Some(ns) => ns,
        None => 0,
    }
}

/// Nanoseconds since the epoch, from what the system clock says.
pub fn now_ns(since_epoch: Option<u128>) -> (r: u128)
    ensures
        r == clock(since_epoch),
{
    match since_epoch {
        Some(ns) => ns,
        None => 0,
    }
}

/// The message of a size that is sent now.
pub fn stamped_message(size: usize, since_epoch: Option<u128>) -> (r: Bytes)
    requires
        size <= isize::MAX as usize,
    ensures
        wire::contents(r) == wire::stamped(size as nat, clock(since_epoch) as nat),
{
    wire::make_payload(size, now_ns(since_epoch))
}

/// What came back.
pub struct Probe {
    /// How many messages came back.
    pub acked: usize,
    /// The round trips that could be measured, in nanoseconds.
    pub rtt_ns: Vec<u128>,
}

impl Probe {
    pub fn new() -> (r: Probe)
        ensures
            r.acked == 0,
            r.rtt_ns@ == Seq::<u128>::empty(),
    {
        Probe { acked: 0, rtt_ns: Vec::new() }
    }

    /// Takes a message that came back.
    pub fn on_message(&mut self, data: &Bytes, since_epoch: Option<u128>)
        ensures
            final(self).acked == old(self).acked.wrapping_add(1),
            final(self).rtt_ns@ == (match wire::rtt_of(
                wire::contents(*data),
                clock(since_epoch) as nat,
            ) {
                Some(ns) => old(self).rtt_ns@.push(ns as u128),
                None => old(self).rtt_ns@,
            }),
    {
        if let Some(ns) = wire::rtt_sample(data, now_ns(since_epoch)) {
            self.rtt_ns.push(ns);
        }
        self.acked = self.acked.wrapping_add(1);
    }
}

/// A message that comes back later than it was sent adds exactly the time in
/// between.
pub proof fn law_probe_measures_round_trip(size: nat, sent: Option<u128>, back: Option<u128>)
    requires
        clock(back) > clock(sent),
    ensures
        wire::rtt_of(wire::stamped(size, clock(sent) as nat), clock(back) as nat) == Some(
            (clock(back) - clock(sent)) as nat,
        ),
{
    wire::law_echo_shows_round_trip(size, clock(sent), clock(back));
}

/// The clock reads the nanoseconds since the epoch, and zero before it.
pub proof fn law_clock_reads_since_the_epoch(ns: u128)
    ensures
        clock(Some(ns)) == ns,
        clock(None) == 0,
{
}

/// Every message that comes back counts, and one that carries the time of its
/// sending adds the time in between, in nanoseconds.
pub proof fn law_messages_back_are_timed(
    size: usize,
    sent: u128,
    message: Bytes,
    probe: &mut Probe,
    now: u128,
)
    requires
        call_ensures(stamped_message, (size, Some(sent)), message),
        call_ensures(Probe::on_message, (probe, &message, Some(now)), ()),
        sent < now,
        probe.acked < usize::MAX,
    ensures
        final(probe).acked == old(probe).acked + 1,
        final(probe).rtt_ns@ == old(probe).rtt_ns@.push((now - sent) as u128),
{
    wire::law_echo_shows_round_trip(size as nat, sent, now);
}

} // verus!
