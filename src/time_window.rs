//! Inter-arrival sampling of data packets and probe pairs, feeding the receive-speed and
//! bandwidth estimators.
use vstd::prelude::*;

use std::time::Instant;

use crate::ack_window::saturating_diff;
use crate::clock::{clock_origin, elapsed_micros};
use crate::stats::{
    bandwidth, bandwidth_of, lemma_bandwidth_of_majority, lemma_speed_of_majority,
    lemma_uniform_window, receive_speed, speed_of,
};

verus! {

/// Inter-arrival time, in microseconds, that the arrival window starts out with.
pub const DEFAULT_ARRIVAL_INTERVAL: u64 = 1_000_000;

/// Inter-arrival time, in microseconds, that the probe window starts out with.
pub const DEFAULT_PROBE_INTERVAL: u64 = 1_000;

/// The minimum sending interval before any nonzero interval between two sends was seen.
pub const NO_INTERVAL: u64 = u64::MAX;

/// Two rings of inter-arrival samples (microseconds): one of data packets, one of probe
/// pairs. Times are microseconds on the window's own clock.
#[derive(Debug)]
pub struct PacketTimeWindow<const ARRIVAL_SIZE: usize, const PROBE_SIZE: usize> {
    /// Packet information window
    packet_window: Vec<u64>,
    /// Position pointer of the packet info window
    packet_window_index: usize,
    /// Record inter-packet time for probing packet pairs
    probe_window: Vec<u64>,
    /// Position pointer to the probing window
    probe_window_index: usize,
    /// Last packet sending time
    last_sent_time: u64,
    /// Minimum nonzero packet sending interval, `NO_INTERVAL` while none was seen
    min_packet_sending_interval: u64,
    /// Last packet arrival time
    last_arrival_time: u64,
    /// Arrival time of the first probing packet
    probe_time: u64,
    /// The instant that times count from
    origin: Instant,
}

/// The cursor position after `i` in a ring of `n` slots.
pub open spec fn next_slot(i: int, n: int) -> int {
    if i + 1 == n {
        0
    } else {
        i + 1
    }
}

impl<const ARRIVAL_SIZE: usize, const PROBE_SIZE: usize> PacketTimeWindow<ARRIVAL_SIZE, PROBE_SIZE> {
    pub closed spec fn wf(&self) -> bool {
        &&& ARRIVAL_SIZE >= 1
        &&& PROBE_SIZE >= 1
        &&& self.packet_window@.len() == ARRIVAL_SIZE
        &&& self.probe_window@.len() == PROBE_SIZE
        &&& self.packet_window_index < ARRIVAL_SIZE
        &&& self.probe_window_index < PROBE_SIZE
    }

    /// The data-packet inter-arrival samples, by slot.
    pub closed spec fn arrival_samples(&self) -> Seq<u64> {
        self.packet_window@
    }

    /// The slot the next data-packet sample goes to.
    pub closed spec fn arrival_cursor(&self) -> int {
        self.packet_window_index as int
    }

    /// The probe-pair samples, by slot.
    pub closed spec fn probe_samples(&self) -> Seq<u64> {
        self.probe_window@
    }

    /// The slot the next probe-pair sample goes to.
    pub closed spec fn probe_cursor(&self) -> int {
        self.probe_window_index as int
    }

    /// When the last packet was sent.
    pub closed spec fn last_sent(&self) -> u64 {
        self.last_sent_time
    }

    /// The recorded minimum sending interval.
    pub closed spec fn min_interval(&self) -> u64 {
        self.min_packet_sending_interval
    }

    /// When the last data packet arrived.
    pub closed spec fn last_arrival(&self) -> u64 {
        self.last_arrival_time
    }

    /// When the first packet of the current probe pair arrived.
    pub closed spec fn probe_start(&self) -> u64 {
        self.probe_time
    }

    /// The instant that the window's clock counts from.
    pub closed spec fn origin_instant(&self) -> Instant {
        self.origin
    }

    /// A well-formed window holds `ARRIVAL_SIZE` arrival samples and `PROBE_SIZE` probe
    /// samples, with both cursors in range.
    pub proof fn lemma_shape(&self)
        requires
            self.wf(),
        ensures
            self.arrival_samples().len() == ARRIVAL_SIZE,
            self.probe_samples().len() == PROBE_SIZE,
            0 <= self.arrival_cursor() < ARRIVAL_SIZE,
            0 <= self.probe_cursor() < PROBE_SIZE,
            ARRIVAL_SIZE >= 1,
            PROBE_SIZE >= 1,
    {
    }

    pub fn new() -> (r: Self)
        requires
            ARRIVAL_SIZE >= 1,
            PROBE_SIZE >= 1,
        ensures
            r.wf(),
            r.arrival_samples() == Seq::new(ARRIVAL_SIZE as nat, |i: int| DEFAULT_ARRIVAL_INTERVAL),
            r.probe_samples() == Seq::new(PROBE_SIZE as nat, |i: int| DEFAULT_PROBE_INTERVAL),
            r.arrival_cursor() == 0,
            r.probe_cursor() == 0,
            r.last_sent() == 0,
            r.min_interval() == NO_INTERVAL,
            r.last_arrival() == 0,
            r.probe_start() == 0,
    {
        let origin = clock_origin();
        let packet_window = filled(ARRIVAL_SIZE, DEFAULT_ARRIVAL_INTERVAL);
        let probe_window = filled(PROBE_SIZE, DEFAULT_PROBE_INTERVAL);
        Self {
            packet_window,
            packet_window_index: 0,
            probe_window,
            probe_window_index: 0,
            last_sent_time: 0,
            min_packet_sending_interval: NO_INTERVAL,
            last_arrival_time: 0,
            probe_time: 0,
            origin,
        }
    }

    /// The smallest nonzero interval between sends seen so far, in microseconds, or
    /// `NO_INTERVAL` while there is none yet.
    pub fn min_packet_sending_interval(&self) -> (r: u64)
        ensures
            r == self.min_interval(),
    {
        self.min_packet_sending_interval
    }

    /// Packets per second that arrive, or zero when the samples are too scattered to trust.
    pub fn get_packet_receive_speed(&self) -> (r: u64)
        ensures
            r == receive_speed(self.arrival_samples()),
    {
        speed_of(&self.packet_window)
    }

    /// Estimated link capacity in packets per second.
    pub fn get_bandwidth(&self) -> (r: u64)
        ensures
            r == bandwidth(self.probe_samples()),
    {
        bandwidth_of(&self.probe_window)
    }

    /// Records a send at `current_time` (microseconds on the window's clock, see
    /// `origin`): a nonzero interval since the last send lowers the minimum to it when it
    /// is smaller.
    pub fn on_packet_sent(&mut self, current_time: u64)
        requires
            old(self).wf(),
        ensures
            final(self).wf(),
            final(self).origin_instant() == old(self).origin_instant(),
            final(self).last_sent() == current_time,
            ({
                let interval = saturating_diff(current_time, old(self).last_sent());
                final(self).min_interval() == if interval != 0 && interval < old(
                    self,
                ).min_interval() {
                    interval
                } else {
                    old(self).min_interval()
                }
            }),
            final(self).arrival_samples() == old(self).arrival_samples(),
            final(self).arrival_cursor() == old(self).arrival_cursor(),
            final(self).probe_samples() == old(self).probe_samples(),
            final(self).probe_cursor() == old(self).probe_cursor(),
            final(self).last_arrival() == old(self).last_arrival(),
            final(self).probe_start() == old(self).probe_start(),
    {
        let interval = current_time.saturating_sub(self.last_sent_time);
        if interval != 0 && interval < self.min_packet_sending_interval {
            self.min_packet_sending_interval = interval;
        }
        self.last_sent_time = current_time;
    }

    /// The instant that the window's clock counts microseconds from.
    pub fn origin(&self) -> (r: Instant)
        ensures
            r == self.origin_instant(),
    {
        self.origin
    }

    /// Records a data packet arriving at `now`: the time since the previous arrival goes
    /// into the arrival window.
    pub fn on_packet_arrival_at(&mut self, now: u64)
        requires
            old(self).wf(),
        ensures
            final(self).wf(),
            final(self).origin_instant() == old(self).origin_instant(),
            final(self).arrival_samples() == old(self).arrival_samples().update(
                old(self).arrival_cursor(),
                saturating_diff(now, old(self).last_arrival()),
            ),
            final(self).arrival_cursor() == next_slot(old(self).arrival_cursor(), ARRIVAL_SIZE as int),
            final(self).last_arrival() == now,
            final(self).probe_samples() == old(self).probe_samples(),
            final(self).probe_cursor() == old(self).probe_cursor(),
            final(self).last_sent() == old(self).last_sent(),
            final(self).min_interval() == old(self).min_interval(),
            final(self).probe_start() == old(self).probe_start(),
    {
        let sample = now.saturating_sub(self.last_arrival_time);
        self.packet_window.set(self.packet_window_index, sample);
        self.packet_window_index = if self.packet_window_index + 1 == ARRIVAL_SIZE {
            0
        } else {
            self.packet_window_index + 1
        };
        self.last_arrival_time = now;
    }

    /// Records a data packet arriving now.
    pub fn on_packet_arrival(&mut self)
        requires
            old(self).wf(),
        ensures
            final(self).wf(),
            final(self).origin_instant() == old(self).origin_instant(),
            exists|t: u64|
                {
                    &&& final(self).arrival_samples() == old(self).arrival_samples().update(
                        old(self).arrival_cursor(),
                        saturating_diff(t, old(self).last_arrival()),
                    )
                    &&& final(self).last_arrival() == t
                },
            final(self).arrival_cursor() == next_slot(old(self).arrival_cursor(), ARRIVAL_SIZE as int),
            final(self).probe_samples() == old(self).probe_samples(),
            final(self).probe_cursor() == old(self).probe_cursor(),
            final(self).last_sent() == old(self).last_sent(),
            final(self).min_interval() == old(self).min_interval(),
            final(self).probe_start() == old(self).probe_start(),
    {
        let now = elapsed_micros(&self.origin);
        self.on_packet_arrival_at(now);
    }

    /// Marks the first packet of a probe pair arriving at `now`.
    pub fn probe1_arrival_at(&mut self, now: u64)
        requires
            old(self).wf(),
        ensures
            final(self).wf(),
            final(self).origin_instant() == old(self).origin_instant(),
            final(self).probe_start() == now,
            final(self).arrival_samples() == old(self).arrival_samples(),
            final(self).arrival_cursor() == old(self).arrival_cursor(),
            final(self).probe_samples() == old(self).probe_samples(),
            final(self).probe_cursor() == old(self).probe_cursor(),
            final(self).last_arrival() == old(self).last_arrival(),
            final(self).last_sent() == old(self).last_sent(),
            final(self).min_interval() == old(self).min_interval(),
    {
        self.probe_time = now;
    }

    /// Marks the first packet of a probe pair arriving now.
    pub fn probe1_arrival(&mut self)
        requires
            old(self).wf(),
        ensures
            final(self).wf(),
            final(self).origin_instant() == old(self).origin_instant(),
            final(self).arrival_samples() == old(self).arrival_samples(),
            final(self).arrival_cursor() == old(self).arrival_cursor(),
            final(self).probe_samples() == old(self).probe_samples(),
            final(self).probe_cursor() == old(self).probe_cursor(),
            final(self).last_arrival() == old(self).last_arrival(),
            final(self).last_sent() == old(self).last_sent(),
            final(self).min_interval() == old(self).min_interval(),
    {
        let now = elapsed_micros(&self.origin);
        self.probe1_arrival_at(now);
    }

    /// Records the second packet of a probe pair arriving at `now`: the time since the
    /// first goes into the probe window.
    pub fn probe2_arrival_at(&mut self, now: u64)
        requires
            old(self).wf(),
        ensures
            final(self).wf(),
            final(self).origin_instant() == old(self).origin_instant(),
            final(self).probe_samples() == old(self).probe_samples().update(
                old(self).probe_cursor(),
                saturating_diff(now, old(self).probe_start()),
            ),
            final(self).probe_cursor() == next_slot(old(self).probe_cursor(), PROBE_SIZE as int),
            final(self).arrival_samples() == old(self).arrival_samples(),
            final(self).arrival_cursor() == old(self).arrival_cursor(),
            final(self).last_arrival() == old(self).last_arrival(),
            final(self).last_sent() == old(self).last_sent(),
            final(self).min_interval() == old(self).min_interval(),
            final(self).probe_start() == old(self).probe_start(),
    {
        let sample = now.saturating_sub(self.probe_time);
        self.probe_window.set(self.probe_window_index, sample);
        self.probe_window_index = if self.probe_window_index + 1 == PROBE_SIZE {
            0
        } else {
            self.probe_window_index + 1
        };
    }

    /// Records the second packet of a probe pair arriving now.
    pub fn probe2_arrival(&mut self)
        requires
            old(self).wf(),
        ensures
            final(self).wf(),
            final(self).origin_instant() == old(self).origin_instant(),
            exists|t: u64|
                final(self).probe_samples() == old(self).probe_samples().update(
                    old(self).probe_cursor(),
                    saturating_diff(t, old(self).probe_start()),
                ),
            final(self).probe_cursor() == next_slot(old(self).probe_cursor(), PROBE_SIZE as int),
            final(self).arrival_samples() == old(self).arrival_samples(),
            final(self).arrival_cursor() == old(self).arrival_cursor(),
            final(self).last_arrival() == old(self).last_arrival(),
            final(self).last_sent() == old(self).last_sent(),
            final(self).min_interval() == old(self).min_interval(),
            final(self).probe_start() == old(self).probe_start(),
    {
        let now = elapsed_micros(&self.origin);
        self.probe2_arrival_at(now);
    }
}

/// A vector of `n` copies of `x`.
fn filled(n: usize, x: u64) -> (r: Vec<u64>)
    ensures
        r@ == Seq::new(n as nat, |i: int| x),
{
    let mut v: Vec<u64> = Vec::new();
    let mut i: usize = 0;
    while i < n
        invariant
            i <= n,
            v@ == Seq::new(i as nat, |k: int| x),
        decreases n - i,
    {
        v.push(x);
        i = i + 1;
        assert(v@ =~= Seq::new(i as nat, |k: int| x));
    }
    v
}

/// The ring after `k` samples equal to `d` are written at consecutive slots from `c`, as
/// `k` calls of `on_packet_arrival_at` or `probe2_arrival_at` do when they all measure `d`.
pub open spec fn ring_fill(s: Seq<u64>, c: int, k: nat, d: u64) -> Seq<u64>
    decreases k,
{
    if k == 0 {
        s
    } else {
        ring_fill(s.update(c, d), next_slot(c, s.len() as int), (k - 1) as nat, d)
    }
}

/// How many writes from slot `c` it takes to reach slot `i` in a ring of `n` slots.
pub open spec fn ring_distance(c: int, i: int, n: int) -> int {
    if i >= c {
        i - c
    } else {
        i + n - c
    }
}

proof fn lemma_ring_fill(s: Seq<u64>, c: int, k: nat, d: u64)
    requires
        0 <= c < s.len(),
    ensures
        ring_fill(s, c, k, d).len() == s.len(),
        forall|i: int|
            0 <= i < s.len() && (ring_distance(c, i, s.len() as int) < k || s[i] == d) ==> (
            #[trigger] ring_fill(s, c, k, d)[i]) == d,
    decreases k,
{
    if k > 0 {
        let n = s.len() as int;
        let s1 = s.update(c, d);
        let c1 = next_slot(c, n);
        lemma_ring_fill(s1, c1, (k - 1) as nat, d);
        assert forall|i: int|
            0 <= i < n && (ring_distance(c, i, n) < k || s[i] == d) implies (#[trigger] ring_fill(
            s,
            c,
            k,
            d,
        )[i]) == d by {
            if i != c && s[i] != d {
                assert(ring_distance(c1, i, n) == ring_distance(c, i, n) - 1);
            }
        }
    }
}

/// After as many samples of `d > 0` as the ring has slots, from any state, the receive
/// speed is `10^6 / d`, rounded to the nearest integer.
pub proof fn lemma_uniform_arrivals_speed(s: Seq<u64>, c: int, d: u64)
    requires
        0 <= c < s.len(),
        d > 0,
    ensures
        receive_speed(ring_fill(s, c, s.len(), d)) as int == (2_000_000 + d) / (2 * d),
{
    let w = ring_fill(s, c, s.len(), d);
    lemma_ring_fill(s, c, s.len(), d);
    lemma_uniform_window(w, d);
    lemma_speed_of_majority(w, d);
}

/// After as many probe pairs `d > 0` apart as the ring has slots, from any state, the
/// bandwidth is `10^6 / d`, rounded to the nearest integer.
pub proof fn lemma_uniform_probes_bandwidth(s: Seq<u64>, c: int, d: u64)
    requires
        0 <= c < s.len(),
        d > 0,
    ensures
        bandwidth(ring_fill(s, c, s.len(), d)) as int == (2_000_000 + d) / (2 * d),
{
    let w = ring_fill(s, c, s.len(), d);
    lemma_ring_fill(s, c, s.len(), d);
    lemma_uniform_window(w, d);
    lemma_bandwidth_of_majority(w, d);
}

} // verus!
