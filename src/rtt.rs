//! Round-trip time estimation: the latest sample, a smoothed average, its
//! variation, the minimum, and the delay after which a packet is lost.
//! All times are in microseconds.

use vstd::prelude::*;

verus! {

/// The smoothed RTT before any sample.
pub const INITIAL_RTT: u64 = 333_000;
/// The timer granularity, the least loss delay.
pub const GRANULARITY: u64 = 1_000;
/// The peer's maximum ACK delay unless it announced another.
pub const DEFAULT_MAX_ACK_DELAY: u64 = 25_000;

#[derive(Debug, Clone, Copy, PartialEq, Eq)]
pub struct Rtt {
    pub has_sample: bool,
    pub latest_rtt: u64,
    pub smoothed_rtt: u64,
    pub rttvar: u64,
    pub min_rtt: u64,
    pub max_ack_delay: u64,
}

pub open spec fn spec_max(a: int, b: int) -> int {
    if a >= b {
        a
    } else {
        b
    }
}

pub open spec fn spec_min(a: int, b: int) -> int {
    if a <= b {
        a
    } else {
        b
    }
}

pub open spec fn abs_diff(a: int, b: int) -> int {
    if a >= b {
        a - b
    } else {
        b - a
    }
}

impl Rtt {
    /// The estimator after the sample `latest` with reported `ack_delay`.
    pub open spec fn spec_update(self, latest: u64, ack_delay: u64, handshake_confirmed: bool) -> Rtt {
        if !self.has_sample {
            Rtt {
                has_sample: true,
                latest_rtt: latest,
                smoothed_rtt: latest,
                rttvar: latest / 2,
                min_rtt: latest,
                ..self
            }
        } else {
            let min_rtt = spec_min(self.min_rtt as int, latest as int);
            let delay = if handshake_confirmed {
                spec_min(ack_delay as int, self.max_ack_delay as int)
            } else {
                ack_delay as int
            };
            let adjusted = if latest >= min_rtt + delay {
                latest - delay
            } else {
                latest as int
            };
            Rtt {
                latest_rtt: latest,
                min_rtt: min_rtt as u64,
                rttvar: ((3 * self.rttvar + abs_diff(self.smoothed_rtt as int, adjusted)) / 4) as u64,
                smoothed_rtt: ((7 * self.smoothed_rtt + adjusted) / 8) as u64,
                ..self
            }
        }
    }

    /// How long after its sending a packet counts as lost: 9/8 of the larger
    /// of the latest and smoothed RTT, at least the granularity.
    pub open spec fn spec_loss_delay(self) -> u64 {
        let d = spec_max(
            9 * spec_max(self.latest_rtt as int, self.smoothed_rtt as int) / 8,
            GRANULARITY as int,
        );
        if d > u64::MAX {
            u64::MAX
        } else {
            d as u64
        }
    }

    pub fn new() -> (r: Self)
        ensures
            !r.has_sample,
            r.smoothed_rtt == INITIAL_RTT,
            r.rttvar == INITIAL_RTT / 2,
            r.latest_rtt == 0,
            r.min_rtt == 0,
            r.max_ack_delay == DEFAULT_MAX_ACK_DELAY,
    {
        Rtt {
            has_sample: false,
            latest_rtt: 0,
            smoothed_rtt: INITIAL_RTT,
            rttvar: INITIAL_RTT / 2,
            min_rtt: 0,
            max_ack_delay: DEFAULT_MAX_ACK_DELAY,
        }
    }

    /// Takes an RTT sample: `latest` is the time from sending the largest
    /// newly acknowledged packet to receiving its acknowledgement, `ack_delay`
    /// what the peer reported it waited. The peer's delay is capped by
    /// `max_ack_delay` once the handshake is confirmed.
    pub fn update(&mut self, latest: u64, ack_delay: u64, handshake_confirmed: bool)
        ensures
            *final(self) == old(self).spec_update(latest, ack_delay, handshake_confirmed),
    {
        if !self.has_sample {
            self.has_sample = true;
            self.latest_rtt = latest;
            self.smoothed_rtt = latest;
            self.rttvar = latest / 2;
            self.min_rtt = latest;
            return;
        }
        self.latest_rtt = latest;
        if latest < self.min_rtt {
            self.min_rtt = latest;
        }
        let delay = if handshake_confirmed && ack_delay > self.max_ack_delay {
            self.max_ack_delay
        } else {
            ack_delay
        };
        let adjusted = if latest as u128 >= self.min_rtt as u128 + delay as u128 {
            latest - delay
        } else {
            latest
        };
        let diff = if self.smoothed_rtt >= adjusted {
            self.smoothed_rtt - adjusted
        } else {
            adjusted - self.smoothed_rtt
        };
        self.rttvar = ((3 * self.rttvar as u128 + diff as u128) / 4) as u64;
        self.smoothed_rtt = ((7 * self.smoothed_rtt as u128 + adjusted as u128) / 8) as u64;
    }

    /// How long after its sending a packet counts as lost.
    pub fn loss_delay(&self) -> (r: u64)
        ensures
            r == self.spec_loss_delay(),
    {
        let m = if self.latest_rtt >= self.smoothed_rtt {
            self.latest_rtt
        } else {
            self.smoothed_rtt
        };
        let d = 9 * (m as u128) / 8;
        let d = if d < GRANULARITY as u128 {
            GRANULARITY as u128
        } else {
            d
        };
        if d > u64::MAX as u128 {
            u64::MAX
        } else {
            d as u64
        }
    }
}

} // verus!
