//! Links, and which packets they lose.
use vstd::prelude::*;

use crate::machine::ChannelId;

verus! {

pub type SimNodeId = u64;

/// How a link loses packets.
#[derive(Debug, Clone, Copy, PartialEq, Eq, Structural)]
pub enum LossModel {
    /// None are lost.
    Lossless,
    /// Every `packets`th packet is lost.
    Every { packets: u64 },
    /// Each packet is lost with this chance, in parts per million, as the seed decides.
    Bernoulli { loss_ppm: u32, seed: u64 },
}

/// A time during which a link is down.
#[derive(Debug, Clone, Copy, PartialEq, Eq, Structural)]
pub struct DownWindow {
    pub start_ms: u64,
    pub end_ms: u64,
}

/// A link from a channel of one node to a channel of another.
#[derive(Debug, Clone, PartialEq, Eq)]
pub struct SimLink {
    pub from_node: SimNodeId,
    pub from_channel_id: ChannelId,
    pub to_node: SimNodeId,
    pub to_channel_id: ChannelId,
    pub latency_ms: u64,
    /// Zero means no serialization delay.
    pub bandwidth_bytes_per_ms: u64,
    pub loss: LossModel,
    pub extra_delay_ms: u64,
    pub down_windows: Vec<DownWindow>,
}

/// The link is down at this time.
pub open spec fn down_at(windows: Seq<DownWindow>, now_ms: u64) -> bool {
    exists|i: int|
        0 <= i < windows.len() && (#[trigger] windows[i]).start_ms <= now_ms < windows[i].end_ms
}

/// A number that looks random, from any other number.
pub open spec fn mixed(value: u64) -> u64 {
    let a = value.wrapping_add(0x9e3779b97f4a7c15);
    let b = (a ^ (a >> 30)).wrapping_mul(0xbf58476d1ce4e5b9);
    let c = (b ^ (b >> 27)).wrapping_mul(0x94d049bb133111eb);
    c ^ (c >> 31)
}

/// A number below a million, spread evenly.
pub open spec fn sample(value: u64) -> int {
    mixed(value) * 1_000_000 / 0x1_0000_0000_0000_0000
}

/// The packet with this number, counted from 1, is lost.
pub open spec fn lost(loss: LossModel, sent_packets: u64) -> bool {
    match loss {
        LossModel::Lossless => false,
        LossModel::Every { packets } => if packets == 0 {
            sent_packets == 0
        } else {
            sent_packets as int % packets as int == 0
        },
        LossModel::Bernoulli { loss_ppm, seed } => sample(seed.wrapping_add(sent_packets))
            < loss_ppm,
    }
}

/// The chances of the link are at most one.
pub open spec fn loss_ok(loss: LossModel) -> bool {
    loss matches LossModel::Bernoulli { loss_ppm, .. } ==> loss_ppm <= 1_000_000
}

fn splitmix64(value: u64) -> (mix: u64)
    ensures
        mix == mixed(value),
{
    let a: u64 = value.wrapping_add(0x9e3779b97f4a7c15);
    let b: u64 = (a ^ (a >> 30)).wrapping_mul(0xbf58476d1ce4e5b9);
    let c: u64 = (b ^ (b >> 27)).wrapping_mul(0x94d049bb133111eb);
    c ^ (c >> 31)
}

impl SimLink {
    pub fn is_down(&self, now_ms: u64) -> (down: bool)
        ensures
            down == down_at(self.down_windows@, now_ms),
    {
        let mut i: usize = 0;
        while i < self.down_windows.len()
            invariant
                i <= self.down_windows@.len(),
                forall|j: int|
                    0 <= j < i ==> !((#[trigger] self.down_windows@[j]).start_ms <= now_ms
                        < self.down_windows@[j].end_ms),
            decreases self.down_windows@.len() - i,
        {
            let window: DownWindow = self.down_windows[i];
            if now_ms >= window.start_ms && now_ms < window.end_ms {
                return true;
            }
            i = i + 1;
        }
        false
    }

    /// Whether the packet with this number is lost.
    pub fn should_drop(&self, sent_packets: u64) -> (drop: bool)
        requires
            loss_ok(self.loss),
        ensures
            drop == lost(self.loss, sent_packets),
    {
        match self.loss {
            LossModel::Lossless => false,
            LossModel::Every { packets } => {
                if packets == 0 {
                    sent_packets == 0
                } else {
                    sent_packets % packets == 0
                }
            },
            LossModel::Bernoulli { loss_ppm, seed } => {
                let random: u64 = splitmix64(seed.wrapping_add(sent_packets));
                let scaled: u128 = random as u128 * 1_000_000;
                assert(scaled >> 64 == scaled / 0x1_0000_0000_0000_0000u128) by (bit_vector);
                (scaled >> 64) < loss_ppm as u128
            },
        }
    }

    /// When a packet of `len` bytes has left the link, if it starts at `starts_at`.
    pub open spec fn sent_at(&self, starts_at: u64, len: nat) -> u64 {
        let transmit = if self.bandwidth_bytes_per_ms == 0 {
            0
        } else {
            (len + self.bandwidth_bytes_per_ms - 1) / self.bandwidth_bytes_per_ms as int
        };
        capped(starts_at + transmit)
    }

    /// When it arrives.
    pub open spec fn due_at(&self, starts_at: u64, len: nat) -> u64 {
        capped(
            capped(self.sent_at(starts_at, len) + self.latency_ms) + self.extra_delay_ms,
        )
    }

    /// When a packet has left the link, and when it arrives.
    pub fn schedule(&self, starts_at: u64, len: usize) -> (times: (u64, u64))
        ensures
            times.0 == self.sent_at(starts_at, len as nat),
            times.1 == self.due_at(starts_at, len as nat),
    {
        let transmit: u64 = if self.bandwidth_bytes_per_ms == 0 {
            0
        } else {
            let bandwidth: u128 = self.bandwidth_bytes_per_ms as u128;
            let ceiled: u128 = (len as u128 + bandwidth - 1) / bandwidth;
            proof {
                let b = bandwidth as int;
                let n = len as int;
                assert((n + b - 1) / b <= n) by (nonlinear_arith)
                    requires
                        b >= 1,
                        n >= 0,
                ;
            }
            ceiled as u64
        };
        let sent: u64 = starts_at.saturating_add(transmit);
        (sent, sent.saturating_add(self.latency_ms).saturating_add(self.extra_delay_ms))
    }
}

/// The last time there is, at the latest.
pub open spec fn capped(time: int) -> u64 {
    if time > u64::MAX {
        u64::MAX
    } else {
        time as u64
    }
}

/// A link that loses nothing in a million loses nothing, and one that loses a million in a
/// million loses everything.
pub proof fn law_chances_are_proportions(seed: u64, sent_packets: u64)
    ensures
        !lost(LossModel::Bernoulli { loss_ppm: 0, seed }, sent_packets),
        lost(LossModel::Bernoulli { loss_ppm: 1_000_000, seed }, sent_packets),
{
    let value = mixed(seed.wrapping_add(sent_packets)) as int;
    assert(0 <= value * 1_000_000 / 0x1_0000_0000_0000_0000 < 1_000_000) by (nonlinear_arith)
        requires
            0 <= value < 0x1_0000_0000_0000_0000,
    ;
}

/// Where a chance loses a packet, a greater chance loses it too.
pub proof fn law_greater_chances_lose_more(loss_ppm: u32, more_ppm: u32, seed: u64, sent: u64)
    requires
        loss_ppm <= more_ppm,
        lost(LossModel::Bernoulli { loss_ppm, seed }, sent),
    ensures
        lost(LossModel::Bernoulli { loss_ppm: more_ppm, seed }, sent),
{
}

/// Of any `packets` packets in a row, a link that loses every `packets`th loses at most one.
pub proof fn law_every_nth_is_lost(packets: u64, first: u64, a: u64, b: u64)
    requires
        packets > 0,
        first <= a < first + packets,
        first <= b < first + packets,
        lost(LossModel::Every { packets }, a),
        lost(LossModel::Every { packets }, b),
    ensures
        a == b,
{
    let n = packets as int;
    let (low, high) = if a <= b {
        (a as int, b as int)
    } else {
        (b as int, a as int)
    };
    vstd::arithmetic::div_mod::lemma_fundamental_div_mod(low, n);
    vstd::arithmetic::div_mod::lemma_fundamental_div_mod(high, n);
    if low != high {
        assert(false) by (nonlinear_arith)
            requires
                low == n * (low / n),
                high == n * (high / n),
                low < high,
                high - low < n,
                n > 0,
        ;
    }
}

/// A packet does not arrive before it was sent.
pub proof fn law_packets_take_time(link: SimLink, starts_at: u64, len: nat)
    ensures
        starts_at <= link.sent_at(starts_at, len) <= link.due_at(starts_at, len),
{
    let b = link.bandwidth_bytes_per_ms as int;
    if b > 0 {
        assert((len + b - 1) / b >= 0) by (nonlinear_arith)
            requires
                b >= 1,
                len >= 0,
        ;
    }
}

} // verus!
