//! What a new endpoint promises: it starts with what its configuration says.
use vstd::prelude::*;

use crate::endpoint::driver;
use crate::endpoint::driver::{EndpointConfig, KcpConfig};
use crate::endpoint::model;
use crate::octets;
use crate::random;
use crate::routing;

verus! {

/// A zero stands for the default: windows of 128 segments, and a time scale of 10.
pub proof fn law_zeros_are_defaults(config: KcpConfig)
    ensures
        ({
            let set = driver::with_defaults(config);
            &&& config.send_window > 0 ==> set.send_window == config.send_window
            &&& config.send_window == 0 ==> set.send_window == 128
            &&& config.receive_window > 0 ==> set.receive_window == config.receive_window
            &&& config.receive_window == 0 ==> set.receive_window == 128
            &&& config.time_scale > 0 ==> set.time_scale == config.time_scale
            &&& config.time_scale == 0 ==> set.time_scale == 10
            &&& set.fast_resend == config.fast_resend
        }),
{
}

/// A packet has room for its headers, one channel for each hop after the first, the padding
/// that is set aside, the endpoint message around a segment, and the longest segment: that
/// adds up to the packet size of the routes, which is at most 65536.
pub proof fn law_packets_are_filled(config: EndpointConfig)
    requires
        driver::config_ok(config),
    ensures
        ({
            let params = driver::params_of(config);
            let hops = driver::longest_route(config);
            let mtu = if config.route.min_mtu <= 65536 {
                config.route.min_mtu as int
            } else {
                65536
            };
            &&& params.mtu == mtu
            &&& params.scheduled_packet_overhead == 48 + config.padding_reserve + 2 * (hops - 1)
            &&& params.scheduled_packet_overhead + 17 + params.kcp.mtu == mtu
        }),
{
    assert(driver::scheduled_overhead(config) == 48 + config.padding_reserve + 2 * (
    driver::longest_route(config) - 1));
}

/// Sessions resend without delay and without congestion control, and use the fast resend if
/// one is set. A session that is closing has 18 seconds, times its time scale.
pub proof fn law_sessions_are_set_up(config: EndpointConfig)
    requires
        driver::config_ok(config),
        config.kcp.send_window > 0,
        config.kcp.receive_window > 0,
        config.kcp.time_scale > 0,
        18_000 * config.kcp.time_scale <= u64::MAX,
    ensures
        ({
            let params = driver::params_of(config);
            &&& params.kcp.nodelay
            &&& !params.kcp.congestion_control
            &&& params.kcp.send_window == config.kcp.send_window
            &&& params.kcp.receive_window == config.kcp.receive_window
            &&& params.kcp.time_scale == config.kcp.time_scale
            &&& params.kcp.fast_resend is None <==> config.kcp.fast_resend == 0
            &&& params.kcp.fast_resend is Some ==> params.kcp.fast_resend->0
                == config.kcp.fast_resend
            &&& params.close_deadline_ms == 18_000 * config.kcp.time_scale
        }),
{
}

/// A new endpoint has no sessions, remembers nothing and waits for nothing. It sends its
/// first keepalive after one interval. It starts at packet number 0; the number of its
/// sequence and of its first session come from its seed, from different parts of the stream.
pub proof fn law_new_endpoint(config: EndpointConfig)
    ensures
        ({
            let s = driver::endpoint_init(config);
            let bytes = random::next_bytes(random::seeded(config.random_seed@), 16);
            &&& s.sessions.dom() == Set::<u64>::empty()
            &&& s.tombstones.dom() == Set::<u64>::empty()
            &&& s.outstanding.dom().is_empty()
            &&& s.filter.dom().is_empty()
            &&& s.next_seq_no == 0
            &&& s.next_feedback_at == 0
            &&& s.next_keepalive_at == config.keepalive_interval_ms
            &&& s.next_conv_id == octets::le_value(bytes.take(8)) as u64
            &&& s.seq_id == (octets::le_value(bytes.skip(8)) as u64) % 0x1_0000_0000_0000
            &&& s.random.position == 16
            &&& s.random.key == random::seeded(config.random_seed@).key
            &&& s.planner == routing::new_graph(config.route.graph@)
            &&& s.params.envelope_key == config.envelope_key@
            &&& s.params.message_key == config.message_key@
            &&& s.params.boot_time_ms == config.boot_time_ms
            &&& s.params.keepalive_interval_ms == config.keepalive_interval_ms
            &&& s.params.feedback_interval_ms == config.route.feedback_interval_ms
            &&& s.params.feedback_timeout_ms == config.route.feedback_timeout_ms
        }),
{
    let stream = random::seeded(config.random_seed@);
    let bytes = random::next_bytes(stream, 16);
    assert(random::next_bytes(stream, 8) =~= bytes.take(8));
    assert(random::next_bytes(random::skip_bytes(stream, 8), 8) =~= bytes.skip(8));
}

/// The overhead of a packet grows by two bytes with every hop.
pub proof fn law_each_hop_takes_a_channel(hops: nat, padding_reserve: u8)
    ensures
        model::packet_overhead(1, padding_reserve) == 48 + padding_reserve,
        model::packet_overhead(hops + 1, padding_reserve) == model::packet_overhead(
            hops,
            padding_reserve,
        ) + 2,
{
}

} // verus!
