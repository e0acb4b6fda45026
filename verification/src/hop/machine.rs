//! The machines of a hop by hop network: what a relay does with a packet, what an endpoint
//! does with a frame.
use std::collections::BTreeMap;
use vstd::prelude::*;

use crate::crypto;
use crate::hop::nonce;
use crate::hop::nonce::NonceFilter;
use crate::hop::packet;
use crate::hop::packet::HopPacketError;
use crate::hop::wire;
use crate::hop::wire::{
    ChannelId, CloseReason, Envelope, EnvelopeState, Metadata, NodeId, SessionFrame, Target,
    WireError,
};
use crate::kcp::Error as KcpError;
use crate::octets;
use crate::random;
use crate::random::{RandomState, RandomStream};

verus! {

broadcast use {vstd::std_specs::btree::group_btree_axioms, vstd::laws_cmp::group_laws_cmp};

pub type ConvId = u64;

#[derive(Debug, Clone, Copy, PartialEq, Eq, Structural)]
pub enum ChannelState {
    Up,
    Down,
    Degraded,
}

#[derive(Debug, Clone, PartialEq, Eq)]
pub enum OpenFailureReason {
    Refused,
    Timeout,
    UnsupportedTarget,
    Error(String),
}

#[derive(Debug, Clone, Copy, PartialEq, Eq, Structural)]
pub enum CoreStructuredEvent {
    IngressSessionCreated { conv_id: ConvId },
    SessionClosed { conv_id: ConvId },
}

#[derive(Debug, Clone, Copy, PartialEq, Eq, Structural)]
pub enum ConfigError {
    EmptyNodeId,
    ZeroMtu,
    UnknownLocalChannel(ChannelId),
    NoRoute,
}

#[derive(Debug, Clone, Copy, PartialEq, Eq, Structural)]
pub enum CoreError {
    UnsupportedEvent,
    UnknownConv(ConvId),
    NoRoute,
    Wire(WireError),
    HopPacket(HopPacketError),
    Session(KcpError),
    EndpointMessageAuthFailed,
    InvalidKcpSegment(usize),
}

/// A channel out of a node.
#[derive(Debug, Clone, Copy, PartialEq, Eq, Structural)]
pub struct RouteChannel {
    pub channel_id: ChannelId,
    pub peer_node_id: NodeId,
}

#[derive(Debug, Clone, PartialEq, Eq)]
pub struct TopologyNode {
    pub node_id: NodeId,
    pub channels: Vec<RouteChannel>,
}

#[derive(Debug, Clone, PartialEq, Eq)]
pub struct RouteTopology {
    pub nodes: Vec<TopologyNode>,
}

#[derive(Debug, Clone, PartialEq, Eq)]
pub struct EndpointConfig {
    pub local_node_id: NodeId,
    pub envelope_key: [u8; 16],
    pub message_key: [u8; 16],
    pub random_seed: [u8; 16],
    pub local_channels: Vec<ChannelId>,
    pub route_topology: RouteTopology,
    pub transport_mtu: usize,
}

#[derive(Debug, Clone, PartialEq, Eq)]
pub struct RelayConfig {
    pub local_node_id: NodeId,
    pub envelope_key: [u8; 16],
    pub random_seed: [u8; 16],
    pub local_channels: Vec<ChannelId>,
}

// ---------------------------------------------------------------------------
// Configurations
// ---------------------------------------------------------------------------

/// The channel at one place of the topology leaves the local node and is not a local one.
pub open spec fn stray(config: EndpointConfig, node: int, channel: int) -> bool {
    let nodes = config.route_topology.nodes@;
    &&& 0 <= node < nodes.len()
    &&& 0 <= channel < nodes[node].channels@.len()
    &&& nodes[node].node_id == config.local_node_id
    &&& !config.local_channels@.contains(nodes[node].channels@[channel].channel_id)
}

/// The node has an id, packets have a size, and every channel that leaves the node in the
/// topology is a local one.
pub open spec fn endpoint_config_ok(config: EndpointConfig) -> bool {
    &&& config.local_node_id != 0
    &&& config.transport_mtu != 0
    &&& forall|node: int, channel: int| !#[trigger] stray(config, node, channel)
}

/// What is wrong with a configuration. The first stray channel is named.
pub open spec fn config_error(config: EndpointConfig, error: ConfigError) -> bool {
    match error {
        ConfigError::EmptyNodeId => config.local_node_id == 0,
        ConfigError::ZeroMtu => config.local_node_id != 0 && config.transport_mtu == 0,
        ConfigError::UnknownLocalChannel(channel_id) => {
            &&& config.local_node_id != 0
            &&& config.transport_mtu != 0
            &&& exists|node: int, channel: int|
                {
                    &&& #[trigger] stray(config, node, channel)
                    &&& config.route_topology.nodes@[node].channels@[channel].channel_id
                        == channel_id
                    &&& forall|n: int, c: int| #[trigger]
                        stray(config, n, c) ==> node < n || node == n && channel <= c
                }
        },
        ConfigError::NoRoute => false,
    }
}

/// Checks a configuration: the node has an id, packets have a size, and every channel that
/// leaves the node in the topology is a local one. The first stray channel is named.
pub fn validate_endpoint_config(config: &EndpointConfig) -> (result: Result<(), ConfigError>)
    ensures
        match result {
            Ok(()) => endpoint_config_ok(*config),
            Err(error) => config_error(*config, error),
        },
{
    if config.local_node_id == 0 {
        return Err(ConfigError::EmptyNodeId);
    }
    if config.transport_mtu == 0 {
        return Err(ConfigError::ZeroMtu);
    }
    let nodes: &Vec<TopologyNode> = &config.route_topology.nodes;
    let mut i: usize = 0;
    while i < nodes.len()
        invariant
            *nodes == config.route_topology.nodes,
            i <= nodes@.len(),
            config.local_node_id != 0,
            config.transport_mtu != 0,
            forall|n: int, c: int| #[trigger] stray(*config, n, c) ==> n >= i,
        decreases nodes@.len() - i,
    {
        if nodes[i].node_id == config.local_node_id {
            let mut j: usize = 0;
            while j < nodes[i].channels.len()
                invariant
                    *nodes == config.route_topology.nodes,
                    i < nodes@.len(),
                    j <= nodes@[i as int].channels@.len(),
                    nodes@[i as int].node_id == config.local_node_id,
                    config.local_node_id != 0,
                    config.transport_mtu != 0,
                    forall|n: int, c: int| #[trigger]
                        stray(*config, n, c) ==> n > i || n == i && c >= j,
                decreases nodes@[i as int].channels@.len() - j,
            {
                let channel_id: u64 = nodes[i].channels[j].channel_id;
                if !lists(&config.local_channels, channel_id) {
                    assert(stray(*config, i as int, j as int));
                    return Err(ConfigError::UnknownLocalChannel(channel_id));
                }
                j = j + 1;
            }
        }
        i = i + 1;
    }
    Ok(())
}

pub fn validate_relay_config(config: &RelayConfig) -> (result: Result<(), ConfigError>)
    ensures
        match result {
            Ok(()) => config.local_node_id != 0,
            Err(error) => config.local_node_id == 0 && error == ConfigError::EmptyNodeId,
        },
{
    if config.local_node_id == 0 {
        return Err(ConfigError::EmptyNodeId);
    }
    Ok(())
}

fn lists(channels: &Vec<ChannelId>, channel_id: ChannelId) -> (yes: bool)
    ensures
        yes == channels@.contains(channel_id),
{
    let mut i: usize = 0;
    while i < channels.len()
        invariant
            i <= channels@.len(),
            forall|j: int| 0 <= j < i ==> channels@[j] != channel_id,
        decreases channels@.len() - i,
    {
        if channels[i] == channel_id {
            return true;
        }
        i = i + 1;
    }
    false
}

/// The size of the segments of a session, under the size of packets.
pub fn session_mtu(transport_mtu: usize) -> (mtu: usize)
    ensures
        mtu == if transport_mtu >= 178 {
            transport_mtu - 128
        } else {
            50
        },
{
    let rest: usize = transport_mtu.saturating_sub(128);
    if rest > 50 {
        rest
    } else {
        50
    }
}

// ---------------------------------------------------------------------------
// Conversation ids
// ---------------------------------------------------------------------------

/// The context in which the first conversation id is derived.
pub const CONV_ID_CONTEXT: &'static str = "RayNet conv id counter v1";

/// The first conversation id.
pub open spec fn first_conv_id(seed: Seq<u8>) -> nat {
    octets::le_value(crypto::blake3_derived(CONV_ID_CONTEXT@, seed).take(8))
}

/// Gives out conversation ids, one after the other.
#[derive(Debug, Clone, Copy, PartialEq, Eq, Structural)]
pub struct ConvIds {
    pub next_conv_id: ConvId,
}

impl ConvIds {
    /// The first id is derived from the seed of the node.
    pub fn from_seed(seed: &[u8; 16]) -> (ids: ConvIds)
        ensures
            ids.next_conv_id == first_conv_id(seed@),
    {
        let derived: [u8; 32] = crypto::derive_key(CONV_ID_CONTEXT, seed.as_slice());
        let next_conv_id: u64 = octets::get_le(derived.as_slice(), 0, 8);
        assert(derived@.subrange(0, 8) =~= derived@.take(8));
        ConvIds { next_conv_id }
    }

    /// The next id. After the last one comes 0.
    pub fn allocate_conv_id(&mut self) -> (conv_id: ConvId)
        ensures
            conv_id == old(self).next_conv_id,
            final(self).next_conv_id == if conv_id == u64::MAX {
                0
            } else {
                conv_id + 1
            },
    {
        let conv_id: ConvId = self.next_conv_id;
        self.next_conv_id = self.next_conv_id.wrapping_add(1);
        conv_id
    }
}

// ---------------------------------------------------------------------------
// Messages between endpoints
// ---------------------------------------------------------------------------

/// What marks a message between endpoints.
pub open spec fn message_mark() -> Seq<u8> {
    seq![82u8, 78u8, 77u8, 83u8, 71u8, 49u8, 0, 0, 0, 0, 0, 0, 0, 0, 0, 0]
}

fn message_ad() -> (mark: Vec<u8>)
    ensures
        mark@ == message_mark(),
{
    let mark: [u8; 16] = [82, 78, 77, 83, 71, 49, 0, 0, 0, 0, 0, 0, 0, 0, 0, 0];
    assert(mark@ =~= message_mark());
    octets::array16_to_vec(&mark)
}

/// What a message opens to.
pub open spec fn message_opened(key: Seq<u8>, message: Seq<u8>) -> Option<Seq<u8>> {
    if message.len() < 32 {
        None
    } else {
        crypto::aegis_opened(
            key,
            message.subrange(0, 16),
            message.subrange(32, message.len() as int),
            message.subrange(16, 32),
            message_mark(),
        )
    }
}

/// A segment, sealed for the other endpoint: nonce, tag and ciphertext.
pub open spec fn sealed_message(nonce: Seq<u8>, key: Seq<u8>, segment: Seq<u8>) -> Seq<u8> {
    let (ciphertext, tag) = crypto::aegis_sealed(key, nonce, segment, message_mark());
    nonce + tag + ciphertext
}

/// Seals a segment for the other endpoint.
pub fn seal_endpoint_message(nonce: &[u8; 16], key: &[u8; 16], segment: &[u8]) -> (message: Vec<u8>)
    ensures
        message@ == sealed_message(nonce@, key@, segment@),
        message_opened(key@, message@) == Some(segment@),
        message@.len() == 32 + segment@.len(),
{
    let mark: Vec<u8> = message_ad();
    let (ciphertext, tag) = crypto::aegis_encrypt(key, nonce, segment, mark.as_slice());
    let mut message: Vec<u8> = octets::array16_to_vec(nonce);
    message.extend_from_slice(octets::array16_to_vec(&tag).as_slice());
    message.extend_from_slice(ciphertext.as_slice());
    proof {
        assert(message@ =~= nonce@ + tag@ + ciphertext@);
        assert(message@.subrange(0, 16) =~= nonce@);
        assert(message@.subrange(16, 32) =~= tag@);
        assert(message@.subrange(32, message@.len() as int) =~= ciphertext@);
    }
    message
}

/// The segment in a message of the other endpoint.
pub fn open_endpoint_message(key: &[u8; 16], message: &[u8]) -> (result: Result<Vec<u8>, CoreError>)
    ensures
        match result {
            Ok(segment) => message_opened(key@, message@) == Some(segment@),
            Err(error) => message_opened(key@, message@) is None && error
                == CoreError::EndpointMessageAuthFailed,
        },
{
    if message.len() < 32 {
        return Err(CoreError::EndpointMessageAuthFailed);
    }
    let nonce: [u8; 16] = octets::array16_at(message, 0);
    let tag: [u8; 16] = octets::array16_at(message, 16);
    let ciphertext: Vec<u8> = octets::copy_range(message, 32, message.len());
    let mark: Vec<u8> = message_ad();
    match crypto::aegis_decrypt(key, &nonce, ciphertext.as_slice(), &tag, mark.as_slice()) {
        Some(segment) => Ok(segment),
        None => Err(CoreError::EndpointMessageAuthFailed),
    }
}

// ---------------------------------------------------------------------------
// Frames
// ---------------------------------------------------------------------------

/// What an endpoint does about a frame of a session.
#[derive(Debug, Clone, PartialEq, Eq)]
pub enum FrameStep {
    OpenExitConnection { conv_id: ConvId, target: Target, metadata: Metadata },
    WriteSession { conv_id: ConvId, bytes: Vec<u8> },
    /// The session leaves the table, and its end is reported.
    CloseSession { conv_id: ConvId, reason: CloseReason, event: CoreStructuredEvent },
    KeepAlive,
}

pub fn handle_session_frame(conv_id: ConvId, frame: SessionFrame) -> (step: FrameStep)
    ensures
        match frame {
            SessionFrame::OpenConnection { target, metadata } => step
                == (FrameStep::OpenExitConnection { conv_id, target, metadata }),
            SessionFrame::ConnectionBytes { bytes } => step == (FrameStep::WriteSession {
                conv_id,
                bytes,
            }),
            SessionFrame::CloseConnection { reason } => step == (FrameStep::CloseSession {
                conv_id,
                reason,
                event: CoreStructuredEvent::SessionClosed { conv_id },
            }),
            SessionFrame::ResetConnection { reason } => step == (FrameStep::CloseSession {
                conv_id,
                reason,
                event: CoreStructuredEvent::SessionClosed { conv_id },
            }),
            SessionFrame::KeepAlive => step is KeepAlive,
        },
{
    match frame {
        SessionFrame::OpenConnection { target, metadata } => FrameStep::OpenExitConnection {
            conv_id,
            target,
            metadata,
        },
        SessionFrame::ConnectionBytes { bytes } => FrameStep::WriteSession { conv_id, bytes },
        SessionFrame::CloseConnection { reason } => FrameStep::CloseSession {
            conv_id,
            reason,
            event: CoreStructuredEvent::SessionClosed { conv_id },
        },
        SessionFrame::ResetConnection { reason } => FrameStep::CloseSession {
            conv_id,
            reason,
            event: CoreStructuredEvent::SessionClosed { conv_id },
        },
        SessionFrame::KeepAlive => FrameStep::KeepAlive,
    }
}

// ---------------------------------------------------------------------------
// The relay
// ---------------------------------------------------------------------------

/// What happens to a machine.
#[derive(Debug, Clone, PartialEq, Eq)]
pub enum CoreEvent {
    TransportPacketReceived { channel_id: ChannelId, bytes: Vec<u8> },
    TransportChannelUpdated { channel_id: ChannelId, state: ChannelState },
    IngressSessionRequested { target: Target, metadata: Metadata },
    ExitConnectionOpened { conv_id: ConvId },
    ExitConnectionOpenFailed { conv_id: ConvId, reason: OpenFailureReason },
    SessionBytes { conv_id: ConvId, bytes: Vec<u8> },
    SessionClosed { conv_id: ConvId, reason: CloseReason },
}

/// What a relay does.
#[derive(Debug, Clone, PartialEq, Eq)]
pub enum RelayAction {
    SendTransportPacket { channel_id: ChannelId, bytes: Vec<u8> },
    ChannelUpdated { channel_id: ChannelId, state: ChannelState },
}

/// The envelope that a packet opens to.
pub open spec fn envelope_in(
    time_ms: u64,
    key: Seq<u8>,
    data: Seq<u8>,
    fresh: bool,
) -> Result<EnvelopeState, CoreError> {
    if data.len() < packet::HEADER_SIZE || data.len() > packet::MAX_PACKET_SIZE {
        Err(CoreError::HopPacket(HopPacketError::InvalidLength))
    } else {
        match packet::opened(time_ms, key, data) {
            None => Err(CoreError::HopPacket(HopPacketError::AuthFailed)),
            Some(payload) => if !fresh {
                Err(CoreError::HopPacket(HopPacketError::NonceReuse))
            } else {
                match wire::decode_envelope(payload) {
                    Ok(envelope) => Ok(envelope),
                    Err(error) => Err(CoreError::Wire(error)),
                }
            },
        }
    }
}

/// The nonce of the packet comes to be checked.
pub open spec fn authentic(time_ms: u64, key: Seq<u8>, data: Seq<u8>) -> bool {
    &&& packet::HEADER_SIZE <= data.len() <= packet::MAX_PACKET_SIZE
    &&& packet::opened(time_ms, key, data) is Some
}

/// Opens a packet and reads its envelope.
pub fn decode_hop_packet(
    time_ms: u64,
    key: &[u8; 16],
    filter: &mut NonceFilter,
    data: &[u8],
) -> (result: Result<Envelope, CoreError>)
    ensures
        ({
            let fresh = !(result matches Err(error) && error == CoreError::HopPacket(
                HopPacketError::NonceReuse,
            ));
            &&& match result {
                Ok(envelope) => envelope_in(time_ms, key@, data@, fresh) == Ok::<
                    EnvelopeState,
                    CoreError,
                >(envelope@),
                Err(error) => envelope_in(time_ms, key@, data@, fresh) == Err::<
                    EnvelopeState,
                    CoreError,
                >(error),
            }
            &&& authentic(time_ms, key@, data@) ==> nonce::checked(
                nonce::rotated(old(filter)@, time_ms),
                data@.subrange(0, 16),
                fresh,
                final(filter)@,
            )
            &&& !authentic(time_ms, key@, data@) ==> final(filter)@ == old(filter)@
        }),
{
    match packet::open_hop_payload(time_ms, key, data, filter) {
        Ok(payload) => match Envelope::decode(payload.as_slice()) {
            Ok(envelope) => Ok(envelope),
            Err(error) => Err(CoreError::Wire(error)),
        },
        Err(error) => Err(CoreError::HopPacket(error)),
    }
}

/// Writes an envelope and seals it under the next nonce of the stream.
pub fn encode_hop_packet(
    time_ms: u64,
    key: &[u8; 16],
    random: &mut RandomStream,
    envelope: &Envelope,
) -> (result: Result<Vec<u8>, CoreError>)
    ensures
        match result {
            Ok(data) => {
                &&& wire::encode_envelope(envelope@) matches Ok(payload)
                &&& data@ == packet::sealed_bytes(
                    random::next_bytes(old(random)@, 16),
                    time_ms,
                    key@,
                    payload,
                )
                &&& packet::opens_near(time_ms, key@, data@, payload)
                &&& final(random)@ == random::skip_bytes(old(random)@, 16)
            },
            Err(error) => {
                &&& wire::encode_envelope(envelope@) matches Err(wire_error)
                &&& error == CoreError::Wire(wire_error)
                &&& final(random)@ == old(random)@
            },
        },
{
    match envelope.encode() {
        Ok(payload) => {
            let nonce: [u8; 16] = random.nonce();
            Ok(packet::seal_hop_payload_with(&nonce, time_ms, key, payload.as_slice()))
        },
        Err(error) => Err(CoreError::Wire(error)),
    }
}

/// The next hop of an envelope, and what is left of its plan.
pub open spec fn next_hop(envelope: EnvelopeState) -> Option<(ChannelId, EnvelopeState)> {
    if envelope.route_plan.len() == 0 {
        None
    } else {
        Some(
            (
                envelope.route_plan[0],
                EnvelopeState { route_plan: envelope.route_plan.drop_first(), ..envelope },
            ),
        )
    }
}

/// A relay: it sends each packet on along the plan in its envelope.
pub struct RelayCore {
    config: RelayConfig,
    channels: BTreeMap<ChannelId, ChannelState>,
    filter: NonceFilter,
    random: RandomStream,
}

/// What the envelope nonces of a relay are drawn for.
pub const RELAY_ENVELOPE_DOMAIN: &'static str = "relay envelope";

/// The channel is a local one and is not down.
pub open spec fn usable(channels: Map<ChannelId, ChannelState>, channel_id: ChannelId) -> bool {
    channels.contains_key(channel_id) && channels[channel_id] != ChannelState::Down
}

/// The local channels, all of them up.
pub open spec fn fresh_channels(ids: Seq<ChannelId>) -> Map<ChannelId, ChannelState> {
    Map::new(
        |channel_id: ChannelId| ids.contains(channel_id),
        |channel_id: ChannelId| ChannelState::Up,
    )
}

pub(crate) fn all_up(ids: &Vec<ChannelId>) -> (channels: BTreeMap<ChannelId, ChannelState>)
    ensures
        channels@ == fresh_channels(ids@),
{
    let mut channels: BTreeMap<ChannelId, ChannelState> = BTreeMap::new();
    let mut i: usize = 0;
    while i < ids.len()
        invariant
            i <= ids@.len(),
            forall|channel_id: ChannelId| #[trigger]
                channels@.contains_key(channel_id) <==> ids@.take(
                    i as int,
                ).contains(channel_id),
            forall|channel_id: ChannelId| #[trigger]
                channels@.contains_key(channel_id) ==> channels@[channel_id]
                    == ChannelState::Up,
        decreases ids@.len() - i,
    {
        let ghost all = ids@;
        let ghost before = channels@;
        channels.insert(ids[i], ChannelState::Up);
        proof {
            assert forall|channel_id: ChannelId| #[trigger]
                channels@.contains_key(channel_id) <==> all.take(i + 1).contains(
                    channel_id,
                ) by {
                let some = all.take(i as int);
                let more = all.take(i + 1);
                assert(more =~= some.push(all[i as int]));
                assert(more[i as int] == all[i as int]);
                if some.contains(channel_id) {
                    let j = choose|j: int| 0 <= j < some.len() && some[j] == channel_id;
                    assert(more[j] == channel_id);
                }
                if more.contains(channel_id) && channel_id != all[i as int] {
                    let j = choose|j: int| 0 <= j < more.len() && more[j] == channel_id;
                    assert(some[j] == channel_id);
                }
                assert(before.contains_key(channel_id) <==> all.take(i as int).contains(
                    channel_id,
                ));
            }
        }
        i = i + 1;
    }
    assert(ids@.take(i as int) =~= ids@);
    assert(channels@ =~= fresh_channels(ids@));
    channels
}

impl RelayCore {
    pub closed spec fn key(&self) -> Seq<u8> {
        self.config.envelope_key@
    }

    pub closed spec fn channels(&self) -> Map<ChannelId, ChannelState> {
        self.channels@
    }

    pub closed spec fn seen(&self) -> nonce::NonceState {
        self.filter@
    }

    /// Where the nonces of its packets come from.
    pub closed spec fn random(&self) -> RandomState {
        self.random@
    }

    /// A relay whose channels are all up, and which has seen no packet.
    pub fn new(config: RelayConfig) -> (result: Result<RelayCore, ConfigError>)
        ensures
            match result {
                Ok(core) => {
                    &&& config.local_node_id != 0
                    &&& core.key() == config.envelope_key@
                    &&& core.channels() == fresh_channels(config.local_channels@)
                    &&& core.random() == random::seeded_for(
                        config.random_seed@,
                        RELAY_ENVELOPE_DOMAIN@,
                    )
                    &&& core.seen() == (nonce::NonceState {
                        current: Set::empty(),
                        previous: Set::empty(),
                        rotate_every_ms: nonce::REPLAY_PERIOD_MS,
                        last_rotate_ms: 0,
                    })
                },
                Err(error) => config.local_node_id == 0 && error == ConfigError::EmptyNodeId,
            },
    {
        if let Err(error) = validate_relay_config(&config) {
            return Err(error);
        }
        let channels = all_up(&config.local_channels);
        let random = RandomStream::for_domain(config.random_seed, RELAY_ENVELOPE_DOMAIN);
        let core = RelayCore {
            config,
            channels,
            filter: nonce::core_filter(),
            random,
        };
        Ok(core)
    }

    /// Takes an event. A packet that opens is sent on along its plan, with the hop that it
    /// takes left out; one without a plan, or whose next channel cannot be used, is refused,
    /// and so are the events of sessions.
    pub fn handle_event(
        &mut self,
        now_ms: u64,
        event: CoreEvent,
        actions: &mut Vec<RelayAction>,
    ) -> (result: Result<(), CoreError>)
        ensures
            final(self).key() == old(self).key(),
            match event {
                CoreEvent::TransportPacketReceived { bytes, .. } => {
                    let fresh = !(result matches Err(error) && error == CoreError::HopPacket(
                        HopPacketError::NonceReuse,
                    ));
                    let envelope = envelope_in(now_ms, old(self).key(), bytes@, fresh);
                    &&& final(self).channels() == old(self).channels()
                    &&& authentic(now_ms, old(self).key(), bytes@) ==> nonce::checked(
                        nonce::rotated(old(self).seen(), now_ms),
                        bytes@.subrange(0, 16),
                        fresh,
                        final(self).seen(),
                    )
                    &&& !authentic(now_ms, old(self).key(), bytes@) ==> final(self).seen()
                        == old(self).seen()
                    &&& final(self).random() == if result is Ok {
                        random::skip_bytes(old(self).random(), 16)
                    } else {
                        old(self).random()
                    }
                    &&& match envelope {
                        Err(error) => result == Err::<(), CoreError>(error) && final(actions)@
                            == old(actions)@,
                        Ok(envelope) => match next_hop(envelope) {
                            None => result == Err::<(), CoreError>(CoreError::NoRoute)
                                && final(actions)@ == old(actions)@,
                            Some((channel_id, rest)) => if !usable(
                                old(self).channels(),
                                channel_id,
                            ) {
                                result == Err::<(), CoreError>(CoreError::NoRoute)
                                    && final(actions)@ == old(actions)@
                            } else {
                                match wire::encode_envelope(rest) {
                                    Err(error) => result == Err::<(), CoreError>(
                                        CoreError::Wire(error),
                                    ) && final(actions)@ == old(actions)@,
                                    Ok(payload) => {
                                        &&& result == Ok::<(), CoreError>(())
                                        &&& final(actions)@.len() == old(actions)@.len() + 1
                                        &&& final(actions)@.drop_last() == old(actions)@
                                        &&& final(actions)@.last()
                                            matches RelayAction::SendTransportPacket {
                                            channel_id: sent_on,
                                            bytes: sent,
                                        }
                                        &&& sent_on == channel_id
                                        &&& sent@ == packet::sealed_bytes(
                                            random::next_bytes(old(self).random(), 16),
                                            now_ms,
                                            old(self).key(),
                                            payload,
                                        )
                                        &&& packet::opens_near(
                                            now_ms,
                                            old(self).key(),
                                            sent@,
                                            payload,
                                        )
                                    },
                                }
                            },
                        },
                    }
                },
                CoreEvent::TransportChannelUpdated { channel_id, state } => {
                    &&& result == Ok::<(), CoreError>(())
                    &&& final(self).seen() == old(self).seen()
                    &&& final(self).random() == old(self).random()
                    &&& final(self).channels() == if old(self).channels().contains_key(
                        channel_id,
                    ) {
                        old(self).channels().insert(channel_id, state)
                    } else {
                        old(self).channels()
                    }
                    &&& final(actions)@ == old(actions)@.push(
                        RelayAction::ChannelUpdated { channel_id, state },
                    )
                },
                _ => {
                    &&& result == Err::<(), CoreError>(CoreError::UnsupportedEvent)
                    &&& final(self).channels() == old(self).channels()
                    &&& final(self).random() == old(self).random()
                    &&& final(self).seen() == old(self).seen()
                    &&& final(actions)@ == old(actions)@
                },
            },
    {
        match event {
            CoreEvent::TransportPacketReceived { bytes, .. } => {
                let envelope: Envelope = match decode_hop_packet(
                    now_ms,
                    &self.config.envelope_key,
                    &mut self.filter,
                    bytes.as_slice(),
                ) {
                    Ok(envelope) => envelope,
                    Err(error) => return Err(error),
                };
                self.forward_envelope(now_ms, envelope, actions)
            },
            CoreEvent::TransportChannelUpdated { channel_id, state } => {
                if self.channels.contains_key(&channel_id) {
                    self.channels.insert(channel_id, state);
                }
                actions.push(RelayAction::ChannelUpdated { channel_id, state });
                Ok(())
            },
            _ => Err(CoreError::UnsupportedEvent),
        }
    }

    fn forward_envelope(
        &mut self,
        now_ms: u64,
        envelope: Envelope,
        actions: &mut Vec<RelayAction>,
    ) -> (result: Result<(), CoreError>)
        ensures
            final(self).key() == old(self).key(),
            final(self).channels() == old(self).channels(),
            final(self).seen() == old(self).seen(),
            final(self).random() == if result is Ok {
                random::skip_bytes(old(self).random(), 16)
            } else {
                old(self).random()
            },
            match next_hop(envelope@) {
                None => result == Err::<(), CoreError>(CoreError::NoRoute) && final(actions)@
                    == old(actions)@,
                Some((channel_id, rest)) => if !usable(old(self).channels(), channel_id) {
                    result == Err::<(), CoreError>(CoreError::NoRoute) && final(actions)@
                        == old(actions)@
                } else {
                    match wire::encode_envelope(rest) {
                        Err(error) => result == Err::<(), CoreError>(CoreError::Wire(error))
                            && final(actions)@ == old(actions)@,
                        Ok(payload) => {
                            &&& result == Ok::<(), CoreError>(())
                            &&& final(actions)@.len() == old(actions)@.len() + 1
                            &&& final(actions)@.drop_last() == old(actions)@
                            &&& final(actions)@.last() matches RelayAction::SendTransportPacket {
                                channel_id: sent_on,
                                bytes: sent,
                            }
                            &&& sent_on == channel_id
                            &&& sent@ == packet::sealed_bytes(
                                random::next_bytes(old(self).random(), 16),
                                now_ms,
                                old(self).key(),
                                payload,
                            )
                            &&& packet::opens_near(now_ms, old(self).key(), sent@, payload)
                        },
                    }
                },
            },
    {
        let mut envelope = envelope;
        if envelope.route_plan.len() == 0 {
            return Err(CoreError::NoRoute);
        }
        let ghost before = envelope@;
        let channel_id: ChannelId = envelope.route_plan.remove(0);
        assert(envelope.route_plan@ =~= before.route_plan.drop_first());
        let open: bool = match self.channels.get(&channel_id) {
            Some(state) => *state != ChannelState::Down,
            None => false,
        };
        if !open {
            return Err(CoreError::NoRoute);
        }
        match encode_hop_packet(
            now_ms,
            &self.config.envelope_key,
            &mut self.random,
            &envelope,
        ) {
            Ok(bytes) => {
                actions.push(RelayAction::SendTransportPacket { channel_id, bytes });
                assert(actions@.drop_last() =~= old(actions)@);
                Ok(())
            },
            Err(error) => Err(error),
        }
    }

    /// The passing of time brings nothing about.
    pub fn poll(&mut self, now_ms: u64, actions: &mut Vec<RelayAction>) -> (result: Result<
        (),
        CoreError,
    >)
        ensures
            result == Ok::<(), CoreError>(()),
            *final(self) == *old(self),
            final(actions)@ == old(actions)@,
    {
        Ok(())
    }

    /// A relay does nothing by itself.
    pub fn next_deadline(&self, now_ms: u64) -> (deadline: Option<u64>)
        ensures
            deadline is None,
    {
        None
    }

    pub fn channel_count(&self) -> (count: usize)
        ensures
            count == self.channels().len(),
    {
        self.channels.len()
    }
}

/// A plan shrinks by one channel at each relay, and the payload stays as it is: after as many
/// relays as the plan has channels there is none left.
pub proof fn law_plans_are_consumed(envelope: EnvelopeState)
    ensures
        next_hop(envelope) is None <==> envelope.route_plan.len() == 0,
        next_hop(envelope) matches Some((channel_id, rest)) ==> {
            &&& rest.route_plan.len() + 1 == envelope.route_plan.len()
            &&& seq![channel_id] + rest.route_plan == envelope.route_plan
            &&& rest.payload == envelope.payload
        },
{
    if let Some((channel_id, rest)) = next_hop(envelope) {
        assert(seq![channel_id] + rest.route_plan =~= envelope.route_plan);
    }
}

} // verus!
