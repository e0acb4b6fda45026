//! Envelopes with explicit lengths, and frames of sessions.
use vstd::prelude::*;

use crate::octets;
use crate::text;
use crate::text::Order;

verus! {

pub const MAX_ENVELOPE_SIZE: usize = 65536;

pub const MAX_SESSION_FRAME_SIZE: usize = 65536;

pub const MAX_ROUTE_PLAN_LEN: usize = 64;

pub const MAX_METADATA_ITEMS: usize = 64;

pub const MAX_STRING_LEN: usize = 4096;

pub type NodeId = u64;

pub type ChannelId = u64;

pub type RoutePlan = Vec<ChannelId>;

#[derive(Debug, Clone, Copy, PartialEq, Eq, Structural)]
pub enum WireError {
    ShortBuffer,
    TooLarge,
    InvalidMagic,
    InvalidFrameType(u8),
    LengthOutOfBounds,
    CountOutOfBounds,
    InvalidUtf8,
}

/// Where a connection goes.
#[derive(Debug, Clone, PartialEq, Eq)]
pub struct Target {
    pub host: String,
    pub port: u16,
}

#[derive(Debug, Clone, PartialEq, Eq)]
pub enum CloseReason {
    LocalClosed,
    RemoteClosed,
    Reset,
    Error(String),
}

#[derive(Debug, Clone, PartialEq, Eq)]
pub struct Envelope {
    pub route_plan: RoutePlan,
    pub payload: Vec<u8>,
}

#[derive(Debug, Clone, PartialEq, Eq)]
pub enum SessionFrame {
    OpenConnection { target: Target, metadata: Metadata },
    ConnectionBytes { bytes: Vec<u8> },
    CloseConnection { reason: CloseReason },
    ResetConnection { reason: CloseReason },
    KeepAlive,
}

// ---------------------------------------------------------------------------
// Metadata
// ---------------------------------------------------------------------------

/// The bytes of keys and values, in the order of the keys.
pub type Items = Seq<(Seq<u8>, Seq<u8>)>;

/// The keys are in order, each once.
pub open spec fn items_ordered(items: Items) -> bool {
    forall|i: int, j: int|
        0 <= i < j < items.len() ==> text::bytes_less(
            (#[trigger] items[i]).0,
            (#[trigger] items[j]).0,
        )
}

/// The items with the value of one key set.
pub open spec fn with_item(items: Items, key: Seq<u8>, value: Seq<u8>) -> Items
    decreases items.len(),
{
    if items.len() == 0 {
        seq![(key, value)]
    } else if items[0].0 == key {
        items.update(0, (key, value))
    } else if text::bytes_less(key, items[0].0) {
        seq![(key, value)] + items
    } else {
        seq![items[0]] + with_item(items.drop_first(), key, value)
    }
}

/// Keys with values, in the order of the keys.
#[derive(Debug, Clone, PartialEq, Eq)]
pub struct Metadata {
    items: Vec<(String, String)>,
}

pub open spec fn item_bytes(items: Seq<(String, String)>) -> Items {
    Seq::new(items.len(), |i: int| (text::utf8(items[i].0@), text::utf8(items[i].1@)))
}

impl View for Metadata {
    type V = Items;

    closed spec fn view(&self) -> Items {
        item_bytes(self.items@)
    }
}

proof fn lemma_with_item_at(items: Items, key: Seq<u8>, value: Seq<u8>, at: int)
    requires
        items_ordered(items),
        0 <= at <= items.len(),
        forall|i: int| 0 <= i < at ==> text::bytes_less((#[trigger] items[i]).0, key),
        at < items.len() ==> items[at].0 == key || text::bytes_less(key, items[at].0),
    ensures
        with_item(items, key, value) == if at < items.len() && items[at].0 == key {
            items.update(at, (key, value))
        } else {
            items.insert(at, (key, value))
        },
        items_ordered(with_item(items, key, value)),
    decreases items.len(),
{
    let all = with_item(items, key, value);
    if items.len() == 0 {
        assert(items.insert(0, (key, value)) =~= seq![(key, value)]);
    } else if at == 0 {
        text::lemma_bytes_less_total(key, items[0].0);
        assert(items.insert(0, (key, value)) =~= seq![(key, value)] + items);
    } else {
        text::lemma_bytes_less_total(items[0].0, key);
        let rest = items.drop_first();
        assert forall|i: int, j: int| 0 <= i < j < rest.len() implies text::bytes_less(
            (#[trigger] rest[i]).0,
            (#[trigger] rest[j]).0,
        ) by {
            assert(rest[i] == items[i + 1] && rest[j] == items[j + 1]);
        }
        assert forall|i: int| 0 <= i < at - 1 implies text::bytes_less(
            (#[trigger] rest[i]).0,
            key,
        ) by {
            assert(rest[i] == items[i + 1]);
        }
        lemma_with_item_at(rest, key, value, at - 1);
        if at < items.len() && items[at].0 == key {
            assert(seq![items[0]] + rest.update(at - 1, (key, value)) =~= items.update(
                at,
                (key, value),
            ));
        } else {
            assert(seq![items[0]] + rest.insert(at - 1, (key, value)) =~= items.insert(
                at,
                (key, value),
            ));
        }
    }
    assert forall|i: int, j: int| 0 <= i < j < all.len() implies text::bytes_less(
        (#[trigger] all[i]).0,
        (#[trigger] all[j]).0,
    ) by {
        if at < items.len() && items[at].0 == key {
            assert(all == items.update(at, (key, value)));
            assert(text::bytes_less(items[i].0, items[j].0));
        } else {
            assert(all == items.insert(at, (key, value)));
            let x = if i < at {
                i
            } else {
                i - 1
            };
            let y = if j < at {
                j
            } else {
                j - 1
            };
            if i == at {
                assert(all[j] == items[y]);
                if y > at {
                    text::lemma_bytes_less_trans(key, items[at].0, items[y].0);
                }
            } else if j == at {
                assert(all[i] == items[x]);
            } else {
                assert(all[i] == items[x] && all[j] == items[y]);
            }
        }
    }
}

impl Metadata {
    /// The keys are in order.
    pub open spec fn wf(&self) -> bool {
        items_ordered(self@)
    }

    pub fn new() -> (metadata: Self)
        ensures
            metadata@ == Seq::<(Seq<u8>, Seq<u8>)>::empty(),
            metadata.wf(),
    {
        let metadata = Self { items: Vec::new() };
        assert(metadata@ =~= Seq::<(Seq<u8>, Seq<u8>)>::empty());
        metadata
    }

    pub fn len(&self) -> (len: usize)
        ensures
            len == self@.len(),
    {
        self.items.len()
    }

    /// Sets the value of a key.
    pub fn insert(&mut self, key: String, value: String)
        requires
            old(self).wf(),
        ensures
            final(self).wf(),
            final(self)@ == with_item(old(self)@, text::utf8(key@), text::utf8(value@)),
    {
        let ghost items = self@;
        let ghost key_bytes = text::utf8(key@);
        let ghost entry = (text::utf8(key@), text::utf8(value@));
        let mut at: usize = 0;
        let mut found: bool = false;
        let mut done: bool = false;
        while at < self.items.len() && !done
            invariant
                at <= self.items@.len(),
                items == self@,
                items_ordered(items),
                key_bytes == text::utf8(key@),
                forall|i: int| 0 <= i < at ==> text::bytes_less((#[trigger] items[i]).0, key_bytes),
                done ==> at < items.len() && if found {
                    items[at as int].0 == key_bytes
                } else {
                    text::bytes_less(key_bytes, items[at as int].0)
                },
                !done ==> !found,
            decreases self.items@.len() - at, if done { 0int } else { 1int },
        {
            assert(items[at as int].0 == text::utf8(self.items@[at as int].0@));
            match text::compare_bytes(
                key.as_str().as_bytes(),
                self.items[at].0.as_str().as_bytes(),
            ) {
                Order::Before => {
                    done = true;
                },
                Order::Same => {
                    done = true;
                    found = true;
                },
                Order::After => {
                    at = at + 1;
                },
            }
        }
        proof {
            lemma_with_item_at(items, key_bytes, text::utf8(value@), at as int);
            if done && !found {
                text::lemma_bytes_less_total(key_bytes, items[at as int].0);
            }
        }
        if found {
            self.items.set(at, (key, value));
            assert(self@ =~= items.update(at as int, entry));
        } else {
            self.items.insert(at, (key, value));
            assert(self@ =~= items.insert(at as int, entry));
        }
    }

    /// The value of a key.
    pub fn get(&self, key: &String) -> (value: Option<&String>)
        ensures
            match value {
                Some(value) => exists|i: int|
                    0 <= i < self@.len() && #[trigger] self@[i] == (
                        text::utf8(key@),
                        text::utf8(value@),
                    ),
                None => forall|i: int|
                    0 <= i < self@.len() ==> (#[trigger] self@[i]).0 != text::utf8(key@),
            },
    {
        let mut i: usize = 0;
        while i < self.items.len()
            invariant
                i <= self.items@.len(),
                forall|j: int| 0 <= j < i ==> (#[trigger] self@[j]).0 != text::utf8(key@),
            decreases self.items@.len() - i,
        {
            assert(self@[i as int].0 == text::utf8(self.items@[i as int].0@));
            match text::compare_bytes(
                key.as_str().as_bytes(),
                self.items[i].0.as_str().as_bytes(),
            ) {
                Order::Same => {
                    assert(self@[i as int] == (
                        text::utf8(key@),
                        text::utf8(self.items@[i as int].1@),
                    ));
                    return Some(&self.items[i].1);
                },
                _ => {
                    proof {
                        text::lemma_bytes_less_total(text::utf8(key@), self@[i as int].0);
                    }
                },
            }
            i = i + 1;
        }
        None
    }
}

// ---------------------------------------------------------------------------
// Views
// ---------------------------------------------------------------------------

#[verifier::ext_equal]
pub enum ReasonState {
    LocalClosed,
    RemoteClosed,
    Reset,
    Error { message: Seq<u8> },
}

impl View for CloseReason {
    type V = ReasonState;

    open spec fn view(&self) -> ReasonState {
        match self {
            CloseReason::LocalClosed => ReasonState::LocalClosed,
            CloseReason::RemoteClosed => ReasonState::RemoteClosed,
            CloseReason::Reset => ReasonState::Reset,
            CloseReason::Error(message) => ReasonState::Error { message: text::utf8(message@) },
        }
    }
}

#[verifier::ext_equal]
pub enum FrameState {
    OpenConnection { host: Seq<u8>, port: u16, metadata: Items },
    ConnectionBytes { bytes: Seq<u8> },
    CloseConnection { reason: ReasonState },
    ResetConnection { reason: ReasonState },
    KeepAlive,
}

impl View for SessionFrame {
    type V = FrameState;

    open spec fn view(&self) -> FrameState {
        match self {
            SessionFrame::OpenConnection { target, metadata } => FrameState::OpenConnection {
                host: text::utf8(target.host@),
                port: target.port,
                metadata: metadata@,
            },
            SessionFrame::ConnectionBytes { bytes } => FrameState::ConnectionBytes {
                bytes: bytes@,
            },
            SessionFrame::CloseConnection { reason } => FrameState::CloseConnection {
                reason: reason@,
            },
            SessionFrame::ResetConnection { reason } => FrameState::ResetConnection {
                reason: reason@,
            },
            SessionFrame::KeepAlive => FrameState::KeepAlive,
        }
    }
}

#[verifier::ext_equal]
pub struct EnvelopeState {
    pub route_plan: Seq<u64>,
    pub payload: Seq<u8>,
}

impl View for Envelope {
    type V = EnvelopeState;

    open spec fn view(&self) -> EnvelopeState {
        EnvelopeState { route_plan: self.route_plan@, payload: self.payload@ }
    }
}

// ---------------------------------------------------------------------------
// Encoding
// ---------------------------------------------------------------------------

/// The mark of an envelope: `RNE1`.
pub open spec fn envelope_magic() -> Seq<u8> {
    seq![82u8, 78u8, 69u8, 49u8]
}

/// The mark of a session frame: `RNF1`.
pub open spec fn frame_magic() -> Seq<u8> {
    seq![82u8, 78u8, 70u8, 49u8]
}

pub open spec fn plan_bytes(plan: Seq<u64>) -> Seq<u8>
    decreases plan.len(),
{
    if plan.len() == 0 {
        Seq::empty()
    } else {
        plan_bytes(plan.drop_last()) + octets::le_bytes(plan.last() as nat, 8)
    }
}

/// The bytes of an envelope: mark, lengths, route plan, payload.
pub open spec fn envelope_bytes(e: EnvelopeState) -> Seq<u8> {
    envelope_magic() + octets::le_bytes(e.route_plan.len(), 2) + octets::le_bytes(
        e.payload.len(),
        4,
    ) + plan_bytes(e.route_plan) + e.payload
}

pub open spec fn encode_envelope(e: EnvelopeState) -> Result<Seq<u8>, WireError> {
    if e.route_plan.len() > MAX_ROUTE_PLAN_LEN {
        Err(WireError::CountOutOfBounds)
    } else if e.payload.len() > MAX_ENVELOPE_SIZE {
        Err(WireError::TooLarge)
    } else {
        Ok(envelope_bytes(e))
    }
}

/// A length and the bytes.
pub open spec fn sized(bytes: Seq<u8>) -> Seq<u8> {
    octets::le_bytes(bytes.len(), 4) + bytes
}

pub open spec fn string_fits(bytes: Seq<u8>) -> bool {
    bytes.len() <= MAX_STRING_LEN
}

pub open spec fn items_fit(items: Items) -> bool {
    forall|i: int|
        0 <= i < items.len() ==> string_fits((#[trigger] items[i]).0) && string_fits(items[i].1)
}

pub open spec fn items_bytes(items: Items) -> Seq<u8>
    decreases items.len(),
{
    if items.len() == 0 {
        Seq::empty()
    } else {
        sized(items[0].0) + sized(items[0].1) + items_bytes(items.drop_first())
    }
}

pub open spec fn reason_bytes(reason: ReasonState) -> Seq<u8> {
    match reason {
        ReasonState::LocalClosed => seq![0u8],
        ReasonState::RemoteClosed => seq![1u8],
        ReasonState::Reset => seq![2u8],
        ReasonState::Error { message } => seq![3u8] + sized(message),
    }
}

pub open spec fn reason_fits(reason: ReasonState) -> bool {
    reason matches ReasonState::Error { message } ==> string_fits(message)
}

/// The bytes of a frame behind the mark.
pub open spec fn frame_body(f: FrameState) -> Seq<u8> {
    match f {
        FrameState::OpenConnection { host, port, metadata } => seq![0u8] + sized(host)
            + octets::le_bytes(port as nat, 2) + octets::le_bytes(metadata.len(), 2)
            + items_bytes(metadata),
        FrameState::ConnectionBytes { bytes } => seq![1u8] + sized(bytes),
        FrameState::CloseConnection { reason } => seq![2u8] + reason_bytes(reason),
        FrameState::ResetConnection { reason } => seq![3u8] + reason_bytes(reason),
        FrameState::KeepAlive => seq![4u8],
    }
}

pub open spec fn frame_bytes(f: FrameState) -> Seq<u8> {
    frame_magic() + frame_body(f)
}

/// Why a frame cannot be encoded.
pub open spec fn frame_error(f: FrameState) -> Option<WireError> {
    match f {
        FrameState::OpenConnection { host, metadata, .. } => if !string_fits(host) {
            Some(WireError::TooLarge)
        } else if metadata.len() > MAX_METADATA_ITEMS {
            Some(WireError::CountOutOfBounds)
        } else if !items_fit(metadata) || frame_bytes(f).len() > MAX_SESSION_FRAME_SIZE {
            Some(WireError::TooLarge)
        } else {
            None
        },
        FrameState::CloseConnection { reason } => if reason_fits(reason) {
            None
        } else {
            Some(WireError::TooLarge)
        },
        FrameState::ResetConnection { reason } => if reason_fits(reason) {
            None
        } else {
            Some(WireError::TooLarge)
        },
        FrameState::ConnectionBytes { .. } => if frame_bytes(f).len() > MAX_SESSION_FRAME_SIZE {
            Some(WireError::TooLarge)
        } else {
            None
        },
        FrameState::KeepAlive => None,
    }
}

pub open spec fn encode_frame(f: FrameState) -> Result<Seq<u8>, WireError> {
    match frame_error(f) {
        Some(error) => Err(error),
        None => Ok(frame_bytes(f)),
    }
}

// ---------------------------------------------------------------------------
// Decoding
// ---------------------------------------------------------------------------

/// The next `n` bytes from `at` on, and where they end.
pub open spec fn take_at(bytes: Seq<u8>, at: int, n: int) -> Result<(Seq<u8>, int), WireError> {
    if at + n > usize::MAX {
        Err(WireError::LengthOutOfBounds)
    } else if at + n > bytes.len() {
        Err(WireError::ShortBuffer)
    } else {
        Ok((bytes.subrange(at, at + n), at + n))
    }
}

/// The next number of `n` bytes.
pub open spec fn number_at(bytes: Seq<u8>, at: int, n: nat) -> Result<(nat, int), WireError> {
    match take_at(bytes, at, n as int) {
        Err(error) => Err(error),
        Ok((taken, end)) => Ok((octets::le_value(taken), end)),
    }
}

/// The next bytes that follow their length.
pub open spec fn sized_at(bytes: Seq<u8>, at: int) -> Result<(Seq<u8>, int), WireError> {
    match number_at(bytes, at, 4) {
        Err(error) => Err(error),
        Ok((len, start)) => take_at(bytes, start, len as int),
    }
}

/// The next text.
pub open spec fn string_at(bytes: Seq<u8>, at: int) -> Result<(Seq<u8>, int), WireError> {
    match sized_at(bytes, at) {
        Err(error) => Err(error),
        Ok((taken, end)) => if taken.len() > MAX_STRING_LEN {
            Err(WireError::TooLarge)
        } else if !vstd::utf8::valid_utf8(taken) {
            Err(WireError::InvalidUtf8)
        } else {
            Ok((taken, end))
        },
    }
}

/// The next `n` pairs of texts, put into `items` one after the other.
pub open spec fn items_at(bytes: Seq<u8>, at: int, n: nat, items: Items) -> Result<
    (Items, int),
    WireError,
>
    decreases n,
{
    if n == 0 {
        Ok((items, at))
    } else {
        match string_at(bytes, at) {
            Err(error) => Err(error),
            Ok((key, middle)) => match string_at(bytes, middle) {
                Err(error) => Err(error),
                Ok((value, end)) => items_at(
                    bytes,
                    end,
                    (n - 1) as nat,
                    with_item(items, key, value),
                ),
            },
        }
    }
}

pub open spec fn metadata_at(bytes: Seq<u8>, at: int) -> Result<(Items, int), WireError> {
    match number_at(bytes, at, 2) {
        Err(error) => Err(error),
        Ok((count, start)) => if count > MAX_METADATA_ITEMS {
            Err(WireError::CountOutOfBounds)
        } else {
            items_at(bytes, start, count, Seq::empty())
        },
    }
}

pub open spec fn reason_at(bytes: Seq<u8>, at: int) -> Result<(ReasonState, int), WireError> {
    match number_at(bytes, at, 1) {
        Err(error) => Err(error),
        Ok((code, start)) => if code == 0 {
            Ok((ReasonState::LocalClosed, start))
        } else if code == 1 {
            Ok((ReasonState::RemoteClosed, start))
        } else if code == 2 {
            Ok((ReasonState::Reset, start))
        } else {
            match string_at(bytes, start) {
                Err(error) => Err(error),
                Ok((message, end)) => Ok((ReasonState::Error { message }, end)),
            }
        },
    }
}

/// The frame behind the mark.
pub open spec fn body_at(bytes: Seq<u8>, at: int) -> Result<(FrameState, int), WireError> {
    match number_at(bytes, at, 1) {
        Err(error) => Err(error),
        Ok((kind, start)) => if kind == 0 {
            match string_at(bytes, start) {
                Err(error) => Err(error),
                Ok((host, named)) => match number_at(bytes, named, 2) {
                    Err(error) => Err(error),
                    Ok((port, numbered)) => match metadata_at(bytes, numbered) {
                        Err(error) => Err(error),
                        Ok((metadata, end)) => Ok(
                            (
                                FrameState::OpenConnection { host, port: port as u16, metadata },
                                end,
                            ),
                        ),
                    },
                },
            }
        } else if kind == 1 {
            match sized_at(bytes, start) {
                Err(error) => Err(error),
                Ok((taken, end)) => Ok((FrameState::ConnectionBytes { bytes: taken }, end)),
            }
        } else if kind == 2 || kind == 3 {
            match reason_at(bytes, start) {
                Err(error) => Err(error),
                Ok((reason, end)) => if kind == 2 {
                    Ok((FrameState::CloseConnection { reason }, end))
                } else {
                    Ok((FrameState::ResetConnection { reason }, end))
                },
            }
        } else if kind == 4 {
            Ok((FrameState::KeepAlive, start))
        } else {
            Err(WireError::InvalidFrameType(kind as u8))
        },
    }
}

pub open spec fn decode_frame(bytes: Seq<u8>) -> Result<FrameState, WireError> {
    if bytes.len() > MAX_SESSION_FRAME_SIZE {
        Err(WireError::TooLarge)
    } else {
        match take_at(bytes, 0, 4) {
            Err(error) => Err(error),
            Ok((magic, start)) => if magic != frame_magic() {
                Err(WireError::InvalidMagic)
            } else {
                match body_at(bytes, start) {
                    Err(error) => Err(error),
                    Ok((frame, end)) => if end == bytes.len() {
                        Ok(frame)
                    } else {
                        Err(WireError::LengthOutOfBounds)
                    },
                }
            },
        }
    }
}

/// The next `n` channels.
pub open spec fn plan_at(bytes: Seq<u8>, at: int, n: nat) -> Result<(Seq<u64>, int), WireError>
    decreases n,
{
    if n == 0 {
        Ok((Seq::empty(), at))
    } else {
        match plan_at(bytes, at, (n - 1) as nat) {
            Err(error) => Err(error),
            Ok((plan, middle)) => match number_at(bytes, middle, 8) {
                Err(error) => Err(error),
                Ok((channel, end)) => Ok((plan.push(channel as u64), end)),
            },
        }
    }
}

pub open spec fn decode_envelope(bytes: Seq<u8>) -> Result<EnvelopeState, WireError> {
    if bytes.len() > MAX_ENVELOPE_SIZE {
        Err(WireError::TooLarge)
    } else {
        match take_at(bytes, 0, 4) {
            Err(error) => Err(error),
            Ok((magic, start)) => if magic != envelope_magic() {
                Err(WireError::InvalidMagic)
            } else {
                match number_at(bytes, start, 2) {
                    Err(error) => Err(error),
                    Ok((plan_len, counted)) => match number_at(bytes, counted, 4) {
                        Err(error) => Err(error),
                        Ok((payload_len, sized)) => if plan_len > MAX_ROUTE_PLAN_LEN {
                            Err(WireError::CountOutOfBounds)
                        } else {
                            match plan_at(bytes, sized, plan_len) {
                                Err(error) => Err(error),
                                Ok((route_plan, planned)) => match take_at(
                                    bytes,
                                    planned,
                                    payload_len as int,
                                ) {
                                    Err(error) => Err(error),
                                    Ok((payload, end)) => if end == bytes.len() {
                                        Ok(EnvelopeState { route_plan, payload })
                                    } else {
                                        Err(WireError::LengthOutOfBounds)
                                    },
                                },
                            }
                        },
                    },
                }
            },
        }
    }
}

// ---------------------------------------------------------------------------
// Writing
// ---------------------------------------------------------------------------

fn put_bytes(out: &mut Vec<u8>, bytes: &[u8])
    ensures
        final(out)@ == old(out)@ + sized(bytes@),
{
    octets::put_le(out, bytes.len() as u64, 4);
    let ghost before = out@;
    let mut i: usize = 0;
    let n: usize = bytes.len();
    assert(out@ =~= before + bytes@.take(0));
    while i < n
        invariant
            n == bytes@.len(),
            i <= n,
            out@ == before + bytes@.take(i as int),
        decreases n - i,
    {
        out.push(bytes[i]);
        assert(before + bytes@.take(i + 1) =~= (before + bytes@.take(i as int)).push(
            bytes@[i as int],
        ));
        i = i + 1;
    }
    assert(bytes@.take(n as int) =~= bytes@);
    assert(out@ =~= old(out)@ + sized(bytes@));
}

fn put_string(out: &mut Vec<u8>, value: &String) -> (result: Result<(), WireError>)
    ensures
        match result {
            Ok(()) => {
                &&& string_fits(text::utf8(value@))
                &&& final(out)@ == old(out)@ + sized(text::utf8(value@))
            },
            Err(error) => !string_fits(text::utf8(value@)) && error == WireError::TooLarge,
        },
{
    let bytes: &[u8] = value.as_str().as_bytes();
    if bytes.len() > MAX_STRING_LEN {
        return Err(WireError::TooLarge);
    }
    put_bytes(out, bytes);
    Ok(())
}

fn put_metadata(out: &mut Vec<u8>, metadata: &Metadata) -> (result: Result<(), WireError>)
    ensures
        match result {
            Ok(()) => {
                &&& metadata@.len() <= MAX_METADATA_ITEMS
                &&& items_fit(metadata@)
                &&& final(out)@ == old(out)@ + octets::le_bytes(metadata@.len(), 2)
                    + items_bytes(metadata@)
            },
            Err(error) => if metadata@.len() > MAX_METADATA_ITEMS {
                error == WireError::CountOutOfBounds
            } else {
                !items_fit(metadata@) && error == WireError::TooLarge
            },
        },
{
    if metadata.len() > MAX_METADATA_ITEMS {
        return Err(WireError::CountOutOfBounds);
    }
    octets::put_le(out, metadata.len() as u64, 2);
    let ghost items = metadata@;
    let ghost before = out@;
    let mut i: usize = 0;
    assert(items.skip(0) =~= items);
    while i < metadata.items.len()
        invariant
            items == metadata@,
            i <= items.len() <= MAX_METADATA_ITEMS,
            metadata.items@.len() == items.len(),
            out@ + items_bytes(items.skip(i as int)) == before + items_bytes(items),
            forall|j: int|
                0 <= j < i ==> string_fits((#[trigger] items[j]).0) && string_fits(items[j].1),
        decreases items.len() - i,
    {
        let ghost start = out@;
        assert(items[i as int] == (
            text::utf8(metadata.items@[i as int].0@),
            text::utf8(metadata.items@[i as int].1@),
        ));
        if let Err(error) = put_string(out, &metadata.items[i].0) {
            assert(!items_fit(items));
            return Err(error);
        }
        if let Err(error) = put_string(out, &metadata.items[i].1) {
            assert(!items_fit(items));
            return Err(error);
        }
        proof {
            let rest = items.skip(i as int);
            assert(rest.drop_first() =~= items.skip(i + 1));
            assert(rest[0] == items[i as int]);
            assert(out@ + items_bytes(items.skip(i + 1)) =~= start + items_bytes(rest));
        }
        i = i + 1;
    }
    proof {
        assert(items.skip(i as int).len() == 0);
        assert(out@ + items_bytes(items.skip(i as int)) =~= out@);
    }
    Ok(())
}

fn put_close_reason(out: &mut Vec<u8>, reason: &CloseReason) -> (result: Result<(), WireError>)
    ensures
        match result {
            Ok(()) => {
                &&& reason_fits(reason@)
                &&& final(out)@ == old(out)@ + reason_bytes(reason@)
            },
            Err(error) => !reason_fits(reason@) && error == WireError::TooLarge,
        },
{
    match reason {
        CloseReason::LocalClosed => {
            out.push(0);
            assert(out@ =~= old(out)@ + reason_bytes(reason@));
        },
        CloseReason::RemoteClosed => {
            out.push(1);
            assert(out@ =~= old(out)@ + reason_bytes(reason@));
        },
        CloseReason::Reset => {
            out.push(2);
            assert(out@ =~= old(out)@ + reason_bytes(reason@));
        },
        CloseReason::Error(message) => {
            out.push(3);
            if let Err(error) = put_string(out, message) {
                return Err(error);
            }
            assert(out@ =~= old(out)@ + reason_bytes(reason@));
        },
    }
    Ok(())
}

impl Envelope {
    /// The bytes of the envelope. A plan with too many hops and a payload that is too long
    /// are refused.
    pub fn encode(&self) -> (result: Result<Vec<u8>, WireError>)
        ensures
            match result {
                Ok(bytes) => encode_envelope(self@) == Ok::<Seq<u8>, WireError>(bytes@),
                Err(error) => encode_envelope(self@) == Err::<Seq<u8>, WireError>(error),
            },
    {
        if self.route_plan.len() > MAX_ROUTE_PLAN_LEN {
            return Err(WireError::CountOutOfBounds);
        }
        if self.payload.len() > MAX_ENVELOPE_SIZE {
            return Err(WireError::TooLarge);
        }
        let mut out: Vec<u8> = Vec::with_capacity(
            10 + self.route_plan.len() * 8 + self.payload.len(),
        );
        out.push(82);
        out.push(78);
        out.push(69);
        out.push(49);
        assert(out@ =~= envelope_magic());
        octets::put_le(&mut out, self.route_plan.len() as u64, 2);
        octets::put_le(&mut out, self.payload.len() as u64, 4);
        let ghost head = out@;
        let ghost plan = self.route_plan@;
        let mut i: usize = 0;
        assert(plan.take(0).len() == 0);
        assert(out@ =~= head + plan_bytes(plan.take(0)));
        while i < self.route_plan.len()
            invariant
                plan == self.route_plan@,
                i <= plan.len(),
                out@ == head + plan_bytes(plan.take(i as int)),
            decreases plan.len() - i,
        {
            octets::put_le(&mut out, self.route_plan[i], 8);
            proof {
                let longer = plan.take(i + 1);
                assert(longer.drop_last() =~= plan.take(i as int));
                assert(longer.last() == plan[i as int]);
                assert(out@ =~= head + plan_bytes(longer));
            }
            i = i + 1;
        }
        assert(plan.take(i as int) =~= plan);
        out.extend_from_slice(self.payload.as_slice());
        assert(out@ =~= envelope_bytes(self@));
        Ok(out)
    }

    /// The envelope that the bytes hold.
    pub fn decode(bytes: &[u8]) -> (result: Result<Self, WireError>)
        ensures
            match result {
                Ok(envelope) => decode_envelope(bytes@) == Ok::<EnvelopeState, WireError>(
                    envelope@,
                ),
                Err(error) => decode_envelope(bytes@) == Err::<EnvelopeState, WireError>(error),
            },
    {
        if bytes.len() > MAX_ENVELOPE_SIZE {
            return Err(WireError::TooLarge);
        }
        let mut cursor = Cursor { bytes, offset: 0 };
        let magic: Vec<u8> = match cursor.take(4) {
            Ok(magic) => magic,
            Err(error) => return Err(error),
        };
        if !is_magic(&magic, 69) {
            return Err(WireError::InvalidMagic);
        }
        proof {
            octets::lemma_pow256_values();
        }
        let plan_len: u64 = match cursor.number(2) {
            Ok(value) => value,
            Err(error) => return Err(error),
        };
        let payload_len: u64 = match cursor.number(4) {
            Ok(value) => value,
            Err(error) => return Err(error),
        };
        if plan_len > MAX_ROUTE_PLAN_LEN as u64 {
            return Err(WireError::CountOutOfBounds);
        }
        let route_plan: RoutePlan = match cursor.plan(plan_len as usize) {
            Ok(plan) => plan,
            Err(error) => return Err(error),
        };
        let payload: Vec<u8> = match cursor.take(payload_len as usize) {
            Ok(payload) => payload,
            Err(error) => return Err(error),
        };
        if cursor.offset != bytes.len() {
            return Err(WireError::LengthOutOfBounds);
        }
        Ok(Self { route_plan, payload })
    }
}

impl SessionFrame {
    /// The keys of the metadata are in order.
    pub open spec fn wf(&self) -> bool {
        self matches SessionFrame::OpenConnection { metadata, .. } ==> metadata.wf()
    }

    /// The bytes of the frame. Texts, metadata and frames that are too long are refused.
    pub fn encode(&self) -> (result: Result<Vec<u8>, WireError>)
        ensures
            match result {
                Ok(bytes) => encode_frame(self@) == Ok::<Seq<u8>, WireError>(bytes@),
                Err(error) => encode_frame(self@) == Err::<Seq<u8>, WireError>(error),
            },
    {
        let mut out: Vec<u8> = Vec::new();
        out.push(82);
        out.push(78);
        out.push(70);
        out.push(49);
        assert(out@ =~= frame_magic());
        match self {
            SessionFrame::OpenConnection { target, metadata } => {
                out.push(0);
                if let Err(error) = put_string(&mut out, &target.host) {
                    return Err(error);
                }
                octets::put_le(&mut out, target.port as u64, 2);
                if let Err(error) = put_metadata(&mut out, metadata) {
                    return Err(error);
                }
            },
            SessionFrame::ConnectionBytes { bytes } => {
                out.push(1);
                put_bytes(&mut out, bytes.as_slice());
            },
            SessionFrame::CloseConnection { reason } => {
                out.push(2);
                if let Err(error) = put_close_reason(&mut out, reason) {
                    return Err(error);
                }
            },
            SessionFrame::ResetConnection { reason } => {
                out.push(3);
                if let Err(error) = put_close_reason(&mut out, reason) {
                    return Err(error);
                }
            },
            SessionFrame::KeepAlive => {
                out.push(4);
            },
        }
        assert(out@ =~= frame_bytes(self@));
        proof {
            match self@ {
                FrameState::CloseConnection { reason } => lemma_reason_len(reason),
                FrameState::ResetConnection { reason } => lemma_reason_len(reason),
                _ => {},
            }
        }
        if out.len() > MAX_SESSION_FRAME_SIZE {
            return Err(WireError::TooLarge);
        }
        Ok(out)
    }

    /// The frame that the bytes hold.
    pub fn decode(bytes: &[u8]) -> (result: Result<Self, WireError>)
        ensures
            match result {
                Ok(frame) => frame.wf() && decode_frame(bytes@) == Ok::<FrameState, WireError>(
                    frame@,
                ),
                Err(error) => decode_frame(bytes@) == Err::<FrameState, WireError>(error),
            },
    {
        if bytes.len() > MAX_SESSION_FRAME_SIZE {
            return Err(WireError::TooLarge);
        }
        let mut cursor = Cursor { bytes, offset: 0 };
        let magic: Vec<u8> = match cursor.take(4) {
            Ok(magic) => magic,
            Err(error) => return Err(error),
        };
        if !is_magic(&magic, 70) {
            return Err(WireError::InvalidMagic);
        }
        let frame: SessionFrame = match cursor.frame() {
            Ok(frame) => frame,
            Err(error) => return Err(error),
        };
        if cursor.offset != bytes.len() {
            return Err(WireError::LengthOutOfBounds);
        }
        Ok(frame)
    }
}

proof fn lemma_reason_len(reason: ReasonState)
    requires
        reason_fits(reason),
    ensures
        reason_bytes(reason).len() <= 5 + MAX_STRING_LEN,
{
    if let ReasonState::Error { message } = reason {
        octets::lemma_le_bytes_len(message.len(), 4);
    }
}

// ---------------------------------------------------------------------------
// Reading
// ---------------------------------------------------------------------------

/// Whether the bytes are the mark with `kind` as its third letter.
fn is_magic(bytes: &Vec<u8>, kind: u8) -> (yes: bool)
    requires
        bytes@.len() == 4,
    ensures
        yes == (bytes@ == seq![82u8, 78u8, kind, 49u8]),
{
    let yes: bool = bytes[0] == 82 && bytes[1] == 78 && bytes[2] == kind && bytes[3] == 49;
    assert(yes ==> bytes@ =~= seq![82u8, 78u8, kind, 49u8]);
    yes
}

/// A place in the bytes.
struct Cursor<'a> {
    bytes: &'a [u8],
    offset: usize,
}

impl<'a> Cursor<'a> {
    spec fn inside(&self) -> bool {
        self.offset <= self.bytes@.len()
    }

    fn take(&mut self, len: usize) -> (result: Result<Vec<u8>, WireError>)
        requires
            old(self).inside(),
        ensures
            final(self).inside(),
            final(self).bytes == old(self).bytes,
            match result {
                Ok(taken) => take_at(old(self).bytes@, old(self).offset as int, len as int) == Ok::<
                    (Seq<u8>, int),
                    WireError,
                >((taken@, final(self).offset as int)),
                Err(error) => take_at(old(self).bytes@, old(self).offset as int, len as int)
                    == Err::<(Seq<u8>, int), WireError>(error),
            },
    {
        let end: usize = match self.offset.checked_add(len) {
            Some(end) => end,
            None => return Err(WireError::LengthOutOfBounds),
        };
        if end > self.bytes.len() {
            return Err(WireError::ShortBuffer);
        }
        let taken: Vec<u8> = octets::copy_range(self.bytes, self.offset, end);
        self.offset = end;
        Ok(taken)
    }

    fn number(&mut self, len: usize) -> (result: Result<u64, WireError>)
        requires
            old(self).inside(),
            len <= 8,
        ensures
            final(self).inside(),
            final(self).bytes == old(self).bytes,
            match result {
                Ok(value) => {
                    &&& (value as nat) < octets::pow256(len as nat)
                    &&& number_at(old(self).bytes@, old(self).offset as int, len as nat) == Ok::<
                        (nat, int),
                        WireError,
                    >((value as nat, final(self).offset as int))
                },
                Err(error) => number_at(old(self).bytes@, old(self).offset as int, len as nat)
                    == Err::<(nat, int), WireError>(error),
            },
    {
        match self.take(len) {
            Ok(taken) => {
                let value: u64 = octets::get_le(taken.as_slice(), 0, len);
                assert(taken@.subrange(0, len as int) =~= taken@);
                Ok(value)
            },
            Err(error) => Err(error),
        }
    }

    fn plan(&mut self, len: usize) -> (result: Result<RoutePlan, WireError>)
        requires
            old(self).inside(),
        ensures
            final(self).inside(),
            final(self).bytes == old(self).bytes,
            match result {
                Ok(plan) => plan_at(old(self).bytes@, old(self).offset as int, len as nat) == Ok::<
                    (Seq<u64>, int),
                    WireError,
                >((plan@, final(self).offset as int)),
                Err(error) => plan_at(old(self).bytes@, old(self).offset as int, len as nat)
                    == Err::<(Seq<u64>, int), WireError>(error),
            },
    {
        let mut plan: RoutePlan = Vec::new();
        let mut i: usize = 0;
        let ghost start = self.offset as int;
        let ghost all = self.bytes@;
        while i < len
            invariant
                i <= len,
                self.inside(),
                self.bytes == old(self).bytes,
                all == self.bytes@,
                start == old(self).offset,
                plan_at(all, start, i as nat) == Ok::<(Seq<u64>, int), WireError>(
                    (plan@, self.offset as int),
                ),
            decreases len - i,
        {
            match self.number(8) {
                Ok(channel) => {
                    plan.push(channel);
                },
                Err(error) => {
                    proof {
                        lemma_plan_fails(all, start, (i + 1) as nat, len as nat);
                    }
                    return Err(error);
                },
            }
            i = i + 1;
        }
        Ok(plan)
    }

    fn sized(&mut self) -> (result: Result<Vec<u8>, WireError>)
        requires
            old(self).inside(),
        ensures
            final(self).inside(),
            final(self).bytes == old(self).bytes,
            match result {
                Ok(taken) => sized_at(old(self).bytes@, old(self).offset as int) == Ok::<
                    (Seq<u8>, int),
                    WireError,
                >((taken@, final(self).offset as int)),
                Err(error) => sized_at(old(self).bytes@, old(self).offset as int) == Err::<
                    (Seq<u8>, int),
                    WireError,
                >(error),
            },
    {
        proof {
            octets::lemma_pow256_values();
        }
        match self.number(4) {
            Ok(len) => self.take(len as usize),
            Err(error) => Err(error),
        }
    }

    fn string(&mut self) -> (result: Result<String, WireError>)
        requires
            old(self).inside(),
        ensures
            final(self).inside(),
            final(self).bytes == old(self).bytes,
            match result {
                Ok(value) => string_at(old(self).bytes@, old(self).offset as int) == Ok::<
                    (Seq<u8>, int),
                    WireError,
                >((text::utf8(value@), final(self).offset as int)),
                Err(error) => string_at(old(self).bytes@, old(self).offset as int) == Err::<
                    (Seq<u8>, int),
                    WireError,
                >(error),
            },
    {
        match self.sized() {
            Ok(bytes) => {
                if bytes.len() > MAX_STRING_LEN {
                    return Err(WireError::TooLarge);
                }
                match text::from_utf8(bytes) {
                    Some(value) => Ok(value),
                    None => Err(WireError::InvalidUtf8),
                }
            },
            Err(error) => Err(error),
        }
    }

    fn metadata(&mut self) -> (result: Result<Metadata, WireError>)
        requires
            old(self).inside(),
        ensures
            final(self).inside(),
            final(self).bytes == old(self).bytes,
            match result {
                Ok(metadata) => {
                    &&& metadata.wf()
                    &&& metadata_at(old(self).bytes@, old(self).offset as int) == Ok::<
                        (Items, int),
                        WireError,
                    >((metadata@, final(self).offset as int))
                },
                Err(error) => metadata_at(old(self).bytes@, old(self).offset as int) == Err::<
                    (Items, int),
                    WireError,
                >(error),
            },
    {
        let count: u64 = match self.number(2) {
            Ok(count) => count,
            Err(error) => return Err(error),
        };
        if count > MAX_METADATA_ITEMS as u64 {
            return Err(WireError::CountOutOfBounds);
        }
        let ghost whole = metadata_at(old(self).bytes@, old(self).offset as int);
        let ghost all = self.bytes@;
        let mut metadata: Metadata = Metadata::new();
        let mut left: u64 = count;
        while left > 0
            invariant
                self.inside(),
                self.bytes == old(self).bytes,
                all == self.bytes@,
                metadata.wf(),
                whole == metadata_at(old(self).bytes@, old(self).offset as int),
                whole == items_at(all, self.offset as int, left as nat, metadata@),
            decreases left,
        {
            let key: String = match self.string() {
                Ok(key) => key,
                Err(error) => return Err(error),
            };
            let value: String = match self.string() {
                Ok(value) => value,
                Err(error) => return Err(error),
            };
            metadata.insert(key, value);
            left = left - 1;
        }
        Ok(metadata)
    }

    fn close_reason(&mut self) -> (result: Result<CloseReason, WireError>)
        requires
            old(self).inside(),
        ensures
            final(self).inside(),
            final(self).bytes == old(self).bytes,
            match result {
                Ok(reason) => reason_at(old(self).bytes@, old(self).offset as int) == Ok::<
                    (ReasonState, int),
                    WireError,
                >((reason@, final(self).offset as int)),
                Err(error) => reason_at(old(self).bytes@, old(self).offset as int) == Err::<
                    (ReasonState, int),
                    WireError,
                >(error),
            },
    {
        let code: u64 = match self.number(1) {
            Ok(code) => code,
            Err(error) => return Err(error),
        };
        if code == 0 {
            Ok(CloseReason::LocalClosed)
        } else if code == 1 {
            Ok(CloseReason::RemoteClosed)
        } else if code == 2 {
            Ok(CloseReason::Reset)
        } else {
            match self.string() {
                Ok(message) => Ok(CloseReason::Error(message)),
                Err(error) => Err(error),
            }
        }
    }

    fn frame(&mut self) -> (result: Result<SessionFrame, WireError>)
        requires
            old(self).inside(),
        ensures
            final(self).inside(),
            final(self).bytes == old(self).bytes,
            match result {
                Ok(frame) => {
                    &&& frame.wf()
                    &&& body_at(old(self).bytes@, old(self).offset as int) == Ok::<
                        (FrameState, int),
                        WireError,
                    >((frame@, final(self).offset as int))
                },
                Err(error) => body_at(old(self).bytes@, old(self).offset as int) == Err::<
                    (FrameState, int),
                    WireError,
                >(error),
            },
    {
        proof {
            octets::lemma_pow256_values();
        }
        let kind: u64 = match self.number(1) {
            Ok(kind) => kind,
            Err(error) => return Err(error),
        };
        if kind == 0 {
            let host: String = match self.string() {
                Ok(host) => host,
                Err(error) => return Err(error),
            };
            let port: u64 = match self.number(2) {
                Ok(port) => port,
                Err(error) => return Err(error),
            };
            match self.metadata() {
                Ok(metadata) => Ok(
                    SessionFrame::OpenConnection {
                        target: Target { host, port: port as u16 },
                        metadata,
                    },
                ),
                Err(error) => Err(error),
            }
        } else if kind == 1 {
            match self.sized() {
                Ok(bytes) => Ok(SessionFrame::ConnectionBytes { bytes }),
                Err(error) => Err(error),
            }
        } else if kind == 2 {
            match self.close_reason() {
                Ok(reason) => Ok(SessionFrame::CloseConnection { reason }),
                Err(error) => Err(error),
            }
        } else if kind == 3 {
            match self.close_reason() {
                Ok(reason) => Ok(SessionFrame::ResetConnection { reason }),
                Err(error) => Err(error),
            }
        } else if kind == 4 {
            Ok(SessionFrame::KeepAlive)
        } else {
            Err(WireError::InvalidFrameType(kind as u8))
        }
    }
}

/// A plan that cannot be read up to `n` cannot be read further.
proof fn lemma_plan_fails(bytes: Seq<u8>, at: int, n: nat, m: nat)
    requires
        n <= m,
        plan_at(bytes, at, n) is Err,
    ensures
        plan_at(bytes, at, m) == plan_at(bytes, at, n),
    decreases m,
{
    if n < m {
        lemma_plan_fails(bytes, at, n, (m - 1) as nat);
    }
}

// ---------------------------------------------------------------------------
// What is read is what was written
// ---------------------------------------------------------------------------

proof fn lemma_take(pre: Seq<u8>, taken: Seq<u8>, post: Seq<u8>)
    requires
        pre.len() + taken.len() <= 65536,
    ensures
        take_at(pre + taken + post, pre.len() as int, taken.len() as int) == Ok::<
            (Seq<u8>, int),
            WireError,
        >((taken, (pre.len() + taken.len()) as int)),
{
    let all = pre + taken + post;
    assert(all.subrange(pre.len() as int, (pre.len() + taken.len()) as int) =~= taken);
}

proof fn lemma_number(pre: Seq<u8>, value: nat, n: nat, post: Seq<u8>)
    requires
        pre.len() + n <= 65536,
        value < octets::pow256(n),
    ensures
        number_at(pre + octets::le_bytes(value, n) + post, pre.len() as int, n) == Ok::<
            (nat, int),
            WireError,
        >((value, (pre.len() + n) as int)),
{
    octets::lemma_le_roundtrip(value, n);
    lemma_take(pre, octets::le_bytes(value, n), post);
}

proof fn lemma_sized(pre: Seq<u8>, bytes: Seq<u8>, post: Seq<u8>)
    requires
        pre.len() + sized(bytes).len() <= 65536,
    ensures
        sized(bytes).len() == 4 + bytes.len(),
        sized_at(pre + sized(bytes) + post, pre.len() as int) == Ok::<(Seq<u8>, int), WireError>(
            (bytes, (pre.len() + sized(bytes).len()) as int),
        ),
{
    octets::lemma_pow256_values();
    octets::lemma_le_bytes_len(bytes.len(), 4);
    let head = octets::le_bytes(bytes.len(), 4);
    lemma_number(pre, bytes.len(), 4, bytes + post);
    lemma_take(pre + head, bytes, post);
    assert(pre + sized(bytes) + post =~= pre + head + (bytes + post));
    assert(pre + sized(bytes) + post =~= (pre + head) + bytes + post);
}

proof fn lemma_string(pre: Seq<u8>, bytes: Seq<u8>, post: Seq<u8>)
    requires
        pre.len() + sized(bytes).len() <= 65536,
        string_fits(bytes),
        vstd::utf8::valid_utf8(bytes),
    ensures
        sized(bytes).len() == 4 + bytes.len(),
        string_at(pre + sized(bytes) + post, pre.len() as int) == Ok::<(Seq<u8>, int), WireError>(
            (bytes, (pre.len() + sized(bytes).len()) as int),
        ),
{
    lemma_sized(pre, bytes, post);
}

proof fn lemma_plan(pre: Seq<u8>, plan: Seq<u64>, post: Seq<u8>)
    requires
        pre.len() + 8 * plan.len() <= 65536,
    ensures
        plan_bytes(plan).len() == 8 * plan.len(),
        plan_at(pre + plan_bytes(plan) + post, pre.len() as int, plan.len()) == Ok::<
            (Seq<u64>, int),
            WireError,
        >((plan, (pre.len() + 8 * plan.len()) as int)),
    decreases plan.len(),
{
    if plan.len() == 0 {
        assert(plan =~= Seq::<u64>::empty());
    } else {
        let shorter = plan.drop_last();
        let last = octets::le_bytes(plan.last() as nat, 8);
        octets::lemma_pow256_values();
        octets::lemma_le_bytes_len(plan.last() as nat, 8);
        lemma_plan(pre, shorter, last + post);
        lemma_number(pre + plan_bytes(shorter), plan.last() as nat, 8, post);
        let all = pre + plan_bytes(plan) + post;
        assert(all =~= pre + plan_bytes(shorter) + (last + post));
        assert(all =~= (pre + plan_bytes(shorter)) + last + post);
        assert(shorter.push(plan.last()) =~= plan);
    }
}

/// The texts are valid.
pub open spec fn items_valid(items: Items) -> bool {
    forall|i: int|
        0 <= i < items.len() ==> vstd::utf8::valid_utf8((#[trigger] items[i]).0)
            && vstd::utf8::valid_utf8(items[i].1)
}

proof fn lemma_items(pre: Seq<u8>, items: Items, from: int, post: Seq<u8>)
    requires
        0 <= from <= items.len(),
        items_ordered(items),
        items_valid(items),
        items_fit(items),
        pre.len() + items_bytes(items.skip(from)).len() <= 65536,
    ensures
        items_at(
            pre + items_bytes(items.skip(from)) + post,
            pre.len() as int,
            (items.len() - from) as nat,
            items.take(from),
        ) == Ok::<(Items, int), WireError>(
            (items, (pre.len() + items_bytes(items.skip(from)).len()) as int),
        ),
    decreases items.len() - from,
{
    let rest = items.skip(from);
    if from == items.len() {
        assert(items.take(from) =~= items);
    } else {
        let (key, value) = items[from];
        let next = items.skip(from + 1);
        assert(rest.drop_first() =~= next);
        assert(rest[0] == items[from]);
        let all = pre + items_bytes(rest) + post;
        assert(all =~= pre + sized(key) + (sized(value) + items_bytes(next) + post));
        assert(all =~= (pre + sized(key)) + sized(value) + (items_bytes(next) + post));
        assert(all =~= (pre + sized(key) + sized(value)) + items_bytes(next) + post);
        lemma_string(pre, key, sized(value) + items_bytes(next) + post);
        lemma_string(pre + sized(key), value, items_bytes(next) + post);
        let before = items.take(from);
        assert forall|i: int, j: int| 0 <= i < j < before.len() implies text::bytes_less(
            (#[trigger] before[i]).0,
            (#[trigger] before[j]).0,
        ) by {
            assert(before[i] == items[i] && before[j] == items[j]);
        }
        assert forall|i: int| 0 <= i < from implies text::bytes_less(
            (#[trigger] before[i]).0,
            key,
        ) by {
            assert(before[i] == items[i]);
        }
        lemma_with_item_at(before, key, value, from);
        assert(before.insert(from, (key, value)) =~= items.take(from + 1));
        lemma_items(pre + sized(key) + sized(value), items, from + 1, post);
    }
}

proof fn lemma_reason(pre: Seq<u8>, reason: ReasonState, post: Seq<u8>)
    requires
        pre.len() + reason_bytes(reason).len() <= 65536,
        reason_fits(reason),
        reason matches ReasonState::Error { message } ==> vstd::utf8::valid_utf8(message),
    ensures
        reason_at(pre + reason_bytes(reason) + post, pre.len() as int) == Ok::<
            (ReasonState, int),
            WireError,
        >((reason, (pre.len() + reason_bytes(reason).len()) as int)),
{
    octets::lemma_pow256_values();
    let all = pre + reason_bytes(reason) + post;
    let code: nat = match reason {
        ReasonState::LocalClosed => 0,
        ReasonState::RemoteClosed => 1,
        ReasonState::Reset => 2,
        ReasonState::Error { .. } => 3,
    };
    lemma_one_byte(code);
    match reason {
        ReasonState::Error { message } => {
            lemma_number(pre, code, 1, sized(message) + post);
            assert(all =~= pre + octets::le_bytes(code, 1) + (sized(message) + post));
            assert(all =~= (pre + seq![3u8]) + sized(message) + post);
            lemma_string(pre + seq![3u8], message, post);
        },
        _ => {
            lemma_number(pre, code, 1, post);
            assert(all =~= pre + octets::le_bytes(code, 1) + post);
        },
    }
}

proof fn lemma_one_byte(value: nat)
    requires
        value < 256,
    ensures
        octets::le_bytes(value, 1) == seq![value as u8],
{
    assert(octets::le_bytes(value / 256, 0) =~= Seq::<u8>::empty());
    assert(octets::le_bytes(value, 1) =~= seq![value as u8]);
}

/// An envelope that fits is read back as it was written.
pub proof fn law_hop_envelope_roundtrip(envelope: EnvelopeState)
    requires
        envelope.route_plan.len() <= MAX_ROUTE_PLAN_LEN,
        10 + 8 * envelope.route_plan.len() + envelope.payload.len() <= MAX_ENVELOPE_SIZE,
    ensures
        encode_envelope(envelope) is Ok,
        decode_envelope(encode_envelope(envelope)->Ok_0) == Ok::<EnvelopeState, WireError>(
            envelope,
        ),
{
    octets::lemma_pow256_values();
    let plan = envelope.route_plan;
    let payload = envelope.payload;
    let all = envelope_bytes(envelope);
    let magic = envelope_magic();
    let first = octets::le_bytes(plan.len(), 2);
    let second = octets::le_bytes(payload.len(), 4);
    let none = Seq::<u8>::empty();
    octets::lemma_le_bytes_len(plan.len(), 2);
    octets::lemma_le_bytes_len(payload.len(), 4);
    lemma_take(none, magic, first + second + plan_bytes(plan) + payload);
    assert(all =~= none + magic + (first + second + plan_bytes(plan) + payload));
    lemma_number(magic, plan.len(), 2, second + plan_bytes(plan) + payload);
    assert(all =~= magic + first + (second + plan_bytes(plan) + payload));
    lemma_number(magic + first, payload.len(), 4, plan_bytes(plan) + payload);
    assert(all =~= (magic + first) + second + (plan_bytes(plan) + payload));
    lemma_plan(magic + first + second, plan, payload);
    assert(all =~= (magic + first + second) + plan_bytes(plan) + payload);
    lemma_take(magic + first + second + plan_bytes(plan), payload, none);
    assert(all =~= (magic + first + second + plan_bytes(plan)) + payload + none);
}

/// A plan is written as it was read.
proof fn lemma_plan_back(bytes: Seq<u8>, at: int, n: nat)
    requires
        0 <= at <= bytes.len(),
        plan_at(bytes, at, n) is Ok,
    ensures
        ({
            let (plan, end) = plan_at(bytes, at, n)->Ok_0;
            &&& plan.len() == n
            &&& end == at + 8 * n
            &&& end <= bytes.len()
            &&& plan_bytes(plan) == bytes.subrange(at, end)
        }),
    decreases n,
{
    let (plan, end) = plan_at(bytes, at, n)->Ok_0;
    if n == 0 {
        assert(plan_bytes(plan) =~= bytes.subrange(at, at));
    } else {
        lemma_plan_back(bytes, at, (n - 1) as nat);
        let (shorter, middle) = plan_at(bytes, at, (n - 1) as nat)->Ok_0;
        octets::lemma_pow256_values();
        octets::lemma_le_value_roundtrip(bytes.subrange(middle, middle + 8));
        assert(plan.drop_last() =~= shorter);
        assert(bytes.subrange(at, middle) + bytes.subrange(middle, end) =~= bytes.subrange(
            at,
            end,
        ));
    }
}

/// An envelope has one form alone: what can be read is written as the same bytes.
pub proof fn law_hop_envelope_has_one_form(bytes: Seq<u8>)
    requires
        decode_envelope(bytes) is Ok,
    ensures
        encode_envelope(decode_envelope(bytes)->Ok_0) == Ok::<Seq<u8>, WireError>(bytes),
{
    let e = decode_envelope(bytes)->Ok_0;
    octets::lemma_pow256_values();
    octets::lemma_le_value_roundtrip(bytes.subrange(4, 6));
    octets::lemma_le_value_roundtrip(bytes.subrange(6, 10));
    let n = octets::le_value(bytes.subrange(4, 6));
    lemma_plan_back(bytes, 10, n);
    let planned = 10 + 8 * n;
    assert(bytes.subrange(0, 4) == envelope_magic());
    assert(e.payload == bytes.subrange(planned as int, bytes.len() as int));
    assert(bytes.subrange(0, 4) + bytes.subrange(4, 6) + bytes.subrange(6, 10) + bytes.subrange(
        10,
        planned as int,
    ) + e.payload =~= bytes);
    assert(envelope_bytes(e) == bytes);
}

/// A frame that can be written is read back as it was written.
pub proof fn law_session_frame_roundtrip(frame: SessionFrame)
    requires
        frame.wf(),
        encode_frame(frame@) is Ok,
    ensures
        decode_frame(encode_frame(frame@)->Ok_0) == Ok::<FrameState, WireError>(frame@),
{
    octets::lemma_pow256_values();
    let f = frame@;
    let all = frame_bytes(f);
    let magic = frame_magic();
    let none = Seq::<u8>::empty();
    lemma_take(none, magic, frame_body(f));
    assert(all =~= none + magic + frame_body(f));
    match frame {
        SessionFrame::OpenConnection { target, metadata } => {
            lemma_one_byte(0);
            let host = text::utf8(target.host@);
            let items = metadata@;
            let port = octets::le_bytes(target.port as nat, 2);
            let count = octets::le_bytes(items.len(), 2);
            vstd::utf8::encode_utf8_valid_utf8(target.host@);
            lemma_metadata_valid(metadata);
            octets::lemma_le_bytes_len(target.port as nat, 2);
            octets::lemma_le_bytes_len(items.len(), 2);
            let head = magic + seq![0u8];
            lemma_number(magic, 0, 1, sized(host) + port + count + items_bytes(items));
            assert(all =~= magic + octets::le_bytes(0, 1) + (sized(host) + port + count
                + items_bytes(items)));
            lemma_string(head, host, port + count + items_bytes(items));
            assert(all =~= head + sized(host) + (port + count + items_bytes(items)));
            lemma_number(head + sized(host), target.port as nat, 2, count + items_bytes(items));
            assert(all =~= (head + sized(host)) + port + (count + items_bytes(items)));
            lemma_number(head + sized(host) + port, items.len(), 2, items_bytes(items));
            assert(all =~= (head + sized(host) + port) + count + items_bytes(items));
            assert(items.skip(0) =~= items);
            assert(items.take(0) =~= Seq::<(Seq<u8>, Seq<u8>)>::empty());
            lemma_items(head + sized(host) + port + count, items, 0, none);
            assert(all =~= (head + sized(host) + port + count) + items_bytes(items) + none);
        },
        SessionFrame::ConnectionBytes { bytes } => {
            lemma_one_byte(1);
            lemma_number(magic, 1, 1, sized(bytes@));
            assert(all =~= magic + octets::le_bytes(1, 1) + sized(bytes@));
            lemma_sized(magic + seq![1u8], bytes@, none);
            assert(all =~= (magic + seq![1u8]) + sized(bytes@) + none);
        },
        SessionFrame::CloseConnection { reason } => {
            lemma_one_byte(2);
            lemma_reason_valid(reason);
            lemma_reason_len(reason@);
            lemma_number(magic, 2, 1, reason_bytes(reason@));
            assert(all =~= magic + octets::le_bytes(2, 1) + reason_bytes(reason@));
            lemma_reason(magic + seq![2u8], reason@, none);
            assert(all =~= (magic + seq![2u8]) + reason_bytes(reason@) + none);
        },
        SessionFrame::ResetConnection { reason } => {
            lemma_one_byte(3);
            lemma_reason_valid(reason);
            lemma_reason_len(reason@);
            lemma_number(magic, 3, 1, reason_bytes(reason@));
            assert(all =~= magic + octets::le_bytes(3, 1) + reason_bytes(reason@));
            lemma_reason(magic + seq![3u8], reason@, none);
            assert(all =~= (magic + seq![3u8]) + reason_bytes(reason@) + none);
        },
        SessionFrame::KeepAlive => {
            lemma_one_byte(4);
            lemma_number(magic, 4, 1, none);
            assert(all =~= magic + octets::le_bytes(4, 1) + none);
        },
    }
}

/// Readers do not look behind what they read.
proof fn lemma_take_more(bytes: Seq<u8>, tail: Seq<u8>, at: int, n: int)
    requires
        0 <= at,
        0 <= n,
        take_at(bytes, at, n) is Ok,
    ensures
        take_at(bytes + tail, at, n) == take_at(bytes, at, n),
{
    assert((bytes + tail).subrange(at, at + n) =~= bytes.subrange(at, at + n));
}

proof fn lemma_sized_more(bytes: Seq<u8>, tail: Seq<u8>, at: int)
    requires
        0 <= at,
        sized_at(bytes, at) is Ok,
    ensures
        sized_at(bytes + tail, at) == sized_at(bytes, at),
        ({
            let (_, end) = sized_at(bytes, at)->Ok_0;
            at <= end
        }),
{
    lemma_take_more(bytes, tail, at, 4);
    let (len, start) = number_at(bytes, at, 4)->Ok_0;
    lemma_take_more(bytes, tail, start, len as int);
}

proof fn lemma_items_more(bytes: Seq<u8>, tail: Seq<u8>, at: int, n: nat, items: Items)
    requires
        0 <= at,
        items_at(bytes, at, n, items) is Ok,
    ensures
        items_at(bytes + tail, at, n, items) == items_at(bytes, at, n, items),
    decreases n,
{
    if n > 0 {
        lemma_sized_more(bytes, tail, at);
        let (key, middle) = string_at(bytes, at)->Ok_0;
        lemma_sized_more(bytes, tail, middle);
        let (value, end) = string_at(bytes, middle)->Ok_0;
        lemma_items_more(bytes, tail, end, (n - 1) as nat, with_item(items, key, value));
    }
}

proof fn lemma_body_more(bytes: Seq<u8>, tail: Seq<u8>, at: int)
    requires
        0 <= at,
        body_at(bytes, at) is Ok,
    ensures
        body_at(bytes + tail, at) == body_at(bytes, at),
{
    lemma_take_more(bytes, tail, at, 1);
    let (kind, start) = number_at(bytes, at, 1)->Ok_0;
    if kind == 0 {
        lemma_sized_more(bytes, tail, start);
        let (host, named) = string_at(bytes, start)->Ok_0;
        lemma_take_more(bytes, tail, named, 2);
        let (port, numbered) = number_at(bytes, named, 2)->Ok_0;
        lemma_take_more(bytes, tail, numbered, 2);
        let (count, first) = number_at(bytes, numbered, 2)->Ok_0;
        lemma_items_more(bytes, tail, first, count, Seq::empty());
    } else if kind == 1 {
        lemma_sized_more(bytes, tail, start);
    } else if kind == 2 || kind == 3 {
        lemma_take_more(bytes, tail, start, 1);
        let (code, behind) = number_at(bytes, start, 1)->Ok_0;
        if code > 2 {
            lemma_sized_more(bytes, tail, behind);
        }
    }
}

/// What is read as a frame cannot be read with anything behind it.
proof fn lemma_frame_ends(bytes: Seq<u8>, tail: Seq<u8>)
    requires
        decode_frame(bytes) is Ok,
        tail.len() > 0,
    ensures
        decode_frame(bytes + tail) is Err,
{
    lemma_take_more(bytes, tail, 0, 4);
    lemma_body_more(bytes, tail, 4);
}

/// A frame that can be written is read back as it was written, and only as a whole: what
/// stops before its end is refused, and so is what goes on behind it.
pub proof fn law_session_frame_is_whole(frame: SessionFrame, len: int, tail: Seq<u8>)
    requires
        frame.wf(),
        encode_frame(frame@) is Ok,
        0 <= len < encode_frame(frame@)->Ok_0.len(),
        tail.len() > 0,
    ensures
        decode_frame(encode_frame(frame@)->Ok_0) == Ok::<FrameState, WireError>(frame@),
        decode_frame(encode_frame(frame@)->Ok_0.take(len)) is Err,
        decode_frame(encode_frame(frame@)->Ok_0 + tail) is Err,
{
    let bytes = encode_frame(frame@)->Ok_0;
    law_session_frame_roundtrip(frame);
    lemma_frame_ends(bytes, tail);
    if decode_frame(bytes.take(len)) is Ok {
        assert(bytes.take(len) + bytes.skip(len) =~= bytes);
        lemma_frame_ends(bytes.take(len), bytes.skip(len));
    }
}

proof fn lemma_reason_valid(reason: CloseReason)
    ensures
        reason@ matches ReasonState::Error { message } ==> vstd::utf8::valid_utf8(message),
{
    if let CloseReason::Error(message) = reason {
        vstd::utf8::encode_utf8_valid_utf8(message@);
    }
}

proof fn lemma_metadata_valid(metadata: Metadata)
    ensures
        items_valid(metadata@),
{
    assert forall|i: int| 0 <= i < metadata@.len() implies vstd::utf8::valid_utf8(
        (#[trigger] metadata@[i]).0,
    ) && vstd::utf8::valid_utf8(metadata@[i].1) by {
        vstd::utf8::encode_utf8_valid_utf8(metadata.items@[i].0@);
        vstd::utf8::encode_utf8_valid_utf8(metadata.items@[i].1@);
    }
}

} // verus!
