//! The transport boundary of the rank-local collectives.
//!
//! A transport owns both the ordered collective control path and the tagged
//! point-to-point rails. Its contract promises no success: it says which rank
//! the transport serves, and that each call is entered in its log with the
//! reply that came back.

use crate::chars::{trim_chars, trimmed, chars_of};
use crate::math::saturate_u64;
use crate::rank::network::session::rail_of_tag;
use crate::rank::network::{ExchangeOptions, NetworkError, NetworkFailure};
use crate::rank::protocol::{ElementType, Frame, Opcode, ANY_RANK};
use crate::rank::script::{TransportCall, TransportEvent, TransportReply};
use crate::rank::topology::parse::{Variable, VariableModel};
use crate::rank::CollectiveTransport;
use crate::text::{decimal, push_decimal};
use vstd::prelude::*;
use vstd::string::*;

verus! {

/// Where a transport stands: its rank, the world, the kind of transport and
/// the number of point-to-point rails.
#[derive(Debug, Clone, Copy, PartialEq, Eq, Structural)]
pub struct RankPlace {
    pub rank: u32,
    pub world_size: u32,
    pub transport: CollectiveTransport,
    pub rails: usize,
}

pub open spec fn finished(result: Result<(), NetworkError>) -> TransportReply {
    match result {
        Ok(()) => TransportReply::Finished,
        Err(error) => TransportReply::Failed(error@),
    }
}

pub open spec fn delivered(result: Result<Frame, NetworkError>) -> TransportReply {
    match result {
        Ok(frame) => TransportReply::Delivered(frame@),
        Err(error) => TransportReply::Failed(error@),
    }
}

pub open spec fn elapsed(result: Result<u128, NetworkError>) -> TransportReply {
    match result {
        Ok(time) => TransportReply::Elapsed(time),
        Err(error) => TransportReply::Failed(error@),
    }
}

/// The rail that a tag uses where none is named.
pub open spec fn tag_rail(tag: u64, rails: usize) -> usize {
    (tag as int % rails as int) as usize
}

/// The call of a barrier.
pub open spec fn barrier_call() -> TransportCall {
    TransportCall::Exchange {
        opcode: Opcode::Barrier,
        element_type: ElementType::Untyped,
        options: ExchangeOptions { root_rank: ANY_RANK, element_count: 0, flags: 0, tag: 0 },
        payload: Seq::empty(),
    }
}

/// What a barrier makes of the reply.
pub open spec fn barrier_outcome(reply: TransportReply) -> Result<(), NetworkFailure> {
    match reply.frame() {
        Ok(frame) => if frame.header.opcode != Opcode::Barrier || frame.payload.len() != 0 {
            Err(NetworkFailure::InvalidConfiguration("invalid barrier response"@))
        } else {
            Ok(())
        },
        Err(failure) => Err(failure),
    }
}

pub trait RankTransport: Sized {
    /// Where the transport stands.
    closed spec fn place(&self) -> RankPlace {
        arbitrary()
    }

    /// Every call so far, with its reply.
    closed spec fn log(&self) -> Seq<TransportEvent> {
        arbitrary()
    }

    fn rank(&self) -> (rank: u32)
        ensures
            rank == self.place().rank,
    ;

    fn world_size(&self) -> (world_size: u32)
        ensures
            world_size == self.place().world_size,
    ;

    fn transport(&self) -> (transport: CollectiveTransport)
        ensures
            transport == self.place().transport,
    ;

    fn p2p_rails(&self) -> (rails: usize)
        ensures
            rails == self.place().rails,
    ;

    /// Times are in nanoseconds.
    fn heartbeat(&mut self, timeout_ns: u128) -> (result: Result<u128, NetworkError>)
        ensures
            final(self).place() == old(self).place(),
            final(self).log() == old(self).log().push(
                (TransportEvent {
                    call: TransportCall::Heartbeat(timeout_ns),
                    reply: elapsed(result),
                }),
            ),
    ;

    fn send_on_rail(
        &mut self,
        rail: usize,
        destination: u32,
        tag: u64,
        element_type: ElementType,
        element_count: u64,
        payload: Vec<u8>,
    ) -> (result: Result<(), NetworkError>)
        ensures
            final(self).place() == old(self).place(),
            final(self).log() == old(self).log().push(
                (TransportEvent {
                    call: TransportCall::Send {
                        rail,
                        destination,
                        tag,
                        element_type,
                        element_count,
                        payload: payload@,
                    },
                    reply: finished(result),
                }),
            ),
    ;

    fn receive_on_rail(
        &mut self,
        rail: usize,
        source: Option<u32>,
        tag: u64,
        element_type: ElementType,
        element_count: u64,
    ) -> (result: Result<Frame, NetworkError>)
        ensures
            final(self).place() == old(self).place(),
            final(self).log() == old(self).log().push(
                (TransportEvent {
                    call: TransportCall::Receive { rail, source, tag, element_type, element_count },
                    reply: delivered(result),
                }),
            ),
    ;

    fn exchange_with_options(
        &mut self,
        opcode: Opcode,
        element_type: ElementType,
        options: ExchangeOptions,
        payload: Vec<u8>,
    ) -> (result: Result<Frame, NetworkError>)
        ensures
            final(self).place() == old(self).place(),
            final(self).log() == old(self).log().push(
                (TransportEvent {
                    call: TransportCall::Exchange {
                        opcode,
                        element_type,
                        options,
                        payload: payload@,
                    },
                    reply: delivered(result),
                }),
            ),
    ;

    fn set_timeout(&mut self, timeout_ns: u128) -> (result: Result<(), NetworkError>)
        ensures
            final(self).place() == old(self).place(),
            final(self).log() == old(self).log().push(
                (TransportEvent {
                    call: TransportCall::SetTimeout(timeout_ns),
                    reply: finished(result),
                }),
            ),
    ;

    fn abort(&mut self, message: &str) -> (result: Result<(), NetworkError>)
        ensures
            final(self).place() == old(self).place(),
            final(self).log() == old(self).log().push(
                (TransportEvent {
                    call: TransportCall::Abort(message@),
                    reply: finished(result),
                }),
            ),
    ;

    /// Sends on the rail that the tag selects.
    fn send(
        &mut self,
        destination: u32,
        tag: u64,
        element_type: ElementType,
        element_count: u64,
        payload: Vec<u8>,
    ) -> (result: Result<(), NetworkError>)
        requires
            old(self).place().rails > 0,
        ensures
            final(self).place() == old(self).place(),
            final(self).log() == old(self).log().push(
                (TransportEvent {
                    call: TransportCall::Send {
                        rail: tag_rail(tag, old(self).place().rails),
                        destination,
                        tag,
                        element_type,
                        element_count,
                        payload: payload@,
                    },
                    reply: finished(result),
                }),
            ),
    {
        let rail: usize = rail_of_tag(tag, self.p2p_rails());
        self.send_on_rail(rail, destination, tag, element_type, element_count, payload)
    }

    /// Receives on the rail that the tag selects.
    fn receive(
        &mut self,
        source: Option<u32>,
        tag: u64,
        element_type: ElementType,
        element_count: u64,
    ) -> (result: Result<Frame, NetworkError>)
        requires
            old(self).place().rails > 0,
        ensures
            final(self).place() == old(self).place(),
            final(self).log() == old(self).log().push(
                (TransportEvent {
                    call: TransportCall::Receive {
                        rail: tag_rail(tag, old(self).place().rails),
                        source,
                        tag,
                        element_type,
                        element_count,
                    },
                    reply: delivered(result),
                }),
            ),
    {
        let rail: usize = rail_of_tag(tag, self.p2p_rails());
        self.receive_on_rail(rail, source, tag, element_type, element_count)
    }

    fn exchange(
        &mut self,
        opcode: Opcode,
        element_type: ElementType,
        root_rank: u32,
        element_count: u64,
        payload: Vec<u8>,
    ) -> (result: Result<Frame, NetworkError>)
        ensures
            final(self).place() == old(self).place(),
            final(self).log() == old(self).log().push(
                (TransportEvent {
                    call: TransportCall::Exchange {
                        opcode,
                        element_type,
                        options: ExchangeOptions { root_rank, element_count, flags: 0, tag: 0 },
                        payload: payload@,
                    },
                    reply: delivered(result),
                }),
            ),
    {
        self.exchange_with_options(
            opcode,
            element_type,
            ExchangeOptions::new(root_rank, element_count),
            payload,
        )
    }

    fn barrier(&mut self) -> (result: Result<(), NetworkError>)
        ensures
            final(self).place() == old(self).place(),
            final(self).log().len() == old(self).log().len() + 1,
            final(self).log() == old(self).log().push(
                (TransportEvent { call: barrier_call(), reply: final(self).log().last().reply }),
            ),
            match barrier_outcome(final(self).log().last().reply) {
                Ok(()) => result is Ok,
                Err(failure) => result is Err && result->Err_0@ == failure,
            },
    {
        let response = match self.exchange(
            Opcode::Barrier,
            ElementType::Untyped,
            ANY_RANK,
            0,
            Vec::new(),
        ) {
            Ok(response) => response,
            Err(error) => {
                return Err(error);
            },
        };
        if response.header.opcode != Opcode::Barrier || response.payload.len() != 0 {
            return Err(NetworkError::invalid("invalid barrier response"));
        }
        Ok(())
    }
}

pub const TRANSPORT_TRACE_SCHEMA_VERSION: u16 = 1;

#[derive(Debug, Clone, Copy, PartialEq, Eq, Structural)]
pub enum TransportTraceOperation {
    Heartbeat,
    Send,
    Receive,
    Exchange,
    SetTimeout,
    Abort,
}

/// One traced transport call.
#[derive(Debug, Clone, PartialEq, Eq)]
pub struct TransportTraceEvent {
    pub schema_version: u16,
    pub timestamp_unix_ns: u64,
    pub duration_ns: u64,
    pub rank: u32,
    pub world_size: u32,
    pub transport: CollectiveTransport,
    pub operation: TransportTraceOperation,
    pub opcode: Option<String>,
    pub element_type: Option<String>,
    pub peer_rank: Option<u32>,
    pub rail: Option<usize>,
    pub tag: u64,
    pub element_count: u64,
    pub input_bytes: usize,
    pub output_bytes: usize,
    pub success: bool,
    pub error: Option<String>,
}

/// What a traced call says apart from its times, with its texts as character
/// sequences.
#[verifier::ext_equal]
pub struct TraceModel {
    pub schema_version: u16,
    pub place: RankPlace,
    pub operation: TransportTraceOperation,
    pub opcode: Option<Seq<char>>,
    pub element_type: Option<Seq<char>>,
    pub peer_rank: Option<u32>,
    pub rail: Option<usize>,
    pub tag: u64,
    pub element_count: u64,
    pub input_bytes: nat,
    pub output_bytes: nat,
    pub success: bool,
    pub error: Option<Seq<char>>,
}

pub open spec fn text_option(text: Option<String>) -> Option<Seq<char>> {
    match text {
        Some(text) => Some(text@),
        None => None,
    }
}

impl TransportTraceEvent {
    /// The event says `model` at some time.
    pub open spec fn says(self, model: TraceModel) -> bool {
        &&& self.schema_version == model.schema_version
        &&& self.rank == model.place.rank
        &&& self.world_size == model.place.world_size
        &&& self.transport == model.place.transport
        &&& self.operation == model.operation
        &&& text_option(self.opcode) == model.opcode
        &&& text_option(self.element_type) == model.element_type
        &&& self.peer_rank == model.peer_rank
        &&& self.rail == model.rail
        &&& self.tag == model.tag
        &&& self.element_count == model.element_count
        &&& self.input_bytes == model.input_bytes
        &&& self.output_bytes == model.output_bytes
        &&& self.success == model.success
        &&& text_option(self.error) == model.error
    }
}

pub trait TransportTraceSink: Sized {
    /// What has been recorded.
    closed spec fn recorded(&self) -> Seq<TransportTraceEvent> {
        arbitrary()
    }

    fn record(&mut self, event: TransportTraceEvent)
        ensures
            final(self).recorded() == old(self).recorded().push(event),
    ;
}

/// An opcode's name in traces.
pub open spec fn opcode_label(opcode: Opcode) -> Seq<char> {
    match opcode {
        Opcode::Join => "join"@,
        Opcode::Ready => "ready"@,
        Opcode::Broadcast => "broadcast"@,
        Opcode::AllGather => "all_gather"@,
        Opcode::Gather => "gather"@,
        Opcode::Scatter => "scatter"@,
        Opcode::Reduce => "reduce"@,
        Opcode::AllReduce => "all_reduce"@,
        Opcode::ReduceScatter => "reduce_scatter"@,
        Opcode::AllToAll => "all_to_all"@,
        Opcode::AllToAllV => "all_to_all_v"@,
        Opcode::Barrier => "barrier"@,
        Opcode::Send => "send"@,
        Opcode::Receive => "receive"@,
        Opcode::Abort => "abort"@,
        Opcode::Heartbeat => "heartbeat"@,
        Opcode::Leave => "leave"@,
        Opcode::SetTimeout => "set_timeout"@,
        Opcode::PeerEndpoint => "peer_endpoint"@,
    }
}

pub fn opcode_name(opcode: Opcode) -> (name: &'static str)
    ensures
        name@ == opcode_label(opcode),
{
    match opcode {
        Opcode::Join => "join",
        Opcode::Ready => "ready",
        Opcode::Broadcast => "broadcast",
        Opcode::AllGather => "all_gather",
        Opcode::Gather => "gather",
        Opcode::Scatter => "scatter",
        Opcode::Reduce => "reduce",
        Opcode::AllReduce => "all_reduce",
        Opcode::ReduceScatter => "reduce_scatter",
        Opcode::AllToAll => "all_to_all",
        Opcode::AllToAllV => "all_to_all_v",
        Opcode::Barrier => "barrier",
        Opcode::Send => "send",
        Opcode::Receive => "receive",
        Opcode::Abort => "abort",
        Opcode::Heartbeat => "heartbeat",
        Opcode::Leave => "leave",
        Opcode::SetTimeout => "set_timeout",
        Opcode::PeerEndpoint => "peer_endpoint",
    }
}

/// An element type's name in traces.
pub open spec fn element_type_label(element_type: ElementType) -> Seq<char> {
    match element_type {
        ElementType::Untyped => "none"@,
        ElementType::U8 => "u8"@,
        ElementType::U32 => "u32"@,
        ElementType::I32 => "i32"@,
        ElementType::F32 => "f32"@,
        ElementType::F16 => "f16"@,
        ElementType::BF16 => "bf16"@,
        ElementType::Bool => "bool"@,
        ElementType::I8 => "i8"@,
        ElementType::I16 => "i16"@,
        ElementType::I64 => "i64"@,
        ElementType::F64 => "f64"@,
        ElementType::U16 => "u16"@,
        ElementType::U64 => "u64"@,
        ElementType::Complex64 => "complex64"@,
        ElementType::Complex128 => "complex128"@,
        ElementType::F8E4M3Fn => "f8_e4m3fn"@,
        ElementType::F8E5M2 => "f8_e5m2"@,
        ElementType::F8E4M3Fnuz => "f8_e4m3fnuz"@,
        ElementType::F8E5M2Fnuz => "f8_e5m2fnuz"@,
        ElementType::F8E8M0Fnu => "f8_e8m0fnu"@,
        ElementType::F4E2M1FnX2 => "f4_e2m1fn_x2"@,
    }
}

pub fn element_type_name(element_type: ElementType) -> (name: &'static str)
    ensures
        name@ == element_type_label(element_type),
{
    match element_type {
        ElementType::Untyped => "none",
        ElementType::U8 => "u8",
        ElementType::U32 => "u32",
        ElementType::I32 => "i32",
        ElementType::F32 => "f32",
        ElementType::F16 => "f16",
        ElementType::BF16 => "bf16",
        ElementType::Bool => "bool",
        ElementType::I8 => "i8",
        ElementType::I16 => "i16",
        ElementType::I64 => "i64",
        ElementType::F64 => "f64",
        ElementType::U16 => "u16",
        ElementType::U64 => "u64",
        ElementType::Complex64 => "complex64",
        ElementType::Complex128 => "complex128",
        ElementType::F8E4M3Fn => "f8_e4m3fn",
        ElementType::F8E5M2 => "f8_e5m2",
        ElementType::F8E4M3Fnuz => "f8_e4m3fnuz",
        ElementType::F8E5M2Fnuz => "f8_e5m2fnuz",
        ElementType::F8E8M0Fnu => "f8_e8m0fnu",
        ElementType::F4E2M1FnX2 => "f4_e2m1fn_x2",
    }
}

/// A point in monotonic time, as std gives it.
#[verifier::external_type_specification]
#[verifier::external_body]
pub struct ExInstant(std::time::Instant);

/// `std::time::Instant::now`. Nothing is claimed of the time.
#[verifier::external_body]
fn started() -> (start: std::time::Instant) {
    std::time::Instant::now()
}

/// `std::time::Instant::elapsed`, in nanoseconds. Nothing is claimed of the
/// time.
#[verifier::external_body]
fn passed_ns(start: &std::time::Instant) -> (time: u128) {
    start.elapsed().as_nanos()
}

/// `std::time::SystemTime::elapsed` of the Unix epoch, in nanoseconds; nothing
/// where the clock stands before the epoch. Nothing is claimed of the time.
#[verifier::external_body]
fn unix_time_ns() -> (time: Option<u128>) {
    match std::time::UNIX_EPOCH.elapsed() {
        Ok(time) => Some(time.as_nanos()),
        Err(_) => None,
    }
}

/// A time that does not fit counts as the largest.
pub fn trace_ns(time: u128) -> (ns: u64)
    ensures
        ns == saturate_u64(time as int),
{
    if time > u64::MAX as u128 {
        u64::MAX
    } else {
        time as u64
    }
}

/// What a trace says of a call and its reply.
pub open spec fn traced(place: RankPlace, event: TransportEvent) -> TraceModel {
    let (error, output) = match event.reply {
        TransportReply::Failed(failure) => (Some(failure.message()), 0nat),
        TransportReply::Delivered(frame) => (None, frame.payload.len()),
        _ => (None, 0nat),
    };
    let blank = TraceModel {
        schema_version: TRANSPORT_TRACE_SCHEMA_VERSION,
        place,
        operation: TransportTraceOperation::Abort,
        opcode: None,
        element_type: Some("none"@),
        peer_rank: None,
        rail: None,
        tag: 0,
        element_count: 0,
        input_bytes: 0,
        output_bytes: output,
        success: error is None,
        error,
    };
    match event.call {
        TransportCall::Heartbeat(time) => TraceModel {
            operation: TransportTraceOperation::Heartbeat,
            opcode: Some("heartbeat"@),
            tag: saturate_u64(time as int / 1_000_000) as u64,
            ..blank
        },
        TransportCall::Send { rail, destination, tag, element_type, element_count, payload } =>
        TraceModel {
            operation: TransportTraceOperation::Send,
            opcode: Some("send"@),
            element_type: Some(element_type_label(element_type)),
            peer_rank: Some(destination),
            rail: Some(rail),
            tag,
            element_count,
            input_bytes: payload.len(),
            ..blank
        },
        TransportCall::Receive { rail, source, tag, element_type, element_count } => TraceModel {
            operation: TransportTraceOperation::Receive,
            opcode: Some("receive"@),
            element_type: Some(element_type_label(element_type)),
            peer_rank: source,
            rail: Some(rail),
            tag,
            element_count,
            ..blank
        },
        TransportCall::Exchange { opcode, element_type, options, payload } => TraceModel {
            operation: TransportTraceOperation::Exchange,
            opcode: Some(opcode_label(opcode)),
            element_type: Some(element_type_label(element_type)),
            peer_rank: if options.root_rank != ANY_RANK {
                Some(options.root_rank)
            } else {
                None
            },
            tag: options.tag,
            element_count: options.element_count,
            input_bytes: payload.len(),
            ..blank
        },
        TransportCall::SetTimeout(time) => TraceModel {
            operation: TransportTraceOperation::SetTimeout,
            opcode: Some("set_timeout"@),
            tag: saturate_u64(time as int / 1_000_000) as u64,
            ..blank
        },
        TransportCall::Abort(message) => TraceModel {
            operation: TransportTraceOperation::Abort,
            opcode: Some("abort"@),
            element_type: Some("u8"@),
            element_count: encode_utf8_len(message) as u64,
            input_bytes: encode_utf8_len(message),
            ..blank
        },
    }
}

/// The bytes that a text takes.
pub open spec fn encode_utf8_len(text: Seq<char>) -> nat {
    vstd::utf8::encode_utf8(text).len()
}

/// One more event stands in `after`, and it says `model`.
pub open spec fn noted(
    before: Seq<TransportTraceEvent>,
    after: Seq<TransportTraceEvent>,
    model: TraceModel,
) -> bool {
    &&& after.len() == before.len() + 1
    &&& after.drop_last() == before
    &&& after.last().says(model)
}

/// A transport that records each of its calls.
pub struct TracingRankTransport<T, K> {
    pub inner: T,
    pub sink: K,
}

impl<T, K> TracingRankTransport<T, K> {
    pub fn new(inner: T, sink: K) -> (transport: Self)
        ensures
            transport.inner == inner,
            transport.sink == sink,
    {
        Self { inner, sink }
    }

    pub fn inner(&self) -> (inner: &T)
        ensures
            *inner == self.inner,
    {
        &self.inner
    }
}

/// The fields of one traced call.
pub struct TraceFields {
    pub operation: TransportTraceOperation,
    pub opcode: Opcode,
    pub element_type: ElementType,
    pub peer_rank: Option<u32>,
    pub rail: Option<usize>,
    pub tag: u64,
    pub element_count: u64,
    pub input_bytes: usize,
    pub output_bytes: usize,
    pub error: Option<String>,
}

impl TraceFields {
    pub open spec fn model(self, place: RankPlace) -> TraceModel {
        TraceModel {
            schema_version: TRANSPORT_TRACE_SCHEMA_VERSION,
            place,
            operation: self.operation,
            opcode: Some(opcode_label(self.opcode)),
            element_type: Some(element_type_label(self.element_type)),
            peer_rank: self.peer_rank,
            rail: self.rail,
            tag: self.tag,
            element_count: self.element_count,
            input_bytes: self.input_bytes as nat,
            output_bytes: self.output_bytes as nat,
            success: self.error is None,
            error: text_option(self.error),
        }
    }

    /// The event of a call at a place, at a time and after a time.
    pub fn event(self, place: RankPlace, timestamp_unix_ns: u64, duration_ns: u64) -> (event:
        TransportTraceEvent)
        ensures
            event.says(self.model(place)),
            event.timestamp_unix_ns == timestamp_unix_ns,
            event.duration_ns == duration_ns,
    {
        let success = self.error.is_none();
        TransportTraceEvent {
            schema_version: TRANSPORT_TRACE_SCHEMA_VERSION,
            timestamp_unix_ns,
            duration_ns,
            rank: place.rank,
            world_size: place.world_size,
            transport: place.transport,
            operation: self.operation,
            opcode: Some(String::from_str(opcode_name(self.opcode))),
            element_type: Some(String::from_str(element_type_name(self.element_type))),
            peer_rank: self.peer_rank,
            rail: self.rail,
            tag: self.tag,
            element_count: self.element_count,
            input_bytes: self.input_bytes,
            output_bytes: self.output_bytes,
            success,
            error: self.error,
        }
    }
}

/// The time now: nanoseconds since the Unix epoch, 0 before it.
fn unix_timestamp_ns() -> (time: u64) {
    match unix_time_ns() {
        Some(time) => trace_ns(time),
        None => 0,
    }
}

/// A timeout's milliseconds, as a trace's tag holds them.
fn milliseconds(timeout_ns: u128) -> (ms: u64)
    ensures
        ms == saturate_u64(timeout_ns as int / 1_000_000),
{
    trace_ns(timeout_ns / 1_000_000)
}

/// The text of a call's error.
fn error_text<R>(result: &Result<R, NetworkError>) -> (text: Option<String>)
    ensures
        text_option(text) == (match *result {
            Ok(_) => None,
            Err(error) => Some(error@.message()),
        }),
{
    match result {
        Ok(_) => None,
        Err(error) => Some(error.to_string()),
    }
}

/// The bytes that a call brought.
fn output_bytes(result: &Result<Frame, NetworkError>) -> (bytes: usize)
    ensures
        bytes == (match *result {
            Ok(frame) => frame@.payload.len(),
            Err(_) => 0,
        }),
{
    match result {
        Ok(frame) => frame.payload.len(),
        Err(_) => 0,
    }
}

impl<T: RankTransport, K: TransportTraceSink> TracingRankTransport<T, K> {
    fn record(&mut self, start: std::time::Instant, fields: TraceFields)
        ensures
            final(self).inner == old(self).inner,
            noted(
                old(self).sink.recorded(),
                final(self).sink.recorded(),
                fields.model(old(self).inner.place()),
            ),
    {
        let place = RankPlace {
            rank: self.inner.rank(),
            world_size: self.inner.world_size(),
            transport: self.inner.transport(),
            rails: self.inner.p2p_rails(),
        };
        let event = fields.event(place, unix_timestamp_ns(), trace_ns(passed_ns(&start)));
        let ghost before = self.sink.recorded();
        self.sink.record(event);
        assert(self.sink.recorded().drop_last() =~= before);
    }

    /// One call was made of the inner transport, and one event recorded of it.
    pub open spec fn traced_call(before: &Self, after: &Self) -> bool {
        &&& after.inner.log().len() == before.inner.log().len() + 1
        &&& noted(
            before.sink.recorded(),
            after.sink.recorded(),
            traced(before.inner.place(), after.inner.log().last()),
        )
    }
}

impl<T: RankTransport, K: TransportTraceSink> RankTransport for TracingRankTransport<T, K> {
    open spec fn place(&self) -> RankPlace {
        self.inner.place()
    }

    open spec fn log(&self) -> Seq<TransportEvent> {
        self.inner.log()
    }

    fn rank(&self) -> (rank: u32) {
        self.inner.rank()
    }

    fn world_size(&self) -> (world_size: u32) {
        self.inner.world_size()
    }

    fn transport(&self) -> (transport: CollectiveTransport) {
        self.inner.transport()
    }

    fn p2p_rails(&self) -> (rails: usize) {
        self.inner.p2p_rails()
    }

    fn heartbeat(&mut self, timeout_ns: u128) -> (result: Result<u128, NetworkError>)
        ensures
            TracingRankTransport::traced_call(&*old(self), &*final(self)),
    {
        let start = started();
        let result = self.inner.heartbeat(timeout_ns);
        let fields = TraceFields {
            operation: TransportTraceOperation::Heartbeat,
            opcode: Opcode::Heartbeat,
            element_type: ElementType::Untyped,
            peer_rank: None,
            rail: None,
            tag: milliseconds(timeout_ns),
            element_count: 0,
            input_bytes: 0,
            output_bytes: 0,
            error: error_text(&result),
        };
        assert(fields.model(self.inner.place()) =~= traced(
            self.inner.place(),
            self.inner.log().last(),
        ));
        self.record(start, fields);
        result
    }

    fn send_on_rail(
        &mut self,
        rail: usize,
        destination: u32,
        tag: u64,
        element_type: ElementType,
        element_count: u64,
        payload: Vec<u8>,
    ) -> (result: Result<(), NetworkError>)
        ensures
            TracingRankTransport::traced_call(&*old(self), &*final(self)),
    {
        let input_bytes: usize = payload.len();
        let start = started();
        let result = self.inner.send_on_rail(
            rail,
            destination,
            tag,
            element_type,
            element_count,
            payload,
        );
        let fields = TraceFields {
            operation: TransportTraceOperation::Send,
            opcode: Opcode::Send,
            element_type,
            peer_rank: Some(destination),
            rail: Some(rail),
            tag,
            element_count,
            input_bytes,
            output_bytes: 0,
            error: error_text(&result),
        };
        assert(fields.model(self.inner.place()) =~= traced(
            self.inner.place(),
            self.inner.log().last(),
        ));
        self.record(start, fields);
        result
    }

    fn receive_on_rail(
        &mut self,
        rail: usize,
        source: Option<u32>,
        tag: u64,
        element_type: ElementType,
        element_count: u64,
    ) -> (result: Result<Frame, NetworkError>)
        ensures
            TracingRankTransport::traced_call(&*old(self), &*final(self)),
    {
        let start = started();
        let result = self.inner.receive_on_rail(rail, source, tag, element_type, element_count);
        let fields = TraceFields {
            operation: TransportTraceOperation::Receive,
            opcode: Opcode::Receive,
            element_type,
            peer_rank: source,
            rail: Some(rail),
            tag,
            element_count,
            input_bytes: 0,
            output_bytes: output_bytes(&result),
            error: error_text(&result),
        };
        assert(fields.model(self.inner.place()) =~= traced(
            self.inner.place(),
            self.inner.log().last(),
        ));
        self.record(start, fields);
        result
    }

    fn exchange_with_options(
        &mut self,
        opcode: Opcode,
        element_type: ElementType,
        options: ExchangeOptions,
        payload: Vec<u8>,
    ) -> (result: Result<Frame, NetworkError>)
        ensures
            TracingRankTransport::traced_call(&*old(self), &*final(self)),
    {
        let input_bytes: usize = payload.len();
        let start = started();
        let result = self.inner.exchange_with_options(opcode, element_type, options, payload);
        let peer_rank = if options.root_rank != ANY_RANK {
            Some(options.root_rank)
        } else {
            None
        };
        let fields = TraceFields {
            operation: TransportTraceOperation::Exchange,
            opcode,
            element_type,
            peer_rank,
            rail: None,
            tag: options.tag,
            element_count: options.element_count,
            input_bytes,
            output_bytes: output_bytes(&result),
            error: error_text(&result),
        };
        assert(fields.model(self.inner.place()) =~= traced(
            self.inner.place(),
            self.inner.log().last(),
        ));
        self.record(start, fields);
        result
    }

    fn set_timeout(&mut self, timeout_ns: u128) -> (result: Result<(), NetworkError>)
        ensures
            TracingRankTransport::traced_call(&*old(self), &*final(self)),
    {
        let start = started();
        let result = self.inner.set_timeout(timeout_ns);
        let fields = TraceFields {
            operation: TransportTraceOperation::SetTimeout,
            opcode: Opcode::SetTimeout,
            element_type: ElementType::Untyped,
            peer_rank: None,
            rail: None,
            tag: milliseconds(timeout_ns),
            element_count: 0,
            input_bytes: 0,
            output_bytes: 0,
            error: error_text(&result),
        };
        assert(fields.model(self.inner.place()) =~= traced(
            self.inner.place(),
            self.inner.log().last(),
        ));
        self.record(start, fields);
        result
    }

    fn abort(&mut self, message: &str) -> (result: Result<(), NetworkError>)
        ensures
            TracingRankTransport::traced_call(&*old(self), &*final(self)),
    {
        let start = started();
        let result = self.inner.abort(message);
        let length: usize = message.as_bytes().len();
        let fields = TraceFields {
            operation: TransportTraceOperation::Abort,
            opcode: Opcode::Abort,
            element_type: ElementType::U8,
            peer_rank: None,
            rail: None,
            tag: 0,
            element_count: length as u64,
            input_bytes: length,
            output_bytes: 0,
            error: error_text(&result),
        };
        assert(fields.model(self.inner.place()) =~= traced(
            self.inner.place(),
            self.inner.log().last(),
        ));
        self.record(start, fields);
        result
    }
}

/// The directory that traces go to, if a setting names one.
pub open spec fn trace_setting(value: VariableModel) -> Result<Option<Seq<char>>, NetworkFailure> {
    match value {
        VariableModel::Absent => Ok(None),
        VariableModel::Text(text) => if trimmed(text).len() == 0 {
            Err(
                NetworkFailure::InvalidConfiguration(
                    "GX1_COLLECTIVE_TRACE_DIR must not be empty"@,
                ),
            )
        } else {
            Ok(Some(text))
        },
        VariableModel::NotUnicode(_) => Err(
            NetworkFailure::InvalidConfiguration(
                "GX1_COLLECTIVE_TRACE_DIR is not valid Unicode"@,
            ),
        ),
    }
}

/// The directory that traces go to (`GX1_COLLECTIVE_TRACE_DIR`).
pub fn trace_directory(value: &Variable) -> (result: Result<Option<&str>, NetworkError>)
    ensures
        match trace_setting(value@) {
            Ok(path) => {
                &&& result is Ok
                &&& match result->Ok_0 {
                    Some(found) => path == Some(found@),
                    None => path is None,
                }
            },
            Err(failure) => result is Err && result->Err_0@ == failure,
        },
{
    match value {
        Variable::Absent => Ok(None),
        Variable::Text(text) => {
            let chars = chars_of(text.as_str());
            let kept = trim_chars(chars.as_slice());
            if kept.len() == 0 {
                Err(NetworkError::invalid("GX1_COLLECTIVE_TRACE_DIR must not be empty"))
            } else {
                Ok(Some(text.as_str()))
            }
        },
        Variable::NotUnicode(_) => Err(
            NetworkError::invalid("GX1_COLLECTIVE_TRACE_DIR is not valid Unicode"),
        ),
    }
}

/// The name of a rank's trace file.
pub fn trace_file_name(rank: u32, process: u32, file: u64) -> (name: String)
    ensures
        name@ == "gxcl-rank-"@ + decimal(rank as nat) + "-pid-"@ + decimal(process as nat) + "-"@
            + decimal(file as nat) + ".jsonl"@,
{
    let mut name = String::from_str("gxcl-rank-");
    push_decimal(&mut name, rank as u64);
    name.append("-pid-");
    push_decimal(&mut name, process as u64);
    name.append("-");
    push_decimal(&mut name, file);
    name.append(".jsonl");
    name
}

} // verus!
