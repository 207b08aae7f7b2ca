//! Transports that record their calls.

use ruccl::rank::topology::parse::Variable;
use ruccl::rank::transport::{trace_directory, trace_file_name, trace_ns};
use ruccl::rank::{
    CollectiveTransport, ElementType, ExchangeOptions, Frame, FrameHeader, NetworkError, Opcode,
    RankTransport, TracingRankTransport, TransportTraceEvent, TransportTraceOperation,
    TransportTraceSink, UniqueId, ANY_RANK,
};

/// Answers every receive and exchange with the same bytes, or fails.
struct Echo {
    payload: Vec<u8>,
    broken: bool,
}

impl Echo {
    fn answer(&self, opcode: Opcode) -> Result<Frame, NetworkError> {
        if self.broken {
            return Err(NetworkError::ChannelClosed);
        }
        let header = FrameHeader::collective(
            UniqueId::from_bytes([1; 16]),
            opcode,
            ElementType::U8,
            0,
            ANY_RANK,
            2,
            0,
            self.payload.len() as u64,
        );
        Frame::new(header, self.payload.clone()).map_err(NetworkError::Protocol)
    }

    fn done(&self) -> Result<(), NetworkError> {
        if self.broken {
            Err(NetworkError::ChannelClosed)
        } else {
            Ok(())
        }
    }
}

impl RankTransport for Echo {
    fn rank(&self) -> u32 {
        1
    }

    fn world_size(&self) -> u32 {
        2
    }

    fn transport(&self) -> CollectiveTransport {
        CollectiveTransport::TcpPeer
    }

    fn p2p_rails(&self) -> usize {
        3
    }

    fn heartbeat(&mut self, _timeout_ns: u128) -> Result<u128, NetworkError> {
        self.done().map(|()| 5)
    }

    fn send_on_rail(
        &mut self,
        _rail: usize,
        _destination: u32,
        _tag: u64,
        _element_type: ElementType,
        _element_count: u64,
        _payload: Vec<u8>,
    ) -> Result<(), NetworkError> {
        self.done()
    }

    fn receive_on_rail(
        &mut self,
        _rail: usize,
        _source: Option<u32>,
        _tag: u64,
        _element_type: ElementType,
        _element_count: u64,
    ) -> Result<Frame, NetworkError> {
        self.answer(Opcode::Receive)
    }

    fn exchange_with_options(
        &mut self,
        opcode: Opcode,
        _element_type: ElementType,
        _options: ExchangeOptions,
        _payload: Vec<u8>,
    ) -> Result<Frame, NetworkError> {
        self.answer(opcode)
    }

    fn set_timeout(&mut self, _timeout_ns: u128) -> Result<(), NetworkError> {
        self.done()
    }

    fn abort(&mut self, _message: &str) -> Result<(), NetworkError> {
        self.done()
    }
}

#[derive(Default)]
struct Notes(Vec<TransportTraceEvent>);

impl TransportTraceSink for Notes {
    fn record(&mut self, event: TransportTraceEvent) {
        self.0.push(event);
    }
}

fn traced(broken: bool) -> TracingRankTransport<Echo, Notes> {
    TracingRankTransport::new(Echo { payload: vec![4, 5, 6], broken }, Notes::default())
}

#[test]
fn every_call_is_recorded() {
    let mut transport = traced(false);
    assert_eq!(transport.rank(), 1);
    assert_eq!(transport.p2p_rails(), 3);
    transport.heartbeat(7).unwrap();
    transport.send(0, 8, ElementType::BF16, 1, vec![1, 2]).unwrap();
    let frame = transport.receive(Some(0), 4, ElementType::U8, 3).unwrap();
    assert_eq!(frame.payload, vec![4, 5, 6]);
    transport
        .exchange(Opcode::AllGather, ElementType::U8, ANY_RANK, 1, vec![9])
        .unwrap();
    transport.set_timeout(2_000_000).unwrap();
    transport.abort("over").unwrap();
    let events = &transport.sink.0;
    let operations: Vec<_> = events.iter().map(|event| event.operation).collect();
    assert_eq!(
        operations,
        vec![
            TransportTraceOperation::Heartbeat,
            TransportTraceOperation::Send,
            TransportTraceOperation::Receive,
            TransportTraceOperation::Exchange,
            TransportTraceOperation::SetTimeout,
            TransportTraceOperation::Abort,
        ]
    );
    for event in events {
        assert_eq!(event.schema_version, 1);
        assert_eq!((event.rank, event.world_size), (1, 2));
        assert_eq!(event.transport, CollectiveTransport::TcpPeer);
        assert!(event.success);
        assert_eq!(event.error, None);
        assert!(event.timestamp_unix_ns > 0);
    }
    let send = &events[1];
    assert_eq!(send.opcode.as_deref(), Some("send"));
    assert_eq!(send.element_type.as_deref(), Some("bf16"));
    assert_eq!(send.peer_rank, Some(0));
    assert_eq!(send.rail, Some(2));
    assert_eq!((send.input_bytes, send.output_bytes), (2, 0));
    let receive = &events[2];
    assert_eq!(receive.rail, Some(1));
    assert_eq!((receive.input_bytes, receive.output_bytes), (0, 3));
    let exchange = &events[3];
    assert_eq!(exchange.opcode.as_deref(), Some("all_gather"));
    assert_eq!((exchange.input_bytes, exchange.output_bytes), (1, 3));
}

#[test]
fn failures_are_recorded_with_their_text() {
    let mut transport = traced(true);
    assert!(transport.receive(None, 1, ElementType::U8, 1).is_err());
    assert!(transport.barrier().is_err());
    for event in &transport.sink.0 {
        assert!(!event.success);
        assert_eq!(
            event.error,
            Some(NetworkError::ChannelClosed.to_string())
        );
        assert_eq!(event.output_bytes, 0);
    }
    assert_eq!(transport.sink.0.len(), 2);
    assert!(transport.inner().broken);
}

#[test]
fn trace_files_are_named_by_rank_and_process() {
    assert_eq!(trace_file_name(3, 41, 2), "gxcl-rank-3-pid-41-2.jsonl");
    assert_eq!(trace_directory(&Variable::Absent).unwrap(), None);
    assert_eq!(
        trace_directory(&Variable::Text("/tmp/traces".to_string())).unwrap(),
        Some("/tmp/traces")
    );
    assert!(trace_directory(&Variable::Text("  ".to_string())).is_err());
    assert!(trace_directory(&Variable::NotUnicode("?".to_string())).is_err());
    assert_eq!(trace_ns(u128::MAX), u64::MAX);
    assert_eq!(trace_ns(12), 12);
}
