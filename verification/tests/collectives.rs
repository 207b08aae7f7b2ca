//! Collectives of whole worlds. Each rank's part runs again and again with all that
//! the others have sent so far, until every part comes to its end.

use ruccl::rank::communicator::RankCommunicator;
use ruccl::rank::device::RankDevice;
use ruccl::rank::host::exchange::HostStagedExchange;
use ruccl::rank::host::reduction::HostReductionElement;
use ruccl::rank::network::coordinator::{CollectiveCoordinator, CollectiveStep};
use ruccl::rank::{
    AlgorithmPolicy, CollectiveAlgorithm, CollectiveStats, CollectiveTransport, CollectiveTuning,
    ElementType, ExchangeOptions, Frame, FrameHeader, NetworkError, Opcode, RankError,
    RankTransport, ReductionOperation, TopologyError, UniqueId, ANY_RANK,
};

const WIRE: CollectiveTransport = CollectiveTransport::TcpHostStaged;

fn unique_id() -> UniqueId {
    UniqueId::from_bytes([0x7c; 16])
}

#[derive(Debug, Clone)]
struct Message {
    source: u32,
    destination: u32,
    rail: usize,
    tag: u64,
    element_type: ElementType,
    element_count: u64,
    payload: Vec<u8>,
}

#[derive(Debug, Clone)]
struct Request {
    opcode: Opcode,
    element_type: ElementType,
    options: ExchangeOptions,
    payload: Vec<u8>,
}

/// A transport that answers from what is known already.
#[derive(Debug, Clone)]
struct Wire {
    rank: u32,
    world: u32,
    rails: usize,
    transport: CollectiveTransport,
    inbox: Vec<Message>,
    answers: Vec<Frame>,
    sent: Vec<Message>,
    asked: Vec<Request>,
    aborted: Vec<String>,
    timeouts: Vec<u128>,
}

impl Wire {
    fn alone(rank: u32, world: u32) -> Wire {
        Wire {
            rank,
            world,
            rails: 1,
            transport: WIRE,
            inbox: Vec::new(),
            answers: Vec::new(),
            sent: Vec::new(),
            asked: Vec::new(),
            aborted: Vec::new(),
            timeouts: Vec::new(),
        }
    }
}

fn message_frame(message: &Message, world: u32) -> Frame {
    let mut header = FrameHeader::collective(
        unique_id(),
        Opcode::Send,
        message.element_type,
        message.source,
        ANY_RANK,
        world,
        0,
        message.element_count,
    );
    header.destination_rank = message.destination;
    header.tag = message.tag;
    Frame::new(header, message.payload.clone()).unwrap()
}

impl RankTransport for Wire {
    fn rank(&self) -> u32 {
        self.rank
    }

    fn world_size(&self) -> u32 {
        self.world
    }

    fn transport(&self) -> CollectiveTransport {
        self.transport
    }

    fn p2p_rails(&self) -> usize {
        self.rails
    }

    fn heartbeat(&mut self, _timeout_ns: u128) -> Result<u128, NetworkError> {
        Ok(17)
    }

    fn send_on_rail(
        &mut self,
        rail: usize,
        destination: u32,
        tag: u64,
        element_type: ElementType,
        element_count: u64,
        payload: Vec<u8>,
    ) -> Result<(), NetworkError> {
        self.sent.push(Message {
            source: self.rank,
            destination,
            rail,
            tag,
            element_type,
            element_count,
            payload,
        });
        Ok(())
    }

    fn receive_on_rail(
        &mut self,
        rail: usize,
        source: Option<u32>,
        tag: u64,
        element_type: ElementType,
        element_count: u64,
    ) -> Result<Frame, NetworkError> {
        let found = self.inbox.iter().position(|message| {
            message.rail == rail
                && message.tag == tag
                && source.map_or(true, |source| source == message.source)
        });
        match found {
            Some(index) => {
                let message = self.inbox.remove(index);
                assert_eq!(message.element_type, element_type);
                assert_eq!(message.element_count, element_count);
                Ok(message_frame(&message, self.world))
            }
            None => Err(NetworkError::ChannelClosed),
        }
    }

    fn exchange_with_options(
        &mut self,
        opcode: Opcode,
        element_type: ElementType,
        options: ExchangeOptions,
        payload: Vec<u8>,
    ) -> Result<Frame, NetworkError> {
        let index = self.asked.len();
        self.asked.push(Request {
            opcode,
            element_type,
            options,
            payload,
        });
        match self.answers.get(index) {
            Some(frame) => Ok(Frame {
                header: frame.header.clone(),
                payload: frame.payload.clone(),
            }),
            None => Err(NetworkError::ChannelClosed),
        }
    }

    fn set_timeout(&mut self, timeout_ns: u128) -> Result<(), NetworkError> {
        self.timeouts.push(timeout_ns);
        Ok(())
    }

    fn abort(&mut self, message: &str) -> Result<(), NetworkError> {
        self.aborted.push(message.to_string());
        Ok(())
    }
}

/// What the coordinator answers to as many collectives as every rank has asked for.
fn coordinate(asked: &[Vec<Request>]) -> Vec<Vec<Frame>> {
    let world = asked.len();
    let mut coordinator = CollectiveCoordinator::new(unique_id(), world).unwrap();
    let mut answers = vec![Vec::new(); world];
    let rounds = asked.iter().map(Vec::len).min().unwrap();
    for round in 0..rounds {
        for rank in 0..world {
            let request = &asked[rank][round];
            let mut header = FrameHeader::collective(
                unique_id(),
                request.opcode,
                request.element_type,
                rank as u32,
                request.options.root_rank,
                world as u32,
                round as u64,
                request.options.element_count,
            );
            header.flags = request.options.flags;
            header.tag = request.options.tag;
            let frame = Frame::new(header, request.payload.clone()).unwrap();
            match coordinator.on_frame(rank, frame) {
                CollectiveStep::Wait => assert!(rank + 1 < world),
                CollectiveStep::Reply { responses, .. } => {
                    for (rank, response) in responses.into_iter().enumerate() {
                        answers[rank].push(response);
                    }
                }
                CollectiveStep::Finish => unreachable!(),
                CollectiveStep::Fail(error) => panic!("{}", error.to_string()),
            }
        }
    }
    answers
}

/// Runs every rank's part until all of them succeed.
fn simulate<R, F>(world: u32, rails: usize, part: F) -> Vec<(R, Wire)>
where
    F: Fn(u32, Wire) -> (Option<R>, Wire),
{
    let mut sent: Vec<Message> = Vec::new();
    let mut answers: Vec<Vec<Frame>> = vec![Vec::new(); world as usize];
    for _ in 0..400 {
        let mut results = Vec::new();
        let mut now = Vec::new();
        let mut asked = Vec::new();
        for rank in 0..world {
            let mut wire = Wire::alone(rank, world);
            wire.rails = rails;
            wire.inbox = sent
                .iter()
                .filter(|message| message.destination == rank)
                .cloned()
                .collect();
            wire.answers = answers[rank as usize].clone();
            let (result, wire) = part(rank, wire);
            now.extend(wire.sent.iter().cloned());
            asked.push(wire.asked.clone());
            results.push((result, wire));
        }
        if results.iter().all(|(result, _)| result.is_some()) {
            return results
                .into_iter()
                .map(|(result, wire)| (result.unwrap(), wire))
                .collect();
        }
        sent = now;
        answers = coordinate(&asked);
    }
    panic!("the world does not come to an end");
}

#[derive(Debug, Clone, PartialEq, Eq)]
enum Trouble {
    Rank(String),
    Network(String),
    Topology(String),
    Device(String),
}

impl From<RankError> for Trouble {
    fn from(error: RankError) -> Self {
        Trouble::Rank(error.to_string())
    }
}

impl From<NetworkError> for Trouble {
    fn from(error: NetworkError) -> Self {
        Trouble::Network(error.to_string())
    }
}

impl From<TopologyError> for Trouble {
    fn from(error: TopologyError) -> Self {
        Trouble::Topology(error.to_string())
    }
}

/// A device in host memory. It fails after a number of copies, where one is given.
#[derive(Debug, Default)]
struct Memory {
    copies_left: Option<usize>,
}

impl Memory {
    fn spend(&mut self) -> Result<(), Trouble> {
        match &mut self.copies_left {
            Some(0) => Err(Trouble::Device("no memory".to_string())),
            Some(left) => {
                *left -= 1;
                Ok(())
            }
            None => Ok(()),
        }
    }
}

#[derive(Debug, Clone, Copy)]
enum Kernel {
    Sum,
    Minus,
}

impl Kernel {
    fn apply(self, destination: u32, source: u32) -> u32 {
        match self {
            Kernel::Sum => destination.wrapping_add(source),
            Kernel::Minus => destination.wrapping_sub(source),
        }
    }
}

impl RankDevice<u32> for Memory {
    type Buffer = Vec<u32>;
    type Kernel = Kernel;
    type ReductionLaunch = (usize, usize);
    type Error = Trouble;
    const ELEMENT_SIZE: usize = 4;

    fn error_text(error: &Trouble) -> String {
        match error {
            Trouble::Rank(text)
            | Trouble::Network(text)
            | Trouble::Topology(text)
            | Trouble::Device(text) => text.clone(),
        }
    }

    fn buffer_len(&self, buffer: &Vec<u32>) -> usize {
        buffer.len()
    }

    fn buffer_bytes(&self, buffer: &Vec<u32>) -> usize {
        buffer.len() * 4
    }

    fn encode(values: &[u32]) -> Vec<u8> {
        values.iter().flat_map(|value| value.to_le_bytes()).collect()
    }

    fn decode(bytes: &[u8]) -> Result<Vec<u32>, Trouble> {
        if bytes.len() % 4 != 0 {
            return Err(Trouble::Device("odd bytes".to_string()));
        }
        Ok(bytes
            .chunks_exact(4)
            .map(|part| u32::from_le_bytes([part[0], part[1], part[2], part[3]]))
            .collect())
    }

    fn allocate(&mut self, length: usize) -> Result<Vec<u32>, Trouble> {
        Ok(vec![0xdead; length])
    }

    fn copy_to_device(&mut self, buffer: &mut Vec<u32>, values: &[u32]) -> Result<(), Trouble> {
        self.spend()?;
        if buffer.len() != values.len() {
            return Err(Trouble::Device("length".to_string()));
        }
        *buffer = values.to_vec();
        Ok(())
    }

    fn copy_from_device(&mut self, buffer: &Vec<u32>) -> Result<Vec<u32>, Trouble> {
        self.spend()?;
        Ok(buffer.clone())
    }

    fn copy_from_device_at(
        &mut self,
        buffer: &Vec<u32>,
        element_offset: usize,
        length: usize,
    ) -> Result<Vec<u32>, Trouble> {
        self.spend()?;
        match buffer.get(element_offset..element_offset + length) {
            Some(part) => Ok(part.to_vec()),
            None => Err(Trouble::Device("range".to_string())),
        }
    }

    fn copy_bytes_to_device_at(
        &mut self,
        buffer: &mut Vec<u32>,
        element_offset: usize,
        values: &[u8],
    ) -> Result<(), Trouble> {
        self.spend()?;
        let values = Self::decode(values)?;
        match buffer.get_mut(element_offset..element_offset + values.len()) {
            Some(part) => part.copy_from_slice(&values),
            None => return Err(Trouble::Device("range".to_string())),
        }
        Ok(())
    }

    fn copy_bytes_from_device_at(
        &mut self,
        buffer: &Vec<u32>,
        element_offset: usize,
        length: usize,
    ) -> Result<Vec<u8>, Trouble> {
        let part = self.copy_from_device_at(buffer, element_offset, length)?;
        Ok(Self::encode(&part))
    }

    fn prepare_reduction(
        &mut self,
        length: usize,
        destination_offset: usize,
    ) -> Result<(usize, usize), Trouble> {
        Ok((length, destination_offset))
    }

    fn launch_reduction(
        &mut self,
        kernel: &Kernel,
        launch: &(usize, usize),
        source: &Vec<u32>,
        destination: &mut Vec<u32>,
    ) -> Result<(), Trouble> {
        let (length, offset) = *launch;
        if length > source.len() || offset + length > destination.len() {
            return Err(Trouble::Device("range".to_string()));
        }
        for index in 0..length {
            let cell = &mut destination[offset + index];
            *cell = kernel.apply(*cell, source[index]);
        }
        Ok(())
    }
}

type Rank = RankCommunicator<Memory, Wire>;

fn ring_tuning(world: u32) -> CollectiveTuning {
    CollectiveTuning::new(AlgorithmPolicy::Ring, 0, (0..world).collect()).unwrap()
}

fn direct_tuning(world: u32) -> CollectiveTuning {
    CollectiveTuning::new(AlgorithmPolicy::Direct, 0, (0..world).collect()).unwrap()
}

fn grouped_tuning(groups: Vec<Vec<u32>>) -> CollectiveTuning {
    let world = groups.iter().map(Vec::len).sum::<usize>() as u32;
    CollectiveTuning::new(AlgorithmPolicy::Hierarchical, 0, (0..world).collect())
        .unwrap()
        .with_hierarchy(groups)
        .unwrap()
}

fn join(wire: Wire, tuning: CollectiveTuning) -> Rank {
    RankCommunicator::from_transport_with_tuning(|| Ok::<_, Trouble>(Memory::default()), wire, tuning)
        .unwrap()
}

/// Runs a part on a communicator in every rank.
fn collective<R, F>(world: u32, tuning: &CollectiveTuning, part: F) -> Vec<(R, Wire)>
where
    F: Fn(u32, &mut Rank) -> Result<R, Trouble>,
{
    let transport = tuning.transport();
    simulate(world, tuning.p2p_rails(), |rank, mut wire| {
        wire.transport = transport;
        let mut communicator = join(wire, tuning.clone());
        let result = part(rank, &mut communicator);
        if let Err(error) = &result {
            assert!(
                matches!(error, Trouble::Network(_))
                    || matches!(error, Trouble::Rank(text) if text.contains("channel")),
                "{error:?}"
            );
        }
        (result.ok(), communicator.link.session)
    })
}

fn inputs(world: u32, length: usize) -> Vec<Vec<u32>> {
    (0..world)
        .map(|rank| {
            (0..length as u32)
                .map(|index| (rank + 1) * 1000 + index * index)
                .collect()
        })
        .collect()
}

fn summed(inputs: &[Vec<u32>]) -> Vec<u32> {
    (0..inputs[0].len())
        .map(|index| inputs.iter().map(|input| input[index]).sum())
        .collect()
}

fn check_all_reduce(world: u32, length: usize, tuning: &CollectiveTuning) -> CollectiveStats {
    let inputs = inputs(world, length);
    let results = collective(world, tuning, |rank, communicator| {
        let mut buffer = inputs[rank as usize].clone();
        let stats = communicator
            .device_collective::<u32>(ElementType::U32)
            .all_reduce(&mut buffer, ReductionOperation::Sum, &Kernel::Sum)?;
        Ok((buffer, stats))
    });
    for ((buffer, _), wire) in &results {
        assert_eq!(*buffer, summed(&inputs));
        assert!(wire.aborted.is_empty());
    }
    let ((_, stats), _) = results.into_iter().next().unwrap();
    stats
}

#[test]
fn ring_all_reduce_sums_over_every_rank() {
    let stats = check_all_reduce(3, 7, &ring_tuning(3));
    assert_eq!(stats.algorithm, CollectiveAlgorithm::Ring);
    assert_eq!(stats.steps, 4);
    assert_eq!(stats.transport, WIRE);
    check_all_reduce(2, 1, &ring_tuning(2));
    check_all_reduce(4, 2, &ring_tuning(4));
    check_all_reduce(3, 0, &ring_tuning(3));
}

#[test]
fn ring_all_reduce_uses_every_channel() {
    let tuning = ring_tuning(3).with_ring_channels(2).unwrap();
    check_all_reduce(3, 11, &tuning);
    let order = CollectiveTuning::new(AlgorithmPolicy::Ring, 0, vec![2, 0, 3, 1]).unwrap();
    check_all_reduce(4, 10, &order.with_ring_channels(3).unwrap());
}

#[test]
fn ring_all_reduce_reduces_round_the_ring_from_each_partition() {
    // One element per rank: the element of a rank's partition starts at its place
    // and takes in the others' on its way round.
    let results = collective(3, &ring_tuning(3), |rank, communicator| {
        let mut buffer = vec![10 * (rank + 1), 100 * (rank + 1), 1000 * (rank + 1)];
        communicator
            .device_collective::<u32>(ElementType::U32)
            .all_reduce(&mut buffer, ReductionOperation::Sum, &Kernel::Minus)?;
        Ok(buffer)
    });
    for (buffer, _) in results {
        assert_eq!(buffer, vec![20, 0, 4000]);
    }
}

#[test]
fn ring_reduce_scatter_leaves_each_rank_its_row() {
    for (world, width, channels) in [(3u32, 4usize, 1usize), (3, 5, 2), (2, 1, 1), (4, 3, 3)] {
        let tuning = ring_tuning(world).with_ring_channels(channels).unwrap();
        let inputs = inputs(world, width * world as usize);
        let results = collective(world, &tuning, |rank, communicator| {
            communicator
                .device_collective::<u32>(ElementType::U32)
                .reduce_scatter(
                    &inputs[rank as usize],
                    ReductionOperation::Sum,
                    &Kernel::Sum,
                )
        });
        let sum = summed(&inputs);
        for (rank, ((row, stats), _)) in results.iter().enumerate() {
            assert_eq!(row[..], sum[rank * width..rank * width + width]);
            assert_eq!(stats.algorithm, CollectiveAlgorithm::Ring);
            assert_eq!(stats.steps, world - 1);
        }
    }
}

#[test]
fn ring_all_gather_brings_every_rank_every_row() {
    for (world, width, channels) in [(3u32, 4usize, 1usize), (3, 5, 2), (2, 1, 1), (4, 3, 3)] {
        let tuning = ring_tuning(world).with_ring_channels(channels).unwrap();
        let inputs = inputs(world, width);
        let results = collective(world, &tuning, |rank, communicator| {
            communicator
                .device_collective::<u32>(ElementType::U32)
                .all_gather(&inputs[rank as usize])
        });
        for ((all, stats), _) in &results {
            assert_eq!(*all, inputs.concat());
            assert_eq!(stats.algorithm, CollectiveAlgorithm::Ring);
        }
    }
}

#[test]
fn pairwise_all_to_all_brings_each_rank_its_shards() {
    for (world, shard, channels) in [(3u32, 2usize, 1usize), (4, 3, 2), (2, 1, 1)] {
        let tuning = ring_tuning(world).with_ring_channels(channels).unwrap();
        let inputs = inputs(world, shard * world as usize);
        let results = collective(world, &tuning, |rank, communicator| {
            communicator
                .device_collective::<u32>(ElementType::U32)
                .all_to_all(&inputs[rank as usize])
        });
        for (rank, ((all, stats), _)) in results.iter().enumerate() {
            let expected: Vec<u32> = inputs
                .iter()
                .flat_map(|input| input[rank * shard..rank * shard + shard].to_vec())
                .collect();
            assert_eq!(*all, expected);
            assert_eq!(stats.algorithm, CollectiveAlgorithm::Pairwise);
            assert_eq!(stats.steps, world - 1);
        }
    }
}

fn check_variable(tuning: &CollectiveTuning, algorithm: CollectiveAlgorithm) {
    let counts: Vec<Vec<usize>> = vec![vec![1, 0, 2], vec![0, 0, 0], vec![3, 0, 1]];
    let data: Vec<Vec<u32>> = vec![vec![10, 20, 21], vec![], vec![30, 31, 32, 42]];
    let results = collective(3, tuning, |rank, communicator| {
        communicator
            .device_collective::<u32>(ElementType::U32)
            .all_to_all_v(&data[rank as usize], &counts[rank as usize])
    });
    let ((first, stats), _) = &results[0];
    assert_eq!(first.counts(), &[1, 0, 3]);
    assert_eq!(first.buffer(), Some(&vec![10, 30, 31, 32]));
    assert_eq!(first.len(), 4);
    assert_eq!(stats.algorithm, algorithm);
    let ((second, _), _) = &results[1];
    assert_eq!(second.counts(), &[0, 0, 0]);
    assert!(second.is_empty());
    assert_eq!(second.buffer(), None);
    let ((third, _), _) = &results[2];
    assert_eq!(third.counts(), &[2, 0, 1]);
    assert_eq!(third.buffer(), Some(&vec![20, 21, 42]));
}

#[test]
fn variable_all_to_all_brings_counts_and_elements() {
    check_variable(&ring_tuning(3), CollectiveAlgorithm::Pairwise);
    check_variable(&ring_tuning(3).with_ring_channels(2).unwrap(), CollectiveAlgorithm::Pairwise);
    check_variable(&direct_tuning(3), CollectiveAlgorithm::Direct);
}

#[test]
fn hierarchical_collectives_give_what_the_flat_ones_give() {
    for groups in [
        vec![vec![0, 1], vec![2, 3]],
        vec![vec![0, 2], vec![1, 3]],
        vec![vec![0, 1, 2], vec![3]],
        vec![vec![0], vec![1, 2], vec![3, 4, 5]],
    ] {
        let world = groups.iter().map(Vec::len).sum::<usize>() as u32;
        for channels in [1usize, 2] {
            let tuning = grouped_tuning(groups.clone())
                .with_ring_channels(channels)
                .unwrap();
            let stats = check_all_reduce(world, 9, &tuning);
            assert_eq!(stats.algorithm, CollectiveAlgorithm::Hierarchical);

            let rows = inputs(world, 3);
            let gathered = collective(world, &tuning, |rank, communicator| {
                communicator
                    .device_collective::<u32>(ElementType::U32)
                    .all_gather(&rows[rank as usize])
            });
            for ((all, stats), _) in &gathered {
                assert_eq!(*all, rows.concat());
                assert_eq!(stats.algorithm, CollectiveAlgorithm::Hierarchical);
            }

            let wide = inputs(world, 3 * world as usize);
            let sum = summed(&wide);
            let scattered = collective(world, &tuning, |rank, communicator| {
                communicator
                    .device_collective::<u32>(ElementType::U32)
                    .reduce_scatter(&wide[rank as usize], ReductionOperation::Sum, &Kernel::Sum)
            });
            for (rank, ((row, _), _)) in scattered.iter().enumerate() {
                assert_eq!(row[..], sum[rank * 3..rank * 3 + 3]);
            }
        }
    }
}

#[test]
fn collectives_through_the_coordinator() {
    let world = 3;
    let tuning = direct_tuning(world);
    let stats = check_all_reduce(world, 4, &tuning);
    assert_eq!(stats.algorithm, CollectiveAlgorithm::Direct);
    assert_eq!(stats.steps, 2);
    assert_eq!(stats.reduction_kernel_launches, 2);
    assert_eq!(stats.transferred_bytes, 16 + 48);

    let rows = inputs(world, 3);
    let results = collective(world, &tuning, |rank, communicator| {
        let row = &rows[rank as usize];
        let mut device = communicator.device_collective::<u32>(ElementType::U32);
        let (gathered, _) = device.all_gather(row)?;
        let (at_root, _) = device.gather(row, 2)?;
        let (reduced, _) = device.reduce(row, 1, ReductionOperation::Sum, &Kernel::Minus)?;
        let mut shared = row.clone();
        device.broadcast(&mut shared, 1)?;
        let (exchanged, _) = device.all_to_all(row)?;
        let (scattered, _) = device.reduce_scatter(row, ReductionOperation::Sum, &Kernel::Minus)?;
        let whole: Vec<u32> = vec![7, 8, 9, 10, 11, 12];
        let input = if rank == 0 { Some(&whole) } else { None };
        let (share, _) = device.scatter(input, 0, 2)?;
        Ok((gathered, at_root, reduced, shared, exchanged, scattered, share))
    });
    let stacked: Vec<u32> = (0..3)
        .map(|index| rows[0][index].wrapping_sub(rows[1][index]).wrapping_sub(rows[2][index]))
        .collect();
    for (rank, (result, _)) in results.iter().enumerate() {
        let (gathered, at_root, reduced, shared, exchanged, scattered, share) = result;
        assert_eq!(*gathered, rows.concat());
        assert_eq!(*at_root, if rank == 2 { Some(rows.concat()) } else { None });
        assert_eq!(*reduced, if rank == 1 { Some(stacked.clone()) } else { None });
        assert_eq!(*shared, rows[1]);
        assert_eq!(*exchanged, vec![rows[0][rank], rows[1][rank], rows[2][rank]]);
        assert_eq!(*scattered, vec![stacked[rank]]);
        assert_eq!(*share, vec![7 + 2 * rank as u32, 8 + 2 * rank as u32]);
    }
}

#[test]
fn a_world_of_one_goes_through_the_coordinator() {
    let stats = check_all_reduce(1, 3, &ring_tuning(1));
    assert_eq!(stats.algorithm, CollectiveAlgorithm::Direct);
    assert_eq!(stats.steps, 0);
}

#[test]
fn messages_go_from_rank_to_rank() {
    let tuning = direct_tuning(2);
    let results = collective(2, &tuning, |rank, communicator| {
        let mut device = communicator.device_collective::<u32>(ElementType::U32);
        if rank == 0 {
            device.send(&vec![4, 5, 6], 1, 77)?;
            Ok(None)
        } else {
            let (message, stats) = device.receive(None, 77, 3)?;
            assert_eq!(stats.transferred_bytes, 12);
            Ok(Some((message.buffer().clone(), message.source_rank(), message.tag())))
        }
    });
    assert_eq!(results[1].0, Some((vec![4, 5, 6], 0, 77)));
    assert_eq!(results[0].1.sent.len(), 1);
    assert_eq!(results[0].1.sent[0].destination, 1);
}

#[test]
fn refused_collectives_make_no_calls() {
    let mut communicator = join(Wire::alone(0, 3), direct_tuning(3));
    let mut device = communicator.device_collective::<u32>(ElementType::U32);
    assert_eq!(
        device.broadcast(&mut vec![1], 3),
        Err(Trouble::Rank(
            RankError::RankOutOfRange { rank: 3, world_size: 3 }.to_string()
        ))
    );
    assert_eq!(
        device.all_to_all(&vec![1, 2]).map(|_| ()),
        Err(Trouble::Rank(
            RankError::InvalidLength("TCP all-to-all input length must be divisible by world size")
                .to_string()
        ))
    );
    assert_eq!(
        device
            .reduce_scatter(&vec![1, 2], ReductionOperation::Sum, &Kernel::Sum)
            .map(|_| ()),
        Err(Trouble::Rank(
            RankError::InvalidLength(
                "TCP reduce-scatter input length must be divisible by world size"
            )
            .to_string()
        ))
    );
    assert_eq!(
        device.scatter(None, 0, 2).map(|_| ()),
        Err(Trouble::Rank(
            RankError::InvalidLength("TCP scatter root must provide the input buffer").to_string()
        ))
    );
    assert_eq!(
        device.all_to_all_v(&vec![1], &[1]).map(|_| ()),
        Err(Trouble::Rank(
            RankError::InvalidLength("TCP all-to-all-v send_counts must have one entry per rank")
                .to_string()
        ))
    );
    assert_eq!(
        device.all_to_all_v(&vec![1], &[1, 1, 0]).map(|_| ()),
        Err(Trouble::Rank(
            RankError::InvalidLength("TCP all-to-all-v send_counts do not sum to input length")
                .to_string()
        ))
    );
    let wire = communicator.link.session;
    assert!(wire.sent.is_empty());
    assert!(wire.asked.is_empty());
}

#[test]
fn a_failure_in_a_channel_is_told_to_the_other_ranks() {
    let results = simulate(2, 1, |rank, wire| {
        let mut communicator = join(wire, ring_tuning(2));
        if rank == 0 {
            communicator.link.execution.copies_left = Some(0);
        }
        let mut buffer = vec![1, 2, 3, 4];
        let result = communicator
            .device_collective::<u32>(ElementType::U32)
            .all_reduce(&mut buffer, ReductionOperation::Sum, &Kernel::Sum);
        let asked = communicator.link.session.answers.len();
        let done = if asked > 0 { Some(result) } else { None };
        (done, communicator.link.session)
    });
    assert_eq!(
        results[0].0,
        Err(Trouble::Device("no memory".to_string()))
    );
    assert_eq!(
        results[0].1.aborted,
        vec!["ring all-reduce channel failed: no memory".to_string()]
    );
    assert_eq!(
        results[1].0,
        Err(Trouble::Network(NetworkError::ChannelClosed.to_string()))
    );
}

#[test]
fn a_communicator_wants_a_tuning_that_fits() {
    let made = |tuning: CollectiveTuning, wire: Wire| {
        RankCommunicator::from_transport_with_tuning(
            || Ok::<_, Trouble>(Memory::default()),
            wire,
            tuning,
        )
        .map(|communicator| {
            (
                communicator.rank(),
                communicator.world_size(),
                communicator.p2p_rails(),
                communicator.collective_rail_order().to_vec(),
            )
        })
    };
    assert_eq!(made(direct_tuning(3), Wire::alone(1, 3)), Ok((1, 3, 1, vec![0])));
    assert!(matches!(made(direct_tuning(2), Wire::alone(1, 3)), Err(Trouble::Topology(_))));
    let mut other = Wire::alone(1, 3);
    other.transport = CollectiveTransport::Rdma;
    assert_eq!(
        made(direct_tuning(3), other),
        Err(Trouble::Topology(
            TopologyError::TransportMismatch {
                tuning: WIRE,
                communicator: CollectiveTransport::Rdma,
            }
            .to_string()
        ))
    );
    let mut railed = Wire::alone(1, 3);
    railed.rails = 2;
    assert_eq!(
        made(direct_tuning(3), railed),
        Err(Trouble::Topology(
            TopologyError::P2pRailMismatch { tuning: 1, session: 2 }.to_string()
        ))
    );
    let refused = RankCommunicator::<Memory, Wire>::from_transport_with_tuning(
        || Err(Trouble::Device("no device".to_string())),
        Wire::alone(0, 3),
        direct_tuning(3),
    );
    assert!(matches!(refused, Err(Trouble::Device(_))));
}

#[test]
fn native_host_pairwise_exchange_preserves_alignment_and_rank_payload() {
    let results = simulate(2, 1, |rank, mut session| {
        let mut exchange = HostStagedExchange::new(&mut session);
        for (element_type, payload, receive_bytes) in [
            (ElementType::Untyped, vec![], 0),
            (ElementType::U32, vec![0; 3], 4),
            (ElementType::U32, vec![0; 4], 3),
        ] {
            assert!(matches!(
                exchange.exchange_host_payload(
                    &[0],
                    element_type,
                    payload,
                    receive_bytes,
                    1 - rank,
                    1 - rank,
                    7,
                    0x7c
                ),
                Err(RankError::InvalidLength(
                    "pairwise host payload does not align to its element type"
                ))
            ));
        }
        let payload = vec![rank as u8, 0, 255];
        let first = exchange.exchange_host_payload(
            &[0],
            ElementType::U8,
            payload,
            3,
            1 - rank,
            1 - rank,
            7,
            0x7d,
        );
        let second = exchange.exchange_host_payload(
            &[0],
            ElementType::U32,
            vec![],
            0,
            1 - rank,
            1 - rank,
            3,
            0x7e,
        );
        let last = exchange.barrier();
        let done = match (first, second, last) {
            (Ok(first), Ok(second), Ok(_)) => {
                assert_eq!(first, [1 - rank as u8, 0, 255]);
                assert!(second.is_empty());
                Some(())
            }
            _ => None,
        };
        (done, session)
    });
    assert_eq!(results.len(), 2);
}

#[test]
fn host_exchange_and_reduction_need_no_device() {
    let results = simulate(2, 1, |rank, mut session| {
        let mut exchange = HostStagedExchange::new(&mut session);
        assert_eq!(exchange.rank(), rank);
        assert_eq!(exchange.world_size(), 2);
        assert!(matches!(
            exchange.validate_root(2),
            Err(RankError::RankOutOfRange { rank: 2, world_size: 2 })
        ));
        assert!(matches!(
            exchange.reduce_scatter_host_staged(
                ElementType::U8,
                3,
                vec![0; 3],
                ReductionOperation::Sum
            ),
            Err(RankError::InvalidLength(_)),
        ));
        exchange.set_timeout(5_000_000_000).unwrap();
        assert_eq!(exchange.heartbeat(5_000_000_000).unwrap(), 17);
        let input = i64::encode(&[i64::from(rank) + 1, i64::from(rank) + 2]);
        let reduced = exchange.all_reduce_host_staged(
            ElementType::I64,
            2,
            input,
            ReductionOperation::Sum,
        );
        let bits = if rank == 0 { vec![0, 1, 1, 0] } else { vec![1, 1, 0, 1] };
        let scattered = exchange.reduce_scatter_host_staged(
            ElementType::Bool,
            4,
            bits,
            ReductionOperation::BitOr,
        );
        let input = i64::encode(&[i64::from(rank) - 5]);
        let rooted = exchange.reduce_host_staged(
            ElementType::I64,
            1,
            input,
            0,
            ReductionOperation::Maximum,
        );
        let empty =
            exchange.all_reduce_host_staged(ElementType::I64, 0, vec![], ReductionOperation::Sum);
        let done = match (reduced, scattered, rooted, empty) {
            (Ok(reduced), Ok(scattered), Ok(rooted), Ok(empty)) => {
                Some((reduced, scattered, rooted, empty))
            }
            _ => None,
        };
        (done, session)
    });
    for (rank, ((reduced, scattered, rooted, empty), session)) in results.into_iter().enumerate() {
        assert_eq!(session.timeouts, vec![5_000_000_000]);
        let (payload, stats) = reduced;
        assert_eq!(payload, i64::encode(&[1, 2, 2, 3]));
        assert_eq!(
            stats,
            CollectiveStats {
                algorithm: CollectiveAlgorithm::Direct,
                transport: WIRE,
                steps: 1,
                transferred_bytes: 48,
                reduction_kernel_launches: 0,
            }
        );
        let (payload, stats) = scattered;
        assert_eq!(
            payload,
            if rank == 0 { vec![0, 1, 1, 1] } else { vec![1, 0, 0, 1] }
        );
        assert_eq!(stats.transferred_bytes, 8);
        let (payload, stats) = rooted;
        assert_eq!(stats.transferred_bytes, if rank == 0 { 24 } else { 8 });
        assert_eq!(
            payload,
            if rank == 0 { Some(i64::encode(&[-5, -4])) } else { None }
        );
        assert!(empty.0.is_empty());
    }
}

#[test]
fn a_failure_before_the_ranks_agree_is_told_to_no_one() {
    let mut communicator = join(Wire::alone(0, 2), ring_tuning(2));
    communicator.link.execution.copies_left = Some(0);
    let scattered = communicator
        .device_collective::<u32>(ElementType::U32)
        .reduce_scatter(&vec![1, 2, 3, 4], ReductionOperation::Sum, &Kernel::Sum);
    assert_eq!(
        scattered.unwrap_err(),
        Trouble::Device("no memory".to_string())
    );
    let gathered = communicator
        .device_collective::<u32>(ElementType::U32)
        .all_gather(&vec![1, 2]);
    assert_eq!(
        gathered.unwrap_err(),
        Trouble::Device("no memory".to_string())
    );
    let wire = communicator.link.session;
    assert!(wire.aborted.is_empty());
    assert!(wire.asked.is_empty());
    assert!(wire.sent.is_empty());
}

#[test]
fn a_leader_tells_of_failures_among_the_leaders_alone() {
    let tuning = grouped_tuning(vec![vec![0, 1], vec![2, 3]]);
    let rows = inputs(4, 6);
    let results = collective(4, &tuning, |rank, communicator| {
        let mut row = rows[rank as usize].clone();
        communicator
            .device_collective::<u32>(ElementType::U32)
            .all_reduce(&mut row, ReductionOperation::Sum, &Kernel::Sum)?;
        Ok(row)
    });
    let asked: Vec<Vec<Request>> = results.iter().map(|(_, wire)| wire.asked.clone()).collect();
    let mut told = Vec::new();
    for copies in 0..100 {
        let mut wire = Wire::alone(0, 4);
        wire.inbox = results
            .iter()
            .flat_map(|(_, wire)| wire.sent.iter().cloned())
            .filter(|message| message.destination == 0)
            .collect();
        wire.answers = coordinate(&asked)[0].clone();
        let mut communicator = join(wire, tuning.clone());
        communicator.link.execution.copies_left = Some(copies);
        let mut row = rows[0].clone();
        let reduced = communicator
            .device_collective::<u32>(ElementType::U32)
            .all_reduce(&mut row, ReductionOperation::Sum, &Kernel::Sum);
        if reduced.is_ok() {
            assert_eq!(row, results[0].0);
            break;
        }
        assert_eq!(
            reduced.unwrap_err(),
            Trouble::Device("no memory".to_string())
        );
        told.push(!communicator.link.session.aborted.is_empty());
    }
    told.dedup();
    assert_eq!(told, vec![false, true, false]);
}
