//! Collectives among ranks of one process.

use ruccl::in_process::collective::memory::ImportError;
use ruccl::in_process::device::InProcessDevice;
use ruccl::in_process::error::InProcessError;
use ruccl::in_process::{Communicator, CommunicatorIds, DistributedBuffer, PointToPointTransfer};
use ruccl::rank::{CollectiveAlgorithm, CollectiveStats, CollectiveTransport};

#[derive(Debug, PartialEq, Eq)]
enum Trouble {
    InProcess(InProcessError),
    Device(&'static str),
}

impl From<InProcessError> for Trouble {
    fn from(error: InProcessError) -> Self {
        Trouble::InProcess(error)
    }
}

impl From<&'static str> for Trouble {
    fn from(error: &'static str) -> Self {
        Trouble::Device(error)
    }
}

/// A rank's memory; `broken` refuses every copy.
#[derive(Debug, Default)]
struct Memory {
    broken: bool,
}

impl Memory {
    fn check(&self) -> Result<(), &'static str> {
        if self.broken {
            Err("broken")
        } else {
            Ok(())
        }
    }
}

enum Kernel {
    Sum,
    Minus,
}

struct Host;

impl InProcessDevice<i64> for Host {
    type Context = Memory;
    type Buffer = Vec<i64>;
    type Kernel = Kernel;
    type ReductionLaunch = (u32, u32);
    type Error = &'static str;
    const ELEMENT_SIZE: usize = 8;

    fn buffer_len(buffer: &Vec<i64>) -> usize {
        buffer.len()
    }

    fn buffer_is_empty(buffer: &Vec<i64>) -> bool {
        buffer.is_empty()
    }

    fn allocate(_context: &mut Memory, length: usize) -> Result<Vec<i64>, &'static str> {
        Ok(vec![-1; length])
    }

    fn copy_to_device(
        context: &mut Memory,
        buffer: &mut Vec<i64>,
        values: &[i64],
    ) -> Result<(), &'static str> {
        context.check()?;
        if buffer.len() != values.len() {
            return Err("length");
        }
        buffer.copy_from_slice(values);
        Ok(())
    }

    fn copy_to_device_at(
        context: &mut Memory,
        buffer: &mut Vec<i64>,
        offset: usize,
        values: &[i64],
    ) -> Result<(), &'static str> {
        context.check()?;
        match buffer.get_mut(offset..offset + values.len()) {
            Some(part) => part.copy_from_slice(values),
            None => return Err("range"),
        }
        Ok(())
    }

    fn copy_from_device(
        context: &mut Memory,
        buffer: &Vec<i64>,
    ) -> Result<Vec<i64>, &'static str> {
        context.check()?;
        Ok(buffer.clone())
    }

    fn copy_from_device_at(
        context: &mut Memory,
        buffer: &Vec<i64>,
        offset: usize,
        length: usize,
    ) -> Result<Vec<i64>, &'static str> {
        context.check()?;
        buffer
            .get(offset..offset + length)
            .map(<[i64]>::to_vec)
            .ok_or("range")
    }

    fn prepare_reduction(length: u32, destination_offset: u32) -> (u32, u32) {
        (length, destination_offset)
    }

    fn launch_reduction(
        context: &mut Memory,
        kernel: &Kernel,
        launch: &(u32, u32),
        source: &Vec<i64>,
        destination: &mut Vec<i64>,
    ) -> Result<(), &'static str> {
        context.check()?;
        let (length, offset) = (launch.0 as usize, launch.1 as usize);
        if length > source.len() || offset + length > destination.len() {
            return Err("range");
        }
        for index in 0..length {
            let cell = &mut destination[offset + index];
            *cell = match kernel {
                Kernel::Sum => *cell + source[index],
                Kernel::Minus => *cell - source[index],
            };
        }
        Ok(())
    }
}

type World = Communicator<Memory>;

fn world(ranks: usize) -> World {
    let contexts = (0..ranks).map(|_| Memory::default()).collect();
    let (communicator, ()) =
        Communicator::new(&mut CommunicatorIds::new(), contexts, |_| Ok::<_, Trouble>(())).unwrap();
    communicator
}

fn filled(world: &mut World, rows: &[Vec<i64>]) -> DistributedBuffer<i64, Host> {
    let mut collective = world.collective::<i64, Host, Trouble>();
    let mut buffer = collective.allocate(rows[0].len()).unwrap();
    for (rank, row) in rows.iter().enumerate() {
        collective.upload_rank(&mut buffer, rank, row).unwrap();
    }
    buffer
}

fn rows(world: &mut World, buffer: &DistributedBuffer<i64, Host>) -> Vec<Vec<i64>> {
    (0..buffer.world_size())
        .map(|rank| {
            world
                .collective::<i64, Host, Trouble>()
                .download_rank(buffer, rank)
                .unwrap()
        })
        .collect()
}

fn sample(ranks: usize, length: usize) -> Vec<Vec<i64>> {
    (0..ranks)
        .map(|rank| (0..length).map(|i| (100 * (rank + 1) + i * i) as i64).collect())
        .collect()
}

#[test]
fn communicators_are_numbered_and_never_empty() {
    let mut ids = CommunicatorIds::new();
    let empty = Communicator::<Memory>::new(&mut ids, vec![], |_| Ok::<_, Trouble>(()));
    assert!(matches!(empty, Err(Trouble::InProcess(InProcessError::EmptyWorld))));
    let refused = Communicator::new(&mut ids, vec![Memory::default()], |_| {
        Err::<(), _>(Trouble::Device("kernels"))
    });
    assert!(matches!(refused, Err(Trouble::Device("kernels"))));
    let (first, kernels) =
        Communicator::new(&mut ids, vec![Memory::default()], |_| Ok::<_, Trouble>(7)).unwrap();
    assert_eq!(kernels, 7);
    let (second, _) =
        Communicator::new(&mut ids, vec![Memory::default()], |_| Ok::<_, Trouble>(8)).unwrap();
    assert_eq!((first.id, second.id), (1, 2));
    assert_eq!(first.transport(), CollectiveTransport::HostStaged);
}

#[test]
fn a_barrier_counts_one_step_where_there_are_others() {
    assert_eq!(world(1).barrier().unwrap().steps, 0);
    assert_eq!(world(3).barrier().unwrap().steps, 1);
}

#[test]
fn broadcast_gather_scatter_and_all_gather() {
    let mut world = world(3);
    let input = sample(3, 2);
    let mut buffer = filled(&mut world, &input);
    let (all, _) = world.collective::<i64, Host, Trouble>().all_gather(&buffer).unwrap();
    assert_eq!(rows(&mut world, &all), vec![input.concat(); 3]);
    let (rooted, _) = world.collective::<i64, Host, Trouble>().gather(&buffer, 2).unwrap();
    assert_eq!(rooted.root(), 2);
    assert_eq!(rooted.len(), 6);
    let held = world.collective::<i64, Host, Trouble>().download_root(&rooted).unwrap();
    assert_eq!(held, input.concat());
    let (shared, _) = world.collective::<i64, Host, Trouble>().scatter(&rooted).unwrap();
    assert_eq!(rows(&mut world, &shared), input);
    let stats = world
        .collective::<i64, Host, Trouble>()
        .broadcast(&mut buffer, 1)
        .unwrap();
    assert_eq!(rows(&mut world, &buffer), vec![input[1].clone(); 3]);
    assert_eq!(stats.transport, CollectiveTransport::HostStaged);
}

#[test]
fn all_to_all_transposes_shards() {
    let mut world = world(3);
    let input = sample(3, 6);
    let buffer = filled(&mut world, &input);
    let (output, _) = world.collective::<i64, Host, Trouble>().all_to_all(&buffer).unwrap();
    let expected: Vec<Vec<i64>> = (0..3)
        .map(|rank| input.iter().flat_map(|row| row[2 * rank..2 * rank + 2].to_vec()).collect())
        .collect();
    assert_eq!(rows(&mut world, &output), expected);
    let (back, _) = world.collective::<i64, Host, Trouble>().all_to_all(&output).unwrap();
    assert_eq!(rows(&mut world, &back), input);
    let uneven = filled(&mut world, &sample(3, 4));
    let refused = world.collective::<i64, Host, Trouble>().all_to_all(&uneven);
    assert!(matches!(
        refused,
        Err(Trouble::InProcess(InProcessError::InvalidLength(_)))
    ));
}

#[test]
fn variable_all_to_all_brings_each_rank_its_segments() {
    let mut world = world(3);
    let input = sample(3, 3);
    let buffer = filled(&mut world, &input);
    let counts = vec![vec![1, 0, 2], vec![3, 0, 0], vec![2, 0, 1]];
    let (output, _) = world
        .collective::<i64, Host, Trouble>()
        .all_to_all_v(&buffer, &counts)
        .unwrap();
    let lengths: Vec<_> = (0..3).map(|rank| output.rank_length(rank)).collect();
    assert_eq!(lengths, vec![Some(6), Some(0), Some(3)]);
    assert!(output.rank_buffer(1).is_none());
    let mut collective = world.collective::<i64, Host, Trouble>();
    assert_eq!(
        collective.download_variable_rank(&output, 0).unwrap(),
        vec![100, 200, 201, 204, 300, 301]
    );
    assert_eq!(collective.download_variable_rank(&output, 2).unwrap(), vec![101, 104, 304]);
    assert!(collective.download_variable_rank(&output, 1).unwrap().is_empty());
}

#[test]
fn reductions_over_every_rank() {
    let mut world = world(3);
    let input = sample(3, 7);
    let sum: Vec<i64> = (0..7).map(|i| input.iter().map(|row| row[i]).sum()).collect();
    let mut buffer = filled(&mut world, &input);
    let (rooted, stats) = world
        .collective::<i64, Host, Trouble>()
        .reduce_sum(&buffer, 1, &Kernel::Sum)
        .unwrap();
    assert_eq!(stats.reduction_kernel_launches, 2);
    let held = world.collective::<i64, Host, Trouble>().download_root(&rooted).unwrap();
    assert_eq!(held, sum);
    let stats = world
        .collective::<i64, Host, Trouble>()
        .all_reduce_sum(&mut buffer, &Kernel::Sum)
        .unwrap();
    assert_eq!(stats.algorithm, CollectiveAlgorithm::Ring);
    assert_eq!(stats.steps, 4);
    assert_eq!(rows(&mut world, &buffer), vec![sum; 3]);
    let wide = sample(3, 6);
    let sum: Vec<i64> = (0..6).map(|i| wide.iter().map(|row| row[i]).sum()).collect();
    let buffer = filled(&mut world, &wide);
    let (shares, _) = world
        .collective::<i64, Host, Trouble>()
        .reduce_scatter_sum(&buffer, &Kernel::Sum)
        .unwrap();
    assert_eq!(
        rows(&mut world, &shares),
        vec![sum[..2].to_vec(), sum[2..4].to_vec(), sum[4..].to_vec()]
    );
}

#[test]
fn a_rooted_reduction_starts_from_the_root() {
    let mut world = world(3);
    let buffer = filled(&mut world, &[vec![1], vec![20], vec![300]]);
    let (rooted, _) = world
        .collective::<i64, Host, Trouble>()
        .reduce_sum(&buffer, 1, &Kernel::Minus)
        .unwrap();
    let held = world.collective::<i64, Host, Trouble>().download_root(&rooted).unwrap();
    assert_eq!(held, vec![20 - 1 - 300]);
}

#[test]
fn transfers_between_ranks() {
    let mut world = world(2);
    let source = filled(&mut world, &[vec![1, 2, 3], vec![4, 5, 6]]);
    let mut destination = filled(&mut world, &[vec![0, 0, 0], vec![0, 0, 0]]);
    let transfer = PointToPointTransfer {
        source_rank: 0,
        source_range: 1..3,
        destination_rank: 1,
        destination_offset: 0,
        tag: 9,
    };
    let stats = world
        .collective::<i64, Host, Trouble>()
        .send_recv(&source, &mut destination, transfer.clone())
        .unwrap();
    assert_eq!(stats.transferred_bytes, 16);
    assert_eq!(rows(&mut world, &destination), vec![vec![0, 0, 0], vec![2, 3, 0]]);
    let mut buffer = source;
    world
        .collective::<i64, Host, Trouble>()
        .send_recv_within(&mut buffer, transfer)
        .unwrap();
    assert_eq!(rows(&mut world, &buffer), vec![vec![1, 2, 3], vec![2, 3, 6]]);
    let outside = PointToPointTransfer {
        source_rank: 0,
        source_range: 2..4,
        destination_rank: 1,
        destination_offset: 0,
        tag: 0,
    };
    let refused = world
        .collective::<i64, Host, Trouble>()
        .send_recv_within(&mut buffer, outside);
    assert!(matches!(
        refused,
        Err(Trouble::InProcess(InProcessError::InvalidLength(_)))
    ));
}

#[test]
fn buffers_belong_to_their_communicator() {
    let mut ids = CommunicatorIds::new();
    let (mut first, _) =
        Communicator::new(&mut ids, vec![Memory::default()], |_| Ok::<_, Trouble>(())).unwrap();
    let (mut second, _) =
        Communicator::new(&mut ids, vec![Memory::default()], |_| Ok::<_, Trouble>(())).unwrap();
    let buffer = filled(&mut first, &[vec![1]]);
    assert_eq!(
        second.collective::<i64, Host, Trouble>().download_rank(&buffer, 0),
        Err(Trouble::InProcess(InProcessError::WrongCommunicator))
    );
    assert_eq!(
        first.collective::<i64, Host, Trouble>().download_rank(&buffer, 1),
        Err(Trouble::InProcess(InProcessError::RankOutOfRange {
            rank: 1,
            world_size: 1
        }))
    );
    first.contexts[0].broken = true;
    assert_eq!(
        first.collective::<i64, Host, Trouble>().download_rank(&buffer, 0),
        Err(Trouble::Device("broken"))
    );
}

#[test]
fn imported_buffers_fit_their_ranks() {
    let mut world = world(2);
    let collective = world.collective::<i64, Host, Trouble>();
    let imported = collective
        .import_buffers(vec![vec![1, 2], vec![3, 4]], &[true, true])
        .map(|buffer| (buffer.world_size(), buffer.length_per_rank()));
    assert_eq!(imported, Ok((2, 2)));
    assert_eq!(
        collective
            .import_buffers(vec![vec![1], vec![2]], &[true, false])
            .map(|_| ()),
        Err(ImportError::DeviceMismatch)
    );
    assert!(matches!(
        collective.import_buffers(vec![vec![1], vec![2, 3]], &[true, true]),
        Err(ImportError::InProcess(InProcessError::InvalidLength(_)))
    ));
    assert!(matches!(
        collective.import_buffers(vec![vec![1]], &[true]),
        Err(ImportError::InProcess(InProcessError::InvalidLength(_)))
    ));
}

#[test]
fn in_process_errors_as_text() {
    let stats = CollectiveStats::new(CollectiveAlgorithm::Direct);
    assert_eq!(stats.steps, 0);
    assert_eq!(
        InProcessError::EmptyWorld.to_string(),
        "collective world must contain at least one rank"
    );
    assert_eq!(
        InProcessError::RankOutOfRange { rank: 4, world_size: 3 }.to_string(),
        "rank 4 is outside collective world size 3"
    );
    assert_eq!(
        InProcessError::Overflow("shares").to_string(),
        "collective size overflow while computing shares"
    );
}

#[test]
fn refused_calls_leave_buffers_as_they_were() {
    let mut world = world(2);
    let input = sample(2, 3);
    let mut buffer = filled(&mut world, &input);
    let refused = world.collective::<i64, Host, Trouble>().broadcast(&mut buffer, 2);
    assert!(matches!(
        refused,
        Err(Trouble::InProcess(InProcessError::RankOutOfRange { rank: 2, world_size: 2 }))
    ));
    assert_eq!(rows(&mut world, &buffer), input);
    let transfer = PointToPointTransfer {
        source_rank: 0,
        source_range: 0..2,
        destination_rank: 1,
        destination_offset: 2,
        tag: 0,
    };
    let refused = world
        .collective::<i64, Host, Trouble>()
        .send_recv_within(&mut buffer, transfer);
    assert!(matches!(
        refused,
        Err(Trouble::InProcess(InProcessError::InvalidLength(_)))
    ));
    assert_eq!(rows(&mut world, &buffer), input);
    let refused = world.collective::<i64, Host, Trouble>().upload_rank(&mut buffer, 5, &[1, 2, 3]);
    assert!(refused.is_err());
    assert_eq!(rows(&mut world, &buffer), input);
}
