//! Sink-side batching.
//!
//! A producer decides, per serialized batch, what its sink has to do:
//! append to a file, send a record to a broker, or discard.  The broker
//! variant keeps a micro-queue of bytes with a terminator between
//! queued batches, and flushes on demand, when the queue budget is
//! reached, or when the caller reports that the flush period elapsed.
//! The sink itself — the file handle, the broker connection, the clock —
//! lives with the caller, which performs the returned action.

use crate::session::extend_bytes;
use vstd::prelude::*;

verus! {

/// Which source a broker producer feeds from.
#[derive(Clone, Copy, Debug, PartialEq, Eq, Structural)]
pub enum KafkaInput {
    Pcap,
    PcapNg,
    Nic,
    Log,
    Dir,
}

/// What the caller's sink has to do after a produce step.
#[derive(Debug, PartialEq, Eq)]
pub enum ProduceAction {
    /// Append the batch and a newline to the output file; flush when the
    /// caller requested it.
    WriteFile,
    /// Send the given bytes as one record to the broker topic.
    SendRecord(Vec<u8>),
    /// Nothing to do.
    Nothing,
}

/// The broker-side micro-queue.
pub struct KafkaQueue {
    queue_data: Vec<u8>,
    queue_data_cnt: usize,
    queue_size: usize,
    period_check: bool,
}

impl KafkaQueue {
    /// The queued bytes, for contracts.
    pub closed spec fn spec_data(&self) -> Seq<u8> {
        self.queue_data@
    }

    /// The count of queued non-flush batches, for contracts.
    pub closed spec fn spec_cnt(&self) -> usize {
        self.queue_data_cnt
    }

    /// The configured queue budget, for contracts.
    pub closed spec fn spec_size(&self) -> usize {
        self.queue_size
    }

    /// Whether the periodic flush applies, for contracts.
    pub closed spec fn spec_period_check(&self) -> bool {
        self.period_check
    }
}

/// A producer: the decision state of one sink.
pub enum Producer {
    /// Append batches to a file.
    File,
    /// Queue batches for a broker topic.
    Kafka(KafkaQueue),
    /// Discard batches.
    Null,
}

/// The hard per-batch ceiling of the sink.
pub const DEFAULT_MAX_BYTES: usize = 100_000;

impl Producer {
    /// A producer that appends to a file the caller owns.
    pub fn new_file() -> (r: Self)
        ensures
            r is File,
    {
        Producer::File
    }

    /// A producer that queues for a broker connection the caller owns.
    /// The periodic flush applies to a growing live capture.
    pub fn new_kafka(input_type: KafkaInput, queue_size: usize, grow: bool) -> (r: Self)
        ensures
            match r {
                Producer::Kafka(q) => {
                    &&& q.spec_data().len() == 0
                    &&& q.spec_cnt() == 0
                    &&& q.spec_size() == queue_size
                    &&& q.spec_period_check() == (grow && input_type == KafkaInput::Nic)
                },
                _ => false,
            },
    {
        Producer::Kafka(
            KafkaQueue {
                queue_data: Vec::new(),
                queue_data_cnt: 0,
                queue_size,
                period_check: grow && matches!(input_type, KafkaInput::Nic),
            },
        )
    }

    /// A producer that discards everything.
    pub fn new_null() -> (r: Self)
        ensures
            r is Null,
    {
        Producer::Null
    }

    /// The bytes currently queued for the broker; zero for other sinks.
    pub fn queue_len(&self) -> (r: usize)
        ensures
            r == match *self {
                Producer::Kafka(q) => q.spec_data().len(),
                _ => 0nat,
            },
    {
        match self {
            Producer::Kafka(q) => q.queue_data.len(),
            _ => 0,
        }
    }

    /// The hard per-batch ceiling of the sink.
    pub fn max_bytes() -> (r: usize)
        ensures
            r == DEFAULT_MAX_BYTES,
    {
        DEFAULT_MAX_BYTES
    }

    /// One produce step.  A file producer always hands the batch on; the
    /// broker producer queues the batch and decides whether to flush: on
    /// request, when the caller reports the period elapsed (only where
    /// the periodic flush applies), or when the queue has reached its
    /// budget.  On a flush the sent record is the batch itself and the
    /// queue is dropped, as the sink also does on a send error.
    pub fn produce(&mut self, message: &[u8], flush: bool, periodic: bool) -> (r: ProduceAction)
        requires
            match *old(self) {
                Producer::Kafka(q) => q.spec_data().len() + message@.len() + 1 <= usize::MAX
                    && q.spec_cnt() < usize::MAX,
                _ => true,
            },
        ensures
            match *old(self) {
                Producer::File => r == ProduceAction::WriteFile && *final (self) == *old(self),
                Producer::Null => r == ProduceAction::Nothing && *final (self) == *old(self),
                Producer::Kafka(q) => {
                    let data2 = q.spec_data() + message@;
                    let cnt2 = if message@.len() > 0 && !flush {
                        (q.spec_cnt() + 1) as usize
                    } else {
                        q.spec_cnt()
                    };
                    let send = flush || (q.spec_period_check() && periodic) || data2.len()
                        >= q.spec_size();
                    match *final (self) {
                        Producer::Kafka(q2) => {
                            &&& q2.spec_size() == q.spec_size()
                            &&& q2.spec_period_check() == q.spec_period_check()
                            &&& if send {
                                &&& match r {
                                    ProduceAction::SendRecord(v) => v@ == message@,
                                    _ => false,
                                }
                                &&& q2.spec_data() == Seq::<u8>::empty()
                                &&& q2.spec_cnt() == 0
                            } else {
                                &&& r == ProduceAction::Nothing
                                &&& q2.spec_data() == data2.push(10u8)
                                &&& q2.spec_cnt() == cnt2
                            }
                        },
                        _ => false,
                    }
                },
            },
    {
        match self {
            Producer::File => ProduceAction::WriteFile,
            Producer::Null => ProduceAction::Nothing,
            Producer::Kafka(q) => {
                if message.len() > 0 {
                    extend_bytes(&mut q.queue_data, message, message.len());
                    proof {
                        assert(message@.take(message@.len() as int) =~= message@);
                    }
                    if !flush {
                        q.queue_data_cnt = q.queue_data_cnt + 1;
                    }
                }
                proof {
                    assert(q.queue_data@ =~= old(self)->Kafka_0.spec_data() + message@);
                }
                let send = flush || (q.period_check && periodic) || q.queue_data.len()
                    >= q.queue_size;
                if send {
                    q.queue_data.clear();
                    q.queue_data_cnt = 0;
                    ProduceAction::SendRecord(vstd::slice::slice_to_vec(message))
                } else {
                    q.queue_data.push(10);
                    ProduceAction::Nothing
                }
            },
        }
    }
}

} // verus!
