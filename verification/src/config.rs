//! Run configuration.

use vstd::prelude::*;
use vstd::string::StringSliceAdditionalSpecFns;

verus! {

/// What kind of input a run reads.
#[derive(Clone, Copy, Debug, PartialEq, Eq, Structural)]
pub enum InputType {
    Pcap,
    Nic,
    Log,
    Dir,
}

/// What kind of sink a run writes to.
#[derive(Clone, Copy, Debug, PartialEq, Eq, Structural)]
pub enum OutputType {
    Discard,
    Kafka,
    File,
}

/// Why a configuration is rejected.
#[derive(Clone, Copy, Debug, PartialEq, Eq, Structural)]
pub enum ConfigError {
    /// Broker output chosen but no broker list given.
    BrokerRequired,
    /// Broker output chosen but no topic given.
    TopicRequired,
    /// Discard output chosen but no input given.
    InputRequired,
    /// The queue size exceeds its bound.
    QueueTooLarge,
    /// The data source id is zero.
    BadDatasourceId,
}

/// The queue size bound.
pub const MAX_QUEUE_SIZE: usize = 900_000;

/// A run's configuration.  The entropy cutoff of the sampler is a
/// floating-point ratio and lives with the code that evaluates entropy,
/// outside this library.
#[derive(Clone)]
pub struct Config {
    pub mode_eval: bool,
    pub mode_grow: bool,
    pub mode_polling_dir: bool,
    pub count_skip: usize,
    pub queue_size: usize,
    pub queue_period: i64,
    pub input: String,
    pub output: String,
    pub offset_prefix: String,
    pub packet_filter: String,
    pub kafka_broker: String,
    pub kafka_topic: String,
    pub pattern_file: String,
    pub file_prefix: String,
    pub datasource_id: u8,
    pub initial_seq_no: usize,
    pub count_sent: usize,
    pub input_type: InputType,
    pub output_type: OutputType,
}

impl Default for Config {
    /// The default configuration: broker output, packet-file input, a
    /// full queue budget, and data source 1.
    fn default() -> (r: Self)
        ensures
            !r.mode_eval,
            !r.mode_grow,
            !r.mode_polling_dir,
            r.count_skip == 0,
            r.queue_size == MAX_QUEUE_SIZE,
            r.queue_period == 3,
            r.input@ == Seq::<char>::empty(),
            r.output@ == Seq::<char>::empty(),
            r.offset_prefix@ == Seq::<char>::empty(),
            r.packet_filter@ == Seq::<char>::empty(),
            r.kafka_broker@ == Seq::<char>::empty(),
            r.kafka_topic@ == Seq::<char>::empty(),
            r.pattern_file@ == Seq::<char>::empty(),
            r.file_prefix@ == Seq::<char>::empty(),
            r.datasource_id == 1,
            r.initial_seq_no == 0,
            r.count_sent == 0,
            r.input_type == InputType::Pcap,
            r.output_type == OutputType::Discard,
    {
        Config {
            mode_eval: false,
            mode_grow: false,
            mode_polling_dir: false,
            count_skip: 0,
            queue_size: MAX_QUEUE_SIZE,
            queue_period: 3,
            input: String::new(),
            output: String::new(),
            offset_prefix: String::new(),
            packet_filter: String::new(),
            kafka_broker: String::new(),
            kafka_topic: String::new(),
            pattern_file: String::new(),
            file_prefix: String::new(),
            datasource_id: 1,
            initial_seq_no: 0,
            count_sent: 0,
            input_type: InputType::Pcap,
            output_type: OutputType::Discard,
        }
    }
}

/// Whether the output names the discard sink.
pub open spec fn spec_is_none_output(output: Seq<char>) -> bool {
    vstd::utf8::encode_utf8(output) == "none".spec_bytes()
}

/// Two strings hold the same bytes.
fn str_eq_bytes(a: &str, b: &str) -> (r: bool)
    ensures
        r == (a.spec_bytes() == b.spec_bytes()),
{
    let av = a.as_bytes_vec();
    let bv = b.as_bytes_vec();
    if av.len() != bv.len() {
        proof {
            assert(a.spec_bytes() != b.spec_bytes());
        }
        return false;
    }
    let n = av.len();
    let mut i: usize = 0;
    while i < n
        invariant
            n == av@.len() == bv@.len(),
            av@ == a.spec_bytes(),
            bv@ == b.spec_bytes(),
            0 <= i <= n,
            forall|j: int| 0 <= j < i ==> av@[j] == bv@[j],
        decreases n - i,
    {
        if av[i] != bv[i] {
            proof {
                assert(av@[i as int] != bv@[i as int]);
            }
            return false;
        }
        i += 1;
    }
    proof {
        assert(av@ =~= bv@);
    }
    true
}

impl Config {
    /// Checks the cross-field constraints: broker output needs a broker
    /// and a topic, discard output needs an input, the queue budget is
    /// bounded, and the data source id is nonzero.
    pub fn validate(&self) -> (r: Result<(), ConfigError>)
        ensures
            r == Err::<(), ConfigError>(ConfigError::BrokerRequired) <==> (self.output@.len() == 0
                && self.kafka_broker@.len() == 0),
            r == Err::<(), ConfigError>(ConfigError::TopicRequired) <==> (self.output@.len() == 0
                && self.kafka_broker@.len() > 0 && self.kafka_topic@.len() == 0),
            r == Err::<(), ConfigError>(ConfigError::InputRequired) <==> (!(self.output@.len() == 0
                && (self.kafka_broker@.len() == 0 || self.kafka_topic@.len() == 0))
                && self.input@.len() == 0 && spec_is_none_output(self.output@)),
            r == Err::<(), ConfigError>(ConfigError::QueueTooLarge) <==> (!(self.output@.len() == 0
                && (self.kafka_broker@.len() == 0 || self.kafka_topic@.len() == 0)) && !(
            self.input@.len() == 0 && spec_is_none_output(self.output@))
                && self.queue_size > MAX_QUEUE_SIZE),
            r == Err::<(), ConfigError>(ConfigError::BadDatasourceId) <==> (!(self.output@.len()
                == 0 && (self.kafka_broker@.len() == 0 || self.kafka_topic@.len() == 0)) && !(
            self.input@.len() == 0 && spec_is_none_output(self.output@)) && !(
            self.queue_size > MAX_QUEUE_SIZE) && self.datasource_id == 0),
    {
        if self.output.as_str().is_empty() && self.kafka_broker.as_str().is_empty() {
            return Err(ConfigError::BrokerRequired);
        }
        if self.output.as_str().is_empty() && self.kafka_topic.as_str().is_empty() {
            return Err(ConfigError::TopicRequired);
        }
        if self.input.as_str().is_empty() && str_eq_bytes(self.output.as_str(), "none") {
            return Err(ConfigError::InputRequired);
        }
        if self.queue_size > MAX_QUEUE_SIZE {
            return Err(ConfigError::QueueTooLarge);
        }
        if self.datasource_id == 0 {
            return Err(ConfigError::BadDatasourceId);
        }
        Ok(())
    }
}

} // verus!
