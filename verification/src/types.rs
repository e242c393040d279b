//! The plain data that moves between the stages.

use crate::error::Error;
use vstd::prelude::*;

verus! {

/// Length of a contract or account address in bytes.
pub const ADDRESS_LENGTH: usize = 20;

/// One log event as the chain recorded it.
#[derive(Clone, Debug, PartialEq, Eq)]
pub struct LogEntry {
    /// The contract that emitted the log.
    pub address: Vec<u8>,
    /// The topics; the first is the signature of the event.
    pub topics: Vec<Vec<u8>>,
    /// The raw payload.
    pub data: Vec<u8>,
    /// Position of the log in the global order of events.
    pub ordinal: u64,
}

/// What a [`LogEntry`] holds.
pub struct LogModel {
    pub address: Seq<u8>,
    pub topics: Seq<Seq<u8>>,
    pub data: Seq<u8>,
    pub ordinal: u64,
}

impl View for LogEntry {
    type V = LogModel;

    open spec fn view(&self) -> LogModel {
        LogModel {
            address: self.address@,
            topics: self.topics.deep_view(),
            data: self.data@,
            ordinal: self.ordinal,
        }
    }
}

impl DeepView for LogEntry {
    type V = LogModel;

    open spec fn deep_view(&self) -> LogModel {
        self@
    }
}

/// Number and time of a block.
#[derive(Clone, Copy, Debug, PartialEq, Eq, Structural)]
pub struct Clock {
    /// The block number.
    pub number: u64,
    /// Seconds since the epoch, where the block carries a timestamp.
    pub timestamp: Option<i64>,
}

/// The logs of a block are in order and come from well-formed addresses.
pub open spec fn logs_in_order(logs: Seq<LogModel>) -> bool {
    &&& forall|i: int| 0 <= i < logs.len() ==> (#[trigger] logs[i]).address.len() == ADDRESS_LENGTH
    &&& forall|i: int, j: int|
        0 <= i < j < logs.len() ==> (#[trigger] logs[i]).ordinal < (#[trigger] logs[j]).ordinal
}

/// A block: its number, its timestamp and its log entries, whose ordinals
/// strictly increase.
#[derive(Debug, PartialEq, Eq)]
pub struct Block {
    number: u64,
    timestamp: i64,
    logs: Vec<LogEntry>,
}

/// What a [`Block`] holds.
pub struct BlockModel {
    pub number: u64,
    pub timestamp: i64,
    pub logs: Seq<LogModel>,
}

impl View for Block {
    type V = BlockModel;

    closed spec fn view(&self) -> BlockModel {
        BlockModel { number: self.number, timestamp: self.timestamp, logs: self.logs.deep_view() }
    }
}

impl Block {
    /// The logs are in order.
    #[verifier::type_invariant]
    spec fn well_formed(self) -> bool {
        logs_in_order(self.logs.deep_view())
    }

    /// Builds a block from what the chain delivered. The addresses must have
    /// twenty bytes and the ordinals must strictly increase.
    pub fn new(number: u64, timestamp: i64, logs: Vec<LogEntry>) -> (r: Result<Block, Error>)
        ensures
            r matches Ok(block) ==> block@ == (BlockModel {
                number,
                timestamp,
                logs: logs.deep_view(),
            }) && logs_in_order(block@.logs),
            r is Ok <==> logs_in_order(logs.deep_view()),
            r matches Err(e) ==> e == (if forall|i: int|
                0 <= i < logs.len() ==> (#[trigger] logs.deep_view()[i]).address.len()
                    == ADDRESS_LENGTH {
                Error::OrdinalOrder
            } else {
                Error::AddressLength
            }),
    {
        let ghost models = logs.deep_view();
        let mut i: usize = 0;
        while i < logs.len()
            invariant
                i <= logs.len(),
                models == logs.deep_view(),
                forall|k: int| 0 <= k < i ==> (#[trigger] models[k]).address.len() == ADDRESS_LENGTH,
            decreases logs.len() - i,
        {
            assert(models[i as int] == logs@[i as int]@);
            if logs[i].address.len() != ADDRESS_LENGTH {
                return Err(Error::AddressLength);
            }
            i = i + 1;
        }
        let mut i: usize = 1;
        while i < logs.len()
            invariant
                1 <= i,
                models == logs.deep_view(),
                forall|k: int|
                    0 <= k < models.len() ==> (#[trigger] models[k]).address.len()
                        == ADDRESS_LENGTH,
                forall|k: int, l: int|
                    0 <= k < l < i && l < models.len() ==> (#[trigger] models[k]).ordinal < (
                    #[trigger] models[l]).ordinal,
            decreases logs.len() - i,
        {
            assert(models[i as int] == logs@[i as int]@);
            assert(models[i - 1] == logs@[i - 1]@);
            if logs[i - 1].ordinal >= logs[i].ordinal {
                return Err(Error::OrdinalOrder);
            }
            i = i + 1;
        }
        Ok(Block { number, timestamp, logs })
    }

    /// The block number.
    pub fn number(&self) -> (n: u64)
        ensures
            n == self@.number,
    {
        self.number
    }

    /// The block's timestamp, in seconds since the epoch.
    pub fn timestamp(&self) -> (t: i64)
        ensures
            t == self@.timestamp,
    {
        self.timestamp
    }

    /// The log entries, in order.
    pub fn logs(&self) -> (logs: &Vec<LogEntry>)
        ensures
            logs.deep_view() == self@.logs,
            logs_in_order(self@.logs),
    {
        proof {
            use_type_invariant(self);
        }
        &self.logs
    }

    /// Number and time of the block.
    pub fn clock(&self) -> (clock: Clock)
        ensures
            clock == (Clock { number: self@.number, timestamp: Some(self@.timestamp) }),
    {
        Clock { number: self.number, timestamp: Some(self.timestamp) }
    }
}

/// The factory addresses of a deployment, as hexadecimal texts.
#[derive(Clone, Debug, PartialEq, Eq)]
pub struct Factories {
    pub factories: Vec<String>,
}

/// The accounts that a block initialised, in log order.
#[derive(Clone, Debug, PartialEq, Eq)]
pub struct Accounts {
    pub accounts: Vec<Vec<u8>>,
}

/// A plugin installed on a tracked account.
#[derive(Clone, Debug, PartialEq, Eq)]
pub struct Plugin {
    /// The plugin's address.
    pub address: Vec<u8>,
    /// The account it was installed on.
    pub account: Vec<u8>,
    /// Ordinal of the log that announced it.
    pub ordinal: u64,
}

/// What a [`Plugin`] holds.
pub struct PluginModel {
    pub address: Seq<u8>,
    pub account: Seq<u8>,
    pub ordinal: u64,
}

impl View for Plugin {
    type V = PluginModel;

    open spec fn view(&self) -> PluginModel {
        PluginModel { address: self.address@, account: self.account@, ordinal: self.ordinal }
    }
}

impl DeepView for Plugin {
    type V = PluginModel;

    open spec fn deep_view(&self) -> PluginModel {
        self@
    }
}

/// The plugins that a block installed, in log order.
#[derive(Clone, Debug, PartialEq, Eq)]
pub struct Plugins {
    pub plugins: Vec<Plugin>,
}

} // verus!
