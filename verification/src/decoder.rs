//! From log entries to typed domain events.
//!
//! Decoding is driven by a table. Each entry of the table belongs to one role
//! and describes one shape of log: the signature in the first topic, the number
//! of topics, the length of the payload, and where each field of the event is
//! found. A log is decoded by the entries of the role of its emitter and by no
//! others; a log that fits none of them is dropped.

use crate::bigint::{decimal_string, is_decimal, lemma_decimal_round_trip};
use crate::error::Error;
use crate::registry::{copy_bytes, same_bytes, Role};
use crate::types::{LogEntry, LogModel};
use vstd::prelude::*;

verus! {

/// Length of an encoded word in bytes.
pub const WORD: usize = 32;

/// The kinds of event that are recognised.
#[derive(Clone, Copy, Debug, PartialEq, Eq, Structural)]
pub enum EventKind {
    Transfer,
    PositionOpened,
    PositionClosed,
    MarketEntered,
    MarketExited,
    AccountInitialized,
    PluginInstalled,
}

/// Where a field of an event sits in a log: in a topic, or in a word of the
/// payload.
#[derive(Clone, Copy, Debug, PartialEq, Eq, Structural)]
pub enum FieldSource {
    /// The topic at this index.
    Topic(usize),
    /// The word of the payload at this index, that is at byte `32 * index`.
    Word(usize),
}

/// A typed event. Amounts and other numbers are carried as decimal text; every
/// event carries the ordinal of its log.
#[derive(Clone, Debug, PartialEq, Eq)]
pub enum DomainEvent {
    /// Shares of a market moved between two accounts. The market is the
    /// emitter.
    Transfer { token: Vec<u8>, from: Vec<u8>, to: Vec<u8>, amount: String, ordinal: u64 },
    /// A fixed-term position was opened or enlarged. The market is the emitter.
    PositionOpened {
        market: Vec<u8>,
        maturity: String,
        borrower: Vec<u8>,
        principal: String,
        fee: String,
        ordinal: u64,
    },
    /// A fixed-term position was closed or reduced. The market is the emitter.
    PositionClosed {
        market: Vec<u8>,
        maturity: String,
        borrower: Vec<u8>,
        principal: String,
        ordinal: u64,
    },
    /// An account enrolled in a market.
    MarketEntered { market: Vec<u8>, account: Vec<u8>, ordinal: u64 },
    /// An account left a market.
    MarketExited { market: Vec<u8>, account: Vec<u8>, ordinal: u64 },
    /// An account was initialised.
    AccountInitialized { account: Vec<u8>, ordinal: u64 },
    /// A plugin was installed on an account. The account is the emitter.
    PluginInstalled { plugin: Vec<u8>, account: Vec<u8>, ordinal: u64 },
}

/// What a [`DomainEvent`] holds.
pub enum EventModel {
    Transfer { token: Seq<u8>, from: Seq<u8>, to: Seq<u8>, amount: Seq<char>, ordinal: u64 },
    PositionOpened {
        market: Seq<u8>,
        maturity: Seq<char>,
        borrower: Seq<u8>,
        principal: Seq<char>,
        fee: Seq<char>,
        ordinal: u64,
    },
    PositionClosed {
        market: Seq<u8>,
        maturity: Seq<char>,
        borrower: Seq<u8>,
        principal: Seq<char>,
        ordinal: u64,
    },
    MarketEntered { market: Seq<u8>, account: Seq<u8>, ordinal: u64 },
    MarketExited { market: Seq<u8>, account: Seq<u8>, ordinal: u64 },
    AccountInitialized { account: Seq<u8>, ordinal: u64 },
    PluginInstalled { plugin: Seq<u8>, account: Seq<u8>, ordinal: u64 },
}

impl View for DomainEvent {
    type V = EventModel;

    open spec fn view(&self) -> EventModel {
        match self {
            DomainEvent::Transfer { token, from, to, amount, ordinal } => EventModel::Transfer {
                token: token@,
                from: from@,
                to: to@,
                amount: amount@,
                ordinal: *ordinal,
            },
            DomainEvent::PositionOpened { market, maturity, borrower, principal, fee, ordinal } =>
                EventModel::PositionOpened {
                market: market@,
                maturity: maturity@,
                borrower: borrower@,
                principal: principal@,
                fee: fee@,
                ordinal: *ordinal,
            },
            DomainEvent::PositionClosed { market, maturity, borrower, principal, ordinal } =>
                EventModel::PositionClosed {
                market: market@,
                maturity: maturity@,
                borrower: borrower@,
                principal: principal@,
                ordinal: *ordinal,
            },
            DomainEvent::MarketEntered { market, account, ordinal } => EventModel::MarketEntered {
                market: market@,
                account: account@,
                ordinal: *ordinal,
            },
            DomainEvent::MarketExited { market, account, ordinal } => EventModel::MarketExited {
                market: market@,
                account: account@,
                ordinal: *ordinal,
            },
            DomainEvent::AccountInitialized { account, ordinal } => EventModel::AccountInitialized {
                account: account@,
                ordinal: *ordinal,
            },
            DomainEvent::PluginInstalled { plugin, account, ordinal } =>
                EventModel::PluginInstalled {
                plugin: plugin@,
                account: account@,
                ordinal: *ordinal,
            },
        }
    }
}

impl DeepView for DomainEvent {
    type V = EventModel;

    open spec fn deep_view(&self) -> EventModel {
        self@
    }
}

/// The kind of an event.
pub open spec fn kind_of(event: EventModel) -> EventKind {
    match event {
        EventModel::Transfer { .. } => EventKind::Transfer,
        EventModel::PositionOpened { .. } => EventKind::PositionOpened,
        EventModel::PositionClosed { .. } => EventKind::PositionClosed,
        EventModel::MarketEntered { .. } => EventKind::MarketEntered,
        EventModel::MarketExited { .. } => EventKind::MarketExited,
        EventModel::AccountInitialized { .. } => EventKind::AccountInitialized,
        EventModel::PluginInstalled { .. } => EventKind::PluginInstalled,
    }
}

/// The ordinal of the log that an event was decoded from.
pub open spec fn ordinal_of(event: EventModel) -> u64 {
    match event {
        EventModel::Transfer { ordinal, .. } => ordinal,
        EventModel::PositionOpened { ordinal, .. } => ordinal,
        EventModel::PositionClosed { ordinal, .. } => ordinal,
        EventModel::MarketEntered { ordinal, .. } => ordinal,
        EventModel::MarketExited { ordinal, .. } => ordinal,
        EventModel::AccountInitialized { ordinal, .. } => ordinal,
        EventModel::PluginInstalled { ordinal, .. } => ordinal,
    }
}

impl DomainEvent {
    /// The kind of the event.
    pub fn kind(&self) -> (kind: EventKind)
        ensures
            kind == kind_of(self@),
    {
        match self {
            DomainEvent::Transfer { .. } => EventKind::Transfer,
            DomainEvent::PositionOpened { .. } => EventKind::PositionOpened,
            DomainEvent::PositionClosed { .. } => EventKind::PositionClosed,
            DomainEvent::MarketEntered { .. } => EventKind::MarketEntered,
            DomainEvent::MarketExited { .. } => EventKind::MarketExited,
            DomainEvent::AccountInitialized { .. } => EventKind::AccountInitialized,
            DomainEvent::PluginInstalled { .. } => EventKind::PluginInstalled,
        }
    }

    /// A copy of the event.
    pub fn duplicate(&self) -> (copy: DomainEvent)
        ensures
            copy@ == self@,
    {
        match self {
            DomainEvent::Transfer { token, from, to, amount, ordinal } => DomainEvent::Transfer {
                token: copy_bytes(token.as_slice()),
                from: copy_bytes(from.as_slice()),
                to: copy_bytes(to.as_slice()),
                amount: amount.clone(),
                ordinal: *ordinal,
            },
            DomainEvent::PositionOpened { market, maturity, borrower, principal, fee, ordinal } =>
                DomainEvent::PositionOpened {
                market: copy_bytes(market.as_slice()),
                maturity: maturity.clone(),
                borrower: copy_bytes(borrower.as_slice()),
                principal: principal.clone(),
                fee: fee.clone(),
                ordinal: *ordinal,
            },
            DomainEvent::PositionClosed { market, maturity, borrower, principal, ordinal } =>
                DomainEvent::PositionClosed {
                market: copy_bytes(market.as_slice()),
                maturity: maturity.clone(),
                borrower: copy_bytes(borrower.as_slice()),
                principal: principal.clone(),
                ordinal: *ordinal,
            },
            DomainEvent::MarketEntered { market, account, ordinal } => DomainEvent::MarketEntered {
                market: copy_bytes(market.as_slice()),
                account: copy_bytes(account.as_slice()),
                ordinal: *ordinal,
            },
            DomainEvent::MarketExited { market, account, ordinal } => DomainEvent::MarketExited {
                market: copy_bytes(market.as_slice()),
                account: copy_bytes(account.as_slice()),
                ordinal: *ordinal,
            },
            DomainEvent::AccountInitialized { account, ordinal } =>
                DomainEvent::AccountInitialized {
                account: copy_bytes(account.as_slice()),
                ordinal: *ordinal,
            },
            DomainEvent::PluginInstalled { plugin, account, ordinal } =>
                DomainEvent::PluginInstalled {
                plugin: copy_bytes(plugin.as_slice()),
                account: copy_bytes(account.as_slice()),
                ordinal: *ordinal,
            },
        }
    }

    /// The ordinal of the log that the event was decoded from.
    pub fn ordinal(&self) -> (ordinal: u64)
        ensures
            ordinal == ordinal_of(self@),
    {
        match self {
            DomainEvent::Transfer { ordinal, .. } => *ordinal,
            DomainEvent::PositionOpened { ordinal, .. } => *ordinal,
            DomainEvent::PositionClosed { ordinal, .. } => *ordinal,
            DomainEvent::MarketEntered { ordinal, .. } => *ordinal,
            DomainEvent::MarketExited { ordinal, .. } => *ordinal,
            DomainEvent::AccountInitialized { ordinal, .. } => *ordinal,
            DomainEvent::PluginInstalled { ordinal, .. } => *ordinal,
        }
    }
}

/// Number of fields that a decoder reads for an event of a kind: all its
/// fields but the emitter and the ordinal.
///
/// The fields are, in order: for a transfer the sender, the receiver and the
/// amount; for an opened position the maturity, the borrower, the principal and
/// the fee; for a closed position the maturity, the borrower and the principal;
/// for an entered or exited market the market and the account; for an
/// initialised account the account; for an installed plugin the plugin.
pub open spec fn field_count(kind: EventKind) -> int {
    match kind {
        EventKind::Transfer => 3,
        EventKind::PositionOpened => 4,
        EventKind::PositionClosed => 3,
        EventKind::MarketEntered => 2,
        EventKind::MarketExited => 2,
        EventKind::AccountInitialized => 1,
        EventKind::PluginInstalled => 1,
    }
}

/// One shape of log and the event it is decoded into.
#[derive(Clone, Debug, PartialEq, Eq)]
pub struct Decoder {
    /// The role whose logs the decoder is tried on.
    pub role: Role,
    /// The kind of event that it gives.
    pub kind: EventKind,
    /// The first topic of a matching log.
    pub signature: Vec<u8>,
    /// The number of topics of a matching log, the signature among them.
    pub topic_count: usize,
    /// The length of the payload of a matching log: exactly this where
    /// `exact_length` is set, at least this where it is not.
    pub data_length: usize,
    pub exact_length: bool,
    /// Where the fields of the event are read, in the order of the fields.
    pub sources: Vec<FieldSource>,
}

/// What a [`Decoder`] holds.
pub struct DecoderModel {
    pub role: Role,
    pub kind: EventKind,
    pub signature: Seq<u8>,
    pub topic_count: int,
    pub data_length: int,
    pub exact_length: bool,
    pub sources: Seq<FieldSource>,
}

impl View for Decoder {
    type V = DecoderModel;

    open spec fn view(&self) -> DecoderModel {
        DecoderModel {
            role: self.role,
            kind: self.kind,
            signature: self.signature@,
            topic_count: self.topic_count as int,
            data_length: self.data_length as int,
            exact_length: self.exact_length,
            sources: self.sources@,
        }
    }
}

impl DeepView for Decoder {
    type V = DecoderModel;

    open spec fn deep_view(&self) -> DecoderModel {
        self@
    }
}

/// A decoder is sound where it names one source for each field of its kind,
/// every topic it reads is one of the topics of a matching log and is not the
/// signature, and every word it reads lies within the payload of a matching
/// log.
pub open spec fn sound(decoder: DecoderModel) -> bool {
    &&& decoder.sources.len() == field_count(decoder.kind)
    &&& forall|i: int|
        0 <= i < decoder.sources.len() ==> match #[trigger] decoder.sources[i] {
            FieldSource::Topic(t) => 1 <= t < decoder.topic_count,
            FieldSource::Word(w) => WORD * (w + 1) <= decoder.data_length,
        }
}

/// Whether a log has the shape that a decoder describes: the number of topics,
/// the length of the payload, and the signature in the first topic.
pub open spec fn fits(decoder: DecoderModel, log: LogModel) -> bool {
    &&& log.topics.len() == decoder.topic_count
    &&& log.topics.len() >= 1
    &&& if decoder.exact_length {
        log.data.len() == decoder.data_length
    } else {
        log.data.len() >= decoder.data_length
    }
    &&& log.topics[0] == decoder.signature
}

/// The word of 32 bytes that starts at an offset, where the bytes reach that
/// far.
pub open spec fn word_at(bytes: Seq<u8>, offset: int) -> Option<Seq<u8>> {
    if 0 <= offset && offset + WORD <= bytes.len() {
        Some(bytes.subrange(offset, offset + WORD))
    } else {
        None
    }
}

/// The word that a source points at.
pub open spec fn source_word(log: LogModel, source: FieldSource) -> Option<Seq<u8>> {
    match source {
        FieldSource::Topic(t) => if t < log.topics.len() {
            word_at(log.topics[t as int], 0)
        } else {
            None
        },
        FieldSource::Word(w) => word_at(log.data, WORD * w),
    }
}

/// Value of a byte string read as an unsigned integer, most significant byte
/// first.
pub open spec fn be_value(bytes: Seq<u8>) -> nat
    decreases bytes.len(),
{
    if bytes.len() == 0 {
        0
    } else {
        256 * be_value(bytes.drop_last()) + bytes.last() as nat
    }
}

/// The address in a word: its last twenty bytes.
pub open spec fn address_in(word: Seq<u8>) -> Seq<u8> {
    word.subrange(12, 32)
}

/// The unsigned integer in a word, as decimal text.
pub open spec fn number_in(word: Seq<u8>) -> Seq<char> {
    decimal_string(be_value(word) as int)
}

/// The address that a source points at.
pub open spec fn source_address(log: LogModel, sources: Seq<FieldSource>, i: int) -> Option<
    Seq<u8>,
> {
    if 0 <= i < sources.len() {
        match source_word(log, sources[i]) {
            Some(word) => Some(address_in(word)),
            None => None,
        }
    } else {
        None
    }
}

/// The number that a source points at, as decimal text.
pub open spec fn source_number(log: LogModel, sources: Seq<FieldSource>, i: int) -> Option<
    Seq<char>,
> {
    if 0 <= i < sources.len() {
        match source_word(log, sources[i]) {
            Some(word) => Some(number_in(word)),
            None => None,
        }
    } else {
        None
    }
}

/// The event that the fields of a log give, read where the sources say. There
/// is none where a field cannot be read.
pub open spec fn event_fields(kind: EventKind, sources: Seq<FieldSource>, log: LogModel) -> Option<
    EventModel,
> {
    let a0 = source_address(log, sources, 0);
    let a1 = source_address(log, sources, 1);
    let n0 = source_number(log, sources, 0);
    let n2 = source_number(log, sources, 2);
    let n3 = source_number(log, sources, 3);
    match kind {
        EventKind::Transfer => if a0 is Some && a1 is Some && n2 is Some {
            Some(
                EventModel::Transfer {
                    token: log.address,
                    from: a0->0,
                    to: a1->0,
                    amount: n2->0,
                    ordinal: log.ordinal,
                },
            )
        } else {
            None
        },
        EventKind::PositionOpened => if n0 is Some && a1 is Some && n2 is Some && n3 is Some {
            Some(
                EventModel::PositionOpened {
                    market: log.address,
                    maturity: n0->0,
                    borrower: a1->0,
                    principal: n2->0,
                    fee: n3->0,
                    ordinal: log.ordinal,
                },
            )
        } else {
            None
        },
        EventKind::PositionClosed => if n0 is Some && a1 is Some && n2 is Some {
            Some(
                EventModel::PositionClosed {
                    market: log.address,
                    maturity: n0->0,
                    borrower: a1->0,
                    principal: n2->0,
                    ordinal: log.ordinal,
                },
            )
        } else {
            None
        },
        EventKind::MarketEntered => if a0 is Some && a1 is Some {
            Some(EventModel::MarketEntered { market: a0->0, account: a1->0, ordinal: log.ordinal })
        } else {
            None
        },
        EventKind::MarketExited => if a0 is Some && a1 is Some {
            Some(EventModel::MarketExited { market: a0->0, account: a1->0, ordinal: log.ordinal })
        } else {
            None
        },
        EventKind::AccountInitialized => if a0 is Some {
            Some(EventModel::AccountInitialized { account: a0->0, ordinal: log.ordinal })
        } else {
            None
        },
        EventKind::PluginInstalled => if a0 is Some {
            Some(
                EventModel::PluginInstalled {
                    plugin: a0->0,
                    account: log.address,
                    ordinal: log.ordinal,
                },
            )
        } else {
            None
        },
    }
}

/// What one decoder makes of a log: the event, where the log fits the shape and
/// every field can be read.
pub open spec fn decoded_by(decoder: DecoderModel, log: LogModel) -> Option<EventModel> {
    if fits(decoder, log) {
        event_fields(decoder.kind, decoder.sources, log)
    } else {
        None
    }
}

/// What the decoders of one role make of a log: the event of the first decoder
/// of that role, in the order of the table, that decodes the log.
pub open spec fn decoded(decoders: Seq<DecoderModel>, role: Role, log: LogModel) -> Option<
    EventModel,
>
    decreases decoders.len(),
{
    if decoders.len() == 0 {
        None
    } else if decoders[0].role == role && decoded_by(decoders[0], log) is Some {
        decoded_by(decoders[0], log)
    } else {
        decoded(decoders.skip(1), role, log)
    }
}

/// `substreams_ethereum::abi::read_address`: the last twenty bytes of the word
/// of 32 bytes at the offset; an error where the bytes end before the word
/// does.
#[verifier::external_body]
fn abi_address(bytes: &[u8], offset: usize) -> (address: Option<Vec<u8>>)
    ensures
        address is Some <==> word_at(bytes@, offset as int) is Some,
        address matches Some(a) ==> a@ == address_in(word_at(bytes@, offset as int)->0),
{
    match substreams_ethereum::abi::read_address(bytes, offset, "address") {
        Ok(address) => Some(address),
        Err(_) => None,
    }
}

/// `substreams_ethereum::abi::read_uint`, rendered with the `to_string` of the
/// big integer it returns: the word of 32 bytes at the offset, read as an
/// unsigned integer with the most significant byte first and written in base
/// ten without leading zeros; an error where the bytes end before the word
/// does.
#[verifier::external_body]
fn abi_number(bytes: &[u8], offset: usize) -> (number: Option<String>)
    ensures
        number is Some <==> word_at(bytes@, offset as int) is Some,
        number matches Some(n) ==> n@ == number_in(word_at(bytes@, offset as int)->0),
{
    match substreams_ethereum::abi::read_uint(bytes, offset, "number") {
        Ok(number) => Some(number.to_string()),
        Err(_) => None,
    }
}

/// The bytes and the offset that a source points at.
fn source_place<'a>(log: &'a LogEntry, source: FieldSource) -> (place: Option<(&'a [u8], usize)>)
    ensures
        place is Some <==> source_word(log@, source) is Some,
        place matches Some((bytes, offset)) ==> word_at(bytes@, offset as int) == source_word(
            log@,
            source,
        ),
{
    match source {
        FieldSource::Topic(t) => {
            if t < log.topics.len() {
                assert(log@.topics[t as int] == log.topics@[t as int]@);
                let topic = log.topics[t].as_slice();
                if topic.len() >= WORD {
                    Some((topic, 0))
                } else {
                    None
                }
            } else {
                None
            }
        },
        FieldSource::Word(w) => {
            if w < log.data.len() / WORD {
                let offset = WORD * w;
                assert(offset + WORD <= log.data@.len());
                Some((log.data.as_slice(), offset))
            } else {
                None
            }
        },
    }
}

/// The address that the source of a field points at.
fn read_address(log: &LogEntry, sources: &Vec<FieldSource>, i: usize) -> (r: Option<Vec<u8>>)
    ensures
        r is Some <==> source_address(log@, sources@, i as int) is Some,
        r matches Some(a) ==> a@ == source_address(log@, sources@, i as int)->0,
{
    if i < sources.len() {
        match source_place(log, sources[i]) {
            Some((bytes, offset)) => abi_address(bytes, offset),
            None => None,
        }
    } else {
        None
    }
}

/// The number that the source of a field points at, as decimal text.
fn read_number(log: &LogEntry, sources: &Vec<FieldSource>, i: usize) -> (r: Option<String>)
    ensures
        r is Some <==> source_number(log@, sources@, i as int) is Some,
        r matches Some(n) ==> n@ == source_number(log@, sources@, i as int)->0,
{
    if i < sources.len() {
        match source_place(log, sources[i]) {
            Some((bytes, offset)) => abi_number(bytes, offset),
            None => None,
        }
    } else {
        None
    }
}

/// The decoders of one kind among a run of decoders, in order.
pub open spec fn decoders_of_kind(decoders: Seq<DecoderModel>, kind: EventKind) -> Seq<
    DecoderModel,
>
    decreases decoders.len(),
{
    if decoders.len() == 0 {
        Seq::empty()
    } else if decoders.last().kind == kind {
        decoders_of_kind(decoders.drop_last(), kind).push(decoders.last())
    } else {
        decoders_of_kind(decoders.drop_last(), kind)
    }
}

impl Decoder {
    /// A copy of the decoder.
    pub fn duplicate(&self) -> (copy: Decoder)
        ensures
            copy@ == self@,
    {
        let mut sources: Vec<FieldSource> = Vec::new();
        let mut i: usize = 0;
        while i < self.sources.len()
            invariant
                i <= self.sources@.len(),
                sources@ == self.sources@.take(i as int),
            decreases self.sources@.len() - i,
        {
            sources.push(self.sources[i]);
            assert(sources@ =~= self.sources@.take(i + 1));
            i = i + 1;
        }
        assert(self.sources@.take(self.sources@.len() as int) =~= self.sources@);
        Decoder {
            role: self.role,
            kind: self.kind,
            signature: copy_bytes(self.signature.as_slice()),
            topic_count: self.topic_count,
            data_length: self.data_length,
            exact_length: self.exact_length,
            sources,
        }
    }

    /// Whether the decoder is sound: one source for each field, within the
    /// shape it describes.
    pub fn is_sound(&self) -> (r: bool)
        ensures
            r == sound(self@),
    {
        let wanted: usize = match self.kind {
            EventKind::Transfer => 3,
            EventKind::PositionOpened => 4,
            EventKind::PositionClosed => 3,
            EventKind::MarketEntered => 2,
            EventKind::MarketExited => 2,
            EventKind::AccountInitialized => 1,
            EventKind::PluginInstalled => 1,
        };
        if self.sources.len() != wanted {
            return false;
        }
        let mut i: usize = 0;
        while i < self.sources.len()
            invariant
                i <= self.sources@.len(),
                forall|k: int|
                    0 <= k < i ==> match #[trigger] self.sources@[k] {
                        FieldSource::Topic(t) => 1 <= t < self.topic_count,
                        FieldSource::Word(w) => WORD * (w + 1) <= self.data_length,
                    },
            decreases self.sources@.len() - i,
        {
            let inside = match self.sources[i] {
                FieldSource::Topic(t) => 1 <= t && t < self.topic_count,
                FieldSource::Word(w) => w < self.data_length / WORD,
            };
            if !inside {
                return false;
            }
            i = i + 1;
        }
        true
    }

    /// Whether a log has the shape that the decoder describes.
    pub fn fits(&self, log: &LogEntry) -> (r: bool)
        ensures
            r == fits(self@, log@),
    {
        if log.topics.len() != self.topic_count || log.topics.len() < 1 {
            return false;
        }
        let length_fits = if self.exact_length {
            log.data.len() == self.data_length
        } else {
            log.data.len() >= self.data_length
        };
        if !length_fits {
            return false;
        }
        assert(log@.topics[0] == log.topics@[0]@);
        same_bytes(log.topics[0].as_slice(), self.signature.as_slice())
    }

    /// What the decoder makes of a log: the event, where the log fits the shape
    /// and every field can be read.
    pub fn decode(&self, log: &LogEntry) -> (event: Option<DomainEvent>)
        ensures
            event is Some <==> decoded_by(self@, log@) is Some,
            event matches Some(e) ==> e@ == decoded_by(self@, log@)->0,
    {
        if !self.fits(log) {
            return None;
        }
        let ordinal = log.ordinal;
        match self.kind {
            EventKind::Transfer => {
                let from = read_address(log, &self.sources, 0);
                let to = read_address(log, &self.sources, 1);
                let amount = read_number(log, &self.sources, 2);
                match (from, to, amount) {
                    (Some(from), Some(to), Some(amount)) => Some(
                        DomainEvent::Transfer {
                            token: copy_bytes(log.address.as_slice()),
                            from,
                            to,
                            amount,
                            ordinal,
                        },
                    ),
                    _ => None,
                }
            },
            EventKind::PositionOpened => {
                let maturity = read_number(log, &self.sources, 0);
                let borrower = read_address(log, &self.sources, 1);
                let principal = read_number(log, &self.sources, 2);
                let fee = read_number(log, &self.sources, 3);
                match (maturity, borrower, principal, fee) {
                    (Some(maturity), Some(borrower), Some(principal), Some(fee)) => Some(
                        DomainEvent::PositionOpened {
                            market: copy_bytes(log.address.as_slice()),
                            maturity,
                            borrower,
                            principal,
                            fee,
                            ordinal,
                        },
                    ),
                    _ => None,
                }
            },
            EventKind::PositionClosed => {
                let maturity = read_number(log, &self.sources, 0);
                let borrower = read_address(log, &self.sources, 1);
                let principal = read_number(log, &self.sources, 2);
                match (maturity, borrower, principal) {
                    (Some(maturity), Some(borrower), Some(principal)) => Some(
                        DomainEvent::PositionClosed {
                            market: copy_bytes(log.address.as_slice()),
                            maturity,
                            borrower,
                            principal,
                            ordinal,
                        },
                    ),
                    _ => None,
                }
            },
            EventKind::MarketEntered => {
                let market = read_address(log, &self.sources, 0);
                let account = read_address(log, &self.sources, 1);
                match (market, account) {
                    (Some(market), Some(account)) => Some(
                        DomainEvent::MarketEntered { market, account, ordinal },
                    ),
                    _ => None,
                }
            },
            EventKind::MarketExited => {
                let market = read_address(log, &self.sources, 0);
                let account = read_address(log, &self.sources, 1);
                match (market, account) {
                    (Some(market), Some(account)) => Some(
                        DomainEvent::MarketExited { market, account, ordinal },
                    ),
                    _ => None,
                }
            },
            EventKind::AccountInitialized => {
                match read_address(log, &self.sources, 0) {
                    Some(account) => Some(DomainEvent::AccountInitialized { account, ordinal }),
                    None => None,
                }
            },
            EventKind::PluginInstalled => {
                match read_address(log, &self.sources, 0) {
                    Some(plugin) => Some(
                        DomainEvent::PluginInstalled {
                            plugin,
                            account: copy_bytes(log.address.as_slice()),
                            ordinal,
                        },
                    ),
                    None => None,
                }
            },
        }
    }
}

/// The decoders of a deployment, in the order in which they are tried.
pub struct DecoderTable {
    decoders: Vec<Decoder>,
}

impl View for DecoderTable {
    type V = Seq<DecoderModel>;

    closed spec fn view(&self) -> Seq<DecoderModel> {
        self.decoders.deep_view()
    }
}

impl DecoderTable {
    /// A table without decoders.
    pub fn new() -> (table: DecoderTable)
        ensures
            table@ == Seq::<DecoderModel>::empty(),
    {
        let table = DecoderTable { decoders: Vec::new() };
        assert(table.decoders.deep_view() =~= Seq::<DecoderModel>::empty());
        table
    }

    /// Adds a decoder behind those that the table holds. A decoder that is not
    /// sound is refused, and the table stays as it was.
    pub fn register(&mut self, decoder: Decoder) -> (r: Result<(), Error>)
        ensures
            r is Ok <==> sound(decoder@),
            r is Ok ==> final(self)@ == old(self)@.push(decoder@),
            r matches Err(e) ==> e == Error::MalformedDecoder && final(self)@ == old(self)@,
    {
        if !decoder.is_sound() {
            return Err(Error::MalformedDecoder);
        }
        let ghost before = self.decoders.deep_view();
        self.decoders.push(decoder);
        assert(self.decoders.deep_view() =~= before.push(decoder@));
        Ok(())
    }

    /// The table of the decoders of one kind, in their order.
    pub fn of_kind(&self, kind: EventKind) -> (table: DecoderTable)
        ensures
            table@ == decoders_of_kind(self@, kind),
    {
        let ghost all = self.decoders.deep_view();
        let mut found: Vec<Decoder> = Vec::new();
        let mut i: usize = 0;
        assert(all.take(0) =~= Seq::<DecoderModel>::empty());
        assert(found.deep_view() =~= Seq::<DecoderModel>::empty());
        while i < self.decoders.len()
            invariant
                i <= self.decoders@.len(),
                all == self.decoders.deep_view(),
                found.deep_view() == decoders_of_kind(all.take(i as int), kind),
            decreases self.decoders@.len() - i,
        {
            proof {
                assert(all.take(i + 1).drop_last() =~= all.take(i as int));
                assert(all.take(i + 1).last() == self.decoders@[i as int]@);
            }
            if self.decoders[i].kind == kind {
                let ghost before = found.deep_view();
                let copy = self.decoders[i].duplicate();
                found.push(copy);
                assert(found.deep_view() =~= before.push(copy@));
            }
            i = i + 1;
        }
        assert(all.take(self.decoders@.len() as int) =~= all);
        DecoderTable { decoders: found }
    }

    /// Decodes a log with the decoders of the role of its emitter: the event of
    /// the first of them that decodes it, or nothing where none does.
    pub fn decode(&self, role: Role, log: &LogEntry) -> (event: Option<DomainEvent>)
        ensures
            event is Some <==> decoded(self@, role, log@) is Some,
            event matches Some(e) ==> e@ == decoded(self@, role, log@)->0,
    {
        let ghost all = self.decoders.deep_view();
        let mut i: usize = 0;
        assert(all.skip(0) =~= all);
        while i < self.decoders.len()
            invariant
                i <= self.decoders@.len(),
                all == self.decoders.deep_view(),
                decoded(all, role, log@) == decoded(all.skip(i as int), role, log@),
            decreases self.decoders@.len() - i,
        {
            proof {
                assert(all.skip(i as int)[0] == self.decoders@[i as int]@);
                assert(all.skip(i as int).skip(1) =~= all.skip(i + 1));
            }
            if self.decoders[i].role == role {
                match self.decoders[i].decode(log) {
                    Some(event) => {
                        return Some(event);
                    },
                    None => {},
                }
            }
            i = i + 1;
        }
        None
    }
}

/// Roles are exclusive in decoding: the event of a log comes from a decoder of
/// the role that the log was decoded under, and where no decoder of that role
/// decodes the log there is no event, whatever the decoders of other roles
/// would make of it.
pub proof fn lemma_role_exclusive(decoders: Seq<DecoderModel>, role: Role, log: LogModel)
    ensures
        match decoded(decoders, role, log) {
            Some(event) => exists|i: int|
                0 <= i < decoders.len() && (#[trigger] decoders[i]).role == role && decoded_by(
                    decoders[i],
                    log,
                ) == Some(event),
            None => forall|i: int|
                0 <= i < decoders.len() && (#[trigger] decoders[i]).role == role ==> decoded_by(
                    decoders[i],
                    log,
                ) is None,
        },
    decreases decoders.len(),
{
    if decoders.len() > 0 {
        let rest = decoders.skip(1);
        if decoders[0].role == role && decoded_by(decoders[0], log) is Some {
        } else {
            lemma_role_exclusive(rest, role, log);
            match decoded(rest, role, log) {
                Some(event) => {
                    let i = choose|i: int|
                        0 <= i < rest.len() && (#[trigger] rest[i]).role == role && decoded_by(
                            rest[i],
                            log,
                        ) == Some(event);
                    assert(decoders[i + 1] == rest[i]);
                },
                None => {
                    assert forall|i: int|
                        0 <= i < decoders.len() && (#[trigger] decoders[i]).role
                            == role implies decoded_by(decoders[i], log) is None by {
                        if i > 0 {
                            assert(decoders[i] == rest[i - 1]);
                        }
                    }
                },
            }
        }
    }
}

/// Whether the numeric fields of an event are decimal texts.
pub open spec fn numbers_decimal(event: EventModel) -> bool {
    match event {
        EventModel::Transfer { amount, .. } => is_decimal(amount),
        EventModel::PositionOpened { maturity, principal, fee, .. } => is_decimal(maturity)
            && is_decimal(principal) && is_decimal(fee),
        EventModel::PositionClosed { maturity, principal, .. } => is_decimal(maturity)
            && is_decimal(principal),
        _ => true,
    }
}

/// What decoding gives is well formed: the event carries the ordinal of its
/// log, and its numeric fields are decimal texts.
pub proof fn lemma_decoded_event(decoders: Seq<DecoderModel>, role: Role, log: LogModel)
    ensures
        decoded(decoders, role, log) matches Some(event) ==> ordinal_of(event) == log.ordinal
            && numbers_decimal(event),
    decreases decoders.len(),
{
    if decoders.len() > 0 {
        if decoders[0].role == role && decoded_by(decoders[0], log) is Some {
            let sources = decoders[0].sources;
            assert forall|i: int| source_number(log, sources, i) is Some implies is_decimal(
                #[trigger] source_number(log, sources, i)->0,
            ) by {
                lemma_decimal_round_trip(be_value(source_word(log, sources[i])->0) as int);
            }
            assert(source_number(log, sources, 0) is Some ==> is_decimal(
                source_number(log, sources, 0)->0,
            ));
            assert(source_number(log, sources, 2) is Some ==> is_decimal(
                source_number(log, sources, 2)->0,
            ));
            assert(source_number(log, sources, 3) is Some ==> is_decimal(
                source_number(log, sources, 3)->0,
            ));
        } else {
            lemma_decoded_event(decoders.skip(1), role, log);
        }
    }
}

/// A sound decoder decodes every log of its shape: where the log fits and its
/// topics are whole words, every field can be read and there is an event.
pub proof fn lemma_sound_decodes(decoder: DecoderModel, log: LogModel)
    requires
        sound(decoder),
        fits(decoder, log),
        forall|t: int| 0 <= t < log.topics.len() ==> (#[trigger] log.topics[t]).len() >= WORD,
    ensures
        decoded_by(decoder, log) is Some,
{
    let sources = decoder.sources;
    assert forall|i: int| 0 <= i < sources.len() implies source_word(log, #[trigger] sources[i])
        is Some by {
        match sources[i] {
            FieldSource::Topic(t) => {
                assert(log.topics[t as int].len() >= WORD);
            },
            FieldSource::Word(w) => {},
        }
    }
    if sources.len() > 0 {
        assert(source_word(log, sources[0]) is Some);
    }
    if sources.len() > 1 {
        assert(source_word(log, sources[1]) is Some);
    }
    if sources.len() > 2 {
        assert(source_word(log, sources[2]) is Some);
    }
    if sources.len() > 3 {
        assert(source_word(log, sources[3]) is Some);
    }
}

/// The decoders of one kind give events of that kind: what they make of a log
/// is an event of the kind, and the installation of a plugin names the emitter
/// of the log as its account.
pub proof fn lemma_decoded_kind(
    decoders: Seq<DecoderModel>,
    kind: EventKind,
    role: Role,
    log: LogModel,
)
    ensures
        decoded(decoders_of_kind(decoders, kind), role, log) matches Some(event) ==> kind_of(event)
            == kind && (event matches EventModel::PluginInstalled { account, .. } ==> account
            == log.address),
{
    let chosen = decoders_of_kind(decoders, kind);
    lemma_of_kind(decoders, kind);
    lemma_role_exclusive(chosen, role, log);
}

/// The decoders of one kind among a run of decoders are of that kind.
proof fn lemma_of_kind(decoders: Seq<DecoderModel>, kind: EventKind)
    ensures
        forall|i: int|
            0 <= i < decoders_of_kind(decoders, kind).len() ==> (#[trigger] decoders_of_kind(
                decoders,
                kind,
            )[i]).kind == kind,
    decreases decoders.len(),
{
    if decoders.len() > 0 {
        lemma_of_kind(decoders.drop_last(), kind);
    }
}

} // verus!
