//! The changeset of a block: the row mutations that its events and deltas imply
//! for the relational sink.
//!
//! Every event and every delta of a block asks for the creation of a row, which
//! carries the fields of what it stands for as its columns. The row of a plugin
//! installation is keyed by the plugin's address and the account, as the sink
//! knows it; every other row is keyed by the block number and its place among
//! the rows of the block. Rows are collected in the sink's own table builder,
//! which numbers them in the order in which they are first asked for and holds
//! one row for each key of a table: the installations of one plugin on one
//! account within a block share their row, which holds what the last of them
//! wrote.
//!
//! The order of the fields within a row is left open: a row is known by the
//! value that it holds for each column name.

use crate::accumulate::{BlockDeltas, StoreId};
use crate::aggregator::events_of_kind;
use crate::bigint::{decimal_string, lemma_decimal_round_trip, BigInt};
use crate::decoder::{kind_of, ordinal_of, DomainEvent, EventKind, EventModel};
use crate::encoding::{hex_string, lemma_hex_injective, to_hex};
use crate::error::Error;
use crate::registry::copy_bytes;
use crate::store::{Delta, DeltaModel};
use crate::types::{Clock, PluginModel, Plugins};
use substreams_database_change::pb::sf::substreams::sink::database::v1::DatabaseChanges;
use substreams_database_change::tables::Tables;
use vstd::prelude::*;

verus! {

/// The key of a row: one text, or one text per key column.
pub enum KeyModel {
    Single(Seq<char>),
    Composite(Map<Seq<char>, Seq<char>>),
}

/// What the sink is asked to do with a row.
pub enum RowOperation {
    Unspecified,
    Create,
    Update,
    Delete,
    Upsert,
}

/// One row mutation: the table, the row's key, the operation, the number that
/// orders it among the mutations of its block, and the columns to write.
pub struct RowModel {
    pub table: Seq<char>,
    pub key: KeyModel,
    pub operation: RowOperation,
    pub ordinal: int,
    pub columns: Map<Seq<char>, Seq<char>>,
}

/// `substreams_database_change::tables::Tables`, the sink's table builder. It
/// is carried and handed to the functions below; nothing is read inside it.
#[verifier::external_type_specification]
#[verifier::external_body]
pub struct ExTables(Tables);

/// `DatabaseChanges`, the changeset message of the sink. It is carried to the
/// caller; nothing is read inside it.
#[verifier::external_type_specification]
#[verifier::external_body]
pub struct ExDatabaseChanges(DatabaseChanges);

/// The rows that a table builder holds, in ascending order of their ordinals,
/// which is the order in which they were first asked for. The columns of a row
/// are the fields written to it in set mode, by name.
pub uninterp spec fn table_rows(tables: Tables) -> Seq<RowModel>;

/// The ordinal that a table builder gives to the next row operation.
pub uninterp spec fn next_ordinal(tables: Tables) -> nat;

/// The row mutations of a changeset, in the order in which the sink applies
/// them. The columns of a row are its fields, by name: the order in which a
/// row lists its fields is left open and is no part of this.
pub uninterp spec fn change_rows(changes: DatabaseChanges) -> Seq<RowModel>;

/// Index of the first row of that table and key, or the number of rows where
/// there is none.
pub open spec fn row_index(rows: Seq<RowModel>, table: Seq<char>, key: KeyModel) -> int
    decreases rows.len(),
{
    if rows.len() == 0 {
        0
    } else if rows[0].table == table && rows[0].key == key {
        0
    } else {
        1 + row_index(rows.skip(1), table, key)
    }
}

/// The rows after one field was written: into the row of that table and key
/// where it exists, else into a new last row with the given operation and
/// ordinal.
pub open spec fn with_field(
    rows: Seq<RowModel>,
    ordinal: int,
    operation: RowOperation,
    table: Seq<char>,
    key: KeyModel,
    name: Seq<char>,
    value: Seq<char>,
) -> Seq<RowModel> {
    let i = row_index(rows, table, key);
    if i < rows.len() {
        rows.update(i, RowModel { columns: rows[i].columns.insert(name, value), ..rows[i] })
    } else {
        rows.push(
            RowModel { table, key, operation, ordinal, columns: Map::empty().insert(name, value) },
        )
    }
}

/// `Tables::new`: a builder without rows, whose counter stands at zero.
#[verifier::external_body]
fn tables_new() -> (tables: Tables)
    ensures
        table_rows(tables) == Seq::<RowModel>::empty(),
        next_ordinal(tables) == 0,
{
    Tables::new()
}

/// `Tables::create_row` with a single key, then `Row::set` on the row it
/// returns. The builder takes the next ordinal from its counter on every call
/// and gives it to the row only where the row is new; a new row is scheduled as
/// a creation. It panics where the row is already scheduled as anything else,
/// and where the counter is exhausted.
#[verifier::external_body]
fn create_field(tables: &mut Tables, table: &str, key: &str, name: &str, value: &str)
    requires
        next_ordinal(*old(tables)) < u64::MAX,
        ({
            let rows = table_rows(*old(tables));
            let i = row_index(rows, table@, KeyModel::Single(key@));
            i < rows.len() ==> rows[i].operation == RowOperation::Create
        }),
    ensures
        table_rows(*final(tables)) == with_field(
            table_rows(*old(tables)),
            next_ordinal(*old(tables)) as int,
            RowOperation::Create,
            table@,
            KeyModel::Single(key@),
            name@,
            value@,
        ),
        next_ordinal(*final(tables)) == next_ordinal(*old(tables)) + 1,
{
    tables.create_row(table, key).set(name, value);
}

/// A key of two named parts.
pub open spec fn pair_key(
    first: Seq<char>,
    first_text: Seq<char>,
    second: Seq<char>,
    second_text: Seq<char>,
) -> KeyModel {
    KeyModel::Composite(Map::empty().insert(first, first_text).insert(second, second_text))
}

/// `Tables::create_row` with a composite key of two parts, then `Row::set` on
/// the row it returns. The two parts have different names, so the key holds
/// both. As with a single key, the builder takes the next ordinal from its
/// counter on every call and gives it to the row only where the row is new; a
/// row that was created before is returned as it is, and the field is written
/// over what it held under that name. The call panics where the row is already
/// scheduled as anything but a creation, and where the counter is exhausted.
#[verifier::external_body]
fn create_pair_field(
    tables: &mut Tables,
    table: &str,
    first: &str,
    first_text: &str,
    second: &str,
    second_text: &str,
    name: &str,
    value: &str,
)
    requires
        first@ != second@,
        next_ordinal(*old(tables)) < u64::MAX,
        ({
            let rows = table_rows(*old(tables));
            let i = row_index(rows, table@, pair_key(first@, first_text@, second@, second_text@));
            i < rows.len() ==> rows[i].operation == RowOperation::Create
        }),
    ensures
        table_rows(*final(tables)) == with_field(
            table_rows(*old(tables)),
            next_ordinal(*old(tables)) as int,
            RowOperation::Create,
            table@,
            pair_key(first@, first_text@, second@, second_text@),
            name@,
            value@,
        ),
        next_ordinal(*final(tables)) == next_ordinal(*old(tables)) + 1,
{
    let key = [(first, first_text.to_string()), (second, second_text.to_string())];
    tables.create_row(table, key).set(name, value);
}

/// `Tables::all_row_count`: the number of rows over all tables.
#[verifier::external_body]
fn row_count(tables: &Tables) -> (count: usize)
    ensures
        count == table_rows(*tables).len(),
{
    tables.all_row_count()
}

/// `Tables::to_database_changes`: one mutation per scheduled row, sorted by
/// ordinal, with the row's table, key, operation, ordinal and fields.
#[verifier::external_body]
fn into_changes(tables: Tables) -> (changes: DatabaseChanges)
    requires
        forall|i: int|
            0 <= i < table_rows(tables).len() ==> (#[trigger] table_rows(tables)[i]).operation
                != RowOperation::Unspecified,
    ensures
        change_rows(changes) == table_rows(tables),
{
    tables.to_database_changes()
}

/// State of a table builder: its rows and the ordinal of its next operation.
pub struct Sheet {
    pub rows: Seq<RowModel>,
    pub next: int,
}

/// The empty sheet.
pub open spec fn empty_sheet() -> Sheet {
    Sheet { rows: Seq::empty(), next: 0 }
}

/// The map that a list of columns stands for; of two entries with one name the
/// later stays.
pub open spec fn columns_map(columns: Seq<(Seq<char>, Seq<char>)>) -> Map<Seq<char>, Seq<char>>
    decreases columns.len(),
{
    if columns.len() == 0 {
        Map::empty()
    } else {
        columns_map(columns.drop_last()).insert(columns.last().0, columns.last().1)
    }
}

/// The key of a row that the sink knows by no key of its own: the block number
/// and the place of the row among the rows of the block, both in decimal and
/// joined by a hyphen.
pub open spec fn row_id(block: u64, index: int) -> Seq<char> {
    decimal_string(block as int) + seq!['-'] + decimal_string(index)
}

/// The sheet after a row was created: a new last row of the table, keyed by
/// the block and its place, that holds the columns. Writing the columns takes
/// one operation each; the row is numbered by the first of them.
pub open spec fn sheet_create(
    sheet: Sheet,
    block: u64,
    table: Seq<char>,
    columns: Seq<(Seq<char>, Seq<char>)>,
) -> Sheet {
    Sheet {
        rows: sheet.rows.push(
            RowModel {
                table,
                key: KeyModel::Single(row_id(block, sheet.rows.len() as int)),
                operation: RowOperation::Create,
                ordinal: sheet.next,
                columns: columns_map(columns),
            },
        ),
        next: sheet.next + columns.len(),
    }
}

/// What a list of columns makes of the columns that a row holds: each is
/// written in turn, over what the row held under its name.
pub open spec fn columns_onto(
    base: Map<Seq<char>, Seq<char>>,
    columns: Seq<(Seq<char>, Seq<char>)>,
) -> Map<Seq<char>, Seq<char>>
    decreases columns.len(),
{
    if columns.len() == 0 {
        base
    } else {
        columns_onto(base, columns.drop_last()).insert(columns.last().0, columns.last().1)
    }
}

/// The rows with the given columns in the row of a table and key: in the first
/// row of that table and key where there is one, which keeps its place,
/// operation and ordinal, else in a new last row, a creation with the given
/// ordinal.
pub open spec fn rows_with(
    rows: Seq<RowModel>,
    table: Seq<char>,
    key: KeyModel,
    ordinal: int,
    columns: Map<Seq<char>, Seq<char>>,
) -> Seq<RowModel> {
    let at = row_index(rows, table, key);
    if at < rows.len() {
        rows.update(at, RowModel { columns, ..rows[at] })
    } else {
        rows.push(RowModel { table, key, operation: RowOperation::Create, ordinal, columns })
    }
}

/// The columns that the row of a table and key holds, none where there is no
/// such row.
pub open spec fn columns_at(rows: Seq<RowModel>, table: Seq<char>, key: KeyModel) -> Map<
    Seq<char>,
    Seq<char>,
> {
    let at = row_index(rows, table, key);
    if at < rows.len() {
        rows[at].columns
    } else {
        Map::empty()
    }
}

/// The sheet after the creation of a row under a given key was asked for.
/// Where the sheet holds no row of that table and key, a new last row holds the
/// columns and is numbered by the first operation. Where it holds one, the
/// columns are written into that row, over what it held under their names, and
/// the row keeps its place and its ordinal. Either way every column takes one
/// operation.
pub open spec fn sheet_write(
    sheet: Sheet,
    table: Seq<char>,
    key: KeyModel,
    columns: Seq<(Seq<char>, Seq<char>)>,
) -> Sheet {
    Sheet {
        rows: rows_with(
            sheet.rows,
            table,
            key,
            sheet.next,
            columns_onto(columns_at(sheet.rows, table, key), columns),
        ),
        next: sheet.next + columns.len(),
    }
}

/// The key of the row of a plugin installation: the address of the plugin and
/// the account, both as hexadecimal text, under the names `address` and
/// `account`.
pub open spec fn plugin_key(plugin: Seq<u8>, account: Seq<u8>) -> KeyModel {
    pair_key("address"@, hex_string(plugin), "account"@, hex_string(account))
}

/// The sheet after an event asked for its row: the installation of a plugin
/// under the key of plugin and account, any other event under the block and
/// the place of its row.
pub open spec fn event_sheet(sheet: Sheet, block: u64, event: EventModel) -> Sheet {
    match event {
        EventModel::PluginInstalled { plugin, account, .. } => sheet_write(
            sheet,
            event_table(EventKind::PluginInstalled),
            plugin_key(plugin, account),
            event_columns(block, event),
        ),
        _ => sheet_create(
            sheet,
            block,
            event_table(kind_of(event)),
            event_columns(block, event),
        ),
    }
}

/// The anchor row of a block, at an ordinal: a row of the table `blocks`,
/// keyed by the block number, that carries the block's timestamp in seconds.
pub open spec fn anchor_row(clock: Clock, ordinal: int) -> RowModel {
    RowModel {
        table: "blocks"@,
        key: KeyModel::Single(decimal_string(clock.number as int)),
        operation: RowOperation::Create,
        ordinal,
        columns: Map::empty().insert(
            "timestamp"@,
            decimal_string(
                match clock.timestamp {
                    Some(seconds) => seconds as int,
                    None => 0,
                },
            ),
        ),
    }
}

/// The sheet after the anchor row of the block was added behind the rows. A
/// sheet without rows gets none.
pub open spec fn sheet_anchor(sheet: Sheet, clock: Clock) -> Sheet {
    if sheet.rows.len() == 0 {
        sheet
    } else {
        Sheet { rows: sheet.rows.push(anchor_row(clock, sheet.next)), next: sheet.next + 1 }
    }
}

/// The table that the events of a kind are written to.
pub open spec fn event_table(kind: EventKind) -> Seq<char> {
    match kind {
        EventKind::Transfer => "transfers"@,
        EventKind::PositionOpened => "positions_opened"@,
        EventKind::PositionClosed => "positions_closed"@,
        EventKind::MarketEntered => "markets_entered"@,
        EventKind::MarketExited => "markets_exited"@,
        EventKind::AccountInitialized => "exa_accounts"@,
        EventKind::PluginInstalled => "exa_plugins"@,
    }
}

/// The columns that place a row in the chain: the block number and the
/// ordinal, both as decimal text.
pub open spec fn place_columns(block: u64, ordinal: u64) -> Seq<(Seq<char>, Seq<char>)> {
    seq![("block"@, decimal_string(block as int)), ("ordinal"@, decimal_string(ordinal as int))]
}

/// The columns that hold the fields of an event, byte strings as hexadecimal
/// text and numbers as decimal text.
pub open spec fn field_columns(event: EventModel) -> Seq<(Seq<char>, Seq<char>)> {
    match event {
        EventModel::Transfer { token, from, to, amount, .. } => seq![
            ("token"@, hex_string(token)),
            ("from"@, hex_string(from)),
            ("to"@, hex_string(to)),
            ("amount"@, amount),
        ],
        EventModel::PositionOpened { market, maturity, borrower, principal, fee, .. } => seq![
            ("market"@, hex_string(market)),
            ("maturity"@, maturity),
            ("borrower"@, hex_string(borrower)),
            ("principal"@, principal),
            ("fee"@, fee),
        ],
        EventModel::PositionClosed { market, maturity, borrower, principal, .. } => seq![
            ("market"@, hex_string(market)),
            ("maturity"@, maturity),
            ("borrower"@, hex_string(borrower)),
            ("principal"@, principal),
        ],
        EventModel::MarketEntered { market, account, .. } => seq![
            ("market"@, hex_string(market)),
            ("account"@, hex_string(account)),
        ],
        EventModel::MarketExited { market, account, .. } => seq![
            ("market"@, hex_string(market)),
            ("account"@, hex_string(account)),
        ],
        EventModel::AccountInitialized { account, .. } => seq![("account"@, hex_string(account))],
        EventModel::PluginInstalled { plugin, account, .. } => seq![
            ("address"@, hex_string(plugin)),
            ("account"@, hex_string(account)),
        ],
    }
}

/// The columns of the row of an event: its fields, the block number and the
/// ordinal.
pub open spec fn event_columns(block: u64, event: EventModel) -> Seq<(Seq<char>, Seq<char>)> {
    field_columns(event) + place_columns(block, ordinal_of(event))
}

/// The number of columns of the row of an event of a kind.
pub open spec fn event_cost(kind: EventKind) -> int {
    match kind {
        EventKind::Transfer => 6,
        EventKind::PositionOpened => 7,
        EventKind::PositionClosed => 6,
        EventKind::MarketEntered => 4,
        EventKind::MarketExited => 4,
        EventKind::AccountInitialized => 3,
        EventKind::PluginInstalled => 4,
    }
}

/// The sheet after the events of a block each asked for their row, in their
/// order.
pub open spec fn events_sheet(sheet: Sheet, block: u64, events: Seq<EventModel>) -> Sheet
    decreases events.len(),
{
    if events.len() == 0 {
        sheet
    } else {
        event_sheet(events_sheet(sheet, block, events.drop_last()), block, events.last())
    }
}

/// The number of row operations that the rows of a run of events take.
pub open spec fn events_cost(events: Seq<EventModel>) -> int
    decreases events.len(),
{
    if events.len() == 0 {
        0
    } else {
        events_cost(events.drop_last()) + event_cost(kind_of(events.last()))
    }
}

/// The table that the deltas of a store are written to.
pub open spec fn store_table(id: StoreId) -> Seq<char> {
    match id {
        StoreId::Shares => "shares"@,
        StoreId::Positions => "positions"@,
        StoreId::Enrollment => "enrollment"@,
        StoreId::Accounts => "tracked_accounts"@,
    }
}

/// The names of the columns that hold the segments of the keys of a store, one
/// for each segment.
pub open spec fn key_names(id: StoreId) -> Seq<Seq<char>> {
    match id {
        StoreId::Shares => seq!["market"@, "account"@],
        StoreId::Positions => seq!["market"@, "maturity"@, "borrower"@],
        StoreId::Enrollment => seq!["market"@, "account"@],
        StoreId::Accounts => seq!["account"@],
    }
}

/// The name of the column that holds the value of a store.
pub open spec fn value_name(id: StoreId) -> Seq<char> {
    match id {
        StoreId::Shares => "amount"@,
        StoreId::Positions => "amount"@,
        StoreId::Enrollment => "entered"@,
        StoreId::Accounts => "tracked"@,
    }
}

/// Whether the key of every delta has one segment for each key column of the
/// store.
pub open spec fn keys_shaped(id: StoreId, deltas: Seq<DeltaModel>) -> bool {
    forall|i: int| 0 <= i < deltas.len() ==> (#[trigger] deltas[i]).key.len() == key_names(id).len()
}

/// The columns that hold the key of a delta: its segments under the names of
/// the store's key columns.
pub open spec fn segment_columns(id: StoreId, delta: DeltaModel) -> Seq<(Seq<char>, Seq<char>)> {
    Seq::new(key_names(id).len(), |i: int| (key_names(id)[i], delta.key[i]))
}

/// The columns of the row of a delta: the segments of its key, the new value
/// as decimal text, the block number and the ordinal.
pub open spec fn delta_columns(id: StoreId, block: u64, delta: DeltaModel) -> Seq<
    (Seq<char>, Seq<char>),
> {
    segment_columns(id, delta).push((value_name(id), decimal_string(delta.new_value)))
        + place_columns(block, delta.ordinal)
}

/// The sheet after the deltas of a store each created their row.
pub open spec fn deltas_sheet(sheet: Sheet, id: StoreId, block: u64, deltas: Seq<DeltaModel>)
    -> Sheet
    decreases deltas.len(),
{
    if deltas.len() == 0 {
        sheet
    } else {
        sheet_create(
            deltas_sheet(sheet, id, block, deltas.drop_last()),
            block,
            store_table(id),
            delta_columns(id, block, deltas.last()),
        )
    }
}

/// The sheet of a block: the rows of its events in their order, then the rows
/// of the deltas of the shares, the positions, the enrolment and the tracked
/// accounts, each in their order, then the anchor row.
pub open spec fn block_sheet(
    clock: Clock,
    events: Seq<EventModel>,
    shares: Seq<DeltaModel>,
    positions: Seq<DeltaModel>,
    enrollment: Seq<DeltaModel>,
    accounts: Seq<DeltaModel>,
) -> Sheet {
    let block = clock.number;
    let with_events = events_sheet(empty_sheet(), block, events);
    let with_shares = deltas_sheet(with_events, StoreId::Shares, block, shares);
    let with_positions = deltas_sheet(with_shares, StoreId::Positions, block, positions);
    let with_enrollment = deltas_sheet(with_positions, StoreId::Enrollment, block, enrollment);
    let with_accounts = deltas_sheet(with_enrollment, StoreId::Accounts, block, accounts);
    sheet_anchor(with_accounts, clock)
}

/// The number of row operations that the sheet of a block takes: one for each
/// column of the row of each event and of each delta, that is five for a delta
/// of the shares or the enrolment, six for one of the positions and four for
/// one of the tracked accounts, and one for the anchor where there is any row.
pub open spec fn block_operations(
    events: Seq<EventModel>,
    shares: nat,
    positions: nat,
    enrollment: nat,
    accounts: nat,
) -> int {
    events_cost(events) + 5 * shares + 6 * positions + 5 * enrollment + 4 * accounts + (if events.len()
        + shares + positions + enrollment + accounts > 0 {
        1int
    } else {
        0int
    })
}

/// Whether one of the events is the installation of a plugin whose row has
/// the key.
pub open spec fn listed(events: Seq<EventModel>, key: KeyModel) -> bool
    decreases events.len(),
{
    if events.len() == 0 {
        false
    } else {
        listed(events.drop_last(), key) || (events.last() matches EventModel::PluginInstalled {
            plugin,
            account,
            ..
        } && plugin_key(plugin, account) == key)
    }
}

/// The number of events that install a plugin on an account on which an
/// earlier event of the run installed it: those that find their row created.
pub open spec fn repeats(events: Seq<EventModel>) -> nat
    decreases events.len(),
{
    if events.len() == 0 {
        0
    } else {
        repeats(events.drop_last()) + (if events.last() matches EventModel::PluginInstalled {
            plugin,
            account,
            ..
        } && listed(events.drop_last(), plugin_key(plugin, account)) {
            1nat
        } else {
            0nat
        })
    }
}

/// Whether one of the rows has the table and the key.
pub open spec fn holds_row(rows: Seq<RowModel>, table: Seq<char>, key: KeyModel) -> bool {
    exists|j: int| 0 <= j < rows.len() && (#[trigger] rows[j]).table == table && rows[j].key == key
}

/// The number of rows of a table among a run of rows.
pub open spec fn count_in(rows: Seq<RowModel>, table: Seq<char>) -> nat
    decreases rows.len(),
{
    if rows.len() == 0 {
        0
    } else {
        count_in(rows.drop_last(), table) + (if rows.last().table == table {
            1nat
        } else {
            0nat
        })
    }
}

/// One row for each event and each delta, but for the installations that
/// repeat an earlier one of the block, which share its row. Every row is a
/// creation. The table of each kind of event holds as many rows as there are
/// events of that kind, the table of the plugins as many as there are
/// installations that repeat no earlier one; the table of each store holds as
/// many as the store has deltas, and the table `blocks` the one anchor of a
/// block that holds any other row.
pub open spec fn one_row_each(
    rows: Seq<RowModel>,
    events: Seq<EventModel>,
    shares: nat,
    positions: nat,
    enrollment: nat,
    accounts: nat,
) -> bool {
    let written = events.len() + shares + positions + enrollment + accounts;
    &&& rows.len() + repeats(events) == written + (if written > 0 {
        1nat
    } else {
        0nat
    })
    &&& (forall|i: int|
        0 <= i < rows.len() ==> (#[trigger] rows[i]).operation == RowOperation::Create)
    &&& (forall|kind: EventKind|
        count_in(rows, #[trigger] event_table(kind)) + (if kind == EventKind::PluginInstalled {
            repeats(events)
        } else {
            0nat
        }) == events_of_kind(events, kind).len())
    &&& count_in(rows, store_table(StoreId::Shares)) == shares
    &&& count_in(rows, store_table(StoreId::Positions)) == positions
    &&& count_in(rows, store_table(StoreId::Enrollment)) == enrollment
    &&& count_in(rows, store_table(StoreId::Accounts)) == accounts
    &&& count_in(rows, "blocks"@) == (if written > 0 {
        1nat
    } else {
        0nat
    })
}

/// The tables are told apart by their names: no two kinds of event share a
/// table, no two stores do, no event shares a table with a store, and the table
/// of the anchors is none of them.
pub proof fn lemma_tables_differ()
    ensures
        forall|first: EventKind, second: EventKind|
            #![trigger event_table(first), event_table(second)]
            event_table(first) == event_table(second) ==> first == second,
        forall|first: StoreId, second: StoreId|
            #![trigger store_table(first), store_table(second)]
            store_table(first) == store_table(second) ==> first == second,
        forall|kind: EventKind, id: StoreId|
            #![trigger event_table(kind), store_table(id)]
            event_table(kind) != store_table(id),
        forall|kind: EventKind| #[trigger] event_table(kind) != "blocks"@,
        forall|id: StoreId| #[trigger] store_table(id) != "blocks"@,
{
    reveal_strlit("transfers");
    reveal_strlit("positions_opened");
    reveal_strlit("positions_closed");
    reveal_strlit("markets_entered");
    reveal_strlit("markets_exited");
    reveal_strlit("exa_accounts");
    reveal_strlit("exa_plugins");
    reveal_strlit("shares");
    reveal_strlit("positions");
    reveal_strlit("enrollment");
    reveal_strlit("tracked_accounts");
    reveal_strlit("blocks");
    assert("transfers"@.len() == 9 && "transfers"@[0] == 't');
    assert("positions_opened"@.len() == 16 && "positions_opened"@[10] == 'o');
    assert("positions_closed"@.len() == 16 && "positions_closed"@[10] == 'c');
    assert("markets_entered"@.len() == 15);
    assert("markets_exited"@.len() == 14);
    assert("exa_accounts"@.len() == 12);
    assert("exa_plugins"@.len() == 11);
    assert("shares"@.len() == 6 && "shares"@[0] == 's');
    assert("positions"@.len() == 9 && "positions"@[0] == 'p');
    assert("enrollment"@.len() == 10);
    assert("tracked_accounts"@.len() == 16 && "tracked_accounts"@[10] == 'c');
    assert("tracked_accounts"@[0] == 't' && "positions_closed"@[0] == 'p');
    assert("blocks"@.len() == 6 && "blocks"@[0] == 'b');
}

/// The number of row operations that the rows of the deltas of a store take.
pub open spec fn deltas_cost(id: StoreId, count: nat) -> int {
    match id {
        StoreId::Shares => 5 * (count as int),
        StoreId::Positions => 6 * (count as int),
        StoreId::Enrollment => 5 * (count as int),
        StoreId::Accounts => 4 * (count as int),
    }
}

/// The keys of two places in one block differ.
proof fn lemma_row_ids_differ(block: u64, i: int, j: int)
    requires
        i != j,
    ensures
        row_id(block, i) != row_id(block, j),
{
    let head = decimal_string(block as int) + seq!['-'];
    assert(row_id(block, i).skip(head.len() as int) =~= decimal_string(i));
    assert(row_id(block, j).skip(head.len() as int) =~= decimal_string(j));
    lemma_decimal_round_trip(i);
    lemma_decimal_round_trip(j);
}

/// Where no row has both the table and the key, the index of the key lies
/// behind the rows.
proof fn lemma_absent_index(rows: Seq<RowModel>, table: Seq<char>, key: KeyModel)
    requires
        forall|j: int|
            0 <= j < rows.len() ==> (#[trigger] rows[j]).table != table || rows[j].key != key,
    ensures
        row_index(rows, table, key) == rows.len(),
    decreases rows.len(),
{
    if rows.len() > 0 {
        let rest = rows.skip(1);
        assert(rows[0].table != table || rows[0].key != key);
        assert forall|j: int| 0 <= j < rest.len() implies (#[trigger] rest[j]).table != table
            || rest[j].key != key by {
            assert(rest[j] == rows[j + 1]);
        }
        lemma_absent_index(rest, table, key);
    }
}

/// A row put behind rows that lack its table and key is found at its place.
proof fn lemma_last_index(rows: Seq<RowModel>, row: RowModel)
    requires
        forall|j: int|
            0 <= j < rows.len() ==> (#[trigger] rows[j]).table != row.table || rows[j].key
                != row.key,
    ensures
        row_index(rows.push(row), row.table, row.key) == rows.len(),
    decreases rows.len(),
{
    let all = rows.push(row);
    if rows.len() > 0 {
        let rest = rows.skip(1);
        assert(all[0] == rows[0]);
        assert(rows[0].table != row.table || rows[0].key != row.key);
        assert(all.skip(1) =~= rest.push(row));
        assert forall|j: int| 0 <= j < rest.len() implies (#[trigger] rest[j]).table != row.table
            || rest[j].key != row.key by {
            assert(rest[j] == rows[j + 1]);
        }
        lemma_last_index(rest, row);
    } else {
        assert(all[0] == row);
    }
}

/// Every row is keyed by the block and its place or by a key of several
/// parts, is a creation, and is no anchor.
spec fn data_rows(rows: Seq<RowModel>, block: u64) -> bool {
    forall|j: int|
        0 <= j < rows.len() ==> ((#[trigger] rows[j]).key == KeyModel::Single(row_id(block, j))
            || rows[j].key is Composite) && rows[j].operation == RowOperation::Create
            && rows[j].table != "blocks"@
}

/// The index of a table and key is that of the first row that has both: no row
/// before it has them, and it lies behind the rows where none has.
proof fn lemma_index_first(rows: Seq<RowModel>, table: Seq<char>, key: KeyModel)
    ensures
        0 <= row_index(rows, table, key) <= rows.len(),
        row_index(rows, table, key) < rows.len() ==> rows[row_index(rows, table, key)].table
            == table && rows[row_index(rows, table, key)].key == key,
        forall|j: int|
            0 <= j < row_index(rows, table, key) ==> (#[trigger] rows[j]).table != table
                || rows[j].key != key,
    decreases rows.len(),
{
    if rows.len() > 0 && !(rows[0].table == table && rows[0].key == key) {
        let rest = rows.skip(1);
        lemma_index_first(rest, table, key);
        let found = row_index(rest, table, key);
        if found < rest.len() {
            assert(rest[found] == rows[found + 1]);
        }
        assert forall|j: int| 0 <= j < 1 + found implies (#[trigger] rows[j]).table != table
            || rows[j].key != key by {
            if j > 0 {
                assert(rest[j - 1] == rows[j]);
            }
        }
    }
}

/// The first row that has a table and key is at their index.
proof fn lemma_first_index(rows: Seq<RowModel>, table: Seq<char>, key: KeyModel, at: int)
    requires
        0 <= at < rows.len(),
        rows[at].table == table && rows[at].key == key,
        forall|j: int| 0 <= j < at ==> (#[trigger] rows[j]).table != table || rows[j].key != key,
    ensures
        row_index(rows, table, key) == at,
{
    lemma_index_first(rows, table, key);
    let found = row_index(rows, table, key);
    if found < at {
        assert(rows[found].table != table || rows[found].key != key);
    }
}

/// The rows with columns in the row of a table and key hold that row where the
/// rows before held it, or behind them.
proof fn lemma_rows_with(
    rows: Seq<RowModel>,
    table: Seq<char>,
    key: KeyModel,
    ordinal: int,
    columns: Map<Seq<char>, Seq<char>>,
)
    ensures
        ({
            let at = row_index(rows, table, key);
            let after = rows_with(rows, table, key, ordinal, columns);
            &&& 0 <= at < after.len()
            &&& at <= rows.len()
            &&& after.len() == (if at < rows.len() {
                rows.len()
            } else {
                rows.len() + 1
            })
            &&& row_index(after, table, key) == at
            &&& after[at] == (RowModel {
                table,
                key,
                operation: if at < rows.len() {
                    rows[at].operation
                } else {
                    RowOperation::Create
                },
                ordinal: if at < rows.len() {
                    rows[at].ordinal
                } else {
                    ordinal
                },
                columns,
            })
            &&& forall|j: int| 0 <= j < rows.len() && j != at ==> #[trigger] after[j] == rows[j]
        }),
{
    let at = row_index(rows, table, key);
    let after = rows_with(rows, table, key, ordinal, columns);
    lemma_index_first(rows, table, key);
    assert forall|j: int| 0 <= j < at implies (#[trigger] after[j]).table != table || after[j].key
        != key by {
        assert(after[j] == rows[j]);
    }
    lemma_first_index(after, table, key, at);
}


/// The sink's table builder for the rows of one block, together with the
/// number of operations it has numbered.
struct Builder {
    tables: Tables,
    calls: u64,
    block: u64,
}

impl Builder {
    /// The state of the builder.
    spec fn sheet(&self) -> Sheet {
        Sheet { rows: table_rows(self.tables), next: next_ordinal(self.tables) as int }
    }

    /// The count of operations is that of the builder, and the rows are data
    /// rows of the block.
    spec fn inv(&self) -> bool {
        next_ordinal(self.tables) == self.calls && data_rows(table_rows(self.tables), self.block)
    }

    /// A builder without rows.
    fn new(block: u64) -> (builder: Builder)
        ensures
            builder.inv(),
            builder.block == block,
            builder.sheet() == empty_sheet(),
    {
        Builder { tables: tables_new(), calls: 0, block }
    }

    /// Creates a row and writes its columns; fails, and creates nothing, where
    /// the builder cannot number that many operations.
    fn create(&mut self, table: &str, columns: &Vec<(String, String)>) -> (r: Result<(), Error>)
        requires
            old(self).inv(),
            columns@.len() > 0,
            table@ != "blocks"@,
        ensures
            final(self).inv(),
            final(self).block == old(self).block,
            r is Ok <==> old(self).sheet().next + columns@.len() <= u64::MAX,
            r is Ok ==> final(self).sheet() == sheet_create(
                old(self).sheet(),
                old(self).block,
                table@,
                columns.deep_view(),
            ),
            r matches Err(e) ==> e == Error::TooManyRows && final(self).sheet() == old(
                self,
            ).sheet(),
    {
        let count = columns.len();
        if count as u64 > u64::MAX - self.calls {
            return Err(Error::TooManyRows);
        }
        let ghost all = columns.deep_view();
        let ghost start = self.sheet();
        let ghost block = self.block;
        let index = row_count(&self.tables);
        let mut id = BigInt::from_u64(self.block).to_decimal();
        proof {
            reveal_strlit("-");
        }
        id.append("-");
        let place = BigInt::from_u64(index as u64).to_decimal();
        id.append(place.as_str());
        let ghost key = KeyModel::Single(row_id(block, index as int));
        proof {
            assert(id@ =~= row_id(block, index as int));
            assert forall|j: int| 0 <= j < start.rows.len() implies (
            #[trigger] start.rows[j]).table != table@ || start.rows[j].key != key by {
                lemma_row_ids_differ(block, j, index as int);
            }
            lemma_absent_index(start.rows, table@, key);
            assert(all[0] == (columns@[0].0@, columns@[0].1@));
            assert(all.take(1).drop_last() =~= Seq::<(Seq<char>, Seq<char>)>::empty());
            assert(all.take(1).last() == all[0]);
            assert(columns_map(all.take(1).drop_last()) =~= Map::<
                Seq<char>,
                Seq<char>,
            >::empty());
        }
        create_field(
            &mut self.tables,
            table,
            id.as_str(),
            columns[0].0.as_str(),
            columns[0].1.as_str(),
        );
        self.calls = self.calls + 1;
        let mut j: usize = 1;
        while j < count
            invariant
                1 <= j <= count,
                count == columns@.len(),
                all == columns.deep_view(),
                id@ == row_id(block, index as int),
                key == KeyModel::Single(row_id(block, index as int)),
                index == start.rows.len(),
                block == self.block,
                data_rows(start.rows, block),
                table@ != "blocks"@,
                self.calls == start.next + j,
                start.next + count <= u64::MAX,
                next_ordinal(self.tables) == self.calls,
                table_rows(self.tables) == start.rows.push(
                    RowModel {
                        table: table@,
                        key,
                        operation: RowOperation::Create,
                        ordinal: start.next,
                        columns: columns_map(all.take(j as int)),
                    },
                ),
            decreases count - j,
        {
            let ghost row = RowModel {
                table: table@,
                key,
                operation: RowOperation::Create,
                ordinal: start.next,
                columns: columns_map(all.take(j as int)),
            };
            proof {
                assert forall|k: int| 0 <= k < start.rows.len() implies (
                #[trigger] start.rows[k]).table != row.table || start.rows[k].key
                    != row.key by {
                    lemma_row_ids_differ(block, k, index as int);
                }
                lemma_last_index(start.rows, row);
                assert(start.rows.push(row)[index as int] == row);
                assert(all[j as int] == (columns@[j as int].0@, columns@[j as int].1@));
                assert(all.take(j + 1).drop_last() =~= all.take(j as int));
                assert(all.take(j + 1).last() == all[j as int]);
            }
            create_field(
                &mut self.tables,
                table,
                id.as_str(),
                columns[j].0.as_str(),
                columns[j].1.as_str(),
            );
            self.calls = self.calls + 1;
            proof {
                let written = RowModel { columns: columns_map(all.take(j + 1)), ..row };
                assert(table_rows(self.tables) =~= start.rows.push(written));
            }
            j = j + 1;
        }
        proof {
            assert(all.take(count as int) =~= all);
            let rows = table_rows(self.tables);
            assert forall|k: int| 0 <= k < rows.len() implies ((#[trigger] rows[k]).key
                == KeyModel::Single(row_id(block, k)) || rows[k].key is Composite)
                && rows[k].operation == RowOperation::Create && rows[k].table != "blocks"@ by {
                if k < start.rows.len() {
                    assert(rows[k] == start.rows[k]);
                }
            }
        }
        Ok(())
    }

    /// Asks for the creation of a row under a key of two named parts and
    /// writes its columns; fails, and writes nothing, where the builder cannot
    /// number that many operations.
    fn write(
        &mut self,
        table: &str,
        first: &str,
        first_text: &str,
        second: &str,
        second_text: &str,
        columns: &Vec<(String, String)>,
    ) -> (r: Result<(), Error>)
        requires
            old(self).inv(),
            columns@.len() > 0,
            table@ != "blocks"@,
            first@ != second@,
        ensures
            final(self).inv(),
            final(self).block == old(self).block,
            r is Ok <==> old(self).sheet().next + columns@.len() <= u64::MAX,
            r is Ok ==> final(self).sheet() == sheet_write(
                old(self).sheet(),
                table@,
                pair_key(first@, first_text@, second@, second_text@),
                columns.deep_view(),
            ),
            r matches Err(e) ==> e == Error::TooManyRows && final(self).sheet() == old(
                self,
            ).sheet(),
    {
        let count = columns.len();
        if count as u64 > u64::MAX - self.calls {
            return Err(Error::TooManyRows);
        }
        let ghost all = columns.deep_view();
        let ghost start = self.sheet();
        let ghost block = self.block;
        let ghost key = pair_key(first@, first_text@, second@, second_text@);
        let ghost at = row_index(start.rows, table@, key);
        let ghost base = columns_at(start.rows, table@, key);
        proof {
            lemma_index_first(start.rows, table@, key);
            assert(all[0] == (columns@[0].0@, columns@[0].1@));
            assert(all.take(1).drop_last() =~= Seq::<(Seq<char>, Seq<char>)>::empty());
            assert(all.take(1).last() == all[0]);
            assert(columns_onto(base, all.take(1).drop_last()) == base);
        }
        create_pair_field(
            &mut self.tables,
            table,
            first,
            first_text,
            second,
            second_text,
            columns[0].0.as_str(),
            columns[0].1.as_str(),
        );
        self.calls = self.calls + 1;
        assert(table_rows(self.tables) =~= rows_with(
            start.rows,
            table@,
            key,
            start.next,
            columns_onto(base, all.take(1)),
        ));
        let mut j: usize = 1;
        while j < count
            invariant
                1 <= j <= count,
                count == columns@.len(),
                all == columns.deep_view(),
                key == pair_key(first@, first_text@, second@, second_text@),
                first@ != second@,
                at == row_index(start.rows, table@, key),
                base == columns_at(start.rows, table@, key),
                block == self.block,
                data_rows(start.rows, block),
                table@ != "blocks"@,
                self.calls == start.next + j,
                start.next + count <= u64::MAX,
                next_ordinal(self.tables) == self.calls,
                table_rows(self.tables) == rows_with(
                    start.rows,
                    table@,
                    key,
                    start.next,
                    columns_onto(base, all.take(j as int)),
                ),
            decreases count - j,
        {
            let ghost held = columns_onto(base, all.take(j as int));
            let ghost now = table_rows(self.tables);
            proof {
                lemma_rows_with(start.rows, table@, key, start.next, held);
                assert(all[j as int] == (columns@[j as int].0@, columns@[j as int].1@));
                assert(all.take(j + 1).drop_last() =~= all.take(j as int));
                assert(all.take(j + 1).last() == all[j as int]);
            }
            create_pair_field(
                &mut self.tables,
                table,
                first,
                first_text,
                second,
                second_text,
                columns[j].0.as_str(),
                columns[j].1.as_str(),
            );
            self.calls = self.calls + 1;
            proof {
                assert(table_rows(self.tables) =~= rows_with(
                    start.rows,
                    table@,
                    key,
                    start.next,
                    columns_onto(base, all.take(j + 1)),
                ));
            }
            j = j + 1;
        }
        proof {
            assert(all.take(count as int) =~= all);
            let held = columns_onto(base, all);
            lemma_rows_with(start.rows, table@, key, start.next, held);
            let rows = table_rows(self.tables);
            assert forall|k: int| 0 <= k < rows.len() implies ((#[trigger] rows[k]).key
                == KeyModel::Single(row_id(block, k)) || rows[k].key is Composite)
                && rows[k].operation == RowOperation::Create && rows[k].table != "blocks"@ by {
                if k != at {
                    assert(rows[k] == start.rows[k]);
                }
            }
        }
        Ok(())
    }

    /// Adds the anchor row of the block where the builder holds any row, and
    /// hands out the changeset of the rows collected.
    fn finish(self, clock: &Clock) -> (r: Result<DatabaseChanges, Error>)
        requires
            self.inv(),
        ensures
            r is Ok <==> sheet_anchor(self.sheet(), *clock).next <= u64::MAX,
            r matches Ok(changes) ==> change_rows(changes) == sheet_anchor(
                self.sheet(),
                *clock,
            ).rows,
            r matches Err(e) ==> e == Error::TooManyRows,
    {
        let mut tables = self.tables;
        let ghost rows = table_rows(tables);
        if row_count(&tables) > 0 {
            if self.calls == u64::MAX {
                return Err(Error::TooManyRows);
            }
            let number = BigInt::from_u64(clock.number).to_decimal();
            let seconds = match clock.timestamp {
                Some(seconds) => seconds,
                None => 0,
            };
            let timestamp = BigInt::from_i64(seconds).to_decimal();
            proof {
                lemma_absent_index(rows, "blocks"@, KeyModel::Single(number@));
            }
            create_field(&mut tables, "blocks", number.as_str(), "timestamp", timestamp.as_str());
            proof {
                let after = table_rows(tables);
                assert(after == rows.push(anchor_row(*clock, self.calls as int)));
                assert forall|i: int| 0 <= i < after.len() implies (#[trigger] after[i]).operation
                    != RowOperation::Unspecified by {
                    if i < rows.len() {
                        assert(after[i] == rows[i]);
                    }
                }
            }
        }
        Ok(into_changes(tables))
    }
}

/// The table that the events of a kind are written to.
fn table_of(kind: EventKind) -> (table: &'static str)
    ensures
        table@ == event_table(kind),
{
    match kind {
        EventKind::Transfer => "transfers",
        EventKind::PositionOpened => "positions_opened",
        EventKind::PositionClosed => "positions_closed",
        EventKind::MarketEntered => "markets_entered",
        EventKind::MarketExited => "markets_exited",
        EventKind::AccountInitialized => "exa_accounts",
        EventKind::PluginInstalled => "exa_plugins",
    }
}

/// A column of a name and a text.
fn text_pair(name: &str, value: String) -> (pair: (String, String))
    ensures
        pair.0@ == name@,
        pair.1@ == value@,
{
    (String::from_str(name), value)
}

/// A column of a name and a byte string, as hexadecimal text.
fn hex_pair(name: &str, bytes: &Vec<u8>) -> (pair: (String, String))
    ensures
        pair.0@ == name@,
        pair.1@ == hex_string(bytes@),
{
    (String::from_str(name), to_hex(bytes.as_slice()))
}

/// A column of a name and a copy of a text.
fn copy_pair(name: &str, text: &String) -> (pair: (String, String))
    ensures
        pair.0@ == name@,
        pair.1@ == text@,
{
    (String::from_str(name), text.clone())
}

/// The columns of the row of an event.
fn event_columns_of(block: u64, event: &DomainEvent) -> (columns: Vec<(String, String)>)
    ensures
        columns.deep_view() == event_columns(block, event@),
        columns@.len() == event_cost(kind_of(event@)),
{
    let mut columns = match event {
        DomainEvent::Transfer { token, from, to, amount, .. } => vec![
            hex_pair("token", token),
            hex_pair("from", from),
            hex_pair("to", to),
            copy_pair("amount", amount),
        ],
        DomainEvent::PositionOpened { market, maturity, borrower, principal, fee, .. } => vec![
            hex_pair("market", market),
            copy_pair("maturity", maturity),
            hex_pair("borrower", borrower),
            copy_pair("principal", principal),
            copy_pair("fee", fee),
        ],
        DomainEvent::PositionClosed { market, maturity, borrower, principal, .. } => vec![
            hex_pair("market", market),
            copy_pair("maturity", maturity),
            hex_pair("borrower", borrower),
            copy_pair("principal", principal),
        ],
        DomainEvent::MarketEntered { market, account, .. } => vec![
            hex_pair("market", market),
            hex_pair("account", account),
        ],
        DomainEvent::MarketExited { market, account, .. } => vec![
            hex_pair("market", market),
            hex_pair("account", account),
        ],
        DomainEvent::AccountInitialized { account, .. } => vec![hex_pair("account", account)],
        DomainEvent::PluginInstalled { plugin, account, .. } => vec![
            hex_pair("address", plugin),
            hex_pair("account", account),
        ],
    };
    assert(columns.deep_view() =~= field_columns(event@));
    let ghost fields = columns.deep_view();
    columns.push(text_pair("block", BigInt::from_u64(block).to_decimal()));
    columns.push(text_pair("ordinal", BigInt::from_u64(event.ordinal()).to_decimal()));
    assert(columns.deep_view() =~= fields + place_columns(block, ordinal_of(event@)));
    columns
}

/// The table that the deltas of a store are written to.
fn store_table_of(id: StoreId) -> (table: &'static str)
    ensures
        table@ == store_table(id),
{
    match id {
        StoreId::Shares => "shares",
        StoreId::Positions => "positions",
        StoreId::Enrollment => "enrollment",
        StoreId::Accounts => "tracked_accounts",
    }
}

/// The names of the key columns of a store.
fn key_names_of(id: StoreId) -> (names: Vec<&'static str>)
    ensures
        names@.len() == key_names(id).len(),
        forall|i: int| 0 <= i < names@.len() ==> (#[trigger] names@[i])@ == key_names(id)[i],
{
    match id {
        StoreId::Shares => vec!["market", "account"],
        StoreId::Positions => vec!["market", "maturity", "borrower"],
        StoreId::Enrollment => vec!["market", "account"],
        StoreId::Accounts => vec!["account"],
    }
}

/// The name of the column that holds the value of a store.
fn value_name_of(id: StoreId) -> (name: &'static str)
    ensures
        name@ == value_name(id),
{
    match id {
        StoreId::Shares => "amount",
        StoreId::Positions => "amount",
        StoreId::Enrollment => "entered",
        StoreId::Accounts => "tracked",
    }
}

/// Whether the key of every delta has one segment for each key column of the
/// store.
fn shaped_keys(id: StoreId, deltas: &Vec<Delta>) -> (r: bool)
    ensures
        r == keys_shaped(id, deltas.deep_view()),
{
    let wanted = key_names_of(id).len();
    let ghost all = deltas.deep_view();
    let mut i: usize = 0;
    while i < deltas.len()
        invariant
            i <= deltas@.len(),
            all == deltas.deep_view(),
            wanted == key_names(id).len(),
            forall|k: int| 0 <= k < i ==> (#[trigger] all[k]).key.len() == key_names(id).len(),
        decreases deltas@.len() - i,
    {
        assert(all[i as int] == deltas@[i as int]@);
        if deltas[i].key.len() != wanted {
            return false;
        }
        i = i + 1;
    }
    true
}

/// The columns of the row of a delta.
fn delta_columns_of(id: StoreId, block: u64, delta: &Delta) -> (columns: Vec<(String, String)>)
    requires
        delta@.key.len() == key_names(id).len(),
    ensures
        columns.deep_view() == delta_columns(id, block, delta@),
        columns@.len() == deltas_cost(id, 1),
{
    let names = key_names_of(id);
    let mut columns: Vec<(String, String)> = Vec::new();
    let mut i: usize = 0;
    while i < names.len()
        invariant
            i <= names@.len(),
            names@.len() == key_names(id).len(),
            names@.len() == delta.key@.len(),
            forall|k: int| 0 <= k < names@.len() ==> (#[trigger] names@[k])@ == key_names(id)[k],
            columns@.len() == i,
            forall|k: int|
                0 <= k < i ==> (#[trigger] columns@[k]).0@ == key_names(id)[k] && columns@[k].1@
                    == delta.key@[k]@,
        decreases names@.len() - i,
    {
        columns.push(copy_pair(names[i], &delta.key[i]));
        i = i + 1;
    }
    assert(columns.deep_view() =~= segment_columns(id, delta@));
    let ghost segments = columns.deep_view();
    columns.push(text_pair(value_name_of(id), delta.new_value.to_decimal()));
    let ghost valued = columns.deep_view();
    assert(valued =~= segments.push((value_name(id), decimal_string(delta@.new_value))));
    columns.push(text_pair("block", BigInt::from_u64(block).to_decimal()));
    columns.push(text_pair("ordinal", BigInt::from_u64(delta.ordinal).to_decimal()));
    assert(columns.deep_view() =~= valued + place_columns(block, delta@.ordinal));
    columns
}

/// The rows of events take one operation for each of their columns. They
/// leave at most one row more for each event, and a row wherever there is an
/// event.
proof fn lemma_events_sheet(sheet: Sheet, block: u64, events: Seq<EventModel>)
    ensures
        events_sheet(sheet, block, events).next == sheet.next + events_cost(events),
        sheet.rows.len() <= events_sheet(sheet, block, events).rows.len() <= sheet.rows.len()
            + events.len(),
        events.len() > 0 ==> events_sheet(sheet, block, events).rows.len() > 0,
        events_cost(events) >= 3 * events.len(),
    decreases events.len(),
{
    if events.len() > 0 {
        lemma_events_sheet(sheet, block, events.drop_last());
        let event = events.last();
        let before = events_sheet(sheet, block, events.drop_last());
        assert(event_columns(block, event).len() == event_cost(kind_of(event)));
        match event {
            EventModel::PluginInstalled { plugin, account, .. } => {
                let key = plugin_key(plugin, account);
                let table = event_table(EventKind::PluginInstalled);
                lemma_rows_with(
                    before.rows,
                    table,
                    key,
                    before.next,
                    columns_onto(columns_at(before.rows, table, key), event_columns(block, event)),
                );
            },
            _ => {},
        }
    }
}

/// The rows of the deltas of a store take one operation for each of their
/// columns and leave one row more for each delta.
proof fn lemma_deltas_sheet(sheet: Sheet, id: StoreId, block: u64, deltas: Seq<DeltaModel>)
    ensures
        deltas_sheet(sheet, id, block, deltas).next == sheet.next + deltas_cost(id, deltas.len()),
        deltas_sheet(sheet, id, block, deltas).rows.len() == sheet.rows.len() + deltas.len(),
        deltas_cost(id, deltas.len()) >= 4 * deltas.len(),
    decreases deltas.len(),
{
    if deltas.len() > 0 {
        lemma_deltas_sheet(sheet, id, block, deltas.drop_last());
        let delta = deltas.last();
        assert(delta_columns(id, block, delta).len() == deltas_cost(id, 1));
    }
}

/// The sheet of a block takes one operation for each column of each row, and
/// one for the anchor where there is any row.
pub proof fn lemma_block_operations(
    clock: Clock,
    events: Seq<EventModel>,
    shares: Seq<DeltaModel>,
    positions: Seq<DeltaModel>,
    enrollment: Seq<DeltaModel>,
    accounts: Seq<DeltaModel>,
)
    ensures
        block_sheet(clock, events, shares, positions, enrollment, accounts).next
            == block_operations(
            events,
            shares.len(),
            positions.len(),
            enrollment.len(),
            accounts.len(),
        ),
{
    let block = clock.number;
    let s0 = events_sheet(empty_sheet(), block, events);
    let s1 = deltas_sheet(s0, StoreId::Shares, block, shares);
    let s2 = deltas_sheet(s1, StoreId::Positions, block, positions);
    let s3 = deltas_sheet(s2, StoreId::Enrollment, block, enrollment);
    lemma_events_sheet(empty_sheet(), block, events);
    lemma_deltas_sheet(s0, StoreId::Shares, block, shares);
    lemma_deltas_sheet(s1, StoreId::Positions, block, positions);
    lemma_deltas_sheet(s2, StoreId::Enrollment, block, enrollment);
    lemma_deltas_sheet(s3, StoreId::Accounts, block, accounts);
}

impl Builder {
    /// Creates the rows of a list of events.
    fn events(&mut self, events: &Vec<DomainEvent>) -> (r: Result<(), Error>)
        requires
            old(self).inv(),
        ensures
            final(self).inv(),
            final(self).block == old(self).block,
            r is Ok <==> old(self).sheet().next + events_cost(events.deep_view()) <= u64::MAX,
            r is Ok ==> final(self).sheet() == events_sheet(
                old(self).sheet(),
                old(self).block,
                events.deep_view(),
            ),
            r matches Err(e) ==> e == Error::TooManyRows,
    {
        let ghost all = events.deep_view();
        let ghost start = self.sheet();
        let ghost block = self.block;
        let mut i: usize = 0;
        assert(all.take(0) =~= Seq::<EventModel>::empty());
        while i < events.len()
            invariant
                i <= events@.len(),
                all == events.deep_view(),
                self.inv(),
                self.block == block,
                block == old(self).block,
                start == old(self).sheet(),
                self.sheet() == events_sheet(start, block, all.take(i as int)),
            decreases events@.len() - i,
        {
            let event = &events[i];
            let columns = event_columns_of(self.block, event);
            proof {
                assert(all[i as int] == event@);
                assert(all.take(i + 1).drop_last() =~= all.take(i as int));
                assert(all.take(i + 1).last() == event@);
                lemma_events_sheet(start, block, all.take(i as int));
                lemma_events_sheet(start, block, all.take(i + 1));
                lemma_events_tail(all, i + 1);
                lemma_tables_differ();
                assert(event_table(kind_of(event@)) != "blocks"@);
            }
            let written = match event {
                DomainEvent::PluginInstalled { plugin, account, .. } => {
                    let address = to_hex(plugin.as_slice());
                    let owner = to_hex(account.as_slice());
                    proof {
                        reveal_strlit("address");
                        reveal_strlit("account");
                        assert("address"@[1] != "account"@[1]);
                    }
                    self.write(
                        "exa_plugins",
                        "address",
                        address.as_str(),
                        "account",
                        owner.as_str(),
                        &columns,
                    )
                },
                _ => self.create(table_of(event.kind()), &columns),
            };
            match written {
                Ok(()) => {},
                Err(e) => {
                    return Err(e);
                },
            }
            i = i + 1;
        }
        proof {
            assert(all.take(events@.len() as int) =~= all);
            lemma_events_sheet(start, block, all);
        }
        Ok(())
    }

    /// Creates the rows of the deltas of a store.
    fn deltas(&mut self, id: StoreId, deltas: &Vec<Delta>) -> (r: Result<(), Error>)
        requires
            old(self).inv(),
            keys_shaped(id, deltas.deep_view()),
        ensures
            final(self).inv(),
            final(self).block == old(self).block,
            r is Ok <==> old(self).sheet().next + deltas_cost(id, deltas@.len()) <= u64::MAX,
            r is Ok ==> final(self).sheet() == deltas_sheet(
                old(self).sheet(),
                id,
                old(self).block,
                deltas.deep_view(),
            ),
            r matches Err(e) ==> e == Error::TooManyRows,
    {
        let ghost all = deltas.deep_view();
        let ghost start = self.sheet();
        let ghost block = self.block;
        let mut i: usize = 0;
        assert(all.take(0) =~= Seq::<DeltaModel>::empty());
        while i < deltas.len()
            invariant
                i <= deltas@.len(),
                all == deltas.deep_view(),
                keys_shaped(id, all),
                self.inv(),
                self.block == block,
                block == old(self).block,
                start == old(self).sheet(),
                self.sheet() == deltas_sheet(start, id, block, all.take(i as int)),
            decreases deltas@.len() - i,
        {
            let delta = &deltas[i];
            assert(all[i as int] == delta@);
            let columns = delta_columns_of(id, self.block, delta);
            proof {
                assert(all.take(i + 1).drop_last() =~= all.take(i as int));
                assert(all.take(i + 1).last() == delta@);
                lemma_deltas_sheet(start, id, block, all.take(i as int));
                lemma_tables_differ();
                assert(store_table(id) != "blocks"@);
            }
            match self.create(store_table_of(id), &columns) {
                Ok(()) => {},
                Err(e) => {
                    return Err(e);
                },
            }
            i = i + 1;
        }
        proof {
            assert(all.take(deltas@.len() as int) =~= all);
            lemma_deltas_sheet(start, id, block, all);
        }
        Ok(())
    }
}

/// The number of row operations that the rows of a list of events take.
pub fn events_operations(events: &Vec<DomainEvent>) -> (cost: u128)
    ensures
        cost == events_cost(events.deep_view()),
        cost <= 7 * events@.len(),
{
    let ghost all = events.deep_view();
    let mut cost: u128 = 0;
    let mut i: usize = 0;
    assert(all.take(0) =~= Seq::<EventModel>::empty());
    while i < events.len()
        invariant
            i <= events@.len(),
            all == events.deep_view(),
            cost == events_cost(all.take(i as int)),
            cost <= 7 * i,
        decreases events@.len() - i,
    {
        proof {
            assert(all.take(i + 1).drop_last() =~= all.take(i as int));
            assert(all.take(i + 1).last() == events@[i as int]@);
        }
        let one: u128 = match events[i].kind() {
            EventKind::Transfer => 6,
            EventKind::PositionOpened => 7,
            EventKind::PositionClosed => 6,
            EventKind::MarketEntered => 4,
            EventKind::MarketExited => 4,
            EventKind::AccountInitialized => 3,
            EventKind::PluginInstalled => 4,
        };
        cost = cost + one;
        i = i + 1;
    }
    assert(all.take(events@.len() as int) =~= all);
    cost
}

/// The first events of a run cost no more than the whole run.
proof fn lemma_events_tail(events: Seq<EventModel>, i: int)
    requires
        0 <= i <= events.len(),
    ensures
        events_cost(events.take(i)) <= events_cost(events),
    decreases events.len(),
{
    if i < events.len() {
        lemma_events_tail(events.drop_last(), i);
        assert(events.drop_last().take(i) =~= events.take(i));
    } else {
        assert(events.take(i) =~= events);
    }
}

/// The changeset of a block: one row for each event, one row for each delta of
/// each store, and the anchor row of the block where there is any other row.
///
/// Every row is a creation. The row of an event goes to the table of its kind
/// and holds the fields of the event, the block number and the ordinal. The row
/// of a delta goes to the table of its store and holds the segments of the
/// delta's key, the new value, the block number and the ordinal. A row is keyed
/// by the block number and its place among the rows of the block, so two events
/// or two deltas never share a row, whatever they hold. The one exception is
/// the row of a plugin installation, which is keyed by the address of the
/// plugin and the account: the installations of one plugin on one account
/// share the row that the first of them created, and the row holds what the
/// last of them wrote. The anchor is a row of `blocks`, keyed by the block
/// number, with the `timestamp` in seconds. The order of the fields within a
/// row is left open.
///
/// The stage fails where a delta's key has another number of segments than its
/// store names key columns, and where the rows need more operations than the
/// sink can number.
pub fn emit(clock: &Clock, events: &Vec<DomainEvent>, deltas: &BlockDeltas) -> (r: Result<
    DatabaseChanges,
    Error,
>)
    ensures
        r is Ok <==> {
            &&& forall|id: StoreId| keys_shaped(id, #[trigger] deltas.of(id))
            &&& block_operations(
                events.deep_view(),
                deltas.of(StoreId::Shares).len(),
                deltas.of(StoreId::Positions).len(),
                deltas.of(StoreId::Enrollment).len(),
                deltas.of(StoreId::Accounts).len(),
            ) <= u64::MAX
        },
        r matches Ok(changes) ==> change_rows(changes) == block_sheet(
            *clock,
            events.deep_view(),
            deltas.of(StoreId::Shares),
            deltas.of(StoreId::Positions),
            deltas.of(StoreId::Enrollment),
            deltas.of(StoreId::Accounts),
        ).rows,
        r matches Ok(changes) ==> one_row_each(
            change_rows(changes),
            events.deep_view(),
            deltas.of(StoreId::Shares).len(),
            deltas.of(StoreId::Positions).len(),
            deltas.of(StoreId::Enrollment).len(),
            deltas.of(StoreId::Accounts).len(),
        ),
        r matches Err(e) ==> e == (if forall|id: StoreId| keys_shaped(id, #[trigger] deltas.of(id)) {
            Error::TooManyRows
        } else {
            Error::KeyShape
        }),
{
    if !shaped_keys(StoreId::Shares, &deltas.shares) || !shaped_keys(
        StoreId::Positions,
        &deltas.positions,
    ) || !shaped_keys(StoreId::Enrollment, &deltas.enrollment) || !shaped_keys(
        StoreId::Accounts,
        &deltas.accounts,
    ) {
        assert(!keys_shaped(StoreId::Shares, deltas.of(StoreId::Shares)) || !keys_shaped(
            StoreId::Positions,
            deltas.of(StoreId::Positions),
        ) || !keys_shaped(StoreId::Enrollment, deltas.of(StoreId::Enrollment)) || !keys_shaped(
            StoreId::Accounts,
            deltas.of(StoreId::Accounts),
        ));
        return Err(Error::KeyShape);
    }
    proof {
        assert forall|id: StoreId| keys_shaped(id, #[trigger] deltas.of(id)) by {
            match id {
                StoreId::Shares => {},
                StoreId::Positions => {},
                StoreId::Enrollment => {},
                StoreId::Accounts => {},
            }
        }
        let block = clock.number;
        let s0 = events_sheet(empty_sheet(), block, events.deep_view());
        let s1 = deltas_sheet(s0, StoreId::Shares, block, deltas.of(StoreId::Shares));
        let s2 = deltas_sheet(s1, StoreId::Positions, block, deltas.of(StoreId::Positions));
        let s3 = deltas_sheet(s2, StoreId::Enrollment, block, deltas.of(StoreId::Enrollment));
        lemma_events_sheet(empty_sheet(), block, events.deep_view());
        lemma_deltas_sheet(s0, StoreId::Shares, block, deltas.of(StoreId::Shares));
        lemma_deltas_sheet(s1, StoreId::Positions, block, deltas.of(StoreId::Positions));
        lemma_deltas_sheet(s2, StoreId::Enrollment, block, deltas.of(StoreId::Enrollment));
        lemma_deltas_sheet(s3, StoreId::Accounts, block, deltas.of(StoreId::Accounts));
        lemma_block_operations(
            *clock,
            events.deep_view(),
            deltas.of(StoreId::Shares),
            deltas.of(StoreId::Positions),
            deltas.of(StoreId::Enrollment),
            deltas.of(StoreId::Accounts),
        );
        lemma_one_row_each(
            *clock,
            events.deep_view(),
            deltas.of(StoreId::Shares),
            deltas.of(StoreId::Positions),
            deltas.of(StoreId::Enrollment),
            deltas.of(StoreId::Accounts),
        );
    }
    let mut builder = Builder::new(clock.number);
    match builder.events(events) {
        Ok(()) => {},
        Err(e) => {
            return Err(e);
        },
    }
    match builder.deltas(StoreId::Shares, &deltas.shares) {
        Ok(()) => {},
        Err(e) => {
            return Err(e);
        },
    }
    match builder.deltas(StoreId::Positions, &deltas.positions) {
        Ok(()) => {},
        Err(e) => {
            return Err(e);
        },
    }
    match builder.deltas(StoreId::Enrollment, &deltas.enrollment) {
        Ok(()) => {},
        Err(e) => {
            return Err(e);
        },
    }
    match builder.deltas(StoreId::Accounts, &deltas.accounts) {
        Ok(()) => {},
        Err(e) => {
            return Err(e);
        },
    }
    builder.finish(clock)
}

/// The number of events among a run whose table is the given one.
spec fn tally(events: Seq<EventModel>, table: Seq<char>) -> nat
    decreases events.len(),
{
    if events.len() == 0 {
        0
    } else {
        tally(events.drop_last(), table) + (if event_table(kind_of(events.last())) == table {
            1nat
        } else {
            0nat
        })
    }
}

/// The events whose table is that of a kind are the events of the kind.
proof fn lemma_tally_kind(events: Seq<EventModel>, kind: EventKind)
    ensures
        tally(events, event_table(kind)) == events_of_kind(events, kind).len(),
    decreases events.len(),
{
    if events.len() > 0 {
        lemma_tally_kind(events.drop_last(), kind);
        lemma_tables_differ();
        let found = kind_of(events.last());
        assert(event_table(found) == event_table(kind) ==> found == kind);
    }
}

/// No event has a table that is the table of no kind.
proof fn lemma_tally_none(events: Seq<EventModel>, table: Seq<char>)
    requires
        forall|kind: EventKind| #[trigger] event_table(kind) != table,
    ensures
        tally(events, table) == 0,
    decreases events.len(),
{
    if events.len() > 0 {
        lemma_tally_none(events.drop_last(), table);
        assert(event_table(kind_of(events.last())) != table);
    }
}

/// Every row is a creation.
spec fn all_created(rows: Seq<RowModel>) -> bool {
    forall|i: int| 0 <= i < rows.len() ==> (#[trigger] rows[i]).operation == RowOperation::Create
}

/// Writing into a row leaves the number of rows of every table as it was.
proof fn lemma_count_update(rows: Seq<RowModel>, at: int, row: RowModel, table: Seq<char>)
    requires
        0 <= at < rows.len(),
        row.table == rows[at].table,
    ensures
        count_in(rows.update(at, row), table) == count_in(rows, table),
    decreases rows.len(),
{
    let after = rows.update(at, row);
    if at == rows.len() - 1 {
        assert(after.drop_last() =~= rows.drop_last());
    } else {
        assert(after.drop_last() =~= rows.drop_last().update(at, row));
        lemma_count_update(rows.drop_last(), at, row, table);
    }
}

/// Writing under one table and key leaves the index of any other table and
/// key where it was, or behind the rows as before.
proof fn lemma_other_index(
    rows: Seq<RowModel>,
    table: Seq<char>,
    key: KeyModel,
    ordinal: int,
    columns: Map<Seq<char>, Seq<char>>,
    other_table: Seq<char>,
    other: KeyModel,
)
    requires
        table != other_table || key != other,
    ensures
        row_index(rows_with(rows, table, key, ordinal, columns), other_table, other) < rows_with(
            rows,
            table,
            key,
            ordinal,
            columns,
        ).len() <==> row_index(rows, other_table, other) < rows.len(),
        row_index(rows, other_table, other) < rows.len() ==> row_index(
            rows_with(rows, table, key, ordinal, columns),
            other_table,
            other,
        ) == row_index(rows, other_table, other) && rows_with(
            rows,
            table,
            key,
            ordinal,
            columns,
        )[row_index(rows, other_table, other)] == rows[row_index(rows, other_table, other)],
{
    let after = rows_with(rows, table, key, ordinal, columns);
    let at = row_index(rows, table, key);
    let found = row_index(rows, other_table, other);
    lemma_rows_with(rows, table, key, ordinal, columns);
    lemma_index_first(rows, other_table, other);
    lemma_index_first(rows, table, key);
    if found < rows.len() {
        assert(after[found] == rows[found]);
        assert forall|j: int| 0 <= j < found implies (#[trigger] after[j]).table != other_table
            || after[j].key != other by {
            if j != at {
                assert(after[j] == rows[j]);
            }
        }
        lemma_first_index(after, other_table, other, found);
    } else {
        assert forall|j: int| 0 <= j < after.len() implies (#[trigger] after[j]).table
            != other_table || after[j].key != other by {
            if j != at {
                assert(after[j] == rows[j]);
            }
        }
        lemma_absent_index(after, other_table, other);
    }
}

/// A row put behind others leaves the index of any other table and key where
/// it was, or behind the rows as before.
proof fn lemma_pushed_index(rows: Seq<RowModel>, row: RowModel, table: Seq<char>, key: KeyModel)
    requires
        row.table != table || row.key != key,
    ensures
        row_index(rows.push(row), table, key) < rows.len() + 1 <==> row_index(rows, table, key)
            < rows.len(),
        row_index(rows, table, key) < rows.len() ==> row_index(rows.push(row), table, key)
            == row_index(rows, table, key),
{
    let after = rows.push(row);
    let found = row_index(rows, table, key);
    lemma_index_first(rows, table, key);
    if found < rows.len() {
        assert(after[found] == rows[found]);
        assert forall|j: int| 0 <= j < found implies (#[trigger] after[j]).table != table
            || after[j].key != key by {
            assert(after[j] == rows[j]);
        }
        lemma_first_index(after, table, key, found);
    } else {
        assert forall|j: int| 0 <= j < after.len() implies (#[trigger] after[j]).table != table
            || after[j].key != key by {
            if j < rows.len() {
                assert(after[j] == rows[j]);
            }
        }
        lemma_absent_index(after, table, key);
    }
}

/// The rows of the events of a block hold a row of the plugins under a key
/// exactly where one of the events installs a plugin with that key.
proof fn lemma_listed_rows(block: u64, events: Seq<EventModel>, key: KeyModel)
    ensures
        row_index(
            events_sheet(empty_sheet(), block, events).rows,
            event_table(EventKind::PluginInstalled),
            key,
        ) < events_sheet(empty_sheet(), block, events).rows.len() <==> listed(events, key),
    decreases events.len(),
{
    let table = event_table(EventKind::PluginInstalled);
    if events.len() > 0 {
        let before = events_sheet(empty_sheet(), block, events.drop_last());
        let event = events.last();
        lemma_listed_rows(block, events.drop_last(), key);
        match event {
            EventModel::PluginInstalled { plugin, account, .. } => {
                let own = plugin_key(plugin, account);
                let held = columns_onto(
                    columns_at(before.rows, table, own),
                    event_columns(block, event),
                );
                lemma_rows_with(before.rows, table, own, before.next, held);
                if own != key {
                    lemma_other_index(before.rows, table, own, before.next, held, table, key);
                }
            },
            _ => {
                lemma_tables_differ();
                assert(event_table(kind_of(event)) != table);
                let row = RowModel {
                    table: event_table(kind_of(event)),
                    key: KeyModel::Single(row_id(block, before.rows.len() as int)),
                    operation: RowOperation::Create,
                    ordinal: before.next,
                    columns: columns_map(event_columns(block, event)),
                };
                lemma_pushed_index(before.rows, row, table, key);
            },
        }
    }
}

/// The rows of the events of a block are creations. Every event leaves one
/// row in its table, but for the installations that repeat an earlier one.
proof fn lemma_events_count(block: u64, events: Seq<EventModel>, table: Seq<char>)
    ensures
        all_created(events_sheet(empty_sheet(), block, events).rows),
        events_sheet(empty_sheet(), block, events).rows.len() + repeats(events) == events.len(),
        count_in(events_sheet(empty_sheet(), block, events).rows, table) + (if table
            == event_table(EventKind::PluginInstalled) {
            repeats(events)
        } else {
            0nat
        }) == tally(events, table),
    decreases events.len(),
{
    let plugins = event_table(EventKind::PluginInstalled);
    if events.len() > 0 {
        let before = events_sheet(empty_sheet(), block, events.drop_last());
        let after = events_sheet(empty_sheet(), block, events);
        let event = events.last();
        lemma_events_count(block, events.drop_last(), table);
        match event {
            EventModel::PluginInstalled { plugin, account, .. } => {
                let own = plugin_key(plugin, account);
                let held = columns_onto(
                    columns_at(before.rows, plugins, own),
                    event_columns(block, event),
                );
                let at = row_index(before.rows, plugins, own);
                lemma_listed_rows(block, events.drop_last(), own);
                lemma_rows_with(before.rows, plugins, own, before.next, held);
                if at < before.rows.len() {
                    lemma_count_update(before.rows, at, after.rows[at], table);
                    assert(after.rows =~= before.rows.update(at, after.rows[at]));
                } else {
                    assert(after.rows.drop_last() =~= before.rows);
                }
                assert forall|i: int| 0 <= i < after.rows.len() implies (
                #[trigger] after.rows[i]).operation == RowOperation::Create by {
                    if i != at {
                        assert(after.rows[i] == before.rows[i]);
                    }
                }
            },
            _ => {
                lemma_tables_differ();
                assert(event_table(kind_of(event)) != plugins);
                assert(after.rows.drop_last() =~= before.rows);
                assert forall|i: int| 0 <= i < after.rows.len() implies (
                #[trigger] after.rows[i]).operation == RowOperation::Create by {
                    if i < before.rows.len() {
                        assert(after.rows[i] == before.rows[i]);
                    }
                }
            },
        }
    }
}

/// The rows of the deltas of a store are creations in the table of the store.
proof fn lemma_deltas_count(
    sheet: Sheet,
    id: StoreId,
    block: u64,
    deltas: Seq<DeltaModel>,
    table: Seq<char>,
)
    requires
        all_created(sheet.rows),
    ensures
        all_created(deltas_sheet(sheet, id, block, deltas).rows),
        count_in(deltas_sheet(sheet, id, block, deltas).rows, table) == count_in(sheet.rows, table)
            + (if store_table(id) == table {
            deltas.len()
        } else {
            0nat
        }),
    decreases deltas.len(),
{
    if deltas.len() > 0 {
        let before = deltas_sheet(sheet, id, block, deltas.drop_last());
        let after = deltas_sheet(sheet, id, block, deltas);
        lemma_deltas_count(sheet, id, block, deltas.drop_last(), table);
        assert(after.rows.drop_last() =~= before.rows);
        assert forall|i: int| 0 <= i < after.rows.len() implies (#[trigger] after.rows[i]).operation
            == RowOperation::Create by {
            if i < before.rows.len() {
                assert(after.rows[i] == before.rows[i]);
            }
        }
    }
}

/// The rows of a block in one table: those of the events of its kind or of the
/// deltas of its store, and the anchor in the table of the anchors.
proof fn lemma_block_count(
    clock: Clock,
    events: Seq<EventModel>,
    shares: Seq<DeltaModel>,
    positions: Seq<DeltaModel>,
    enrollment: Seq<DeltaModel>,
    accounts: Seq<DeltaModel>,
    table: Seq<char>,
)
    ensures
        ({
            let rows = block_sheet(clock, events, shares, positions, enrollment, accounts).rows;
            let written = events.len() + shares.len() + positions.len() + enrollment.len()
                + accounts.len();
            &&& all_created(rows)
            &&& rows.len() + repeats(events) == written + (if written > 0 {
                1nat
            } else {
                0nat
            })
            &&& count_in(rows, table) + (if table == event_table(EventKind::PluginInstalled) {
                repeats(events)
            } else {
                0nat
            }) == tally(events, table) + (if store_table(StoreId::Shares) == table {
                shares.len()
            } else {
                0nat
            }) + (if store_table(StoreId::Positions) == table {
                positions.len()
            } else {
                0nat
            }) + (if store_table(StoreId::Enrollment) == table {
                enrollment.len()
            } else {
                0nat
            }) + (if store_table(StoreId::Accounts) == table {
                accounts.len()
            } else {
                0nat
            }) + (if written > 0 && table == "blocks"@ {
                1nat
            } else {
                0nat
            })
        }),
{
    let block = clock.number;
    let s0 = events_sheet(empty_sheet(), block, events);
    let s1 = deltas_sheet(s0, StoreId::Shares, block, shares);
    let s2 = deltas_sheet(s1, StoreId::Positions, block, positions);
    let s3 = deltas_sheet(s2, StoreId::Enrollment, block, enrollment);
    let s4 = deltas_sheet(s3, StoreId::Accounts, block, accounts);
    let s5 = sheet_anchor(s4, clock);
    lemma_events_count(block, events, table);
    lemma_deltas_count(s0, StoreId::Shares, block, shares, table);
    lemma_deltas_count(s1, StoreId::Positions, block, positions, table);
    lemma_deltas_count(s2, StoreId::Enrollment, block, enrollment, table);
    lemma_deltas_count(s3, StoreId::Accounts, block, accounts, table);
    lemma_events_sheet(empty_sheet(), block, events);
    lemma_deltas_sheet(s0, StoreId::Shares, block, shares);
    lemma_deltas_sheet(s1, StoreId::Positions, block, positions);
    lemma_deltas_sheet(s2, StoreId::Enrollment, block, enrollment);
    lemma_deltas_sheet(s3, StoreId::Accounts, block, accounts);
    if s4.rows.len() > 0 {
        assert(s5.rows.drop_last() =~= s4.rows);
        assert forall|i: int| 0 <= i < s5.rows.len() implies (#[trigger] s5.rows[i]).operation
            == RowOperation::Create by {
            if i < s4.rows.len() {
                assert(s5.rows[i] == s4.rows[i]);
            }
        }
    }
}

/// One row for each event and each delta: the sheet of a block holds one
/// creation in the table of its kind for each event, but for the installations
/// that repeat an earlier one, one in the table of its store for each delta,
/// and one anchor where it holds any of these.
pub proof fn lemma_one_row_each(
    clock: Clock,
    events: Seq<EventModel>,
    shares: Seq<DeltaModel>,
    positions: Seq<DeltaModel>,
    enrollment: Seq<DeltaModel>,
    accounts: Seq<DeltaModel>,
)
    ensures
        one_row_each(
            block_sheet(clock, events, shares, positions, enrollment, accounts).rows,
            events,
            shares.len(),
            positions.len(),
            enrollment.len(),
            accounts.len(),
        ),
{
    let rows = block_sheet(clock, events, shares, positions, enrollment, accounts).rows;
    lemma_tables_differ();
    assert forall|kind: EventKind|
        count_in(rows, #[trigger] event_table(kind)) + (if kind == EventKind::PluginInstalled {
            repeats(events)
        } else {
            0nat
        }) == events_of_kind(events, kind).len() by {
        lemma_block_count(
            clock,
            events,
            shares,
            positions,
            enrollment,
            accounts,
            event_table(kind),
        );
        lemma_tally_kind(events, kind);
        assert(event_table(kind) != store_table(StoreId::Shares));
        assert(event_table(kind) != store_table(StoreId::Positions));
        assert(event_table(kind) != store_table(StoreId::Enrollment));
        assert(event_table(kind) != store_table(StoreId::Accounts));
    }
    lemma_store_count(clock, events, shares, positions, enrollment, accounts, StoreId::Shares);
    lemma_store_count(clock, events, shares, positions, enrollment, accounts, StoreId::Positions);
    lemma_store_count(clock, events, shares, positions, enrollment, accounts, StoreId::Enrollment);
    lemma_store_count(clock, events, shares, positions, enrollment, accounts, StoreId::Accounts);
    lemma_block_count(clock, events, shares, positions, enrollment, accounts, "blocks"@);
    lemma_tally_none(events, "blocks"@);
    assert(store_table(StoreId::Shares) != "blocks"@);
    assert(store_table(StoreId::Positions) != "blocks"@);
    assert(store_table(StoreId::Enrollment) != "blocks"@);
    assert(store_table(StoreId::Accounts) != "blocks"@);
}

/// The rows of a block in the table of a store are those of its deltas.
proof fn lemma_store_count(
    clock: Clock,
    events: Seq<EventModel>,
    shares: Seq<DeltaModel>,
    positions: Seq<DeltaModel>,
    enrollment: Seq<DeltaModel>,
    accounts: Seq<DeltaModel>,
    id: StoreId,
)
    ensures
        count_in(
            block_sheet(clock, events, shares, positions, enrollment, accounts).rows,
            store_table(id),
        ) == (match id {
            StoreId::Shares => shares.len(),
            StoreId::Positions => positions.len(),
            StoreId::Enrollment => enrollment.len(),
            StoreId::Accounts => accounts.len(),
        }),
{
    lemma_tables_differ();
    lemma_block_count(clock, events, shares, positions, enrollment, accounts, store_table(id));
    assert forall|kind: EventKind| #[trigger] event_table(kind) != store_table(id) by {}
    lemma_tally_none(events, store_table(id));
    assert(store_table(id) != "blocks"@);
    assert(store_table(StoreId::Shares) == store_table(id) ==> StoreId::Shares == id);
    assert(store_table(StoreId::Positions) == store_table(id) ==> StoreId::Positions == id);
    assert(store_table(StoreId::Enrollment) == store_table(id) ==> StoreId::Enrollment == id);
    assert(store_table(StoreId::Accounts) == store_table(id) ==> StoreId::Accounts == id);
}

/// The events that a list of plugins stands for: the installation of each, in
/// order.
pub open spec fn installations(plugins: Seq<PluginModel>) -> Seq<EventModel> {
    Seq::new(
        plugins.len(),
        |i: int|
            EventModel::PluginInstalled {
                plugin: plugins[i].address,
                account: plugins[i].account,
                ordinal: plugins[i].ordinal,
            },
    )
}

/// The row of the plugin at a place of the list, where the list names no
/// plugin twice for one account: a creation in the table `exa_plugins`, keyed
/// by the address of the plugin and the account, numbered by four times the
/// place, with the columns `address`, `account`, `block` and `ordinal`.
pub open spec fn plugin_row(block: u64, place: int, plugin: PluginModel) -> RowModel {
    RowModel {
        table: "exa_plugins"@,
        key: plugin_key(plugin.address, plugin.account),
        operation: RowOperation::Create,
        ordinal: 4 * place,
        columns: plugin_columns(block, plugin),
    }
}

/// The columns that the entry of a plugin writes: the `address` of the plugin
/// and the `account` as hexadecimal text, the `block` number and the `ordinal`
/// of the log as decimal text.
pub open spec fn plugin_columns(block: u64, plugin: PluginModel) -> Map<Seq<char>, Seq<char>> {
    Map::empty().insert("address"@, hex_string(plugin.address)).insert(
        "account"@,
        hex_string(plugin.account),
    ).insert("block"@, decimal_string(block as int)).insert(
        "ordinal"@,
        decimal_string(plugin.ordinal as int),
    )
}

/// The first row of a table and key among rows that hold one.
pub open spec fn row_at(rows: Seq<RowModel>, table: Seq<char>, key: KeyModel) -> RowModel {
    rows[row_index(rows, table, key)]
}

/// Whether no earlier entry of the list names the plugin of a place for the
/// same account.
pub open spec fn first_listing(plugins: Seq<PluginModel>, place: int) -> bool {
    forall|j: int|
        0 <= j < place ==> (#[trigger] plugins[j]).address != plugins[place].address
            || plugins[j].account != plugins[place].account
}

/// Whether no later entry of the list names the plugin of a place for the same
/// account.
pub open spec fn last_listing(plugins: Seq<PluginModel>, place: int) -> bool {
    forall|j: int|
        place < j < plugins.len() ==> (#[trigger] plugins[j]).address != plugins[place].address
            || plugins[j].account != plugins[place].account
}

/// What the row of a plugin's key holds among rows: it is a creation in the
/// table of the plugins under that key, numbered by four times the place of
/// the entry where no earlier entry names the pair, and holding the columns of
/// the entry where no later entry names the pair.
pub open spec fn plugin_held(
    rows: Seq<RowModel>,
    block: u64,
    plugins: Seq<PluginModel>,
    place: int,
) -> bool {
    let key = plugin_key(plugins[place].address, plugins[place].account);
    let row = row_at(rows, "exa_plugins"@, key);
    &&& row_index(rows, "exa_plugins"@, key) < rows.len()
    &&& row.table == "exa_plugins"@
    &&& row.key == key
    &&& row.operation == RowOperation::Create
    &&& (first_listing(plugins, place) ==> row.ordinal == 4 * place)
    &&& (last_listing(plugins, place) ==> row.columns == plugin_columns(block, plugins[place]))
}

/// The names of the columns of a plugin's row.
spec fn plugin_names() -> Set<Seq<char>> {
    Set::empty().insert("address"@).insert("account"@).insert("block"@).insert("ordinal"@)
}

/// Written into a row that holds no column but those of a plugin's row, the
/// columns of an entry leave the columns of that entry.
proof fn lemma_written_columns(base: Map<Seq<char>, Seq<char>>, block: u64, plugin: PluginModel)
    requires
        base.dom() =~= plugin_names() || base.dom() =~= Set::<Seq<char>>::empty(),
    ensures
        columns_onto(
            base,
            event_columns(
                block,
                EventModel::PluginInstalled {
                    plugin: plugin.address,
                    account: plugin.account,
                    ordinal: plugin.ordinal,
                },
            ),
        ) == plugin_columns(block, plugin),
        plugin_columns(block, plugin).dom() =~= plugin_names(),
{
    let event = EventModel::PluginInstalled {
        plugin: plugin.address,
        account: plugin.account,
        ordinal: plugin.ordinal,
    };
    let columns = event_columns(block, event);
    assert(columns =~= seq![
        ("address"@, hex_string(plugin.address)),
        ("account"@, hex_string(plugin.account)),
        ("block"@, decimal_string(block as int)),
        ("ordinal"@, decimal_string(plugin.ordinal as int)),
    ]);
    let three = columns.drop_last();
    let two = three.drop_last();
    let one = two.drop_last();
    assert(one.drop_last() =~= Seq::<(Seq<char>, Seq<char>)>::empty());
    assert(columns_onto(base, one.drop_last()) == base);
    assert(columns_onto(base, one) == base.insert("address"@, hex_string(plugin.address)));
    assert(columns_onto(base, two) == columns_onto(base, one).insert(
        "account"@,
        hex_string(plugin.account),
    ));
    assert(columns_onto(base, three) == columns_onto(base, two).insert(
        "block"@,
        decimal_string(block as int),
    ));
    assert(columns_onto(base, columns) == columns_onto(base, three).insert(
        "ordinal"@,
        decimal_string(plugin.ordinal as int),
    ));
    assert(plugin_columns(block, plugin).dom() =~= plugin_names());
    assert(columns_onto(base, columns) =~= plugin_columns(block, plugin));
}

/// The rows of the installations of plugins hold the columns of a plugin's row
/// and no other.
proof fn lemma_plugin_domains(block: u64, plugins: Seq<PluginModel>)
    ensures
        forall|j: int|
            0 <= j < events_sheet(empty_sheet(), block, installations(plugins)).rows.len() ==> (
            #[trigger] events_sheet(
                empty_sheet(),
                block,
                installations(plugins),
            ).rows[j]).columns.dom() =~= plugin_names(),
        events_sheet(empty_sheet(), block, installations(plugins)).next == 4 * plugins.len(),
        all_created(events_sheet(empty_sheet(), block, installations(plugins)).rows),
    decreases plugins.len(),
{
    lemma_installations(plugins);
    lemma_events_sheet(empty_sheet(), block, installations(plugins));
    lemma_events_count(block, installations(plugins), "exa_plugins"@);
    if plugins.len() > 0 {
        let init = plugins.drop_last();
        let last = plugins.last();
        lemma_plugin_domains(block, init);
        assert(installations(plugins).drop_last() =~= installations(init));
        let before = events_sheet(empty_sheet(), block, installations(init));
        let after = events_sheet(empty_sheet(), block, installations(plugins));
        let key = plugin_key(last.address, last.account);
        let at = row_index(before.rows, "exa_plugins"@, key);
        let base = columns_at(before.rows, "exa_plugins"@, key);
        assert(event_table(EventKind::PluginInstalled) == "exa_plugins"@);
        lemma_index_first(before.rows, "exa_plugins"@, key);
        lemma_written_columns(base, block, last);
        lemma_rows_with(before.rows, "exa_plugins"@, key, before.next, plugin_columns(block, last));
        assert forall|j: int| 0 <= j < after.rows.len() implies (
        #[trigger] after.rows[j]).columns.dom() =~= plugin_names() by {
            if j != at {
                assert(after.rows[j] == before.rows[j]);
            }
        }
    }
}

/// What the installations of plugins leave in the row of each pair of plugin
/// and account.
proof fn lemma_plugin_held(block: u64, plugins: Seq<PluginModel>, place: int)
    requires
        0 <= place < plugins.len(),
    ensures
        plugin_held(
            events_sheet(empty_sheet(), block, installations(plugins)).rows,
            block,
            plugins,
            place,
        ),
    decreases plugins.len(),
{
    let init = plugins.drop_last();
    let last = plugins.last();
    let end = plugins.len() - 1;
    assert(plugins[end] == last);
    assert(installations(plugins).drop_last() =~= installations(init));
    let before = events_sheet(empty_sheet(), block, installations(init));
    let after = events_sheet(empty_sheet(), block, installations(plugins));
    let table = "exa_plugins"@;
    let key = plugin_key(last.address, last.account);
    let own = plugin_key(plugins[place].address, plugins[place].account);
    let at = row_index(before.rows, table, key);
    let base = columns_at(before.rows, table, key);
    assert(event_table(EventKind::PluginInstalled) == table);
    lemma_plugin_domains(block, init);
    lemma_index_first(before.rows, table, key);
    lemma_written_columns(base, block, last);
    lemma_rows_with(before.rows, table, key, before.next, plugin_columns(block, last));
    if place == end {
        if first_listing(plugins, place) && at < before.rows.len() {
            lemma_listed_rows(block, installations(init), key);
            lemma_listed_names(init, key);
            let k = choose|k: int|
                0 <= k < init.len() && plugin_key((#[trigger] init[k]).address, init[k].account)
                    == key;
            assert(init[k] == plugins[k]);
            lemma_plugin_keys(init[k].address, init[k].account, last.address, last.account);
            assert(false);
        }
    } else {
        lemma_plugin_held(block, init, place);
        assert(init[place] == plugins[place]);
        if first_listing(plugins, place) {
            assert forall|j: int| 0 <= j < place implies (#[trigger] init[j]).address
                != init[place].address || init[j].account != init[place].account by {
                assert(init[j] == plugins[j]);
            }
        }
        if own == key {
            lemma_plugin_keys(
                plugins[place].address,
                plugins[place].account,
                last.address,
                last.account,
            );
            assert(!last_listing(plugins, place));
        } else {
            lemma_other_index(
                before.rows,
                table,
                key,
                before.next,
                plugin_columns(block, last),
                table,
                own,
            );
            if last_listing(plugins, place) {
                assert forall|j: int| place < j < init.len() implies (#[trigger] init[j]).address
                    != init[place].address || init[j].account != init[place].account by {
                    assert(init[j] == plugins[j]);
                }
            }
        }
    }
}

/// No plugin is listed twice for one account.
pub open spec fn listed_once(plugins: Seq<PluginModel>) -> bool {
    forall|i: int, j: int|
        0 <= i < j < plugins.len() ==> (#[trigger] plugins[i]).address != (
        #[trigger] plugins[j]).address || plugins[i].account != plugins[j].account
}

/// Whether the key is that of one of the plugins of a list.
pub open spec fn names_plugin(plugins: Seq<PluginModel>, key: KeyModel) -> bool {
    exists|i: int|
        0 <= i < plugins.len() && plugin_key(
            (#[trigger] plugins[i]).address,
            plugins[i].account,
        ) == key
}

/// The key of a plugin's row tells the plugin and the account: two rows have
/// one key only where they have the same address and the same account.
pub proof fn lemma_plugin_keys(
    plugin: Seq<u8>,
    account: Seq<u8>,
    other_plugin: Seq<u8>,
    other_account: Seq<u8>,
)
    requires
        plugin_key(plugin, account) == plugin_key(other_plugin, other_account),
    ensures
        plugin == other_plugin,
        account == other_account,
{
    reveal_strlit("address");
    reveal_strlit("account");
    assert("address"@[1] != "account"@[1]);
    let one = Map::<Seq<char>, Seq<char>>::empty().insert("address"@, hex_string(plugin)).insert(
        "account"@,
        hex_string(account),
    );
    let two = Map::<Seq<char>, Seq<char>>::empty().insert(
        "address"@,
        hex_string(other_plugin),
    ).insert("account"@, hex_string(other_account));
    assert(plugin_key(plugin, account) == KeyModel::Composite(one));
    assert(plugin_key(other_plugin, other_account) == KeyModel::Composite(two));
    assert(one == two);
    assert(one["address"@] == hex_string(plugin));
    assert(two["address"@] == hex_string(other_plugin));
    assert(one["account"@] == hex_string(account));
    assert(two["account"@] == hex_string(other_account));
    lemma_hex_injective(plugin, other_plugin);
    lemma_hex_injective(account, other_account);
}

/// An installation with a key is listed exactly where the key is that of one
/// of the plugins.
proof fn lemma_listed_names(plugins: Seq<PluginModel>, key: KeyModel)
    ensures
        listed(installations(plugins), key) <==> names_plugin(plugins, key),
    decreases plugins.len(),
{
    if plugins.len() > 0 {
        let init = plugins.drop_last();
        lemma_listed_names(init, key);
        assert(installations(plugins).drop_last() =~= installations(init));
        if names_plugin(init, key) {
            let i = choose|i: int|
                0 <= i < init.len() && plugin_key((#[trigger] init[i]).address, init[i].account)
                    == key;
            assert(plugins[i] == init[i]);
        }
        if names_plugin(plugins, key) {
            let i = choose|i: int|
                0 <= i < plugins.len() && plugin_key(
                    (#[trigger] plugins[i]).address,
                    plugins[i].account,
                ) == key;
            if i < init.len() {
                assert(init[i] == plugins[i]);
            }
        }
        if plugin_key(plugins.last().address, plugins.last().account) == key {
            assert(plugins[plugins.len() - 1] == plugins.last());
        }
    }
}

/// The rows of the plugins of a list are those of its keys: every plugin of
/// the list has a row under its key, and every row is under the key of a plugin
/// of the list.
proof fn lemma_plugin_keys_held(block: u64, plugins: Seq<PluginModel>)
    ensures
        forall|i: int|
            0 <= i < plugins.len() ==> holds_row(
                events_sheet(empty_sheet(), block, installations(plugins)).rows,
                "exa_plugins"@,
                plugin_key((#[trigger] plugins[i]).address, plugins[i].account),
            ),
        forall|j: int|
            0 <= j < events_sheet(empty_sheet(), block, installations(plugins)).rows.len()
                ==> names_plugin(
                plugins,
                (#[trigger] events_sheet(empty_sheet(), block, installations(plugins)).rows[j]).key,
            ) && events_sheet(empty_sheet(), block, installations(plugins)).rows[j].table
                == "exa_plugins"@,
{
    let events = installations(plugins);
    let rows = events_sheet(empty_sheet(), block, events).rows;
    let table = event_table(EventKind::PluginInstalled);
    lemma_installations(plugins);
    assert forall|i: int| 0 <= i < plugins.len() implies holds_row(
        rows,
        "exa_plugins"@,
        plugin_key((#[trigger] plugins[i]).address, plugins[i].account),
    ) by {
        let key = plugin_key(plugins[i].address, plugins[i].account);
        lemma_listed_rows(block, events, key);
        lemma_listed_names(plugins, key);
        lemma_index_first(rows, table, key);
        let at = row_index(rows, table, key);
        assert(rows[at].table == table && rows[at].key == key);
    }
    assert forall|j: int| 0 <= j < rows.len() implies names_plugin(plugins, (#[trigger] rows[j]).key)
        && rows[j].table == "exa_plugins"@ by {
        lemma_events_count(block, events, table);
        lemma_tally_kind(events, EventKind::PluginInstalled);
        lemma_count_all(rows, table);
        let key = rows[j].key;
        lemma_listed_rows(block, events, key);
        lemma_listed_names(plugins, key);
        lemma_index_first(rows, table, key);
    }
}

/// Where a table has as many rows as there are rows, every row is of the
/// table.
proof fn lemma_count_all(rows: Seq<RowModel>, table: Seq<char>)
    ensures
        count_in(rows, table) <= rows.len(),
        count_in(rows, table) == rows.len() ==> forall|j: int|
            0 <= j < rows.len() ==> (#[trigger] rows[j]).table == table,
    decreases rows.len(),
{
    if rows.len() > 0 {
        lemma_count_all(rows.drop_last(), table);
        if count_in(rows, table) == rows.len() {
            assert forall|j: int| 0 <= j < rows.len() implies (#[trigger] rows[j]).table
                == table by {
                if j < rows.len() - 1 {
                    assert(rows.drop_last()[j] == rows[j]);
                }
            }
        }
    }
}

/// The rows of the installations of plugins, where none is listed twice for
/// one account: the row at each place is the row of the plugin at that place.
proof fn lemma_plugin_rows(block: u64, plugins: Seq<PluginModel>)
    requires
        listed_once(plugins),
    ensures
        events_sheet(empty_sheet(), block, installations(plugins)).rows.len() == plugins.len(),
        events_sheet(empty_sheet(), block, installations(plugins)).next == 4 * plugins.len(),
        forall|i: int|
            0 <= i < plugins.len() ==> #[trigger] events_sheet(
                empty_sheet(),
                block,
                installations(plugins),
            ).rows[i] == plugin_row(block, i, plugins[i]),
    decreases plugins.len(),
{
    if plugins.len() > 0 {
        let init = plugins.drop_last();
        let last = plugins.last();
        assert forall|i: int, j: int| 0 <= i < j < init.len() implies (#[trigger] init[i]).address
            != (#[trigger] init[j]).address || init[i].account != init[j].account by {
            assert(init[i] == plugins[i] && init[j] == plugins[j]);
        }
        lemma_plugin_rows(block, init);
        assert(installations(plugins).drop_last() =~= installations(init));
        let before = events_sheet(empty_sheet(), block, installations(init));
        let after = events_sheet(empty_sheet(), block, installations(plugins));
        let event = installations(plugins).last();
        let columns = event_columns(block, event);
        let key = plugin_key(last.address, last.account);
        assert(event_table(EventKind::PluginInstalled) == "exa_plugins"@);
        assert forall|j: int| 0 <= j < before.rows.len() implies (#[trigger] before.rows[j]).table
            != "exa_plugins"@ || before.rows[j].key != key by {
            assert(before.rows[j] == plugin_row(block, j, init[j]));
            assert(init[j] == plugins[j]);
            assert(plugins[plugins.len() - 1] == last);
            if before.rows[j].key == key {
                lemma_plugin_keys(init[j].address, init[j].account, last.address, last.account);
            }
        }
        lemma_absent_index(before.rows, "exa_plugins"@, key);
        assert(columns =~= seq![
            ("address"@, hex_string(last.address)),
            ("account"@, hex_string(last.account)),
            ("block"@, decimal_string(block as int)),
            ("ordinal"@, decimal_string(last.ordinal as int)),
        ]);
        let none = Map::<Seq<char>, Seq<char>>::empty();
        let three = columns.drop_last();
        let two = three.drop_last();
        let one = two.drop_last();
        assert(one.drop_last() =~= Seq::<(Seq<char>, Seq<char>)>::empty());
        assert(columns_onto(none, one.drop_last()) == none);
        assert(columns_onto(none, one) == none.insert("address"@, hex_string(last.address)));
        assert(columns_onto(none, two) == columns_onto(none, one).insert(
            "account"@,
            hex_string(last.account),
        ));
        assert(columns_onto(none, three) == columns_onto(none, two).insert(
            "block"@,
            decimal_string(block as int),
        ));
        assert(columns_onto(none, columns) == columns_onto(none, three).insert(
            "ordinal"@,
            decimal_string(last.ordinal as int),
        ));
        assert(after.rows == before.rows.push(plugin_row(block, init.len() as int, last)));
        assert forall|i: int| 0 <= i < plugins.len() implies #[trigger] after.rows[i]
            == plugin_row(block, i, plugins[i]) by {
            if i < init.len() {
                assert(after.rows[i] == before.rows[i]);
                assert(init[i] == plugins[i]);
            }
        }
    }
}

/// The installations of plugins are all of one kind, and cost four operations
/// each.
proof fn lemma_installations(plugins: Seq<PluginModel>)
    ensures
        events_of_kind(installations(plugins), EventKind::PluginInstalled).len() == plugins.len(),
        events_cost(installations(plugins)) == 4 * plugins.len(),
    decreases plugins.len(),
{
    if plugins.len() > 0 {
        lemma_installations(plugins.drop_last());
        assert(installations(plugins).drop_last() =~= installations(plugins.drop_last()));
    }
}

/// The changeset of a block's plugin installations: that of the events of
/// their installation, without any delta.
///
/// Every plugin of the list asks for the creation of a row of the table
/// `exa_plugins`, keyed by the `address` of the plugin and the `account` it was
/// installed on, which holds the `address`, the `account`, the `block` number
/// and the `ordinal` of the log. The sink knows a row by its key, and one
/// changeset holds one row for a key. So the table gets one row for each plugin
/// and account of the list, and has no other row: where the list names no
/// plugin twice for one account, that is one row for each entry, in the order
/// of the list. Where it names a plugin again for the same account, the later
/// entry creates no second row: it writes its columns into the row of the
/// first, which keeps its place and its number. The count of rows is then
/// lower than that of the entries by the count of such repeats.
///
/// Where there is any plugin, the anchor row of the block follows: a row of
/// `blocks`, keyed by the block number, with the `timestamp` in seconds. A
/// block without plugins gives an empty changeset, without an anchor. The order
/// of the fields within a row is left open.
///
/// The stage fails only where the rows need more operations than the sink can
/// number, four for each plugin and one for the anchor.
pub fn db_out(clock: &Clock, plugins: &Plugins) -> (r: Result<DatabaseChanges, Error>)
    ensures
        r is Ok <==> 4 * plugins.plugins@.len() + (if plugins.plugins@.len() > 0 {
            1int
        } else {
            0int
        }) <= u64::MAX,
        r matches Ok(changes) ==> change_rows(changes) == block_sheet(
            *clock,
            installations(plugins.plugins.deep_view()),
            Seq::empty(),
            Seq::empty(),
            Seq::empty(),
            Seq::empty(),
        ).rows,
        r matches Ok(changes) ==> count_in(change_rows(changes), "exa_plugins"@) + repeats(
            installations(plugins.plugins.deep_view()),
        ) == plugins.plugins@.len() && count_in(change_rows(changes), "blocks"@) == (if
            plugins.plugins@.len() > 0 {
            1nat
        } else {
            0nat
        }) && change_rows(changes).len() == count_in(change_rows(changes), "exa_plugins"@)
            + count_in(change_rows(changes), "blocks"@),
        r matches Ok(changes) ==> forall|i: int|
            0 <= i < plugins.plugins@.len() ==> holds_row(
                change_rows(changes),
                "exa_plugins"@,
                plugin_key(
                    (#[trigger] plugins.plugins.deep_view()[i]).address,
                    plugins.plugins.deep_view()[i].account,
                ),
            ),
        r matches Ok(changes) ==> forall|j: int|
            0 <= j < change_rows(changes).len() && (#[trigger] change_rows(changes)[j]).table
                == "exa_plugins"@ ==> names_plugin(
                plugins.plugins.deep_view(),
                change_rows(changes)[j].key,
            ),
        r matches Ok(changes) ==> forall|i: int|
            0 <= i < plugins.plugins@.len() ==> #[trigger] plugin_held(
                change_rows(changes),
                clock.number,
                plugins.plugins.deep_view(),
                i,
            ),
        r matches Ok(changes) ==> listed_once(plugins.plugins.deep_view()) ==> count_in(
            change_rows(changes),
            "exa_plugins"@,
        ) == plugins.plugins@.len() && forall|i: int|
            0 <= i < plugins.plugins@.len() ==> #[trigger] change_rows(changes)[i] == plugin_row(
                clock.number,
                i,
                plugins.plugins.deep_view()[i],
            ),
        r matches Ok(changes) ==> plugins.plugins@.len() > 0 ==> change_rows(changes).last()
            == anchor_row(*clock, 4 * (plugins.plugins@.len() as int)),
        r matches Err(e) ==> e == Error::TooManyRows,
{
    let ghost models = plugins.plugins.deep_view();
    let mut events: Vec<DomainEvent> = Vec::new();
    let mut i: usize = 0;
    while i < plugins.plugins.len()
        invariant
            i <= plugins.plugins@.len(),
            models == plugins.plugins.deep_view(),
            events@.len() == i,
            forall|k: int| 0 <= k < i ==> #[trigger] events@[k]@ == installations(models)[k],
        decreases plugins.plugins@.len() - i,
    {
        let plugin = &plugins.plugins[i];
        assert(models[i as int] == plugin@);
        events.push(
            DomainEvent::PluginInstalled {
                plugin: copy_bytes(plugin.address.as_slice()),
                account: copy_bytes(plugin.account.as_slice()),
                ordinal: plugin.ordinal,
            },
        );
        i = i + 1;
    }
    let none = BlockDeltas {
        shares: Vec::new(),
        positions: Vec::new(),
        enrollment: Vec::new(),
        accounts: Vec::new(),
    };
    proof {
        assert(events.deep_view() =~= installations(models));
        assert(none.of(StoreId::Shares) =~= Seq::<DeltaModel>::empty());
        assert(none.of(StoreId::Positions) =~= Seq::<DeltaModel>::empty());
        assert(none.of(StoreId::Enrollment) =~= Seq::<DeltaModel>::empty());
        assert(none.of(StoreId::Accounts) =~= Seq::<DeltaModel>::empty());
        assert forall|id: StoreId| keys_shaped(id, #[trigger] none.of(id)) by {
            match id {
                StoreId::Shares => {},
                StoreId::Positions => {},
                StoreId::Enrollment => {},
                StoreId::Accounts => {},
            }
        }
        lemma_installations(models);
    }
    let r = emit(clock, &events, &none);
    proof {
        if r is Ok {
            let block = clock.number;
            let data = events_sheet(empty_sheet(), block, installations(models));
            let whole = sheet_anchor(data, *clock);
            let rows = change_rows(r->Ok_0);
            assert(event_table(EventKind::PluginInstalled) == "exa_plugins"@);
            assert(whole.rows == rows);
            lemma_events_sheet(empty_sheet(), block, installations(models));
            lemma_plugin_keys_held(block, models);
            assert forall|i: int| 0 <= i < models.len() implies holds_row(
                rows,
                "exa_plugins"@,
                plugin_key((#[trigger] models[i]).address, models[i].account),
            ) by {
                let key = plugin_key(models[i].address, models[i].account);
                assert(holds_row(data.rows, "exa_plugins"@, key));
                let j = choose|j: int|
                    0 <= j < data.rows.len() && (#[trigger] data.rows[j]).table == "exa_plugins"@
                        && data.rows[j].key == key;
                assert(rows[j] == data.rows[j]);
            }
            assert forall|j: int|
                0 <= j < rows.len() && (#[trigger] rows[j]).table == "exa_plugins"@ implies names_plugin(
                models,
                rows[j].key,
            ) by {
                reveal_strlit("exa_plugins");
                reveal_strlit("blocks");
                assert("exa_plugins"@.len() != "blocks"@.len());
                if j < data.rows.len() {
                    assert(rows[j] == data.rows[j]);
                }
            }
            if models.len() > 0 {
                assert(rows.last() == anchor_row(*clock, data.next));
            }
            assert forall|i: int| 0 <= i < models.len() implies #[trigger] plugin_held(
                rows,
                block,
                models,
                i,
            ) by {
                let key = plugin_key(models[i].address, models[i].account);
                lemma_plugin_held(block, models, i);
                reveal_strlit("exa_plugins");
                reveal_strlit("blocks");
                assert("exa_plugins"@.len() != "blocks"@.len());
                lemma_pushed_index(
                    data.rows,
                    anchor_row(*clock, data.next),
                    "exa_plugins"@,
                    key,
                );
                let at = row_index(data.rows, "exa_plugins"@, key);
                lemma_index_first(data.rows, "exa_plugins"@, key);
                assert(rows == data.rows.push(anchor_row(*clock, data.next)));
                assert(rows[at] == data.rows[at]);
            }
            if listed_once(models) {
                lemma_plugin_rows(block, models);
                assert forall|i: int| 0 <= i < models.len() implies #[trigger] rows[i]
                    == plugin_row(block, i, models[i]) by {
                    assert(rows[i] == data.rows[i]);
                }
            }
        }
    }
    r
}

} // verus!
