//! Turning a table into a managed one, step by step.
//!
//! The steps alternate with what the database answers. A table that is managed already is left as
//! it is; one that is not partitioned is converted, but only if it holds no rows.

use crate::decimal::to_decimal;
use crate::partition::{
    split_relation, validate_time_column, ErrorModel, PartitionError, Relation,
};
use vstd::prelude::*;
use vstd::string::*;

verus! {

/// What is to be done.
pub enum CreateAction {
    /// Look up the schema of the table.
    LookUpSchema,
    /// Look up the table among the managed ones.
    FindHypertable,
    /// Look up the type of the time column.
    ReadColumnType,
    /// Ask whether the table is partitioned.
    CheckPartitioned,
    /// Ask whether the table holds rows.
    CheckRows,
    /// Turn the table into a partitioned one.
    Convert,
    /// Enter the table among the managed ones.
    Register,
    /// Create the first partitions.
    CreatePartitions,
    /// Report success.
    Reply(String),
    /// Report an error.
    Fail(PartitionError),
}

/// What is to be done, as a mathematical value.
pub enum ActionModel {
    LookUpSchema,
    FindHypertable,
    ReadColumnType,
    CheckPartitioned,
    CheckRows,
    Convert,
    Register,
    CreatePartitions,
    Reply(Seq<char>),
    Fail(ErrorModel),
}

impl View for CreateAction {
    type V = ActionModel;

    open spec fn view(&self) -> ActionModel {
        match *self {
            CreateAction::LookUpSchema => ActionModel::LookUpSchema,
            CreateAction::FindHypertable => ActionModel::FindHypertable,
            CreateAction::ReadColumnType => ActionModel::ReadColumnType,
            CreateAction::CheckPartitioned => ActionModel::CheckPartitioned,
            CreateAction::CheckRows => ActionModel::CheckRows,
            CreateAction::Convert => ActionModel::Convert,
            CreateAction::Register => ActionModel::Register,
            CreateAction::CreatePartitions => ActionModel::CreatePartitions,
            CreateAction::Reply(s) => ActionModel::Reply(s@),
            CreateAction::Fail(e) => ActionModel::Fail(e@),
        }
    }
}

/// What the database answers.
pub enum CreateEvent {
    /// The schema of the table, if there is such a table.
    Schema(Option<String>),
    /// Whether the table is managed.
    Registered(bool),
    /// The type of the time column, if there is such a column.
    ColumnType(Option<String>),
    /// Whether the table is partitioned, as far as that could be found out.
    Partitioned(Option<bool>),
    /// Whether the table holds rows, as far as that could be found out.
    HasRows(Option<bool>),
    /// The table was converted.
    Converted,
    /// The table was entered among the managed ones.
    Entered,
    /// The number of partitions that were created.
    Partitions(i32),
}

/// What the database answers, as a mathematical value.
pub enum EventModel {
    Schema(Option<Seq<char>>),
    Registered(bool),
    ColumnType(Option<Seq<char>>),
    Partitioned(Option<bool>),
    HasRows(Option<bool>),
    Converted,
    Entered,
    Partitions(int),
}

/// The text of an optional string.
pub open spec fn opt_text(s: Option<String>) -> Option<Seq<char>> {
    match s {
        Some(s) => Some(s@),
        None => None,
    }
}

impl View for CreateEvent {
    type V = EventModel;

    open spec fn view(&self) -> EventModel {
        match *self {
            CreateEvent::Schema(s) => EventModel::Schema(opt_text(s)),
            CreateEvent::Registered(b) => EventModel::Registered(b),
            CreateEvent::ColumnType(s) => EventModel::ColumnType(opt_text(s)),
            CreateEvent::Partitioned(b) => EventModel::Partitioned(b),
            CreateEvent::HasRows(b) => EventModel::HasRows(b),
            CreateEvent::Converted => EventModel::Converted,
            CreateEvent::Entered => EventModel::Entered,
            CreateEvent::Partitions(n) => EventModel::Partitions(n as int),
        }
    }
}

/// What is being waited for.
#[derive(Clone, Copy, PartialEq, Eq, Structural, Debug)]
pub enum Stage {
    LookingUpSchema,
    FindingHypertable,
    ReadingColumnType,
    CheckingPartitioned,
    CheckingRows,
    Converting,
    Registering,
    CreatingPartitions,
    Finished,
}

/// The progress of turning a table into a managed one.
pub struct CreateTable {
    schema: String,
    table: String,
    time_column: String,
    stage: Stage,
}

/// The progress as a mathematical value.
#[verifier::ext_equal]
pub struct CreateModel {
    pub schema: Seq<char>,
    pub table: Seq<char>,
    pub time_column: Seq<char>,
    pub stage: Stage,
}

impl View for CreateTable {
    type V = CreateModel;

    closed spec fn view(&self) -> CreateModel {
        CreateModel {
            schema: self.schema@,
            table: self.table@,
            time_column: self.time_column@,
            stage: self.stage,
        }
    }
}

/// Whether an answer is the one that is being waited for.
pub open spec fn awaited(stage: Stage, event: EventModel) -> bool {
    match stage {
        Stage::LookingUpSchema => event is Schema,
        Stage::FindingHypertable => event is Registered,
        Stage::ReadingColumnType => event is ColumnType,
        Stage::CheckingPartitioned => event is Partitioned,
        Stage::CheckingRows => event is HasRows,
        Stage::Converting => event is Converted,
        Stage::Registering => event is Entered,
        Stage::CreatingPartitions => event is Partitions,
        Stage::Finished => false,
    }
}

/// The same progress at another stage.
pub open spec fn at(m: CreateModel, stage: Stage) -> CreateModel {
    CreateModel { stage, ..m }
}

/// The report for a table that is managed already.
pub open spec fn already_text(schema: Seq<char>, table: Seq<char>) -> Seq<char> {
    "Table "@ + schema + "."@ + table + " is already a cocoon table"@
}

/// The report for a new managed table.
pub open spec fn created_text(schema: Seq<char>, table: Seq<char>, count: int) -> Seq<char> {
    "Created cocoon table "@ + schema + "."@ + table + " with "@ + crate::decimal::decimal(count)
        + " partitions"@
}

/// What is done upon an answer, and the progress then.
pub open spec fn handled(m: CreateModel, event: EventModel) -> (ActionModel, CreateModel) {
    match event {
        EventModel::Schema(Some(schema)) => (
            ActionModel::FindHypertable,
            CreateModel { schema, stage: Stage::FindingHypertable, ..m },
        ),
        EventModel::Schema(None) => (
            ActionModel::Fail(ErrorModel::TableNotFound { relation: m.table }),
            at(m, Stage::Finished),
        ),
        EventModel::Registered(true) => (
            ActionModel::Reply(already_text(m.schema, m.table)),
            at(m, Stage::Finished),
        ),
        EventModel::Registered(false) => (
            ActionModel::ReadColumnType,
            at(m, Stage::ReadingColumnType),
        ),
        EventModel::ColumnType(Some(data_type)) => if crate::text::contains_text(
            data_type,
            "timestamp"@,
        ) {
            (ActionModel::CheckPartitioned, at(m, Stage::CheckingPartitioned))
        } else {
            (
                ActionModel::Fail(
                    ErrorModel::NotATimestamp { column: m.time_column, data_type },
                ),
                at(m, Stage::Finished),
            )
        },
        EventModel::ColumnType(None) => (
            ActionModel::Fail(
                ErrorModel::ColumnNotFound {
                    column: m.time_column,
                    schema: m.schema,
                    table: m.table,
                },
            ),
            at(m, Stage::Finished),
        ),
        EventModel::Partitioned(known) => if known == Some(true) {
            (ActionModel::Register, at(m, Stage::Registering))
        } else {
            (ActionModel::CheckRows, at(m, Stage::CheckingRows))
        },
        EventModel::HasRows(known) => if known == Some(true) {
            (
                ActionModel::Fail(ErrorModel::NotEmpty { schema: m.schema, table: m.table }),
                at(m, Stage::Finished),
            )
        } else {
            (ActionModel::Convert, at(m, Stage::Converting))
        },
        EventModel::Converted => (ActionModel::Register, at(m, Stage::Registering)),
        EventModel::Entered => (ActionModel::CreatePartitions, at(m, Stage::CreatingPartitions)),
        EventModel::Partitions(count) => (
            ActionModel::Reply(created_text(m.schema, m.table, count)),
            at(m, Stage::Finished),
        ),
    }
}

/// Whether `schema`, `table` and `action` are how work on a relation starts.
pub open spec fn starts_with(
    relation: Seq<char>,
    time_column: Seq<char>,
    m: CreateModel,
    action: ActionModel,
) -> bool {
    &&& m.time_column == time_column
    &&& match action {
        ActionModel::LookUpSchema => {
            &&& !relation.contains('.')
            &&& m.table == relation
            &&& m.stage == Stage::LookingUpSchema
        },
        ActionModel::FindHypertable => {
            &&& relation == m.schema + seq!['.'] + m.table
            &&& !m.schema.contains('.')
            &&& !m.table.contains('.')
            &&& m.stage == Stage::FindingHypertable
        },
        ActionModel::Fail(e) => {
            &&& exists|i: int, j: int|
                0 <= i < j < relation.len() && #[trigger] relation[i] == '.'
                    && #[trigger] relation[j] == '.'
            &&& e == ErrorModel::InvalidRelation { relation }
            &&& m.stage == Stage::Finished
        },
        _ => false,
    }
}

impl CreateTable {
    /// Starts to turn a table into a managed one.
    pub fn start(relation: &str, time_column: &str) -> (r: (CreateTable, CreateAction))
        ensures
            starts_with(relation@, time_column@, r.0@, r.1@),
    {
        match split_relation(relation) {
            Relation::Table(table) => (
                CreateTable {
                    schema: String::new(),
                    table,
                    time_column: time_column.to_string(),
                    stage: Stage::LookingUpSchema,
                },
                CreateAction::LookUpSchema,
            ),
            Relation::Qualified(schema, table) => (
                CreateTable {
                    schema,
                    table,
                    time_column: time_column.to_string(),
                    stage: Stage::FindingHypertable,
                },
                CreateAction::FindHypertable,
            ),
            Relation::Invalid => (
                CreateTable {
                    schema: String::new(),
                    table: String::new(),
                    time_column: time_column.to_string(),
                    stage: Stage::Finished,
                },
                CreateAction::Fail(
                    PartitionError::InvalidRelation { relation: relation.to_string() },
                ),
            ),
        }
    }

    /// The schema of the table.
    pub fn schema(&self) -> (s: &str)
        ensures
            s@ == self@.schema,
    {
        self.schema.as_str()
    }

    /// The table.
    pub fn table(&self) -> (s: &str)
        ensures
            s@ == self@.table,
    {
        self.table.as_str()
    }

    /// The time column.
    pub fn time_column(&self) -> (s: &str)
        ensures
            s@ == self@.time_column,
    {
        self.time_column.as_str()
    }

    /// What is being waited for.
    pub fn stage(&self) -> (s: Stage)
        ensures
            s == self@.stage,
    {
        self.stage
    }

    /// Takes an answer and says what is to be done next.
    pub fn handle(&mut self, event: CreateEvent) -> (action: CreateAction)
        requires
            awaited(old(self)@.stage, event@),
        ensures
            (action@, final(self)@) == handled(old(self)@, event@),
    {
        match event {
            CreateEvent::Schema(Some(schema)) => {
                self.schema = schema;
                self.stage = Stage::FindingHypertable;
                CreateAction::FindHypertable
            },
            CreateEvent::Schema(None) => {
                self.stage = Stage::Finished;
                CreateAction::Fail(
                    PartitionError::TableNotFound { relation: self.table.as_str().to_string() },
                )
            },
            CreateEvent::Registered(registered) => {
                if registered {
                    self.stage = Stage::Finished;
                    let mut s: String = "Table ".to_string();
                    s.append(self.schema.as_str());
                    s.append(".");
                    s.append(self.table.as_str());
                    s.append(" is already a cocoon table");
                    CreateAction::Reply(s)
                } else {
                    self.stage = Stage::ReadingColumnType;
                    CreateAction::ReadColumnType
                }
            },
            CreateEvent::ColumnType(data_type) => {
                let known = match &data_type {
                    Some(dt) => Some(dt.as_str()),
                    None => None,
                };
                match validate_time_column(
                    self.schema.as_str(),
                    self.table.as_str(),
                    self.time_column.as_str(),
                    known,
                ) {
                    Ok(_) => {
                        self.stage = Stage::CheckingPartitioned;
                        CreateAction::CheckPartitioned
                    },
                    Err(e) => {
                        self.stage = Stage::Finished;
                        CreateAction::Fail(e)
                    },
                }
            },
            CreateEvent::Partitioned(known) => {
                if is_true(known) {
                    self.stage = Stage::Registering;
                    CreateAction::Register
                } else {
                    self.stage = Stage::CheckingRows;
                    CreateAction::CheckRows
                }
            },
            CreateEvent::HasRows(known) => {
                if is_true(known) {
                    self.stage = Stage::Finished;
                    CreateAction::Fail(
                        PartitionError::NotEmpty {
                            schema: self.schema.as_str().to_string(),
                            table: self.table.as_str().to_string(),
                        },
                    )
                } else {
                    self.stage = Stage::Converting;
                    CreateAction::Convert
                }
            },
            CreateEvent::Converted => {
                self.stage = Stage::Registering;
                CreateAction::Register
            },
            CreateEvent::Entered => {
                self.stage = Stage::CreatingPartitions;
                CreateAction::CreatePartitions
            },
            CreateEvent::Partitions(count) => {
                self.stage = Stage::Finished;
                let n = to_decimal(count as i128);
                let mut s: String = "Created cocoon table ".to_string();
                s.append(self.schema.as_str());
                s.append(".");
                s.append(self.table.as_str());
                s.append(" with ");
                s.append(n.as_str());
                s.append(" partitions");
                CreateAction::Reply(s)
            },
        }
    }
}

/// Whether an answer is known and true.
fn is_true(known: Option<bool>) -> (r: bool)
    ensures
        r == (known == Some(true)),
{
    match known {
        Some(b) => b,
        None => false,
    }
}

// ---------------------------------------------------------------------------
// Laws
// ---------------------------------------------------------------------------

/// The progress after the first `n` answers.
pub open spec fn after(m: CreateModel, events: Seq<EventModel>, n: nat) -> CreateModel
    decreases n,
{
    if n == 0 {
        m
    } else {
        handled(after(m, events, (n - 1) as nat), events[n - 1]).1
    }
}

/// What is done upon answer `k`.
pub open spec fn action_upon(m: CreateModel, events: Seq<EventModel>, k: int) -> ActionModel {
    handled(after(m, events, k as nat), events[k]).0
}

/// Whether answer `k` is the one that is waited for.
pub open spec fn awaited_at(m: CreateModel, events: Seq<EventModel>, k: int) -> bool {
    awaited(after(m, events, k as nat).stage, events[k])
}

/// Whether all answers are those that are waited for.
pub open spec fn all_awaited(m: CreateModel, events: Seq<EventModel>) -> bool {
    forall|k: int| 0 <= k < events.len() ==> #[trigger] awaited_at(m, events, k)
}

/// Whether an action changes the table or the catalog.
pub open spec fn changes(action: ActionModel) -> bool {
    action is Convert || action is Register || action is CreatePartitions
}

/// Whether work on a table has just started.
pub open spec fn is_start(stage: Stage) -> bool {
    stage == Stage::LookingUpSchema || stage == Stage::FindingHypertable
}

/// Whether an answer names a timestamp type.
pub open spec fn is_timestamp(event: EventModel) -> bool {
    event matches EventModel::ColumnType(Some(data_type)) && crate::text::contains_text(
        data_type,
        "timestamp"@,
    )
}

/// The answer that leads to a stage.
proof fn lemma_stage_origin(m: CreateModel, events: Seq<EventModel>, n: nat)
    requires
        is_start(m.stage),
        all_awaited(m, events),
        0 < n <= events.len(),
    ensures
        ({
            let stage = after(m, events, n).stage;
            let last = events[n - 1];
            &&& stage == Stage::FindingHypertable ==> last is Schema
            &&& stage == Stage::ReadingColumnType ==> last == EventModel::Registered(false)
            &&& stage == Stage::CheckingPartitioned ==> is_timestamp(last)
            &&& stage == Stage::CheckingRows ==> last is Partitioned && last
                != EventModel::Partitioned(Some(true))
            &&& stage == Stage::Converting ==> last is HasRows && last != EventModel::HasRows(
                Some(true),
            )
            &&& stage != Stage::LookingUpSchema
        }),
{
    assert(awaited_at(m, events, n - 1));
}

/// Nothing is changed before the table is found not to be managed.
proof fn lemma_no_change_before(m: CreateModel, events: Seq<EventModel>, k: int)
    requires
        is_start(m.stage),
        all_awaited(m, events),
        0 <= k < events.len(),
        changes(action_upon(m, events, k)),
    ensures
        exists|i: int| 0 <= i < k && #[trigger] events[i] == EventModel::Registered(false),
    decreases k,
{
    lemma_registered_behind(m, events, k as nat);
    assert(awaited_at(m, events, k));
}

/// Whether a stage lies behind the question whether the table is managed.
pub open spec fn behind_registered(stage: Stage) -> bool {
    stage == Stage::ReadingColumnType || stage == Stage::CheckingPartitioned || stage
        == Stage::CheckingRows || stage == Stage::Converting || stage == Stage::Registering
        || stage == Stage::CreatingPartitions
}

/// The later stages are reached only by a table that is not managed.
proof fn lemma_registered_behind(m: CreateModel, events: Seq<EventModel>, n: nat)
    requires
        is_start(m.stage),
        all_awaited(m, events),
        n <= events.len(),
    ensures
        behind_registered(after(m, events, n).stage) ==> exists|i: int|
            0 <= i < n && #[trigger] events[i] == EventModel::Registered(false),
    decreases n,
{
    if n > 0 {
        lemma_registered_behind(m, events, (n - 1) as nat);
        assert(awaited_at(m, events, n - 1));
        if behind_registered(after(m, events, n).stage) && !behind_registered(
            after(m, events, (n - 1) as nat).stage,
        ) {
            assert(events[n - 1] == EventModel::Registered(false));
        }
    }
}

/// A table is converted only after the database said that it is not managed and has a time column,
/// did not say that it is partitioned, and did not say that it holds rows.
pub proof fn law_only_empty_tables_are_converted(
    m: CreateModel,
    events: Seq<EventModel>,
    k: int,
)
    requires
        is_start(m.stage),
        all_awaited(m, events),
        0 <= k < events.len(),
        action_upon(m, events, k) is Convert,
    ensures
        k >= 3,
        events[k] is HasRows && events[k] != EventModel::HasRows(Some(true)),
        events[k - 1] is Partitioned && events[k - 1] != EventModel::Partitioned(Some(true)),
        is_timestamp(events[k - 2]),
        events[k - 3] == EventModel::Registered(false),
{
    assert(awaited_at(m, events, k));
    if k >= 1 {
        lemma_stage_origin(m, events, k as nat);
        assert(awaited_at(m, events, k - 1));
    }
    if k >= 2 {
        lemma_stage_origin(m, events, (k - 1) as nat);
        assert(awaited_at(m, events, k - 2));
    }
    if k >= 3 {
        lemma_stage_origin(m, events, (k - 2) as nat);
        assert(awaited_at(m, events, k - 3));
    }
}

/// A table that is managed already is reported as such, and nothing is changed.
pub proof fn law_managed_tables_stay(m: CreateModel, events: Seq<EventModel>, k: int)
    requires
        is_start(m.stage),
        all_awaited(m, events),
        0 <= k < events.len(),
        events[k] == EventModel::Registered(true),
    ensures
        action_upon(m, events, k) is Reply,
        k == events.len() - 1,
        forall|i: int| 0 <= i < events.len() ==> !changes(#[trigger] action_upon(m, events, i)),
{
    assert(awaited_at(m, events, k));
    if k + 1 < events.len() {
        assert(awaited_at(m, events, k + 1));
    }
    assert forall|i: int| 0 <= i < events.len() implies !changes(
        #[trigger] action_upon(m, events, i),
    ) by {
        if changes(action_upon(m, events, i)) {
            lemma_no_change_before(m, events, i);
            let j = choose|j: int|
                0 <= j < i && #[trigger] events[j] == EventModel::Registered(false);
            lemma_single_question(m, events, j, k);
        }
    }
}

/// The question whether the table is managed is answered once.
proof fn lemma_single_question(m: CreateModel, events: Seq<EventModel>, j: int, k: int)
    requires
        is_start(m.stage),
        all_awaited(m, events),
        0 <= j < k < events.len(),
        events[j] == EventModel::Registered(false),
    ensures
        !(events[k] is Registered),
{
    lemma_stays_behind(m, events, j, k as nat);
    assert(awaited_at(m, events, k));
}

/// Once that question is answered, it lies behind.
proof fn lemma_stays_behind(m: CreateModel, events: Seq<EventModel>, j: int, n: nat)
    requires
        is_start(m.stage),
        all_awaited(m, events),
        0 <= j < n <= events.len(),
        events[j] == EventModel::Registered(false),
    ensures
        behind_registered(after(m, events, n).stage) || after(m, events, n).stage
            == Stage::Finished,
    decreases n,
{
    assert(awaited_at(m, events, n - 1));
    if n - 1 > j {
        lemma_stays_behind(m, events, j, (n - 1) as nat);
    }
}

/// A table is reported as created only after its partitions were created, and with their number;
/// it was entered among the managed ones just before.
pub proof fn law_created_report(
    m: CreateModel,
    events: Seq<EventModel>,
    k: int,
    count: int,
)
    requires
        is_start(m.stage),
        all_awaited(m, events),
        0 <= k < events.len(),
        events[k] == EventModel::Partitions(count),
    ensures
        k >= 1,
        events[k - 1] is Entered,
        action_upon(m, events, k - 1) is CreatePartitions,
        ({
            let then_at = after(m, events, k as nat);
            action_upon(m, events, k) == ActionModel::Reply(
                created_text(then_at.schema, then_at.table, count),
            )
        }),
{
    assert(awaited_at(m, events, k));
    if k >= 1 {
        assert(awaited_at(m, events, k - 1));
    }
}

/// The work on an empty table that is not managed yet and has a timestamp column, if every answer
/// comes as it is waited for: it is converted unless it is partitioned already, entered, given its
/// partitions, and reported.
pub proof fn law_tables_are_created(
    m: CreateModel,
    data_type: Seq<char>,
    partitioned: Option<bool>,
    rows: Option<bool>,
    count: int,
)
    requires
        m.stage == Stage::FindingHypertable,
        crate::text::contains_text(data_type, "timestamp"@),
        rows != Some(true),
    ensures
        ({
            let (a1, m1) = handled(m, EventModel::Registered(false));
            let (a2, m2) = handled(m1, EventModel::ColumnType(Some(data_type)));
            let (a3, m3) = handled(m2, EventModel::Partitioned(partitioned));
            let (a4, m4) = handled(m3, EventModel::HasRows(rows));
            let (a5, m5) = handled(m4, EventModel::Converted);
            let entered = if partitioned == Some(true) {
                m3
            } else {
                m5
            };
            let (a6, m6) = handled(entered, EventModel::Entered);
            let (a7, m7) = handled(m6, EventModel::Partitions(count));
            &&& a1 is ReadColumnType && awaited(m1.stage, EventModel::ColumnType(Some(data_type)))
            &&& a2 is CheckPartitioned && awaited(m2.stage, EventModel::Partitioned(partitioned))
            &&& partitioned == Some(true) ==> a3 is Register
            &&& partitioned != Some(true) ==> {
                &&& a3 is CheckRows && awaited(m3.stage, EventModel::HasRows(rows))
                &&& a4 is Convert && awaited(m4.stage, EventModel::Converted)
                &&& a5 is Register
            }
            &&& awaited(entered.stage, EventModel::Entered)
            &&& a6 is CreatePartitions && awaited(m6.stage, EventModel::Partitions(count))
            &&& a7 is Reply && m7.stage is Finished
            &&& m7.schema == m.schema && m7.table == m.table && m7.time_column == m.time_column
        }),
{
}

/// The errors, each with the answer upon which it is reported, and upon no other: there is no such
/// table or column, the column is no timestamp, or the table holds rows. Work ends with the error,
/// and the table keeps its name.
pub proof fn law_errors_reported(m: CreateModel, event: EventModel)
    ensures
        ({
            let (action, next) = handled(m, event);
            match action {
                ActionModel::Fail(e) => {
                    &&& next.stage is Finished
                    &&& match event {
                        EventModel::Schema(None) => e == (ErrorModel::TableNotFound {
                            relation: m.table,
                        }),
                        EventModel::ColumnType(None) => e == (ErrorModel::ColumnNotFound {
                            column: m.time_column,
                            schema: m.schema,
                            table: m.table,
                        }),
                        EventModel::ColumnType(Some(data_type)) => !crate::text::contains_text(
                            data_type,
                            "timestamp"@,
                        ) && e == (ErrorModel::NotATimestamp { column: m.time_column, data_type }),
                        EventModel::HasRows(Some(true)) => e == (ErrorModel::NotEmpty {
                            schema: m.schema,
                            table: m.table,
                        }),
                        _ => false,
                    }
                },
                _ => {
                    &&& event != EventModel::Schema(None)
                    &&& event != EventModel::ColumnType(None)
                    &&& event != EventModel::HasRows(Some(true))
                    &&& event matches EventModel::ColumnType(Some(data_type))
                        ==> crate::text::contains_text(data_type, "timestamp"@)
                },
            }
        }),
        handled(m, event).1.table == m.table,
        handled(m, event).1.time_column == m.time_column,
        event matches EventModel::Schema(Some(schema)) ==> handled(m, event).1.schema == schema
            && handled(m, event).0 is FindHypertable,
        !(event is Schema) ==> handled(m, event).1.schema == m.schema,
{
}

/// The reports of success name the table, and that of a new table the number of its partitions.
pub proof fn law_reports_name_the_table(schema: Seq<char>, table: Seq<char>, count: int)
    ensures
        crate::text::contains_text(already_text(schema, table), schema + "."@ + table),
        crate::text::contains_text(created_text(schema, table, count), schema + "."@ + table),
        crate::text::contains_text(
            created_text(schema, table, count),
            crate::decimal::decimal(count) + " partitions"@,
        ),
{
    let full = schema + "."@ + table;
    let already = already_text(schema, table);
    assert(already =~= "Table "@ + full + " is already a cocoon table"@);
    crate::text::law_substrings(already, full);
    let created = created_text(schema, table, count);
    let number = crate::decimal::decimal(count);
    assert(created =~= "Created cocoon table "@ + full + (" with "@ + number + " partitions"@));
    crate::text::law_substrings(created, full);
    let tail = number + " partitions"@;
    let none = Seq::<char>::empty();
    assert(created =~= ("Created cocoon table "@ + full + " with "@) + tail + none);
    crate::text::law_substrings(created, tail);
}

/// Work on a relation starts by the number of dots in its name: without one the schema is looked up;
/// with one, the parts before and behind it are the schema and the table; with more, the name is
/// reported as invalid.
pub proof fn law_start(
    relation: Seq<char>,
    time_column: Seq<char>,
    m: CreateModel,
    action: ActionModel,
)
    requires
        starts_with(relation, time_column, m, action),
    ensures
        ({
            let several = exists|i: int, j: int|
                0 <= i < j < relation.len() && #[trigger] relation[i] == '.'
                    && #[trigger] relation[j] == '.';
            &&& m.time_column == time_column
            &&& action is LookUpSchema <==> !relation.contains('.')
            &&& action is Fail <==> several
            &&& action is FindHypertable <==> relation.contains('.') && !several
            &&& action is LookUpSchema ==> m.table == relation && m.stage is LookingUpSchema
            &&& action is Fail ==> action == ActionModel::Fail(
                ErrorModel::InvalidRelation { relation },
            ) && m.stage is Finished
            &&& action is FindHypertable ==> {
                &&& relation.len() == m.schema.len() + 1 + m.table.len()
                &&& relation.take(m.schema.len() as int) == m.schema
                &&& relation[m.schema.len() as int] == '.'
                &&& relation.skip(m.schema.len() as int + 1) == m.table
                &&& m.stage is FindingHypertable
            }
        }),
{
    if action is FindHypertable {
        let k = m.schema.len() as int;
        assert(relation[k] == '.');
        assert(relation.take(k) =~= m.schema);
        assert(relation.skip(k + 1) =~= m.table);
        assert forall|i: int, j: int|
            0 <= i < j < relation.len() && #[trigger] relation[i] == '.'
                && #[trigger] relation[j] == '.' implies false by {
            if i < k {
                assert(m.schema[i] == '.');
            } else {
                assert(m.table[j - k - 1] == '.');
            }
        }
    }
    if action is Fail {
        let (i, j) = choose|i: int, j: int|
            0 <= i < j < relation.len() && #[trigger] relation[i] == '.'
                && #[trigger] relation[j] == '.';
        assert(relation.contains(relation[i]));
    }
}

} // verus!
