//! The plan of a database: the statements to execute and the rows to insert,
//! in order. The library computes the plan; the program around it executes
//! it against SQLite.

use vstd::prelude::*;
use crate::text::{string_of, texts_view};

verus! {

/// A value bound to a parameter of an insertion.
#[derive(Clone, Debug, PartialEq, Eq)]
pub enum SqlValue {
    Integer(i64),
    Text(String),
}

/// The model of a [`SqlValue`].
pub enum SqlValueView {
    Integer(i64),
    Text(Seq<char>),
}

impl View for SqlValue {
    type V = SqlValueView;

    open spec fn view(&self) -> SqlValueView {
        match self {
            SqlValue::Integer(value) => SqlValueView::Integer(*value),
            SqlValue::Text(text) => SqlValueView::Text(text@),
        }
    }
}

/// The model of a row of values.
pub open spec fn row_view(row: Seq<SqlValue>) -> Seq<SqlValueView> {
    row.map_values(|value: SqlValue| value@)
}

/// The model of a sequence of rows.
pub open spec fn rows_view(rows: Seq<Vec<SqlValue>>) -> Seq<Seq<SqlValueView>> {
    rows.map_values(|row: Vec<SqlValue>| row_view(row@))
}

/// One step of a database plan.
#[derive(Clone, Debug, PartialEq, Eq)]
pub enum Step {
    /// A statement executed once.
    Execute(String),
    /// A statement with parameters, executed once for each row.
    Insert { statement: String, rows: Vec<Vec<SqlValue>> },
}

/// The model of a [`Step`].
pub enum StepView {
    Execute(Seq<char>),
    Insert { statement: Seq<char>, rows: Seq<Seq<SqlValueView>> },
}

impl View for Step {
    type V = StepView;

    open spec fn view(&self) -> StepView {
        match self {
            Step::Execute(statement) => StepView::Execute(statement@),
            Step::Insert { statement, rows } => StepView::Insert {
                statement: statement@,
                rows: rows_view(rows@),
            },
        }
    }
}

/// The steps that fill a database, in order.
#[derive(Clone, Debug, PartialEq, Eq)]
pub struct DatabasePlan {
    pub steps: Vec<Step>,
}

impl View for DatabasePlan {
    type V = Seq<StepView>;

    open spec fn view(&self) -> Seq<StepView> {
        self.steps@.map_values(|step: Step| step@)
    }
}

/// The steps that execute each of the statements, in order.
pub open spec fn executions(statements: Seq<&str>) -> Seq<StepView> {
    statements.map_values(|statement: &str| StepView::Execute(statement@))
}

impl DatabasePlan {
    /// A plan with no steps.
    pub fn new() -> (result: DatabasePlan)
        ensures
            result@ == Seq::<StepView>::empty(),
    {
        let result = DatabasePlan { steps: Vec::new() };
        assert(result@ =~= Seq::<StepView>::empty());
        result
    }

    /// Adds the execution of a statement.
    pub fn execute(&mut self, statement: &str)
        ensures
            final(self)@ == old(self)@.push(StepView::Execute(statement@)),
    {
        let ghost previous = self.steps@;
        self.steps.push(Step::Execute(statement.to_owned()));
        assert(self@ =~= previous.map_values(|step: Step| step@).push(
            StepView::Execute(statement@),
        ));
    }

    /// Adds the steps, in order.
    pub fn append_steps(&mut self, steps: Vec<Step>)
        ensures
            final(self)@ == old(self)@ + steps@.map_values(|step: Step| step@),
    {
        let ghost previous = self.steps@;
        let mut steps = steps;
        let ghost added = steps@;
        self.steps.append(&mut steps);
        assert(self@ =~= previous.map_values(|step: Step| step@) + added.map_values(
            |step: Step| step@,
        ));
    }

    /// Adds a step.
    pub fn push_step(&mut self, step: Step)
        ensures
            final(self)@ == old(self)@.push(step@),
    {
        let ghost previous = self.steps@;
        let ghost expected = step@;
        self.steps.push(step);
        assert(self@ =~= previous.map_values(|step: Step| step@).push(expected));
    }

    /// Adds a statement with parameters, to be executed once for each row.
    pub fn insert(&mut self, statement: &str, rows: Vec<Vec<SqlValue>>)
        ensures
            final(self)@ == old(self)@.push(
                StepView::Insert { statement: statement@, rows: rows_view(rows@) },
            ),
    {
        let ghost previous = self.steps@;
        let ghost expected = StepView::Insert { statement: statement@, rows: rows_view(rows@) };
        self.steps.push(Step::Insert { statement: statement.to_owned(), rows });
        assert(self@ =~= previous.map_values(|step: Step| step@).push(expected));
    }
}

/// Whether a step that adds to a plan did what `outcome` says: on success
/// the plan gained the outcome's steps, on failure it is unchanged and the
/// error is the outcome's.
pub open spec fn plan_extended(
    before: Seq<StepView>,
    after: Seq<StepView>,
    result: Result<(), crate::error::DataError>,
    outcome: Result<Seq<StepView>, crate::error::DataErrorView>,
) -> bool {
    match outcome {
        Ok(steps) => result is Ok && after == before + steps,
        Err(error) => after == before && (result matches Err(e) && e@ == error),
    }
}

/// The steps that create a table and fill it with rows, or the error that
/// stops them.
pub open spec fn table_outcome(
    create: Seq<char>,
    insert: Seq<char>,
    rows: Result<Seq<Seq<SqlValueView>>, crate::error::DataErrorView>,
) -> Result<Seq<StepView>, crate::error::DataErrorView> {
    match rows {
        Ok(rows) => Ok(seq![StepView::Execute(create), StepView::Insert { statement: insert, rows }]),
        Err(error) => Err(error),
    }
}

/// The outcome of groups of steps in turn: the error of the first group
/// that fails, or all the steps in order.
pub open spec fn in_turn(groups: Seq<Result<Seq<StepView>, crate::error::DataErrorView>>) -> Result<
    Seq<StepView>,
    crate::error::DataErrorView,
>
    decreases groups.len(),
{
    if groups.len() == 0 {
        Ok(Seq::empty())
    } else {
        match in_turn(groups.drop_last()) {
            Err(error) => Err(error),
            Ok(steps) => match groups.last() {
                Err(error) => Err(error),
                Ok(more) => Ok(steps + more),
            },
        }
    }
}

/// After the groups before `k` succeeded with the steps `before`, a step
/// that does what group `k` says either extends them to the groups up to
/// `k`, or fails with the error of all the groups.
pub proof fn lemma_in_turn_step(
    groups: Seq<Result<Seq<StepView>, crate::error::DataErrorView>>,
    k: int,
    before: Seq<StepView>,
    after: Seq<StepView>,
    result: Result<(), crate::error::DataError>,
)
    requires
        0 <= k < groups.len(),
        in_turn(groups.take(k)) == Ok::<Seq<StepView>, crate::error::DataErrorView>(before),
        plan_extended(before, after, result, groups[k]),
    ensures
        match result {
            Ok(_) => in_turn(groups.take(k + 1)) == Ok::<Seq<StepView>, crate::error::DataErrorView>(after),
            Err(error) => in_turn(groups) == Err::<Seq<StepView>, crate::error::DataErrorView>(error@),
        },
{
    assert(groups.take(k + 1).drop_last() =~= groups.take(k));
    if result is Err {
        lemma_in_turn_error_stays(groups, k + 1);
    }
}

/// Once the groups up to `k` fail, all the groups fail with the same error.
pub proof fn lemma_in_turn_error_stays(groups: Seq<Result<Seq<StepView>, crate::error::DataErrorView>>, k: int)
    requires
        0 <= k <= groups.len(),
        in_turn(groups.take(k)) is Err,
    ensures
        in_turn(groups) == in_turn(groups.take(k)),
    decreases groups.len() - k,
{
    if k < groups.len() {
        assert(groups.take(k + 1).drop_last() =~= groups.take(k));
        lemma_in_turn_error_stays(groups, k + 1);
    } else {
        assert(groups.take(k) =~= groups);
    }
}

/// Adds the execution of each statement, in order.
pub fn execute_all(plan: &mut DatabasePlan, statements: &[&str])
    ensures
        final(plan)@ == old(plan)@ + executions(statements@),
{
    let mut i: usize = 0;
    while i < statements.len()
        invariant
            i <= statements.len(),
            plan@ == old(plan)@ + executions(statements@.take(i as int)),
        decreases statements.len() - i,
    {
        plan.execute(statements[i]);
        i = i + 1;
        assert(executions(statements@.take(i as int)) =~= executions(
            statements@.take(i - 1),
        ).push(StepView::Execute(statements@[i - 1]@)));
        assert(plan@ =~= old(plan)@ + executions(statements@.take(i as int)));
    }
    assert(statements@.take(statements.len() as int) =~= statements@);
}

/// The text values of the given texts, in order.
pub open spec fn text_values(texts: Seq<Seq<char>>) -> Seq<SqlValueView> {
    texts.map_values(|text: Seq<char>| SqlValueView::Text(text))
}

/// Appends the given texts to a row, in order.
pub fn bind_texts(row: &mut Vec<SqlValue>, values: &[Vec<char>])
    ensures
        row_view(final(row)@) == row_view(old(row)@) + text_values(texts_view(values@)),
{
    let ghost texts = texts_view(values@);
    let mut i: usize = 0;
    while i < values.len()
        invariant
            i <= values.len(),
            texts == texts_view(values@),
            row_view(row@) == row_view(old(row)@) + text_values(texts.take(i as int)),
        decreases values.len() - i,
    {
        let ghost previous = row@;
        row.push(SqlValue::Text(string_of(&values[i])));
        i = i + 1;
        assert(row_view(row@) =~= row_view(previous).push(SqlValueView::Text(texts[i - 1])));
        assert(text_values(texts.take(i as int)) =~= text_values(texts.take(i - 1)).push(
            SqlValueView::Text(texts[i - 1]),
        ));
        assert(row_view(row@) =~= row_view(old(row)@) + text_values(texts.take(i as int)));
    }
    assert(texts.take(values.len() as int) =~= texts);
}

} // verus!
