//! Bringing the layout of a stored database up to date.
//!
//! What a database already has is looked up by the caller; this module
//! decides which steps are still to be taken. Every step only adds, and
//! taking the steps again changes nothing.

use vstd::prelude::*;

verus! {

/// What a database has of the parts that were added to the layout over time.
#[derive(Clone, Copy, Debug, PartialEq, Eq, Structural)]
pub struct SchemaState {
    /// The table of marks of changed issues is there.
    pub has_dirty_table: bool,
    /// The table of identifier counters is there.
    pub has_counters_table: bool,
    /// The table of identifier counters holds at least one row.
    pub has_counter_rows: bool,
    /// The issues have a column for the outside reference.
    pub has_external_ref: bool,
    /// The table of bookkeeping entries is there.
    pub has_metadata_table: bool,
}

/// One step that adds to the layout.
#[derive(Clone, Copy, Debug, PartialEq, Eq, Structural)]
pub enum Migration {
    CreateDirtyTable,
    CreateCountersTable,
    /// Fill the counters from the identifiers of the stored issues.
    SyncCounters,
    AddExternalRefColumn,
    CreateMetadataTable,
}

impl SchemaState {
    /// Every part is there.
    pub open spec fn is_current(self) -> bool {
        self.has_dirty_table && self.has_counters_table && self.has_external_ref
            && self.has_metadata_table
    }

    /// The database after one step. `filled` says whether filling the
    /// counters left at least one row, which depends on the stored issues.
    pub open spec fn after(self, step: Migration, filled: bool) -> SchemaState {
        match step {
            Migration::CreateDirtyTable => SchemaState { has_dirty_table: true, ..self },
            Migration::CreateCountersTable => SchemaState {
                has_counters_table: true,
                has_counter_rows: self.has_counters_table && self.has_counter_rows,
                ..self
            },
            Migration::SyncCounters => SchemaState {
                has_counter_rows: self.has_counter_rows || (self.has_counters_table && filled),
                ..self
            },
            Migration::AddExternalRefColumn => SchemaState { has_external_ref: true, ..self },
            Migration::CreateMetadataTable => SchemaState { has_metadata_table: true, ..self },
        }
    }

    /// The database after the steps `steps[k..]`.
    pub open spec fn after_all(self, steps: Seq<Migration>, k: int, filled: bool) -> SchemaState
        decreases steps.len() - k,
    {
        if k < 0 || k >= steps.len() {
            self
        } else {
            self.after(steps[k], filled).after_all(steps, k + 1, filled)
        }
    }

    /// The counters have to be filled: their table is missing or holds no
    /// row.
    pub open spec fn counters_need_filling(self) -> bool {
        !(self.has_counters_table && self.has_counter_rows)
    }
}

/// `step` if `wanted`, else nothing.
pub open spec fn step_if(wanted: bool, step: Migration) -> Seq<Migration> {
    if wanted {
        seq![step]
    } else {
        Seq::empty()
    }
}

/// The steps still to be taken, in their order: each missing part is added,
/// and the counters are filled if their table is new or empty.
pub open spec fn migration_plan(state: SchemaState) -> Seq<Migration> {
    step_if(!state.has_dirty_table, Migration::CreateDirtyTable) + step_if(
        !state.has_counters_table,
        Migration::CreateCountersTable,
    ) + step_if(state.counters_need_filling(), Migration::SyncCounters) + step_if(
        !state.has_external_ref,
        Migration::AddExternalRefColumn,
    ) + step_if(!state.has_metadata_table, Migration::CreateMetadataTable)
}

/// The steps still to be taken for a database in the state `state`.
pub fn migrate_tables(state: SchemaState) -> (r: Vec<Migration>)
    ensures
        r@ == migration_plan(state),
{
    let mut plan: Vec<Migration> = Vec::new();
    if !state.has_dirty_table {
        plan.push(Migration::CreateDirtyTable);
    }
    if !state.has_counters_table {
        plan.push(Migration::CreateCountersTable);
    }
    if !(state.has_counters_table && state.has_counter_rows) {
        plan.push(Migration::SyncCounters);
    }
    if !state.has_external_ref {
        plan.push(Migration::AddExternalRefColumn);
    }
    if !state.has_metadata_table {
        plan.push(Migration::CreateMetadataTable);
    }
    assert(plan@ =~= migration_plan(state));
    plan
}

/// After the steps of its plan a database has every part.
pub proof fn lemma_plan_brings_up_to_date(state: SchemaState, filled: bool)
    ensures
        state.after_all(migration_plan(state), 0, filled).is_current(),
{
    let plan = migration_plan(state);
    let done = state.after_all(plan, 0, filled);
    reveal_with_fuel(SchemaState::after_all, 6);
    assert(plan.len() <= 5);
}

/// Steps never take a part away.
pub proof fn lemma_steps_only_add(state: SchemaState, step: Migration, filled: bool)
    ensures
        state.has_dirty_table ==> state.after(step, filled).has_dirty_table,
        state.has_counters_table ==> state.after(step, filled).has_counters_table,
        state.has_counters_table && state.has_counter_rows ==> state.after(step, filled).has_counter_rows,
        state.has_external_ref ==> state.after(step, filled).has_external_ref,
        state.has_metadata_table ==> state.after(step, filled).has_metadata_table,
{
}

/// Bringing a database up to date a second time adds no part: the plan of
/// a database that has every part holds at most the filling of empty
/// counters, and its steps leave every part as it is.
pub proof fn lemma_migration_is_idempotent(state: SchemaState, filled: bool, again: bool)
    ensures
        ({
            let once = state.after_all(migration_plan(state), 0, filled);
            let twice = once.after_all(migration_plan(once), 0, again);
            &&& migration_plan(once) == step_if(!once.has_counter_rows, Migration::SyncCounters)
            &&& twice.is_current()
            &&& twice.has_dirty_table == once.has_dirty_table
            &&& twice.has_counters_table == once.has_counters_table
            &&& twice.has_external_ref == once.has_external_ref
            &&& twice.has_metadata_table == once.has_metadata_table
            &&& once.has_counter_rows ==> twice == once
        }),
{
    let once = state.after_all(migration_plan(state), 0, filled);
    lemma_plan_brings_up_to_date(state, filled);
    assert(migration_plan(once) =~= step_if(!once.has_counter_rows, Migration::SyncCounters));
    reveal_with_fuel(SchemaState::after_all, 3);
}

} // verus!
