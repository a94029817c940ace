//! What bootstrap does with the `items` table, decided from its row count.

use vstd::prelude::*;
use vstd::string::StringExecFns;
use crate::seed::SEED_ROW_COUNT;

verus! {

/// The step that bootstrap takes on a table it found in a usable state.
#[derive(Debug, Clone, Copy, PartialEq, Eq, Structural)]
pub enum BootstrapAction {
    /// The table is empty: insert the seed rows in one batch.
    Seed,
    /// The table already holds the seed rows: do nothing.
    AlreadySeeded,
}

/// A table whose row count is neither zero nor the seed count.
#[derive(Debug, Clone, Copy, PartialEq, Eq, Structural)]
pub enum BootstrapError {
    Corrupt { count: i64 },
}

impl BootstrapError {
    /// The operator-facing message for this error.
    pub fn message(&self) -> (r: String)
        ensures
            r@ == "`items` table is corrupt. please drop it manually."@,
    {
        String::from_str("`items` table is corrupt. please drop it manually.")
    }
}

/// What bootstrap does on a table of `count` rows.
pub open spec fn bootstrap_outcome(count: i64) -> Result<BootstrapAction, BootstrapError> {
    if count == 0 {
        Ok(BootstrapAction::Seed)
    } else if count == SEED_ROW_COUNT {
        Ok(BootstrapAction::AlreadySeeded)
    } else {
        Err(BootstrapError::Corrupt { count })
    }
}

/// How many rows an action inserts.
pub open spec fn rows_inserted(a: BootstrapAction) -> int {
    match a {
        BootstrapAction::Seed => SEED_ROW_COUNT as int,
        BootstrapAction::AlreadySeeded => 0,
    }
}

/// Decides the bootstrap step from the table's row count: seed an empty table,
/// leave a seeded one alone, and refuse any other count.
pub fn plan_bootstrap(count: i64) -> (r: Result<BootstrapAction, BootstrapError>)
    ensures
        r == bootstrap_outcome(count),
        (r == Ok::<BootstrapAction, BootstrapError>(BootstrapAction::Seed)) <==> count == 0,
        (r == Ok::<BootstrapAction, BootstrapError>(BootstrapAction::AlreadySeeded)) <==> count
            == 100,
        r is Err <==> (count != 0 && count != 100),
{
    if count == 0 {
        Ok(BootstrapAction::Seed)
    } else if count == SEED_ROW_COUNT as i64 {
        Ok(BootstrapAction::AlreadySeeded)
    } else {
        Err(BootstrapError::Corrupt { count })
    }
}

/// Bootstrap on an empty table seeds it, and the rows it inserts are exactly
/// the seed rows, one batch of the seed count.
pub proof fn lemma_fresh_table_is_seeded()
    ensures
        bootstrap_outcome(0) == Ok::<BootstrapAction, BootstrapError>(BootstrapAction::Seed),
        rows_inserted(BootstrapAction::Seed) == SEED_ROW_COUNT,
{
}

/// Bootstrap is idempotent: whatever count it accepts, the count after one run
/// is the seed count, and a second run inserts nothing and leaves it there.
pub proof fn lemma_bootstrap_idempotent(count: i64)
    requires
        bootstrap_outcome(count) is Ok,
    ensures
        ({
            let first = bootstrap_outcome(count)->Ok_0;
            let after = count + rows_inserted(first);
            &&& after == SEED_ROW_COUNT
            &&& bootstrap_outcome(after as i64) == Ok::<BootstrapAction, BootstrapError>(
                BootstrapAction::AlreadySeeded,
            )
            &&& rows_inserted(BootstrapAction::AlreadySeeded) == 0
        }),
{
}

/// Bootstrap refuses every row count other than zero and the seed count.
pub proof fn lemma_partial_table_is_refused(count: i64)
    requires
        count != 0,
        count != SEED_ROW_COUNT,
    ensures
        bootstrap_outcome(count) == Err::<BootstrapAction, BootstrapError>(
            BootstrapError::Corrupt { count },
        ),
{
}

} // verus!
