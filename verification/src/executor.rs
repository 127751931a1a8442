use vstd::prelude::*;

verus! {

/// The per-path result of one delete attempt. Used for reporting only;
/// no state is kept across paths.
#[derive(Debug, PartialEq, Eq, Structural, Clone, Copy)]
pub enum DeletionOutcome {
    /// The file was moved to the trash.
    Deleted,
    /// Dry run: the file would have been deleted.
    WouldDelete,
    /// The trash primitive failed; the batch went on regardless.
    Failed,
}

/// The outcome a single attempt is recorded as: in a dry run nothing is
/// attempted; otherwise the attempt either succeeded or failed.
pub open spec fn spec_outcome(dry_run: bool, succeeded: bool) -> DeletionOutcome {
    if dry_run {
        DeletionOutcome::WouldDelete
    } else if succeeded {
        DeletionOutcome::Deleted
    } else {
        DeletionOutcome::Failed
    }
}

/// Records one attempt.
pub fn outcome_of(dry_run: bool, succeeded: bool) -> (r: DeletionOutcome)
    ensures
        r == spec_outcome(dry_run, succeeded),
{
    if dry_run {
        DeletionOutcome::WouldDelete
    } else if succeeded {
        DeletionOutcome::Deleted
    } else {
        DeletionOutcome::Failed
    }
}

/// Folds a whole batch of attempts into outcomes, one per candidate and
/// in the order the candidates were received. `attempts[i]` says whether
/// the attempt on candidate `i` succeeded; in a dry run it is not
/// consulted. Every candidate gets an outcome: a failure on one never
/// keeps a later one from being recorded.
pub fn deletion_outcomes(dry_run: bool, attempts: &Vec<bool>) -> (r: Vec<DeletionOutcome>)
    ensures
        r@.len() == attempts@.len(),
        forall|i: int| 0 <= i < attempts@.len() ==> r@[i] == spec_outcome(
            dry_run,
            #[trigger] attempts@[i],
        ),
{
    let mut r: Vec<DeletionOutcome> = Vec::new();
    let n = attempts.len();
    for i in 0..n
        invariant
            n == attempts@.len(),
            r@.len() == i,
            forall|j: int| 0 <= j < i ==> r@[j] == spec_outcome(dry_run, #[trigger] attempts@[j]),
    {
        let out = outcome_of(dry_run, attempts[i]);
        r.push(out);
    }
    r
}

/// Partial-failure tolerance: each outcome depends only on that
/// candidate's own attempt. Two batches that differ only in the attempt
/// at one position are recorded identically everywhere else; in
/// particular a failure in the middle of a batch leaves every later
/// outcome exactly what it would otherwise have been.
pub proof fn lemma_partial_failure_isolated(
    dry_run: bool,
    attempts1: Seq<bool>,
    attempts2: Seq<bool>,
    k: int,
)
    requires
        attempts1.len() == attempts2.len(),
        forall|i: int| 0 <= i < attempts1.len() && i != k ==> attempts1[i] == attempts2[i],
    ensures
        forall|i: int| 0 <= i < attempts1.len() && i != k ==> spec_outcome(dry_run, attempts1[i])
            == spec_outcome(dry_run, attempts2[i]),
{
}

/// The dry-run guarantee, on the reporting side: a dry run records
/// `WouldDelete` for exactly the candidates a real run with all attempts
/// succeeding records as `Deleted`, position for position.
pub proof fn lemma_dry_run_mirrors_real_run(attempts: Seq<bool>)
    requires
        forall|i: int| 0 <= i < attempts.len() ==> attempts[i],
    ensures
        forall|i: int| 0 <= i < attempts.len() ==> spec_outcome(true, #[trigger] attempts[i])
            == DeletionOutcome::WouldDelete && spec_outcome(false, attempts[i])
            == DeletionOutcome::Deleted,
{
}

} // verus!
