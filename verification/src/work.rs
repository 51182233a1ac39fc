//! Work items and the order in which the producer hands them to the queue.

use vstd::prelude::*;

verus! {

/// Word length used when none is given or the given one is not a number.
pub const DEFAULT_WORD_LENGTH: usize = 2;

/// Number of workers in the pool, unless the caller chooses another.
pub const NUM_WORKERS: usize = 1600;

/// Number of work items the queue holds before the producer has to wait.
pub const QUEUE_CAPACITY: usize = 100;

/// What travels on the work queue.
#[derive(Debug, PartialEq, Eq)]
pub enum WorkItem {
    /// A word to check.
    Candidate(String),
    /// Tells the worker that receives it to stop.
    EndOfWork,
}

/// The items the producer enqueues for `candidates` and a pool of `workers`
/// workers: every candidate in order, then one end-of-work marker per worker.
pub open spec fn plan_of(candidates: Seq<String>, workers: nat) -> Seq<WorkItem> {
    Seq::new(
        candidates.len() + workers,
        |i: int|
            if i < candidates.len() {
                WorkItem::Candidate(candidates[i])
            } else {
                WorkItem::EndOfWork
            },
    )
}

/// The word length to use: the parsed argument where there is one, the
/// default otherwise.
pub fn word_length(parsed: Option<usize>) -> (length: usize)
    ensures
        length == match parsed {
            Some(n) => n,
            None => DEFAULT_WORD_LENGTH,
        },
{
    match parsed {
        Some(n) => n,
        None => DEFAULT_WORD_LENGTH,
    }
}

/// What `str::parse::<usize>` makes of a text: the number it denotes, or
/// `None` where the text is not a number that fits.
pub uninterp spec fn parsed_length(text: Seq<char>) -> Option<usize>;

/// `str::parse::<usize>`, with its error mapped to `None`.
#[verifier::external_body]
fn parse_length(text: &str) -> (parsed: Option<usize>)
    ensures
        parsed == parsed_length(text@),
{
    text.parse::<usize>().ok()
}

/// The word length that a command-line argument asks for: the number it
/// parses to, or the default where the argument is absent or is no number.
pub fn word_length_from(arg: Option<&str>) -> (length: usize)
    ensures
        length == match arg {
            Some(text) => match parsed_length(text@) {
                Some(n) => n,
                None => DEFAULT_WORD_LENGTH,
            },
            None => DEFAULT_WORD_LENGTH,
        },
{
    match arg {
        Some(text) => word_length(parse_length(text)),
        None => word_length(None),
    }
}

/// Lays out the whole enqueue sequence: each candidate once, in the order
/// given, followed by exactly `workers` end-of-work markers.
pub fn work_plan(candidates: &Vec<String>, workers: usize) -> (plan: Vec<WorkItem>)
    ensures
        plan@ == plan_of(candidates@, workers as nat),
{
    let mut plan: Vec<WorkItem> = Vec::new();
    let mut i: usize = 0;
    while i < candidates.len()
        invariant
            i <= candidates.len(),
            plan@.len() == i,
            forall|k: int| 0 <= k < i ==> #[trigger] plan@[k] == WorkItem::Candidate(candidates@[k]),
        decreases candidates.len() - i,
    {
        plan.push(WorkItem::Candidate(candidates[i].clone()));
        i = i + 1;
    }
    let mut sent: usize = 0;
    while sent < workers
        invariant
            sent <= workers,
            plan@.len() == candidates@.len() + sent,
            forall|k: int|
                0 <= k < candidates@.len() ==> #[trigger] plan@[k] == WorkItem::Candidate(
                    candidates@[k],
                ),
            forall|k: int|
                candidates@.len() <= k < plan@.len() ==> #[trigger] plan@[k] == WorkItem::EndOfWork,
        decreases workers - sent,
    {
        plan.push(WorkItem::EndOfWork);
        sent = sent + 1;
    }
    assert(plan@ =~= plan_of(candidates@, workers as nat));
    plan
}

} // verus!
