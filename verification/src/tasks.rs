//! The qmd indexing tasks as state machines.
//!
//! Each task alternates commands run by the caller with decisions made here.
//! The caller holds the current step, performs what the step asks for,
//! reports the result as a [`QmdEvent`], and receives the next step (and,
//! for a full index, the progress reports to forward), until the step is
//! `Done`.
use vstd::prelude::*;

use crate::status::{collection_url, collection_url_exec, spec_vault_dir_name, vault_dir_name};
use crate::text::{chars_of, concat_str, contains, contains_exec, lines};
use crate::status::{first_line_number, parse_indexed_count};

verus! {

broadcast use vstd::string::group_string_axioms;

/// A progress report of a full indexing run.
#[derive(Debug, Clone)]
pub struct IndexingProgress {
    pub phase: String,
    pub current: usize,
    pub total: usize,
    pub done: bool,
    pub error: Option<String>,
}

impl View for IndexingProgress {
    type V = (Seq<char>, usize, usize, bool, Option<Seq<char>>);

    open spec fn view(&self) -> Self::V {
        (self.phase@, self.current, self.total, self.done, self.error.deep_view())
    }
}

fn progress(phase: &str, current: usize, total: usize, done: bool, error: Option<String>) -> (r:
    IndexingProgress)
    ensures
        r@ == (phase@, current, total, done, error.deep_view()),
{
    IndexingProgress { phase: phase.to_owned(), current, total, done, error }
}

/// How a qmd command went.
pub enum CommandOutcome {
    /// The command could not be started; the text says why.
    NotStarted(String),
    /// The command ran to its end.
    Exited { success: bool, stdout: String, stderr: String },
}

/// What the caller reports after doing what a step asked for.
pub enum QmdEvent {
    /// Whether the qmd binary was found.
    Located(bool),
    /// The outcome of the qmd command that the step named.
    Ran(CommandOutcome),
    /// The result of a nested task (the collection check of a full index).
    Completed(Result<(), String>),
}

/// A task's result, as texts.
pub open spec fn result_view(r: Result<(), String>) -> Result<(), Seq<char>> {
    match r {
        Ok(()) => Ok(()),
        Err(e) => Err(e@),
    }
}

/// `prefix` followed by the text of `e`.
fn error_text(prefix: &str, e: &String) -> (r: String)
    ensures
        r@ == prefix@ + e@,
{
    concat_str(prefix, e.as_str())
}

// ---------------------------------------------------------------------------
// Making sure the vault has a collection
// ---------------------------------------------------------------------------
/// Steps of making sure the vault has a qmd collection.
pub enum CollectionStep {
    /// Locate the qmd binary; report `Located`.
    Locate,
    /// Run `qmd collection list`; report `Ran`.
    List,
    /// Run qmd with these arguments, which add the collection; report `Ran`.
    Add(Vec<String>),
    /// The task is over.
    Done(Result<(), String>),
}

/// The event that a collection step waits for.
pub open spec fn collection_awaits(step: CollectionStep, event: QmdEvent) -> bool {
    match step {
        CollectionStep::Locate => event is Located,
        CollectionStep::List => event is Ran,
        CollectionStep::Add(_) => event is Ran,
        CollectionStep::Done(_) => false,
    }
}

/// How many more events the collection task can take from `step`.
pub open spec fn collection_remaining(step: CollectionStep) -> nat {
    match step {
        CollectionStep::Locate => 3,
        CollectionStep::List => 2,
        CollectionStep::Add(_) => 1,
        CollectionStep::Done(_) => 0,
    }
}

/// The step is `Done` with the result `r`.
pub open spec fn collection_done(step: CollectionStep, r: Result<(), Seq<char>>) -> bool {
    step matches CollectionStep::Done(x) && result_view(x) == r
}

/// The arguments that add the vault as the collection `name`:
/// `collection add <vault_path> --name <name> --mask **/*.md`.
pub open spec fn add_collection_args(vault_path: Seq<char>, name: Seq<char>) -> Seq<Seq<char>> {
    seq!["collection"@, "add"@, vault_path, "--name"@, name, "--mask"@, "**/*.md"@]
}

fn add_collection_args_exec(vault_path: &str, name: &str) -> (r: Vec<String>)
    ensures
        r.deep_view() == add_collection_args(vault_path@, name@),
{
    let mut r: Vec<String> = Vec::new();
    r.push("collection".to_owned());
    r.push("add".to_owned());
    r.push(vault_path.to_owned());
    r.push("--name".to_owned());
    r.push(name.to_owned());
    r.push("--mask".to_owned());
    r.push("**/*.md".to_owned());
    assert(r.deep_view() =~= add_collection_args(vault_path@, name@));
    r
}

/// One step of making sure that the vault at `vault_path` has a qmd
/// collection. Without qmd the task fails with `qmd not installed`. When
/// `qmd collection list` cannot be started it fails with `Failed to list
/// collections: <error>`. When the listing succeeds and names the vault's
/// collection, the task is done; otherwise the collection is added. The
/// task succeeds only when that command succeeds, so that the collection
/// exists afterwards: it fails with `Failed to create collection: <error>`
/// when the command cannot be started and with `Failed to create
/// collection: <stderr>` when it exits unsuccessfully.
pub fn ensure_collection(vault_path: &str, step: CollectionStep, event: QmdEvent) -> (next:
    CollectionStep)
    requires
        collection_awaits(step, event),
    ensures
        collection_remaining(next) < collection_remaining(step),
        step is Locate ==> (event matches QmdEvent::Located(found) && (found ==> next is List) && (
        !found ==> collection_done(next, Err("qmd not installed"@)))),
        step is List ==> (event matches QmdEvent::Ran(o) && match o {
            CommandOutcome::NotStarted(e) => collection_done(
                next,
                Err("Failed to list collections: "@ + e@),
            ),
            CommandOutcome::Exited { success, stdout, .. } => if success && contains(
                stdout@,
                collection_url(spec_vault_dir_name(vault_path@)),
            ) {
                collection_done(next, Ok(()))
            } else {
                next matches CollectionStep::Add(args) && args.deep_view() == add_collection_args(
                    vault_path@,
                    spec_vault_dir_name(vault_path@),
                )
            },
        }),
        step is Add ==> (event matches QmdEvent::Ran(o) && match o {
            CommandOutcome::NotStarted(e) => collection_done(
                next,
                Err("Failed to create collection: "@ + e@),
            ),
            CommandOutcome::Exited { success, stderr, .. } => if success {
                collection_done(next, Ok(()))
            } else {
                collection_done(next, Err("Failed to create collection: "@ + stderr@))
            },
        }),
{
    match step {
        CollectionStep::Locate => match event {
            QmdEvent::Located(found) => {
                if found {
                    CollectionStep::List
                } else {
                    CollectionStep::Done(Err("qmd not installed".to_owned()))
                }
            },
            _ => CollectionStep::Locate,
        },
        CollectionStep::List => match event {
            QmdEvent::Ran(CommandOutcome::NotStarted(e)) => CollectionStep::Done(
                Err(error_text("Failed to list collections: ", &e)),
            ),
            QmdEvent::Ran(CommandOutcome::Exited { success, stdout, .. }) => {
                let name = vault_dir_name(vault_path);
                let url = collection_url_exec(chars_of(name.as_str()).as_slice());
                if success && contains_exec(chars_of(stdout.as_str()).as_slice(), url.as_slice()) {
                    CollectionStep::Done(Ok(()))
                } else {
                    CollectionStep::Add(add_collection_args_exec(vault_path, name.as_str()))
                }
            },
            _ => CollectionStep::List,
        },
        CollectionStep::Add(args) => match event {
            QmdEvent::Ran(CommandOutcome::NotStarted(e)) => CollectionStep::Done(
                Err(error_text("Failed to create collection: ", &e)),
            ),
            QmdEvent::Ran(CommandOutcome::Exited { success, stderr, .. }) => {
                if success {
                    CollectionStep::Done(Ok(()))
                } else {
                    CollectionStep::Done(Err(error_text("Failed to create collection: ", &stderr)))
                }
            },
            _ => CollectionStep::Done(Ok(())),
        },
        CollectionStep::Done(r) => CollectionStep::Done(r),
    }
}

// ---------------------------------------------------------------------------
// Incremental update
// ---------------------------------------------------------------------------
/// Steps of an incremental index update.
pub enum UpdateStep {
    /// Locate the qmd binary; report `Located`.
    Locate,
    /// Run `qmd collection list`; report `Ran`.
    List,
    /// Run `qmd update`; report `Ran`.
    Update,
    /// The task is over.
    Done(Result<(), String>),
}

/// The event that an update step waits for.
pub open spec fn update_awaits(step: UpdateStep, event: QmdEvent) -> bool {
    match step {
        UpdateStep::Locate => event is Located,
        UpdateStep::List => event is Ran,
        UpdateStep::Update => event is Ran,
        UpdateStep::Done(_) => false,
    }
}

/// How many more events the update task can take from `step`.
pub open spec fn update_remaining(step: UpdateStep) -> nat {
    match step {
        UpdateStep::Locate => 3,
        UpdateStep::List => 2,
        UpdateStep::Update => 1,
        UpdateStep::Done(_) => 0,
    }
}

/// The step is `Done` with the result `r`.
pub open spec fn update_done(step: UpdateStep, r: Result<(), Seq<char>>) -> bool {
    step matches UpdateStep::Done(x) && result_view(x) == r
}

/// One step of an incremental update of the index of the vault at
/// `vault_path`. Without qmd it fails with `qmd not installed`; when the
/// collection listing cannot be started, with `Failed to list collections:
/// <error>`. When the listing succeeds without naming the vault's
/// collection, nothing is updated (a full index is needed first). Otherwise
/// `qmd update` runs: it fails with `qmd incremental update failed:
/// <error>` when it cannot be started and with `qmd update failed:
/// <stderr>` when it exits unsuccessfully.
pub fn run_incremental_update(vault_path: &str, step: UpdateStep, event: QmdEvent) -> (next:
    UpdateStep)
    requires
        update_awaits(step, event),
    ensures
        update_remaining(next) < update_remaining(step),
        step is Locate ==> (event matches QmdEvent::Located(found) && (found ==> next is List) && (
        !found ==> update_done(next, Err("qmd not installed"@)))),
        step is List ==> (event matches QmdEvent::Ran(o) && match o {
            CommandOutcome::NotStarted(e) => update_done(
                next,
                Err("Failed to list collections: "@ + e@),
            ),
            CommandOutcome::Exited { success, stdout, .. } => if success && !contains(
                stdout@,
                collection_url(spec_vault_dir_name(vault_path@)),
            ) {
                update_done(next, Ok(()))
            } else {
                next is Update
            },
        }),
        step is Update ==> (event matches QmdEvent::Ran(o) && match o {
            CommandOutcome::NotStarted(e) => update_done(
                next,
                Err("qmd incremental update failed: "@ + e@),
            ),
            CommandOutcome::Exited { success, stderr, .. } => if success {
                update_done(next, Ok(()))
            } else {
                update_done(next, Err("qmd update failed: "@ + stderr@))
            },
        }),
{
    match step {
        UpdateStep::Locate => match event {
            QmdEvent::Located(found) => {
                if found {
                    UpdateStep::List
                } else {
                    UpdateStep::Done(Err("qmd not installed".to_owned()))
                }
            },
            _ => UpdateStep::Locate,
        },
        UpdateStep::List => match event {
            QmdEvent::Ran(CommandOutcome::NotStarted(e)) => UpdateStep::Done(
                Err(error_text("Failed to list collections: ", &e)),
            ),
            QmdEvent::Ran(CommandOutcome::Exited { success, stdout, .. }) => {
                let name = vault_dir_name(vault_path);
                let url = collection_url_exec(chars_of(name.as_str()).as_slice());
                if success && !contains_exec(chars_of(stdout.as_str()).as_slice(), url.as_slice()) {
                    UpdateStep::Done(Ok(()))
                } else {
                    UpdateStep::Update
                }
            },
            _ => UpdateStep::List,
        },
        UpdateStep::Update => match event {
            QmdEvent::Ran(CommandOutcome::NotStarted(e)) => UpdateStep::Done(
                Err(error_text("qmd incremental update failed: ", &e)),
            ),
            QmdEvent::Ran(CommandOutcome::Exited { success, stderr, .. }) => {
                if success {
                    UpdateStep::Done(Ok(()))
                } else {
                    UpdateStep::Done(Err(error_text("qmd update failed: ", &stderr)))
                }
            },
            _ => UpdateStep::Update,
        },
        UpdateStep::Done(r) => UpdateStep::Done(r),
    }
}

// ---------------------------------------------------------------------------
// Full index
// ---------------------------------------------------------------------------
/// Steps of a full index run: update, then embed.
pub enum FullIndexStep {
    /// Locate the qmd binary; report `Located`.
    Locate,
    /// Make sure the vault has a collection (see [`ensure_collection`]);
    /// report `Completed` with its result.
    EnsureCollection,
    /// Run `qmd update`; report `Ran`.
    Update,
    /// Run `qmd embed`, `total` files having been indexed; report `Ran`.
    Embed(usize),
    /// The run is over.
    Done(Result<(), String>),
}

/// The event that a full index step waits for.
pub open spec fn full_index_awaits(step: FullIndexStep, event: QmdEvent) -> bool {
    match step {
        FullIndexStep::Locate => event is Located,
        FullIndexStep::EnsureCollection => event is Completed,
        FullIndexStep::Update => event is Ran,
        FullIndexStep::Embed(_) => event is Ran,
        FullIndexStep::Done(_) => false,
    }
}

/// How many more events a full index run can take from `step`.
pub open spec fn full_index_remaining(step: FullIndexStep) -> nat {
    match step {
        FullIndexStep::Locate => 4,
        FullIndexStep::EnsureCollection => 3,
        FullIndexStep::Update => 2,
        FullIndexStep::Embed(_) => 1,
        FullIndexStep::Done(_) => 0,
    }
}

/// The step is `Done` with the result `r`.
pub open spec fn full_index_done(step: FullIndexStep, r: Result<(), Seq<char>>) -> bool {
    step matches FullIndexStep::Done(x) && result_view(x) == r
}

/// The progress reports are exactly `expected`.
pub open spec fn reports(p: Seq<IndexingProgress>, expected: Seq<
    (Seq<char>, usize, usize, bool, Option<Seq<char>>),
>) -> bool {
    p.len() == expected.len() && forall|i: int| 0 <= i < p.len() ==> #[trigger] p[i]@ == expected[i]
}

/// What the run reports when embedding fails.
pub open spec fn embedding_failed_note() -> Seq<char> {
    "Embedding failed \u{2014} keyword search only"@
}

/// What one step of a full index run does: the next step and the progress
/// reports, for the step `step` and the event `event`.
pub open spec fn full_index_transition(
    step: FullIndexStep,
    event: QmdEvent,
    next: FullIndexStep,
    out: Seq<IndexingProgress>,
) -> bool {
    &&& full_index_remaining(next) < full_index_remaining(step)
    &&& step is Locate ==> (event matches QmdEvent::Located(found) && reports(out, seq![]) && (found
        ==> next is EnsureCollection) && (!found ==> full_index_done(
        next,
        Err("qmd not installed"@),
    )))
    &&& step is EnsureCollection ==> (event matches QmdEvent::Completed(c) && match c {
        Ok(()) => next is Update && reports(out, seq![("scanning"@, 0usize, 0usize, false, None)]),
        Err(e) => full_index_done(next, Err(e@)) && reports(out, seq![]),
    })
    &&& step is Update ==> (event matches QmdEvent::Ran(o) && match o {
        CommandOutcome::NotStarted(e) => full_index_done(next, Err("qmd update failed: "@ + e@))
            && reports(out, seq![]),
        CommandOutcome::Exited { success, stdout, stderr } => if success {
            let total = first_line_number(lines(stdout@));
            next == FullIndexStep::Embed(total) && reports(
                out,
                seq![
                    ("scanning"@, total, total, false, None),
                    ("embedding"@, 0usize, total, false, None),
                ],
            )
        } else {
            full_index_done(next, Err("qmd update failed: "@ + stderr@)) && reports(
                out,
                seq![("error"@, 0usize, 0usize, true, Some("qmd update failed: "@ + stderr@))],
            )
        },
    })
    &&& step is Embed ==> (event matches QmdEvent::Ran(o) && step matches FullIndexStep::Embed(
        total,
    ) && match o {
        CommandOutcome::NotStarted(e) => full_index_done(next, Err("qmd embed failed: "@ + e@))
            && reports(out, seq![]),
        CommandOutcome::Exited { success, .. } => full_index_done(next, Ok(())) && if success {
            reports(out, seq![("complete"@, total, total, true, None)])
        } else {
            reports(out, seq![("complete"@, total, total, true, Some(embedding_failed_note()))])
        },
    })
}

/// One step of a full index run of a vault, and the progress reports that
/// it produces. Without qmd the run fails with `qmd not installed`; a failed
/// collection check fails it with that check's error. Then `scanning` is
/// reported and `qmd update` runs: when it cannot be started the run fails
/// with `qmd update failed: <error>`; when it exits unsuccessfully an
/// `error` report carries `qmd update failed: <stderr>` and the run fails
/// with it. Otherwise the indexed count is read from its output, reported
/// as scanned, `embedding` is reported and `qmd embed` runs: when it cannot
/// be started the run fails with `qmd embed failed: <error>`; otherwise the
/// run succeeds with a final `complete` report, which notes when embedding
/// failed, since keyword search still works.
pub fn run_full_index(step: FullIndexStep, event: QmdEvent) -> (r: (
    FullIndexStep,
    Vec<IndexingProgress>,
))
    requires
        full_index_awaits(step, event),
    ensures
        full_index_transition(step, event, r.0, r.1@),
{
    let mut out: Vec<IndexingProgress> = Vec::new();
    let next = match step {
        FullIndexStep::Locate => match event {
            QmdEvent::Located(found) => {
                if found {
                    FullIndexStep::EnsureCollection
                } else {
                    FullIndexStep::Done(Err("qmd not installed".to_owned()))
                }
            },
            _ => FullIndexStep::Locate,
        },
        FullIndexStep::EnsureCollection => match event {
            QmdEvent::Completed(Ok(())) => {
                out.push(progress("scanning", 0, 0, false, None));
                FullIndexStep::Update
            },
            QmdEvent::Completed(Err(e)) => FullIndexStep::Done(Err(e)),
            _ => FullIndexStep::EnsureCollection,
        },
        FullIndexStep::Update => match event {
            QmdEvent::Ran(CommandOutcome::NotStarted(e)) => FullIndexStep::Done(
                Err(error_text("qmd update failed: ", &e)),
            ),
            QmdEvent::Ran(CommandOutcome::Exited { success, stdout, stderr }) => {
                if success {
                    let total = parse_indexed_count(stdout.as_str());
                    out.push(progress("scanning", total, total, false, None));
                    out.push(progress("embedding", 0, total, false, None));
                    FullIndexStep::Embed(total)
                } else {
                    let err = error_text("qmd update failed: ", &stderr);
                    let report_err = err.clone();
                    out.push(progress("error", 0, 0, true, Some(report_err)));
                    FullIndexStep::Done(Err(err))
                }
            },
            _ => FullIndexStep::Update,
        },
        FullIndexStep::Embed(total) => match event {
            QmdEvent::Ran(CommandOutcome::NotStarted(e)) => FullIndexStep::Done(
                Err(error_text("qmd embed failed: ", &e)),
            ),
            QmdEvent::Ran(CommandOutcome::Exited { success, .. }) => {
                if success {
                    out.push(progress("complete", total, total, true, None));
                } else {
                    let note = "Embedding failed \u{2014} keyword search only".to_owned();
                    out.push(progress("complete", total, total, true, Some(note)));
                }
                FullIndexStep::Done(Ok(()))
            },
            _ => FullIndexStep::Embed(total),
        },
        FullIndexStep::Done(r) => FullIndexStep::Done(r),
    };
    (next, out)
}

// ---------------------------------------------------------------------------
// Laws of a whole full index run
// ---------------------------------------------------------------------------
/// The order of the phases: `scanning`, then `embedding`, then the final
/// `complete` or `error`.
pub open spec fn phase_rank(phase: Seq<char>) -> int {
    if phase == "scanning"@ {
        0
    } else if phase == "embedding"@ {
        1
    } else {
        2
    }
}

/// All reports of a run, in the order the steps produced them.
pub open spec fn all_reports(out: Seq<Seq<IndexingProgress>>) -> Seq<IndexingProgress>
    decreases out.len(),
{
    if out.len() == 0 {
        Seq::empty()
    } else {
        all_reports(out.drop_last()) + out.last()
    }
}

/// The reports of a run are in order: every count is within its total, a
/// report with an error is a final one, phases never go back, and only the
/// last report may be final (`complete` or `error`, with `done` set).
pub open spec fn reports_in_order(all: Seq<IndexingProgress>) -> bool {
    &&& forall|i: int|
        0 <= i < all.len() ==> (#[trigger] all[i])@.1 <= all[i]@.2 && (all[i]@.4 is Some
            ==> all[i]@.3)
    &&& forall|i: int, j: int|
        0 <= i <= j < all.len() ==> phase_rank((#[trigger] all[i])@.0) <= phase_rank(
            (#[trigger] all[j])@.0,
        )
    &&& forall|i: int|
        0 <= i < all.len() && (#[trigger] all[i])@.3 ==> i == all.len() - 1 && phase_rank(
            all[i]@.0,
        ) == 2
    &&& forall|i: int|
        0 <= i < all.len() && phase_rank((#[trigger] all[i])@.0) == 2 ==> i == all.len() - 1
            && all[i]@.3
    &&& forall|i: int|
        0 <= i < all.len() ==> (#[trigger] all[i])@.0 == "scanning"@ || all[i]@.0
            == "embedding"@ || all[i]@.0 == "complete"@ || all[i]@.0 == "error"@
}

/// The highest phase that the reports so far can have reached at `step`.
pub open spec fn phase_bound(step: FullIndexStep) -> int {
    match step {
        FullIndexStep::Embed(_) => 1,
        FullIndexStep::Done(_) => 2,
        _ => 0,
    }
}

/// What holds of the reports produced before `step` is reached.
pub open spec fn run_so_far(all: Seq<IndexingProgress>, step: FullIndexStep) -> bool {
    &&& reports_in_order(all)
    &&& forall|i: int| 0 <= i < all.len() ==> phase_rank((#[trigger] all[i])@.0) <= phase_bound(step)
    &&& (step matches FullIndexStep::Done(r) && r is Ok) ==> all.len() > 0 && all.last()@.3
        && all.last()@.0 == "complete"@
}

proof fn lemma_phase_names()
    ensures
        phase_rank("scanning"@) == 0,
        phase_rank("embedding"@) == 1,
        phase_rank("complete"@) == 2,
        phase_rank("error"@) == 2,
{
    reveal_strlit("scanning");
    reveal_strlit("embedding");
    reveal_strlit("complete");
    reveal_strlit("error");
    assert("embedding"@.len() != "scanning"@.len());
    assert("complete"@[0] != "scanning"@[0]);
    assert("complete"@.len() != "embedding"@.len());
    assert("error"@.len() != "scanning"@.len());
    assert("error"@.len() != "embedding"@.len());
}

proof fn lemma_run_step(
    all: Seq<IndexingProgress>,
    step: FullIndexStep,
    event: QmdEvent,
    next: FullIndexStep,
    out: Seq<IndexingProgress>,
)
    requires
        run_so_far(all, step),
        full_index_awaits(step, event),
        full_index_transition(step, event, next, out),
    ensures
        run_so_far(all + out, next),
{
    lemma_phase_names();
    let all2 = all + out;
    assert forall|i: int| 0 <= i < all.len() implies #[trigger] all2[i] == all[i] by {}
    assert forall|i: int| all.len() <= i < all2.len() implies #[trigger] all2[i] == out[i - all.len()] by {}
    if out.len() > 0 {
        // The reports before this step are not final: their phase is below 2.
        assert(!(step is Done));
        assert(phase_bound(step) <= 1);
        assert forall|i: int| 0 <= i < all.len() implies !(#[trigger] all[i])@.3 by {
            if all[i]@.3 {
                assert(phase_rank(all[i]@.0) == 2);
            }
        }
    }
    assert(all2.len() == all.len() + out.len());
}

/// Over a whole full index run the progress reports come in order: counts
/// within totals, phases `scanning`, then `embedding`, then at most one
/// final `complete` or `error` report, which is the only one with `done`
/// set and the only one that may carry an error; a run that succeeds ends
/// with a `complete` report. `steps` are the steps of the run, from
/// `Locate`; `out[k]` are the reports of the `k`-th call, made with
/// `events[k]`.
pub proof fn law_full_index_reports_in_order(
    steps: Seq<FullIndexStep>,
    events: Seq<QmdEvent>,
    out: Seq<Seq<IndexingProgress>>,
)
    requires
        steps.len() == events.len() + 1,
        out.len() == events.len(),
        steps[0] is Locate,
        forall|k: int|
            0 <= k < events.len() ==> full_index_awaits(steps[k], #[trigger] events[k])
                && full_index_transition(steps[k], events[k], steps[k + 1], out[k]),
    ensures
        reports_in_order(all_reports(out)),
        (steps.last() matches FullIndexStep::Done(r) && r is Ok) ==> all_reports(out).len() > 0
            && all_reports(out).last()@.3 && all_reports(out).last()@.0 == "complete"@,
{
    lemma_run_prefix(steps, events, out, events.len() as int);
    assert(out.take(events.len() as int) =~= out);
}

proof fn lemma_run_prefix(
    steps: Seq<FullIndexStep>,
    events: Seq<QmdEvent>,
    out: Seq<Seq<IndexingProgress>>,
    k: int,
)
    requires
        0 <= k <= events.len(),
        steps.len() == events.len() + 1,
        out.len() == events.len(),
        steps[0] is Locate,
        forall|k: int|
            0 <= k < events.len() ==> full_index_awaits(steps[k], #[trigger] events[k])
                && full_index_transition(steps[k], events[k], steps[k + 1], out[k]),
    ensures
        run_so_far(all_reports(out.take(k)), steps[k]),
    decreases k,
{
    if k == 0 {
        assert(out.take(0) =~= Seq::<Seq<IndexingProgress>>::empty());
    } else {
        lemma_run_prefix(steps, events, out, k - 1);
        assert(full_index_awaits(steps[k - 1], events[k - 1]));
        lemma_run_step(all_reports(out.take(k - 1)), steps[k - 1], events[k - 1], steps[k], out[k - 1]);
        assert(out.take(k).drop_last() =~= out.take(k - 1));
        assert(out.take(k).last() == out[k - 1]);
    }
}


} // verus!
