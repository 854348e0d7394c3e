//! What each command does next.

use crate::cli::{CleanArgs, TargetsArgs, VizArgs};
use crate::errors::{CleanError, DiskPulseError, IoError, IoErrorKind};
use crate::models::{CleanItemResult, CleanItemStatus, CleanReport};
use crate::path::PathBuf;
use crate::planning::{default_targets, defaults};
use crate::registry::{
    get_registered_targets, registered, target_values, CleanTargetDef, Environment,
};
use crate::text::{concat, decimal, digits};
use vstd::prelude::*;
use vstd::string::*;

verus! {

/// The form in which something is shown.
#[derive(Debug, Clone, Copy, PartialEq, Eq, Structural)]
pub enum Output {
    Json,
    Table,
    Silent,
}

/// What follows the plan.
#[derive(Debug, Clone, Copy, PartialEq, Eq, Structural)]
pub enum Next {
    Stop,
    /// Ask first.
    Confirm,
    Execute,
}

/// What is done with a finished plan.
#[derive(Debug, Clone, Copy, PartialEq, Eq, Structural)]
pub struct PlanStep {
    pub output: Output,
    pub next: Next,
}

/// Progress lives on stderr and is fully disabled for quiet/JSON runs.
pub fn shows_progress(quiet: bool, json: bool) -> (yes: bool)
    ensures
        yes == !(quiet || json),
{
    !(quiet || json)
}

/// The directory that a visualization looks at: the current one where none is
/// given.
pub fn viz_target(args: &VizArgs) -> (out: PathBuf)
    ensures
        out@ == match args.path {
            Some(path) => path@,
            None => "."@,
        },
{
    match &args.path {
        Some(path) => path.clone(),
        None => PathBuf::new("."),
    }
}

/// What follows a plan of `total_items` items.
pub open spec fn plan_step(
    json: bool,
    quiet: bool,
    apply: bool,
    yes: bool,
    total_items: nat,
) -> PlanStep {
    PlanStep {
        output: if json && !apply {
            Output::Json
        } else if !quiet && !json {
            Output::Table
        } else {
            Output::Silent
        },
        next: if !apply {
            Next::Stop
        } else if !yes && total_items > 0 {
            Next::Confirm
        } else {
            Next::Execute
        },
    }
}

/// Decide what is done with a finished plan: without `--apply` it is only
/// shown; with it, a confirmation is asked for unless `--yes` is given or
/// there is nothing to remove.
pub fn after_planning(json: bool, quiet: bool, args: &CleanArgs, total_items: usize) -> (step:
    PlanStep)
    ensures
        step == plan_step(json, quiet, args.apply, args.yes, total_items as nat),
{
    let output = if json && !args.apply {
        Output::Json
    } else if !quiet && !json {
        Output::Table
    } else {
        Output::Silent
    };
    let next = if !args.apply {
        Next::Stop
    } else if !args.yes && total_items > 0 {
        Next::Confirm
    } else {
        Next::Execute
    };
    PlanStep { output, next }
}

/// Whether a confirmation lets the run go on. Input that cannot answer a
/// prompt (a pipe, an end of file) counts as a refusal.
pub fn confirmed(interactive: bool, answer: bool) -> (yes: bool)
    ensures
        yes == (interactive && answer),
{
    interactive && answer
}

/// The notice shown where the user did not confirm.
pub const CANCELLED: &'static str = "Operation cancelled by user.";

/// How the report of a run is shown.
pub fn report_output(json: bool, quiet: bool) -> (output: Output)
    ensures
        output == (if json {
            Output::Json
        } else if !quiet {
            Output::Table
        } else {
            Output::Silent
        }),
{
    if json {
        Output::Json
    } else if !quiet {
        Output::Table
    } else {
        Output::Silent
    }
}

/// The path of the first item that could not be removed, if there is one.
pub open spec fn first_failed(results: Seq<CleanItemResult>) -> Option<Seq<char>>
    decreases results.len(),
{
    if results.len() == 0 {
        None
    } else if results[0].status is Failed {
        Some(results[0].path@)
    } else {
        first_failed(results.skip(1))
    }
}

/// What is said of a run that left items in place.
pub open spec fn left_over_text(failed: nat, items: nat) -> Seq<char> {
    digits(failed) + " of "@ + digits(items) + " item(s) could not be removed"@
}

/// How a run that was carried out ends: an item that could not be removed
/// makes it a runtime failure.
pub fn run_outcome(report: &CleanReport) -> (out: Result<(), DiskPulseError>)
    ensures
        (out is Err) == (report.errors_count > 0),
        out matches Err(error) ==> {
            &&& !error.usage_mistake()
            &&& error matches DiskPulseError::Clean(CleanError::DeletionFailed { path, source })
            &&& path@ == (match first_failed(report.results@) {
                Some(path) => path,
                None => Seq::empty(),
            })
            &&& source.kind == IoErrorKind::Other
            &&& source.message@ == left_over_text(
                report.errors_count as nat,
                report.results@.len(),
            )
        },
{
    if report.errors_count == 0 {
        return Ok(());
    }
    let mut path = PathBuf { text: String::new() };
    let mut i: usize = 0;
    assert(report.results@.skip(0) =~= report.results@);
    assert(path@ =~= Seq::empty());
    while i < report.results.len()
        invariant_except_break
            i <= report.results@.len(),
            path@ == Seq::<char>::empty(),
            first_failed(report.results@) == first_failed(report.results@.skip(i as int)),
        ensures
            path@ == (match first_failed(report.results@) {
                Some(path) => path,
                None => Seq::empty(),
            }),
        decreases report.results.len() - i,
    {
        let result = &report.results[i];
        assert(report.results@.skip(i as int)[0] == *result);
        assert(report.results@.skip(i as int).skip(1) =~= report.results@.skip(i + 1));
        let failed = match &result.status {
            CleanItemStatus::Failed(_) => true,
            _ => false,
        };
        if failed {
            path = result.path.clone();
            break;
        }
        i += 1;
    }
    let mut message = concat(decimal(report.errors_count as u128).as_str(), " of ");
    message.append(decimal(report.results.len() as u128).as_str());
    message.append(" item(s) could not be removed");
    Err(
        DiskPulseError::Clean(
            CleanError::DeletionFailed {
                path,
                source: IoError { kind: IoErrorKind::Other, message },
            },
        ),
    )
}

/// The targets that a listing shows: the defaults, or all of them.
pub fn visible_targets(args: &TargetsArgs, env: &Environment) -> (out: Vec<CleanTargetDef>)
    ensures
        target_values(out@) == (if args.all {
            registered(*env)
        } else {
            defaults(registered(*env))
        }),
{
    let catalog = get_registered_targets(env);
    if args.all {
        catalog
    } else {
        default_targets(&catalog)
    }
}

/// Whether a run goes on to remove its items: `answered` tells whether a
/// confirmation was asked for and given.
pub open spec fn removes(step: PlanStep, answered: bool) -> bool {
    step.next == Next::Execute || (step.next == Next::Confirm && answered)
}

/// Nothing is ever removed without `--apply`, and no item without either
/// `--yes` or a confirmation on top of it.
pub proof fn law_no_removal_without_consent(
    json: bool,
    quiet: bool,
    apply: bool,
    yes: bool,
    total_items: nat,
    answered: bool,
)
    ensures
        removes(plan_step(json, quiet, apply, yes, total_items), answered) ==> apply,
        removes(plan_step(json, quiet, apply, yes, total_items), answered) && total_items > 0
            ==> yes || answered,
{
}

/// What follows a plan: nothing without `--apply`; with it, a question unless
/// `--yes` is given or there is nothing to remove. The plan is shown as JSON
/// only where nothing follows, as a table unless that is unwanted.
pub proof fn law_after_planning(json: bool, quiet: bool, apply: bool, yes: bool, total_items: nat)
    ensures
        ({
            let step = plan_step(json, quiet, apply, yes, total_items);
            &&& step.next == Next::Stop <==> !apply
            &&& step.next == Next::Confirm <==> apply && !yes && total_items > 0
            &&& step.next == Next::Execute <==> apply && (yes || total_items == 0)
            &&& step.output == Output::Json <==> json && !apply
            &&& step.output == Output::Table <==> !json && !quiet
        }),
{
}

/// The item that a failed run names is the first that could not be removed.
pub proof fn law_first_failed(results: Seq<CleanItemResult>, i: int)
    requires
        0 <= i < results.len(),
        results[i].status is Failed,
        forall|j: int| 0 <= j < i ==> !((#[trigger] results[j]).status is Failed),
    ensures
        first_failed(results) == Some(results[i].path@),
    decreases i,
{
    if i > 0 {
        let rest = results.skip(1);
        assert(!(results[0].status is Failed));
        assert forall|j: int| 0 <= j < i - 1 implies !((#[trigger] rest[j]).status is Failed) by {
            assert(!(results[j + 1].status is Failed));
        }
        law_first_failed(rest, i - 1);
    }
}

} // verus!
