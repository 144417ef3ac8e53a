//! The schedule of the passes: which pass runs next, what becomes of the diagnostics that a pass
//! reports, and where a run ends.
//!
//! A run is a state machine. [`PipelineRun::action`] says what is to be done next, and
//! [`PipelineRun::resume`] takes what came of it. The passes themselves work on the store between
//! the two.

use vstd::prelude::*;

use crate::assigner::{is_first_free, Assigner};
use crate::fir::{ItemKind, PackageId, PackageStore, PackageV, StoreItemId};
use crate::reachability::{
    collect_reachable_from_entry, collect_reachable_with_seeds, item_exists, reach_ok,
    reachable_set, ItemSet,
};

verus! {

/// How far through the schedule to run.
#[derive(Clone, Copy, Debug, PartialEq, Eq, Structural)]
pub enum PipelineStage {
    /// Run through monomorphization.
    Mono,
    /// Run through return unification.
    ReturnUnify,
    /// Run through defunctionalization.
    Defunc,
    /// Run through the erasure of user-defined types.
    UdtErase,
    /// Run through tuple comparison lowering.
    TupleCompLower,
    /// Run through tuple-decompose.
    TupleDecompose,
    /// Run through argument promotion.
    ArgPromote,
    /// Run through the fixed point of tuple-decompose and argument promotion, which
    /// scalar-replaces the tuple locals of callers that argument promotion has left field-only.
    TupleDecompose2,
    /// Run through unreachable-node garbage collection.
    Gc,
    /// Run through item-level dead code elimination.
    ItemDce,
    /// Run through exec graph rebuild.
    ExecGraphRebuild,
    /// Run the full pipeline.
    Full,
}

/// The structural contracts that are checked between the stages.
#[derive(Clone, Copy, Debug, PartialEq, Eq, Structural)]
pub enum InvariantLevel {
    PostMono,
    PostReturnUnify,
    PostDefunc,
    PostUdtErase,
    PostTupleCompLower,
    PostTupleDecompose,
    PostArgPromote,
    PostGc,
    PostItemDce,
    PostAll,
}

/// Kinds of callable specializations that carry execution graphs.
#[derive(Clone, Copy, Debug, PartialEq, Eq, Hash, Structural)]
pub enum CallableSpecKind {
    /// The default callable body implementation.
    Body,
    /// The adjoint specialization.
    Adj,
    /// The controlled specialization.
    Ctl,
    /// The controlled-adjoint specialization.
    CtlAdj,
    /// A simulatable intrinsic with an explicit body block.
    SimulatableIntrinsic,
}

/// Identifies a specific callable specialization within a package store item.
#[derive(Clone, Copy, Debug, PartialEq, Eq, Hash, Structural)]
pub struct CallableSpecId {
    /// The callable item that owns the specialization.
    pub callable: StoreItemId,
    /// The specialization kind on the callable.
    pub kind: CallableSpecKind,
}

impl CallableSpecId {
    /// Creates a callable specialization identifier.
    pub fn new(callable: StoreItemId, kind: CallableSpecKind) -> (r: Self)
        ensures
            r == (CallableSpecId { callable, kind }),
    {
        CallableSpecId { callable, kind }
    }
}

/// Hard cap on the number of rounds of the tuple-decompose and argument-promotion fixed point.
/// Realistic programs converge in a few rounds; the cap is a backstop against divergence.
pub const TUPLE_DECOMPOSE_ARG_PROMOTE_FIXPOINT_CAP: usize = 64;

/// A diagnostic of a pass.
#[derive(Clone, Debug)]
pub struct PassError {
    /// What it says.
    pub message: String,
    /// Whether it is a warning, which does not stop the run.
    pub is_warning: bool,
}

/// A diagnostic of the pipeline.
#[derive(Clone, Debug)]
pub enum PipelineError {
    /// A return-unification error or warning.
    ReturnUnify(PassError),
    /// A defunctionalization error or warning.
    Defunctionalize(PassError),
    /// An intrinsic callable has an unsupported parameter or return type.
    IntrinsicPrecheck(PassError),
    /// A pinned item requested by a caller was not present in the store.
    MissingPinnedItem(StoreItemId),
    /// A pinned item requested by a caller was present but was not a callable.
    PinnedItemNotCallable(StoreItemId),
    /// The fixed point was not reached within its hard cap.
    TupleDecomposeArgPromoteFixpointNotReached(usize),
}

/// What a run has reported.
///
/// Fatal `errors` block the use of the store: it may be stuck at an intermediate stage. Warnings
/// do not.
#[derive(Clone, Debug)]
pub struct PipelineResult {
    /// Fatal diagnostics.
    pub errors: Vec<PipelineError>,
    /// Non-fatal diagnostics.
    pub warnings: Vec<PipelineError>,
}

impl Default for PipelineResult {
    fn default() -> (r: Self)
        ensures
            r.errors@ == Seq::<PipelineError>::empty(),
            r.warnings@ == Seq::<PipelineError>::empty(),
    {
        PipelineResult { errors: Vec::new(), warnings: Vec::new() }
    }
}

impl PipelineResult {
    /// Whether the store can be used as the output for the requested stage.
    pub fn is_success(&self) -> (r: bool)
        ensures
            r == (self.errors@.len() == 0),
    {
        self.errors.len() == 0
    }
}

/// The pass that reports a diagnostic.
#[derive(Clone, Copy, Debug, PartialEq, Eq, Structural)]
pub enum Source {
    IntrinsicPrecheck,
    ReturnUnify,
    Defunctionalize,
}

/// The diagnostic of a pass as a diagnostic of the pipeline.
pub open spec fn wrapped(source: Source, e: PassError) -> PipelineError {
    match source {
        Source::IntrinsicPrecheck => PipelineError::IntrinsicPrecheck(e),
        Source::ReturnUnify => PipelineError::ReturnUnify(e),
        Source::Defunctionalize => PipelineError::Defunctionalize(e),
    }
}

/// The diagnostics of a pass as diagnostics of the pipeline.
pub open spec fn all_wrapped(source: Source, ds: Seq<PassError>) -> Seq<PipelineError> {
    ds.map_values(|e: PassError| wrapped(source, e))
}

fn wrap(source: Source, e: PassError) -> (r: PipelineError)
    ensures
        r == wrapped(source, e),
{
    match source {
        Source::IntrinsicPrecheck => PipelineError::IntrinsicPrecheck(e),
        Source::ReturnUnify => PipelineError::ReturnUnify(e),
        Source::Defunctionalize => PipelineError::Defunctionalize(e),
    }
}

/// Adds the diagnostics of a pass to those of the pipeline.
fn extend_wrapped(out: &mut Vec<PipelineError>, source: Source, diagnostics: Vec<PassError>)
    ensures
        final(out)@ == old(out)@ + all_wrapped(source, diagnostics@),
{
    let mut rest = diagnostics;
    let ghost all = rest@;
    let ghost mut n: int = 0;
    assert(out@ =~= old(out)@ + all_wrapped(source, all.take(0)));
    while rest.len() > 0
        invariant
            0 <= n <= all.len(),
            rest@ == all.skip(n),
            out@ == old(out)@ + all_wrapped(source, all.take(n)),
        decreases rest@.len(),
    {
        let ghost before = out@;
        let e = rest.remove(0);
        out.push(wrap(source, e));
        proof {
            assert(all_wrapped(source, all.take(n + 1)) =~= all_wrapped(source, all.take(n)).push(
                wrapped(source, all[n]),
            ));
            n = n + 1;
            assert(rest@ =~= all.skip(n));
            assert(out@ =~= old(out)@ + all_wrapped(source, all.take(n)));
        }
    }
    assert(all.take(n) =~= all);
}

/// The result when an intrinsic callable was rejected: every diagnostic is an error.
pub fn perform_intrinsic_type_validation(diagnostics: Vec<PassError>) -> (r: Option<
    PipelineResult,
>)
    ensures
        match r {
            Some(result) => {
                &&& diagnostics@.len() > 0
                &&& result.errors@ == all_wrapped(Source::IntrinsicPrecheck, diagnostics@)
                &&& result.warnings@ == Seq::<PipelineError>::empty()
            },
            None => diagnostics@.len() == 0,
        },
{
    if diagnostics.len() == 0 {
        return None;
    }
    let mut result = PipelineResult::default();
    extend_wrapped(&mut result.errors, Source::IntrinsicPrecheck, diagnostics);
    assert(result.errors@ =~= all_wrapped(Source::IntrinsicPrecheck, diagnostics@));
    Some(result)
}

/// What is wrong with a pinned item: it must exist and be a callable.
pub open spec fn pin_error(store: Map<usize, PackageV>, id: StoreItemId) -> Option<PipelineError> {
    if !item_exists(store, id) {
        Some(PipelineError::MissingPinnedItem(id))
    } else if store[id.package.0].items[id.item.0].kind is Callable {
        None
    } else {
        Some(PipelineError::PinnedItemNotCallable(id))
    }
}

/// What is wrong with the pinned items, in order.
pub open spec fn pin_errors(
    store: Map<usize, PackageV>,
    pinned: Seq<StoreItemId>,
) -> Seq<PipelineError>
    decreases pinned.len(),
{
    if pinned.len() == 0 {
        seq![]
    } else {
        match pin_error(store, pinned.last()) {
            Some(e) => pin_errors(store, pinned.drop_last()).push(e),
            None => pin_errors(store, pinned.drop_last()),
        }
    }
}

/// Validates that a pinned item exists and refers to a callable item.
pub fn validate_pinned_item(store: &PackageStore, item_id: StoreItemId) -> (r: Result<
    (),
    PipelineError,
>)
    ensures
        match r {
            Ok(_) => pin_error(store@, item_id) is None,
            Err(e) => pin_error(store@, item_id) == Some(e),
        },
{
    let package = match store.packages.get(item_id.package.0) {
        Some(package) => package,
        None => return Err(PipelineError::MissingPinnedItem(item_id)),
    };
    let item = match package.items.get(item_id.item.0) {
        Some(item) => item,
        None => return Err(PipelineError::MissingPinnedItem(item_id)),
    };
    match &item.kind {
        ItemKind::Callable(_) => Ok(()),
        _ => Err(PipelineError::PinnedItemNotCallable(item_id)),
    }
}

/// Validates all pinned items: what is wrong with them, in order.
pub fn validate_pinned_items(store: &PackageStore, pinned_items: &Vec<StoreItemId>) -> (r: Vec<
    PipelineError,
>)
    ensures
        r@ == pin_errors(store@, pinned_items@),
{
    let mut r: Vec<PipelineError> = Vec::new();
    let mut i: usize = 0;
    while i < pinned_items.len()
        invariant
            i <= pinned_items@.len(),
            r@ == pin_errors(store@, pinned_items@.take(i as int)),
        decreases pinned_items@.len() - i,
    {
        assert(pinned_items@.take(i + 1).drop_last() =~= pinned_items@.take(i as int));
        if let Err(e) = validate_pinned_item(store, pinned_items[i]) {
            r.push(e);
        }
        i = i + 1;
    }
    assert(pinned_items@.take(i as int) =~= pinned_items@);
    r
}

/// Where a run stands: what is to be done next.
#[derive(Clone, Copy, Debug, PartialEq, Eq, Structural)]
pub enum Step {
    Precheck,
    Monomorphize,
    CheckMono,
    UnifyReturns,
    CheckReturnUnify,
    Defunctionalize,
    CheckDefunc,
    EraseUdts,
    CheckUdtErase,
    LowerTupleComparisons,
    CheckTupleCompLower,
    TupleDecompose,
    CheckTupleDecompose,
    ArgPromote,
    CheckArgPromote,
    RoundDecompose,
    CheckRoundDecompose,
    RoundPromote,
    CheckRoundPromote,
    NormalizeCallArgTypes,
    CheckNormalized,
    Gc,
    CheckGc,
    ItemDce,
    GcAfterDce,
    CheckItemDce,
    RebuildExecGraphs,
    CheckExternalSpecs,
    CheckAll,
    Finished,
}

/// What is to be done next.
#[derive(Debug)]
pub enum Action {
    /// Find the intrinsic callables with unsupported types.
    ValidateIntrinsicTypes,
    Monomorphize,
    UnifyReturns,
    Defunctionalize,
    EraseUdts,
    LowerTupleComparisons,
    TupleDecompose,
    ArgPromote,
    PromoteToFixedPoint,
    NormalizeReachableCallArgTypes,
    GcUnreachable,
    /// Remove the items of the package that are not in the set.
    EliminateDeadItems(ItemSet),
    /// Rebuild the execution graphs of the package, of the pinned items, and of these
    /// specializations in other packages.
    RebuildExecGraphs(Vec<CallableSpecId>),
    CheckExternalSpecExecGraphs(Vec<CallableSpecId>),
    CheckInvariants(InvariantLevel),
    /// Nothing: the run has ended.
    Finish,
}

/// What came of an action.
#[derive(Debug)]
pub enum Reply {
    /// Nothing to tell.
    Done,
    /// The diagnostics of the pass.
    Diagnostics(Vec<PassError>),
    /// Whether the pass changed anything.
    Changed(bool),
    /// The specializations that the pass has changed in structure.
    Mutated(Vec<CallableSpecId>),
    /// How many items were removed.
    Removed(usize),
}

/// The mathematical view of an action.
pub enum ActionV {
    ValidateIntrinsicTypes,
    Monomorphize,
    UnifyReturns,
    Defunctionalize,
    EraseUdts,
    LowerTupleComparisons,
    TupleDecompose,
    ArgPromote,
    PromoteToFixedPoint,
    NormalizeReachableCallArgTypes,
    GcUnreachable,
    EliminateDeadItems(Set<StoreItemId>),
    RebuildExecGraphs(Seq<CallableSpecId>),
    CheckExternalSpecExecGraphs(Seq<CallableSpecId>),
    CheckInvariants(InvariantLevel),
    Finish,
}

/// The mathematical view of what came of an action.
pub enum ReplyV {
    Done,
    Diagnostics(Seq<PassError>),
    Changed(bool),
    Mutated(Seq<CallableSpecId>),
    Removed(nat),
}

impl Action {
    /// The action as a mathematical value.
    pub open spec fn view(&self) -> ActionV {
        match *self {
            Action::ValidateIntrinsicTypes => ActionV::ValidateIntrinsicTypes,
            Action::Monomorphize => ActionV::Monomorphize,
            Action::UnifyReturns => ActionV::UnifyReturns,
            Action::Defunctionalize => ActionV::Defunctionalize,
            Action::EraseUdts => ActionV::EraseUdts,
            Action::LowerTupleComparisons => ActionV::LowerTupleComparisons,
            Action::TupleDecompose => ActionV::TupleDecompose,
            Action::ArgPromote => ActionV::ArgPromote,
            Action::PromoteToFixedPoint => ActionV::PromoteToFixedPoint,
            Action::NormalizeReachableCallArgTypes => ActionV::NormalizeReachableCallArgTypes,
            Action::GcUnreachable => ActionV::GcUnreachable,
            Action::EliminateDeadItems(reachable) => ActionV::EliminateDeadItems(reachable@),
            Action::RebuildExecGraphs(specs) => ActionV::RebuildExecGraphs(specs@),
            Action::CheckExternalSpecExecGraphs(specs) => ActionV::CheckExternalSpecExecGraphs(
                specs@,
            ),
            Action::CheckInvariants(level) => ActionV::CheckInvariants(level),
            Action::Finish => ActionV::Finish,
        }
    }
}

impl Reply {
    /// The reply as a mathematical value.
    pub open spec fn view(&self) -> ReplyV {
        match *self {
            Reply::Done => ReplyV::Done,
            Reply::Diagnostics(ds) => ReplyV::Diagnostics(ds@),
            Reply::Changed(changed) => ReplyV::Changed(changed),
            Reply::Mutated(specs) => ReplyV::Mutated(specs@),
            Reply::Removed(n) => ReplyV::Removed(n as nat),
        }
    }
}

/// A run of the pipeline.
#[derive(Debug)]
pub struct PipelineRun {
    /// The package that is transformed.
    pub package_id: PackageId,
    /// Where to end.
    pub stage: PipelineStage,
    /// Callables to keep through dead code elimination.
    pub pinned_items: Vec<StoreItemId>,
    /// What is to be done next.
    pub step: Step,
    /// How many rounds of the fixed point have changed something.
    pub rounds: usize,
    /// Whether tuple-decompose has changed anything in this round.
    pub decompose_changed: bool,
    /// Whether argument promotion has changed anything in this round.
    pub promote_changed: bool,
    /// The specializations that the erasure of user-defined types has changed in structure.
    pub mutated_specs: Vec<CallableSpecId>,
    /// The assigner that every pass takes its identifiers from, once it is made.
    pub assigner: Option<Assigner>,
    /// What has been reported.
    pub result: PipelineResult,
}

/// The mathematical view of a run.
pub struct RunV {
    pub package: PackageId,
    pub stage: PipelineStage,
    pub pinned: Seq<StoreItemId>,
    pub step: Step,
    pub rounds: nat,
    pub decompose_changed: bool,
    pub promote_changed: bool,
    pub specs: Seq<CallableSpecId>,
    pub assigner: Option<Assigner>,
    pub errors: Seq<PipelineError>,
    pub warnings: Seq<PipelineError>,
}

/// The diagnostics that are warnings, or those that are not, in order.
pub open spec fn select(ds: Seq<PassError>, warnings: bool) -> Seq<PassError>
    decreases ds.len(),
{
    if ds.len() == 0 {
        seq![]
    } else if ds.last().is_warning == warnings {
        select(ds.drop_last(), warnings).push(ds.last())
    } else {
        select(ds.drop_last(), warnings)
    }
}

/// The specializations of callables in other packages, in order.
pub open spec fn external_specs(
    specs: Seq<CallableSpecId>,
    package: PackageId,
) -> Seq<CallableSpecId>
    decreases specs.len(),
{
    if specs.len() == 0 {
        seq![]
    } else if specs.last().callable.package != package {
        external_specs(specs.drop_last(), package).push(specs.last())
    } else {
        external_specs(specs.drop_last(), package)
    }
}

/// The assigner that starts right above everything in the package.
pub open spec fn first_assigner(p: PackageV) -> Assigner {
    Assigner {
        next_expr: choose|n: usize| is_first_free(p.exprs.dom(), n),
        next_stmt: choose|n: usize| is_first_free(p.stmts.dom(), n),
    }
}

/// The step that comes after a step in the fixed order of the schedule.
pub open spec fn following(step: Step) -> Step {
    match step {
        Step::Precheck => Step::Monomorphize,
        Step::Monomorphize => Step::CheckMono,
        Step::CheckMono => Step::UnifyReturns,
        Step::UnifyReturns => Step::CheckReturnUnify,
        Step::CheckReturnUnify => Step::Defunctionalize,
        Step::Defunctionalize => Step::CheckDefunc,
        Step::CheckDefunc => Step::EraseUdts,
        Step::EraseUdts => Step::CheckUdtErase,
        Step::CheckUdtErase => Step::LowerTupleComparisons,
        Step::LowerTupleComparisons => Step::CheckTupleCompLower,
        Step::CheckTupleCompLower => Step::TupleDecompose,
        Step::TupleDecompose => Step::CheckTupleDecompose,
        Step::CheckTupleDecompose => Step::ArgPromote,
        Step::ArgPromote => Step::CheckArgPromote,
        Step::CheckArgPromote => Step::RoundDecompose,
        Step::RoundDecompose => Step::CheckRoundDecompose,
        Step::CheckRoundDecompose => Step::RoundPromote,
        Step::RoundPromote => Step::CheckRoundPromote,
        Step::CheckRoundPromote => Step::NormalizeCallArgTypes,
        Step::NormalizeCallArgTypes => Step::CheckNormalized,
        Step::CheckNormalized => Step::Gc,
        Step::Gc => Step::CheckGc,
        Step::CheckGc => Step::ItemDce,
        Step::ItemDce => Step::GcAfterDce,
        Step::GcAfterDce => Step::CheckItemDce,
        Step::CheckItemDce => Step::RebuildExecGraphs,
        Step::RebuildExecGraphs => Step::CheckExternalSpecs,
        Step::CheckExternalSpecs => Step::CheckAll,
        Step::CheckAll => Step::Finished,
        Step::Finished => Step::Finished,
    }
}

/// The stage that is complete after a step.
pub open spec fn completes(step: Step) -> Option<PipelineStage> {
    match step {
        Step::CheckMono => Some(PipelineStage::Mono),
        Step::CheckReturnUnify => Some(PipelineStage::ReturnUnify),
        Step::CheckDefunc => Some(PipelineStage::Defunc),
        Step::CheckUdtErase => Some(PipelineStage::UdtErase),
        Step::CheckTupleCompLower => Some(PipelineStage::TupleCompLower),
        Step::CheckTupleDecompose => Some(PipelineStage::TupleDecompose),
        Step::CheckArgPromote => Some(PipelineStage::ArgPromote),
        Step::CheckNormalized => Some(PipelineStage::TupleDecompose2),
        Step::CheckGc => Some(PipelineStage::Gc),
        Step::CheckItemDce => Some(PipelineStage::ItemDce),
        Step::CheckExternalSpecs => Some(PipelineStage::ExecGraphRebuild),
        Step::CheckAll => Some(PipelineStage::Full),
        _ => None,
    }
}

/// What is done at each step.
pub open spec fn action_of(store: Map<usize, PackageV>, run: RunV) -> ActionV {
    match run.step {
        Step::Precheck => ActionV::ValidateIntrinsicTypes,
        Step::Monomorphize => ActionV::Monomorphize,
        Step::CheckMono => ActionV::CheckInvariants(InvariantLevel::PostMono),
        Step::UnifyReturns => ActionV::UnifyReturns,
        Step::CheckReturnUnify => ActionV::CheckInvariants(InvariantLevel::PostReturnUnify),
        Step::Defunctionalize => ActionV::Defunctionalize,
        Step::CheckDefunc => ActionV::CheckInvariants(InvariantLevel::PostDefunc),
        Step::EraseUdts => ActionV::EraseUdts,
        Step::CheckUdtErase => ActionV::CheckInvariants(InvariantLevel::PostUdtErase),
        Step::LowerTupleComparisons => ActionV::LowerTupleComparisons,
        Step::CheckTupleCompLower => ActionV::CheckInvariants(InvariantLevel::PostTupleCompLower),
        Step::TupleDecompose => ActionV::TupleDecompose,
        Step::CheckTupleDecompose => ActionV::CheckInvariants(InvariantLevel::PostTupleDecompose),
        Step::ArgPromote => ActionV::ArgPromote,
        Step::CheckArgPromote => ActionV::CheckInvariants(InvariantLevel::PostArgPromote),
        Step::RoundDecompose => ActionV::TupleDecompose,
        Step::CheckRoundDecompose => ActionV::CheckInvariants(InvariantLevel::PostArgPromote),
        Step::RoundPromote => ActionV::PromoteToFixedPoint,
        Step::CheckRoundPromote => ActionV::CheckInvariants(InvariantLevel::PostArgPromote),
        Step::NormalizeCallArgTypes => ActionV::NormalizeReachableCallArgTypes,
        Step::CheckNormalized => ActionV::CheckInvariants(InvariantLevel::PostArgPromote),
        Step::Gc => ActionV::GcUnreachable,
        Step::CheckGc => ActionV::CheckInvariants(InvariantLevel::PostGc),
        Step::ItemDce => ActionV::EliminateDeadItems(
            reachable_set(store, run.package, run.pinned),
        ),
        Step::GcAfterDce => ActionV::GcUnreachable,
        Step::CheckItemDce => ActionV::CheckInvariants(InvariantLevel::PostItemDce),
        Step::RebuildExecGraphs => ActionV::RebuildExecGraphs(
            external_specs(run.specs, run.package),
        ),
        Step::CheckExternalSpecs => ActionV::CheckExternalSpecExecGraphs(
            external_specs(run.specs, run.package),
        ),
        Step::CheckAll => ActionV::CheckInvariants(InvariantLevel::PostAll),
        Step::Finished => ActionV::Finish,
    }
}

/// Whether a reply is of the kind that the action of the step has.
pub open spec fn reply_fits(step: Step, reply: ReplyV) -> bool {
    match step {
        Step::Precheck | Step::UnifyReturns | Step::Defunctionalize => reply is Diagnostics,
        Step::RoundDecompose | Step::RoundPromote => reply is Changed,
        Step::EraseUdts => reply is Mutated,
        Step::ItemDce => reply is Removed,
        _ => reply is Done,
    }
}

/// The run at another step.
pub open spec fn moved(run: RunV, step: Step) -> RunV {
    RunV { step, ..run }
}

/// The run ended by fatal errors.
pub open spec fn failed(run: RunV, errors: Seq<PipelineError>) -> RunV {
    RunV { errors, step: Step::Finished, ..run }
}

/// The run with more warnings.
pub open spec fn warned(run: RunV, warnings: Seq<PipelineError>) -> RunV {
    RunV { warnings: run.warnings + warnings, ..run }
}

/// The run after a pass that reports diagnostics: warnings are kept, and anything else is fatal.
pub open spec fn judged(run: RunV, source: Source, ds: Seq<PassError>) -> RunV {
    let kept = warned(run, all_wrapped(source, select(ds, true)));
    if select(ds, false).len() > 0 {
        failed(kept, all_wrapped(source, select(ds, false)))
    } else {
        moved(kept, following(run.step))
    }
}

/// The run after a round of the fixed point: another round if this one changed anything, unless
/// the cap is reached, which is worth a warning.
pub open spec fn after_round(run: RunV) -> RunV {
    if !run.decompose_changed && !run.promote_changed {
        moved(run, following(run.step))
    } else if run.rounds + 1 >= TUPLE_DECOMPOSE_ARG_PROMOTE_FIXPOINT_CAP {
        RunV {
            rounds: run.rounds + 1,
            ..moved(
                warned(
                    run,
                    seq![
                        PipelineError::TupleDecomposeArgPromoteFixpointNotReached(
                            TUPLE_DECOMPOSE_ARG_PROMOTE_FIXPOINT_CAP,
                        ),
                    ],
                ),
                following(run.step),
            )
        }
    } else {
        RunV { rounds: run.rounds + 1, ..moved(run, Step::RoundDecompose) }
    }
}

/// The run after a step, given what came of it and the store that it left.
pub open spec fn advanced(store: Map<usize, PackageV>, run: RunV, reply: ReplyV) -> RunV {
    if completes(run.step) == Some(run.stage) {
        moved(run, Step::Finished)
    } else {
        match (run.step, reply) {
            (Step::Precheck, ReplyV::Diagnostics(ds)) => if ds.len() > 0 {
                failed(run, all_wrapped(Source::IntrinsicPrecheck, ds))
            } else {
                RunV {
                    assigner: Some(first_assigner(store[run.package.0])),
                    ..moved(run, following(run.step))
                }
            },
            (Step::UnifyReturns, ReplyV::Diagnostics(ds)) => judged(
                run,
                Source::ReturnUnify,
                ds,
            ),
            (Step::Defunctionalize, ReplyV::Diagnostics(ds)) => judged(
                run,
                Source::Defunctionalize,
                ds,
            ),
            (Step::EraseUdts, ReplyV::Mutated(specs)) => RunV {
                specs,
                ..moved(run, following(run.step))
            },
            (Step::RoundDecompose, ReplyV::Changed(changed)) => RunV {
                decompose_changed: changed,
                ..moved(run, following(run.step))
            },
            (Step::RoundPromote, ReplyV::Changed(changed)) => RunV {
                promote_changed: changed,
                ..moved(run, following(run.step))
            },
            (Step::CheckRoundPromote, _) => after_round(run),
            (Step::CheckGc, _) => if pin_errors(store, run.pinned).len() > 0 {
                failed(run, pin_errors(store, run.pinned))
            } else {
                moved(run, following(run.step))
            },
            (Step::ItemDce, ReplyV::Removed(n)) => if n > 0 {
                moved(run, Step::GcAfterDce)
            } else {
                moved(run, Step::CheckItemDce)
            },
            _ => moved(run, following(run.step)),
        }
    }
}

/// The run before anything is done.
pub open spec fn started(
    package: PackageId,
    stage: PipelineStage,
    pinned: Seq<StoreItemId>,
) -> RunV {
    RunV {
        package,
        stage,
        pinned,
        step: Step::Precheck,
        rounds: 0,
        decompose_changed: false,
        promote_changed: false,
        specs: seq![],
        assigner: None,
        errors: seq![],
        warnings: seq![],
    }
}

/// Sorts the diagnostics of a pass into warnings and fatal errors.
fn partition(diagnostics: Vec<PassError>) -> (r: (Vec<PassError>, Vec<PassError>))
    ensures
        r.0@ == select(diagnostics@, true),
        r.1@ == select(diagnostics@, false),
{
    let mut warnings: Vec<PassError> = Vec::new();
    let mut fatal: Vec<PassError> = Vec::new();
    let mut rest = diagnostics;
    let ghost all = rest@;
    let ghost mut n: int = 0;
    while rest.len() > 0
        invariant
            0 <= n <= all.len(),
            rest@ == all.skip(n),
            warnings@ == select(all.take(n), true),
            fatal@ == select(all.take(n), false),
        decreases rest@.len(),
    {
        let e = rest.remove(0);
        proof {
            assert(all.take(n + 1).drop_last() =~= all.take(n));
            n = n + 1;
            assert(rest@ =~= all.skip(n));
        }
        if e.is_warning {
            warnings.push(e);
        } else {
            fatal.push(e);
        }
    }
    assert(all.take(n) =~= all);
    (warnings, fatal)
}

fn external_specs_of(specs: &Vec<CallableSpecId>, package: PackageId) -> (r: Vec<CallableSpecId>)
    ensures
        r@ == external_specs(specs@, package),
{
    let mut r: Vec<CallableSpecId> = Vec::new();
    let mut i: usize = 0;
    while i < specs.len()
        invariant
            i <= specs@.len(),
            r@ == external_specs(specs@.take(i as int), package),
        decreases specs@.len() - i,
    {
        assert(specs@.take(i + 1).drop_last() =~= specs@.take(i as int));
        if specs[i].callable.package != package {
            r.push(specs[i]);
        }
        i = i + 1;
    }
    assert(specs@.take(i as int) =~= specs@);
    r
}

fn following_step(step: Step) -> (r: Step)
    ensures
        r == following(step),
{
    match step {
        Step::Precheck => Step::Monomorphize,
        Step::Monomorphize => Step::CheckMono,
        Step::CheckMono => Step::UnifyReturns,
        Step::UnifyReturns => Step::CheckReturnUnify,
        Step::CheckReturnUnify => Step::Defunctionalize,
        Step::Defunctionalize => Step::CheckDefunc,
        Step::CheckDefunc => Step::EraseUdts,
        Step::EraseUdts => Step::CheckUdtErase,
        Step::CheckUdtErase => Step::LowerTupleComparisons,
        Step::LowerTupleComparisons => Step::CheckTupleCompLower,
        Step::CheckTupleCompLower => Step::TupleDecompose,
        Step::TupleDecompose => Step::CheckTupleDecompose,
        Step::CheckTupleDecompose => Step::ArgPromote,
        Step::ArgPromote => Step::CheckArgPromote,
        Step::CheckArgPromote => Step::RoundDecompose,
        Step::RoundDecompose => Step::CheckRoundDecompose,
        Step::CheckRoundDecompose => Step::RoundPromote,
        Step::RoundPromote => Step::CheckRoundPromote,
        Step::CheckRoundPromote => Step::NormalizeCallArgTypes,
        Step::NormalizeCallArgTypes => Step::CheckNormalized,
        Step::CheckNormalized => Step::Gc,
        Step::Gc => Step::CheckGc,
        Step::CheckGc => Step::ItemDce,
        Step::ItemDce => Step::GcAfterDce,
        Step::GcAfterDce => Step::CheckItemDce,
        Step::CheckItemDce => Step::RebuildExecGraphs,
        Step::RebuildExecGraphs => Step::CheckExternalSpecs,
        Step::CheckExternalSpecs => Step::CheckAll,
        Step::CheckAll => Step::Finished,
        Step::Finished => Step::Finished,
    }
}

fn completed_stage(step: Step) -> (r: Option<PipelineStage>)
    ensures
        r == completes(step),
{
    match step {
        Step::CheckMono => Some(PipelineStage::Mono),
        Step::CheckReturnUnify => Some(PipelineStage::ReturnUnify),
        Step::CheckDefunc => Some(PipelineStage::Defunc),
        Step::CheckUdtErase => Some(PipelineStage::UdtErase),
        Step::CheckTupleCompLower => Some(PipelineStage::TupleCompLower),
        Step::CheckTupleDecompose => Some(PipelineStage::TupleDecompose),
        Step::CheckArgPromote => Some(PipelineStage::ArgPromote),
        Step::CheckNormalized => Some(PipelineStage::TupleDecompose2),
        Step::CheckGc => Some(PipelineStage::Gc),
        Step::CheckItemDce => Some(PipelineStage::ItemDce),
        Step::CheckExternalSpecs => Some(PipelineStage::ExecGraphRebuild),
        Step::CheckAll => Some(PipelineStage::Full),
        _ => None,
    }
}

proof fn lemma_first_free_unique(keys: Set<usize>, m: usize, n: usize)
    requires
        is_first_free(keys, m),
        is_first_free(keys, n),
    ensures
        m == n,
{
    if m < n {
        assert(keys.contains((n - 1) as usize));
    }
    if n < m {
        assert(keys.contains((m - 1) as usize));
    }
}

impl PipelineRun {
    /// The run as a mathematical value.
    pub open spec fn view(&self) -> RunV {
        RunV {
            package: self.package_id,
            stage: self.stage,
            pinned: self.pinned_items@,
            step: self.step,
            rounds: self.rounds as nat,
            decompose_changed: self.decompose_changed,
            promote_changed: self.promote_changed,
            specs: self.mutated_specs@,
            assigner: self.assigner,
            errors: self.result.errors@,
            warnings: self.result.warnings@,
        }
    }

    /// What is to be done next.
    pub fn action(&self, store: &PackageStore) -> (r: Action)
        requires
            self.step == Step::ItemDce ==> reach_ok(
                store@,
                self.package_id,
                self.pinned_items@,
            ),
        ensures
            r@ == action_of(store@, self@),
    {
        match self.step {
            Step::Precheck => Action::ValidateIntrinsicTypes,
            Step::Monomorphize => Action::Monomorphize,
            Step::CheckMono => Action::CheckInvariants(InvariantLevel::PostMono),
            Step::UnifyReturns => Action::UnifyReturns,
            Step::CheckReturnUnify => Action::CheckInvariants(InvariantLevel::PostReturnUnify),
            Step::Defunctionalize => Action::Defunctionalize,
            Step::CheckDefunc => Action::CheckInvariants(InvariantLevel::PostDefunc),
            Step::EraseUdts => Action::EraseUdts,
            Step::CheckUdtErase => Action::CheckInvariants(InvariantLevel::PostUdtErase),
            Step::LowerTupleComparisons => Action::LowerTupleComparisons,
            Step::CheckTupleCompLower => Action::CheckInvariants(
                InvariantLevel::PostTupleCompLower,
            ),
            Step::TupleDecompose => Action::TupleDecompose,
            Step::CheckTupleDecompose => Action::CheckInvariants(
                InvariantLevel::PostTupleDecompose,
            ),
            Step::ArgPromote => Action::ArgPromote,
            Step::CheckArgPromote => Action::CheckInvariants(InvariantLevel::PostArgPromote),
            Step::RoundDecompose => Action::TupleDecompose,
            Step::CheckRoundDecompose => Action::CheckInvariants(InvariantLevel::PostArgPromote),
            Step::RoundPromote => Action::PromoteToFixedPoint,
            Step::CheckRoundPromote => Action::CheckInvariants(InvariantLevel::PostArgPromote),
            Step::NormalizeCallArgTypes => Action::NormalizeReachableCallArgTypes,
            Step::CheckNormalized => Action::CheckInvariants(InvariantLevel::PostArgPromote),
            Step::Gc => Action::GcUnreachable,
            Step::CheckGc => Action::CheckInvariants(InvariantLevel::PostGc),
            Step::ItemDce => Action::EliminateDeadItems(
                items_to_keep(store, self.package_id, &self.pinned_items),
            ),
            Step::GcAfterDce => Action::GcUnreachable,
            Step::CheckItemDce => Action::CheckInvariants(InvariantLevel::PostItemDce),
            Step::RebuildExecGraphs => Action::RebuildExecGraphs(
                external_specs_of(&self.mutated_specs, self.package_id),
            ),
            Step::CheckExternalSpecs => Action::CheckExternalSpecExecGraphs(
                external_specs_of(&self.mutated_specs, self.package_id),
            ),
            Step::CheckAll => Action::CheckInvariants(InvariantLevel::PostAll),
            Step::Finished => Action::Finish,
        }
    }

    /// Keeps the warnings of a pass, and ends the run if there is anything else.
    fn judge(&mut self, source: Source, diagnostics: Vec<PassError>)
        requires
            old(self).result.errors@.len() == 0,
        ensures
            final(self)@ == judged(old(self)@, source, diagnostics@),
    {
        let (warnings, fatal) = partition(diagnostics);
        extend_wrapped(&mut self.result.warnings, source, warnings);
        if fatal.len() > 0 {
            let ghost all = fatal@;
            extend_wrapped(&mut self.result.errors, source, fatal);
            assert(self.result.errors@ =~= all_wrapped(source, all));
            self.step = Step::Finished;
        } else {
            self.step = following_step(self.step);
        }
    }

    /// Decides whether the fixed point takes another round.
    fn finish_round(&mut self)
        requires
            old(self).rounds < TUPLE_DECOMPOSE_ARG_PROMOTE_FIXPOINT_CAP,
        ensures
            final(self)@ == after_round(old(self)@),
    {
        if !self.decompose_changed && !self.promote_changed {
            self.step = following_step(self.step);
            return ;
        }
        self.rounds = self.rounds + 1;
        if self.rounds >= TUPLE_DECOMPOSE_ARG_PROMOTE_FIXPOINT_CAP {
            let ghost before = self.result.warnings@;
            let warning = PipelineError::TupleDecomposeArgPromoteFixpointNotReached(
                TUPLE_DECOMPOSE_ARG_PROMOTE_FIXPOINT_CAP,
            );
            self.result.warnings.push(warning);
            assert(self.result.warnings@ =~= before + seq![warning]);
            self.step = following_step(self.step);
        } else {
            self.step = Step::RoundDecompose;
        }
    }

    /// Takes what came of the action, with the store as the action left it.
    pub fn resume(&mut self, store: &PackageStore, reply: Reply)
        requires
            is_running(old(self)@),
            reply_fits(old(self).step, reply@),
            store@.contains_key(old(self).package_id.0),
        ensures
            final(self)@ == advanced(store@, old(self)@, reply@),
            final(self).step != Step::Finished ==> is_running(final(self)@),
    {
        if completed_stage(self.step) == Some(self.stage) {
            self.step = Step::Finished;
            return ;
        }
        match (self.step, reply) {
            (Step::Precheck, Reply::Diagnostics(diagnostics)) => {
                match perform_intrinsic_type_validation(diagnostics) {
                    Some(result) => {
                        self.result.errors = result.errors;
                        self.step = Step::Finished;
                    },
                    None => {
                        let assigner = Assigner::from_package(store.get(self.package_id));
                        proof {
                            let p = store@[self.package_id.0];
                            let first = first_assigner(p);
                            lemma_first_free_unique(
                                p.exprs.dom(),
                                assigner.next_expr,
                                first.next_expr,
                            );
                            lemma_first_free_unique(
                                p.stmts.dom(),
                                assigner.next_stmt,
                                first.next_stmt,
                            );
                        }
                        self.assigner = Some(assigner);
                        self.step = following_step(self.step);
                    },
                }
            },
            (Step::UnifyReturns, Reply::Diagnostics(diagnostics)) => {
                self.judge(Source::ReturnUnify, diagnostics);
            },
            (Step::Defunctionalize, Reply::Diagnostics(diagnostics)) => {
                self.judge(Source::Defunctionalize, diagnostics);
            },
            (Step::EraseUdts, Reply::Mutated(specs)) => {
                self.mutated_specs = specs;
                self.step = following_step(self.step);
            },
            (Step::RoundDecompose, Reply::Changed(changed)) => {
                self.decompose_changed = changed;
                self.step = following_step(self.step);
            },
            (Step::RoundPromote, Reply::Changed(changed)) => {
                self.promote_changed = changed;
                self.step = following_step(self.step);
            },
            (Step::CheckRoundPromote, _) => {
                self.finish_round();
            },
            (Step::CheckGc, _) => {
                let errors = validate_pinned_items(store, &self.pinned_items);
                if errors.len() > 0 {
                    self.result.errors = errors;
                    self.step = Step::Finished;
                } else {
                    self.step = following_step(self.step);
                }
            },
            (Step::ItemDce, Reply::Removed(removed)) => {
                self.step = if removed > 0 {
                    Step::GcAfterDce
                } else {
                    Step::CheckItemDce
                };
            },
            _ => {
                self.step = following_step(self.step);
            },
        }
    }
}

/// Whether a run is under way: nothing fatal has been reported, the requested stage is not behind
/// it, and the fixed point is below its cap.
pub open spec fn is_running(run: RunV) -> bool {
    &&& run.step != Step::Finished
    &&& run.errors.len() == 0
    &&& position(run.step) <= position(last_step(run.stage))
    &&& !after_rounds(run.step) ==> run.rounds < TUPLE_DECOMPOSE_ARG_PROMOTE_FIXPOINT_CAP
    &&& run.rounds <= TUPLE_DECOMPOSE_ARG_PROMOTE_FIXPOINT_CAP
}

/// The step that completes a stage.
pub open spec fn last_step(stage: PipelineStage) -> Step {
    match stage {
        PipelineStage::Mono => Step::CheckMono,
        PipelineStage::ReturnUnify => Step::CheckReturnUnify,
        PipelineStage::Defunc => Step::CheckDefunc,
        PipelineStage::UdtErase => Step::CheckUdtErase,
        PipelineStage::TupleCompLower => Step::CheckTupleCompLower,
        PipelineStage::TupleDecompose => Step::CheckTupleDecompose,
        PipelineStage::ArgPromote => Step::CheckArgPromote,
        PipelineStage::TupleDecompose2 => Step::CheckNormalized,
        PipelineStage::Gc => Step::CheckGc,
        PipelineStage::ItemDce => Step::CheckItemDce,
        PipelineStage::ExecGraphRebuild => Step::CheckExternalSpecs,
        PipelineStage::Full => Step::CheckAll,
    }
}

/// Where a step stands in the fixed order of the schedule.
pub open spec fn position(step: Step) -> nat {
    match step {
        Step::Precheck => 0,
        Step::Monomorphize => 1,
        Step::CheckMono => 2,
        Step::UnifyReturns => 3,
        Step::CheckReturnUnify => 4,
        Step::Defunctionalize => 5,
        Step::CheckDefunc => 6,
        Step::EraseUdts => 7,
        Step::CheckUdtErase => 8,
        Step::LowerTupleComparisons => 9,
        Step::CheckTupleCompLower => 10,
        Step::TupleDecompose => 11,
        Step::CheckTupleDecompose => 12,
        Step::ArgPromote => 13,
        Step::CheckArgPromote => 14,
        Step::RoundDecompose => 15,
        Step::CheckRoundDecompose => 16,
        Step::RoundPromote => 17,
        Step::CheckRoundPromote => 18,
        Step::NormalizeCallArgTypes => 19,
        Step::CheckNormalized => 20,
        Step::Gc => 21,
        Step::CheckGc => 22,
        Step::ItemDce => 23,
        Step::GcAfterDce => 24,
        Step::CheckItemDce => 25,
        Step::RebuildExecGraphs => 26,
        Step::CheckExternalSpecs => 27,
        Step::CheckAll => 28,
        Step::Finished => 29,
    }
}

/// Whether a step comes after the fixed point.
pub open spec fn after_rounds(step: Step) -> bool {
    position(step) > position(Step::CheckRoundPromote)
}

/// What dead code elimination keeps: what the entry expression and the pinned items reach.
fn items_to_keep(
    store: &PackageStore,
    package_id: PackageId,
    pinned_items: &Vec<StoreItemId>,
) -> (r: ItemSet)
    requires
        reach_ok(store@, package_id, pinned_items@),
    ensures
        r@ == reachable_set(store@, package_id, pinned_items@),
{
    if pinned_items.len() == 0 {
        assert(pinned_items@ =~= Seq::empty());
        collect_reachable_from_entry(store, package_id)
    } else {
        collect_reachable_with_seeds(store, package_id, pinned_items)
    }
}

/// Starts a run up to the requested stage.
pub fn run_pipeline_to_with_diagnostics(
    store: &PackageStore,
    package_id: PackageId,
    stage: PipelineStage,
    pinned_items: Vec<StoreItemId>,
) -> (r: PipelineRun)
    requires
        store@.contains_key(package_id.0),
        store@[package_id.0].entry is Some,
    ensures
        r@ == started(package_id, stage, pinned_items@),
        is_running(r@),
{
    PipelineRun {
        package_id,
        stage,
        pinned_items,
        step: Step::Precheck,
        rounds: 0,
        decompose_changed: false,
        promote_changed: false,
        mutated_specs: Vec::new(),
        assigner: None,
        result: PipelineResult::default(),
    }
}

/// Starts a run of the full pipeline, without pinned items.
pub fn run_pipeline_with_diagnostics(store: &PackageStore, package_id: PackageId) -> (r:
    PipelineRun)
    requires
        store@.contains_key(package_id.0),
        store@[package_id.0].entry is Some,
    ensures
        r@ == started(package_id, PipelineStage::Full, Seq::empty()),
        is_running(r@),
{
    run_pipeline_to_with_diagnostics(store, package_id, PipelineStage::Full, Vec::new())
}

} // verus!
