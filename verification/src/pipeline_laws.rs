//! What holds of every run of the pipeline.

use vstd::prelude::*;

use crate::assigner::{is_first_free, Assigner};
use crate::fir::{Package, PackageId, PackageV, StoreItemId};
use crate::pipeline::{
    action_of, advanced, after_rounds, completes, external_specs, is_running, last_step, pin_error,
    pin_errors, position, reply_fits, select, started, Action, ActionV, CallableSpecId,
    InvariantLevel, PassError, PipelineError, PipelineRun, PipelineStage, Reply, ReplyV, RunV, Step,
    TUPLE_DECOMPOSE_ARG_PROMOTE_FIXPOINT_CAP,
};
use crate::reachability::{
    is_root, item_uses, lemma_reachable_least, lemma_root_reachable, lemma_seeds_only_add,
    lemma_step_reachable, reachable_set,
};

verus! {

/// How many steps a run can take at most until it ends.
pub open spec fn steps_left(run: RunV) -> nat {
    (position(Step::Finished) - position(run.step) + if after_rounds(run.step) {
        0
    } else {
        4 * (TUPLE_DECOMPOSE_ARG_PROMOTE_FIXPOINT_CAP - run.rounds)
    }) as nat
}

/// Every step brings a run closer to its end, and a run that goes on stays well formed. A fatal
/// error ends it.
pub proof fn lemma_progress(store: Map<usize, PackageV>, run: RunV, reply: ReplyV)
    requires
        is_running(run),
        reply_fits(run.step, reply),
    ensures
        steps_left(advanced(store, run, reply)) < steps_left(run),
        advanced(store, run, reply).step != Step::Finished ==> is_running(
            advanced(store, run, reply),
        ),
        advanced(store, run, reply).errors.len() > 0 ==> advanced(store, run, reply).step
            == Step::Finished,
{
}

/// A run ends with a fatal error, or with the step that completes the requested stage.
pub proof fn lemma_end(store: Map<usize, PackageV>, run: RunV, reply: ReplyV)
    requires
        is_running(run),
        reply_fits(run.step, reply),
        advanced(store, run, reply).step == Step::Finished,
    ensures
        advanced(store, run, reply).errors.len() == 0 <==> run.step == last_step(run.stage),
{
}

/// Only four steps end a run with fatal errors: rejected intrinsics, return unification,
/// defunctionalization, and pinned items that are not callables that exist.
pub proof fn lemma_fatal_exits(store: Map<usize, PackageV>, run: RunV, reply: ReplyV)
    requires
        is_running(run),
        reply_fits(run.step, reply),
        advanced(store, run, reply).errors.len() > 0,
    ensures
        match run.step {
            Step::Precheck => reply matches ReplyV::Diagnostics(ds) && ds.len() > 0,
            Step::UnifyReturns | Step::Defunctionalize => reply matches ReplyV::Diagnostics(ds)
                && select(ds, false).len() > 0,
            Step::CheckGc => pin_errors(store, run.pinned).len() > 0,
            _ => false,
        },
{
}

/// Whether an action only checks the store.
pub open spec fn is_check(action: ActionV) -> bool {
    match action {
        ActionV::CheckInvariants(_) | ActionV::CheckExternalSpecExecGraphs(_) => true,
        _ => false,
    }
}

/// Whatever rewrites the store is followed by a check, unless it ends the run; only the garbage
/// that the removal of items leaves is collected first.
pub proof fn lemma_every_rewrite_is_checked(
    store: Map<usize, PackageV>,
    run: RunV,
    reply: ReplyV,
)
    requires
        is_running(run),
        reply_fits(run.step, reply),
    ensures
        ({
            let next = advanced(store, run, reply);
            ||| is_check(action_of(store, run))
            ||| is_check(action_of(store, next))
            ||| run.step == Step::Precheck
            ||| run.step == Step::ItemDce && next.step == Step::GcAfterDce
            ||| next.step == Step::Finished && next.errors.len() > 0
        }),
{
}

/// Items are removed only after every pinned item has been found to be a callable that exists.
pub proof fn lemma_pins_come_first(store: Map<usize, PackageV>, run: RunV, reply: ReplyV)
    requires
        is_running(run),
        reply_fits(run.step, reply),
        advanced(store, run, reply).step == Step::ItemDce,
    ensures
        run.step == Step::CheckGc,
        pin_errors(store, run.pinned).len() == 0,
{
}

/// No warning is lost: what was reported stays, in front of what is added.
pub proof fn lemma_warnings_kept(store: Map<usize, PackageV>, run: RunV, reply: ReplyV)
    ensures
        run.warnings.is_prefix_of(advanced(store, run, reply).warnings),
{
}

/// One assigner serves the whole run: it is made once, after the first step, and no later step
/// replaces it.
pub proof fn lemma_one_assigner(store: Map<usize, PackageV>, run: RunV, reply: ReplyV)
    requires
        run.step != Step::Precheck,
    ensures
        advanced(store, run, reply).assigner == run.assigner,
{
}

/// The requested stage decides nothing but where a run ends: up to there, runs to different
/// stages do the same.
pub proof fn lemma_stage_only_ends(
    store: Map<usize, PackageV>,
    run: RunV,
    other: PipelineStage,
    reply: ReplyV,
)
    requires
        completes(run.step) != Some(run.stage),
        completes(run.step) != Some(other),
    ensures
        advanced(store, RunV { stage: other, ..run }, reply) == (RunV {
            stage: other,
            ..advanced(store, run, reply)
        }),
        action_of(store, RunV { stage: other, ..run }) == action_of(store, run),
{
}

/// The fixed point ends with a warning exactly if its last round within the cap still changed
/// something.
pub proof fn lemma_cap_warning(store: Map<usize, PackageV>, run: RunV, reply: ReplyV)
    requires
        is_running(run),
        run.step == Step::CheckRoundPromote,
    ensures
        ({
            let changed = run.decompose_changed || run.promote_changed;
            let last = run.rounds + 1 == TUPLE_DECOMPOSE_ARG_PROMOTE_FIXPOINT_CAP;
            let warning = PipelineError::TupleDecomposeArgPromoteFixpointNotReached(
                TUPLE_DECOMPOSE_ARG_PROMOTE_FIXPOINT_CAP,
            );
            let next = advanced(store, run, reply);
            &&& next.warnings == if changed && last {
                run.warnings.push(warning)
            } else {
                run.warnings
            }
            &&& next.step == if changed && !last {
                Step::RoundDecompose
            } else {
                Step::NormalizeCallArgTypes
            }
        }),
{
    let warning = PipelineError::TupleDecomposeArgPromoteFixpointNotReached(
        TUPLE_DECOMPOSE_ARG_PROMOTE_FIXPOINT_CAP,
    );
    assert(run.warnings + seq![warning] =~= run.warnings.push(warning));
}

/// What happens in one step: the action is performed, which leaves the store and the assigner in
/// some state and gives a reply.
pub struct Event {
    pub store: Map<usize, PackageV>,
    pub assigner: Option<Assigner>,
    pub reply: ReplyV,
}

/// The run after some events. What comes after the end is passed over.
pub open spec fn run_through(run: RunV, events: Seq<Event>) -> RunV
    decreases events.len(),
{
    if events.len() == 0 {
        run
    } else {
        let before = run_through(run, events.drop_last());
        if before.step == Step::Finished {
            before
        } else {
            advanced(
                events.last().store,
                RunV { assigner: events.last().assigner, ..before },
                events.last().reply,
            )
        }
    }
}

/// Whether every reply is of the kind that its step asks for.
pub open spec fn events_fit(run: RunV, events: Seq<Event>) -> bool {
    forall|i: int|
        0 <= i < events.len() ==> reply_fits(
            run_through(run, #[trigger] events.take(i)).step,
            events[i].reply,
        ) || run_through(run, events.take(i)).step == Step::Finished
}

proof fn lemma_steps_taken(run: RunV, events: Seq<Event>)
    requires
        is_running(run),
        events_fit(run, events),
    ensures
        ({
            let last = run_through(run, events);
            &&& last.step != Step::Finished ==> is_running(last) && steps_left(last)
                + events.len() <= steps_left(run)
            &&& last.stage == run.stage
            &&& last.step == Step::Finished && last.errors.len() == 0 ==> exists|i: int|
                0 <= i < events.len() && (#[trigger] run_through(run, events.take(i))).step
                    == last_step(run.stage)
        }),
    decreases events.len(),
{
    if events.len() > 0 {
        let rest = events.drop_last();
        assert(events.take(events.len() - 1) =~= rest);
        assert forall|i: int| 0 <= i < rest.len() implies reply_fits(
            run_through(run, #[trigger] rest.take(i)).step,
            rest[i].reply,
        ) || run_through(run, rest.take(i)).step == Step::Finished by {
            assert(rest.take(i) =~= events.take(i));
        }
        lemma_steps_taken(run, rest);
        let before = run_through(run, rest);
        if before.step == Step::Finished {
            if before.errors.len() == 0 {
                let i = choose|i: int|
                    0 <= i < rest.len() && (#[trigger] run_through(run, rest.take(i))).step
                        == last_step(run.stage);
                assert(rest.take(i) =~= events.take(i));
            }
        } else {
            let e = events.last();
            let now = RunV { assigner: e.assigner, ..before };
            assert(reply_fits(
                run_through(run, events.take(events.len() - 1)).step,
                events[events.len() - 1].reply,
            ));
            lemma_progress(e.store, now, e.reply);
            if advanced(e.store, now, e.reply).step == Step::Finished {
                lemma_end(e.store, now, e.reply);
            }
        }
    }
}

/// Every run ends, after a number of steps that does not depend on the program, and if it ends
/// without a fatal error, it has come to the step that completes the requested stage.
pub proof fn lemma_run_ends(
    package: PackageId,
    stage: PipelineStage,
    pinned: Seq<StoreItemId>,
    events: Seq<Event>,
)
    requires
        events_fit(started(package, stage, pinned), events),
        events.len() >= 29 + 4 * TUPLE_DECOMPOSE_ARG_PROMOTE_FIXPOINT_CAP,
    ensures
        ({
            let run = started(package, stage, pinned);
            let last = run_through(run, events);
            &&& last.step == Step::Finished
            &&& last.errors.len() == 0 ==> exists|i: int|
                0 <= i < events.len() && (#[trigger] run_through(run, events.take(i))).step
                    == last_step(stage)
        }),
{
    lemma_steps_taken(started(package, stage, pinned), events);
}

/// There is nothing wrong with the pinned items exactly if each of them is a callable that exists.
pub proof fn lemma_pins(store: Map<usize, PackageV>, pinned: Seq<StoreItemId>)
    ensures
        pin_errors(store, pinned).len() == 0 <==> (forall|i: int|
            0 <= i < pinned.len() ==> pin_error(store, #[trigger] pinned[i]) is None),
    decreases pinned.len(),
{
    if pinned.len() > 0 {
        let rest = pinned.drop_last();
        lemma_pins(store, rest);
        assert(pinned[pinned.len() - 1] == pinned.last());
        if forall|i: int| 0 <= i < pinned.len() ==> pin_error(store, #[trigger] pinned[i]) is None {
            assert forall|i: int| 0 <= i < rest.len() implies pin_error(
                store,
                #[trigger] rest[i],
            ) is None by {
                assert(pin_error(store, pinned[i]) is None);
            }
        }
        if pin_errors(store, pinned).len() == 0 {
            assert forall|i: int| 0 <= i < pinned.len() implies pin_error(
                store,
                #[trigger] pinned[i],
            ) is None by {
                if i < rest.len() {
                    assert(pin_error(store, rest[i]) is None);
                }
            }
        }
    }
}

/// Dead code elimination keeps the pinned items and whatever they use in turn.
pub proof fn lemma_pins_are_kept(
    store: Map<usize, PackageV>,
    package: PackageId,
    pinned: Seq<StoreItemId>,
)
    requires
        pin_errors(store, pinned).len() == 0,
    ensures
        forall|i: int|
            0 <= i < pinned.len() ==> reachable_set(store, package, pinned).contains(
                #[trigger] pinned[i],
            ),
        forall|user: StoreItemId, id: StoreItemId|
            reachable_set(store, package, pinned).contains(user) && #[trigger] item_uses(
                store,
                user,
                id,
            ) ==> reachable_set(store, package, pinned).contains(id),
{
    lemma_pins(store, pinned);
    assert forall|i: int| 0 <= i < pinned.len() implies reachable_set(
        store,
        package,
        pinned,
    ).contains(#[trigger] pinned[i]) by {
        assert(pin_error(store, pinned[i]) is None);
        assert(pinned.contains(pinned[i]));
        assert(is_root(store, package, pinned, pinned[i]));
        lemma_root_reachable(store, package, pinned, pinned[i]);
    }
    assert forall|user: StoreItemId, id: StoreItemId|
        reachable_set(store, package, pinned).contains(user) && #[trigger] item_uses(
            store,
            user,
            id,
        ) implies reachable_set(store, package, pinned).contains(id) by {
        lemma_step_reachable(store, package, pinned, user, id);
    }
}

proof fn lemma_run_through_one(run: RunV, events: Seq<Event>, n: int)
    requires
        0 <= n < events.len(),
    ensures
        run_through(run, events.take(n + 1)) == ({
            let before = run_through(run, events.take(n));
            if before.step == Step::Finished {
                before
            } else {
                advanced(
                    events[n].store,
                    RunV { assigner: events[n].assigner, ..before },
                    events[n].reply,
                )
            }
        }),
{
    assert(events.take(n + 1).drop_last() =~= events.take(n));
}

/// A round of the fixed point: tuple-decompose and argument promotion each say whether they
/// changed anything, and each is checked. If either did and this is not the last round within the
/// cap, the run comes back for another round, without a warning. If neither did, the fixed point is
/// left without a warning. If either did in the last round within the cap, it is left with one.
pub proof fn lemma_round(run: RunV, events: Seq<Event>, decomposed: bool, promoted: bool)
    requires
        is_running(run),
        run.step == Step::RoundDecompose,
        events.len() == 4,
        events[0].reply == ReplyV::Changed(decomposed),
        events[1].reply == ReplyV::Done,
        events[2].reply == ReplyV::Changed(promoted),
        events[3].reply == ReplyV::Done,
    ensures
        ({
            let after = run_through(run, events);
            let warning = PipelineError::TupleDecomposeArgPromoteFixpointNotReached(64);
            &&& after.step == Step::RoundDecompose <==> (decomposed || promoted) && run.rounds + 1
                < 64
            &&& after.step == Step::NormalizeCallArgTypes <==> !(decomposed || promoted)
                || run.rounds + 1 >= 64
            &&& after.rounds == run.rounds + if decomposed || promoted {
                1int
            } else {
                0
            }
            &&& after.warnings == if (decomposed || promoted) && run.rounds + 1 >= 64 {
                run.warnings.push(warning)
            } else {
                run.warnings
            }
            &&& after.errors == run.errors
            &&& action_of(events[0].store, run) == ActionV::TupleDecompose
            &&& action_of(events[1].store, run_through(run, events.take(1)))
                == ActionV::CheckInvariants(InvariantLevel::PostArgPromote)
            &&& action_of(events[2].store, run_through(run, events.take(2)))
                == ActionV::PromoteToFixedPoint
            &&& action_of(events[3].store, run_through(run, events.take(3)))
                == ActionV::CheckInvariants(InvariantLevel::PostArgPromote)
            &&& after.step == Step::RoundDecompose ==> action_of(events[3].store, after)
                == ActionV::TupleDecompose
        }),
{
    assert(events.take(0) =~= seq![]);
    assert(run_through(run, events.take(0)) == run);
    lemma_run_through_one(run, events, 0);
    lemma_run_through_one(run, events, 1);
    lemma_run_through_one(run, events, 2);
    lemma_run_through_one(run, events, 3);
    assert(events.take(4) =~= events);
    let warning = PipelineError::TupleDecomposeArgPromoteFixpointNotReached(64);
    assert(run.warnings + seq![warning] =~= run.warnings.push(warning));
}

/// After items have been removed, garbage is collected before the check; where none was removed,
/// the check comes at once.
pub proof fn lemma_garbage_after_removal(store: Map<usize, PackageV>, run: RunV, removed: nat)
    requires
        is_running(run),
        run.step == Step::ItemDce,
    ensures
        ({
            let next = advanced(store, run, ReplyV::Removed(removed));
            &&& removed != 0 ==> action_of(store, next) == ActionV::GcUnreachable
            &&& removed == 0 ==> action_of(store, next) == ActionV::CheckInvariants(
                InvariantLevel::PostItemDce,
            )
            &&& removed != 0 ==> forall|after: Map<usize, PackageV>| #[trigger]
                action_of(after, advanced(after, next, ReplyV::Done)) == ActionV::CheckInvariants(
                    InvariantLevel::PostItemDce,
                )
        }),
{
}

/// The specializations in other packages are the given ones, whatever their kind, without those of
/// the package, in order.
pub proof fn lemma_external_specs(specs: Seq<CallableSpecId>, package: PackageId)
    ensures
        external_specs(specs, package) == specs.filter(
            |spec: CallableSpecId| spec.callable.package != package,
        ),
        forall|spec: CallableSpecId| #[trigger]
            external_specs(specs, package).contains(spec) <==> specs.contains(spec)
                && spec.callable.package != package,
    decreases specs.len(),
{
    let kept = |spec: CallableSpecId| spec.callable.package != package;
    reveal(Seq::filter);
    if specs.len() > 0 {
        let rest = specs.drop_last();
        lemma_external_specs(rest, package);
        let before = external_specs(rest, package);
        let all = external_specs(specs, package);
        assert(rest.filter(kept) =~= rest.filter(
            |spec: CallableSpecId| spec.callable.package != package,
        ));
        assert(specs.filter(kept) =~= specs.filter(
            |spec: CallableSpecId| spec.callable.package != package,
        ));
        assert forall|spec: CallableSpecId| #[trigger]
            all.contains(spec) <==> specs.contains(spec) && spec.callable.package != package by {
            assert(before.contains(spec) <==> rest.contains(spec) && spec.callable.package
                != package);
            if rest.contains(spec) {
                assert(specs[rest.index_of(spec)] == spec);
            }
            if before.contains(spec) {
                assert(all[before.index_of(spec)] == spec);
            }
            if specs.contains(spec) && spec != specs.last() {
                assert(rest[specs.index_of(spec)] == spec);
            }
            if all.contains(spec) && spec != specs.last() {
                assert(before[all.index_of(spec)] == spec);
            }
            if specs.last().callable.package != package {
                assert(all[all.len() - 1] == specs.last());
            }
            assert(specs[specs.len() - 1] == specs.last());
        }
    } else {
        assert(external_specs(specs, package) =~= specs.filter(
            |spec: CallableSpecId| spec.callable.package != package,
        ));
    }
}

/// What stays as it is from the erasure of user-defined types on.
proof fn lemma_specs_kept(run: RunV, events: Seq<Event>)
    requires
        position(run.step) > position(Step::EraseUdts),
    ensures
        ({
            let last = run_through(run, events);
            &&& position(last.step) > position(Step::EraseUdts)
            &&& last.specs == run.specs
            &&& last.package == run.package
            &&& last.pinned == run.pinned
            &&& last.stage == run.stage
        }),
    decreases events.len(),
{
    if events.len() > 0 {
        lemma_specs_kept(run, events.drop_last());
    }
}

/// The specializations that the erasure of user-defined types has changed in other packages are
/// the ones whose execution graphs are rebuilt and then checked: all of them, whatever their kind,
/// and no others.
pub proof fn lemma_changed_specs_are_rebuilt(
    run: RunV,
    specs: Seq<CallableSpecId>,
    events: Seq<Event>,
    store: Map<usize, PackageV>,
)
    requires
        is_running(run),
        run.step == Step::EraseUdts,
        events.len() > 0,
        events[0].reply == ReplyV::Mutated(specs),
    ensures
        ({
            let last = run_through(run, events);
            let external = specs.filter(
                |spec: CallableSpecId| spec.callable.package != run.package,
            );
            &&& last.step == Step::RebuildExecGraphs ==> action_of(store, last)
                == ActionV::RebuildExecGraphs(external)
            &&& last.step == Step::CheckExternalSpecs ==> action_of(store, last)
                == ActionV::CheckExternalSpecExecGraphs(external)
            &&& forall|spec: CallableSpecId| #[trigger]
                external.contains(spec) <==> specs.contains(spec) && spec.callable.package
                    != run.package
        }),
{
    let first = run_through(run, events.take(1));
    assert(events.take(0) =~= seq![]);
    assert(run_through(run, events.take(0)) == run);
    lemma_run_through_one(run, events, 0);
    lemma_run_concat(run, events.take(1), events.skip(1));
    assert(events.take(1) + events.skip(1) =~= events);
    lemma_specs_kept(first, events.skip(1));
    lemma_external_specs(specs, run.package);
}

proof fn lemma_run_concat(run: RunV, x: Seq<Event>, y: Seq<Event>)
    ensures
        run_through(run, x + y) == run_through(run_through(run, x), y),
    decreases y.len(),
{
    if y.len() == 0 {
        assert(x + y =~= x);
    } else {
        assert((x + y).drop_last() =~= x + y.drop_last());
        lemma_run_concat(run, x, y.drop_last());
    }
}

proof fn lemma_select(ds: Seq<PassError>, warnings: bool)
    ensures
        select(ds, warnings) == ds.filter(|e: PassError| e.is_warning == warnings),
    decreases ds.len(),
{
    let kept = |e: PassError| e.is_warning == warnings;
    reveal(Seq::filter);
    if ds.len() > 0 {
        lemma_select(ds.drop_last(), warnings);
        assert(ds.drop_last().filter(kept) =~= ds.drop_last().filter(
            |e: PassError| e.is_warning == warnings,
        ));
        assert(ds.filter(kept) =~= ds.filter(|e: PassError| e.is_warning == warnings));
    } else {
        assert(select(ds, warnings) =~= ds.filter(|e: PassError| e.is_warning == warnings));
    }
}

/// The diagnostics of return unification and of defunctionalization: every warning is added to
/// those of the run, in order, and if there is anything else, all of it is fatal, in order, and
/// ends the run; otherwise the run goes on to the check.
pub proof fn lemma_diagnostics(store: Map<usize, PackageV>, run: RunV, ds: Seq<PassError>)
    requires
        is_running(run),
        run.step == Step::UnifyReturns || run.step == Step::Defunctionalize,
    ensures
        ({
            let next = advanced(store, run, ReplyV::Diagnostics(ds));
            let warnings = ds.filter(|e: PassError| e.is_warning);
            let fatal = ds.filter(|e: PassError| !e.is_warning);
            let unify = run.step == Step::UnifyReturns;
            &&& next.warnings.len() == run.warnings.len() + warnings.len()
            &&& next.warnings.take(run.warnings.len() as int) == run.warnings
            &&& forall|i: int|
                0 <= i < warnings.len() ==> #[trigger] warnings[i] == warnings[i]
                    && next.warnings[run.warnings.len() + i] == if unify {
                    PipelineError::ReturnUnify(warnings[i])
                } else {
                    PipelineError::Defunctionalize(warnings[i])
                }
            &&& next.errors.len() == fatal.len()
            &&& forall|i: int|
                0 <= i < fatal.len() ==> #[trigger] next.errors[i] == if unify {
                    PipelineError::ReturnUnify(fatal[i])
                } else {
                    PipelineError::Defunctionalize(fatal[i])
                }
            &&& next.step == if fatal.len() > 0 {
                Step::Finished
            } else if unify {
                Step::CheckReturnUnify
            } else {
                Step::CheckDefunc
            }
        }),
{
    lemma_select(ds, true);
    lemma_select(ds, false);
    assert(ds.filter(|e: PassError| e.is_warning == true) =~= ds.filter(
        |e: PassError| e.is_warning,
    )) by {
        assert((|e: PassError| e.is_warning == true) =~= (|e: PassError| e.is_warning));
    }
    assert(ds.filter(|e: PassError| e.is_warning == false) =~= ds.filter(
        |e: PassError| !e.is_warning,
    )) by {
        assert((|e: PassError| e.is_warning == false) =~= (|e: PassError| !e.is_warning));
    }
    let next = advanced(store, run, ReplyV::Diagnostics(ds));
    assert(next.warnings.take(run.warnings.len() as int) =~= run.warnings);
}

/// The diagnostics on intrinsics: each of them is fatal, a warning too, and any ends the run before
/// the first rewrite. Without any, the run goes on with an assigner that starts right above every
/// expression and statement of the package.
pub proof fn lemma_intrinsics(store: Map<usize, PackageV>, run: RunV, ds: Seq<PassError>)
    requires
        is_running(run),
        run.step == Step::Precheck,
    ensures
        ({
            let next = advanced(store, run, ReplyV::Diagnostics(ds));
            &&& next.warnings == run.warnings
            &&& next.errors.len() == ds.len()
            &&& forall|i: int|
                0 <= i < ds.len() ==> #[trigger] next.errors[i]
                    == PipelineError::IntrinsicPrecheck(ds[i])
            &&& next.step == if ds.len() > 0 {
                Step::Finished
            } else {
                Step::Monomorphize
            }
            &&& ds.len() == 0 ==> next.assigner is Some
        }),
{
}

/// The assigner of a run starts above every expression and statement that the package has then, and
/// no higher than that takes.
pub proof fn lemma_assigner_starts_above(
    package: &Package,
    store: Map<usize, PackageV>,
    run: RunV,
    k: usize,
)
    requires
        is_running(run),
        run.step == Step::Precheck,
        store[run.package.0] == package@,
    ensures
        ({
            let next = advanced(store, run, ReplyV::Diagnostics(seq![]));
            let a = next.assigner->0;
            &&& package@.exprs.contains_key(k) ==> k < a.next_expr
            &&& package@.stmts.contains_key(k) ==> k < a.next_stmt
            &&& a.next_expr > 0 ==> package@.exprs.contains_key((a.next_expr - 1) as usize)
            &&& a.next_stmt > 0 ==> package@.stmts.contains_key((a.next_stmt - 1) as usize)
        }),
{
    assert(package.exprs.slots.len() == package.exprs.slots@.len());
    assert(package.stmts.slots.len() == package.stmts.slots@.len());
    assert(package@.exprs.dom() =~= package.exprs@.dom());
    assert(package@.stmts.dom() =~= package.stmts@.dom());
    lemma_first_free(package.exprs.slots@.len(), package.exprs@.dom());
    lemma_first_free(package.stmts.slots@.len(), package.stmts@.dom());
    let n1 = choose|n: usize| is_first_free(package@.exprs.dom(), n);
    let n2 = choose|n: usize| is_first_free(package@.stmts.dom(), n);
    assert(package@.exprs.contains_key(k) ==> package@.exprs.dom().contains(k));
    assert(package@.stmts.contains_key(k) ==> package@.stmts.dom().contains(k));
}

proof fn lemma_first_free(bound: nat, keys: Set<usize>)
    requires
        bound <= usize::MAX,
        forall|k: usize| #[trigger] keys.contains(k) ==> k < bound,
    ensures
        exists|n: usize| is_first_free(keys, n),
    decreases bound,
{
    if bound == 0 || keys.contains((bound - 1) as usize) {
        assert(is_first_free(keys, bound as usize));
    } else {
        assert forall|k: usize| #[trigger] keys.contains(k) implies k < bound - 1 by {}
        lemma_first_free((bound - 1) as nat, keys);
    }
}

/// What a run is asked for stays as it is throughout: the package, the stage and the pinned items.
/// What has been reported only grows.
pub proof fn lemma_request_kept(run: RunV, events: Seq<Event>)
    requires
        is_running(run),
        events_fit(run, events),
    ensures
        run_through(run, events).package == run.package,
        run_through(run, events).stage == run.stage,
        run_through(run, events).pinned == run.pinned,
        run.warnings.is_prefix_of(run_through(run, events).warnings),
    decreases events.len(),
{
    if events.len() > 0 {
        let rest = events.drop_last();
        assert forall|i: int| 0 <= i < rest.len() implies reply_fits(
            run_through(run, #[trigger] rest.take(i)).step,
            rest[i].reply,
        ) || run_through(run, rest.take(i)).step == Step::Finished by {
            assert(rest.take(i) =~= events.take(i));
        }
        lemma_request_kept(run, rest);
        let before = run_through(run, rest);
        let e = events.last();
        lemma_warnings_kept(e.store, RunV { assigner: e.assigner, ..before }, e.reply);
    }
}

/// A run reports an error or a warning only at the steps whose replies call for one.
pub proof fn lemma_quiet_steps(store: Map<usize, PackageV>, run: RunV, reply: ReplyV)
    requires
        is_running(run),
        reply_fits(run.step, reply),
        run.step != Step::Precheck,
        run.step != Step::UnifyReturns,
        run.step != Step::Defunctionalize,
        run.step != Step::CheckGc,
        run.step != Step::CheckRoundPromote,
    ensures
        advanced(store, run, reply).errors == run.errors,
        advanced(store, run, reply).warnings == run.warnings,
        run.step != Step::RoundDecompose && run.step != Step::RoundPromote ==> advanced(
            store,
            run,
            reply,
        ).rounds == run.rounds,
{
}

/// What is wrong with pinned items: each that is not in the store is missing, and each that is but
/// is no callable is reported as that, in the order in which they were given. Where nothing is
/// wrong, every one of them is a callable of the store.
pub proof fn lemma_pin_errors(store: Map<usize, PackageV>, pinned: Seq<StoreItemId>)
    ensures
        pin_errors(store, pinned) == pinned.filter(
            |id: StoreItemId|
                !(store.contains_key(id.package.0) && store[id.package.0].items.contains_key(
                    id.item.0,
                ) && store[id.package.0].items[id.item.0].kind is Callable),
        ).map_values(
            |id: StoreItemId|
                if store.contains_key(id.package.0) && store[id.package.0].items.contains_key(
                    id.item.0,
                ) {
                    PipelineError::PinnedItemNotCallable(id)
                } else {
                    PipelineError::MissingPinnedItem(id)
                },
        ),
        pin_errors(store, pinned).len() == 0 <==> (forall|i: int|
            0 <= i < pinned.len() ==> store.contains_key((#[trigger] pinned[i]).package.0)
                && store[pinned[i].package.0].items.contains_key(pinned[i].item.0)
                && store[pinned[i].package.0].items[pinned[i].item.0].kind is Callable),
    decreases pinned.len(),
{
    let bad = |id: StoreItemId|
        !(store.contains_key(id.package.0) && store[id.package.0].items.contains_key(id.item.0)
            && store[id.package.0].items[id.item.0].kind is Callable);
    let error = |id: StoreItemId|
        if store.contains_key(id.package.0) && store[id.package.0].items.contains_key(id.item.0) {
            PipelineError::PinnedItemNotCallable(id)
        } else {
            PipelineError::MissingPinnedItem(id)
        };
    reveal(Seq::filter);
    lemma_pins(store, pinned);
    assert forall|i: int| 0 <= i < pinned.len() implies (pin_error(
        store,
        #[trigger] pinned[i],
    ) is None <==> !bad(pinned[i])) by {}
    if pinned.len() > 0 {
        let rest = pinned.drop_last();
        lemma_pin_errors(store, rest);
        assert(pin_errors(store, rest) =~= rest.filter(bad).map_values(error));
        if bad(pinned.last()) {
            assert(pinned.filter(bad).map_values(error) =~= rest.filter(bad).map_values(
                error,
            ).push(error(pinned.last())));
        }
        assert(pin_errors(store, pinned) =~= pinned.filter(bad).map_values(error));
    } else {
        assert(pin_errors(store, pinned) =~= pinned.filter(bad).map_values(error));
    }
}

/// Before dead code elimination the run looks at the pinned items: it goes on exactly if each is a
/// callable of the store, and otherwise ends with what is wrong with them.
pub proof fn lemma_pins_decide(store: Map<usize, PackageV>, run: RunV)
    requires
        is_running(run),
        run.step == Step::CheckGc,
        run.stage != PipelineStage::Gc,
    ensures
        ({
            let next = advanced(store, run, ReplyV::Done);
            let good = forall|i: int|
                0 <= i < run.pinned.len() ==> store.contains_key(
                    (#[trigger] run.pinned[i]).package.0,
                ) && store[run.pinned[i].package.0].items.contains_key(run.pinned[i].item.0)
                    && store[run.pinned[i].package.0].items[run.pinned[i].item.0].kind is Callable;
            &&& good <==> next.step == Step::ItemDce
            &&& !good <==> next.step == Step::Finished
            &&& next.errors == pin_errors(store, run.pinned)
        }),
{
    lemma_pin_errors(store, run.pinned);
    assert(run.errors =~= seq![]);
    if pin_errors(store, run.pinned).len() == 0 {
        assert(pin_errors(store, run.pinned) =~= run.errors);
    }
}

/// Dead code elimination is told to keep what the entry expression and the pinned items reach, and
/// nothing else: every pinned item, and with a callable whatever it uses, in the least such set.
pub proof fn lemma_what_is_kept(store: Map<usize, PackageV>, run: RunV, set: Set<StoreItemId>)
    requires
        run.step == Step::ItemDce,
        pin_errors(store, run.pinned).len() == 0,
    ensures
        ({
            let action = action_of(store, run);
            let keep = action->EliminateDeadItems_0;
            &&& action is EliminateDeadItems
            &&& forall|i: int| 0 <= i < run.pinned.len() ==> keep.contains(#[trigger] run.pinned[i])
            &&& forall|id: StoreItemId| #[trigger]
                reachable_set(store, run.package, Seq::empty()).contains(id) ==> keep.contains(id)
            &&& forall|user: StoreItemId, id: StoreItemId|
                keep.contains(user) && #[trigger] item_uses(store, user, id) ==> keep.contains(id)
            &&& (forall|id: StoreItemId| #[trigger]
                is_root(store, run.package, run.pinned, id) ==> set.contains(id)) && (forall|
                user: StoreItemId,
                id: StoreItemId,
            |
                set.contains(user) && #[trigger] item_uses(store, user, id) ==> set.contains(id))
                ==> keep.subset_of(set)
        }),
{
    lemma_pins_are_kept(store, run.package, run.pinned);
    lemma_seeds_only_add(store, run.package, Seq::empty(), run.pinned);
    if (forall|id: StoreItemId| #[trigger]
        is_root(store, run.package, run.pinned, id) ==> set.contains(id)) && (forall|
        user: StoreItemId,
        id: StoreItemId,
    |
        set.contains(user) && #[trigger] item_uses(store, user, id) ==> set.contains(id)) {
        lemma_reachable_least(store, run.package, run.pinned, set);
    }
}

/// Which action follows which, where nothing ends the run, and which check completes which stage.
pub proof fn lemma_schedule(store: Map<usize, PackageV>, run: RunV, reply: ReplyV)
    requires
        is_running(run),
        reply_fits(run.step, reply),
        advanced(store, run, reply).errors.len() == 0,
    ensures
        ({
            let next = advanced(store, run, reply);
            let action = action_of(store, next);
            let ends = action == ActionV::Finish;
            match action_of(store, run) {
                ActionV::ValidateIntrinsicTypes => action == ActionV::Monomorphize,
                ActionV::Monomorphize => action == ActionV::CheckInvariants(
                    InvariantLevel::PostMono,
                ),
                ActionV::UnifyReturns => action == ActionV::CheckInvariants(
                    InvariantLevel::PostReturnUnify,
                ),
                ActionV::Defunctionalize => action == ActionV::CheckInvariants(
                    InvariantLevel::PostDefunc,
                ),
                ActionV::EraseUdts => action == ActionV::CheckInvariants(
                    InvariantLevel::PostUdtErase,
                ),
                ActionV::LowerTupleComparisons => action == ActionV::CheckInvariants(
                    InvariantLevel::PostTupleCompLower,
                ),
                ActionV::TupleDecompose => action == ActionV::CheckInvariants(
                    if run.step == Step::RoundDecompose {
                        InvariantLevel::PostArgPromote
                    } else {
                        InvariantLevel::PostTupleDecompose
                    },
                ),
                ActionV::ArgPromote | ActionV::PromoteToFixedPoint
                | ActionV::NormalizeReachableCallArgTypes => action == ActionV::CheckInvariants(
                    InvariantLevel::PostArgPromote,
                ),
                ActionV::GcUnreachable => action == ActionV::CheckInvariants(
                    if run.step == Step::GcAfterDce {
                        InvariantLevel::PostItemDce
                    } else {
                        InvariantLevel::PostGc
                    },
                ),
                ActionV::EliminateDeadItems(_) => action == ActionV::GcUnreachable || action
                    == ActionV::CheckInvariants(InvariantLevel::PostItemDce),
                ActionV::RebuildExecGraphs(specs) => action
                    == ActionV::CheckExternalSpecExecGraphs(specs),
                ActionV::CheckExternalSpecExecGraphs(_) => if run.stage
                    == PipelineStage::ExecGraphRebuild {
                    ends
                } else {
                    action == ActionV::CheckInvariants(InvariantLevel::PostAll)
                },
                ActionV::CheckInvariants(level) => match level {
                    InvariantLevel::PostMono => if run.stage == PipelineStage::Mono {
                        ends
                    } else {
                        action == ActionV::UnifyReturns
                    },
                    InvariantLevel::PostReturnUnify => if run.stage
                        == PipelineStage::ReturnUnify {
                        ends
                    } else {
                        action == ActionV::Defunctionalize
                    },
                    InvariantLevel::PostDefunc => if run.stage == PipelineStage::Defunc {
                        ends
                    } else {
                        action == ActionV::EraseUdts
                    },
                    InvariantLevel::PostUdtErase => if run.stage == PipelineStage::UdtErase {
                        ends
                    } else {
                        action == ActionV::LowerTupleComparisons
                    },
                    InvariantLevel::PostTupleCompLower => if run.stage
                        == PipelineStage::TupleCompLower {
                        ends
                    } else {
                        action == ActionV::TupleDecompose
                    },
                    InvariantLevel::PostTupleDecompose => if run.stage
                        == PipelineStage::TupleDecompose {
                        ends
                    } else {
                        action == ActionV::ArgPromote
                    },
                    InvariantLevel::PostArgPromote => match run.step {
                        Step::CheckArgPromote => if run.stage == PipelineStage::ArgPromote {
                            ends
                        } else {
                            action == ActionV::TupleDecompose
                        },
                        Step::CheckRoundDecompose => action == ActionV::PromoteToFixedPoint,
                        Step::CheckRoundPromote => action == ActionV::TupleDecompose || action
                            == ActionV::NormalizeReachableCallArgTypes,
                        _ => if run.stage == PipelineStage::TupleDecompose2 {
                            ends
                        } else {
                            action == ActionV::GcUnreachable
                        },
                    },
                    InvariantLevel::PostGc => if run.stage == PipelineStage::Gc {
                        ends
                    } else {
                        action is EliminateDeadItems
                    },
                    InvariantLevel::PostItemDce => if run.stage == PipelineStage::ItemDce {
                        ends
                    } else {
                        action is RebuildExecGraphs
                    },
                    InvariantLevel::PostAll => ends,
                },
                ActionV::Finish => true,
            }
        }),
{
}

/// A run starts with what it is asked for, with the validation of the intrinsics, and with nothing
/// reported.
pub proof fn lemma_start(
    store: Map<usize, PackageV>,
    package: PackageId,
    stage: PipelineStage,
    pinned: Seq<StoreItemId>,
)
    ensures
        ({
            let run = started(package, stage, pinned);
            &&& is_running(run)
            &&& action_of(store, run) == ActionV::ValidateIntrinsicTypes
            &&& run.package == package
            &&& run.stage == stage
            &&& run.pinned == pinned
            &&& run.rounds == 0
            &&& run.assigner is None
            &&& run.errors.len() == 0
            &&& run.warnings.len() == 0
        }),
{
}

/// A reply as a mathematical value says what it says.
pub proof fn lemma_reply_view(reply: Reply)
    ensures
        match reply {
            Reply::Done => reply@ == ReplyV::Done,
            Reply::Diagnostics(ds) => reply@ == ReplyV::Diagnostics(ds@),
            Reply::Changed(changed) => reply@ == ReplyV::Changed(changed),
            Reply::Mutated(specs) => reply@ == ReplyV::Mutated(specs@),
            Reply::Removed(n) => reply@ == ReplyV::Removed(n as nat),
        },
{
}

/// An action as a mathematical value asks for what it asks for.
pub proof fn lemma_action_view(action: Action)
    ensures
        match action {
            Action::ValidateIntrinsicTypes => action@ == ActionV::ValidateIntrinsicTypes,
            Action::Monomorphize => action@ == ActionV::Monomorphize,
            Action::UnifyReturns => action@ == ActionV::UnifyReturns,
            Action::Defunctionalize => action@ == ActionV::Defunctionalize,
            Action::EraseUdts => action@ == ActionV::EraseUdts,
            Action::LowerTupleComparisons => action@ == ActionV::LowerTupleComparisons,
            Action::TupleDecompose => action@ == ActionV::TupleDecompose,
            Action::ArgPromote => action@ == ActionV::ArgPromote,
            Action::PromoteToFixedPoint => action@ == ActionV::PromoteToFixedPoint,
            Action::NormalizeReachableCallArgTypes => action@
                == ActionV::NormalizeReachableCallArgTypes,
            Action::GcUnreachable => action@ == ActionV::GcUnreachable,
            Action::EliminateDeadItems(keep) => action@ matches ActionV::EliminateDeadItems(set)
                && (forall|id: StoreItemId| #[trigger]
                set.contains(id) <==> keep.keys@.contains((id.package.0, id.item.0))),
            Action::RebuildExecGraphs(specs) => action@ == ActionV::RebuildExecGraphs(specs@),
            Action::CheckExternalSpecExecGraphs(specs) => action@
                == ActionV::CheckExternalSpecExecGraphs(specs@),
            Action::CheckInvariants(level) => action@ == ActionV::CheckInvariants(level),
            Action::Finish => action@ == ActionV::Finish,
        },
{
}

/// A run as a mathematical value holds what it holds.
pub proof fn lemma_run_view(run: PipelineRun)
    ensures
        run@.package == run.package_id,
        run@.stage == run.stage,
        run@.pinned == run.pinned_items@,
        run@.step == run.step,
        run@.rounds == run.rounds,
        run@.specs == run.mutated_specs@,
        run@.assigner == run.assigner,
        run@.errors == run.result.errors@,
        run@.warnings == run.result.warnings@,
{
}

} // verus!
