use qsc_fir_transforms::fir::{
    Block, BlockId, CallableDecl, CallableImpl, ExecRange, Expr, ExprId, ExprKind, Ident, Item,
    ItemId, ItemKind, LocalItemId, LocalVarId, Package, PackageId, PackageStore, Pat, PatId,
    PatKind, Res, Span, SpecDecl, Specializations, StoreItemId, Ty,
};
use qsc_fir_transforms::pipeline::{
    perform_intrinsic_type_validation, run_pipeline_to_with_diagnostics,
    run_pipeline_with_diagnostics, validate_pinned_item, validate_pinned_items, Action,
    CallableSpecId, CallableSpecKind, InvariantLevel, PassError, PipelineError, PipelineResult,
    PipelineRun, PipelineStage, Reply, Step, TUPLE_DECOMPOSE_ARG_PROMOTE_FIXPOINT_CAP,
};
use qsc_fir_transforms::reachability::try_collect_reachable;

const USER: PackageId = PackageId(1);
const LIB: PackageId = PackageId(0);
const MAIN: LocalItemId = LocalItemId(0);
const SPARE: LocalItemId = LocalItemId(1);
const TYPE: LocalItemId = LocalItemId(2);
const SPAN: Span = Span { lo: 0, hi: 0 };
const RANGE: ExecRange = ExecRange { start: 0, end: 0 };

/// Whether everything that the entry expression reaches is whole.
fn is_whole(store: &PackageStore) -> bool {
    try_collect_reachable(store, USER, &Vec::new()).is_some()
}

fn ident(name: &str) -> Ident {
    Ident { id: LocalVarId(0), span: SPAN, name: name.to_string() }
}

fn callable(id: LocalItemId, name: &str) -> Item {
    let decl = CallableDecl {
        name: ident(name),
        input: PatId(0),
        output: Ty::Tuple(Vec::new()),
        implementation: CallableImpl::Spec(Specializations {
            body: SpecDecl { block: BlockId(0), input: None },
            adj: None,
            ctl: None,
            ctl_adj: None,
        }),
    };
    Item { id, span: SPAN, kind: ItemKind::Callable(Box::new(decl)) }
}

/// A package with a `Main` that the entry expression calls, a callable that nothing calls, and a
/// type.
fn store() -> PackageStore {
    let unit = || Ty::Tuple(Vec::new());
    let mut package = Package::new();
    package.pats.insert(
        0,
        Pat { id: PatId(0), span: SPAN, ty: unit(), kind: PatKind::Tuple(Vec::new()) },
    );
    package.blocks.insert(
        0,
        Block { id: BlockId(0), span: SPAN, ty: unit(), stmts: Vec::new() },
    );
    let main = Res::Item(ItemId { package: USER, item: MAIN });
    for (k, kind) in [
        ExprKind::Var(main, Vec::new()),
        ExprKind::Tuple(Vec::new()),
        ExprKind::Call(ExprId(0), ExprId(1)),
    ]
    .into_iter()
    .enumerate()
    {
        package.exprs.insert(
            k,
            Expr { id: ExprId(k), span: SPAN, ty: unit(), kind, exec_graph_range: RANGE },
        );
    }
    package.entry = Some(ExprId(2));
    package.items.insert(0, callable(MAIN, "Main"));
    package.items.insert(1, callable(SPARE, "Spare"));
    package.items.insert(2, Item { id: TYPE, span: SPAN, kind: ItemKind::Ty(ident("Pair")) });
    let mut store = PackageStore::new();
    store.insert(LIB, Package::new());
    store.insert(USER, package);
    assert!(is_whole(&store));
    store
}

fn id(item: LocalItemId) -> StoreItemId {
    StoreItemId { package: USER, item }
}

fn error(message: &str) -> PassError {
    PassError { message: message.to_string(), is_warning: false }
}

fn warning(message: &str) -> PassError {
    PassError { message: message.to_string(), is_warning: true }
}

fn show(e: &PipelineError) -> String {
    format!("{e:?}")
}

fn messages(errors: &[PipelineError]) -> Vec<String> {
    errors
        .iter()
        .map(|e| match e {
            PipelineError::ReturnUnify(e) => format!("return: {}", e.message),
            PipelineError::Defunctionalize(e) => format!("defunc: {}", e.message),
            PipelineError::IntrinsicPrecheck(e) => format!("intrinsic: {}", e.message),
            PipelineError::MissingPinnedItem(id) => format!("missing {}", id.item.0),
            PipelineError::PinnedItemNotCallable(id) => format!("no callable {}", id.item.0),
            PipelineError::TupleDecomposeArgPromoteFixpointNotReached(n) => format!("cap {n}"),
        })
        .collect()
}

/// What the passes answer.
struct Script {
    intrinsics: Vec<PassError>,
    returns: Vec<PassError>,
    defunc: Vec<PassError>,
    specs: Vec<CallableSpecId>,
    /// How many rounds of the fixed point change something.
    changing_rounds: usize,
    removed: usize,
}

fn quiet() -> Script {
    Script {
        intrinsics: Vec::new(),
        returns: Vec::new(),
        defunc: Vec::new(),
        specs: Vec::new(),
        changing_rounds: 0,
        removed: 0,
    }
}

/// Drives a run to its end: the names of the actions, and the result.
fn drive(store: &PackageStore, run: PipelineRun, script: Script) -> (Vec<String>, PipelineResult) {
    let mut run = run;
    let mut trace: Vec<String> = Vec::new();
    let mut round = 0;
    let Script { intrinsics, returns, defunc, specs, changing_rounds, removed } = script;
    loop {
        let action = run.action(store);
        let (name, reply) = match &action {
            Action::Finish => break,
            Action::ValidateIntrinsicTypes => {
                ("precheck".to_string(), Reply::Diagnostics(intrinsics.clone()))
            }
            Action::UnifyReturns => ("returns".to_string(), Reply::Diagnostics(returns.clone())),
            Action::Defunctionalize => {
                ("defunc".to_string(), Reply::Diagnostics(defunc.clone()))
            }
            Action::EraseUdts => ("udt".to_string(), Reply::Mutated(specs.clone())),
            Action::TupleDecompose if run.step == Step::RoundDecompose => {
                round += 1;
                ("decompose".to_string(), Reply::Changed(round <= changing_rounds))
            }
            Action::PromoteToFixedPoint => ("promote".to_string(), Reply::Changed(false)),
            Action::EliminateDeadItems(keep) => {
                let kept: Vec<usize> = [MAIN, SPARE, TYPE]
                    .iter()
                    .filter(|item| keep.contains(&id(**item)))
                    .map(|item| item.0)
                    .collect();
                (format!("dce {kept:?}"), Reply::Removed(removed))
            }
            Action::RebuildExecGraphs(specs) => {
                (format!("rebuild {}", specs.len()), Reply::Done)
            }
            Action::CheckExternalSpecExecGraphs(specs) => {
                (format!("check external {}", specs.len()), Reply::Done)
            }
            Action::CheckInvariants(level) => (format!("check {level:?}"), Reply::Done),
            Action::Monomorphize => ("mono".to_string(), Reply::Done),
            Action::LowerTupleComparisons => ("compare".to_string(), Reply::Done),
            Action::TupleDecompose => ("decompose".to_string(), Reply::Done),
            Action::ArgPromote => ("arg promote".to_string(), Reply::Done),
            Action::NormalizeReachableCallArgTypes => ("call types".to_string(), Reply::Done),
            Action::GcUnreachable => ("gc".to_string(), Reply::Done),
        };
        trace.push(name);
        run.resume(store, reply);
    }
    (trace, run.result)
}

fn drive_to(stage: PipelineStage, script: Script) -> (Vec<String>, PipelineResult) {
    let store = store();
    let run = run_pipeline_to_with_diagnostics(&store, USER, stage, Vec::new());
    drive(&store, run, script)
}

fn full_trace() -> Vec<&'static str> {
    vec![
        "precheck",
        "mono",
        "check PostMono",
        "returns",
        "check PostReturnUnify",
        "defunc",
        "check PostDefunc",
        "udt",
        "check PostUdtErase",
        "compare",
        "check PostTupleCompLower",
        "decompose",
        "check PostTupleDecompose",
        "arg promote",
        "check PostArgPromote",
        "decompose",
        "check PostArgPromote",
        "promote",
        "check PostArgPromote",
        "call types",
        "check PostArgPromote",
        "gc",
        "check PostGc",
        "dce [0]",
        "check PostItemDce",
        "rebuild 0",
        "check external 0",
        "check PostAll",
    ]
}

#[test]
fn a_full_run_takes_the_passes_in_order() {
    let store = store();
    let run = run_pipeline_with_diagnostics(&store, USER);
    let (trace, result) = drive(&store, run, quiet());
    assert_eq!(trace, full_trace());
    assert!(result.is_success());
    assert!(result.warnings.is_empty());
}

#[test]
fn a_run_to_an_earlier_stage_is_the_start_of_a_full_run() {
    let full = full_trace();
    for (stage, last) in [
        (PipelineStage::Mono, 3),
        (PipelineStage::ReturnUnify, 5),
        (PipelineStage::Defunc, 7),
        (PipelineStage::UdtErase, 9),
        (PipelineStage::TupleCompLower, 11),
        (PipelineStage::TupleDecompose, 13),
        (PipelineStage::ArgPromote, 15),
        (PipelineStage::TupleDecompose2, 21),
        (PipelineStage::Gc, 23),
        (PipelineStage::ItemDce, 25),
        (PipelineStage::ExecGraphRebuild, 27),
        (PipelineStage::Full, 28),
    ] {
        let (trace, result) = drive_to(stage, quiet());
        assert_eq!(trace, full[..last], "{stage:?}");
        assert!(result.is_success());
    }
}

#[test]
fn a_rejected_intrinsic_ends_the_run_before_any_rewrite() {
    let script = Script { intrinsics: vec![error("tuple"), warning("udt")], ..quiet() };
    let (trace, result) = drive_to(PipelineStage::Full, script);
    assert_eq!(trace, vec!["precheck"]);
    assert!(!result.is_success());
    assert_eq!(messages(&result.errors), vec!["intrinsic: tuple", "intrinsic: udt"]);
    assert!(result.warnings.is_empty());
}

#[test]
fn a_fatal_return_error_ends_the_run_before_defunctionalization() {
    let script = Script {
        returns: vec![warning("w1"), error("e1"), warning("w2"), error("e2")],
        ..quiet()
    };
    let (trace, result) = drive_to(PipelineStage::Full, script);
    assert_eq!(trace, full_trace()[..4]);
    assert_eq!(messages(&result.errors), vec!["return: e1", "return: e2"]);
    assert_eq!(messages(&result.warnings), vec!["return: w1", "return: w2"]);
}

#[test]
fn a_fatal_defunctionalization_error_ends_the_run_before_udt_erasure() {
    let script = Script { defunc: vec![error("dynamic")], ..quiet() };
    let (trace, result) = drive_to(PipelineStage::Full, script);
    assert_eq!(trace, full_trace()[..6]);
    assert_eq!(messages(&result.errors), vec!["defunc: dynamic"]);
}

#[test]
fn warnings_of_every_pass_are_kept() {
    let script = Script {
        returns: vec![warning("r")],
        defunc: vec![warning("d1"), warning("d2")],
        ..quiet()
    };
    let (trace, result) = drive_to(PipelineStage::Full, script);
    assert_eq!(trace, full_trace());
    assert!(result.is_success());
    assert_eq!(messages(&result.warnings), vec!["return: r", "defunc: d1", "defunc: d2"]);
}

#[test]
fn the_fixed_point_goes_on_while_something_changes() {
    let (trace, result) =
        drive_to(PipelineStage::TupleDecompose2, Script { changing_rounds: 2, ..quiet() });
    // Two rounds with changes, and one without.
    assert_eq!(trace.iter().filter(|name| *name == "promote").count(), 3);
    assert_eq!(trace.len(), 21 + 2 * 4);
    assert!(result.warnings.is_empty());
}

#[test]
fn the_fixed_point_stops_at_its_cap_with_a_warning() {
    let (trace, result) =
        drive_to(PipelineStage::Full, Script { changing_rounds: 1000, ..quiet() });
    assert_eq!(TUPLE_DECOMPOSE_ARG_PROMOTE_FIXPOINT_CAP, 64);
    assert_eq!(trace.iter().filter(|name| *name == "promote").count(), 64);
    assert!(result.is_success());
    assert_eq!(messages(&result.warnings), vec!["cap 64"]);
    assert_eq!(trace.last().map(String::as_str), Some("check PostAll"));
}

#[test]
fn the_last_round_within_the_cap_may_converge() {
    let (trace, result) =
        drive_to(PipelineStage::Full, Script { changing_rounds: 63, ..quiet() });
    assert_eq!(trace.iter().filter(|name| *name == "promote").count(), 64);
    assert!(result.warnings.is_empty());
}

#[test]
fn garbage_is_collected_again_only_if_items_were_removed() {
    let (trace, _) = drive_to(PipelineStage::ItemDce, Script { removed: 2, ..quiet() });
    assert_eq!(trace[21..], ["gc", "check PostGc", "dce [0]", "gc", "check PostItemDce"]);
    let (trace, _) = drive_to(PipelineStage::ItemDce, quiet());
    assert_eq!(trace[21..], ["gc", "check PostGc", "dce [0]", "check PostItemDce"]);
}

#[test]
fn pinned_items_are_kept() {
    let store = store();
    let run = run_pipeline_to_with_diagnostics(
        &store,
        USER,
        PipelineStage::ItemDce,
        vec![id(SPARE)],
    );
    let (trace, result) = drive(&store, run, quiet());
    assert!(trace.contains(&"dce [0, 1]".to_string()));
    assert!(result.is_success());
}

#[test]
fn invalid_pins_end_the_run_before_items_are_removed() {
    let store = store();
    let elsewhere = StoreItemId { package: PackageId(7), item: MAIN };
    let pins = vec![id(MAIN), id(LocalItemId(9)), id(TYPE), elsewhere];
    let run =
        run_pipeline_to_with_diagnostics(&store, USER, PipelineStage::Full, pins.clone());
    let (trace, result) = drive(&store, run, quiet());
    assert_eq!(trace, full_trace()[..23]);
    assert_eq!(messages(&result.errors), vec!["missing 9", "no callable 2", "missing 0"]);
    // Before dead code elimination, nobody asks for them.
    let run = run_pipeline_to_with_diagnostics(&store, USER, PipelineStage::Gc, pins);
    assert!(drive(&store, run, quiet()).1.is_success());
}

#[test]
fn pins_are_validated_one_by_one() {
    let store = store();
    assert!(validate_pinned_item(&store, id(MAIN)).is_ok());
    assert!(matches!(
        validate_pinned_item(&store, id(LocalItemId(9))),
        Err(PipelineError::MissingPinnedItem(item)) if item == id(LocalItemId(9))
    ));
    assert!(matches!(
        validate_pinned_item(&store, id(TYPE)),
        Err(PipelineError::PinnedItemNotCallable(item)) if item == id(TYPE)
    ));
    assert!(validate_pinned_items(&store, &vec![id(MAIN), id(SPARE)]).is_empty());
    assert_eq!(
        messages(&validate_pinned_items(&store, &vec![id(TYPE), id(MAIN), id(TYPE)])),
        vec!["no callable 2", "no callable 2"]
    );
}

#[test]
fn only_specializations_in_other_packages_are_handed_on() {
    let spec = |package: PackageId, item: usize, kind: CallableSpecKind| {
        CallableSpecId::new(StoreItemId { package, item: LocalItemId(item) }, kind)
    };
    let specs = vec![
        spec(LIB, 3, CallableSpecKind::Body),
        spec(USER, 0, CallableSpecKind::Adj),
        spec(LIB, 4, CallableSpecKind::SimulatableIntrinsic),
    ];
    let store = store();
    let run = run_pipeline_with_diagnostics(&store, USER);
    let (trace, _) = drive(&store, run, Script { specs: specs.clone(), ..quiet() });
    assert_eq!(trace[25..], ["rebuild 2", "check external 2", "check PostAll"]);

    // The two that are handed on, in order.
    let mut run = run_pipeline_with_diagnostics(&store, USER);
    run.step = Step::RebuildExecGraphs;
    run.mutated_specs = specs.clone();
    let Action::RebuildExecGraphs(handed_on) = run.action(&store) else {
        panic!("execution graphs should be rebuilt");
    };
    assert_eq!(handed_on, vec![specs[0], specs[2]]);
}

#[test]
fn the_assigner_is_made_once_from_the_package() {
    let store = store();
    let mut run = run_pipeline_with_diagnostics(&store, USER);
    assert!(run.assigner.is_none());
    run.resume(&store, Reply::Diagnostics(Vec::new()));
    assert_eq!(run.step, Step::Monomorphize);
    let assigner = run.assigner.expect("assigner should be made");
    assert_eq!((assigner.next_expr, assigner.next_stmt), (3, 0));

    // A pass takes identifiers; the next step leaves the assigner alone.
    let taken = run.assigner.as_mut().map(|assigner| assigner.next_expr());
    assert_eq!(taken, Some(ExprId(3)));
    run.resume(&store, Reply::Done);
    assert_eq!(run.step, Step::CheckMono);
    assert_eq!(run.assigner.map(|assigner| assigner.next_expr), Some(4));
}

#[test]
fn without_rejected_intrinsics_there_is_no_result_yet() {
    assert!(perform_intrinsic_type_validation(Vec::new()).is_none());
    let result = perform_intrinsic_type_validation(vec![error("a"), error("b")])
        .expect("errors should give a result");
    assert_eq!(messages(&result.errors), vec!["intrinsic: a", "intrinsic: b"]);
    assert!(result.warnings.is_empty());
    assert!(!result.is_success());
}

#[test]
fn warnings_do_not_block_success() {
    let mut result = PipelineResult::default();
    assert!(result.is_success());
    result.warnings.push(PipelineError::TupleDecomposeArgPromoteFixpointNotReached(64));
    assert!(result.is_success());
    result.errors.push(PipelineError::MissingPinnedItem(id(MAIN)));
    assert!(!result.is_success());
    assert!(show(&result.errors[0]).starts_with("MissingPinnedItem"));
}

#[test]
fn every_level_is_checked_after_its_pass() {
    let (trace, _) = drive_to(PipelineStage::Full, quiet());
    for level in [
        InvariantLevel::PostMono,
        InvariantLevel::PostReturnUnify,
        InvariantLevel::PostDefunc,
        InvariantLevel::PostUdtErase,
        InvariantLevel::PostTupleCompLower,
        InvariantLevel::PostTupleDecompose,
        InvariantLevel::PostArgPromote,
        InvariantLevel::PostGc,
        InvariantLevel::PostItemDce,
        InvariantLevel::PostAll,
    ] {
        assert!(trace.contains(&format!("check {level:?}")), "{level:?}");
    }
}
