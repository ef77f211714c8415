//! The command-line decisions and the text the subcommands print.

use specflow_helper::cli::{
    classify, parse_common, parse_kind, plan_list, plan_resolve, plan_scan, ArgError, CachePlan,
    Invocation,
};
use specflow_helper::index::BuildStats;
use specflow_helper::output::{
    encode_resolved, list_line, push_json_string, resolve_report, scan_report,
};
use specflow_helper::{parse_bindings, parse_feature_steps, BindingIndex, StepKind};

fn args(a: &[&str]) -> Vec<String> {
    a.iter().map(|s| s.to_string()).collect()
}

#[test]
fn help_and_version_flags_win_anywhere() {
    assert!(matches!(classify(&args(&["scan", "--help"])), Invocation::Help));
    assert!(matches!(classify(&args(&["-h"])), Invocation::Help));
    assert!(matches!(classify(&args(&["-V", "--help"])), Invocation::Help));
    assert!(matches!(classify(&args(&["resolve", "--version"])), Invocation::Version));
    assert!(matches!(classify(&args(&[])), Invocation::NoSubcommand));
    assert!(matches!(classify(&args(&["resolve", "x"])), Invocation::Resolve));
    assert!(matches!(classify(&args(&["scan"])), Invocation::Scan));
    assert!(matches!(classify(&args(&["list"])), Invocation::List));
    match classify(&args(&["wibble"])) {
        Invocation::Unknown(s) => assert_eq!(s, "wibble"),
        other => panic!("unexpected {other:?}"),
    }
}

#[test]
fn kind_values() {
    assert_eq!(parse_kind("Then").unwrap(), Some(StepKind::Then));
    for any in ["And", "But", "", "null", "any"] {
        assert_eq!(parse_kind(any).unwrap(), None);
    }
    match parse_kind("then") {
        Err(ArgError::InvalidKind(v)) => assert_eq!(v, "then"),
        other => panic!("unexpected {other:?}"),
    }
}

#[test]
fn common_options_are_split_off() {
    let (opts, rest) =
        parse_common(&args(&["--step", "x", "--root", "r1", "--root", "r2", "--no-cache"])).unwrap();
    assert_eq!(opts.root.as_deref(), Some("r2"));
    assert_eq!(opts.cache, None);
    assert!(opts.no_cache);
    assert_eq!(rest, args(&["--step", "x"]));
    assert_eq!(
        parse_common(&args(&["--cache"])).unwrap_err(),
        "flag \"--cache\" expects a value"
    );
}

#[test]
fn resolve_missing_root_errors() {
    match plan_resolve(&args(&["--step", "x"])) {
        Err(ArgError::Message(m)) => assert!(m.contains("--root")),
        other => panic!("unexpected {other:?}"),
    }
}

#[test]
fn resolve_plans() {
    let p = plan_resolve(&args(&["--root", "R", "--kind", "And", "--step", "a b"])).unwrap();
    assert_eq!(p.index.root, "R");
    assert!(matches!(p.index.cache, CachePlan::Default));
    assert_eq!(p.kind, None);
    assert_eq!(p.step, "a b");
    let p = plan_resolve(&args(&["--cache", "c.json", "--root", "R", "--step", "s"])).unwrap();
    assert!(matches!(p.index.cache, CachePlan::At(ref c) if c == "c.json"));
    let p = plan_resolve(&args(&["--cache", "c", "--no-cache", "--root", "R", "--step", "s"]))
        .unwrap();
    assert!(matches!(p.index.cache, CachePlan::Disabled));
    let msg = |a: &[&str]| match plan_resolve(&args(a)) {
        Err(ArgError::Message(m)) => m,
        other => panic!("unexpected {other:?}"),
    };
    assert_eq!(msg(&["--root", "R"]), "--step is required");
    assert_eq!(msg(&["--root", "R", "--step"]), "--step expects a value");
    assert_eq!(msg(&["--kind"]), "--kind expects a value");
    assert_eq!(msg(&["--bogus", "--step", "s"]), "unknown flag for resolve: --bogus");
    assert_eq!(msg(&["--root"]), "flag \"--root\" expects a value");
    assert!(matches!(
        plan_resolve(&args(&["--kind", "Sometimes", "--step", "s"])),
        Err(ArgError::InvalidKind(ref v)) if v == "Sometimes"
    ));
}

#[test]
fn scan_and_list_plans() {
    let p = plan_scan(&args(&["--root", "R", "--no-cache", "--feature", "f.feature"])).unwrap();
    assert_eq!(p.feature, "f.feature");
    assert!(matches!(p.index.cache, CachePlan::Disabled));
    assert_eq!(plan_scan(&args(&["--root", "R"])).unwrap_err(), "--feature is required");
    assert_eq!(plan_scan(&args(&["--feature"])).unwrap_err(), "--feature expects a value");
    assert_eq!(plan_scan(&args(&["-x"])).unwrap_err(), "unknown flag for scan: -x");
    assert_eq!(plan_scan(&args(&["--feature", "f"])).unwrap_err(), "--root is required");
    assert_eq!(plan_list(&args(&["--root", "R"])).unwrap().root, "R");
    assert_eq!(plan_list(&args(&["--root", "R", "x", "y"])).unwrap_err(), "unknown flag for list: x");
}

#[test]
fn json_strings_are_escaped() {
    let mut out = String::from(">");
    push_json_string(&mut out, "a\"b\\c\nd\re\tf\u{1}g\u{1f}é");
    assert_eq!(out, ">\"a\\\"b\\\\c\\nd\\re\\tf\\u0001g\\u001fé\"");
}

fn smoke_index() -> BindingIndex {
    BindingIndex::build(parse_bindings(
        "[Then(@\"a local ECS event (is|is not|isn't) created with EventId (.*)\")]\n[Given(@\"a \"\"q\"\"\")]",
        "dir/SmokeBindings.cs",
    ))
}

#[test]
fn resolve_hits_existing_binding() {
    let idx = smoke_index();
    let m = idx
        .find("a local ECS event is created with EventId 116", Some(StepKind::Then))
        .unwrap();
    assert_eq!(
        encode_resolved(&m),
        "{\"file\":\"dir/SmokeBindings.cs\",\"line\":1,\"kind\":\"Then\",\"pattern\":\"a local ECS event (is|is not|isn't) created with EventId (.*)\"}"
    );
    let m = idx.find("a \"q\"", None).unwrap();
    assert_eq!(
        encode_resolved(&m),
        "{\"file\":\"dir/SmokeBindings.cs\",\"line\":2,\"kind\":\"Given\",\"pattern\":\"a \\\"q\\\"\"}"
    );
}

#[test]
fn scan_marks_unknown_steps_resolved_null() {
    let idx = smoke_index();
    let steps = parse_feature_steps(
        "Feature: bogus\n  Scenario: x\n    Given a step that no binding covers\n    And a local ECS event is created with EventId 42\n",
    );
    let stats = BuildStats { files_scanned: 3, files_reparsed: 2, files_from_cache: 1, bindings_total: 2 };
    let report = scan_report("x.feature", &steps, &idx, &stats);
    assert_eq!(
        report,
        "{\"feature\":\"x.feature\",\"steps\":[\
{\"line\":3,\"kind\":\"Given\",\"keyword\":\"Given\",\"text\":\"a step that no binding covers\",\"resolved\":null},\
{\"line\":4,\"kind\":\"Given\",\"keyword\":\"And\",\"text\":\"a local ECS event is created with EventId 42\",\"resolved\":null}\
],\"stats\":{\"files_scanned\":3,\"files_reparsed\":2,\"files_from_cache\":1,\"bindings\":2}}"
    );
    let empty = scan_report("e", &[], &idx, &BuildStats::default());
    assert_eq!(
        empty,
        "{\"feature\":\"e\",\"steps\":[],\"stats\":{\"files_scanned\":0,\"files_reparsed\":0,\"files_from_cache\":0,\"bindings\":0}}"
    );
}

#[test]
fn resolve_and_kind_falls_back_to_any() {
    let idx = smoke_index();
    let steps = parse_feature_steps("And a local ECS event is created with EventId 42");
    assert_eq!(steps[0].kind, None);
    let report = scan_report("f", &steps, &idx, &BuildStats::default());
    assert!(report.contains("\"resolved\":{\"file\":\"dir/SmokeBindings.cs\",\"line\":1,\"kind\":\"Then\""));
}

#[test]
fn list_emits_one_line_per_binding() {
    let idx = smoke_index();
    let lines: Vec<String> = idx.bindings().iter().map(list_line).collect();
    assert_eq!(
        lines,
        vec![
            "[Then] a local ECS event (is|is not|isn't) created with EventId (.*)\tdir/SmokeBindings.cs:1".to_string(),
            "[Given] a \"q\"\tdir/SmokeBindings.cs:2".to_string(),
        ]
    );
}

#[test]
fn resolve_returns_empty_object_on_miss() {
    let plan = plan_resolve(&args(&[
        "--root",
        "corpus",
        "--no-cache",
        "--kind",
        "Given",
        "--step",
        "this step definitely does not exist anywhere",
    ]))
    .unwrap();
    assert!(matches!(plan.index.cache, CachePlan::Disabled));
    let idx = smoke_index();
    assert_eq!(resolve_report(&idx, &plan.step, plan.kind), "{}");
    let hit = resolve_report(
        &idx,
        "a local ECS event is created with EventId 116",
        Some(StepKind::Then),
    );
    assert!(hit.starts_with("{\"file\":\"dir/SmokeBindings.cs\",\"line\":1,"));
}
