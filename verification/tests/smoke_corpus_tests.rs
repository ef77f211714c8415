//! Regression tests for pattern shapes taken from a real SpecFlow corpus.
//!
//! The bindings below stand in for `SmokeBindings.cs`; the index is built
//! from them the way a directory scan would build it.

use specflow_helper::index::BuildStats;
use specflow_helper::output::scan_report;
use specflow_helper::{parse_bindings, parse_feature_steps, BindingIndex, StepKind};

const SMOKE_BINDINGS: &str = r#"using TechTalk.SpecFlow;

namespace Smoke
{
    [Binding]
    public class SmokeBindings
    {
        [Then(@"a local ECS event (is|is not|isn't) created with EventId (.*)")]
        public void LocalEcsEvent(string state, string id) { }

        [Then(@"(\d+) local ECS event has been generated")]
        public void LocalEcsEventCount(int count) { }

        [When(@"I start the '(.*)' service((?: as the user|))")]
        public void StartService(string name, string asUser) { }

        [Given(@"I run '(.*)' within '(.*)' using '(.*)'((?: from the original folder|))")]
        public void RunWithin(string file, string folder, string how, string original) { }

        [Given(@"I take ownership of ""([^""]*)"" as ""(.*)""")]
        public void TakeOwnership(string path, string account) { }

        [When(@"I run '([^']*)'")]
        public void IRun(string exe) { }

        [When(@"I run '([^']*)' with the following:")]
        [Given(@"I run '([^']*)' with the following:")]
        public void IRunWithTable(string exe, Table table) { }

        [Then(@"the '(.*)' service status '(is|is not|isn't)' '(.*)'")]
        public void ServiceStatus(string name, string state, string status) { }

        [When(@"the file '(.*)' '(does|does not)' exist")]
        [Then(@"the file '(.*)' '(does|does not)' exist")]
        public void FileExistence(string path, string does) { }

        [Then(@"the process '([^']*)' with window '([^']*)' (.*) running")]
        public void ProcessWithWindow(string name, string window, string state) { }

        [Then(@"the process '([^']*)' (is|is not|isn't) running")]
        public void ProcessRunning(string name, string state) { }

        [Then(@"the process (has started|does not start|is still waiting for our messagehost)")]
        public void ProcessStart(string state) { }
    }
}
"#;

fn build_index() -> BindingIndex {
    BindingIndex::build(parse_bindings(
        SMOKE_BINDINGS,
        "tests/fixtures/smoke_corpus/SmokeBindings.cs",
    ))
}

fn resolve<'a>(idx: &'a BindingIndex, step: &str, kind: Option<StepKind>) -> &'a str {
    idx.find(step, kind)
        .unwrap_or_else(|| panic!("step did not resolve: {step:?}"))
        .binding
        .pattern
        .as_str()
}

#[test]
fn unquoted_dotstar_capture_matches_event_id() {
    let idx = build_index();
    let pat = resolve(
        &idx,
        "a local ECS event is created with EventId 116",
        Some(StepKind::Then),
    );
    assert_eq!(
        pat,
        "a local ECS event (is|is not|isn't) created with EventId (.*)"
    );
}

#[test]
fn unquoted_digit_capture_matches_count() {
    let idx = build_index();
    let pat = resolve(
        &idx,
        "1 local ECS event has been generated",
        Some(StepKind::Then),
    );
    assert_eq!(pat, r"(\d+) local ECS event has been generated");
}

#[test]
fn optional_trailing_group_as_the_user() {
    let idx = build_index();
    let pat_with = resolve(
        &idx,
        "I start the 'Avecto QA Test Windows Service' service as the user",
        Some(StepKind::When),
    );
    let pat_without = resolve(
        &idx,
        "I start the 'Avecto QA Test Windows Service' service",
        Some(StepKind::When),
    );
    assert_eq!(pat_with, "I start the '(.*)' service((?: as the user|))");
    assert_eq!(pat_with, pat_without, "both forms must hit the same binding");
}

#[test]
fn optional_trailing_group_from_the_original_folder() {
    let idx = build_index();
    let pat = resolve(
        &idx,
        "I run 'DummyVbsScript.vbs' within 'Resources' using 'Run with Defendpoint'",
        Some(StepKind::Given),
    );
    assert_eq!(
        pat,
        "I run '(.*)' within '(.*)' using '(.*)'((?: from the original folder|))"
    );
}

#[test]
fn verbatim_double_quote_captures_match_double_quoted_step() {
    let idx = build_index();
    let pat = resolve(
        &idx,
        r#"I take ownership of "\Resources\Testapplication.exe" as "BUILTIN\Administrators""#,
        Some(StepKind::Given),
    );
    assert_eq!(pat, r#"I take ownership of "([^"]*)" as "(.*)""#);
}

#[test]
fn data_table_step_with_trailing_colon() {
    let idx = build_index();
    let pat = resolve(
        &idx,
        "I run 'regedit.exe' with the following:",
        Some(StepKind::When),
    );
    assert_eq!(pat, "I run '([^']*)' with the following:");
}

#[test]
fn quoted_alternation_with_compound_negation() {
    let idx = build_index();
    let pat = resolve(
        &idx,
        "the 'Avecto QA Test Windows Service' service status 'is' 'Running'",
        Some(StepKind::Then),
    );
    assert_eq!(pat, "the '(.*)' service status '(is|is not|isn't)' '(.*)'");
}

#[test]
fn and_step_inherits_preceding_then_kind() {
    let idx = build_index();
    assert!(idx
        .find(
            "a local ECS event is created with EventId 116",
            Some(StepKind::Then),
        )
        .is_some());
}

#[test]
fn when_and_then_bindings_with_same_pattern_both_match() {
    let idx = build_index();
    assert!(idx
        .find(
            "the file 'C:\\Program Files\\Avecto\\Privilege Guard Client\\DefendpointService.exe' 'does' exist",
            Some(StepKind::When),
        )
        .is_some());
    assert!(idx
        .find(
            "the file 'C:\\Program Files\\Avecto\\Privilege Guard Client\\PGSystemTray.exe' 'does' exist",
            Some(StepKind::Then),
        )
        .is_some());
}

#[test]
fn anchoring_rejects_substring_step_for_bare_run() {
    let idx = build_index();
    let pat = resolve(
        &idx,
        "I run 'regedit.exe' with the following:",
        Some(StepKind::When),
    );
    assert_ne!(pat, "I run '([^']*)'", "bare-run pattern should not absorb data-table step");
}

#[test]
fn process_state_matches_via_unquoted_capture() {
    let idx = build_index();
    let pat = resolve(
        &idx,
        "the process 'calc' with window 'Calculator' is not running",
        Some(StepKind::Then),
    );
    assert_eq!(pat, "the process '([^']*)' with window '([^']*)' (.*) running");
}

#[test]
fn negation_alternation_distinguishes_running_from_starting() {
    let idx = build_index();
    let running = resolve(&idx, "the process 'regedit' is running", Some(StepKind::Then));
    let starting = resolve(&idx, "the process does not start", Some(StepKind::Then));
    assert_eq!(running, "the process '([^']*)' (is|is not|isn't) running");
    assert_eq!(
        starting,
        "the process (has started|does not start|is still waiting for our messagehost)"
    );
}

/// A feature written against the bindings above, with a background, And/But
/// steps, a data table and a second scenario.
const SMOKE_FEATURE: &str = "Feature: Smoke\n\
\n\
  Background:\n\
    Given I run 'DummyVbsScript.vbs' within 'Resources' using 'Run with Defendpoint'\n\
\n\
  @smoke\n\
  Scenario: Service start raises an event\n\
    When I start the 'Avecto QA Test Windows Service' service as the user\n\
    Then the 'Avecto QA Test Windows Service' service status 'is' 'Running'\n\
    And a local ECS event is created with EventId 116\n\
    But 1 local ECS event has been generated\n\
\n\
  Scenario: Running a tool\n\
    Given I take ownership of \"\\Resources\\Testapplication.exe\" as \"BUILTIN\\Administrators\"\n\
    When I run 'regedit.exe' with the following:\n\
      | key | value |\n\
      | a   | b     |\n\
    Then the process 'regedit' is running\n\
    And the process 'calc' with window 'Calculator' is not running\n\
    And the file 'C:\\out.txt' 'does not' exist\n\
    And the process does not start\n";

#[test]
fn scan_resolves_every_step_of_the_smoke_feature() {
    let idx = build_index();
    let steps = parse_feature_steps(SMOKE_FEATURE);
    assert_eq!(steps.len(), 11);
    let unbound: Vec<String> = steps
        .iter()
        .filter(|s| idx.find(&s.text, s.kind).is_none())
        .map(|s| format!("L{} [{:?}] {}", s.line, s.kind, s.text))
        .collect();
    assert!(unbound.is_empty(), "unbound steps: {unbound:?}");
    let report = scan_report("Smoke.feature", &steps, &idx, &BuildStats::default());
    assert!(!report.contains("\"resolved\":null"), "{report}");
    assert_eq!(report.matches("\"resolved\":{").count(), 11);
}
