//! One test on concrete values for each property that the library proves of
//! all inputs.

use specflow_helper::cache::cache_file_name;
use specflow_helper::cli::parse_kind;
use specflow_helper::index::BuildStats;
use specflow_helper::matcher::anchor;
use specflow_helper::output::push_json_string;
use specflow_helper::{parse_bindings, parse_feature_steps, BindingIndex, IndexBuilder, StepKind};

const STEPS_CS: &str = "[Then(@\"first\")]\n\
    public void A() {}\n\
    [Given(@\"second\")] [When(@\"third\")]\n\
    \n\
    [Then(@\"fourth\")]\n";

#[test]
fn bindings_come_in_line_order_and_name_their_file() {
    let bs = parse_bindings(STEPS_CS, "Steps/Order.cs");
    let lines: Vec<usize> = bs.iter().map(|b| b.line).collect();
    assert_eq!(lines, vec![1, 3, 3, 5]);
    assert!(bs.iter().all(|b| b.file == "Steps/Order.cs"));
    let patterns: Vec<&str> = bs.iter().map(|b| b.pattern.as_str()).collect();
    assert_eq!(patterns, vec!["first", "second", "third", "fourth"]);
}

#[test]
fn doubled_quotes_in_a_verbatim_attribute_read_back_as_one() {
    let bs = parse_bindings("[Then(@\"\"\"\"\"\")]", "Q.cs");
    assert_eq!(bs.len(), 1);
    assert_eq!(bs[0].kind, StepKind::Then);
    assert_eq!(bs[0].pattern, "\"\"");
    let bs = parse_bindings("[When(@\"say \"\"hi\"\" twice\")]", "Q.cs");
    assert_eq!(bs.len(), 1);
    assert_eq!(bs[0].kind, StepKind::When);
    assert_eq!(bs[0].pattern, "say \"hi\" twice");
}

#[test]
fn kind_names_read_back_as_their_kinds() {
    for k in [StepKind::Given, StepKind::When, StepKind::Then] {
        assert_eq!(StepKind::from_attribute(k.as_str()), Some(k));
        assert_eq!(StepKind::from_keyword(k.as_str()), Some(k));
        assert_eq!(parse_kind(k.as_str()).unwrap(), Some(k));
    }
}

#[test]
fn and_steps_inherit_only_within_their_section() {
    let src = "Feature: F\n\
        Background:\n\
          Given a base   \n\
          # a comment\n\
          And more\t\n\
        Scenario: S\n\
          But nothing before\n\
          When it runs\n\
          | a | b |\n\
          And it keeps running\n";
    let steps = parse_feature_steps(src);
    let summary: Vec<(usize, Option<StepKind>, &str, &str)> = steps
        .iter()
        .map(|s| (s.line, s.kind, s.keyword.as_str(), s.text.as_str()))
        .collect();
    assert_eq!(
        summary,
        vec![
            (3, Some(StepKind::Given), "Given", "a base"),
            (5, Some(StepKind::Given), "And", "more"),
            (7, None, "But", "nothing before"),
            (8, Some(StepKind::When), "When", "it runs"),
            (10, Some(StepKind::When), "And", "it keeps running"),
        ]
    );
    assert!(steps
        .iter()
        .all(|s| !s.text.ends_with(char::is_whitespace)));
}

fn index_of(src: &str) -> BindingIndex {
    BindingIndex::build(parse_bindings(src, "Kinds.cs"))
}

#[test]
fn a_kind_lookup_answers_with_that_kind_and_no_earlier_than_any_kind() {
    let idx = index_of(
        "[Given(@\"it (.*)\")]\n[When(@\"it runs\")]\n[Then(@\"it runs\")]\n[When(@\"it (\\w+)\")]\n",
    );
    let when = idx.find("it runs", Some(StepKind::When)).unwrap();
    assert_eq!(when.binding.kind, StepKind::When);
    assert_eq!(when.binding.line, 2);
    let then = idx.find("it runs", Some(StepKind::Then)).unwrap();
    assert_eq!(then.binding.kind, StepKind::Then);
    assert_eq!(then.binding.line, 3);
    let any = idx.find("it runs", None).unwrap();
    assert_eq!(any.binding.line, 1);
    assert!(any.binding.line <= when.binding.line);
    assert!(any.binding.line <= then.binding.line);
    assert!(idx.find("it stops", Some(StepKind::Then)).is_none());
}

#[test]
fn one_compile_error_per_rejected_pattern_in_order() {
    let idx = index_of(
        "[Given(@\"ok\")]\n[When(@\"broken (\")]\n[Then(@\"fine\")]\n[Then(@\"also [broken\")]\n",
    );
    let errors = idx.compile_errors();
    assert_eq!(errors.len(), 2);
    assert_eq!(errors[0].pattern, "broken (");
    assert_eq!(errors[0].kind, StepKind::When);
    assert_eq!(errors[0].line, 2);
    assert_eq!(errors[0].file, "Kinds.cs");
    assert!(!errors[0].message.is_empty());
    assert_eq!(errors[1].pattern, "also [broken");
    assert_eq!(errors[1].kind, StepKind::Then);
    assert_eq!(errors[1].line, 4);
    assert!(idx.find("broken (", None).is_none());
    assert_eq!(idx.len(), 4);
}

#[test]
fn anchoring_twice_is_anchoring_once_unless_a_backslash_ends_it() {
    for p in ["", "a", "^a", "a$", "^a$", "a\\$", "$", "^", "x.*y"] {
        let once = anchor(p);
        assert!(once.starts_with('^'));
        assert!(once.ends_with('$'));
        assert!(once.len() <= p.len() + 2);
        assert_eq!(anchor(&once), once, "pattern {p:?}");
    }
    assert_eq!(anchor("^a$"), "^a$");
    assert_eq!(anchor("a\\"), "^a\\$");
    assert_eq!(anchor(&anchor("a\\")), "^a\\$$");
}

#[test]
fn cache_names_read_back_as_their_hashes() {
    for h in [0u64, 1, 0xff, 0x0123_4567_89ab_cdef, u64::MAX] {
        let name = cache_file_name(h);
        assert_eq!(name.len(), 21);
        assert!(name.ends_with(".json"));
        assert_eq!(u64::from_str_radix(&name[..16], 16).unwrap(), h);
    }
    assert_eq!(cache_file_name(0xff), "00000000000000ff.json");
    assert_ne!(cache_file_name(1), cache_file_name(16));
}

#[test]
fn json_strings_read_back_and_hold_no_control_characters() {
    for s in ["", "plain", "a\"b\\c", "line\nbreak\r\ttab", "\u{0}\u{1}\u{1f}\u{7f}", "é ✓ \u{2028}"] {
        let mut out = String::new();
        push_json_string(&mut out, s);
        let back: String = serde_json::from_str(&out).unwrap();
        assert_eq!(back, s);
        let body = &out[1..out.len() - 1];
        assert!(body.chars().all(|c| (c as u32) >= 0x20), "escaped {out:?}");
    }
}

#[test]
fn finished_counters_add_up_when_a_file_is_skipped() {
    // Three files were found, but one vanished before it could be read.
    let mut builder = IndexBuilder::new(None, 3);
    builder.record_parsed("A.cs".to_string(), 5, 10, "[Given(@\"a\")]");
    builder.record_parsed("C.cs".to_string(), 6, 11, "[When(@\"c\")] [Then(@\"d\")]");
    let (index, cache) = builder.finish();
    let BuildStats { files_scanned, files_reparsed, files_from_cache, bindings_total } = index.stats;
    assert_eq!(files_scanned, 3);
    assert_eq!(files_reparsed + files_from_cache, cache.entries.len());
    assert!(cache.entries.len() <= files_scanned);
    assert_eq!(bindings_total, index.bindings.len());
    assert_eq!(bindings_total, 3);
}

#[test]
fn a_declared_step_resolves_to_its_binding() {
    let idx = BindingIndex::build(parse_bindings("[When(@\"I press (\\d+) \"\"now\"\"\")]", "One.cs"));
    let hit = idx.find("I press 7 \"now\"", Some(StepKind::When)).unwrap();
    assert_eq!(hit.binding.line, 1);
    assert_eq!(hit.binding.kind, StepKind::When);
    assert_eq!(hit.binding.pattern, "I press (\\d+) \"now\"");
    assert_eq!(hit.binding.file, "One.cs");
    assert_eq!(idx.find("I press 7 \"now\"", None).unwrap().binding.line, 1);
    assert!(idx.find("I press 7 \"now\"", Some(StepKind::Given)).is_none());
    assert!(idx.find("I press 7 \"now\"", Some(StepKind::Then)).is_none());
}

#[test]
fn bindings_of_joined_sources_are_renumbered() {
    let a = "[Given(@\"one\")]\r\nvoid A() {}\n";
    let b = "\n[When(@\"two\")] [Then(@\"three\")]";
    let joined = parse_bindings(&format!("{a}{b}"), "J.cs");
    let mut expected = parse_bindings(a, "J.cs");
    let shift = a.lines().count();
    for mut x in parse_bindings(b, "J.cs") {
        x.line += shift;
        expected.push(x);
    }
    let summary = |bs: &[specflow_helper::Binding]| -> Vec<(usize, StepKind, String)> {
        bs.iter().map(|x| (x.line, x.kind, x.pattern.clone())).collect()
    };
    assert_eq!(summary(&joined), summary(&expected));
    assert_eq!(
        summary(&joined),
        vec![
            (1, StepKind::Given, "one".to_string()),
            (4, StepKind::When, "two".to_string()),
            (4, StepKind::Then, "three".to_string()),
        ]
    );
}

fn step_summary(src: &str) -> Vec<(usize, Option<StepKind>, String, String)> {
    parse_feature_steps(src)
        .into_iter()
        .map(|s| (s.line, s.kind, s.keyword, s.text))
        .collect()
}

#[test]
fn indentation_changes_no_step() {
    let flat = "Feature: F\nScenario: S\nGiven a\nAnd b \nWhen c\n";
    let indented = "Feature: F\n  Scenario: S\n\t  Given a\n    And b \n \u{a0}When c\n";
    assert_eq!(step_summary(flat), step_summary(indented));
    assert_eq!(step_summary(flat).len(), 3);
}

#[test]
fn no_kind_is_inherited_across_a_section_opener() {
    let a = "Feature: F\nScenario: one\n  Then it ends\n";
    let b = "Scenario: two\n  And more\n  Given x\n  But y\n";
    let joined = step_summary(&format!("{a}{b}"));
    let mut expected = step_summary(a);
    let shift = a.lines().count();
    for (line, kind, kw, text) in step_summary(b) {
        expected.push((line + shift, kind, kw, text));
    }
    assert_eq!(joined, expected);
    assert_eq!(joined[1], (5, None, "And".to_string(), "more".to_string()));
    assert_eq!(joined[3], (7, Some(StepKind::Given), "But".to_string(), "y".to_string()));
}
