use specflow_helper::{parse_bindings, BindingIndex, StepKind};

/// A C# step-definition file with the attribute shapes that real binding
/// trees contain: verbatim and regular strings, doubled quotes, an
/// overloaded method with two attributes, and attributes that are not steps.
const GNARLY: &str = r#"using System;
using TechTalk.SpecFlow;

namespace Sample.Steps
{
    [Binding]
    public class GnarlyBindings
    {
        [Scope(Tag = "keyboard")]
        [Given(@"caps lock is enabled")]
        public void CapsLockIsEnabled() { }

        [Given(@"a reader returns an error '(.*)'")]
        public void ReaderReturnsError(string error) { }

        [Given(@"a time-limited approved JIT App Access request message for (\d+) days is displayed")]
        public void TimeLimitedMessage(int days) { }

        [Given(@"a '(approved|pending|denied)' JIT App Access request message is displayed")]
        public void RequestMessage(string state) { }

        [Given(@"I attempt to stop the '(.*)' service((?: as the user|))")]
        public void AttemptToStop(string service, string asUser) { }

        [Given(@"""(.*)"" has an access level of ""(.*)"" for ""(.*)""")]
        public void AccessLevel(string user, string level, string path) { }

        [Given("groups from '(identity|pmc)' '(are|are not)' available for '(admin|user)'")]
        public void GroupsFromIdentity(string source, string are, string who) { }

        [Given("groups from '(local|remote)' '(are|are not)' available for '(admin|user)'")]
        public void GroupsFromLocal(string source, string are, string who) { }

        [Given(@"I build the repository '(https://github.com/[\w,\-,_]+/(?<repo>[\w,\-,_]+)\.git)' using Microsoft Build")]
        public void BuildRepository(string url, string repo) { }

        [Given(@"I start a JIT Admin session with reason '(.*)'")]
        [Given(@"I start a JIT Admin session with reason '(.*)' for (\d+) minutes")]
        public void StartJitAdminSession(string reason, int minutes = 0) { }

        [When(@"I press the '(.*)' button")]
        public void PressButton(string name) { }

        [Then(@"I ((?:fail to |))delete the '(.*)' key from '(.*)' in the '(.*)' hive and '(.*)' view")]
        public void DeleteKey(string fail, string key, string root, string hive, string view) { }
    }
}
"#;

fn fixture() -> (String, String) {
    (GNARLY.to_string(), "tests/fixtures/gnarly_bindings.cs".to_string())
}

#[test]
fn extracts_every_binding_from_gnarly_fixture() {
    let (src, path) = fixture();
    let bindings = parse_bindings(&src, &path);
    // 13 attributes total (one method carries two [Given(...)] attributes).
    assert_eq!(bindings.len(), 13, "found bindings: {bindings:#?}");
}

#[test]
fn assigns_correct_step_kinds() {
    let (src, path) = fixture();
    let bindings = parse_bindings(&src, &path);
    let givens = bindings.iter().filter(|b| b.kind == StepKind::Given).count();
    let whens = bindings.iter().filter(|b| b.kind == StepKind::When).count();
    let thens = bindings.iter().filter(|b| b.kind == StepKind::Then).count();
    assert_eq!(givens, 11);
    assert_eq!(whens, 1);
    assert_eq!(thens, 1);
}

#[test]
fn unescapes_verbatim_double_quotes() {
    let (src, path) = fixture();
    let bindings = parse_bindings(&src, &path);
    let access = bindings
        .iter()
        .find(|b| b.pattern.contains("has an access level"))
        .expect("access-level binding should be parsed");
    // The C# source has `""(.*)""` which is the verbatim escape for `"(.*)"`.
    assert_eq!(
        access.pattern,
        r#""(.*)" has an access level of "(.*)" for "(.*)""#
    );
}

#[test]
fn parses_non_verbatim_string_form() {
    let (src, path) = fixture();
    let bindings = parse_bindings(&src, &path);
    let groups = bindings
        .iter()
        .find(|b| b.pattern.starts_with("groups from"))
        .expect("non-verbatim binding should be parsed");
    assert_eq!(
        groups.pattern,
        "groups from '(identity|pmc)' '(are|are not)' available for '(admin|user)'"
    );
}

#[test]
fn captures_both_attributes_on_overloaded_method() {
    let (src, path) = fixture();
    let bindings = parse_bindings(&src, &path);
    let jit: Vec<_> = bindings
        .iter()
        .filter(|b| b.pattern.contains("JIT Admin session with reason"))
        .collect();
    assert_eq!(jit.len(), 2);
    // Ensure they're on distinct lines.
    assert_ne!(jit[0].line, jit[1].line);
}

#[test]
fn records_line_numbers_for_jumps() {
    let (src, path) = fixture();
    let bindings = parse_bindings(&src, &path);
    let caps = bindings
        .iter()
        .find(|b| b.pattern == "caps lock is enabled")
        .expect("caps lock binding should be parsed");
    // The fixture places this binding on line 10 (1-based). Update if you
    // shuffle the fixture.
    let actual_line = src
        .lines()
        .position(|l| l.contains(r#"[Given(@"caps lock is enabled")]"#))
        .map(|i| i + 1)
        .expect("binding line should exist");
    assert_eq!(caps.line, actual_line);
}

#[test]
fn ignores_unrelated_attributes() {
    let src = r#"
        [Scope(Tag = "ignored")]
        [TestMethod]
        [GivenButNotReally("nope")]
        public void Foo() { }
    "#;
    let bindings = parse_bindings(src, "inline.cs");
    assert!(bindings.is_empty(), "spurious bindings: {bindings:?}");
}

#[test]
fn handles_multiple_attributes_on_one_line() {
    // Sometimes attributes share a line; both should be picked up.
    let src = r#"        [Given(@"thing one")] [Scope(Tag = "x")] [Given(@"thing two")]"#;
    let bindings = parse_bindings(src, "inline.cs");
    assert_eq!(bindings.len(), 2);
    assert_eq!(bindings[0].pattern, "thing one");
    assert_eq!(bindings[1].pattern, "thing two");
    assert_eq!(bindings[0].line, 1);
    assert_eq!(bindings[1].line, 1);
}

// ---- further cases -------------------------------------------------------

#[test]
fn regular_string_escapes_are_unescaped() {
    let src = r#"[When("tab\there \"q\" back\\slash new\nline \d+ '' and ""dq""")]"#;
    let bindings = parse_bindings(src, "f.cs");
    assert_eq!(bindings.len(), 1);
    assert_eq!(bindings[0].kind, StepKind::When);
    assert_eq!(
        bindings[0].pattern,
        "tab\there \"q\" back\\slash new\nline \\d+ '' and \"dq\""
    );
}

#[test]
fn blanks_between_name_paren_and_literal_are_allowed() {
    let bindings = parse_bindings("[Then \t ( \t@\"x y\", Order = 2)]", "f.cs");
    assert_eq!(bindings.len(), 1);
    assert_eq!(bindings[0].pattern, "x y");
    assert_eq!(bindings[0].kind, StepKind::Then);
}

#[test]
fn unterminated_or_missing_literals_give_nothing() {
    assert!(parse_bindings("[Given(@\"never closed)]", "f.cs").is_empty());
    assert!(parse_bindings("[Given(\"ends in backslash\\", "f.cs").is_empty());
    assert!(parse_bindings("[Given(SomeConstant)]", "f.cs").is_empty());
    assert!(parse_bindings("[Given]", "f.cs").is_empty());
    assert!(parse_bindings("[Given_x(@\"a\")] [When1(@\"b\")]", "f.cs").is_empty());
}

#[test]
fn line_numbers_count_crlf_lines_and_file_is_kept() {
    let src = "// header\r\n\r\n   [When(@\"a\")]\r\n[Then(@\"b\")]";
    let bindings = parse_bindings(src, "dir/File.cs");
    assert_eq!(bindings.len(), 2);
    assert_eq!(bindings[0].line, 3);
    assert_eq!(bindings[1].line, 4);
    assert_eq!(bindings[0].file, "dir/File.cs");
}

#[test]
fn non_ascii_patterns_keep_their_characters() {
    let bindings = parse_bindings("[Given(@\"caf\u{e9}\")]", "x.cs");
    assert_eq!(bindings.len(), 1);
    assert_eq!(bindings[0].kind, StepKind::Given);
    assert_eq!(bindings[0].pattern, "café");
    let bindings = parse_bindings("[When(\"\u{4e2d}\\\"\u{1f600}\\n\")]", "x.cs");
    assert_eq!(bindings.len(), 1);
    assert_eq!(bindings[0].pattern, "\u{4e2d}\"\u{1f600}\n");
    let idx = BindingIndex::build(parse_bindings("[Given(@\"caf\u{e9} (\\w+)\")]", "x.cs"));
    assert!(idx.find("café olé", Some(StepKind::Given)).is_some());
}

#[test]
fn step_kind_names_round_trip() {
    for k in [StepKind::Given, StepKind::When, StepKind::Then] {
        assert_eq!(StepKind::from_keyword(k.as_str()), Some(k));
        assert_eq!(StepKind::from_attribute(k.as_str()), Some(k));
    }
    assert_eq!(StepKind::from_keyword("And"), None);
    assert_eq!(StepKind::from_attribute("given"), None);
    assert_eq!(StepKind::Then.as_str(), "Then");
}
