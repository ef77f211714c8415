use vstd::prelude::*;

use crate::parser::{kind_named, StepKind};
use crate::text::{
    ended_lines, lemma_ended_lines_same, lemma_ended_lines_step, lemma_lines_of_append,
    lemma_split_on_step, lines_of,
    split_on, string_of, strip_last, chars_of,
};

verus! {

/// One step line of a `.feature` file.
#[derive(Debug)]
pub struct FeatureStep {
    /// 1-based line number in the feature file.
    pub line: usize,
    /// Concrete kind (Given/When/Then) — for And/But this is inherited from
    /// the most recent concrete step in the same scenario/background block.
    /// `None` only when an And/But appears with no preceding concrete step
    /// (a malformed feature file).
    pub kind: Option<StepKind>,
    /// The raw keyword the line actually starts with: "Given", "When",
    /// "Then", "And", or "But".
    pub keyword: String,
    /// Step text with the keyword stripped and trailing whitespace trimmed.
    /// The trailing colon for data-table steps is preserved.
    pub text: String,
}

/// A feature step as a mathematical value.
pub struct FeatureStepView {
    pub line: int,
    pub kind: Option<StepKind>,
    pub keyword: Seq<char>,
    pub text: Seq<char>,
}

impl View for FeatureStep {
    type V = FeatureStepView;

    open spec fn view(&self) -> FeatureStepView {
        FeatureStepView {
            line: self.line as int,
            kind: self.kind,
            keyword: self.keyword@,
            text: self.text@,
        }
    }
}

impl Clone for FeatureStep {
    fn clone(&self) -> (r: Self)
        ensures
            r@ == self@,
    {
        FeatureStep {
            line: self.line,
            kind: self.kind,
            keyword: self.keyword.clone(),
            text: self.text.clone(),
        }
    }
}

pub open spec fn step_views(steps: Seq<FeatureStep>) -> Seq<FeatureStepView> {
    steps.map_values(|s: FeatureStep| s@)
}

/// Unicode `White_Space`, the property that `char::is_whitespace` tests.
pub open spec fn is_whitespace(c: char) -> bool {
    ||| ('\u{9}' <= c && c <= '\u{d}')
    ||| c == ' '
    ||| c == '\u{85}'
    ||| c == '\u{a0}'
    ||| c == '\u{1680}'
    ||| ('\u{2000}' <= c && c <= '\u{200a}')
    ||| c == '\u{2028}'
    ||| c == '\u{2029}'
    ||| c == '\u{202f}'
    ||| c == '\u{205f}'
    ||| c == '\u{3000}'
}

/// The first index at or after `i` whose character is not whitespace.
pub open spec fn first_non_ws(s: Seq<char>, i: int) -> int
    decreases s.len() - i,
{
    if 0 <= i < s.len() && is_whitespace(s[i]) {
        first_non_ws(s, i + 1)
    } else {
        i
    }
}

/// The end of `s.take(j)` once trailing whitespace is cut off.
pub open spec fn end_non_ws(s: Seq<char>, j: int) -> int
    decreases j,
{
    if 0 < j <= s.len() && is_whitespace(s[j - 1]) {
        end_non_ws(s, j - 1)
    } else {
        j
    }
}

/// `s` without its leading whitespace (`str::trim_start`).
pub open spec fn trim_start(s: Seq<char>) -> Seq<char> {
    s.skip(first_non_ws(s, 0))
}

/// `s` without its trailing whitespace (`str::trim_end`).
pub open spec fn trim_end(s: Seq<char>) -> Seq<char> {
    s.take(end_non_ws(s, s.len() as int))
}

pub open spec fn starts_with(s: Seq<char>, p: Seq<char>) -> bool {
    p.len() <= s.len() && s.take(p.len() as int) == p
}

/// The five step keywords, in the order they are tried.
pub open spec fn step_keyword(k: int) -> Seq<char> {
    if k == 0 {
        seq!['G', 'i', 'v', 'e', 'n']
    } else if k == 1 {
        seq!['W', 'h', 'e', 'n']
    } else if k == 2 {
        seq!['T', 'h', 'e', 'n']
    } else if k == 3 {
        seq!['A', 'n', 'd']
    } else {
        seq!['B', 'u', 't']
    }
}

/// The Gherkin section openers that start a new scenario or background block.
pub open spec fn section_opener(k: int) -> Seq<char> {
    if k == 0 {
        seq!['S', 'c', 'e', 'n', 'a', 'r', 'i', 'o', ':']
    } else if k == 1 {
        seq!['S', 'c', 'e', 'n', 'a', 'r', 'i', 'o', ' ', 'O', 'u', 't', 'l', 'i', 'n', 'e', ':']
    } else if k == 2 {
        seq![
            'S', 'c', 'e', 'n', 'a', 'r', 'i', 'o', ' ', 'T', 'e', 'm', 'p', 'l', 'a', 't', 'e', ':'
        ]
    } else if k == 3 {
        seq!['B', 'a', 'c', 'k', 'g', 'r', 'o', 'u', 'n', 'd', ':']
    } else if k == 4 {
        seq!['E', 'x', 'a', 'm', 'p', 'l', 'e', 's', ':']
    } else if k == 5 {
        seq!['R', 'u', 'l', 'e', ':']
    } else {
        seq!['F', 'e', 'a', 't', 'u', 'r', 'e', ':']
    }
}

/// A (left-trimmed) line opens a scenario, background or other section.
pub open spec fn is_section_opener(t: Seq<char>) -> bool {
    exists|k: int| 0 <= k < 7 && starts_with(t, #[trigger] section_opener(k))
}

/// The first keyword from index `k` on that, followed by a space, starts `t`.
pub open spec fn keyword_from(t: Seq<char>, k: int) -> Option<int>
    decreases 5 - k,
{
    if k >= 5 || k < 0 {
        None
    } else if starts_with(t, step_keyword(k).push(' ')) {
        Some(k)
    } else {
        keyword_from(t, k + 1)
    }
}

/// What one line contributes: the step it holds, if any, and the kind that
/// later And/But steps inherit. Section openers reset the inherited kind;
/// a Given/When/Then step sets it; every other line leaves it alone.
pub open spec fn line_effect(line: Seq<char>, inherited: Option<StepKind>, number: int) -> (
    Option<FeatureStepView>,
    Option<StepKind>,
) {
    let t = trim_start(line);
    if is_section_opener(t) {
        (None, None)
    } else {
        match keyword_from(t, 0) {
            None => (None, inherited),
            Some(k) => {
                let keyword = step_keyword(k);
                let concrete = kind_named(keyword);
                let kind = if concrete is Some {
                    concrete
                } else {
                    inherited
                };
                let text = trim_end(t.skip(keyword.len() + 1int));
                (Some(FeatureStepView { line: number, kind, keyword, text }), kind)
            },
        }
    }
}

pub open spec fn opt_seq<T>(o: Option<T>) -> Seq<T> {
    match o {
        Some(x) => seq![x],
        None => Seq::empty(),
    }
}

/// The steps of a sequence of lines (numbered from 1), and the kind that an
/// And/But step after them would inherit.
pub open spec fn steps_in_lines(lines: Seq<Seq<char>>) -> (Seq<FeatureStepView>, Option<StepKind>)
    decreases lines.len(),
{
    if lines.len() == 0 {
        (Seq::empty(), None)
    } else {
        let before = steps_in_lines(lines.drop_last());
        let effect = line_effect(lines.last(), before.1, lines.len() as int);
        (before.0 + opt_seq(effect.0), effect.1)
    }
}

/// Every step of a feature file's text.
pub open spec fn feature_steps(source: Seq<char>) -> Seq<FeatureStepView> {
    steps_in_lines(lines_of(source, '\n', '\r')).0
}

fn is_ws(c: char) -> (r: bool)
    ensures
        r == is_whitespace(c),
{
    ('\u{9}' <= c && c <= '\u{d}') || c == ' ' || c == '\u{85}' || c == '\u{a0}' || c
        == '\u{1680}' || ('\u{2000}' <= c && c <= '\u{200a}') || c == '\u{2028}' || c == '\u{2029}'
        || c == '\u{202f}' || c == '\u{205f}' || c == '\u{3000}'
}

fn skip_leading_ws(s: &[char]) -> (r: usize)
    ensures
        r == first_non_ws(s@, 0),
        r <= s@.len(),
{
    let mut i: usize = 0;
    while i < s.len() && is_ws(s[i])
        invariant
            0 <= i <= s@.len(),
            first_non_ws(s@, 0) == first_non_ws(s@, i as int),
        decreases s@.len() - i,
    {
        i = i + 1;
    }
    i
}

fn trailing_ws_start(s: &[char]) -> (r: usize)
    ensures
        r == end_non_ws(s@, s@.len() as int),
        r <= s@.len(),
{
    let mut j: usize = s.len();
    while j > 0 && is_ws(s[j - 1])
        invariant
            0 <= j <= s@.len(),
            end_non_ws(s@, s@.len() as int) == end_non_ws(s@, j as int),
        decreases j,
    {
        j = j - 1;
    }
    j
}

/// Whether `t` starts with `word` followed by `last`.
fn has_prefix(t: &[char], word: &Vec<char>, last: Option<char>) -> (r: bool)
    ensures
        r == starts_with(
            t@,
            match last {
                Some(c) => word@.push(c),
                None => word@,
            },
        ),
{
    let ghost p = match last {
        Some(c) => word@.push(c),
        None => word@,
    };
    let n = word.len();
    let total: usize = match last {
        Some(_) => {
            if n >= t.len() {
                return false;
            }
            n + 1
        },
        None => n,
    };
    if total > t.len() {
        return false;
    }
    let mut k: usize = 0;
    while k < n
        invariant
            n == word@.len(),
            total == p.len(),
            total <= t@.len(),
            p == (match last {
                Some(c) => word@.push(c),
                None => word@,
            }),
            0 <= k <= n,
            forall|j: int| 0 <= j < k ==> t@[j] == p[j],
        decreases n - k,
    {
        if t[k] != word[k] {
            assert(t@.take(total as int)[k as int] != p[k as int]);
            return false;
        }
        k = k + 1;
    }
    if let Some(c) = last {
        if t[n] != c {
            assert(t@.take(total as int)[n as int] != p[n as int]);
            return false;
        }
    }
    assert(t@.take(total as int) =~= p);
    true
}

fn keyword_chars(k: usize) -> (r: Vec<char>)
    requires
        k < 5,
    ensures
        r@ == step_keyword(k as int),
{
    let r = if k == 0 {
        vec!['G', 'i', 'v', 'e', 'n']
    } else if k == 1 {
        vec!['W', 'h', 'e', 'n']
    } else if k == 2 {
        vec!['T', 'h', 'e', 'n']
    } else if k == 3 {
        vec!['A', 'n', 'd']
    } else {
        vec!['B', 'u', 't']
    };
    assert(r@ =~= step_keyword(k as int));
    r
}

fn opener_chars(k: usize) -> (r: Vec<char>)
    requires
        k < 7,
    ensures
        r@ == section_opener(k as int),
{
    let r = if k == 0 {
        vec!['S', 'c', 'e', 'n', 'a', 'r', 'i', 'o', ':']
    } else if k == 1 {
        vec!['S', 'c', 'e', 'n', 'a', 'r', 'i', 'o', ' ', 'O', 'u', 't', 'l', 'i', 'n', 'e', ':']
    } else if k == 2 {
        vec!['S', 'c', 'e', 'n', 'a', 'r', 'i', 'o', ' ', 'T', 'e', 'm', 'p', 'l', 'a', 't', 'e', ':']
    } else if k == 3 {
        vec!['B', 'a', 'c', 'k', 'g', 'r', 'o', 'u', 'n', 'd', ':']
    } else if k == 4 {
        vec!['E', 'x', 'a', 'm', 'p', 'l', 'e', 's', ':']
    } else if k == 5 {
        vec!['R', 'u', 'l', 'e', ':']
    } else {
        vec!['F', 'e', 'a', 't', 'u', 'r', 'e', ':']
    };
    assert(r@ =~= section_opener(k as int));
    r
}

/// Match Gherkin section openers (case-sensitive — matches SpecFlow).
fn is_scenario_boundary(trimmed: &[char]) -> (r: bool)
    ensures
        r == is_section_opener(trimmed@),
{
    let mut k: usize = 0;
    while k < 7
        invariant
            0 <= k <= 7,
            forall|j: int| 0 <= j < k ==> !starts_with(trimmed@, #[trigger] section_opener(j)),
        decreases 7 - k,
    {
        let opener = opener_chars(k);
        if has_prefix(trimmed, &opener, None) {
            return true;
        }
        k = k + 1;
    }
    false
}

fn keyword_of(t: &[char]) -> (r: Option<usize>)
    ensures
        match r {
            Some(k) => keyword_from(t@, 0) == Some(k as int) && k < 5,
            None => keyword_from(t@, 0) is None,
        },
{
    let mut k: usize = 0;
    while k < 5
        invariant
            0 <= k <= 5,
            keyword_from(t@, 0) == keyword_from(t@, k as int),
        decreases 5 - k,
    {
        let word = keyword_chars(k);
        if has_prefix(t, &word, Some(' ')) {
            return Some(k);
        }
        k = k + 1;
    }
    None
}

pub proof fn lemma_keyword_from(t: Seq<char>, k: int)
    ensures
        keyword_from(t, k) matches Some(j) ==> 0 <= j < 5 && starts_with(
            t,
            step_keyword(j).push(' '),
        ),
    decreases 5 - k,
{
    if 0 <= k < 5 {
        lemma_keyword_from(t, k + 1);
    }
}

pub open spec fn opt_step_view(o: Option<FeatureStep>) -> Option<FeatureStepView> {
    match o {
        Some(s) => Some(s@),
        None => None,
    }
}

/// The step on one line, and the kind inherited after it.
fn step_on_line(line: &[char], number: usize, inherited: Option<StepKind>) -> (r: (
    Option<FeatureStep>,
    Option<StepKind>,
))
    ensures
        (opt_step_view(r.0), r.1) == line_effect(line@, inherited, number as int),
{
    let start = skip_leading_ws(line);
    let trimmed = &line[start..line.len()];
    assert(trimmed@ =~= trim_start(line@));
    // Reset inheritance at scenario boundaries.
    if is_scenario_boundary(trimmed) {
        return (None, None);
    }
    let k = match keyword_of(trimmed) {
        Some(k) => k,
        None => {
            return (None, inherited);
        },
    };
    proof {
        lemma_keyword_from(trimmed@, 0);
    }
    let word = keyword_chars(k);
    let keyword = string_of(word.as_slice());
    let concrete = if k == 0 {
        Some(StepKind::Given)
    } else if k == 1 {
        Some(StepKind::When)
    } else if k == 2 {
        Some(StepKind::Then)
    } else {
        None
    };
    proof {
        lemma_keyword_kind(k as int);
    }
    let kind = if concrete.is_some() {
        concrete
    } else {
        inherited
    };
    let rest = &trimmed[word.len() + 1..trimmed.len()];
    assert(rest@ =~= trimmed@.skip(word@.len() + 1int));
    let end = trailing_ws_start(rest);
    let body = &rest[0..end];
    assert(body@ =~= trim_end(rest@));
    let text = string_of(body);
    (Some(FeatureStep { line: number, kind, keyword, text }), kind)
}

/// Parse every step line out of a .feature file.
///
/// Inheritance: scenario and background openers reset the inherited kind so
/// And/But from a previous scenario don't leak into the next one. Other
/// non-step lines (tags, comments, table rows, blank lines, feature/example
/// keywords) are skipped.
pub fn parse_feature_steps(source: &str) -> (r: Vec<FeatureStep>)
    ensures
        step_views(r@) == feature_steps(source@),
{
    let chars = chars_of(source);
    let n = chars.len();
    let mut out: Vec<FeatureStep> = Vec::new();
    let mut inherited: Option<StepKind> = None;
    let mut start: usize = 0;
    let mut line_count: usize = 0;
    let mut i: usize = 0;
    let ghost s = chars@;
    assert(s.take(0) =~= Seq::<char>::empty());
    while i < n
        invariant
            n == s.len(),
            s == chars@,
            s == source@,
            0 <= start <= i <= n,
            line_count <= start,
            split_on(s.take(i as int), '\n').len() == line_count + 1,
            split_on(s.take(i as int), '\n').last() == s.subrange(start as int, i as int),
            (step_views(out@), inherited) == steps_in_lines(
                ended_lines(s.take(i as int), '\n', '\r'),
            ),
        decreases n - i,
    {
        proof {
            lemma_split_on_step(s, '\n', i as int);
        }
        if chars[i] == '\n' {
            let mut end = i;
            if end > start && chars[end - 1] == '\r' {
                end = end - 1;
            }
            let line = &chars.as_slice()[start..end];
            proof {
                let piece = s.subrange(start as int, i as int);
                assert(line@ =~= strip_last(piece, '\r'));
                lemma_ended_lines_step(s, '\n', '\r', i as int);
                let e = ended_lines(s.take(i as int), '\n', '\r');
                assert(e.push(line@).drop_last() =~= e);
                assert(ended_lines(s.take(i + 1), '\n', '\r').len() == line_count + 1) by {
                    assert(split_on(s.take(i as int), '\n').drop_last().len() == line_count);
                }
            }
            let ghost before = out@;
            let (step, next) = step_on_line(line, line_count + 1, inherited);
            if let Some(st) = step {
                out.push(st);
            }
            inherited = next;
            proof {
                assert(step_views(out@) =~= step_views(before) + opt_seq(opt_step_view(step)));
            }
            line_count = line_count + 1;
            start = i + 1;
            proof {
                assert(s.subrange(start as int, i + 1) =~= Seq::<char>::empty());
            }
        } else {
            proof {
                lemma_ended_lines_same(s, '\n', '\r', i as int);
                assert(s.subrange(start as int, i as int).push(s[i as int]) =~= s.subrange(
                    start as int,
                    i + 1,
                ));
            }
        }
        i = i + 1;
    }
    proof {
        assert(s.take(n as int) =~= s);
    }
    if start < n {
        let line = &chars.as_slice()[start..n];
        proof {
            let e = ended_lines(s, '\n', '\r');
            assert(e.len() == line_count);
            assert(e.push(line@).drop_last() =~= e);
        }
        let ghost before = out@;
        let (step, _) = step_on_line(line, line_count + 1, inherited);
        if let Some(st) = step {
            out.push(st);
        }
        proof {
            assert(step_views(out@) =~= step_views(before) + opt_seq(opt_step_view(step)));
        }
    }
    out
}

// ---- laws -----------------------------------------------------------------

/// No line strictly between line numbers `a` and `b` (counted from 1) opens a
/// scenario, background or other section.
pub open spec fn no_opener_between(lines: Seq<Seq<char>>, a: int, b: int) -> bool {
    forall|j: int| a <= j && j + 1 < b && 0 <= j < lines.len() ==> !is_section_opener(
        trim_start(#[trigger] lines[j]),
    )
}

/// The kind that the `i`-th step would have if it is an And/But step: that of
/// the step just before it, unless a section opener lies between the two or
/// there is no step before it.
pub open spec fn inherited_kind(steps: Seq<FeatureStepView>, lines: Seq<Seq<char>>, i: int) -> Option<
    StepKind,
> {
    if i > 0 && no_opener_between(lines, steps[i - 1].line, steps[i].line) {
        steps[i - 1].kind
    } else {
        None
    }
}

pub open spec fn is_step_keyword(w: Seq<char>) -> bool {
    exists|k: int| 0 <= k < 5 && w == #[trigger] step_keyword(k)
}

/// What every step read from `lines` satisfies.
pub open spec fn steps_placed(lines: Seq<Seq<char>>, st: Seq<FeatureStepView>) -> bool {
    &&& forall|i: int| 0 <= i < st.len() ==> 1 <= (#[trigger] st[i]).line <= lines.len()
    &&& forall|a: int, b: int|
        0 <= a < b < st.len() ==> (#[trigger] st[a]).line < (#[trigger] st[b]).line
    &&& forall|i: int|
        0 <= i < st.len() ==> is_step_keyword((#[trigger] st[i]).keyword) && starts_with(
            trim_start(lines[st[i].line - 1]),
            st[i].keyword.push(' '),
        )
    &&& forall|i: int|
        0 <= i < st.len() && kind_named((#[trigger] st[i]).keyword) is Some ==> st[i].kind
            == kind_named(st[i].keyword)
    &&& forall|i: int|
        0 <= i < st.len() && kind_named((#[trigger] st[i]).keyword) is None ==> st[i].kind
            == inherited_kind(st, lines, i)
    &&& forall|i: int|
        0 <= i < st.len() ==> (#[trigger] st[i]).text.len() == 0 || !is_whitespace(
            st[i].text.last(),
        )
}

proof fn lemma_end_non_ws(s: Seq<char>, j: int)
    requires
        0 <= j <= s.len(),
    ensures
        0 <= end_non_ws(s, j) <= j,
        end_non_ws(s, j) == 0 || !is_whitespace(s[end_non_ws(s, j) - 1]),
    decreases j,
{
    if 0 < j && is_whitespace(s[j - 1]) {
        lemma_end_non_ws(s, j - 1);
    }
}

proof fn lemma_trim_end_last(s: Seq<char>)
    ensures
        trim_end(s).len() == 0 || !is_whitespace(trim_end(s).last()),
{
    lemma_end_non_ws(s, s.len() as int);
}

proof fn lemma_keyword_kind(k: int)
    requires
        0 <= k < 5,
    ensures
        (kind_named(step_keyword(k)) is Some) == (k < 3),
        k < 3 ==> kind_named(step_keyword(k)) is Some,
{
    if k == 3 {
        assert(step_keyword(3) != seq!['G', 'i', 'v', 'e', 'n']);
        assert(step_keyword(3)[0] == 'A');
        assert(step_keyword(3) != seq!['W', 'h', 'e', 'n']);
        assert(step_keyword(3) != seq!['T', 'h', 'e', 'n']);
    }
    if k == 4 {
        assert(step_keyword(4)[0] == 'B');
        assert(step_keyword(4) != seq!['G', 'i', 'v', 'e', 'n']);
        assert(step_keyword(4) != seq!['W', 'h', 'e', 'n']);
        assert(step_keyword(4) != seq!['T', 'h', 'e', 'n']);
    }
}

proof fn lemma_no_opener_prefix(lines: Seq<Seq<char>>, a: int, b: int)
    requires
        lines.len() > 0,
        b < lines.len() + 1,
    ensures
        no_opener_between(lines.drop_last(), a, b) == no_opener_between(lines, a, b),
{
    let p = lines.drop_last();
    assert forall|j: int| a <= j && j + 1 < b && 0 <= j < lines.len() implies p[j] == lines[j]
        && 0 <= j < p.len() by {}
    if no_opener_between(p, a, b) {
        assert forall|j: int| a <= j && j + 1 < b && 0 <= j < lines.len() implies !is_section_opener(
            trim_start(#[trigger] lines[j]),
        ) by {
            assert(p[j] == lines[j]);
        }
    }
    if no_opener_between(lines, a, b) {
        assert forall|j: int| a <= j && j + 1 < b && 0 <= j < p.len() implies !is_section_opener(
            trim_start(#[trigger] p[j]),
        ) by {
            assert(p[j] == lines[j]);
        }
    }
}

proof fn lemma_steps_in_lines(lines: Seq<Seq<char>>)
    ensures
        steps_placed(lines, steps_in_lines(lines).0),
        steps_in_lines(lines).1 == (if steps_in_lines(lines).0.len() > 0 && no_opener_between(
            lines,
            steps_in_lines(lines).0.last().line,
            lines.len() + 1int,
        ) {
            steps_in_lines(lines).0.last().kind
        } else {
            None
        }),
    decreases lines.len(),
{
    if lines.len() > 0 {
        let n = lines.len() as int;
        let p = lines.drop_last();
        lemma_steps_in_lines(p);
        let (pst, pinh) = steps_in_lines(p);
        let line = lines.last();
        let effect = line_effect(line, pinh, n);
        let st = steps_in_lines(lines).0;
        assert(st == pst + opt_seq(effect.0));
        assert(lines[n - 1] == line);
        assert forall|i: int| 0 <= i < pst.len() implies st[i] == pst[i] && lines[st[i].line - 1]
            == p[st[i].line - 1] by {}
        if pst.len() > 0 {
            lemma_no_opener_prefix(lines, pst.last().line, n);
        }
        assert forall|i: int| 0 <= i < pst.len() implies inherited_kind(st, lines, i)
            == inherited_kind(pst, p, i) by {
            if i > 0 {
                lemma_no_opener_prefix(lines, pst[i - 1].line, pst[i].line);
            }
        }
        let t = trim_start(line);
        if !is_section_opener(t) {
            match keyword_from(t, 0) {
                None => {},
                Some(k) => {
                    lemma_keyword_from(t, 0);
                    lemma_keyword_kind(k);
                    let keyword = step_keyword(k);
                    lemma_trim_end_last(t.skip(keyword.len() + 1int));
                    let i = pst.len() as int;
                    assert(st[i] == effect.0->0);
                    assert(st.len() == i + 1);
                    assert(is_step_keyword(st[i].keyword));
                },
            }
        }
        if pst.len() > 0 {
            if no_opener_between(lines, pst.last().line, n + 1) {
                assert(no_opener_between(lines, pst.last().line, n));
            } else if no_opener_between(lines, pst.last().line, n) {
                assert(is_section_opener(trim_start(lines[n - 1])));
            }
        }
    }
}

/// Steps moved `k` lines down.
pub open spec fn shifted_steps(st: Seq<FeatureStepView>, k: int) -> Seq<FeatureStepView> {
    st.map_values(|s: FeatureStepView| FeatureStepView { line: s.line + k, ..s })
}

proof fn lemma_line_effect_shift(line: Seq<char>, inherited: Option<StepKind>, n: int, k: int)
    ensures
        line_effect(line, inherited, n + k).1 == line_effect(line, inherited, n).1,
        opt_seq(line_effect(line, inherited, n + k).0) == shifted_steps(
            opt_seq(line_effect(line, inherited, n).0),
            k,
        ),
{
    let e = line_effect(line, inherited, n).0;
    if e is Some {
        assert(shifted_steps(opt_seq(e), k) =~= seq![
            FeatureStepView { line: n + k, ..e->0 },
        ]);
    } else {
        assert(shifted_steps(opt_seq(e), k) =~= Seq::<FeatureStepView>::empty());
    }
}

proof fn lemma_steps_after_opener(l1: Seq<Seq<char>>, l2: Seq<Seq<char>>)
    requires
        l2.len() >= 1,
        is_section_opener(trim_start(l2[0])),
    ensures
        steps_in_lines(l1 + l2).0 == steps_in_lines(l1).0 + shifted_steps(
            steps_in_lines(l2).0,
            l1.len() as int,
        ),
        steps_in_lines(l1 + l2).1 == steps_in_lines(l2).1,
    decreases l2.len(),
{
    let l = l1 + l2;
    assert(l.drop_last() =~= l1 + l2.drop_last());
    assert(l.last() == l2.last());
    if l2.len() == 1 {
        assert(l1 + l2.drop_last() =~= l1);
        assert(l2.drop_last() =~= Seq::<Seq<char>>::empty());
        assert(l2.last() == l2[0]);
        assert(shifted_steps(Seq::<FeatureStepView>::empty(), l1.len() as int) =~= Seq::<
            FeatureStepView,
        >::empty());
        assert(steps_in_lines(l).0 =~= steps_in_lines(l1).0);
        assert(steps_in_lines(l2).0 =~= Seq::<FeatureStepView>::empty());
    } else {
        let p2 = l2.drop_last();
        assert(p2[0] == l2[0]);
        lemma_steps_after_opener(l1, p2);
        let inh = steps_in_lines(p2).1;
        lemma_line_effect_shift(l2.last(), inh, l2.len() as int, l1.len() as int);
        let x = steps_in_lines(p2).0;
        let y = opt_seq(line_effect(l2.last(), inh, l2.len() as int).0);
        assert(shifted_steps(x + y, l1.len() as int) =~= shifted_steps(x, l1.len() as int)
            + shifted_steps(y, l1.len() as int));
        assert(steps_in_lines(l).0 =~= steps_in_lines(l1).0 + shifted_steps(
            steps_in_lines(l2).0,
            l1.len() as int,
        ));
    }
}

/// Reading a feature text that ends with a line end (or is empty), followed
/// by a text whose first line opens a section, gives the steps of the first
/// and then those of the second, moved down by the first's lines: no kind is
/// inherited across the opener.
pub proof fn law_feature_steps_joined_at_opener(a: Seq<char>, b: Seq<char>)
    requires
        a.len() == 0 || a.last() == '\n',
        lines_of(b, '\n', '\r').len() > 0,
        is_section_opener(trim_start(lines_of(b, '\n', '\r')[0])),
    ensures
        feature_steps(a + b) == feature_steps(a) + shifted_steps(
            feature_steps(b),
            lines_of(a, '\n', '\r').len() as int,
        ),
{
    lemma_lines_of_append(a, b, '\n', '\r');
    lemma_steps_after_opener(lines_of(a, '\n', '\r'), lines_of(b, '\n', '\r'));
}

/// `m` is `l` with the whitespace `w` in front of it.
pub open spec fn indented(w: Seq<char>, l: Seq<char>, m: Seq<char>) -> bool {
    &&& forall|j: int| 0 <= j < w.len() ==> is_whitespace(#[trigger] w[j])
    &&& m == w + l
}

proof fn lemma_first_non_ws_bound(s: Seq<char>, i: int)
    requires
        0 <= i <= s.len(),
    ensures
        i <= first_non_ws(s, i) <= s.len(),
    decreases s.len() - i,
{
    if i < s.len() && is_whitespace(s[i]) {
        lemma_first_non_ws_bound(s, i + 1);
    }
}

proof fn lemma_first_non_ws_tail(w: Seq<char>, l: Seq<char>, j: int)
    requires
        0 <= j <= l.len(),
    ensures
        first_non_ws(w + l, w.len() + j) == w.len() + first_non_ws(l, j),
    decreases l.len() - j,
{
    if j < l.len() {
        assert((w + l)[w.len() + j] == l[j]);
        if is_whitespace(l[j]) {
            lemma_first_non_ws_tail(w, l, j + 1);
        }
    }
}

proof fn lemma_first_non_ws_head(w: Seq<char>, l: Seq<char>, i: int)
    requires
        0 <= i <= w.len(),
        forall|j: int| 0 <= j < w.len() ==> is_whitespace(#[trigger] w[j]),
    ensures
        first_non_ws(w + l, i) == w.len() + first_non_ws(l, 0),
    decreases w.len() - i,
{
    if i < w.len() {
        assert((w + l)[i] == w[i]);
        lemma_first_non_ws_head(w, l, i + 1);
    } else {
        lemma_first_non_ws_tail(w, l, 0);
    }
}

proof fn lemma_trim_start_indented(w: Seq<char>, l: Seq<char>)
    requires
        forall|j: int| 0 <= j < w.len() ==> is_whitespace(#[trigger] w[j]),
    ensures
        trim_start(w + l) == trim_start(l),
{
    lemma_first_non_ws_head(w, l, 0);
    lemma_first_non_ws_bound(l, 0);
    assert((w + l).skip(w.len() + first_non_ws(l, 0)) =~= l.skip(first_non_ws(l, 0)));
}

proof fn lemma_steps_same_trim(l1: Seq<Seq<char>>, l2: Seq<Seq<char>>)
    requires
        l1.len() == l2.len(),
        forall|i: int| 0 <= i < l1.len() ==> trim_start(#[trigger] l1[i]) == trim_start(l2[i]),
    ensures
        steps_in_lines(l1) == steps_in_lines(l2),
    decreases l1.len(),
{
    if l1.len() > 0 {
        assert(trim_start(l1[l1.len() - 1]) == trim_start(l2[l2.len() - 1]));
        lemma_steps_same_trim(l1.drop_last(), l2.drop_last());
    }
}

/// Indenting lines of a feature text with whitespace changes none of its
/// steps: line `i` of `s2` is line `i` of `s1` with the whitespace `ws[i]` in
/// front of it.
pub proof fn law_feature_steps_ignore_indentation(s1: Seq<char>, s2: Seq<char>, ws: Seq<Seq<char>>)
    requires
        lines_of(s2, '\n', '\r').len() == lines_of(s1, '\n', '\r').len(),
        ws.len() == lines_of(s1, '\n', '\r').len(),
        forall|i: int|
            0 <= i < ws.len() ==> #[trigger] indented(
                ws[i],
                lines_of(s1, '\n', '\r')[i],
                lines_of(s2, '\n', '\r')[i],
            ),
    ensures
        feature_steps(s2) == feature_steps(s1),
{
    let l1 = lines_of(s1, '\n', '\r');
    let l2 = lines_of(s2, '\n', '\r');
    assert forall|i: int| 0 <= i < l1.len() implies trim_start(#[trigger] l1[i]) == trim_start(
        l2[i],
    ) by {
        assert(indented(ws[i], l1[i], l2[i]));
        lemma_trim_start_indented(ws[i], l1[i]);
    }
    lemma_steps_same_trim(l1, l2);
}

/// Each step read from a feature file stands on a line that starts, after its
/// indentation, with the step's keyword and a space; the steps come in the
/// order of their lines; a Given/When/Then step has that kind; an And/But step
/// has the kind of the step just before it, unless a scenario, background or
/// other section opener lies between the two or no step comes before it, and
/// then it has none; and no step's text ends in whitespace.
pub proof fn law_feature_steps_placed(source: Seq<char>)
    ensures
        steps_placed(lines_of(source, '\n', '\r'), feature_steps(source)),
{
    lemma_steps_in_lines(lines_of(source, '\n', '\r'));
}

} // verus!
