use vstd::prelude::*;

use crate::parser::{
    attribute_line, binding_views, bindings_in_source,
    law_attribute_line_declares_one_binding, Binding, BindingView, StepKind,
};
use crate::text::{chars_of, string_of};

verus! {

#[verifier::external_type_specification]
#[verifier::external_body]
pub struct ExRegex(regex::Regex);

/// What `regex::Regex::new` makes of a pattern: `None` when it compiles,
/// otherwise the text of its error (`regex::Error`'s `Display`). Both depend
/// on the pattern alone.
pub uninterp spec fn regex_error(pattern: Seq<char>) -> Option<Seq<char>>;

/// Whether the regex that `regex::Regex::new` compiles from `pattern` matches
/// somewhere in `haystack` (`regex::Regex::is_match`).
pub uninterp spec fn regex_is_match(pattern: Seq<char>, haystack: Seq<char>) -> bool;

/// A regex compiled by `regex::Regex::new`, with its default options, and
/// the pattern it was compiled from. Only `compile_regex` makes one.
struct CompiledRegex {
    re: regex::Regex,
    pattern: Ghost<Seq<char>>,
}

impl View for CompiledRegex {
    type V = Seq<char>;

    /// The pattern the regex was compiled from.
    closed spec fn view(&self) -> Seq<char> {
        self.pattern@
    }
}

/// Compiles `pattern` with `regex::Regex::new`. The contract claims that the
/// call succeeds exactly when `regex_error` says so, that the compiled regex
/// carries the pattern it was compiled from, and that a failure's message is
/// the error's `Display` text, both fixed by the pattern.
#[verifier::external_body]
fn compile_regex(pattern: &str) -> (r: Result<CompiledRegex, String>)
    ensures
        match r {
            Ok(c) => regex_error(pattern@) is None && c@ == pattern@,
            Err(message) => regex_error(pattern@) == Some(message@),
        },
{
    match regex::Regex::new(pattern) {
        Ok(re) => Ok(CompiledRegex { re, pattern: Ghost(pattern@) }),
        Err(e) => Err(e.to_string()),
    }
}

/// Runs `regex::Regex::is_match` on a regex that `compile_regex` made. The
/// contract claims that the answer is that of the regex `Regex::new` builds
/// from the same pattern, on the same haystack.
#[verifier::external_body]
fn regex_matches(c: &CompiledRegex, haystack: &str) -> (r: bool)
    ensures
        r == regex_is_match(c@, haystack@),
{
    c.re.is_match(haystack)
}

/// `pattern` anchored at both ends: a `^` is put in front unless it starts
/// with one, and a `$` behind unless it ends with a `$` that no backslash
/// escapes.
pub open spec fn anchored(pattern: Seq<char>) -> Seq<char> {
    let has_start = pattern.len() > 0 && pattern[0] == '^';
    let has_end = pattern.len() > 0 && pattern.last() == '$' && !(pattern.len() >= 2
        && pattern[pattern.len() - 2] == '\\');
    (if has_start {
        Seq::<char>::empty()
    } else {
        seq!['^']
    }) + pattern + (if has_end {
        Seq::<char>::empty()
    } else {
        seq!['$']
    })
}

/// A binding pattern that the regex crate rejected.
#[derive(Debug)]
pub struct CompileError {
    pub pattern: String,
    pub kind: StepKind,
    pub file: String,
    pub line: usize,
    pub message: String,
}

pub struct CompileErrorView {
    pub pattern: Seq<char>,
    pub kind: StepKind,
    pub file: Seq<char>,
    pub line: int,
    pub message: Seq<char>,
}

impl View for CompileError {
    type V = CompileErrorView;

    open spec fn view(&self) -> CompileErrorView {
        CompileErrorView {
            pattern: self.pattern@,
            kind: self.kind,
            file: self.file@,
            line: self.line as int,
            message: self.message@,
        }
    }
}

impl Clone for CompileError {
    fn clone(&self) -> (r: Self)
        ensures
            r@ == self@,
    {
        CompileError {
            pattern: self.pattern.clone(),
            kind: self.kind,
            file: self.file.clone(),
            line: self.line,
            message: self.message.clone(),
        }
    }
}

pub open spec fn error_views(es: Seq<CompileError>) -> Seq<CompileErrorView> {
    es.map_values(|e: CompileError| e@)
}

/// One compile error for each binding whose anchored pattern the regex crate
/// rejects, in binding order.
pub open spec fn compile_errors_of(bs: Seq<BindingView>) -> Seq<CompileErrorView>
    decreases bs.len(),
{
    if bs.len() == 0 {
        Seq::empty()
    } else {
        let b = bs.last();
        compile_errors_of(bs.drop_last()) + match regex_error(anchored(b.pattern)) {
            Some(message) => seq![
                CompileErrorView {
                    pattern: b.pattern,
                    kind: b.kind,
                    file: b.file,
                    line: b.line,
                    message,
                },
            ],
            None => Seq::empty(),
        }
    }
}

/// A binding answers a step of kind `kind` (any kind when `None`): its kind
/// agrees, its anchored pattern compiles, and the regex matches the step.
pub open spec fn answers(b: BindingView, step: Seq<char>, kind: Option<StepKind>) -> bool {
    &&& (kind matches Some(k) ==> b.kind == k)
    &&& regex_error(anchored(b.pattern)) is None
    &&& regex_is_match(anchored(b.pattern), step)
}

/// The first binding at or after index `i` that answers the step.
pub open spec fn first_answer(bs: Seq<BindingView>, step: Seq<char>, kind: Option<StepKind>, i: int) -> Option<int>
    decreases bs.len() - i,
{
    if i < 0 || i >= bs.len() {
        None
    } else if answers(bs[i], step, kind) {
        Some(i)
    } else {
        first_answer(bs, step, kind, i + 1)
    }
}

/// The binding that a lookup found.
#[derive(Debug, Clone, Copy)]
pub struct MatchResult<'a> {
    pub binding: &'a Binding,
}

/// A compiled set of bindings ready for step lookup.
///
/// Patterns that fail to compile are retained but skipped during matching;
/// the public [`compile_errors`](Self::compile_errors) accessor lets callers
/// surface them.
pub struct BindingIndex {
    bindings: Vec<Binding>,
    compiled: Vec<Option<CompiledRegex>>,
    errors: Vec<CompileError>,
}

impl View for BindingIndex {
    type V = Seq<BindingView>;

    closed spec fn view(&self) -> Seq<BindingView> {
        binding_views(self.bindings@)
    }
}

impl BindingIndex {
    /// Each binding has its compiled anchored pattern, or none when that
    /// pattern does not compile; the errors are those of `compile_errors_of`.
    #[verifier::type_invariant]
    closed spec fn well_formed(self) -> bool {
        &&& self.compiled@.len() == self.bindings@.len()
        &&& forall|i: int|
            0 <= i < self.bindings@.len() ==> match #[trigger] self.compiled@[i] {
                Some(re) => regex_error(anchored(self.bindings@[i].pattern@)) is None
                    && re@ == anchored(self.bindings@[i].pattern@),
                None => regex_error(anchored(self.bindings@[i].pattern@)) is Some,
            }
        &&& error_views(self.errors@) == compile_errors_of(binding_views(self.bindings@))
    }

    pub fn build(bindings: Vec<Binding>) -> (r: Self)
        ensures
            r@ == binding_views(bindings@),
    {
        let n = bindings.len();
        let mut compiled: Vec<Option<CompiledRegex>> = Vec::new();
        let mut errors: Vec<CompileError> = Vec::new();
        let mut i: usize = 0;
        while i < n
            invariant
                n == bindings@.len(),
                0 <= i <= n,
                compiled@.len() == i,
                forall|j: int|
                    0 <= j < i ==> match #[trigger] compiled@[j] {
                        Some(re) => regex_error(anchored(bindings@[j].pattern@)) is None
                            && re@ == anchored(bindings@[j].pattern@),
                        None => regex_error(anchored(bindings@[j].pattern@)) is Some,
                    },
                error_views(errors@) == compile_errors_of(binding_views(bindings@.take(i as int))),
            decreases n - i,
        {
            let binding = &bindings[i];
            let anchored_pattern = anchor(binding.pattern.as_str());
            let ghost before = errors@;
            proof {
                let bs = binding_views(bindings@.take(i + 1));
                assert(bs.drop_last() =~= binding_views(bindings@.take(i as int)));
                assert(bs.last() == bindings@[i as int]@);
            }
            match compile_regex(anchored_pattern.as_str()) {
                Ok(re) => {
                    compiled.push(Some(re));
                },
                Err(message) => {
                    errors.push(
                        CompileError {
                            pattern: binding.pattern.clone(),
                            kind: binding.kind,
                            file: binding.file.clone(),
                            line: binding.line,
                            message,
                        },
                    );
                    compiled.push(None);
                    proof {
                        assert(error_views(errors@) =~= error_views(before).push(errors@.last()@));
                    }
                },
            }
            i = i + 1;
        }
        proof {
            assert(bindings@.take(n as int) =~= bindings@);
        }
        BindingIndex { bindings, compiled, errors }
    }

    pub fn len(&self) -> (r: usize)
        ensures
            r == self@.len(),
    {
        self.bindings.len()
    }

    pub fn is_empty(&self) -> (r: bool)
        ensures
            r == (self@.len() == 0),
    {
        self.bindings.len() == 0
    }

    pub fn compile_errors(&self) -> (r: &[CompileError])
        ensures
            error_views(r@) == compile_errors_of(self@),
    {
        proof {
            use_type_invariant(self);
        }
        self.errors.as_slice()
    }

    /// Find the first binding whose pattern matches `step`. When `kind` is
    /// `None` (And/But, or unknown), any binding kind is eligible.
    pub fn find(&self, step: &str, kind: Option<StepKind>) -> (r: Option<MatchResult<'_>>)
        ensures
            match r {
                Some(m) => first_answer(self@, step@, kind, 0) matches Some(j) && m.binding@
                    == self@[j],
                None => first_answer(self@, step@, kind, 0) is None,
            },
    {
        proof {
            use_type_invariant(self);
        }
        let n = self.bindings.len();
        let mut i: usize = 0;
        while i < n
            invariant
                n == self.bindings@.len(),
                n == self.compiled@.len(),
                0 <= i <= n,
                first_answer(self@, step@, kind, 0) == first_answer(self@, step@, kind, i as int),
                forall|j: int|
                    0 <= j < n ==> match #[trigger] self.compiled@[j] {
                        Some(re) => regex_error(anchored(self.bindings@[j].pattern@)) is None
                            && re@ == anchored(self.bindings@[j].pattern@),
                        None => regex_error(anchored(self.bindings@[j].pattern@)) is Some,
                    },
            decreases n - i,
        {
            let binding = &self.bindings[i];
            assert(self@[i as int] == binding@);
            let eligible = match kind {
                Some(want) => binding.kind == want,
                None => true,
            };
            if eligible {
                if let Some(re) = &self.compiled[i] {
                    if regex_matches(re, step) {
                        return Some(MatchResult { binding });
                    }
                }
            }
            i = i + 1;
        }
        None
    }

    pub fn bindings(&self) -> (r: &[Binding])
        ensures
            binding_views(r@) == self@,
    {
        self.bindings.as_slice()
    }
}

/// Anchors `pattern` at both ends, unless it already is.
pub fn anchor(pattern: &str) -> (r: String)
    ensures
        r@ == anchored(pattern@),
{
    let p = chars_of(pattern);
    let n = p.len();
    let has_start = n > 0 && p[0] == '^';
    let has_end = n > 0 && p[n - 1] == '$' && !(n >= 2 && p[n - 2] == '\\');
    let mut out: Vec<char> = Vec::new();
    if !has_start {
        out.push('^');
    }
    let ghost lead = out@;
    let mut i: usize = 0;
    while i < n
        invariant
            n == p@.len(),
            0 <= i <= n,
            out@ == lead + p@.take(i as int),
        decreases n - i,
    {
        out.push(p[i]);
        assert(p@.take(i as int).push(p@[i as int]) =~= p@.take(i + 1));
        i = i + 1;
    }
    if !has_end {
        out.push('$');
    }
    assert(p@.take(n as int) =~= p@);
    assert(out@ =~= anchored(pattern@));
    string_of(out.as_slice())
}

// ---- laws -----------------------------------------------------------------

proof fn lemma_first_answer(bs: Seq<BindingView>, step: Seq<char>, kind: Option<StepKind>, i: int)
    requires
        0 <= i,
    ensures
        match first_answer(bs, step, kind, i) {
            Some(j) => i <= j < bs.len() && answers(bs[j], step, kind) && forall|m: int|
                i <= m < j ==> !answers(#[trigger] bs[m], step, kind),
            None => forall|m: int| i <= m < bs.len() ==> !answers(#[trigger] bs[m], step, kind),
        },
    decreases bs.len() - i,
{
    if i < bs.len() {
        lemma_first_answer(bs, step, kind, i + 1);
    }
}

/// A lookup answers with the first binding, in order, whose kind agrees with
/// the step's (any kind when the step has none), whose anchored pattern
/// compiles and whose regex matches the step; when it finds none, no binding
/// does all three.
pub proof fn law_first_answer(bs: Seq<BindingView>, step: Seq<char>, kind: Option<StepKind>)
    ensures
        match first_answer(bs, step, kind, 0) {
            Some(j) => {
                &&& 0 <= j < bs.len()
                &&& kind matches Some(k) ==> bs[j].kind == k
                &&& regex_error(anchored(bs[j].pattern)) is None
                &&& regex_is_match(anchored(bs[j].pattern), step)
                &&& forall|m: int| 0 <= m < j ==> !answers(#[trigger] bs[m], step, kind)
            },
            None => forall|m: int| 0 <= m < bs.len() ==> !answers(#[trigger] bs[m], step, kind),
        },
{
    lemma_first_answer(bs, step, kind, 0);
}

/// A step with no kind (an And/But with nothing to inherit) is answered at
/// least as early as the same step with any kind: every binding that answers
/// a kind answers a step of no kind too.
pub proof fn law_no_kind_answers_first(bs: Seq<BindingView>, step: Seq<char>, k: StepKind)
    ensures
        first_answer(bs, step, Some(k), 0) matches Some(j) ==> first_answer(bs, step, None, 0) matches Some(j2) && j2 <= j,
{
    lemma_first_answer(bs, step, Some(k), 0);
    lemma_first_answer(bs, step, None, 0);
    if let Some(j) = first_answer(bs, step, Some(k), 0) {
        assert(answers(bs[j], step, None));
    }
}

/// A step that the pattern of a step attribute matches, asked for with the
/// attribute's kind or with none, resolves to the binding that the attribute
/// declares; with another kind it resolves to nothing.
pub proof fn law_declared_step_resolves(
    kind: StepKind,
    p: Seq<char>,
    file: Seq<char>,
    step: Seq<char>,
    other: StepKind,
)
    requires
        forall|i: int| 0 <= i < p.len() ==> p[i] != '\n',
        regex_error(anchored(p)) is None,
        regex_is_match(anchored(p), step),
    ensures
        ({
            let bs = bindings_in_source(attribute_line(kind, p), file);
            &&& bs[0] == (BindingView { kind, pattern: p, file, line: 1 })
            &&& first_answer(bs, step, Some(kind), 0) == Some(0int)
            &&& first_answer(bs, step, None, 0) == Some(0int)
            &&& other != kind ==> first_answer(bs, step, Some(other), 0) is None
        }),
{
    law_attribute_line_declares_one_binding(kind, p, file);
    let bs = bindings_in_source(attribute_line(kind, p), file);
    assert(bs.len() == 1);
    assert(first_answer(bs, step, Some(other), 1) is None);
}

/// The compile error that a binding whose anchored pattern is rejected gives.
pub open spec fn error_of(b: BindingView) -> CompileErrorView {
    CompileErrorView {
        pattern: b.pattern,
        kind: b.kind,
        file: b.file,
        line: b.line,
        message: regex_error(anchored(b.pattern))->0,
    }
}

pub open spec fn rejected(b: BindingView) -> bool {
    regex_error(anchored(b.pattern)) is Some
}

/// The compile errors are those of the rejected bindings, one each, in the
/// bindings' order, each with its binding's pattern, kind, place and the
/// regex crate's message.
pub proof fn law_compile_errors(bs: Seq<BindingView>)
    ensures
        compile_errors_of(bs) == bs.filter(|b: BindingView| rejected(b)).map_values(
            |b: BindingView| error_of(b),
        ),
    decreases bs.len(),
{
    reveal(Seq::filter);
    if bs.len() > 0 {
        law_compile_errors(bs.drop_last());
        let prev = bs.drop_last().filter(|b: BindingView| rejected(b));
        if rejected(bs.last()) {
            assert(prev.push(bs.last()).map_values(|b: BindingView| error_of(b)) =~= prev.map_values(
                |b: BindingView| error_of(b),
            ) + seq![error_of(bs.last())]);
        }
    }
}

/// An anchored pattern starts with `^` and ends with `$`, holds the pattern
/// right after its first character or at its start, and adds at most two
/// characters; a pattern that already starts with `^` and ends with a `$`
/// that no backslash escapes is left as it is; and anchoring twice is
/// anchoring once, unless the pattern ends with a backslash.
pub proof fn law_anchored(p: Seq<char>)
    ensures
        anchored(p).len() >= 2,
        anchored(p)[0] == '^',
        anchored(p).last() == '$',
        p.len() <= anchored(p).len() <= p.len() + 2,
        anchored(p).subrange(0, p.len() as int) == p || anchored(p).subrange(
            1,
            p.len() + 1int,
        ) == p,
        (p.len() >= 2 && p[0] == '^' && p.last() == '$' && p[p.len() - 2] != '\\')
            ==> anchored(p) == p,
        !(p.len() > 0 && p.last() == '\\') ==> anchored(anchored(p)) == anchored(p),
{
    let a = anchored(p);
    let has_start = p.len() > 0 && p[0] == '^';
    let has_end = p.len() > 0 && p.last() == '$' && !(p.len() >= 2 && p[p.len() - 2] == '\\');
    let lead: Seq<char> = if has_start { Seq::empty() } else { seq!['^'] };
    let tail: Seq<char> = if has_end { Seq::empty() } else { seq!['$'] };
    assert(a == lead + p + tail);
    assert(a[0] == '^');
    assert(a.last() == '$');
    if has_start {
        assert(a.subrange(0, p.len() as int) =~= p);
    } else {
        assert(a.subrange(1, p.len() + 1int) =~= p);
    }
    if has_start && has_end {
        assert(a =~= p);
    }
    if !(p.len() > 0 && p.last() == '\\') {
        let a_end = a.len() >= 2 && a[a.len() - 2] == '\\';
        if has_end {
            assert(a[a.len() - 1] == p[p.len() - 1]);
            if p.len() >= 2 {
                assert(a[a.len() - 2] == p[p.len() - 2]);
            } else {
                assert(a[a.len() - 2] == '^');
            }
        } else {
            if p.len() > 0 {
                assert(a[a.len() - 2] == p[p.len() - 1]);
            } else {
                assert(a[a.len() - 2] == '^');
            }
        }
        assert(!a_end);
        assert(anchored(a) =~= a);
    }
}

} // verus!
