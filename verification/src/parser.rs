use vstd::prelude::*;

use crate::text::{
    chars_of,
    ended_lines, lemma_ended_lines_same, lemma_ended_lines_step, lemma_lines_of_append,
    lemma_lines_of_single,
    lemma_split_on_step, lines_of, split_on, strip_last,
};

verus! {

/// The three concrete Gherkin step kinds that a binding attribute can declare.
#[derive(Debug, Clone, Copy, PartialEq, Eq, Hash, Structural)]
pub enum StepKind {
    Given,
    When,
    Then,
}

/// The name of a step kind as it is written in source: "Given", "When" or "Then".
pub open spec fn kind_name(k: StepKind) -> Seq<char> {
    match k {
        StepKind::Given => seq!['G', 'i', 'v', 'e', 'n'],
        StepKind::When => seq!['W', 'h', 'e', 'n'],
        StepKind::Then => seq!['T', 'h', 'e', 'n'],
    }
}

/// The step kind that a name denotes, if it is exactly one of the three names.
pub open spec fn kind_named(name: Seq<char>) -> Option<StepKind> {
    if name == kind_name(StepKind::Given) {
        Some(StepKind::Given)
    } else if name == kind_name(StepKind::When) {
        Some(StepKind::When)
    } else if name == kind_name(StepKind::Then) {
        Some(StepKind::Then)
    } else {
        None
    }
}

/// Compares a string with a short ASCII name, character by character.
fn str_is(s: &str, name: &str) -> (r: bool)
    ensures
        r == (s@ == name@),
{
    let n = name.unicode_len();
    if s.unicode_len() != n {
        return false;
    }
    let mut i: usize = 0;
    while i < n
        invariant
            n == name@.len(),
            n == s@.len(),
            0 <= i <= n,
            forall|j: int| 0 <= j < i ==> s@[j] == name@[j],
        decreases n - i,
    {
        if s.get_char(i) != name.get_char(i) {
            return false;
        }
        i = i + 1;
    }
    assert(s@ =~= name@);
    true
}

impl StepKind {
    /// The kind named by a binding attribute (`[Given(...)]`, `[When(...)]`,
    /// `[Then(...)]`); any other name gives `None`.
    pub fn from_attribute(name: &str) -> (r: Option<StepKind>)
        ensures
            r == kind_named(name@),
    {
        Self::from_name(name)
    }

    /// The kind named by a step keyword in a feature file; "And", "But" and
    /// anything else give `None`.
    pub fn from_keyword(word: &str) -> (r: Option<StepKind>)
        ensures
            r == kind_named(word@),
    {
        Self::from_name(word)
    }

    fn from_name(name: &str) -> (r: Option<StepKind>)
        ensures
            r == kind_named(name@),
    {
        proof {
            reveal_strlit("Given");
            reveal_strlit("When");
            reveal_strlit("Then");
            assert("Given"@ =~= kind_name(StepKind::Given));
            assert("When"@ =~= kind_name(StepKind::When));
            assert("Then"@ =~= kind_name(StepKind::Then));
        }
        if str_is(name, "Given") {
            Some(StepKind::Given)
        } else if str_is(name, "When") {
            Some(StepKind::When)
        } else if str_is(name, "Then") {
            Some(StepKind::Then)
        } else {
            None
        }
    }

    pub fn as_str(self) -> (r: &'static str)
        ensures
            r@ == kind_name(self),
    {
        match self {
            StepKind::Given => {
                proof {
                    reveal_strlit("Given");
                }
                "Given"
            },
            StepKind::When => {
                proof {
                    reveal_strlit("When");
                }
                "When"
            },
            StepKind::Then => {
                proof {
                    reveal_strlit("Then");
                }
                "Then"
            },
        }
    }
}

/// A step definition found in a C# source file.
#[derive(Debug)]
pub struct Binding {
    pub kind: StepKind,
    /// The runtime regex pattern (after string-escape unescaping).
    pub pattern: String,
    /// The file the attribute was found in.
    pub file: String,
    /// 1-based line number where the attribute starts.
    pub line: usize,
}

/// A binding as a mathematical value.
pub struct BindingView {
    pub kind: StepKind,
    pub pattern: Seq<char>,
    pub file: Seq<char>,
    pub line: int,
}

impl View for Binding {
    type V = BindingView;

    open spec fn view(&self) -> BindingView {
        BindingView {
            kind: self.kind,
            pattern: self.pattern@,
            file: self.file@,
            line: self.line as int,
        }
    }
}

impl Clone for Binding {
    fn clone(&self) -> (r: Self)
        ensures
            r@ == self@,
    {
        Binding {
            kind: self.kind,
            pattern: self.pattern.clone(),
            file: self.file.clone(),
            line: self.line,
        }
    }
}

pub open spec fn binding_views(bs: Seq<Binding>) -> Seq<BindingView> {
    bs.map_values(|b: Binding| b@)
}

pub open spec fn is_blank(b: char) -> bool {
    b == ' ' || b == '\t'
}

/// The first index at or after `i` that does not hold a space or a tab.
pub open spec fn skip_blanks(line: Seq<char>, i: int) -> int
    decreases line.len() - i,
{
    if 0 <= i < line.len() && is_blank(line[i]) {
        skip_blanks(line, i + 1)
    } else {
        i
    }
}

pub open spec fn is_ident_char(b: char) -> bool {
    ('0' <= b <= '9') || ('A' <= b <= 'Z') || ('a' <= b <= 'z') || b == '_'
}

/// `line` holds the name of `k` at `start`, as a whole word.
pub open spec fn names_kind_at(line: Seq<char>, start: int, k: StepKind) -> bool {
    let end = start + kind_name(k).len();
    &&& 0 <= start
    &&& end <= line.len()
    &&& line.subrange(start, end) == kind_name(k)
    &&& !(end < line.len() && is_ident_char(line[end]))
}

/// The attribute name that starts at `start` (Given, then When, then Then),
/// with the index just past it.
pub open spec fn attribute_at(line: Seq<char>, start: int) -> Option<(StepKind, int)> {
    if names_kind_at(line, start, StepKind::Given) {
        Some((StepKind::Given, start + 5))
    } else if names_kind_at(line, start, StepKind::When) {
        Some((StepKind::When, start + 4))
    } else if names_kind_at(line, start, StepKind::Then) {
        Some((StepKind::Then, start + 4))
    } else {
        None
    }
}

/// Puts `c` in front of the text of a literal read so far.
pub open spec fn cons_text(c: Seq<char>, r: Option<(Seq<char>, int)>) -> Option<(Seq<char>, int)> {
    match r {
        Some((s, j)) => Some((c + s, j)),
        None => None,
    }
}

/// What a backslash followed by `d` stands for in a regular string literal.
pub open spec fn escaped(d: char) -> Seq<char> {
    if d == '"' {
        seq!['"']
    } else if d == '\\' {
        seq!['\\']
    } else if d == 'n' {
        seq!['\n']
    } else if d == 't' {
        seq!['\t']
    } else {
        seq!['\\', d]
    }
}

/// The body of a string literal from `i` on: its text once the escapes are
/// undone, and the index just past the closing quote.
/// `None` when the line ends first.
pub open spec fn literal_body(line: Seq<char>, i: int, verbatim: bool) -> Option<(Seq<char>, int)>
    decreases line.len() - i,
{
    if i < 0 || i >= line.len() {
        None
    } else {
        let c = line[i];
        if !verbatim && c == '\\' {
            if i + 1 >= line.len() {
                None
            } else {
                cons_text(escaped(line[i + 1]), literal_body(line, i + 2, verbatim))
            }
        } else if c == '"' {
            if i + 1 < line.len() && line[i + 1] == '"' {
                cons_text(seq!['"'], literal_body(line, i + 2, verbatim))
            } else {
                Some((Seq::<char>::empty(), i + 1))
            }
        } else {
            cons_text(seq![c], literal_body(line, i + 1, verbatim))
        }
    }
}

/// The C# string literal (`@"..."` or `"..."`) that starts at `start`.
pub open spec fn literal_at(line: Seq<char>, start: int) -> Option<(Seq<char>, int)> {
    if start < 0 || start >= line.len() {
        None
    } else if line[start] == '@' && start + 1 < line.len() && line[start + 1] == '"' {
        literal_body(line, start + 2, true)
    } else if line[start] == '"' {
        literal_body(line, start + 1, false)
    } else {
        None
    }
}

pub proof fn lemma_skip_blanks(line: Seq<char>, i: int)
    ensures
        skip_blanks(line, i) >= i,
        i <= line.len() ==> skip_blanks(line, i) <= line.len(),
    decreases line.len() - i,
{
    if 0 <= i < line.len() && is_blank(line[i]) {
        lemma_skip_blanks(line, i + 1);
    }
}

pub proof fn lemma_literal_body_ends(line: Seq<char>, i: int, verbatim: bool)
    ensures
        literal_body(line, i, verbatim) matches Some((_, j)) ==> i < j <= line.len(),
    decreases line.len() - i,
{
    if 0 <= i < line.len() {
        lemma_literal_body_ends(line, i + 1, verbatim);
        if i + 1 < line.len() {
            lemma_literal_body_ends(line, i + 2, verbatim);
        }
    }
}

pub proof fn lemma_literal_at_ends(line: Seq<char>, start: int)
    ensures
        literal_at(line, start) matches Some((_, j)) ==> start < j <= line.len(),
{
    lemma_literal_body_ends(line, start + 2, true);
    lemma_literal_body_ends(line, start + 1, false);
}

/// The bindings declared on one line, scanning from index `i`: at each `[`
/// that opens a Given/When/Then attribute followed (after blanks) by `(` and
/// (after blanks) a string literal, one binding, and the scan goes on after
/// the literal; anywhere else the scan moves on by one character.
pub open spec fn bindings_from(line: Seq<char>, i: int, number: int, file: Seq<char>) -> Seq<
    BindingView,
>
    decreases line.len() - i,
{
    if i < 0 || i >= line.len() {
        Seq::empty()
    } else if line[i] != '[' {
        bindings_from(line, i + 1, number, file)
    } else {
        match attribute_at(line, i + 1) {
            None => bindings_from(line, i + 1, number, file),
            Some((kind, after_name)) => {
                let paren = skip_blanks(line, after_name);
                if paren >= line.len() || line[paren] != '(' {
                    bindings_from(line, i + 1, number, file)
                } else {
                    let open = skip_blanks(line, paren + 1);
                    match literal_at(line, open) {
                        None => bindings_from(line, i + 1, number, file),
                        Some((pattern, after)) => {
                            proof {
                                lemma_skip_blanks(line, after_name);
                                lemma_skip_blanks(line, paren + 1);
                                lemma_literal_at_ends(line, open);
                            }
                            seq![
                                BindingView { kind, pattern, file, line: number },
                            ] + bindings_from(line, after, number, file)
                        },
                    }
                }
            },
        }
    }
}

/// The bindings declared in a sequence of lines, numbered from 1.
pub open spec fn bindings_in_lines(lines: Seq<Seq<char>>, file: Seq<char>) -> Seq<BindingView>
    decreases lines.len(),
{
    if lines.len() == 0 {
        Seq::empty()
    } else {
        bindings_in_lines(lines.drop_last(), file) + bindings_from(
            lines.last(),
            0,
            lines.len() as int,
            file,
        )
    }
}

/// Every binding declared in the text `source` of a file named `file`.
pub open spec fn bindings_in_source(source: Seq<char>, file: Seq<char>) -> Seq<BindingView> {
    bindings_in_lines(lines_of(source, '\n', '\r'), file)
}


const SPACE: char = ' ';
const TAB: char = '\t';
const LINE_FEED: char = '\n';
const CARRIAGE_RETURN: char = '\r';
const QUOTE: char = '"';
const OPEN_PAREN: char = '(';
const AT: char = '@';
const OPEN_BRACKET: char = '[';
const BACKSLASH: char = '\\';

/// Index of the first character at or after `i` that is not a space or a tab.
fn skip_ws(text: &[char], i: usize) -> (r: usize)
    requires
        i <= text@.len(),
    ensures
        r == skip_blanks(text@, i as int),
{
    let mut j = i;
    while j < text.len() && (text[j] == SPACE || text[j] == TAB)
        invariant
            i <= j <= text@.len(),
            skip_blanks(text@, i as int) == skip_blanks(text@, j as int),
        decreases text@.len() - j,
    {
        j = j + 1;
    }
    j
}

fn is_ident(b: char) -> (r: bool)
    ensures
        r == is_ident_char(b),
{
    ('0' <= b && b <= '9') || ('A' <= b && b <= 'Z') || ('a' <= b && b <= 'z') || b == '_'
}

/// Whether `text` holds the name of `kind` as a whole word at `start`.
fn kind_word_at(text: &[char], start: usize, kind: StepKind) -> (r: bool)
    ensures
        r == names_kind_at(text@, start as int, kind),
{
    let word: Vec<char> = match kind {
        StepKind::Given => vec!['G', 'i', 'v', 'e', 'n'],
        StepKind::When => vec!['W', 'h', 'e', 'n'],
        StepKind::Then => vec!['T', 'h', 'e', 'n'],
    };
    assert(word@ =~= kind_name(kind));
    let n = word.len();
    if start > text.len() || n > text.len() - start {
        return false;
    }
    let end = start + n;
    let mut k: usize = 0;
    while k < n
        invariant
            n == word@.len(),
            end == start + n,
            end <= text@.len(),
            0 <= k <= n,
            word@ == kind_name(kind),
            forall|j: int| 0 <= j < k ==> text@[start + j] == word@[j],
        decreases n - k,
    {
        if text[start + k] != word[k] {
            assert(text@.subrange(start as int, end as int)[k as int] != kind_name(kind)[k as int]);
            return false;
        }
        k = k + 1;
    }
    assert(text@.subrange(start as int, end as int) =~= kind_name(kind));
    !(end < text.len() && is_ident(text[end]))
}

/// If `text[start..]` begins with `Given`/`When`/`Then` as a full word,
/// return the matched kind and the index just past it.
fn read_step_attribute_name(text: &[char], start: usize) -> (r: Option<(StepKind, usize)>)
    requires
        start <= text@.len(),
    ensures
        match r {
            Some((k, e)) => attribute_at(text@, start as int) == Some((k, e as int)),
            None => attribute_at(text@, start as int) is None,
        },
{
    let len = text.len();
    assert(kind_name(StepKind::Given).len() == 5);
    assert(kind_name(StepKind::When).len() == 4);
    assert(kind_name(StepKind::Then).len() == 4);
    if kind_word_at(text, start, StepKind::Given) {
        Some((StepKind::Given, start + 5))
    } else if kind_word_at(text, start, StepKind::When) {
        Some((StepKind::When, start + 4))
    } else if kind_word_at(text, start, StepKind::Then) {
        Some((StepKind::Then, start + 4))
    } else {
        None
    }
}

/// Read a C# string literal starting at `start`. Handles verbatim (`@"..."`)
/// and regular (`"..."`) forms. Returns the unescaped contents and the index
/// just past the closing quote.
fn read_string_literal(text: &[char], start: usize) -> (r: Option<(String, usize)>)
    ensures
        match r {
            Some((s, e)) => literal_at(text@, start as int) == Some((s@, e as int)),
            None => literal_at(text@, start as int) is None,
        },
{
    let len = text.len();
    if start >= len {
        return None;
    }
    let (verbatim, body): (bool, usize) = if text[start] == AT && start + 1 < len && text[start
        + 1] == QUOTE {
        (true, start + 2)
    } else if text[start] == QUOTE {
        (false, start + 1)
    } else {
        return None;
    };
    let mut i: usize = body;
    let ghost body_start = i as int;
    let mut s = String::new();
    loop
        invariant
            len == text@.len(),
            body_start <= i <= len,
            literal_at(text@, start as int) == literal_body(text@, body_start, verbatim),
            literal_body(text@, body_start, verbatim) == cons_text(
                s@,
                literal_body(text@, i as int, verbatim),
            ),
        decreases len - i,
    {
        if i >= len {
            assert(literal_body(text@, i as int, verbatim) is None);
            return None;
        }
        assert(i < text@.len());
        let c = text[i];
        let ghost before = s@;
        if !verbatim && c == BACKSLASH {
            if i + 1 >= len {
                return None;
            }
            let d = text[i + 1];
            if d == QUOTE {
                s.push('"');
            } else if d == BACKSLASH {
                s.push('\\');
            } else if d == 'n' {
                s.push('\n');
            } else if d == 't' {
                s.push('\t');
            } else {
                s.push('\\');
                s.push(d);
            }
            assert(s@ =~= before + escaped(d));
            i = i + 2;
        } else if c == QUOTE {
            if i + 1 < len && text[i + 1] == QUOTE {
                s.push('"');
                assert(s@ =~= before + seq!['"']);
                i = i + 2;
            } else {
                assert(s@ =~= s@ + Seq::<char>::empty());
                return Some((s, i + 1));
            }
        } else {
            s.push(c);
            assert(s@ =~= before + seq![c]);
            i = i + 1;
        }
        proof {
            assert forall|t: Seq<char>, u: Seq<char>, v: Seq<char>| (t + u) + v =~= t + (u + v) by {}
        }
    }
}

/// Appends to `out` every binding declared on `line`.
fn scan_line(line: &[char], line_number: usize, file: &str, out: &mut Vec<Binding>)
    ensures
        binding_views(final(out)@) == binding_views(old(out)@) + bindings_from(
            line@,
            0,
            line_number as int,
            file@,
        ),
{
    let len = line.len();
    let mut i: usize = 0;
    let ghost found: Seq<BindingView> = Seq::empty();
    while i < len
        invariant
            len == line@.len(),
            0 <= i <= len,
            binding_views(out@) == binding_views(old(out)@) + found,
            bindings_from(line@, 0, line_number as int, file@) == found + bindings_from(
                line@,
                i as int,
                line_number as int,
                file@,
            ),
        decreases len - i,
    {
        if line[i] != OPEN_BRACKET {
            i = i + 1;
            continue;
        }
        let attr = read_step_attribute_name(line, i + 1);
        let (kind, after_name) = match attr {
            Some(pair) => pair,
            None => {
                i = i + 1;
                continue;
            },
        };
        proof {
            lemma_skip_blanks(line@, after_name as int);
        }
        let paren = skip_ws(line, after_name);
        if paren >= len || line[paren] != OPEN_PAREN {
            i = i + 1;
            continue;
        }
        proof {
            lemma_skip_blanks(line@, paren + 1);
        }
        let after_paren = skip_ws(line, paren + 1);
        let lit = read_string_literal(line, after_paren);
        let (pattern, after_string) = match lit {
            Some(pair) => pair,
            None => {
                i = i + 1;
                continue;
            },
        };
        proof {
            lemma_literal_at_ends(line@, after_paren as int);
        }
        let b = Binding { kind, pattern, file: file.to_owned(), line: line_number };
        let ghost bv = b@;
        let ghost prev = out@;
        out.push(b);
        proof {
            assert(binding_views(out@) =~= binding_views(prev).push(bv));
            found = found.push(bv);
            assert(found =~= found.drop_last() + seq![bv]);
        }
        i = after_string;
    }
}

/// Extract every Given/When/Then binding declared in a C# source file.
///
/// Tolerates both verbatim (`@"..."`) and regular (`"..."`) string forms,
/// `""`-escaped quotes inside verbatim strings, `\"` and `\\` inside regular
/// strings, and multiple attributes on the same line.
pub fn parse_bindings(source: &str, file: &str) -> (r: Vec<Binding>)
    ensures
        binding_views(r@) == bindings_in_source(source@, file@),
{
    let chars = chars_of(source);
    let text = chars.as_slice();
    let n = text.len();
    let mut out: Vec<Binding> = Vec::new();
    let mut start: usize = 0;
    let mut line_count: usize = 0;
    let mut i: usize = 0;
    let ghost s = text@;
    assert(s.take(0) =~= Seq::<char>::empty());
    while i < n
        invariant
            n == s.len(),
            s == text@,
            s == source@,
            0 <= start <= i <= n,
            line_count <= start,
            split_on(s.take(i as int), '\n').len() == line_count + 1,
            split_on(s.take(i as int), '\n').last() == s.subrange(start as int, i as int),
            binding_views(out@) == bindings_in_lines(ended_lines(s.take(i as int), '\n', '\r'), file@),
        decreases n - i,
    {
        proof {
            lemma_split_on_step(s, '\n', i as int);
        }
        if text[i] == LINE_FEED {
            let mut end = i;
            if end > start && text[end - 1] == CARRIAGE_RETURN {
                end = end - 1;
            }
            let line = &text[start..end];
            proof {
                let piece = s.subrange(start as int, i as int);
                assert(line@ =~= strip_last(piece, '\r'));
                lemma_ended_lines_step(s, '\n', '\r', i as int);
                let e = ended_lines(s.take(i as int), '\n', '\r');
                assert(e.push(line@).drop_last() =~= e);
                assert(ended_lines(s.take(i + 1), '\n', '\r').len() == line_count + 1) by {
                    assert(split_on(s.take(i as int), '\n').drop_last().len() == line_count);
                }
            }
            scan_line(line, line_count + 1, file, &mut out);
            line_count = line_count + 1;
            start = i + 1;
            proof {
                assert(s.subrange(start as int, i + 1) =~= Seq::<char>::empty());
            }
        } else {
            proof {
                lemma_ended_lines_same(s, '\n', '\r', i as int);
                assert(s.subrange(start as int, i as int).push(s[i as int]) =~= s.subrange(
                    start as int,
                    i + 1,
                ));
            }
        }
        i = i + 1;
    }
    proof {
        assert(s.take(n as int) =~= s);
    }
    if start < n {
        let line = &text[start..n];
        proof {
            let e = ended_lines(s, '\n', '\r');
            assert(e.len() == line_count);
            assert(e.push(line@).drop_last() =~= e);
        }
        scan_line(line, line_count + 1, file, &mut out);
    }
    out
}


// ---- laws -----------------------------------------------------------------

proof fn lemma_bindings_from_fields(line: Seq<char>, i: int, number: int, file: Seq<char>)
    ensures
        forall|k: int|
            0 <= k < bindings_from(line, i, number, file).len() ==> (#[trigger] bindings_from(
                line,
                i,
                number,
                file,
            )[k]).line == number && bindings_from(line, i, number, file)[k].file == file,
    decreases line.len() - i,
{
    if 0 <= i < line.len() {
        if line[i] != '[' {
            lemma_bindings_from_fields(line, i + 1, number, file);
        } else {
            match attribute_at(line, i + 1) {
                None => lemma_bindings_from_fields(line, i + 1, number, file),
                Some((kind, after_name)) => {
                    let paren = skip_blanks(line, after_name);
                    if paren >= line.len() || line[paren] != '(' {
                        lemma_bindings_from_fields(line, i + 1, number, file);
                    } else {
                        let open = skip_blanks(line, paren + 1);
                        match literal_at(line, open) {
                            None => lemma_bindings_from_fields(line, i + 1, number, file),
                            Some((pattern, after)) => {
                                lemma_skip_blanks(line, after_name);
                                lemma_skip_blanks(line, paren + 1);
                                lemma_literal_at_ends(line, open);
                                lemma_bindings_from_fields(line, after, number, file);
                            },
                        }
                    }
                },
            }
        }
    }
}

proof fn lemma_bindings_in_lines_positions(lines: Seq<Seq<char>>, file: Seq<char>)
    ensures
        forall|k: int|
            0 <= k < bindings_in_lines(lines, file).len() ==> 1 <= (#[trigger] bindings_in_lines(
                lines,
                file,
            )[k]).line <= lines.len() && bindings_in_lines(lines, file)[k].file == file,
        forall|a: int, b: int|
            0 <= a < b < bindings_in_lines(lines, file).len() ==> (#[trigger] bindings_in_lines(
                lines,
                file,
            )[a]).line <= (#[trigger] bindings_in_lines(lines, file)[b]).line,
    decreases lines.len(),
{
    if lines.len() > 0 {
        let prev = bindings_in_lines(lines.drop_last(), file);
        let here = bindings_from(lines.last(), 0, lines.len() as int, file);
        lemma_bindings_in_lines_positions(lines.drop_last(), file);
        lemma_bindings_from_fields(lines.last(), 0, lines.len() as int, file);
        let all = bindings_in_lines(lines, file);
        assert(all == prev + here);
        assert forall|k: int| 0 <= k < all.len() implies 1 <= (#[trigger] all[k]).line
            <= lines.len() && all[k].file == file by {
            if k >= prev.len() {
                assert(all[k] == here[k - prev.len()]);
            }
        }
        assert forall|a: int, b: int| 0 <= a < b < all.len() implies (#[trigger] all[a]).line <= (
        #[trigger] all[b]).line by {
            if b >= prev.len() {
                assert(all[b] == here[b - prev.len()]);
                if a >= prev.len() {
                    assert(all[a] == here[a - prev.len()]);
                }
            }
        }
    }
}

/// Every binding of a file names that file and one of its lines (numbered
/// from 1), and the bindings come in the order of their lines.
pub proof fn law_bindings_are_located(source: Seq<char>, file: Seq<char>)
    ensures
        ({
            let bs = bindings_in_source(source, file);
            let n = lines_of(source, '\n', '\r').len();
            &&& forall|k: int| 0 <= k < bs.len() ==> 1 <= (#[trigger] bs[k]).line <= n
            &&& forall|k: int| 0 <= k < bs.len() ==> (#[trigger] bs[k]).file == file
            &&& forall|a: int, b: int|
                0 <= a < b < bs.len() ==> (#[trigger] bs[a]).line <= (#[trigger] bs[b]).line
        }),
{
    lemma_bindings_in_lines_positions(lines_of(source, '\n', '\r'), file);
}

/// A pattern written as the body of a verbatim string: every quote doubled.
pub open spec fn verbatim_escape(p: Seq<char>) -> Seq<char>
    decreases p.len(),
{
    if p.len() == 0 {
        Seq::empty()
    } else {
        (if p[0] == '"' {
            seq!['"', '"']
        } else {
            seq![p[0]]
        }) + verbatim_escape(p.drop_first())
    }
}

proof fn lemma_verbatim_body(line: Seq<char>, i: int, p: Seq<char>, rest: Seq<char>)
    requires
        0 <= i <= line.len(),
        line.subrange(i, line.len() as int) == verbatim_escape(p) + seq!['"'] + rest,
        !(rest.len() > 0 && rest[0] == '"'),
    ensures
        literal_body(line, i, true) == Some(
            (p, i + verbatim_escape(p).len() + 1),
        ),
    decreases p.len(),
{
    let tail = line.subrange(i, line.len() as int);
    assert(tail.len() == verbatim_escape(p).len() + 1 + rest.len());
    assert(i < line.len());
    if p.len() == 0 {
        assert(tail[0] == line[i]);
        assert(tail[0] == '"');
        if i + 1 < line.len() {
            assert(tail[1] == line[i + 1]);
            assert(tail[1] == rest[0]);
        }
        assert(p =~= Seq::<char>::empty());
    } else {
        let q = p.drop_first();
        let head: Seq<char> = if p[0] == '"' {
            seq!['"', '"']
        } else {
            seq![p[0]]
        };
        assert(verbatim_escape(p) == head + verbatim_escape(q));
        let j = i + head.len();
        assert(tail[0] == line[i]);
        assert(tail[0] == head[0]);
        if p[0] == '"' {
            assert(tail[1] == line[i + 1]);
            assert(tail[1] == head[1]);
        }
        assert(line.subrange(j, line.len() as int) =~= verbatim_escape(q) + seq!['"'] + rest) by {
            assert(tail =~= head + (verbatim_escape(q) + seq!['"'] + rest));
            assert forall|k: int| 0 <= k < line.len() - j implies line.subrange(
                j,
                line.len() as int,
            )[k] == tail[k + head.len()] by {}
        }
        lemma_verbatim_body(line, j, q, rest);
        if p[0] == '"' {
            assert(seq!['"'] + q =~= p);
        } else {
            assert(seq![p[0]] + q =~= p);
        }
    }
}

/// The line `[Kind(@"body")]` where the body is `p` with its quotes doubled.
pub open spec fn attribute_line(kind: StepKind, p: Seq<char>) -> Seq<char> {
    seq!['['] + kind_name(kind) + seq!['(', '@', '"'] + verbatim_escape(p)
        + seq!['"', ')', ']']
}

/// Writing any pattern as a verbatim string in a step attribute, with its
/// quotes doubled, declares exactly one binding of that kind, whose pattern
/// reads back the pattern's text.
pub proof fn law_verbatim_attribute_round_trip(kind: StepKind, p: Seq<char>, number: int, file: Seq<char>)
    ensures
        bindings_from(attribute_line(kind, p), 0, number, file) == seq![
            BindingView { kind, pattern: p, file, line: number },
        ],
{
    let line = attribute_line(kind, p);
    let w = kind_name(kind);
    let e = verbatim_escape(p);
    let name_end: int = 1 + w.len() as int;
    assert(line[0] == '[');
    assert(line.subrange(1, name_end) =~= w);
    assert(line[name_end] == '(');
    assert(!is_ident_char('('));
    assert(names_kind_at(line, 1, kind));
    if kind != StepKind::Given {
        assert(!names_kind_at(line, 1, StepKind::Given)) by {
            if names_kind_at(line, 1, StepKind::Given) {
                assert(line[1] == kind_name(StepKind::Given)[0]);
                assert(line[1] == w[0]);
            }
        }
    }
    if kind == StepKind::Then {
        assert(!names_kind_at(line, 1, StepKind::When)) by {
            if names_kind_at(line, 1, StepKind::When) {
                assert(line[1] == kind_name(StepKind::When)[0]);
                assert(line[1] == w[0]);
            }
        }
    }
    assert(attribute_at(line, 1) == Some((kind, name_end)));
    assert(!is_blank(line[name_end]));
    assert(skip_blanks(line, name_end) == name_end);
    assert(line[name_end + 1] == AT);
    assert(line[name_end + 2] == '"');
    assert(skip_blanks(line, name_end + 1) == name_end + 1);
    let body: int = name_end + 3;
    let rest = seq![')', ']'];
    assert(line.subrange(body, line.len() as int) =~= e + seq!['"'] + rest);
    lemma_verbatim_body(line, body, p, rest);
    let after: int = body + e.len() as int + 1;
    assert(literal_at(line, name_end + 1) == Some((p, after)));
    assert(line[after] == ')');
    assert(line[after + 1] == ']');
    assert(after + 2 == line.len());
    assert(bindings_from(line, after + 2, number, file) =~= Seq::<BindingView>::empty());
    assert(bindings_from(line, after + 1, number, file) =~= Seq::<BindingView>::empty());
    assert(bindings_from(line, after, number, file) =~= Seq::<BindingView>::empty());
    assert(bindings_from(line, 0, number, file) =~= seq![
        BindingView { kind, pattern: p, file, line: number },
    ]);
}

proof fn lemma_verbatim_escape_avoids(p: Seq<char>, b: char)
    requires
        b != '"',
        forall|i: int| 0 <= i < p.len() ==> p[i] != b,
    ensures
        forall|i: int| 0 <= i < verbatim_escape(p).len() ==> verbatim_escape(p)[i] != b,
    decreases p.len(),
{
    if p.len() > 0 {
        let q = p.drop_first();
        lemma_verbatim_escape_avoids(q, b);
        let head: Seq<char> = if p[0] == '"' {
            seq!['"', '"']
        } else {
            seq![p[0]]
        };
        let e = verbatim_escape(p);
        assert(e == head + verbatim_escape(q));
        assert forall|i: int| 0 <= i < e.len() implies e[i] != b by {
            if i < head.len() {
                assert(e[i] == head[i]);
            } else {
                assert(e[i] == verbatim_escape(q)[i - head.len()]);
            }
        }
    }
}

/// A step attribute whose pattern holds no line feed makes a one-line file
/// that declares that one binding, on line 1.
pub proof fn law_attribute_line_declares_one_binding(kind: StepKind, p: Seq<char>, file: Seq<char>)
    requires
        forall|i: int| 0 <= i < p.len() ==> p[i] != '\n',
    ensures
        bindings_in_source(attribute_line(kind, p), file) == seq![
            BindingView { kind, pattern: p, file, line: 1 },
        ],
{
    let line = attribute_line(kind, p);
    let w = kind_name(kind);
    let e = verbatim_escape(p);
    lemma_verbatim_escape_avoids(p, '\n');
    let a = seq!['['] + w + seq!['(', '@', '"'];
    assert(line == a + e + seq!['"', ')', ']']);
    assert forall|i: int| 0 <= i < line.len() implies line[i] != '\n' by {
        if i < a.len() {
            assert(line[i] == a[i]);
            if 1 <= i < 1 + w.len() {
                assert(a[i] == w[i - 1]);
            }
        } else if i < a.len() + e.len() {
            assert(line[i] == e[i - a.len()]);
        } else {
            assert(line[i] == seq!['"', ')', ']'][i - a.len() - e.len()]);
        }
    }
    lemma_lines_of_single(line, '\n', '\r');
    law_verbatim_attribute_round_trip(kind, p, 1, file);
    let ls = seq![line];
    assert(ls.drop_last() =~= Seq::<Seq<char>>::empty());
    assert(ls.last() == line);
    assert(bindings_in_lines(ls.drop_last(), file) =~= Seq::<BindingView>::empty());
    assert(bindings_in_lines(ls, file) =~= bindings_from(line, 0, 1, file));
}

/// Bindings moved `k` lines down.
pub open spec fn shifted(bs: Seq<BindingView>, k: int) -> Seq<BindingView> {
    bs.map_values(|b: BindingView| BindingView { line: b.line + k, ..b })
}

proof fn lemma_shifted_append(x: Seq<BindingView>, y: Seq<BindingView>, k: int)
    ensures
        shifted(x + y, k) == shifted(x, k) + shifted(y, k),
{
    assert(shifted(x + y, k) =~= shifted(x, k) + shifted(y, k));
}

proof fn lemma_bindings_from_shift(line: Seq<char>, i: int, number: int, k: int, file: Seq<char>)
    ensures
        bindings_from(line, i, number + k, file) == shifted(bindings_from(line, i, number, file), k),
    decreases line.len() - i,
{
    if i < 0 || i >= line.len() {
        assert(shifted(Seq::<BindingView>::empty(), k) =~= Seq::<BindingView>::empty());
    } else if line[i] != '[' {
        lemma_bindings_from_shift(line, i + 1, number, k, file);
    } else {
        match attribute_at(line, i + 1) {
            None => lemma_bindings_from_shift(line, i + 1, number, k, file),
            Some((kind, after_name)) => {
                let paren = skip_blanks(line, after_name);
                if paren >= line.len() || line[paren] != '(' {
                    lemma_bindings_from_shift(line, i + 1, number, k, file);
                } else {
                    let open = skip_blanks(line, paren + 1);
                    match literal_at(line, open) {
                        None => lemma_bindings_from_shift(line, i + 1, number, k, file),
                        Some((pattern, after)) => {
                            lemma_skip_blanks(line, after_name);
                            lemma_skip_blanks(line, paren + 1);
                            lemma_literal_at_ends(line, open);
                            lemma_bindings_from_shift(line, after, number, k, file);
                            let here = seq![BindingView { kind, pattern, file, line: number }];
                            lemma_shifted_append(here, bindings_from(line, after, number, file), k);
                            assert(shifted(here, k) =~= seq![
                                BindingView { kind, pattern, file, line: number + k },
                            ]);
                        },
                    }
                }
            },
        }
    }
}

proof fn lemma_bindings_in_lines_append(l1: Seq<Seq<char>>, l2: Seq<Seq<char>>, file: Seq<char>)
    ensures
        bindings_in_lines(l1 + l2, file) == bindings_in_lines(l1, file) + shifted(
            bindings_in_lines(l2, file),
            l1.len() as int,
        ),
    decreases l2.len(),
{
    if l2.len() == 0 {
        assert(l1 + l2 =~= l1);
        assert(shifted(Seq::<BindingView>::empty(), l1.len() as int) =~= Seq::<BindingView>::empty());
        assert(bindings_in_lines(l1, file) + Seq::<BindingView>::empty() =~= bindings_in_lines(
            l1,
            file,
        ));
    } else {
        lemma_bindings_in_lines_append(l1, l2.drop_last(), file);
        let l = l1 + l2;
        assert(l.drop_last() =~= l1 + l2.drop_last());
        assert(l.last() == l2.last());
        lemma_bindings_from_shift(l2.last(), 0, l2.len() as int, l1.len() as int, file);
        lemma_shifted_append(
            bindings_in_lines(l2.drop_last(), file),
            bindings_from(l2.last(), 0, l2.len() as int, file),
            l1.len() as int,
        );
        assert(bindings_in_lines(l, file) =~= bindings_in_lines(l1, file) + shifted(
            bindings_in_lines(l2, file),
            l1.len() as int,
        ));
    }
}

/// The bindings of two sources joined after a line end are those of the
/// first followed by those of the second, moved down by the first's lines.
pub proof fn law_bindings_of_joined_sources(a: Seq<char>, b: Seq<char>, file: Seq<char>)
    requires
        a.len() == 0 || a.last() == '\n',
    ensures
        bindings_in_source(a + b, file) == bindings_in_source(a, file) + shifted(
            bindings_in_source(b, file),
            lines_of(a, '\n', '\r').len() as int,
        ),
{
    lemma_lines_of_append(a, b, '\n', '\r');
    lemma_bindings_in_lines_append(lines_of(a, '\n', '\r'), lines_of(b, '\n', '\r'), file);
}

/// The names of the kinds are read back as the same kinds.
pub proof fn law_kind_names_round_trip(k: StepKind)
    ensures
        kind_named(kind_name(k)) == Some(k),
{
    assert(kind_name(StepKind::Given) != kind_name(StepKind::When));
    assert(kind_name(StepKind::Given)[0] != kind_name(StepKind::Then)[0]);
    assert(kind_name(StepKind::When)[0] != kind_name(StepKind::Then)[0]);
}

} // verus!
