use vstd::prelude::*;

use crate::cache::hex_digit;
use crate::feature::{step_views, FeatureStep, FeatureStepView};
use crate::index::BuildStats;
use crate::matcher::{first_answer, BindingIndex, MatchResult};
use crate::parser::{kind_name, Binding, BindingView, StepKind};
use crate::text::{chars_of, decimal, push_decimal, push_str};

verus! {

/// How one character stands inside a JSON string.
pub open spec fn json_char(c: char) -> Seq<char> {
    if c == '"' {
        seq!['\\', '"']
    } else if c == '\\' {
        seq!['\\', '\\']
    } else if c == '\n' {
        seq!['\\', 'n']
    } else if c == '\r' {
        seq!['\\', 'r']
    } else if c == '\t' {
        seq!['\\', 't']
    } else if (c as u32) < 0x20 {
        seq!['\\', 'u', '0', '0', hex_digit((c as u32) as int / 16), hex_digit((c as u32) as int % 16)]
    } else {
        seq![c]
    }
}

/// The characters of `s`, each as it stands inside a JSON string.
pub open spec fn json_escaped(s: Seq<char>) -> Seq<char>
    decreases s.len(),
{
    if s.len() == 0 {
        Seq::empty()
    } else {
        json_escaped(s.drop_last()) + json_char(s.last())
    }
}

/// `s` as a JSON string literal.
pub open spec fn json_string(s: Seq<char>) -> Seq<char> {
    seq!['"'] + json_escaped(s) + seq!['"']
}

fn hex_char_small(d: u32) -> (c: char)
    requires
        d < 16,
    ensures
        c == hex_digit(d as int),
{
    if d < 10 {
        ((d + 48) as u8) as char
    } else {
        ((d + 87) as u8) as char
    }
}

/// Appends `s` to `out` as a JSON string literal.
pub fn push_json_string(out: &mut String, s: &str)
    ensures
        final(out)@ == old(out)@ + json_string(s@),
{
    let cs = chars_of(s);
    out.push('"');
    let ghost start = out@;
    let mut i: usize = 0;
    while i < cs.len()
        invariant
            0 <= i <= cs@.len(),
            cs@ == s@,
            start == old(out)@ + seq!['"'],
            out@ == start + json_escaped(cs@.take(i as int)),
        decreases cs@.len() - i,
    {
        let c = cs[i];
        let ghost before = out@;
        if c == '"' {
            out.push('\\');
            out.push('"');
        } else if c == '\\' {
            out.push('\\');
            out.push('\\');
        } else if c == '\n' {
            out.push('\\');
            out.push('n');
        } else if c == '\r' {
            out.push('\\');
            out.push('r');
        } else if c == '\t' {
            out.push('\\');
            out.push('t');
        } else if (c as u32) < 0x20 {
            let v = c as u32;
            out.push('\\');
            out.push('u');
            out.push('0');
            out.push('0');
            out.push(hex_char_small(v / 16));
            out.push(hex_char_small(v % 16));
        } else {
            out.push(c);
        }
        proof {
            assert(out@ =~= before + json_char(c));
            let t = cs@.take(i + 1);
            assert(t.drop_last() =~= cs@.take(i as int));
            assert(t.last() == c);
        }
        i = i + 1;
    }
    out.push('"');
    assert(cs@.take(cs@.len() as int) =~= cs@);
}

/// A resolved binding as a JSON object: file, line, kind and pattern.
pub open spec fn resolved_json(b: BindingView) -> Seq<char> {
    "{\"file\":"@ + json_string(b.file) + ",\"line\":"@ + decimal(b.line as nat)
        + ",\"kind\":\""@ + kind_name(b.kind) + "\",\"pattern\":"@ + json_string(b.pattern)
        + "}"@
}

fn push_resolved(out: &mut String, b: &Binding)
    ensures
        final(out)@ == old(out)@ + resolved_json(b@),
{
    push_str(out, "{\"file\":");
    push_json_string(out, b.file.as_str());
    push_str(out, ",\"line\":");
    push_decimal(out, b.line);
    push_str(out, ",\"kind\":\"");
    push_str(out, b.kind.as_str());
    push_str(out, "\",\"pattern\":");
    push_json_string(out, b.pattern.as_str());
    push_str(out, "}");
    assert(out@ =~= old(out)@ + resolved_json(b@));
}

/// The JSON object that `resolve` prints for a match.
pub fn encode_resolved(m: &MatchResult<'_>) -> (r: String)
    ensures
        r@ == resolved_json(m.binding@),
{
    let mut s = String::new();
    push_resolved(&mut s, m.binding);
    assert(s@ =~= resolved_json(m.binding@));
    s
}

/// What `resolve` prints for a step: the binding it resolves to in `bs`, or
/// an empty object when none answers it.
pub open spec fn resolve_json(bs: Seq<BindingView>, step: Seq<char>, kind: Option<StepKind>) -> Seq<
    char,
> {
    match first_answer(bs, step, kind, 0) {
        Some(j) => resolved_json(bs[j]),
        None => "{}"@,
    }
}

/// Looks `step` up and writes the answer as `resolve` prints it.
pub fn resolve_report(query: &BindingIndex, step: &str, kind: Option<StepKind>) -> (r: String)
    ensures
        r@ == resolve_json(query@, step@, kind),
{
    match query.find(step, kind) {
        Some(m) => encode_resolved(&m),
        None => {
            let mut out = String::new();
            push_str(&mut out, "{}");
            assert(out@ =~= "{}"@);
            out
        },
    }
}

/// A step kind in JSON: its name as a string, or null.
pub open spec fn kind_json(k: Option<StepKind>) -> Seq<char> {
    match k {
        Some(k) => seq!['"'] + kind_name(k) + seq!['"'],
        None => "null"@,
    }
}

/// One step of a scan, with the binding it resolves to in `bs`, or null.
pub open spec fn step_json(st: FeatureStepView, bs: Seq<BindingView>) -> Seq<char> {
    "{\"line\":"@ + decimal(st.line as nat) + ",\"kind\":"@ + kind_json(st.kind) + ",\"keyword\":"@
        + json_string(st.keyword) + ",\"text\":"@ + json_string(st.text) + ",\"resolved\":"@
        + match first_answer(bs, st.text, st.kind, 0) {
        Some(j) => resolved_json(bs[j]),
        None => "null"@,
    } + "}"@
}

/// The steps of a scan, separated by commas.
pub open spec fn steps_json(steps: Seq<FeatureStepView>, bs: Seq<BindingView>) -> Seq<char>
    decreases steps.len(),
{
    if steps.len() == 0 {
        Seq::empty()
    } else if steps.len() == 1 {
        step_json(steps[0], bs)
    } else {
        steps_json(steps.drop_last(), bs) + seq![','] + step_json(steps.last(), bs)
    }
}

/// The JSON document that `scan` prints.
pub open spec fn scan_json(
    feature: Seq<char>,
    steps: Seq<FeatureStepView>,
    bs: Seq<BindingView>,
    stats: BuildStats,
) -> Seq<char> {
    "{\"feature\":"@ + json_string(feature) + ",\"steps\":["@ + steps_json(steps, bs)
        + "],\"stats\":{"@ + "\"files_scanned\":"@ + decimal(stats.files_scanned as nat)
        + ",\"files_reparsed\":"@ + decimal(stats.files_reparsed as nat) + ",\"files_from_cache\":"@
        + decimal(stats.files_from_cache as nat) + ",\"bindings\":"@ + decimal(
        stats.bindings_total as nat,
    ) + "}}"@
}

fn push_kind(out: &mut String, k: Option<StepKind>)
    ensures
        final(out)@ == old(out)@ + kind_json(k),
{
    match k {
        Some(k) => {
            out.push('"');
            push_str(out, k.as_str());
            out.push('"');
            assert(out@ =~= old(out)@ + kind_json(Some(k)));
        },
        None => push_str(out, "null"),
    }
}

fn push_step(out: &mut String, st: &FeatureStep, query: &BindingIndex)
    ensures
        final(out)@ == old(out)@ + step_json(st@, query@),
{
    push_str(out, "{\"line\":");
    push_decimal(out, st.line);
    push_str(out, ",\"kind\":");
    push_kind(out, st.kind);
    push_str(out, ",\"keyword\":");
    push_json_string(out, st.keyword.as_str());
    push_str(out, ",\"text\":");
    push_json_string(out, st.text.as_str());
    push_str(out, ",\"resolved\":");
    let ghost mid = out@;
    match query.find(st.text.as_str(), st.kind) {
        Some(m) => push_resolved(out, m.binding),
        None => push_str(out, "null"),
    }
    let ghost after = out@;
    push_str(out, "}");
    assert(out@ =~= old(out)@ + step_json(st@, query@));
}

/// The report of a scan: the feature's path, every step with the binding it
/// resolves to (or null), and the index counters.
pub fn scan_report(
    feature: &str,
    steps: &[FeatureStep],
    query: &BindingIndex,
    stats: &BuildStats,
) -> (r: String)
    ensures
        r@ == scan_json(feature@, step_views(steps@), query@, *stats),
{
    let mut out = String::new();
    push_str(&mut out, "{\"feature\":");
    push_json_string(&mut out, feature);
    push_str(&mut out, ",\"steps\":[");
    let ghost head = out@;
    let ghost sv = step_views(steps@);
    let mut i: usize = 0;
    while i < steps.len()
        invariant
            0 <= i <= steps@.len(),
            sv == step_views(steps@),
            out@ == head + steps_json(sv.take(i as int), query@),
        decreases steps@.len() - i,
    {
        let ghost before = out@;
        if i > 0 {
            out.push(',');
        }
        push_step(&mut out, &steps[i], query);
        proof {
            let t = sv.take(i + 1);
            assert(t.drop_last() =~= sv.take(i as int));
            assert(t.last() == steps@[i as int]@);
            if i == 0 {
                assert(sv.take(0) =~= Seq::<FeatureStepView>::empty());
                assert(out@ =~= head + steps_json(t, query@));
            } else {
                assert(out@ =~= head + steps_json(t, query@));
            }
        }
        i = i + 1;
    }
    assert(sv.take(steps@.len() as int) =~= sv);
    push_str(&mut out, "],\"stats\":{");
    push_str(&mut out, "\"files_scanned\":");
    push_decimal(&mut out, stats.files_scanned);
    push_str(&mut out, ",\"files_reparsed\":");
    push_decimal(&mut out, stats.files_reparsed);
    push_str(&mut out, ",\"files_from_cache\":");
    push_decimal(&mut out, stats.files_from_cache);
    push_str(&mut out, ",\"bindings\":");
    push_decimal(&mut out, stats.bindings_total);
    push_str(&mut out, "}}");
    assert(out@ =~= scan_json(feature@, sv, query@, *stats));
    out
}

/// One line of `list`: `[Kind] pattern`, a tab, then `file:line`.
pub open spec fn list_line_of(b: BindingView) -> Seq<char> {
    seq!['['] + kind_name(b.kind) + seq![']', ' '] + b.pattern + seq!['\t'] + b.file + seq![':']
        + decimal(b.line as nat)
}

pub fn list_line(b: &Binding) -> (r: String)
    ensures
        r@ == list_line_of(b@),
{
    let mut out = String::new();
    out.push('[');
    push_str(&mut out, b.kind.as_str());
    out.push(']');
    out.push(' ');
    push_str(&mut out, b.pattern.as_str());
    out.push('\t');
    push_str(&mut out, b.file.as_str());
    out.push(':');
    push_decimal(&mut out, b.line);
    assert(out@ =~= list_line_of(b@));
    out
}

/// What a scan reports as the binding of a step: exactly what `resolve`
/// prints for that step's text and kind when a binding answers it, and null
/// when none does.
pub open spec fn scan_resolution(st: FeatureStepView, bs: Seq<BindingView>) -> Seq<char> {
    if first_answer(bs, st.text, st.kind, 0) is Some {
        resolve_json(bs, st.text, st.kind)
    } else {
        "null"@
    }
}

/// Each step of a scan ends with `"resolved":` and the answer that `resolve`
/// gives for the same step text and kind (null for a miss), so a scan never
/// reports a binding other than the one `resolve` finds, nor at another line.
pub proof fn law_scan_resolves_as_resolve(st: FeatureStepView, bs: Seq<BindingView>)
    ensures
        ({
            let j = step_json(st, bs);
            let tail = ",\"resolved\":"@ + scan_resolution(st, bs) + "}"@;
            &&& j.len() >= tail.len()
            &&& j.subrange(j.len() - tail.len(), j.len() as int) == tail
        }),
{
    let tail = ",\"resolved\":"@ + scan_resolution(st, bs) + "}"@;
    let head = "{\"line\":"@ + decimal(st.line as nat) + ",\"kind\":"@ + kind_json(st.kind)
        + ",\"keyword\":"@ + json_string(st.keyword) + ",\"text\":"@ + json_string(st.text);
    assert(step_json(st, bs) =~= head + tail);
    let j = step_json(st, bs);
    assert(j.subrange(j.len() - tail.len(), j.len() as int) =~= tail);
}

/// The report of a scan starts with the feature's path and ends with the
/// index counters, each under its own name and in this order: files scanned,
/// files parsed again, files taken from the cache, and bindings in all.
pub proof fn law_scan_report_counters(
    feature: Seq<char>,
    steps: Seq<FeatureStepView>,
    bs: Seq<BindingView>,
    stats: BuildStats,
)
    ensures
        ({
            let r = scan_json(feature, steps, bs, stats);
            let head = "{\"feature\":"@ + json_string(feature) + ",\"steps\":["@;
            let tail = "],\"stats\":{\"files_scanned\":"@ + decimal(stats.files_scanned as nat)
                + ",\"files_reparsed\":"@ + decimal(stats.files_reparsed as nat)
                + ",\"files_from_cache\":"@ + decimal(stats.files_from_cache as nat)
                + ",\"bindings\":"@ + decimal(stats.bindings_total as nat) + "}}"@;
            &&& r.len() >= head.len() + tail.len()
            &&& r.subrange(0, head.len() as int) == head
            &&& r.subrange(r.len() - tail.len(), r.len() as int) == tail
        }),
{
    let r = scan_json(feature, steps, bs, stats);
    let head = "{\"feature\":"@ + json_string(feature) + ",\"steps\":["@;
    let tail = "],\"stats\":{\"files_scanned\":"@ + decimal(stats.files_scanned as nat)
        + ",\"files_reparsed\":"@ + decimal(stats.files_reparsed as nat)
        + ",\"files_from_cache\":"@ + decimal(stats.files_from_cache as nat)
        + ",\"bindings\":"@ + decimal(stats.bindings_total as nat) + "}}"@;
    reveal_strlit("],\"stats\":{");
    reveal_strlit("\"files_scanned\":");
    reveal_strlit("],\"stats\":{\"files_scanned\":");
    assert("],\"stats\":{"@ + "\"files_scanned\":"@ =~= "],\"stats\":{\"files_scanned\":"@);
    assert(r =~= head + steps_json(steps, bs) + tail);
    assert(r.subrange(0, head.len() as int) =~= head);
    assert(r.subrange(r.len() - tail.len(), r.len() as int) =~= tail);
}

// ---- laws -----------------------------------------------------------------

/// The value of a hexadecimal digit in a JSON `\u` escape (either case).
pub open spec fn json_hex(c: char) -> int {
    if '0' <= c && c <= '9' {
        c as int - 48
    } else if 'a' <= c && c <= 'f' {
        c as int - 87
    } else if 'A' <= c && c <= 'F' {
        c as int - 55
    } else {
        0
    }
}

/// What a JSON reader makes of the characters between a string's quotes:
/// `\"`, `\\`, `\/`, `\b`, `\f`, `\n`, `\r`, `\t` and `\uXXXX` stand for one
/// character each, every other character for itself.
pub open spec fn json_unescape(t: Seq<char>) -> Seq<char>
    decreases t.len(),
{
    if t.len() == 0 {
        Seq::empty()
    } else if t[0] == '\\' && t.len() >= 2 {
        let e = t[1];
        if e == 'u' && t.len() >= 6 {
            seq![
                (json_hex(t[2]) * 4096 + json_hex(t[3]) * 256 + json_hex(t[4]) * 16 + json_hex(
                    t[5],
                )) as char,
            ] + json_unescape(t.skip(6))
        } else {
            (if e == 'n' {
                seq!['\n']
            } else if e == 'r' {
                seq!['\r']
            } else if e == 't' {
                seq!['\t']
            } else if e == 'b' {
                seq!['\u{8}']
            } else if e == 'f' {
                seq!['\u{c}']
            } else {
                seq![e]
            }) + json_unescape(t.skip(2))
        }
    } else {
        seq![t[0]] + json_unescape(t.skip(1))
    }
}

proof fn lemma_hex_digit_json(d: int)
    requires
        0 <= d < 16,
    ensures
        json_hex(hex_digit(d)) == d,
        hex_digit(d) as u32 >= 0x30,
{
}

proof fn lemma_unescape_char(c: char, rest: Seq<char>)
    ensures
        json_unescape(json_char(c) + rest) == seq![c] + json_unescape(rest),
{
    let t = json_char(c) + rest;
    let k = json_char(c).len();
    assert(t.skip(k as int) =~= rest);
    if c == '"' || c == '\\' || c == '\n' || c == '\r' || c == '\t' {
        assert(t[0] == '\\');
        assert(t[1] == json_char(c)[1]);
    } else if (c as u32) < 0x20 {
        let v = (c as u32) as int;
        lemma_hex_digit_json(v / 16);
        lemma_hex_digit_json(v % 16);
        assert(t[0] == '\\');
        assert(t[1] == 'u');
        assert(t[2] == '0');
        assert(t[3] == '0');
        assert(t[4] == hex_digit(v / 16));
        assert(t[5] == hex_digit(v % 16));
        assert(json_hex(t[2]) * 4096 + json_hex(t[3]) * 256 + json_hex(t[4]) * 16 + json_hex(t[5])
            == v);
    } else {
        assert(t[0] == c);
    }
}

proof fn lemma_escaped_front(c: char, s: Seq<char>)
    ensures
        json_escaped(seq![c] + s) == json_char(c) + json_escaped(s),
    decreases s.len(),
{
    let cs = seq![c] + s;
    if s.len() == 0 {
        assert(cs.drop_last() =~= Seq::<char>::empty());
        assert(cs.last() == c);
        assert(json_escaped(cs.drop_last()) =~= Seq::<char>::empty());
        assert(json_escaped(s) =~= Seq::<char>::empty());
        assert(json_escaped(cs) =~= json_char(c) + json_escaped(s));
    } else {
        lemma_escaped_front(c, s.drop_last());
        assert(cs.drop_last() =~= seq![c] + s.drop_last());
        assert(cs.last() == s.last());
        assert(json_escaped(cs) == json_escaped(cs.drop_last()) + json_char(cs.last()));
        assert(json_escaped(s) == json_escaped(s.drop_last()) + json_char(s.last()));
        assert(json_escaped(cs) =~= json_char(c) + json_escaped(s));
    }
}

/// A JSON reader gets back, from between the quotes that the library writes,
/// exactly the string that was written.
pub proof fn law_json_round_trip(s: Seq<char>)
    ensures
        json_unescape(json_escaped(s)) == s,
    decreases s.len(),
{
    if s.len() > 0 {
        let rest = s.skip(1);
        assert(s =~= seq![s[0]] + rest);
        lemma_escaped_front(s[0], rest);
        lemma_unescape_char(s[0], json_escaped(rest));
        law_json_round_trip(rest);
    } else {
        assert(json_escaped(s) =~= Seq::<char>::empty());
    }
}

/// No character the library writes inside a JSON string is a control
/// character, so every string stays on one line.
pub proof fn law_json_no_control(s: Seq<char>)
    ensures
        forall|i: int| 0 <= i < json_escaped(s).len() ==> (#[trigger] json_escaped(s)[i]) as u32 >= 0x20,
    decreases s.len(),
{
    if s.len() > 0 {
        law_json_no_control(s.drop_last());
        let c = s.last();
        let prev = json_escaped(s.drop_last());
        let j = json_char(c);
        if (c as u32) < 0x20 && !(c == '\n' || c == '\r' || c == '\t') {
            let v = (c as u32) as int;
            lemma_hex_digit_json(v / 16);
            lemma_hex_digit_json(v % 16);
        }
        assert forall|i: int| 0 <= i < j.len() implies (#[trigger] j[i]) as u32 >= 0x20 by {}
        assert forall|i: int| 0 <= i < json_escaped(s).len() implies (#[trigger] json_escaped(
            s,
        )[i]) as u32 >= 0x20 by {
            if i >= prev.len() {
                assert(json_escaped(s)[i] == j[i - prev.len()]);
            } else {
                assert(json_escaped(s)[i] == prev[i]);
            }
        }
    }
}

} // verus!
