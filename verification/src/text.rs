use vstd::prelude::*;

verus! {

/// Splits `s` at every occurrence of `sep`. The result always holds one more
/// piece than `s` holds separators; pieces may be empty.
pub open spec fn split_on<T>(s: Seq<T>, sep: T) -> Seq<Seq<T>>
    decreases s.len(),
{
    if s.len() == 0 {
        seq![Seq::<T>::empty()]
    } else {
        let r = split_on(s.drop_last(), sep);
        if s.last() == sep {
            r.push(Seq::<T>::empty())
        } else {
            r.update(r.len() - 1, r.last().push(s.last()))
        }
    }
}

/// `s` without one trailing `x`, if it ends with one.
pub open spec fn strip_last<T>(s: Seq<T>, x: T) -> Seq<T> {
    if s.len() > 0 && s.last() == x {
        s.drop_last()
    } else {
        s
    }
}

/// The lines that ended with a line feed, each without its line feed and
/// without one carriage return that stood just before it.
pub open spec fn ended_lines<T>(s: Seq<T>, nl: T, cr: T) -> Seq<Seq<T>> {
    split_on(s, nl).drop_last().map_values(|l: Seq<T>| strip_last(l, cr))
}

/// The lines of a text, as `str::lines` yields them: the text is cut at each
/// line feed; a line that a line feed ended loses that line feed and one
/// carriage return before it; a last line with no line feed after it is kept
/// as it is, unless it is empty.
pub open spec fn lines_of<T>(s: Seq<T>, nl: T, cr: T) -> Seq<Seq<T>> {
    let pieces = split_on(s, nl);
    if pieces.last().len() == 0 {
        ended_lines(s, nl, cr)
    } else {
        ended_lines(s, nl, cr).push(pieces.last())
    }
}

pub proof fn lemma_split_on_nonempty<T>(s: Seq<T>, sep: T)
    ensures
        split_on(s, sep).len() >= 1,
    decreases s.len(),
{
    if s.len() > 0 {
        lemma_split_on_nonempty(s.drop_last(), sep);
    }
}

/// What one more element does to the pieces of a prefix of `s`.
pub proof fn lemma_split_on_step<T>(s: Seq<T>, sep: T, i: int)
    requires
        0 <= i < s.len(),
    ensures
        split_on(s.take(i), sep).len() >= 1,
        s[i] == sep ==> split_on(s.take(i + 1), sep) == split_on(s.take(i), sep).push(
            Seq::<T>::empty(),
        ),
        s[i] != sep ==> split_on(s.take(i + 1), sep) == split_on(s.take(i), sep).update(
            split_on(s.take(i), sep).len() - 1,
            split_on(s.take(i), sep).last().push(s[i]),
        ),
        s[i] != sep ==> split_on(s.take(i + 1), sep).len() == split_on(s.take(i), sep).len(),
{
    lemma_split_on_nonempty(s.take(i), sep);
    assert(s.take(i + 1).drop_last() =~= s.take(i));
    assert(s.take(i + 1).last() == s[i]);
}

/// The pieces of a prefix that ends just after a separator grow by the piece
/// that the separator closed.
pub proof fn lemma_ended_lines_step<T>(s: Seq<T>, nl: T, cr: T, i: int)
    requires
        0 <= i < s.len(),
        s[i] == nl,
    ensures
        ended_lines(s.take(i + 1), nl, cr) == ended_lines(s.take(i), nl, cr).push(
            strip_last(split_on(s.take(i), nl).last(), cr),
        ),
{
    lemma_split_on_step(s, nl, i);
    let p = split_on(s.take(i), nl);
    assert(p.push(Seq::<T>::empty()).drop_last() =~= p);
    assert(p.drop_last().push(p.last()) =~= p);
    let f = |l: Seq<T>| strip_last(l, cr);
    assert(p.map_values(f) =~= p.drop_last().map_values(f).push(f(p.last())));
}

/// Appending a non-separator element leaves the ended lines alone.
pub proof fn lemma_ended_lines_same<T>(s: Seq<T>, nl: T, cr: T, i: int)
    requires
        0 <= i < s.len(),
        s[i] != nl,
    ensures
        ended_lines(s.take(i + 1), nl, cr) == ended_lines(s.take(i), nl, cr),
{
    lemma_split_on_step(s, nl, i);
    let p = split_on(s.take(i), nl);
    let q = split_on(s.take(i + 1), nl);
    assert(q.drop_last() =~= p.drop_last());
}

/// Cutting a text that ends at a separator (or is empty) and then more text:
/// the pieces of the first part, but its last (empty) one, then those of the
/// second.
pub proof fn lemma_split_on_append<T>(a: Seq<T>, b: Seq<T>, sep: T)
    requires
        a.len() == 0 || a.last() == sep,
    ensures
        split_on(a + b, sep) == split_on(a, sep).drop_last() + split_on(b, sep),
    decreases b.len(),
{
    lemma_split_on_nonempty(a, sep);
    lemma_split_on_nonempty(b, sep);
    let sa = split_on(a, sep);
    if a.len() == 0 {
        assert(a + b =~= b);
        assert(sa.drop_last() =~= Seq::<Seq<T>>::empty());
        assert(sa.drop_last() + split_on(b, sep) =~= split_on(b, sep));
    } else {
        assert(a.drop_last().push(a.last()) =~= a);
        assert(sa == split_on(a.drop_last(), sep).push(Seq::<T>::empty()));
        assert(sa.last() =~= Seq::<T>::empty());
    }
    if b.len() == 0 {
        assert(a + b =~= a);
        assert(split_on(b, sep) =~= seq![Seq::<T>::empty()]);
        assert(sa.drop_last() + split_on(b, sep) =~= sa);
    } else {
        lemma_split_on_append(a, b.drop_last(), sep);
        lemma_split_on_nonempty(b.drop_last(), sep);
        let ab = a + b;
        assert(ab.drop_last() =~= a + b.drop_last());
        assert(ab.last() == b.last());
        let x = sa.drop_last();
        let y = split_on(b.drop_last(), sep);
        if b.last() == sep {
            assert((x + y).push(Seq::<T>::empty()) =~= x + y.push(Seq::<T>::empty()));
        } else {
            assert((x + y).update((x + y).len() - 1, (x + y).last().push(b.last())) =~= x + y.update(
                y.len() - 1,
                y.last().push(b.last()),
            ));
        }
    }
}

/// The lines of a text that ends with a line feed (or is empty), followed by
/// more text, are its lines followed by those of the rest.
pub proof fn lemma_lines_of_append<T>(a: Seq<T>, b: Seq<T>, nl: T, cr: T)
    requires
        a.len() == 0 || a.last() == nl,
    ensures
        lines_of(a + b, nl, cr) == lines_of(a, nl, cr) + lines_of(b, nl, cr),
{
    lemma_split_on_append(a, b, nl);
    lemma_split_on_nonempty(a, nl);
    lemma_split_on_nonempty(b, nl);
    let sa = split_on(a, nl);
    let sb = split_on(b, nl);
    if a.len() > 0 {
        assert(a.drop_last().push(a.last()) =~= a);
        assert(sa == split_on(a.drop_last(), nl).push(Seq::<T>::empty()));
    } else {
        assert(sa =~= seq![Seq::<T>::empty()]);
    }
    assert(sa.last().len() == 0);
    let f = |l: Seq<T>| strip_last(l, cr);
    let sab = sa.drop_last() + sb;
    assert(sab.drop_last() =~= sa.drop_last() + sb.drop_last());
    assert(sab.last() == sb.last());
    assert((sa.drop_last() + sb.drop_last()).map_values(f) =~= sa.drop_last().map_values(f)
        + sb.drop_last().map_values(f));
    assert(lines_of(a, nl, cr) == ended_lines(a, nl, cr));
    if sb.last().len() == 0 {
        assert(lines_of(a + b, nl, cr) =~= lines_of(a, nl, cr) + lines_of(b, nl, cr));
    } else {
        assert(lines_of(a + b, nl, cr) =~= lines_of(a, nl, cr) + lines_of(b, nl, cr));
    }
}

/// A sequence with no separator in it is one piece.
pub proof fn lemma_split_on_without<T>(s: Seq<T>, sep: T)
    requires
        forall|i: int| 0 <= i < s.len() ==> s[i] != sep,
    ensures
        split_on(s, sep) == seq![s],
    decreases s.len(),
{
    if s.len() > 0 {
        lemma_split_on_without(s.drop_last(), sep);
        assert(s.last() == s[s.len() - 1]);
        assert(s.drop_last().push(s.last()) =~= s);
        assert(seq![s.drop_last()].update(0, s.drop_last().push(s.last())) =~= seq![s]);
    } else {
        assert(s =~= Seq::<T>::empty());
    }
}

/// A non-empty text with no line feed is a single line.
pub proof fn lemma_lines_of_single<T>(s: Seq<T>, nl: T, cr: T)
    requires
        s.len() > 0,
        forall|i: int| 0 <= i < s.len() ==> s[i] != nl,
    ensures
        lines_of(s, nl, cr) == seq![s],
{
    lemma_split_on_without(s, nl);
    let f = |l: Seq<T>| strip_last(l, cr);
    assert(seq![s].drop_last() =~= Seq::<Seq<T>>::empty());
    assert(ended_lines(s, nl, cr) =~= Seq::<Seq<T>>::empty());
    assert(Seq::<Seq<T>>::empty().push(s) =~= seq![s]);
}

/// `String::push` appends one character.
pub assume_specification[ String::push ](s: &mut String, ch: char)
    ensures
        final(s)@ == old(s)@.push(ch),
;

/// A string holding exactly the characters `cs`.
pub fn string_of(cs: &[char]) -> (r: String)
    ensures
        r@ == cs@,
{
    let mut s = String::new();
    let mut i: usize = 0;
    while i < cs.len()
        invariant
            0 <= i <= cs@.len(),
            s@ == cs@.take(i as int),
        decreases cs@.len() - i,
    {
        s.push(cs[i]);
        assert(cs@.take(i as int).push(cs@[i as int]) =~= cs@.take(i + 1));
        i = i + 1;
    }
    assert(cs@.take(cs@.len() as int) =~= cs@);
    s
}

/// The characters of `s`, in order.
pub fn chars_of(s: &str) -> (r: Vec<char>)
    ensures
        r@ == s@,
{
    let mut out: Vec<char> = Vec::new();
    for c in it: s.chars()
        invariant
            out@ == it.seq().take(it.index() as int),
            it.seq() == s@,
    {
        out.push(c);
    }
    out
}

/// Whether two strings hold the same characters (compared by their UTF-8 bytes).
pub fn str_eq(a: &str, b: &str) -> (r: bool)
    ensures
        r == (a@ == b@),
{
    let x = a.as_bytes();
    let y = b.as_bytes();
    proof {
        vstd::utf8::encode_utf8_decode_utf8(a@);
        vstd::utf8::encode_utf8_decode_utf8(b@);
    }
    if x.len() != y.len() {
        return false;
    }
    let n = x.len();
    let mut i: usize = 0;
    while i < n
        invariant
            n == x@.len(),
            n == y@.len(),
            x@ == vstd::utf8::encode_utf8(a@),
            y@ == vstd::utf8::encode_utf8(b@),
            0 <= i <= n,
            forall|j: int| 0 <= j < i ==> x@[j] == y@[j],
        decreases n - i,
    {
        if x[i] != y[i] {
            assert(x@[i as int] != y@[i as int]);
            assert(x@ != y@);
            return false;
        }
        i = i + 1;
    }
    assert(x@ =~= y@);
    true
}

/// Appends the characters of `s` to `out`.
pub fn push_str(out: &mut String, s: &str)
    ensures
        final(out)@ == old(out)@ + s@,
{
    let cs = chars_of(s);
    let mut i: usize = 0;
    while i < cs.len()
        invariant
            0 <= i <= cs@.len(),
            cs@ == s@,
            out@ == old(out)@ + cs@.take(i as int),
        decreases cs@.len() - i,
    {
        out.push(cs[i]);
        assert(cs@.take(i as int).push(cs@[i as int]) =~= cs@.take(i + 1));
        i = i + 1;
    }
    assert(cs@.take(cs@.len() as int) =~= cs@);
}

/// The decimal digit for `d` (below 10).
pub open spec fn decimal_digit(d: int) -> char {
    ((d + 48) as u8) as char
}

/// The decimal numeral of `n`, without leading zeros.
pub open spec fn decimal(n: nat) -> Seq<char>
    decreases n,
{
    if n < 10 {
        seq![decimal_digit(n as int)]
    } else {
        decimal(n / 10).push(decimal_digit((n % 10) as int))
    }
}

/// Appends the decimal numeral of `n` to `out`.
pub fn push_decimal(out: &mut String, n: usize)
    ensures
        final(out)@ == old(out)@ + decimal(n as nat),
    decreases n,
{
    if n >= 10 {
        push_decimal(out, n / 10);
    }
    let d = (n % 10) as u8;
    out.push((d + 48) as char);
    assert(decimal(n as nat) == (if n < 10 {
        seq![decimal_digit(n as int)]
    } else {
        decimal((n / 10) as nat).push(decimal_digit((n % 10) as int))
    }));
}

/// The number a string of decimal digits denotes, read most significant
/// digit first.
pub open spec fn decimal_value(s: Seq<char>) -> int
    decreases s.len(),
{
    if s.len() == 0 {
        0
    } else {
        decimal_value(s.drop_last()) * 10 + (s.last() as int - 48)
    }
}

/// The numeral written for `n` is made of decimal digits, reads back as `n`
/// (most significant digit first), and starts with a zero only when `n` is 0.
pub proof fn law_decimal_reads_back(n: nat)
    ensures
        decimal(n).len() >= 1,
        forall|i: int| 0 <= i < decimal(n).len() ==> '0' <= #[trigger] decimal(n)[i] <= '9',
        decimal_value(decimal(n)) == n,
        decimal(n)[0] == '0' ==> n == 0,
    decreases n,
{
    if n >= 10 {
        let m = n / 10;
        law_decimal_reads_back(m);
        let d = decimal_digit((n % 10) as int);
        let s = decimal(m).push(d);
        assert(decimal(n) == s);
        assert(s.drop_last() =~= decimal(m));
        assert(d as int == (n % 10) + 48);
        assert forall|i: int| 0 <= i < s.len() implies '0' <= #[trigger] s[i] <= '9' by {
            if i < s.len() - 1 {
                assert(s[i] == decimal(m)[i]);
            }
        }
        assert(s[0] == decimal(m)[0]);
        assert(s.last() == d);
        assert(decimal_value(s) == decimal_value(decimal(m)) * 10 + (n % 10));
        assert(m * 10 + n % 10 == n);
    } else {
        let s = seq![decimal_digit(n as int)];
        assert(decimal_digit(n as int) as int == n + 48);
        assert(decimal(n) == s);
        assert(s.drop_last() =~= Seq::<char>::empty());
        assert(s.last() == decimal_digit(n as int));
        assert(decimal_value(s) == decimal_value(s.drop_last()) * 10 + (s.last() as int - 48));
        assert(decimal_value(Seq::<char>::empty()) == 0);
    }
}

} // verus!
