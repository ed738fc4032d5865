//! Character-level helpers shared by the parsers: splitting, line
//! handling, decimal conversion and the std string primitives that vstd
//! does not specify.
use vstd::prelude::*;

verus! {

/// The pieces of `s` between occurrences of `sep`, exactly as
/// `str::split(sep)` yields them (an empty input yields one empty piece).
pub open spec fn split_on(s: Seq<char>, sep: char) -> Seq<Seq<char>>
    decreases s.len(),
{
    if s.len() == 0 {
        seq![Seq::<char>::empty()]
    } else {
        let prev = split_on(s.drop_last(), sep);
        if s.last() == sep {
            prev.push(Seq::<char>::empty())
        } else {
            prev.update(prev.len() - 1, prev.last().push(s.last()))
        }
    }
}

/// `split_on` always yields at least one piece.
pub proof fn lemma_split_on_nonempty(s: Seq<char>, sep: char)
    ensures
        split_on(s, sep).len() >= 1,
    decreases s.len(),
{
    if s.len() > 0 {
        lemma_split_on_nonempty(s.drop_last(), sep);
    }
}

/// `l` with one trailing carriage return removed, if there is one.
pub open spec fn strip_cr(l: Seq<char>) -> Seq<char> {
    if l.len() > 0 && l.last() == '\r' {
        l.drop_last()
    } else {
        l
    }
}

/// The lines of `s` as `str::lines` yields them: pieces between `\n`,
/// where a piece that a `\n` ends loses one trailing `\r`, and a final
/// empty piece (text that ends in `\n`, or empty text) is not a line.
pub open spec fn text_lines(s: Seq<char>) -> Seq<Seq<char>> {
    let parts = split_on(s, '\n');
    let n = parts.len();
    let kept: int = if parts.last().len() == 0 { n - 1 } else { n as int };
    Seq::new(kept as nat, |i: int| if i < n - 1 { strip_cr(parts[i]) } else { parts[i] })
}

/// Views of a vector of character vectors.
pub open spec fn views_of(v: Seq<Vec<char>>) -> Seq<Seq<char>> {
    v.map_values(|p: Vec<char>| p@)
}

/// The characters of `s`, in order.
pub fn chars_of(s: &str) -> (r: Vec<char>)
    ensures
        r@ == s@,
{
    let mut it = s.chars();
    let mut r: Vec<char> = Vec::new();
    loop
        invariant
            vstd::std_specs::iter::IteratorSpec::obeys_prophetic_iter_laws(&it),
            vstd::std_specs::iter::IteratorSpec::decrease(&it) is Some,
            r@ + vstd::std_specs::iter::IteratorSpec::remaining(&it) == s@,
        ensures
            r@ == s@,
        decreases vstd::std_specs::iter::IteratorSpec::decrease(&it)->0,
    {
        let ghost before = vstd::std_specs::iter::IteratorSpec::remaining(&it);
        match it.next() {
            Some(c) => {
                r.push(c);
                assert(r@ + vstd::std_specs::iter::IteratorSpec::remaining(&it) =~= s@) by {
                    assert(before =~= seq![c] + before.drop_first());
                }
            },
            None => {
                assert(r@ =~= s@);
                break;
            },
        }
    }
    r
}

/// A `String` holding exactly the given characters.
pub fn string_of(cs: &[char]) -> (r: String)
    ensures
        r@ == cs@,
{
    let mut r = String::new();
    let mut i: usize = 0;
    while i < cs.len()
        invariant
            0 <= i <= cs@.len(),
            r@ == cs@.take(i as int),
        decreases cs@.len() - i,
    {
        push_char(&mut r, cs[i]);
        i = i + 1;
        assert(r@ =~= cs@.take(i as int));
    }
    assert(cs@.take(cs@.len() as int) =~= cs@);
    r
}

/// Appends one character, as `String::push` does.
#[verifier::external_body]
pub(crate) fn push_char(s: &mut String, c: char)
    ensures
        final(s)@ == old(s)@.push(c),
{
    s.push(c)
}

/// Removes and returns the last character, as `String::pop` does.
#[verifier::external_body]
pub(crate) fn pop_char(s: &mut String) -> (r: Option<char>)
    ensures
        old(s)@.len() == 0 ==> r is None && final(s)@ == old(s)@,
        old(s)@.len() > 0 ==> r == Some(old(s)@.last()) && final(s)@ == old(s)@.drop_last(),
{
    s.pop()
}

/// Splits `s` at every `sep`, as `split_on` states.
pub fn split_chars(s: &[char], sep: char) -> (r: Vec<Vec<char>>)
    ensures
        views_of(r@) == split_on(s@, sep),
{
    let mut parts: Vec<Vec<char>> = Vec::new();
    let mut cur: Vec<char> = Vec::new();
    let mut i: usize = 0;
    assert(s@.take(0) =~= Seq::<char>::empty());
    while i < s.len()
        invariant
            0 <= i <= s@.len(),
            views_of(parts@).push(cur@) == split_on(s@.take(i as int), sep),
        decreases s@.len() - i,
    {
        let ghost prev = views_of(parts@).push(cur@);
        let c = s[i];
        assert(s@.take(i + 1).drop_last() =~= s@.take(i as int));
        if c == sep {
            parts.push(cur);
            cur = Vec::new();
            assert(views_of(parts@).push(cur@) =~= prev.push(Seq::<char>::empty()));
        } else {
            cur.push(c);
            assert(views_of(parts@).push(cur@) =~= prev.update(
                prev.len() - 1,
                prev.last().push(c),
            ));
        }
        i = i + 1;
    }
    assert(s@.take(s@.len() as int) =~= s@);
    parts.push(cur);
    assert(views_of(parts@) =~= split_on(s@, sep));
    parts
}

/// The lines of `s`, as `text_lines` states.
pub fn lines_of(s: &[char]) -> (r: Vec<Vec<char>>)
    ensures
        views_of(r@) == text_lines(s@),
{
    let mut lines: Vec<Vec<char>> = Vec::new();
    let mut cur: Vec<char> = Vec::new();
    let mut i: usize = 0;
    assert(s@.take(0) =~= Seq::<char>::empty());
    while i < s.len()
        invariant
            0 <= i <= s@.len(),
            split_on(s@.take(i as int), '\n').len() == lines@.len() + 1,
            split_on(s@.take(i as int), '\n').last() == cur@,
            forall|j: int|
                0 <= j < lines@.len() ==> #[trigger] lines@[j]@ == strip_cr(
                    split_on(s@.take(i as int), '\n')[j],
                ),
        decreases s@.len() - i,
    {
        let ghost prev = split_on(s@.take(i as int), '\n');
        let c = s[i];
        assert(s@.take(i + 1).drop_last() =~= s@.take(i as int));
        if c == '\n' {
            let n = cur.len();
            if n > 0 && cur[n - 1] == '\r' {
                cur.pop();
            }
            assert(cur@ == strip_cr(prev.last()));
            lines.push(cur);
            cur = Vec::new();
        } else {
            cur.push(c);
        }
        i = i + 1;
    }
    assert(s@.take(s@.len() as int) =~= s@);
    if cur.len() > 0 {
        lines.push(cur);
    }
    assert(views_of(lines@) =~= text_lines(s@));
    lines
}

/// The decimal digits of `n`, most significant first (`0` is `"0"`).
pub open spec fn decimal(n: nat) -> Seq<char>
    decreases n,
{
    if n < 10 {
        seq![digit_char(n)]
    } else {
        decimal(n / 10).push(digit_char(n % 10))
    }
}

/// The ASCII digit for `d < 10`.
pub open spec fn digit_char(d: nat) -> char {
    (d + 48) as char
}

/// Writes `n` in decimal, as `u64::to_string` does.
pub fn u64_decimal(n: u64) -> (r: Vec<char>)
    ensures
        r@ == decimal(n as nat),
    decreases n,
{
    if n < 10 {
        let c = digit(n as usize);
        let mut v: Vec<char> = Vec::new();
        v.push(c);
        v
    } else {
        let mut v = u64_decimal(n / 10);
        let c = digit((n % 10) as usize);
        v.push(c);
        v
    }
}

/// The ASCII digit character of `d`.
pub fn digit(d: usize) -> (c: char)
    requires
        d < 10,
    ensures
        c == digit_char(d as nat),
{
    match d {
        0 => '0',
        1 => '1',
        2 => '2',
        3 => '3',
        4 => '4',
        5 => '5',
        6 => '6',
        7 => '7',
        8 => '8',
        _ => '9',
    }
}

/// ASCII decimal digit.
pub open spec fn is_digit(c: char) -> bool {
    '0' <= c && c <= '9'
}

/// ASCII hexadecimal digit, as `char::is_ascii_hexdigit`.
pub open spec fn is_hex(c: char) -> bool {
    ('0' <= c && c <= '9') || ('a' <= c && c <= 'f') || ('A' <= c && c <= 'F')
}

/// Whether every character satisfies `is_digit`.
pub open spec fn all_digits(s: Seq<char>) -> bool {
    forall|i: int| 0 <= i < s.len() ==> #[trigger] is_digit(s[i])
}

/// Whether every character satisfies `is_hex`.
pub open spec fn all_hex(s: Seq<char>) -> bool {
    forall|i: int| 0 <= i < s.len() ==> #[trigger] is_hex(s[i])
}

/// `char::is_whitespace`: the Unicode `White_Space` property.
pub open spec fn is_white(c: char) -> bool {
    ('\u{9}' <= c && c <= '\u{d}') || c == ' ' || c == '\u{85}' || c == '\u{a0}' || c
        == '\u{1680}' || ('\u{2000}' <= c && c <= '\u{200a}') || c == '\u{2028}' || c
        == '\u{2029}' || c == '\u{202f}' || c == '\u{205f}' || c == '\u{3000}'
}

/// Executable `is_white`.
pub fn white(c: char) -> (r: bool)
    ensures
        r == is_white(c),
{
    ('\u{9}' <= c && c <= '\u{d}') || c == ' ' || c == '\u{85}' || c == '\u{a0}' || c
        == '\u{1680}' || ('\u{2000}' <= c && c <= '\u{200a}') || c == '\u{2028}' || c
        == '\u{2029}' || c == '\u{202f}' || c == '\u{205f}' || c == '\u{3000}'
}

/// Whether `p` occurs in `s` as a contiguous run.
pub open spec fn occurs_in(s: Seq<char>, p: Seq<char>) -> bool {
    exists|i: int| 0 <= i <= s.len() - p.len() && #[trigger] s.subrange(i, i + p.len()) == p
}

/// Substring search, as `str::contains` with a string pattern.
pub fn contains_chars(s: &[char], p: &[char]) -> (r: bool)
    ensures
        r == occurs_in(s@, p@),
{
    if p.len() > s.len() {
        return false;
    }
    let n = s.len();
    let last = n - p.len();
    let mut i: usize = 0;
    while i <= last
        invariant
            last == s@.len() - p@.len(),
            p@.len() <= s@.len(),
            n == s@.len(),
            0 <= i <= last,
            forall|k: int| 0 <= k < i ==> #[trigger] s@.subrange(k, k + p@.len()) != p@,
        decreases last + 1 - i,
    {
        let mut j: usize = 0;
        let mut same = true;
        while j < p.len()
            invariant
                i <= last,
                last == s@.len() - p@.len(),
                p@.len() <= s@.len(),
                n == s@.len(),
                0 <= j <= p@.len(),
                same <==> forall|t: int| 0 <= t < j ==> s@[i + t] == p@[t],
            decreases p@.len() - j,
        {
            if s[i + j] != p[j] {
                same = false;
            }
            j = j + 1;
        }
        if same {
            assert(s@.subrange(i as int, i + p@.len()) =~= p@);
            return true;
        }
        assert(s@.subrange(i as int, i + p@.len())[0] == s@[i as int]);
        assert(s@.subrange(i as int, i + p@.len()) != p@) by {
            let t = choose|t: int| 0 <= t < p@.len() && s@[i + t] != p@[t];
            assert(s@.subrange(i as int, i + p@.len())[t] == s@[i + t]);
        }
        if i == last {
            return false;
        }
        i = i + 1;
    }
    false
}

/// A vector holding a copy of the characters.
pub fn copy_chars(s: &[char]) -> (r: Vec<char>)
    ensures
        r@ == s@,
{
    let mut r: Vec<char> = Vec::new();
    let mut i: usize = 0;
    while i < s.len()
        invariant
            0 <= i <= s@.len(),
            r@ == s@.take(i as int),
        decreases s@.len() - i,
    {
        r.push(s[i]);
        i = i + 1;
        assert(r@ =~= s@.take(i as int));
    }
    assert(s@.take(s@.len() as int) =~= s@);
    r
}

/// `n` zeros (none when `n` is not positive).
pub open spec fn zeros(n: int) -> Seq<char> {
    Seq::new(if n > 0 { n as nat } else { 0 }, |i: int| '0')
}

/// `s` padded on the left with zeros to width `w`, as `{:0w}` pads.
pub open spec fn zero_padded(s: Seq<char>, w: int) -> Seq<char> {
    zeros(w - s.len()) + s
}

/// Appends `s` zero-padded to width `w`.
pub fn push_zero_padded(out: &mut Vec<char>, s: &[char], w: usize)
    ensures
        final(out)@ == old(out)@ + zero_padded(s@, w as int),
{
    let mut k: usize = s.len();
    let ghost start = out@;
    while k < w
        invariant
            s@.len() <= k <= w || (w < s@.len() && k == s@.len()),
            out@ == start + zeros(k - s@.len()),
        decreases w - k,
    {
        out.push('0');
        k = k + 1;
        assert(out@ =~= start + zeros(k - s@.len()));
    }
    assert(zeros(k - s@.len()) =~= zeros(w - s@.len()));
    let mut i: usize = 0;
    let ghost mid = out@;
    while i < s.len()
        invariant
            0 <= i <= s@.len(),
            out@ == mid + s@.take(i as int),
        decreases s@.len() - i,
    {
        out.push(s[i]);
        i = i + 1;
        assert(out@ =~= mid + s@.take(i as int));
    }
    assert(s@.take(s@.len() as int) =~= s@);
    assert(out@ =~= start + zero_padded(s@, w as int));
}


/// Text without the separator splits into itself alone.
pub proof fn lemma_split_on_without_sep(s: Seq<char>, sep: char)
    requires
        !s.contains(sep),
    ensures
        split_on(s, sep) == seq![s],
    decreases s.len(),
{
    if s.len() > 0 {
        assert(!s.drop_last().contains(sep)) by {
            if s.drop_last().contains(sep) {
                let i = choose|i: int| 0 <= i < s.drop_last().len() && s.drop_last()[i] == sep;
                assert(s[i] == sep);
            }
        }
        lemma_split_on_without_sep(s.drop_last(), sep);
        assert(s.last() != sep) by {
            assert(s[s.len() - 1] == s.last());
        }
        assert(s.drop_last().push(s.last()) =~= s);
        assert(seq![s.drop_last()].update(0, s.drop_last().push(s.last())) =~= seq![s]);
    } else {
        assert(s =~= Seq::<char>::empty());
    }
}

/// Splitting text that starts with a separator-free piece and a separator
/// gives that piece, then the pieces of the rest.
pub proof fn lemma_split_on_prefix(a: Seq<char>, b: Seq<char>, sep: char)
    requires
        !a.contains(sep),
    ensures
        split_on(a + seq![sep] + b, sep) == seq![a] + split_on(b, sep),
    decreases b.len(),
{
    let s = a + seq![sep] + b;
    if b.len() == 0 {
        assert(s.drop_last() =~= a);
        lemma_split_on_without_sep(a, sep);
        assert(s.last() == sep);
        assert(split_on(b, sep) == seq![Seq::<char>::empty()]) by {
            assert(b =~= Seq::<char>::empty());
        }
        assert(seq![a].push(Seq::<char>::empty()) =~= seq![a] + seq![Seq::<char>::empty()]);
    } else {
        lemma_split_on_prefix(a, b.drop_last(), sep);
        assert(s.drop_last() =~= a + seq![sep] + b.drop_last());
        assert(s.last() == b.last());
        lemma_split_on_nonempty(b.drop_last(), sep);
        let prev = split_on(b.drop_last(), sep);
        let whole = seq![a] + prev;
        if b.last() == sep {
            assert(whole.push(Seq::<char>::empty()) =~= seq![a] + prev.push(Seq::<char>::empty()));
        } else {
            assert(whole.update(whole.len() - 1, whole.last().push(b.last())) =~= seq![a] + prev.update(
                prev.len() - 1,
                prev.last().push(b.last()),
            ));
        }
    }
}

/// Text without a newline is one line (when it is not empty).
pub proof fn lemma_single_line(s: Seq<char>)
    requires
        !s.contains('\n'),
        s.len() > 0,
    ensures
        text_lines(s) == seq![s],
{
    lemma_split_on_without_sep(s, '\n');
    assert(text_lines(s) =~= seq![s]);
}

/// Appending separator-free text extends the last piece.
pub proof fn lemma_split_on_append(a: Seq<char>, r: Seq<char>, sep: char)
    requires
        !r.contains(sep),
    ensures
        split_on(a + r, sep) == split_on(a, sep).update(
            split_on(a, sep).len() - 1,
            split_on(a, sep).last() + r,
        ),
    decreases r.len(),
{
    lemma_split_on_nonempty(a, sep);
    if r.len() == 0 {
        assert(a + r =~= a);
        assert(split_on(a, sep).last() + r =~= split_on(a, sep).last());
        assert(split_on(a, sep).update(split_on(a, sep).len() - 1, split_on(a, sep).last())
            =~= split_on(a, sep));
    } else {
        let r0 = r.drop_last();
        assert(!r0.contains(sep)) by {
            if r0.contains(sep) {
                let i = choose|i: int| 0 <= i < r0.len() && r0[i] == sep;
                assert(r[i] == sep);
            }
        }
        assert(r.last() != sep) by {
            assert(r[r.len() - 1] == r.last());
        }
        lemma_split_on_append(a, r0, sep);
        assert((a + r).drop_last() =~= a + r0);
        assert((a + r).last() == r.last());
        let p = split_on(a, sep);
        let q = p.update(p.len() - 1, p.last() + r0);
        lemma_split_on_nonempty(a + r0, sep);
        assert((p.last() + r0).push(r.last()) =~= p.last() + r);
        assert(q.update(q.len() - 1, q.last().push(r.last())) =~= p.update(p.len() - 1, p.last() + r));
    }
}

/// Text whose split ends with an empty piece: empty, or ending in `sep`.
pub proof fn lemma_split_on_ends_empty(a: Seq<char>, sep: char)
    requires
        a.len() == 0 || a.last() == sep,
    ensures
        split_on(a, sep).last() == Seq::<char>::empty(),
{
}

/// One more line, ended by a newline, adds one line.
pub proof fn lemma_lines_append(a: Seq<char>, r: Seq<char>)
    requires
        a.len() == 0 || a.last() == '\n',
        !r.contains('\n'),
        r.len() > 0,
        r.last() != '\r',
    ensures
        text_lines(a + r + seq!['\n']) == text_lines(a).push(r),
{
    let p = split_on(a, '\n');
    lemma_split_on_nonempty(a, '\n');
    lemma_split_on_ends_empty(a, '\n');
    lemma_split_on_append(a, r, '\n');
    let q = split_on(a + r, '\n');
    assert(p.last() + r =~= r);
    assert(q =~= p.update(p.len() - 1, r));
    let t = a + r + seq!['\n'];
    assert(t.drop_last() =~= a + r);
    assert(t.last() == '\n');
    let parts = split_on(t, '\n');
    assert(parts =~= q.push(Seq::<char>::empty()));
    assert(strip_cr(r) == r);
    assert(text_lines(t) =~= text_lines(a).push(r));
}

/// Pieces written one after another, each ended by `sep`.
pub open spec fn terminated(ls: Seq<Seq<char>>, sep: char) -> Seq<char>
    decreases ls.len(),
{
    if ls.len() == 0 {
        Seq::empty()
    } else {
        ls[0] + seq![sep] + terminated(ls.drop_first(), sep)
    }
}

/// Splitting terminated pieces at the separator gives the pieces back, and
/// the empty text after the last separator.
pub proof fn lemma_split_terminated(ls: Seq<Seq<char>>, sep: char)
    requires
        forall|i: int| 0 <= i < ls.len() ==> !(#[trigger] ls[i]).contains(sep),
    ensures
        split_on(terminated(ls, sep), sep) == ls.push(Seq::<char>::empty()),
    decreases ls.len(),
{
    if ls.len() == 0 {
        assert(split_on(Seq::<char>::empty(), sep) == seq![Seq::<char>::empty()]);
        assert(ls.push(Seq::<char>::empty()) =~= seq![Seq::<char>::empty()]);
    } else {
        let rest = ls.drop_first();
        assert forall|i: int| 0 <= i < rest.len() implies !(#[trigger] rest[i]).contains(sep) by {
            assert(rest[i] == ls[i + 1]);
        }
        lemma_split_terminated(rest, sep);
        assert(!ls[0].contains(sep));
        lemma_split_on_prefix(ls[0], terminated(rest, sep), sep);
        assert(seq![ls[0]] + rest.push(Seq::<char>::empty()) =~= ls.push(Seq::<char>::empty()));
    }
}

/// Text that holds the separator splits into at least two pieces.
pub proof fn lemma_split_on_with_sep(s: Seq<char>, sep: char)
    requires
        s.contains(sep),
    ensures
        split_on(s, sep).len() >= 2,
    decreases s.len(),
{
    lemma_split_on_nonempty(s.drop_last(), sep);
    if s.last() != sep {
        let i = choose|i: int| 0 <= i < s.len() && s[i] == sep;
        assert(i < s.len() - 1) by {
            if i == s.len() - 1 {
                assert(s[i] == s.last());
            }
        }
        assert(s.drop_last()[i] == sep);
        lemma_split_on_with_sep(s.drop_last(), sep);
    }
}

} // verus!
