//! Character-level text utilities shared by the parsers.
//!
//! Text is modelled as `Seq<char>`. Executable code works on `&[char]` and
//! hands out sub-slices, so nothing is copied until a record is built.

use vstd::prelude::*;
use vstd::slice::slice_subrange;

verus! {

/// `String::push` appends one character to the end of the string.
pub assume_specification[ String::push ](s: &mut String, ch: char)
    ensures
        final(s)@ == old(s)@.push(ch),
;

/// The characters of `s`, in order.
pub fn to_chars(s: &str) -> (out: Vec<char>)
    ensures
        out@ == s@,
{
    let mut out: Vec<char> = Vec::new();
    for c in it: s.chars()
        invariant
            out@ == s@.take(it.index() as int),
            it.seq() == s@,
    {
        out.push(c);
    }
    out
}

/// The string made of the characters of `s`.
pub fn to_text(s: &[char]) -> (out: String)
    ensures
        out@ == s@,
{
    let mut out = String::new();
    let mut i: usize = 0;
    while i < s.len()
        invariant
            i <= s.len(),
            out@ == s@.take(i as int),
        decreases s.len() - i,
    {
        out.push(s[i]);
        i += 1;
    }
    out
}

/// The views of a list of slices.
pub open spec fn texts(v: Seq<&[char]>) -> Seq<Seq<char>> {
    Seq::new(v.len(), |i: int| v[i]@)
}

/// The views of a list of strings.
pub open spec fn strings(v: Seq<String>) -> Seq<Seq<char>> {
    Seq::new(v.len(), |i: int| v[i]@)
}

/// Unicode white space.
pub open spec fn is_space(c: char) -> bool {
    c == ' ' || ('\t' <= c && c <= '\r') || c == '\u{85}' || c == '\u{A0}' || c == '\u{1680}' || (
    '\u{2000}' <= c && c <= '\u{200A}') || c == '\u{2028}' || c == '\u{2029}' || c == '\u{202F}'
        || c == '\u{205F}' || c == '\u{3000}'
}

/// ASCII white space: space, tab, line feed, form feed, carriage return.
pub open spec fn is_ascii_space(c: char) -> bool {
    c == ' ' || c == '\t' || c == '\n' || c == '\u{C}' || c == '\r'
}

/// The value of `c` as a digit in the given radix: `0-9`, then letters of
/// either case for ten and up.
pub open spec fn digit_of(c: char, radix: u32) -> Option<u32> {
    let v: int = if '0' <= c && c <= '9' {
        c as int - '0' as int
    } else if 'a' <= c && c <= 'z' {
        c as int - 'a' as int + 10
    } else if 'A' <= c && c <= 'Z' {
        c as int - 'A' as int + 10
    } else {
        -1
    };
    if 0 <= v < radix {
        Some(v as u32)
    } else {
        None
    }
}

/// Executable form of [`digit_of`].
pub fn digit(c: char, radix: u32) -> (d: Option<u32>)
    ensures
        d == digit_of(c, radix),
{
    let v: u32 = if '0' <= c && c <= '9' {
        c as u32 - '0' as u32
    } else if 'a' <= c && c <= 'z' {
        c as u32 - 'a' as u32 + 10
    } else if 'A' <= c && c <= 'Z' {
        c as u32 - 'A' as u32 + 10
    } else {
        return None;
    };
    if v < radix {
        Some(v)
    } else {
        None
    }
}

/// A set of characters that a scan can look for.
#[derive(Clone, Copy, Debug)]
pub enum Class {
    /// Unicode white space.
    Space,
    /// ASCII white space.
    AsciiSpace,
    /// One given character.
    Only(char),
    /// The digits of a radix.
    Digit(u32),
}

impl Class {
    /// Whether `c` belongs to the class.
    pub open spec fn has(self, c: char) -> bool {
        match self {
            Class::Space => is_space(c),
            Class::AsciiSpace => is_ascii_space(c),
            Class::Only(x) => c == x,
            Class::Digit(radix) => digit_of(c, radix) is Some,
        }
    }

    /// Executable form of [`Class::has`].
    pub fn holds(&self, c: char) -> (b: bool)
        ensures
            b == self.has(c),
    {
        match self {
            Class::Space => {
                c == ' ' || ('\t' <= c && c <= '\r') || c == '\u{85}' || c == '\u{A0}' || c
                    == '\u{1680}' || ('\u{2000}' <= c && c <= '\u{200A}') || c == '\u{2028}' || c
                    == '\u{2029}' || c == '\u{202F}' || c == '\u{205F}' || c == '\u{3000}'
            },
            Class::AsciiSpace => c == ' ' || c == '\t' || c == '\n' || c == '\u{C}' || c == '\r',
            Class::Only(x) => c == *x,
            Class::Digit(radix) => digit(c, *radix).is_some(),
        }
    }
}

/// Length of the longest prefix of `s` whose characters all lie inside `k`
/// (when `inside`) or all lie outside of it.
pub open spec fn run(s: Seq<char>, k: Class, inside: bool) -> int
    decreases s.len(),
{
    if s.len() > 0 && k.has(s[0]) == inside {
        1 + run(s.drop_first(), k, inside)
    } else {
        0
    }
}

/// Length of the longest suffix of `s` whose characters all lie inside `k`
/// (when `inside`) or all lie outside of it.
pub open spec fn run_back(s: Seq<char>, k: Class, inside: bool) -> int
    decreases s.len(),
{
    if s.len() > 0 && k.has(s.last()) == inside {
        1 + run_back(s.drop_last(), k, inside)
    } else {
        0
    }
}

/// A run stays within the text, covers only matching characters and stops
/// at the first one that does not match.
pub proof fn lemma_run(s: Seq<char>, k: Class, inside: bool)
    ensures
        0 <= run(s, k, inside) <= s.len(),
        forall|j: int| 0 <= j < run(s, k, inside) ==> k.has(#[trigger] s[j]) == inside,
        run(s, k, inside) < s.len() ==> k.has(s[run(s, k, inside)]) != inside,
    decreases s.len(),
{
    if s.len() > 0 && k.has(s[0]) == inside {
        let t = s.drop_first();
        lemma_run(t, k, inside);
        let r = run(t, k, inside);
        assert forall|j: int| 0 <= j < r + 1 implies k.has(#[trigger] s[j]) == inside by {
            if j > 0 {
                assert(s[j] == t[j - 1]);
            }
        }
        if r + 1 < s.len() {
            assert(s[r + 1] == t[r]);
        }
    }
}

/// The only length with the properties of [`lemma_run`] is the run itself.
pub proof fn lemma_run_is(s: Seq<char>, k: Class, inside: bool, n: int)
    requires
        0 <= n <= s.len(),
        forall|j: int| 0 <= j < n ==> k.has(#[trigger] s[j]) == inside,
        n < s.len() ==> k.has(s[n]) != inside,
    ensures
        run(s, k, inside) == n,
    decreases s.len(),
{
    if n > 0 {
        let t = s.drop_first();
        assert(k.has(s[0]) == inside);
        assert forall|j: int| 0 <= j < n - 1 implies k.has(#[trigger] t[j]) == inside by {
            assert(t[j] == s[j + 1]);
        }
        if n - 1 < t.len() {
            assert(t[n - 1] == s[n]);
        }
        lemma_run_is(t, k, inside, n - 1);
    }
}

/// A backward run stays within the text, covers only matching characters
/// and stops at the last one that does not match.
pub proof fn lemma_run_back(s: Seq<char>, k: Class, inside: bool)
    ensures
        0 <= run_back(s, k, inside) <= s.len(),
        forall|j: int|
            s.len() - run_back(s, k, inside) <= j < s.len() ==> k.has(#[trigger] s[j]) == inside,
        run_back(s, k, inside) < s.len() ==> k.has(s[s.len() - run_back(s, k, inside) - 1])
            != inside,
    decreases s.len(),
{
    if s.len() > 0 && k.has(s.last()) == inside {
        let t = s.drop_last();
        lemma_run_back(t, k, inside);
        let r = run_back(t, k, inside);
        assert forall|j: int| s.len() - (r + 1) <= j < s.len() implies k.has(#[trigger] s[j])
            == inside by {
            if j < s.len() - 1 {
                assert(s[j] == t[j]);
            }
        }
        if r + 1 < s.len() {
            assert(s[s.len() - (r + 1) - 1] == t[t.len() - r - 1]);
        }
    }
}

/// The only length with the properties of [`lemma_run_back`] is the
/// backward run itself.
pub proof fn lemma_run_back_is(s: Seq<char>, k: Class, inside: bool, n: int)
    requires
        0 <= n <= s.len(),
        forall|j: int| s.len() - n <= j < s.len() ==> k.has(#[trigger] s[j]) == inside,
        n < s.len() ==> k.has(s[s.len() - n - 1]) != inside,
    ensures
        run_back(s, k, inside) == n,
    decreases s.len(),
{
    if n > 0 {
        let t = s.drop_last();
        assert(k.has(s[s.len() - 1]) == inside);
        assert forall|j: int| t.len() - (n - 1) <= j < t.len() implies k.has(#[trigger] t[j])
            == inside by {
            assert(t[j] == s[j]);
        }
        if n - 1 < t.len() {
            assert(t[t.len() - (n - 1) - 1] == s[s.len() - n - 1]);
        }
        lemma_run_back_is(t, k, inside, n - 1);
    }
}

/// Where the run that starts at `from` ends.
pub fn run_end(s: &[char], from: usize, k: &Class, inside: bool) -> (end: usize)
    requires
        from <= s.len(),
    ensures
        from <= end <= s.len(),
        end == from + run(s@.skip(from as int), *k, inside),
{
    let mut i = from;
    while i < s.len() && k.holds(s[i]) == inside
        invariant
            from <= i <= s.len(),
            forall|j: int| from <= j < i ==> k.has(#[trigger] s@[j]) == inside,
        decreases s.len() - i,
    {
        i += 1;
    }
    proof {
        let t = s@.skip(from as int);
        assert forall|j: int| 0 <= j < i - from implies k.has(#[trigger] t[j]) == inside by {
            assert(t[j] == s@[from + j]);
        }
        lemma_run_is(t, *k, inside, i - from);
    }
    i
}

/// Where the backward run that ends at `to` starts.
pub fn run_start(s: &[char], to: usize, k: &Class, inside: bool) -> (start: usize)
    requires
        to <= s.len(),
    ensures
        start <= to,
        start == to - run_back(s@.take(to as int), *k, inside),
{
    let mut i = to;
    while i > 0 && k.holds(s[i - 1]) == inside
        invariant
            i <= to <= s.len(),
            forall|j: int| i <= j < to ==> k.has(#[trigger] s@[j]) == inside,
        decreases i,
    {
        i -= 1;
    }
    proof {
        let t = s@.take(to as int);
        assert forall|j: int| t.len() - (to - i) <= j < t.len() implies k.has(#[trigger] t[j])
            == inside by {
            assert(t[j] == s@[j]);
        }
        lemma_run_back_is(t, *k, inside, to - i);
    }
    i
}

/// `s` without its leading and trailing white space.
pub open spec fn trim(s: Seq<char>) -> Seq<char> {
    let t = s.skip(run(s, Class::Space, true));
    t.take(t.len() - run_back(t, Class::Space, true))
}

/// Executable form of [`trim`].
pub fn trimmed<'a>(s: &'a [char]) -> (t: &'a [char])
    ensures
        t@ == trim(s@),
{
    let a = run_end(s, 0, &Class::Space, true);
    let rest = slice_subrange(s, a, s.len());
    let b = run_start(rest, rest.len(), &Class::Space, true);
    proof {
        assert(s@.skip(0) == s@);
        assert(rest@ == s@.skip(a as int));
        assert(rest@.take(rest.len() as int) == rest@);
    }
    slice_subrange(rest, 0, b)
}

/// The maximal runs of characters outside `k`, in order.
pub open spec fn words(s: Seq<char>, k: Class) -> Seq<Seq<char>>
    decreases s.len(),
{
    if s.len() == 0 {
        Seq::empty()
    } else if k.has(s[0]) {
        words(s.drop_first(), k)
    } else {
        let n = run(s, k, false);
        proof {
            lemma_run(s, k, false);
        }
        seq![s.take(n)] + words(s.skip(n), k)
    }
}

/// Leading characters of the separator class do not change the words.
pub proof fn lemma_words_skip(s: Seq<char>, k: Class)
    ensures
        words(s, k) == words(s.skip(run(s, k, true)), k),
    decreases s.len(),
{
    if s.len() > 0 && k.has(s[0]) {
        lemma_words_skip(s.drop_first(), k);
        assert(s.drop_first().skip(run(s.drop_first(), k, true)) == s.skip(run(s, k, true))) by {
            lemma_run(s.drop_first(), k, true);
        }
    } else {
        assert(s.skip(0) == s);
    }
}

/// Executable form of [`words`].
pub fn split_words<'a>(s: &'a [char], k: &Class) -> (out: Vec<&'a [char]>)
    ensures
        texts(out@) == words(s@, *k),
{
    let mut out: Vec<&'a [char]> = Vec::new();
    let mut i: usize = 0;
    let mut done = false;
    proof {
        assert(s@.skip(0) == s@);
    }
    while !done
        invariant
            i <= s.len(),
            words(s@, *k) == texts(out@) + words(s@.skip(i as int), *k),
            done ==> words(s@.skip(i as int), *k).len() == 0,
        decreases s.len() - i + (if done { 0int } else { 1int }),
    {
        let a = run_end(s, i, k, true);
        let ghost rest = s@.skip(i as int);
        proof {
            lemma_words_skip(rest, *k);
            lemma_run(rest, *k, true);
            assert(rest.skip(a - i) == s@.skip(a as int));
        }
        if a >= s.len() {
            done = true;
        } else {
            let b = run_end(s, a, k, false);
            let ghost tail = s@.skip(a as int);
            proof {
                lemma_run(tail, *k, false);
                assert(!k.has(tail[0]));
                assert(tail.take(b - a) == s@.subrange(a as int, b as int));
                assert(tail.skip(b - a) == s@.skip(b as int));
            }
            let w = slice_subrange(s, a, b);
            proof {
                assert(texts(out@.push(w)) =~= texts(out@).push(w@));
            }
            out.push(w);
            i = b;
        }
    }
    out
}

/// `s` cut at every `c`: one piece more than there are occurrences of `c`.
pub open spec fn pieces(s: Seq<char>, c: char) -> Seq<Seq<char>>
    decreases s.len(),
{
    let n = run(s, Class::Only(c), false);
    if n >= s.len() {
        seq![s]
    } else {
        proof {
            lemma_run(s, Class::Only(c), false);
        }
        seq![s.take(n)] + pieces(s.skip(n + 1), c)
    }
}

/// Executable form of [`pieces`].
pub fn split_on<'a>(s: &'a [char], c: char) -> (out: Vec<&'a [char]>)
    ensures
        texts(out@) == pieces(s@, c),
{
    let mut out: Vec<&'a [char]> = Vec::new();
    let mut i: usize = 0;
    let mut done = false;
    let k = Class::Only(c);
    proof {
        assert(s@.skip(0) == s@);
    }
    while !done
        invariant
            i <= s.len(),
            k == Class::Only(c),
            !done ==> pieces(s@, c) == texts(out@) + pieces(s@.skip(i as int), c),
            done ==> pieces(s@, c) == texts(out@),
        decreases s.len() - i + (if done { 0int } else { 1int }),
    {
        let e = run_end(s, i, &k, false);
        let ghost rest = s@.skip(i as int);
        proof {
            lemma_run(rest, k, false);
            assert(rest.take(e - i) == s@.subrange(i as int, e as int));
        }
        let w = slice_subrange(s, i, e);
        proof {
            assert(texts(out@.push(w)) =~= texts(out@).push(w@));
        }
        out.push(w);
        if e >= s.len() {
            proof {
                assert(rest.take(e - i) == rest);
            }
            done = true;
        } else {
            proof {
                assert(rest.skip(e - i + 1) == s@.skip(e + 1));
            }
            i = e + 1;
        }
    }
    out
}

/// `s` without one trailing carriage return.
pub open spec fn strip_cr(s: Seq<char>) -> Seq<char> {
    if s.len() > 0 && s.last() == '\r' {
        s.drop_last()
    } else {
        s
    }
}

/// The lines of a text. A line ends at a line feed, or at a carriage return
/// directly followed by one; the end of the text closes a last line that
/// has no line ending of its own.
pub open spec fn lines(s: Seq<char>) -> Seq<Seq<char>>
    decreases s.len(),
{
    let n = run(s, Class::Only('\n'), false);
    if s.len() == 0 {
        Seq::empty()
    } else if n >= s.len() {
        seq![s]
    } else {
        proof {
            lemma_run(s, Class::Only('\n'), false);
        }
        seq![strip_cr(s.take(n))] + lines(s.skip(n + 1))
    }
}

/// Executable form of [`lines`].
pub fn split_lines<'a>(s: &'a [char]) -> (out: Vec<&'a [char]>)
    ensures
        texts(out@) == lines(s@),
{
    let mut out: Vec<&'a [char]> = Vec::new();
    let mut i: usize = 0;
    let k = Class::Only('\n');
    proof {
        assert(s@.skip(0) == s@);
    }
    while i < s.len()
        invariant
            i <= s.len(),
            k == Class::Only('\n'),
            lines(s@) == texts(out@) + lines(s@.skip(i as int)),
        decreases s.len() - i,
    {
        let e = run_end(s, i, &k, false);
        let ghost rest = s@.skip(i as int);
        proof {
            lemma_run(rest, k, false);
            assert(rest.take(e - i) == s@.subrange(i as int, e as int));
        }
        if e >= s.len() {
            proof {
                assert(rest.take(e - i) == rest);
                assert(s@.skip(e as int).len() == 0);
            }
            let w = slice_subrange(s, i, e);
            proof {
                assert(texts(out@.push(w)) =~= texts(out@).push(w@));
            }
            out.push(w);
            i = e;
        } else {
            let end = if e > i && s[e - 1] == '\r' {
                e - 1
            } else {
                e
            };
            proof {
                assert(rest.skip(e - i + 1) == s@.skip(e + 1));
                assert(strip_cr(rest.take(e - i)) == s@.subrange(i as int, end as int));
            }
            let w = slice_subrange(s, i, end);
            proof {
                assert(texts(out@.push(w)) =~= texts(out@).push(w@));
            }
            out.push(w);
            i = e + 1;
        }
    }
    out
}

/// Whether two texts hold the same characters.
pub fn same(a: &[char], b: &[char]) -> (r: bool)
    ensures
        r == (a@ == b@),
{
    if a.len() != b.len() {
        return false;
    }
    let mut i: usize = 0;
    while i < a.len()
        invariant
            i <= a.len(),
            a.len() == b.len(),
            a@.take(i as int) == b@.take(i as int),
        decreases a.len() - i,
    {
        if a[i] != b[i] {
            return false;
        }
        proof {
            assert(a@.take(i + 1) == a@.take(i as int).push(a@[i as int]));
            assert(b@.take(i + 1) == b@.take(i as int).push(b@[i as int]));
        }
        i += 1;
    }
    proof {
        assert(a@.take(a.len() as int) == a@);
        assert(b@.take(b.len() as int) == b@);
    }
    true
}

/// Whether the text `a` reads as the string `b`.
pub fn reads(a: &[char], b: &str) -> (r: bool)
    ensures
        r == (a@ == b@),
{
    let other = to_chars(b);
    same(a, other.as_slice())
}

/// Whether `s` begins with `pat`.
pub open spec fn starts_with(s: Seq<char>, pat: Seq<char>) -> bool {
    pat.len() <= s.len() && s.take(pat.len() as int) == pat
}

/// Whether `pat` occurs somewhere in `s`.
pub open spec fn contains(s: Seq<char>, pat: Seq<char>) -> bool {
    exists|i: int| 0 <= i <= s.len() && #[trigger] starts_with(s.skip(i), pat)
}

/// `s` with every occurrence of `pat` taken out. Occurrences are found from
/// left to right and do not overlap; what the removal brings together is
/// not searched again.
pub open spec fn without(s: Seq<char>, pat: Seq<char>) -> Seq<char>
    decreases s.len(),
{
    if pat.len() == 0 || s.len() == 0 {
        s
    } else if starts_with(s, pat) {
        without(s.skip(pat.len() as int), pat)
    } else {
        seq![s[0]] + without(s.drop_first(), pat)
    }
}

/// Whether `pat` stands in `s` at position `from`.
pub fn begins(s: &[char], from: usize, pat: &[char]) -> (r: bool)
    requires
        from <= s.len(),
    ensures
        r == starts_with(s@.skip(from as int), pat@),
{
    if pat.len() > s.len() - from {
        return false;
    }
    let ghost rest = s@.skip(from as int);
    let mut j: usize = 0;
    while j < pat.len()
        invariant
            j <= pat.len(),
            from <= s.len(),
            pat.len() <= s.len() - from,
            rest == s@.skip(from as int),
            rest.take(j as int) == pat@.take(j as int),
        decreases pat.len() - j,
    {
        if s[from + j] != pat[j] {
            proof {
                assert(rest.take(pat.len() as int)[j as int] == s@[from + j]);
            }
            return false;
        }
        proof {
            assert(rest.take(j + 1) == rest.take(j as int).push(s@[from + j]));
            assert(pat@.take(j + 1) == pat@.take(j as int).push(pat@[j as int]));
        }
        j += 1;
    }
    proof {
        assert(pat@.take(pat.len() as int) == pat@);
    }
    true
}

/// Executable form of [`contains`].
pub fn find(s: &[char], pat: &[char]) -> (r: bool)
    ensures
        r == contains(s@, pat@),
{
    let mut i: usize = 0;
    while i < s.len()
        invariant
            i <= s.len(),
            forall|j: int| 0 <= j < i ==> !#[trigger] starts_with(s@.skip(j), pat@),
        decreases s.len() - i,
    {
        if begins(s, i, pat) {
            return true;
        }
        i += 1;
    }
    begins(s, i, pat)
}

/// Executable form of [`without`].
pub fn strip(s: &[char], pat: &[char]) -> (out: Vec<char>)
    ensures
        out@ == without(s@, pat@),
{
    let mut out: Vec<char> = Vec::new();
    let mut i: usize = 0;
    proof {
        assert(s@.skip(0) == s@);
    }
    while i < s.len()
        invariant
            i <= s.len(),
            without(s@, pat@) == out@ + without(s@.skip(i as int), pat@),
        decreases s.len() - i,
    {
        let ghost rest = s@.skip(i as int);
        if pat.len() > 0 && begins(s, i, pat) {
            proof {
                assert(rest.skip(pat.len() as int) == s@.skip(i + pat.len()));
            }
            i += pat.len();
        } else {
            proof {
                assert(rest.drop_first() == s@.skip(i + 1));
                if pat.len() == 0 {
                    assert(rest == seq![rest[0]] + rest.drop_first());
                }
                assert(out@ + (seq![rest[0]] + without(rest.drop_first(), pat@)) == out@.push(
                    s@[i as int],
                ) + without(rest.drop_first(), pat@));
            }
            out.push(s[i]);
            i += 1;
        }
    }
    proof {
        assert(without(s@.skip(i as int), pat@) == Seq::<char>::empty());
        assert(out@ + Seq::<char>::empty() == out@);
    }
    out
}

/// Where the first word of a line starts: behind its leading white space.
pub open spec fn word_start(s: Seq<char>) -> int {
    run(s, Class::Space, true)
}

/// Where the first word of a line ends.
pub open spec fn word_end(s: Seq<char>) -> int {
    word_start(s) + run(s.skip(word_start(s)), Class::Space, false)
}

/// The first word of a line; empty where the line is blank.
pub open spec fn first_word(s: Seq<char>) -> Seq<char> {
    s.subrange(word_start(s), word_end(s))
}

/// What follows the first word of a line.
pub open spec fn after_first_word(s: Seq<char>) -> Seq<char> {
    s.skip(word_end(s))
}

/// The bounds of the first word of a line.
pub fn find_word(s: &[char]) -> (r: (usize, usize))
    ensures
        r.0 == word_start(s@),
        r.1 == word_end(s@),
        r.0 <= r.1 <= s.len(),
{
    proof {
        assert(s@.skip(0) == s@);
    }
    let a = run_end(s, 0, &Class::Space, true);
    let b = run_end(s, a, &Class::Space, false);
    (a, b)
}

/// A line is blank exactly if its white space runs to its end; any other
/// line has a first word that is not empty and is the first of its words.
pub proof fn lemma_first_word(s: Seq<char>)
    ensures
        0 <= word_start(s) <= word_end(s) <= s.len(),
        trim(s).len() == 0 <==> word_start(s) == s.len(),
        words(s, Class::Space).len() == 0 <==> word_start(s) == s.len(),
        word_start(s) < s.len() ==> word_start(s) < word_end(s),
        word_start(s) < s.len() ==> words(s, Class::Space)[0] == first_word(s),
        word_start(s) < s.len() ==> !is_space(first_word(s)[0]),
{
    let k = Class::Space;
    let a = word_start(s);
    lemma_run(s, k, true);
    let t = s.skip(a);
    lemma_run(t, k, false);
    lemma_run_back(t, k, true);
    lemma_words_skip(s, k);
    if a < s.len() {
        assert(t[0] == s[a]);
        assert(!k.has(t[0]));
        let n = run(t, k, false);
        assert(t.take(n) == s.subrange(a, a + n));
        assert(words(t, k) == seq![t.take(n)] + words(t.skip(n), k));
        assert(first_word(s)[0] == s[a]);
    }
}

/// Where `pat` first occurs in `s`; the length of `s` where it does not
/// occur.
pub open spec fn first_occurrence(s: Seq<char>, pat: Seq<char>) -> int
    decreases s.len(),
{
    if s.len() == 0 || starts_with(s, pat) {
        0
    } else {
        1 + first_occurrence(s.drop_first(), pat)
    }
}

/// A place at which `pat` occurs, with none before it, is the first.
pub proof fn lemma_first_occurrence_is(s: Seq<char>, pat: Seq<char>, n: int)
    requires
        0 <= n <= s.len(),
        starts_with(s.skip(n), pat),
        forall|j: int| 0 <= j < n ==> !#[trigger] starts_with(s.skip(j), pat),
    ensures
        first_occurrence(s, pat) == n,
    decreases s.len(),
{
    assert(s.skip(0) == s);
    if n > 0 {
        let t = s.drop_first();
        assert(t.skip(n - 1) == s.skip(n));
        assert forall|j: int| 0 <= j < n - 1 implies !#[trigger] starts_with(t.skip(j), pat) by {
            assert(t.skip(j) == s.skip(j + 1));
        }
        lemma_first_occurrence_is(t, pat, n - 1);
    }
}

/// No line holds a line feed.
pub proof fn lemma_lines(s: Seq<char>)
    ensures
        forall|i: int, j: int|
            0 <= i < lines(s).len() && 0 <= j < lines(s)[i].len() ==> #[trigger] lines(s)[i][j]
                != '\n',
    decreases s.len(),
{
    let k = Class::Only('\n');
    let n = run(s, k, false);
    lemma_run(s, k, false);
    if s.len() > 0 && n < s.len() {
        let rest = s.skip(n + 1);
        lemma_lines(rest);
        let head = strip_cr(s.take(n));
        assert forall|i: int, j: int|
            0 <= i < lines(s).len() && 0 <= j < lines(s)[i].len() implies #[trigger] lines(
            s,
        )[i][j] != '\n' by {
            if i == 0 {
                assert(head[j] == s[j]);
                assert(!k.has(s[j]));
            } else {
                assert(lines(s)[i] == lines(rest)[i - 1]);
            }
        }
    } else if s.len() > 0 {
        assert forall|i: int, j: int|
            0 <= i < lines(s).len() && 0 <= j < lines(s)[i].len() implies #[trigger] lines(
            s,
        )[i][j] != '\n' by {
            assert(!k.has(s[j]));
        }
    }
}

/// Every word has a character, and none of the separator class.
pub proof fn lemma_words(s: Seq<char>, k: Class)
    ensures
        forall|i: int| 0 <= i < words(s, k).len() ==> (#[trigger] words(s, k)[i]).len() > 0,
        forall|i: int, j: int|
            0 <= i < words(s, k).len() && 0 <= j < words(s, k)[i].len() ==> !k.has(
                #[trigger] words(s, k)[i][j],
            ),
    decreases s.len(),
{
    if s.len() == 0 {
        assert(words(s, k).len() == 0);
    } else if k.has(s[0]) {
        lemma_words(s.drop_first(), k);
        assert(words(s, k) == words(s.drop_first(), k));
    } else {
        let n = run(s, k, false);
        lemma_run(s, k, false);
        let rest = s.skip(n);
        lemma_words(rest, k);
        let w = words(s, k);
        assert(w == seq![s.take(n)] + words(rest, k));
        assert(w[0] == s.take(n));
        assert forall|i: int| 0 <= i < w.len() implies (#[trigger] w[i]).len() > 0 by {
            if i > 0 {
                assert(w[i] == words(rest, k)[i - 1]);
            }
        }
        assert forall|i: int, j: int| 0 <= i < w.len() && 0 <= j < w[i].len() implies !k.has(
            #[trigger] w[i][j],
        ) by {
            if i == 0 {
                assert(s.take(n)[j] == s[j]);
            } else {
                assert(w[i] == words(rest, k)[i - 1]);
            }
        }
    }
}

} // verus!
