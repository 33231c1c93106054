//! Text scanning on sequences of characters.
//!
//! Every function here states its result over `Seq<char>`, the view of a
//! string, so that callers never reason about byte offsets.

use vstd::prelude::*;
use vstd::string::*;

verus! {

// ---------------------------------------------------------------------------
// Character classes
// ---------------------------------------------------------------------------

/// The characters that carry the Unicode property `White_Space`.
pub open spec fn white_space(c: char) -> bool {
    let n = c as int;
    ||| 0x9 <= n <= 0xd
    ||| n == 0x20
    ||| n == 0x85
    ||| n == 0xa0
    ||| n == 0x1680
    ||| 0x2000 <= n <= 0x200a
    ||| n == 0x2028
    ||| n == 0x2029
    ||| n == 0x202f
    ||| n == 0x205f
    ||| n == 0x3000
}

/// `char::is_whitespace` tells whether a character has the Unicode property
/// `White_Space`; the property's members are listed in [`white_space`].
pub assume_specification[ char::is_whitespace ](c: char) -> (r: bool)
    ensures
        r == white_space(c),
;

/// Whether a character is a letter or a digit by the Unicode tables.
pub uninterp spec fn alphanumeric(c: char) -> bool;

/// The letters and digits of ASCII.
pub open spec fn ascii_alphanumeric(c: char) -> bool {
    ||| '0' <= c <= '9'
    ||| 'A' <= c <= 'Z'
    ||| 'a' <= c <= 'z'
}

/// `char::is_alphanumeric` depends on the character alone. Its tables fill
/// pages, so the answer is named [`alphanumeric`]; below U+0080 it is true of
/// the ASCII letters and digits and of nothing else.
pub assume_specification[ char::is_alphanumeric ](c: char) -> (r: bool)
    ensures
        r == alphanumeric(c),
        (c as int) < 0x80 ==> r == ascii_alphanumeric(c),
;

/// A set of characters that a scan stops at or strips.
#[derive(Clone, Copy)]
pub enum CharClass {
    /// One character.
    Only(char),
    /// Unicode white space.
    White,
    /// The marks between a key and its value: `=` and `:`.
    Assign,
    /// Whatever cannot be part of an atom: no letter, no digit, no `_`.
    NonAtom,
    /// White space and `,`, which end a bare word.
    WordEnd,
}

impl CharClass {
    /// The characters of the class.
    pub open spec fn holds(self, c: char) -> bool {
        match self {
            CharClass::Only(x) => c == x,
            CharClass::White => white_space(c),
            CharClass::Assign => c == '=' || c == ':',
            CharClass::NonAtom => !alphanumeric(c) && c != '_',
            CharClass::WordEnd => white_space(c) || c == ',',
        }
    }

    /// Whether `c` belongs to the class.
    pub fn has(self, c: char) -> (r: bool)
        ensures
            r == self.holds(c),
    {
        match self {
            CharClass::Only(x) => c == x,
            CharClass::White => c.is_whitespace(),
            CharClass::Assign => c == '=' || c == ':',
            CharClass::NonAtom => !c.is_alphanumeric() && c != '_',
            CharClass::WordEnd => c.is_whitespace() || c == ',',
        }
    }
}

// ---------------------------------------------------------------------------
// Characters and strings
// ---------------------------------------------------------------------------

/// The characters of a string, in order.
pub fn chars_of(s: &str) -> (v: Vec<char>)
    ensures
        v@ == s@,
{
    let mut v: Vec<char> = Vec::new();
    for c in it: s.chars()
        invariant
            v@ == it.seq().take(it.index()),
            it.seq() == s@,
    {
        v.push(c);
    }
    v
}

/// `String::push` appends one character.
pub assume_specification[ String::push ](s: &mut String, c: char)
    ensures
        final(s)@ == old(s)@.push(c),
;

/// Whether two strings hold the same characters.
pub fn same(a: &str, b: &str) -> (r: bool)
    ensures
        r == (a@ == b@),
{
    let x = a.as_bytes();
    let y = b.as_bytes();
    proof {
        vstd::utf8::encode_utf8_decode_utf8(a@);
        vstd::utf8::encode_utf8_decode_utf8(b@);
    }
    if x.len() != y.len() {
        return false;
    }
    let mut i: usize = 0;
    while i < x.len()
        invariant
            i <= x@.len(),
            x@.len() == y@.len(),
            x@ == a.spec_bytes(),
            y@ == b.spec_bytes(),
            forall|k: int| 0 <= k < i ==> x@[k] == y@[k],
        decreases x@.len() - i,
    {
        if x[i] != y[i] {
            return false;
        }
        i += 1;
    }
    assert(x@ =~= y@);
    true
}

// ---------------------------------------------------------------------------
// Stripping
// ---------------------------------------------------------------------------

/// `s` without its leading characters of the class.
pub open spec fn trim_start_of(s: Seq<char>, class: CharClass) -> Seq<char>
    decreases s.len(),
{
    if s.len() > 0 && class.holds(s[0]) {
        trim_start_of(s.skip(1), class)
    } else {
        s
    }
}

/// `s` without its trailing characters of the class.
pub open spec fn trim_end_of(s: Seq<char>, class: CharClass) -> Seq<char>
    decreases s.len(),
{
    if s.len() > 0 && class.holds(s.last()) {
        trim_end_of(s.drop_last(), class)
    } else {
        s
    }
}

/// `s` without the characters of the class at either end.
pub open spec fn trim_of(s: Seq<char>, class: CharClass) -> Seq<char> {
    trim_end_of(trim_start_of(s, class), class)
}

/// Strips the leading characters of the class.
pub fn trim_start<'a>(s: &'a str, class: CharClass) -> (r: &'a str)
    ensures
        r@ == trim_start_of(s@, class),
{
    let v = chars_of(s);
    let mut i: usize = 0;
    assert(v@.skip(0) =~= v@);
    while i < v.len() && class.has(v[i])
        invariant
            i <= v@.len(),
            trim_start_of(v@.skip(i as int), class) == trim_start_of(v@, class),
        decreases v@.len() - i,
    {
        assert(v@.skip(i as int).skip(1) =~= v@.skip(i + 1));
        i += 1;
    }
    let r = s.substring_char(i, v.len());
    assert(r@ =~= v@.skip(i as int));
    r
}

/// Strips the trailing characters of the class.
pub fn trim_end<'a>(s: &'a str, class: CharClass) -> (r: &'a str)
    ensures
        r@ == trim_end_of(s@, class),
{
    let v = chars_of(s);
    let mut n: usize = v.len();
    assert(v@.take(n as int) =~= v@);
    while n > 0 && class.has(v[n - 1])
        invariant
            n <= v@.len(),
            trim_end_of(v@.take(n as int), class) == trim_end_of(v@, class),
        decreases n,
    {
        assert(v@.take(n as int).drop_last() =~= v@.take(n - 1));
        n -= 1;
    }
    let r = s.substring_char(0, n);
    assert(r@ =~= v@.take(n as int));
    r
}

/// Strips the characters of the class at both ends.
pub fn trim<'a>(s: &'a str, class: CharClass) -> (r: &'a str)
    ensures
        r@ == trim_of(s@, class),
{
    trim_end(trim_start(s, class), class)
}

/// Whether `s` begins with `prefix`.
pub fn starts_with(s: &str, prefix: &str) -> (r: bool)
    ensures
        r == prefix@.is_prefix_of(s@),
{
    let v = chars_of(s);
    let p = chars_of(prefix);
    if p.len() > v.len() {
        return false;
    }
    matches_at(&v, &p, 0)
}

/// Whether `s` ends with `suffix`.
pub fn ends_with(s: &str, suffix: &str) -> (r: bool)
    ensures
        r == suffix@.is_suffix_of(s@),
{
    let v = chars_of(s);
    let p = chars_of(suffix);
    if p.len() > v.len() {
        return false;
    }
    matches_at(&v, &p, v.len() - p.len())
}

/// Whether `p` occurs in `v` at `at`.
fn matches_at(v: &Vec<char>, p: &Vec<char>, at: usize) -> (r: bool)
    requires
        at + p@.len() <= v@.len(),
    ensures
        r == (v@.subrange(at as int, at + p@.len()) == p@),
{
    let mut i: usize = 0;
    while i < p.len()
        invariant
            i <= p@.len(),
            at + p.len() <= v.len(),
            forall|k: int| 0 <= k < i ==> v@[at + k] == p@[k],
        decreases p@.len() - i,
    {
        if v[at + i] != p[i] {
            assert(v@.subrange(at as int, at + p@.len())[i as int] != p@[i as int]);
            return false;
        }
        i += 1;
    }
    assert(v@.subrange(at as int, at + p@.len()) =~= p@);
    true
}

/// What is left of `s` behind `prefix`, if `s` begins with it.
pub open spec fn after_prefix(s: Seq<char>, prefix: Seq<char>) -> Option<Seq<char>> {
    if prefix.is_prefix_of(s) {
        Some(s.skip(prefix.len() as int))
    } else {
        None
    }
}

/// What is left of `s` before `suffix`, if `s` ends with it.
pub open spec fn before_suffix(s: Seq<char>, suffix: Seq<char>) -> Option<Seq<char>> {
    if suffix.is_suffix_of(s) {
        Some(s.take(s.len() - suffix.len()))
    } else {
        None
    }
}

/// Strips `prefix` once.
pub fn strip_prefix<'a>(s: &'a str, prefix: &str) -> (r: Option<&'a str>)
    ensures
        r.deep_view() == after_prefix(s@, prefix@),
{
    if starts_with(s, prefix) {
        let n = s.unicode_len();
        let rest = s.substring_char(prefix.unicode_len(), n);
        assert(rest@ =~= s@.skip(prefix@.len() as int));
        Some(rest)
    } else {
        None
    }
}

/// Strips `suffix` once.
pub fn strip_suffix<'a>(s: &'a str, suffix: &str) -> (r: Option<&'a str>)
    ensures
        r.deep_view() == before_suffix(s@, suffix@),
{
    if ends_with(s, suffix) {
        let rest = s.substring_char(0, s.unicode_len() - suffix.unicode_len());
        assert(rest@ =~= s@.take(s@.len() - suffix@.len()));
        Some(rest)
    } else {
        None
    }
}

/// `s` with every leading copy of `prefix` removed.
pub open spec fn trim_prefix_of(s: Seq<char>, prefix: Seq<char>) -> Seq<char>
    decreases s.len(),
{
    if prefix.len() > 0 && prefix.is_prefix_of(s) {
        trim_prefix_of(s.skip(prefix.len() as int), prefix)
    } else {
        s
    }
}

/// Strips `prefix` as often as it leads.
pub fn trim_prefix<'a>(s: &'a str, prefix: &str) -> (r: &'a str)
    ensures
        r@ == trim_prefix_of(s@, prefix@),
{
    if prefix.is_empty() {
        return s;
    }
    let mut rest = s;
    loop
        invariant
            prefix@.len() > 0,
            trim_prefix_of(rest@, prefix@) == trim_prefix_of(s@, prefix@),
        decreases rest@.len(),
    {
        match strip_prefix(rest, prefix) {
            Some(shorter) => {
                rest = shorter;
            }
            None => {
                return rest;
            }
        }
    }
}

// ---------------------------------------------------------------------------
// Splitting
// ---------------------------------------------------------------------------

/// How many characters of `s` come before the first one of the class.
pub open spec fn span(s: Seq<char>, class: CharClass) -> nat
    decreases s.len(),
{
    if s.len() == 0 || class.holds(s[0]) {
        0
    } else {
        1 + span(s.skip(1), class)
    }
}

/// How many characters of `s` come after the last one of the class.
pub open spec fn tail_span(s: Seq<char>, class: CharClass) -> nat
    decreases s.len(),
{
    if s.len() == 0 || class.holds(s.last()) {
        0
    } else {
        1 + tail_span(s.drop_last(), class)
    }
}

/// The pieces of `s` between the characters of the class: always one more
/// than there are such characters.
pub open spec fn pieces(s: Seq<char>, class: CharClass) -> Seq<Seq<char>>
    decreases s.len(),
{
    let n = span(s, class);
    if n >= s.len() {
        seq![s]
    } else {
        seq![s.take(n as int)] + pieces(s.skip(n as int + 1), class)
    }
}

/// `span` is the one position with nothing of the class before it and a
/// character of the class, or the end, at it.
pub proof fn lemma_span(s: Seq<char>, class: CharClass, n: int)
    requires
        0 <= n <= s.len(),
        forall|k: int| 0 <= k < n ==> !class.holds(#[trigger] s[k]),
        n == s.len() || class.holds(s[n]),
    ensures
        span(s, class) == n,
    decreases s.len(),
{
    if n > 0 {
        assert forall|k: int| 0 <= k < n - 1 implies !class.holds(#[trigger] s.skip(1)[k]) by {
            assert(s.skip(1)[k] == s[k + 1]);
        }
        lemma_span(s.skip(1), class, n - 1);
    }
}

/// `tail_span` is the one length with nothing of the class in that many last
/// characters and one of the class, or the beginning, before them.
pub proof fn lemma_tail_span(s: Seq<char>, class: CharClass, n: int)
    requires
        0 <= n <= s.len(),
        forall|k: int| s.len() - n <= k < s.len() ==> !class.holds(#[trigger] s[k]),
        n == s.len() || class.holds(s[s.len() - n - 1]),
    ensures
        tail_span(s, class) == n,
    decreases s.len(),
{
    if n > 0 {
        let d = s.drop_last();
        assert forall|k: int| d.len() - (n - 1) <= k < d.len() implies !class.holds(
            #[trigger] d[k],
        ) by {
            assert(d[k] == s[k]);
        }
        lemma_tail_span(d, class, n - 1);
    }
}

/// The position of the first character of the class, or the length.
pub fn find(s: &str, class: CharClass) -> (r: usize)
    ensures
        r == span(s@, class),
        r <= s@.len(),
{
    let v = chars_of(s);
    let mut i: usize = 0;
    while i < v.len() && !class.has(v[i])
        invariant
            i <= v@.len(),
            v@ == s@,
            forall|k: int| 0 <= k < i ==> !class.holds(#[trigger] v@[k]),
        decreases v@.len() - i,
    {
        i += 1;
    }
    proof {
        lemma_span(v@, class, i as int);
    }
    i
}

/// How many characters follow the last one of the class.
fn find_last(s: &str, class: CharClass) -> (r: usize)
    ensures
        r == tail_span(s@, class),
        r <= s@.len(),
{
    let v = chars_of(s);
    let mut n: usize = 0;
    while n < v.len() && !class.has(v[v.len() - n - 1])
        invariant
            n <= v@.len(),
            v@ == s@,
            forall|k: int| v@.len() - n <= k < v@.len() ==> !class.holds(#[trigger] v@[k]),
        decreases v@.len() - n,
    {
        n += 1;
    }
    proof {
        lemma_tail_span(v@, class, n as int);
    }
    n
}

/// The text before the first character of the class.
pub open spec fn first_piece(s: Seq<char>, class: CharClass) -> Seq<char> {
    s.take(span(s, class) as int)
}

/// The text after the last character of the class.
pub open spec fn last_piece(s: Seq<char>, class: CharClass) -> Seq<char> {
    s.skip(s.len() - tail_span(s, class))
}

/// The text on either side of the last character of the class, if there is one.
pub open spec fn cut_last(s: Seq<char>, class: CharClass) -> Option<(Seq<char>, Seq<char>)> {
    let n = tail_span(s, class);
    if n < s.len() {
        Some((s.take(s.len() - n - 1), s.skip(s.len() - n)))
    } else {
        None
    }
}

/// Takes the text before the first character of the class.
pub fn before<'a>(s: &'a str, class: CharClass) -> (r: &'a str)
    ensures
        r@ == first_piece(s@, class),
{
    let r = s.substring_char(0, find(s, class));
    assert(r@ =~= first_piece(s@, class));
    r
}

/// Takes the text after the last character of the class.
pub fn after_last<'a>(s: &'a str, class: CharClass) -> (r: &'a str)
    ensures
        r@ == last_piece(s@, class),
{
    let n = s.unicode_len();
    let r = s.substring_char(n - find_last(s, class), n);
    assert(r@ =~= last_piece(s@, class));
    r
}

/// Cuts `s` at the last character of the class.
pub fn rsplit_once<'a>(s: &'a str, class: CharClass) -> (r: Option<(&'a str, &'a str)>)
    ensures
        r.deep_view() == cut_last(s@, class),
{
    let n = s.unicode_len();
    let k = find_last(s, class);
    if k < n {
        let head = s.substring_char(0, n - k - 1);
        let tail = s.substring_char(n - k, n);
        assert(head@ =~= s@.take(n - k - 1));
        assert(tail@ =~= s@.skip(n - k));
        Some((head, tail))
    } else {
        None
    }
}

/// Splits `s` at every character of the class.
pub fn split(s: &str, class: CharClass) -> (r: Vec<String>)
    ensures
        r.deep_view() == pieces(s@, class),
{
    let v = chars_of(s);
    let mut out: Vec<String> = Vec::new();
    let mut start: usize = 0;
    let mut i: usize = 0;
    assert(v@.skip(0) =~= v@);
    assert(out.deep_view() + pieces(v@, class) =~= pieces(v@, class));
    while i < v.len()
        invariant
            start <= i <= v@.len(),
            v@ == s@,
            forall|k: int| start <= k < i ==> !class.holds(#[trigger] v@[k]),
            out.deep_view() + pieces(v@.skip(start as int), class) == pieces(v@, class),
        decreases v@.len() - i,
    {
        if class.has(v[i]) {
            let ghost rest = v@.skip(start as int);
            let ghost before = out.deep_view();
            let piece = s.substring_char(start, i).to_owned();
            proof {
                assert forall|k: int| 0 <= k < i - start implies !class.holds(
                    #[trigger] rest[k],
                ) by {
                    assert(rest[k] == v@[start + k]);
                }
                lemma_span(rest, class, i - start);
                assert(piece@ =~= rest.take(i - start));
                assert(rest.skip(i - start + 1) =~= v@.skip(i + 1));
            }
            out.push(piece);
            assert(out.deep_view() =~= before.push(piece@));
            assert(out.deep_view() + pieces(v@.skip(i + 1), class) =~= before + pieces(
                rest,
                class,
            ));
            start = i + 1;
        }
        i += 1;
    }
    let ghost rest = v@.skip(start as int);
    let ghost before = out.deep_view();
    let piece = s.substring_char(start, i).to_owned();
    proof {
        assert forall|k: int| 0 <= k < i - start implies !class.holds(#[trigger] rest[k]) by {
            assert(rest[k] == v@[start + k]);
        }
        lemma_span(rest, class, i - start);
        assert(piece@ =~= rest);
    }
    out.push(piece);
    assert(out.deep_view() =~= before + seq![rest]);
    out
}

/// The text without one carriage return at its end.
pub open spec fn without_cr(s: Seq<char>) -> Seq<char> {
    if s.len() > 0 && s.last() == '\r' {
        s.drop_last()
    } else {
        s
    }
}

/// The lines of a text. A line ends at a line feed, or at a carriage return
/// and a line feed; the last line needs no ending.
pub open spec fn lines_of(s: Seq<char>) -> Seq<Seq<char>>
    decreases s.len(),
{
    let n = span(s, CharClass::Only('\n'));
    if s.len() == 0 {
        seq![]
    } else if n >= s.len() {
        seq![s]
    } else {
        seq![without_cr(s.take(n as int))] + lines_of(s.skip(n as int + 1))
    }
}

/// Splits a text into its lines.
pub fn lines(s: &str) -> (r: Vec<String>)
    ensures
        r.deep_view() == lines_of(s@),
{
    let class = CharClass::Only('\n');
    let v = chars_of(s);
    let mut out: Vec<String> = Vec::new();
    let mut start: usize = 0;
    let mut i: usize = 0;
    assert(v@.skip(0) =~= v@);
    assert(out.deep_view() + lines_of(v@) =~= lines_of(v@));
    while i < v.len()
        invariant
            start <= i <= v@.len(),
            v@ == s@,
            class == CharClass::Only('\n'),
            forall|k: int| start <= k < i ==> !class.holds(#[trigger] v@[k]),
            out.deep_view() + lines_of(v@.skip(start as int)) == lines_of(v@),
        decreases v@.len() - i,
    {
        if v[i] == '\n' {
            let ghost rest = v@.skip(start as int);
            let ghost before = out.deep_view();
            let end: usize = if start < i && v[i - 1] == '\r' {
                i - 1
            } else {
                i
            };
            let line = s.substring_char(start, end).to_owned();
            proof {
                assert forall|k: int| 0 <= k < i - start implies !class.holds(
                    #[trigger] rest[k],
                ) by {
                    assert(rest[k] == v@[start + k]);
                }
                lemma_span(rest, class, i - start);
                assert(line@ =~= without_cr(rest.take(i - start)));
                assert(rest.skip(i - start + 1) =~= v@.skip(i + 1));
            }
            out.push(line);
            assert(out.deep_view() =~= before.push(line@));
            assert(out.deep_view() + lines_of(v@.skip(i + 1)) =~= before + lines_of(rest));
            start = i + 1;
        }
        i += 1;
    }
    let ghost rest = v@.skip(start as int);
    let ghost before = out.deep_view();
    if start < i {
        let line = s.substring_char(start, i).to_owned();
        proof {
            assert forall|k: int| 0 <= k < i - start implies !class.holds(#[trigger] rest[k]) by {
                assert(rest[k] == v@[start + k]);
            }
            lemma_span(rest, class, i - start);
            assert(line@ =~= rest);
        }
        out.push(line);
        assert(out.deep_view() =~= before + seq![rest]);
    } else {
        assert(out.deep_view() + lines_of(rest) =~= out.deep_view());
    }
    out
}

// ---------------------------------------------------------------------------
// Searching and rewriting
// ---------------------------------------------------------------------------

/// Whether `pattern` occurs somewhere in `s`.
pub open spec fn occurs(s: Seq<char>, pattern: Seq<char>) -> bool {
    exists|i: int|
        0 <= i <= s.len() - pattern.len() && #[trigger] s.subrange(i, i + pattern.len()) == pattern
}

/// Whether `pattern` occurs in `s`.
pub fn contains(s: &str, pattern: &str) -> (r: bool)
    ensures
        r == occurs(s@, pattern@),
{
    let v = chars_of(s);
    let p = chars_of(pattern);
    if p.len() > v.len() {
        return false;
    }
    let last: usize = v.len() - p.len();
    let mut i: usize = 0;
    loop
        invariant
            i <= last,
            last + p.len() == v.len(),
            v@ == s@,
            p@ == pattern@,
            forall|k: int| 0 <= k < i ==> #[trigger] v@.subrange(k, k + p@.len()) != p@,
        decreases last - i,
    {
        if matches_at(&v, &p, i) {
            return true;
        }
        if i == last {
            return false;
        }
        i += 1;
    }
}

/// `s` with every occurrence of `pattern`, found from left to right and never
/// overlapping, replaced by `with`.
pub open spec fn replaced(s: Seq<char>, pattern: Seq<char>, with: Seq<char>) -> Seq<char>
    decreases s.len(),
{
    if pattern.len() == 0 || s.len() < pattern.len() {
        s
    } else if pattern.is_prefix_of(s) {
        with + replaced(s.skip(pattern.len() as int), pattern, with)
    } else {
        seq![s[0]] + replaced(s.skip(1), pattern, with)
    }
}

/// Replaces every occurrence of a pattern that is not empty.
pub fn replace(s: &str, pattern: &str, with: &str) -> (r: String)
    requires
        pattern@.len() > 0,
    ensures
        r@ == replaced(s@, pattern@, with@),
{
    let v = chars_of(s);
    let p = chars_of(pattern);
    let mut out = String::new();
    let mut i: usize = 0;
    assert(v@.skip(0) =~= v@);
    assert(out@ + replaced(v@, p@, with@) =~= replaced(v@, p@, with@));
    while p.len() <= v.len() - i
        invariant
            i <= v.len(),
            v@ == s@,
            p@ == pattern@,
            p@.len() > 0,
            out@ + replaced(v@.skip(i as int), p@, with@) == replaced(v@, p@, with@),
        decreases v@.len() - i,
    {
        let ghost rest = v@.skip(i as int);
        let ghost before = out@;
        assert(rest.take(p@.len() as int) =~= v@.subrange(i as int, i + p@.len()));
        assert(rest.subrange(0, p@.len() as int) =~= v@.subrange(i as int, i + p@.len()));
        if matches_at(&v, &p, i) {
            assert(rest.skip(p@.len() as int) =~= v@.skip(i + p@.len()));
            out.append(with);
            i += p.len();
            assert(out@ + replaced(v@.skip(i as int), p@, with@) =~= before + replaced(
                rest,
                p@,
                with@,
            ));
        } else {
            assert(rest.skip(1) =~= v@.skip(i + 1));
            out.push(v[i]);
            i += 1;
            assert(out@ + replaced(v@.skip(i as int), p@, with@) =~= before + replaced(
                rest,
                p@,
                with@,
            ));
        }
    }
    out.append(s.substring_char(i, v.len()));
    assert(s@.subrange(i as int, v@.len() as int) =~= v@.skip(i as int));
    out
}

// ---------------------------------------------------------------------------
// Order and size
// ---------------------------------------------------------------------------

/// Whether `a` comes before `b`, or is equal to it, in the order of strings:
/// by the first character in which they differ, a prefix first.
pub open spec fn text_le(a: Seq<char>, b: Seq<char>) -> bool
    decreases a.len(),
{
    if a.len() == 0 {
        true
    } else if b.len() == 0 {
        false
    } else if a[0] != b[0] {
        (a[0] as int) < (b[0] as int)
    } else {
        text_le(a.skip(1), b.skip(1))
    }
}

/// Any two texts are ordered one way or the other.
pub proof fn lemma_text_le_total(a: Seq<char>, b: Seq<char>)
    ensures
        text_le(a, b) || text_le(b, a),
    decreases a.len(),
{
    if a.len() > 0 && b.len() > 0 && a[0] == b[0] {
        lemma_text_le_total(a.skip(1), b.skip(1));
    }
}

/// Texts that are ordered both ways are equal.
pub proof fn lemma_text_le_antisymmetric(a: Seq<char>, b: Seq<char>)
    requires
        text_le(a, b),
        text_le(b, a),
    ensures
        a == b,
    decreases a.len(),
{
    if a.len() > 0 && b.len() > 0 {
        lemma_text_le_antisymmetric(a.skip(1), b.skip(1));
        assert(a =~= seq![a[0]] + a.skip(1));
        assert(b =~= seq![b[0]] + b.skip(1));
    } else {
        assert(a =~= b);
    }
}

/// The order of texts is transitive.
pub proof fn lemma_text_le_transitive(a: Seq<char>, b: Seq<char>, c: Seq<char>)
    requires
        text_le(a, b),
        text_le(b, c),
    ensures
        text_le(a, c),
    decreases a.len(),
{
    if a.len() > 0 && b.len() > 0 && c.len() > 0 && a[0] == b[0] && b[0] == c[0] {
        lemma_text_le_transitive(a.skip(1), b.skip(1), c.skip(1));
    }
}

/// Whether `a` comes before `b` or is equal to it.
pub fn is_le(a: &str, b: &str) -> (r: bool)
    ensures
        r == text_le(a@, b@),
{
    let x = chars_of(a);
    let y = chars_of(b);
    let mut i: usize = 0;
    assert(x@.skip(0) =~= x@);
    assert(y@.skip(0) =~= y@);
    while i < x.len() && i < y.len()
        invariant
            i <= x@.len(),
            i <= y@.len(),
            x@ == a@,
            y@ == b@,
            text_le(x@.skip(i as int), y@.skip(i as int)) == text_le(x@, y@),
        decreases x@.len() - i,
    {
        if x[i] != y[i] {
            return x[i] < y[i];
        }
        assert(x@.skip(i as int).skip(1) =~= x@.skip(i + 1));
        assert(y@.skip(i as int).skip(1) =~= y@.skip(i + 1));
        i += 1;
    }
    i >= x.len()
}

/// The length of a text in bytes, as it is encoded.
pub open spec fn byte_len(s: Seq<char>) -> nat {
    vstd::utf8::encode_utf8(s).len()
}

/// Measures a text in bytes.
pub fn measure(s: &str) -> (r: usize)
    ensures
        r == byte_len(s@),
{
    s.as_bytes().len()
}

/// The decimal digits of a number.
pub open spec fn decimal_of(n: nat) -> Seq<char>
    decreases n,
{
    let digit = seq![(48 + n % 10) as char];
    if n < 10 {
        digit
    } else {
        decimal_of(n / 10) + digit
    }
}

/// Writes a number in decimal.
pub fn decimal(n: u64) -> (r: String)
    ensures
        r@ == decimal_of(n as nat),
    decreases n,
{
    let digit = (48u8 + (n % 10) as u8) as char;
    let mut r = if n < 10 {
        String::new()
    } else {
        decimal(n / 10)
    };
    let ghost head = r@;
    r.push(digit);
    assert(r@ =~= head + seq![digit]);
    r
}

// ---------------------------------------------------------------------------
// Laws
// ---------------------------------------------------------------------------

/// The classes hold what their names say. Of ASCII, white space is the blank
/// and the characters from tab to carriage return; an atom is made of letters,
/// digits and underscores.
pub proof fn law_character_classes(c: char, x: char)
    ensures
        CharClass::Only(x).holds(c) <==> c == x,
        CharClass::Assign.holds(c) <==> c == '=' || c == ':',
        CharClass::White.holds(c) ==> CharClass::WordEnd.holds(c),
        CharClass::WordEnd.holds(c) <==> CharClass::White.holds(c) || c == ',',
        CharClass::NonAtom.holds(c) <==> !(alphanumeric(c) || c == '_'),
        (c as int) < 0x80 ==> (CharClass::White.holds(c) <==> c == ' ' || '\t' <= c <= '\r'),
{
}

/// Trimming the end takes off the characters of the class that stand there,
/// and nothing else.
pub proof fn law_trim_end(s: Seq<char>, class: CharClass)
    ensures
        trim_end_of(s, class).is_prefix_of(s),
        forall|i: int|
            trim_end_of(s, class).len() <= i < s.len() ==> class.holds(#[trigger] s[i]),
        trim_end_of(s, class).len() > 0 ==> !class.holds(trim_end_of(s, class).last()),
    decreases s.len(),
{
    if s.len() > 0 && class.holds(s.last()) {
        let d = s.drop_last();
        law_trim_end(d, class);
        let r = trim_end_of(d, class);
        assert(r =~= d.subrange(0, r.len() as int));
        assert(r =~= s.subrange(0, r.len() as int));
        assert forall|i: int| r.len() <= i < s.len() implies class.holds(#[trigger] s[i]) by {
            if i < d.len() {
                assert(d[i] == s[i]);
            }
        }
    } else {
        assert(s =~= s.subrange(0, s.len() as int));
    }
}

/// Trimming the start takes off the characters of the class that stand there,
/// and nothing else.
pub proof fn law_trim_start(s: Seq<char>, class: CharClass)
    ensures
        trim_start_of(s, class).is_suffix_of(s),
        forall|i: int|
            0 <= i < s.len() - trim_start_of(s, class).len() ==> class.holds(#[trigger] s[i]),
        trim_start_of(s, class).len() > 0 ==> !class.holds(trim_start_of(s, class)[0]),
    decreases s.len(),
{
    if s.len() > 0 && class.holds(s[0]) {
        let d = s.skip(1);
        law_trim_start(d, class);
        let r = trim_start_of(d, class);
        assert(r =~= d.subrange(d.len() - r.len(), d.len() as int));
        assert(r =~= s.subrange(s.len() - r.len(), s.len() as int));
        assert forall|i: int| 0 <= i < s.len() - r.len() implies class.holds(#[trigger] s[i]) by {
            if i > 0 {
                assert(d[i - 1] == s[i]);
            }
        }
    } else {
        assert(s =~= s.subrange(0, s.len() as int));
    }
}

/// Trimming takes off the characters of the class at both ends: what is left is
/// one stretch of the text, with nothing but the class around it and nothing of
/// the class at its ends.
pub proof fn law_trim(s: Seq<char>, class: CharClass)
    ensures
        exists|i: int, j: int|
            {
                &&& 0 <= i <= j <= s.len()
                &&& #[trigger] s.subrange(i, j) == trim_of(s, class)
                &&& forall|k: int|
                    0 <= k < s.len() && !(i <= k < j) ==> class.holds(#[trigger] s[k])
            },
        trim_of(s, class).len() > 0 ==> !class.holds(trim_of(s, class)[0]) && !class.holds(
            trim_of(s, class).last(),
        ),
{
    let a = trim_start_of(s, class);
    let r = trim_of(s, class);
    law_trim_start(s, class);
    law_trim_end(a, class);
    let i = s.len() - a.len();
    let j = i + r.len();
    assert(a =~= s.subrange(i, s.len() as int));
    assert(r =~= a.subrange(0, r.len() as int));
    assert(s.subrange(i, j) =~= r);
    assert forall|k: int| 0 <= k < s.len() && !(i <= k < j) implies class.holds(#[trigger] s[k]) by {
        if k >= j {
            assert(a[k - i] == s[k]);
        }
    }
}

/// What follows a prefix is what the prefix has to be put before.
pub proof fn law_prefix_is_put_back(s: Seq<char>, prefix: Seq<char>, rest: Seq<char>)
    ensures
        after_prefix(s, prefix) == Some(rest) <==> s == prefix + rest,
        after_prefix(s, prefix) is None <==> !prefix.is_prefix_of(s),
{
    if s == prefix + rest {
        assert(s.subrange(0, prefix.len() as int) =~= prefix);
        assert(s.skip(prefix.len() as int) =~= rest);
    }
    if after_prefix(s, prefix) == Some(rest) {
        assert(s.subrange(0, prefix.len() as int) == prefix);
        assert(s =~= prefix + rest);
    }
}

/// What stands before a suffix is what the suffix has to be put behind.
pub proof fn law_suffix_is_put_back(s: Seq<char>, suffix: Seq<char>, rest: Seq<char>)
    ensures
        before_suffix(s, suffix) == Some(rest) <==> s == rest + suffix,
        before_suffix(s, suffix) is None <==> !suffix.is_suffix_of(s),
{
    if s == rest + suffix {
        assert(s.subrange(s.len() - suffix.len(), s.len() as int) =~= suffix);
        assert(s.take(s.len() - suffix.len()) =~= rest);
    }
    if before_suffix(s, suffix) == Some(rest) {
        assert(s.subrange(s.len() - suffix.len(), s.len() as int) == suffix);
        assert(s =~= rest + suffix);
    }
}

/// A prefix is taken off as often as it leads, and a text that does not begin
/// with it is left alone.
pub proof fn law_leading_copies_are_taken_off(s: Seq<char>, prefix: Seq<char>)
    requires
        prefix.len() > 0,
    ensures
        trim_prefix_of(prefix + s, prefix) == trim_prefix_of(s, prefix),
        !prefix.is_prefix_of(s) ==> trim_prefix_of(s, prefix) == s,
        !prefix.is_prefix_of(trim_prefix_of(s, prefix)),
        trim_prefix_of(s, prefix).is_suffix_of(s),
    decreases s.len(),
{
    let more = prefix + s;
    assert(more.subrange(0, prefix.len() as int) =~= prefix);
    assert(more.skip(prefix.len() as int) =~= s);
    if prefix.is_prefix_of(s) {
        let rest = s.skip(prefix.len() as int);
        law_leading_copies_are_taken_off(rest, prefix);
        let r = trim_prefix_of(rest, prefix);
        assert(r =~= rest.subrange(rest.len() - r.len(), rest.len() as int));
        assert(r =~= s.subrange(s.len() - r.len(), s.len() as int));
    } else {
        assert(s =~= s.subrange(0, s.len() as int));
    }
}

/// Where the first character of a class stands.
pub proof fn law_span(s: Seq<char>, class: CharClass)
    ensures
        span(s, class) <= s.len(),
        forall|i: int| 0 <= i < span(s, class) ==> !class.holds(#[trigger] s[i]),
        span(s, class) < s.len() ==> class.holds(s[span(s, class) as int]),
    decreases s.len(),
{
    if s.len() > 0 && !class.holds(s[0]) {
        law_span(s.skip(1), class);
        assert forall|i: int| 0 <= i < span(s, class) implies !class.holds(#[trigger] s[i]) by {
            if i > 0 {
                assert(s.skip(1)[i - 1] == s[i]);
            }
        }
    }
}

/// Where the last character of a class stands, from the end.
pub proof fn law_tail_span(s: Seq<char>, class: CharClass)
    ensures
        tail_span(s, class) <= s.len(),
        forall|i: int|
            s.len() - tail_span(s, class) <= i < s.len() ==> !class.holds(#[trigger] s[i]),
        tail_span(s, class) < s.len() ==> class.holds(s[s.len() - tail_span(s, class) - 1]),
    decreases s.len(),
{
    if s.len() > 0 && !class.holds(s.last()) {
        let d = s.drop_last();
        law_tail_span(d, class);
        assert forall|i: int| s.len() - tail_span(s, class) <= i < s.len() implies !class.holds(
            #[trigger] s[i],
        ) by {
            if i < d.len() {
                assert(d[i] == s[i]);
            }
        }
    }
}

/// Splitting takes a text apart at every character of the class and nowhere
/// else: two texts with such a character between them have the pieces of the
/// first, then those of the second.
pub proof fn law_split_at_every_separator(
    a: Seq<char>,
    c: char,
    b: Seq<char>,
    class: CharClass,
)
    requires
        class.holds(c),
    ensures
        pieces(a + seq![c] + b, class) == pieces(a, class) + pieces(b, class),
        (forall|i: int| 0 <= i < a.len() ==> !class.holds(#[trigger] a[i])) ==> pieces(a, class)
            == seq![a],
    decreases a.len(),
{
    let all = a + seq![c] + b;
    let n = span(a, class) as int;
    law_span(a, class);
    if n >= a.len() {
        assert forall|k: int| 0 <= k < n implies !class.holds(#[trigger] all[k]) by {
            assert(all[k] == a[k]);
        }
        assert(all[n] == c);
        lemma_span(all, class, n);
        assert(all.take(n) =~= a);
        assert(all.skip(n + 1) =~= b);
        assert(pieces(all, class) =~= seq![a] + pieces(b, class));
    } else {
        let rest = a.skip(n + 1);
        law_split_at_every_separator(rest, c, b, class);
        assert forall|k: int| 0 <= k < n implies !class.holds(#[trigger] all[k]) by {
            assert(all[k] == a[k]);
        }
        assert(all[n] == a[n]);
        lemma_span(all, class, n);
        assert(all.take(n) =~= a.take(n));
        assert(all.skip(n + 1) =~= rest + seq![c] + b);
        assert(pieces(all, class) =~= pieces(a, class) + pieces(b, class));
        assert(class.holds(a[n]));
    }
}

/// No piece of a split text holds a character of the class, and there is always
/// one piece.
pub proof fn law_pieces_hold_no_separator(s: Seq<char>, class: CharClass)
    ensures
        pieces(s, class).len() > 0,
        forall|k: int, i: int|
            0 <= k < pieces(s, class).len() && 0 <= i < pieces(s, class)[k].len() ==> !class.holds(
                #[trigger] pieces(s, class)[k][i],
            ),
    decreases s.len(),
{
    let n = span(s, class) as int;
    let all = pieces(s, class);
    law_span(s, class);
    if n < s.len() {
        let more = pieces(s.skip(n + 1), class);
        law_pieces_hold_no_separator(s.skip(n + 1), class);
        assert(all == seq![s.take(n)] + more);
        assert forall|k: int, i: int| 0 <= k < all.len() && 0 <= i < all[k].len() implies
            !class.holds(#[trigger] all[k][i]) by {
            if k > 0 {
                assert(all[k] == more[k - 1]);
                assert(!class.holds(more[k - 1][i]));
            } else {
                assert(all[0][i] == s[i]);
            }
        }
    } else {
        assert forall|k: int, i: int| 0 <= k < all.len() && 0 <= i < all[k].len() implies
            !class.holds(#[trigger] all[k][i]) by {
            assert(all[k] == s);
        }
    }
}

/// The first piece is what stands before the first character of the class, the
/// last piece what stands behind the last one.
pub proof fn law_first_and_last_piece(s: Seq<char>, class: CharClass)
    ensures
        first_piece(s, class).is_prefix_of(s),
        forall|i: int|
            0 <= i < first_piece(s, class).len() ==> !class.holds(
                #[trigger] first_piece(s, class)[i],
            ),
        first_piece(s, class).len() < s.len() ==> class.holds(
            s[first_piece(s, class).len() as int],
        ),
        last_piece(s, class).is_suffix_of(s),
        forall|i: int|
            0 <= i < last_piece(s, class).len() ==> !class.holds(#[trigger] last_piece(s, class)[i]),
        last_piece(s, class).len() < s.len() ==> class.holds(
            s[s.len() - last_piece(s, class).len() - 1],
        ),
{
    law_span(s, class);
    law_tail_span(s, class);
    let a = first_piece(s, class);
    let b = last_piece(s, class);
    assert(a =~= s.subrange(0, a.len() as int));
    assert(b =~= s.subrange(s.len() - b.len(), s.len() as int));
    assert forall|i: int| 0 <= i < a.len() implies !class.holds(#[trigger] a[i]) by {
        assert(a[i] == s[i]);
    }
    assert forall|i: int| 0 <= i < b.len() implies !class.holds(#[trigger] b[i]) by {
        assert(b[i] == s[s.len() - b.len() + i]);
    }
}

/// A text is cut at the last character of the class: the two parts with that
/// character between them are the text, and the second holds none of the class.
pub proof fn law_cut_at_the_last_separator(s: Seq<char>, class: CharClass)
    ensures
        match cut_last(s, class) {
            Some((a, b)) => {
                &&& a.len() < s.len()
                &&& s == a + seq![s[a.len() as int]] + b
                &&& class.holds(s[a.len() as int])
                &&& forall|i: int| 0 <= i < b.len() ==> !class.holds(#[trigger] b[i])
            },
            None => forall|i: int| 0 <= i < s.len() ==> !class.holds(#[trigger] s[i]),
        },
{
    law_tail_span(s, class);
    match cut_last(s, class) {
        Some((a, b)) => {
            assert(s =~= a + seq![s[a.len() as int]] + b);
            assert forall|i: int| 0 <= i < b.len() implies !class.holds(#[trigger] b[i]) by {
                assert(b[i] == s[s.len() - b.len() + i]);
            }
        },
        None => {},
    }
}

/// A text is read line by line: a first line without line feeds, a line feed
/// and more text are that line, without one carriage return at its end, and the
/// lines of the rest. What has no line feed is one line, and nothing has none.
pub proof fn law_lines_end_at_line_feeds(a: Seq<char>, b: Seq<char>)
    requires
        forall|i: int| 0 <= i < a.len() ==> #[trigger] a[i] != '\n',
    ensures
        lines_of(a + seq!['\n'] + b) == seq![
            if a.len() > 0 && a.last() == '\r' {
                a.drop_last()
            } else {
                a
            },
        ] + lines_of(b),
        a.len() > 0 ==> lines_of(a) == seq![a],
        lines_of(Seq::empty()) == Seq::<Seq<char>>::empty(),
{
    let class = CharClass::Only('\n');
    let all = a + seq!['\n'] + b;
    let n = a.len() as int;
    assert forall|k: int| 0 <= k < n implies !class.holds(#[trigger] all[k]) by {
        assert(all[k] == a[k]);
    }
    assert(all[n] == '\n');
    lemma_span(all, class, n);
    assert(all.take(n) =~= a);
    assert(all.skip(n + 1) =~= b);
    lemma_span(a, class, n);
}

/// A pattern occurs in a text where the text is something before it, the
/// pattern and something behind it.
pub proof fn law_occurrence(a: Seq<char>, pattern: Seq<char>, b: Seq<char>, s: Seq<char>)
    ensures
        occurs(a + pattern + b, pattern),
        occurs(s, pattern) ==> exists|i: int|
            0 <= i <= s.len() && s == #[trigger] s.take(i) + pattern + s.skip(
                i + pattern.len(),
            ),
{
    let all = a + pattern + b;
    let i = a.len() as int;
    assert(all.subrange(i, i + pattern.len()) =~= pattern);
    if occurs(s, pattern) {
        let k = choose|k: int|
            0 <= k <= s.len() - pattern.len() && #[trigger] s.subrange(k, k + pattern.len())
                == pattern;
        assert forall|j: int| 0 <= j < pattern.len() implies #[trigger] pattern[j] == s[k + j] by {
            assert(s.subrange(k, k + pattern.len())[j] == s[k + j]);
        }
        assert(s =~= s.take(k) + pattern + s.skip(k + pattern.len()));
    }
}

/// Replacing goes from left to right: up to the first occurrence the text is
/// kept, the occurrence is replaced, and behind it replacing begins anew. A
/// text without the pattern is kept whole.
pub proof fn law_occurrences_are_replaced(
    s: Seq<char>,
    pattern: Seq<char>,
    with: Seq<char>,
    i: int,
)
    requires
        pattern.len() > 0,
        0 <= i <= s.len(),
        forall|k: int|
            0 <= k < i && k + pattern.len() <= s.len() ==> #[trigger] s.subrange(
                k,
                k + pattern.len(),
            ) != pattern,
    ensures
        i + pattern.len() <= s.len() && s.subrange(i, i + pattern.len()) == pattern ==> replaced(
            s,
            pattern,
            with,
        ) == s.take(i) + with + replaced(s.skip(i + pattern.len()), pattern, with),
        i + pattern.len() > s.len() ==> replaced(s, pattern, with) == s,
    decreases i,
{
    let p = pattern.len() as int;
    if s.len() < p {
    } else if i == 0 {
        assert(s.take(0) =~= Seq::<char>::empty());
        if s.subrange(0, p) == pattern {
            assert(pattern.is_prefix_of(s));
            assert(Seq::<char>::empty() + with =~= with);
        }
    } else {
        let d = s.skip(1);
        assert(s.subrange(0, 0 + p) != pattern);
        assert(!pattern.is_prefix_of(s));
        assert forall|k: int| 0 <= k < i - 1 && k + p <= d.len() implies #[trigger] d.subrange(
            k,
            k + p,
        ) != pattern by {
            assert(d.subrange(k, k + p) =~= s.subrange(k + 1, k + 1 + p));
        }
        law_occurrences_are_replaced(d, pattern, with, i - 1);
        if i + p <= s.len() {
            assert(d.subrange(i - 1, i - 1 + p) =~= s.subrange(i, i + p));
            assert(seq![s[0]] + d.take(i - 1) =~= s.take(i));
            assert(d.skip(i - 1 + p) =~= s.skip(i + p));
            if s.subrange(i, i + p) == pattern {
                assert(replaced(s, pattern, with) =~= s.take(i) + with + replaced(
                    s.skip(i + p),
                    pattern,
                    with,
                ));
            }
        } else {
            assert(seq![s[0]] + d =~= s);
        }
    }
}

/// Texts are ordered by the first character in which they differ; one that ends
/// before that comes first.
pub proof fn law_order_of_texts(a: Seq<char>, b: Seq<char>)
    ensures
        text_le(a, b) <==> a.is_prefix_of(b) || exists|i: int|
            {
                &&& 0 <= i < a.len() && i < b.len()
                &&& #[trigger] a.take(i) == b.take(i)
                &&& a[i] < b[i]
            },
    decreases a.len(),
{
    if a.len() == 0 {
        assert(a =~= b.subrange(0, 0));
    } else if b.len() == 0 {
        assert(!a.is_prefix_of(b));
    } else {
        let x = a.skip(1);
        let y = b.skip(1);
        law_order_of_texts(x, y);
        if a[0] == b[0] {
            if x.is_prefix_of(y) {
                assert(x =~= y.subrange(0, x.len() as int));
                assert forall|k: int| 0 <= k < a.len() implies a[k] == b[k] by {
                    if k > 0 {
                        assert(x[k - 1] == y[k - 1]);
                    }
                }
                assert(a =~= b.subrange(0, a.len() as int));
            }
            if a.is_prefix_of(b) {
                assert(a =~= b.subrange(0, a.len() as int));
                assert forall|k: int| 0 <= k < x.len() implies x[k] == y[k] by {
                    assert(a[k + 1] == b[k + 1]);
                }
                assert(x =~= y.subrange(0, x.len() as int));
            }
            if exists|i: int|
                0 <= i < x.len() && i < y.len() && #[trigger] x.take(i) == y.take(i) && x[i] < y[i] {
                let i = choose|i: int|
                    0 <= i < x.len() && i < y.len() && #[trigger] x.take(i) == y.take(i) && x[i]
                        < y[i];
                assert forall|k: int| 0 <= k < i + 1 implies a[k] == b[k] by {
                    if k > 0 {
                        assert(x.take(i)[k - 1] == y.take(i)[k - 1]);
                    }
                }
                assert(a.take(i + 1) =~= b.take(i + 1));
            }
            if exists|i: int|
                0 <= i < a.len() && i < b.len() && #[trigger] a.take(i) == b.take(i) && a[i] < b[i] {
                let i = choose|i: int|
                    0 <= i < a.len() && i < b.len() && #[trigger] a.take(i) == b.take(i) && a[i]
                        < b[i];
                assert forall|k: int| 0 <= k < i - 1 implies x[k] == y[k] by {
                    assert(a.take(i)[k + 1] == b.take(i)[k + 1]);
                }
                assert(x.take(i - 1) =~= y.take(i - 1));
            }
        } else {
            if a.is_prefix_of(b) {
                assert(a[0] == b.subrange(0, a.len() as int)[0]);
            }
            assert(a.take(0) =~= b.take(0));
            if exists|i: int|
                0 <= i < a.len() && i < b.len() && #[trigger] a.take(i) == b.take(i) && a[i] < b[i] {
                let i = choose|i: int|
                    0 <= i < a.len() && i < b.len() && #[trigger] a.take(i) == b.take(i) && a[i]
                        < b[i];
                if i > 0 {
                    assert(a.take(i)[0] == b.take(i)[0]);
                }
            }
        }
    }
}

/// Lengths are those of the encoded text.
pub proof fn law_lengths_are_in_bytes(s: Seq<char>)
    ensures
        byte_len(s) == vstd::utf8::encode_utf8(s).len(),
{
}

/// The number that decimal digits stand for.
pub open spec fn digits_value(digits: Seq<char>) -> int
    decreases digits.len(),
{
    if digits.len() == 0 {
        0
    } else {
        10 * digits_value(digits.drop_last()) + (digits.last() as int - '0' as int)
    }
}

/// A number that was written is read again: its digits stand for it, they are
/// digits, and none is wasted on a leading zero.
pub proof fn law_written_numbers_are_read_again(n: nat)
    ensures
        digits_value(decimal_of(n)) == n,
        decimal_of(n).len() > 0,
        forall|i: int| 0 <= i < decimal_of(n).len() ==> '0' <= #[trigger] decimal_of(n)[i] <= '9',
        decimal_of(n).len() > 1 ==> decimal_of(n)[0] != '0',
    decreases n,
{
    let r = decimal_of(n);
    let digit = (48 + n % 10) as char;
    assert(digit as int == 48 + n % 10);
    if n < 10 {
        assert(r.drop_last() =~= Seq::<char>::empty());
        assert(digits_value(r.drop_last()) == 0);
    } else {
        law_written_numbers_are_read_again(n / 10);
        assert(r.drop_last() =~= decimal_of(n / 10));
        assert(r.last() == digit);
        assert forall|i: int| 0 <= i < r.len() implies '0' <= #[trigger] r[i] <= '9' by {
            if i < r.len() - 1 {
                assert(r[i] == decimal_of(n / 10)[i]);
            }
        }
        assert(r[0] == decimal_of(n / 10)[0]);
        if decimal_of(n / 10).len() == 1 && r[0] == '0' {
            let d = decimal_of(n / 10);
            assert(d.drop_last() =~= Seq::<char>::empty());
            assert(digits_value(d.drop_last()) == 0);
            assert(d.last() == d[0]);
            assert(digits_value(d) == 0);
        }
    }
}

} // verus!
