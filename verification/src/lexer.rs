//! The lexical layer: character classes, maximal runs of a class, references
//! (bare, double-quoted, single-quoted) and ends of lines.
//!
//! A document is read as a sequence of characters; every position is an index
//! into that sequence, between `0` and its length.

use vstd::prelude::*;

verus! {

/// The sets of characters that the notation scans for.
#[derive(Clone, Copy, Debug)]
pub enum CharClass {
    /// Space and tab: blanks that stay on the line.
    Horizontal,
    /// Space, tab, line feed and carriage return.
    Blank,
    /// The space alone: the only character that counts as indentation.
    Indent,
    /// Whatever may stand in a bare reference: anything but a blank, a
    /// parenthesis or a colon.
    Reference,
    /// Everything but the given character: the inside of a quoted reference.
    Until(char),
    /// Line feed and carriage return.
    LineBreak,
    /// Every character that Unicode counts as white space.
    UnicodeBlank,
}

/// The blanks that stay on the line: space and tab.
pub open spec fn spec_is_horizontal_whitespace(c: char) -> bool {
    c == ' ' || c == '\t'
}

/// The blanks of the notation: space, tab, line feed and carriage return.
pub open spec fn spec_is_whitespace_char(c: char) -> bool {
    c == ' ' || c == '\t' || c == '\n' || c == '\r'
}

/// What may stand in a bare reference: anything but a blank, a parenthesis
/// or a colon.
pub open spec fn spec_is_reference_char(c: char) -> bool {
    !spec_is_whitespace_char(c) && c != '(' && c != ':' && c != ')'
}

/// The characters with the Unicode property `White_Space`.
pub open spec fn spec_is_unicode_whitespace(c: char) -> bool {
    let n = c as u32;
    ||| 0x09 <= n <= 0x0D
    ||| n == 0x20
    ||| n == 0x85
    ||| n == 0xA0
    ||| n == 0x1680
    ||| 0x2000 <= n <= 0x200A
    ||| n == 0x2028
    ||| n == 0x2029
    ||| n == 0x202F
    ||| n == 0x205F
    ||| n == 0x3000
}

/// Whether `c` has the Unicode property `White_Space`.
#[verifier::when_used_as_spec(spec_is_unicode_whitespace)]
pub fn is_unicode_whitespace(c: char) -> (b: bool)
    ensures
        b == spec_is_unicode_whitespace(c),
{
    let n = c as u32;
    (0x09 <= n && n <= 0x0D) || n == 0x20 || n == 0x85 || n == 0xA0 || n == 0x1680 || (0x2000 <= n
        && n <= 0x200A) || n == 0x2028 || n == 0x2029 || n == 0x202F || n == 0x205F || n == 0x3000
}

/// Whether `c` is a space or a tab.
#[verifier::when_used_as_spec(spec_is_horizontal_whitespace)]
pub fn is_horizontal_whitespace(c: char) -> (b: bool)
    ensures
        b == spec_is_horizontal_whitespace(c),
{
    c == ' ' || c == '\t'
}

/// Whether `c` is a blank of the notation.
#[verifier::when_used_as_spec(spec_is_whitespace_char)]
pub fn is_whitespace_char(c: char) -> (b: bool)
    ensures
        b == spec_is_whitespace_char(c),
{
    c == ' ' || c == '\t' || c == '\n' || c == '\r'
}

/// Whether `c` may stand in a bare reference.
#[verifier::when_used_as_spec(spec_is_reference_char)]
pub fn is_reference_char(c: char) -> (b: bool)
    ensures
        b == spec_is_reference_char(c),
{
    !is_whitespace_char(c) && c != '(' && c != ':' && c != ')'
}

impl CharClass {
    /// Whether `c` belongs to the class.
    pub open spec fn spec_admits(self, c: char) -> bool {
        match self {
            CharClass::Horizontal => spec_is_horizontal_whitespace(c),
            CharClass::Blank => spec_is_whitespace_char(c),
            CharClass::Indent => c == ' ',
            CharClass::Reference => spec_is_reference_char(c),
            CharClass::Until(stop) => c != stop,
            CharClass::LineBreak => c == '\n' || c == '\r',
            CharClass::UnicodeBlank => spec_is_unicode_whitespace(c),
        }
    }

    /// Whether `c` belongs to the class.
    #[verifier::when_used_as_spec(spec_admits)]
    pub fn admits(self, c: char) -> (b: bool)
        ensures
            b == self.spec_admits(c),
    {
        match self {
            CharClass::Horizontal => is_horizontal_whitespace(c),
            CharClass::Blank => is_whitespace_char(c),
            CharClass::Indent => c == ' ',
            CharClass::Reference => is_reference_char(c),
            CharClass::Until(stop) => c != stop,
            CharClass::LineBreak => c == '\n' || c == '\r',
            CharClass::UnicodeBlank => is_unicode_whitespace(c),
        }
    }
}

/// The length of the longest run of characters of `class` that starts at
/// position `i` of `s`.
pub open spec fn run_len(s: Seq<char>, i: int, class: CharClass) -> nat
    decreases s.len() - i,
{
    if 0 <= i < s.len() && class.spec_admits(s[i]) {
        1 + run_len(s, i + 1, class)
    } else {
        0
    }
}

/// The position just behind the longest run of `class` that starts at `i`.
pub open spec fn run_end(s: Seq<char>, i: int, class: CharClass) -> int {
    i + run_len(s, i, class)
}

/// `run_end` stops at the first character outside the class, or at the end of
/// the input, and not before.
pub proof fn lemma_run_end(s: Seq<char>, i: int, class: CharClass)
    requires
        0 <= i <= s.len(),
    ensures
        i <= run_end(s, i, class) <= s.len(),
        forall|k: int| i <= k < run_end(s, i, class) ==> class.spec_admits(#[trigger] s[k]),
        run_end(s, i, class) < s.len() ==> !class.spec_admits(s[run_end(s, i, class)]),
    decreases s.len() - i,
{
    if i < s.len() && class.spec_admits(s[i]) {
        lemma_run_end(s, i + 1, class);
    }
}

/// Any position of which the three clauses of `lemma_run_end` hold is `run_end`.
pub proof fn lemma_run_end_unique(s: Seq<char>, i: int, class: CharClass, e: int)
    requires
        0 <= i <= e <= s.len(),
        forall|k: int| i <= k < e ==> class.spec_admits(#[trigger] s[k]),
        e < s.len() ==> !class.spec_admits(s[e]),
    ensures
        run_end(s, i, class) == e,
    decreases e - i,
{
    if i < e {
        assert(class.spec_admits(s[i]));
        lemma_run_end_unique(s, i + 1, class, e);
    }
}

/// Skips the longest run of `class` at `pos`.
pub fn skip_run(input: &[char], pos: usize, class: CharClass) -> (end: usize)
    ensures
        end == run_end(input@, pos as int, class),
        pos <= end,
        pos <= input@.len() ==> end <= input@.len(),
{
    let mut i: usize = pos;
    while i < input.len() && class.admits(input[i])
        invariant
            pos <= i,
            pos <= input@.len() ==> i <= input@.len(),
            run_end(input@, pos as int, class) == run_end(input@, i as int, class),
        decreases input@.len() - i,
    {
        i += 1;
    }
    i
}

/// The characters of `input` from `from` up to `to`, as a string.
pub fn slice_to_string(input: &[char], from: usize, to: usize) -> (text: String)
    requires
        from <= to <= input@.len(),
    ensures
        text@ == input@.subrange(from as int, to as int),
{
    let mut text = String::new();
    let mut i: usize = from;
    while i < to
        invariant
            from <= i <= to <= input@.len(),
            text@ == input@.subrange(from as int, i as int),
        decreases to - i,
    {
        text.push(input[i]);
        i += 1;
    }
    text
}

/// The characters of a text that may be absent.
pub open spec fn view_text(text: Option<String>) -> Option<Seq<char>> {
    match text {
        Some(t) => Some(t@),
        None => None,
    }
}

/// Copies a text that may be absent.
pub fn clone_text(text: &Option<String>) -> (copy: Option<String>)
    ensures
        view_text(copy) == view_text(*text),
{
    match text {
        Some(t) => Some(t.clone()),
        None => None,
    }
}

/// The characters of a string, one by one.
pub fn string_to_chars(text: &str) -> (chars: Vec<char>)
    ensures
        chars@ == text@,
{
    let mut chars: Vec<char> = Vec::new();
    for c in it: text.chars()
        invariant
            chars@ == it.seq().take(it.index() as int),
    {
        chars.push(c);
    }
    chars
}

/// Taken on trust of `String::push` of the standard library, which is not
/// verified here: after the call the string holds the characters that it held
/// before, followed by `c`.
pub assume_specification[ String::push ](s: &mut String, c: char)
    ensures
        final(s)@ == old(s)@.push(c),
;

/// A reference in quotes: the quote `quote` at `i`, then everything up to the
/// next `quote`, which must exist. The text is what stands between the two;
/// nothing in it is decoded, and it may hold line breaks.
pub open spec fn spec_quoted_reference(s: Seq<char>, i: int, quote: char) -> Option<
    (Seq<char>, int),
> {
    if 0 <= i < s.len() && s[i] == quote {
        let close = run_end(s, i + 1, CharClass::Until(quote));
        if close < s.len() {
            Some((s.subrange(i + 1, close), close + 1))
        } else {
            None
        }
    } else {
        None
    }
}

/// A bare reference: the longest run of reference characters, at least one.
pub open spec fn spec_simple_reference(s: Seq<char>, i: int) -> Option<(Seq<char>, int)> {
    let end = run_end(s, i, CharClass::Reference);
    if i < end {
        Some((s.subrange(i, end), end))
    } else {
        None
    }
}

/// A reference at `i`: double-quoted, else single-quoted, else bare. The
/// result is its text and the position behind it.
pub open spec fn spec_reference(s: Seq<char>, i: int) -> Option<(Seq<char>, int)> {
    if spec_quoted_reference(s, i, '"') is Some {
        spec_quoted_reference(s, i, '"')
    } else if spec_quoted_reference(s, i, '\'') is Some {
        spec_quoted_reference(s, i, '\'')
    } else {
        spec_simple_reference(s, i)
    }
}

/// The end of a line at `i`: blanks that stay on the line, then a line feed,
/// a carriage return with a line feed, or the end of the input. The result is
/// the position behind the line break.
pub open spec fn spec_eol(s: Seq<char>, i: int) -> Option<int> {
    let e = run_end(s, i, CharClass::Horizontal);
    if e >= s.len() {
        Some(e)
    } else if s[e] == '\n' {
        Some(e + 1)
    } else if s[e] == '\r' && e + 1 < s.len() && s[e + 1] == '\n' {
        Some(e + 2)
    } else {
        None
    }
}

/// A reference is never empty-handed: it ends behind where it starts, and
/// inside the input.
pub proof fn lemma_reference_bounds(s: Seq<char>, i: int)
    requires
        0 <= i <= s.len(),
    ensures
        spec_reference(s, i) matches Some((_, next)) ==> i < next <= s.len(),
{
    if i < s.len() {
        lemma_run_end(s, i + 1, CharClass::Until('"'));
        lemma_run_end(s, i + 1, CharClass::Until('\''));
    }
    lemma_run_end(s, i, CharClass::Reference);
}

/// The end of a line lies inside the input, at or behind where it is sought.
pub proof fn lemma_eol_bounds(s: Seq<char>, i: int)
    requires
        0 <= i <= s.len(),
    ensures
        spec_eol(s, i) matches Some(next) ==> i <= next <= s.len(),
{
    lemma_run_end(s, i, CharClass::Horizontal);
}

/// Whether an executable scan result `r` is the specified one `spec`.
pub open spec fn text_matches(r: Option<(String, usize)>, spec: Option<(Seq<char>, int)>) -> bool {
    match r {
        Some((text, next)) => spec == Some((text@, next as int)),
        None => spec is None,
    }
}

/// Reads a reference between two `quote`s at `pos`.
pub fn quoted_reference(input: &[char], pos: usize, quote: char) -> (r: Option<(String, usize)>)
    ensures
        text_matches(r, spec_quoted_reference(input@, pos as int, quote)),
        r matches Some((_, next)) ==> pos < next <= input@.len(),
{
    if pos < input.len() && input[pos] == quote {
        let close = skip_run(input, pos + 1, CharClass::Until(quote));
        if close < input.len() {
            Some((slice_to_string(input, pos + 1, close), close + 1))
        } else {
            None
        }
    } else {
        None
    }
}

/// Reads a bare reference at `pos`.
pub fn simple_reference(input: &[char], pos: usize) -> (r: Option<(String, usize)>)
    ensures
        text_matches(r, spec_simple_reference(input@, pos as int)),
        r matches Some((_, next)) ==> pos < next <= input@.len(),
{
    let end = skip_run(input, pos, CharClass::Reference);
    if pos < end {
        Some((slice_to_string(input, pos, end), end))
    } else {
        None
    }
}

/// Reads a reference at `pos`: double-quoted, else single-quoted, else bare.
pub fn reference(input: &[char], pos: usize) -> (r: Option<(String, usize)>)
    ensures
        text_matches(r, spec_reference(input@, pos as int)),
        r matches Some((_, next)) ==> pos < next <= input@.len(),
{
    let double = quoted_reference(input, pos, '"');
    if double.is_some() {
        return double;
    }
    let single = quoted_reference(input, pos, '\'');
    if single.is_some() {
        return single;
    }
    simple_reference(input, pos)
}

/// Reads the end of a line at `pos`.
pub fn eol(input: &[char], pos: usize) -> (r: Option<usize>)
    ensures
        match r {
            Some(next) => spec_eol(input@, pos as int) == Some(next as int),
            None => spec_eol(input@, pos as int) is None,
        },
        r matches Some(next) ==> pos <= next && (pos <= input@.len() ==> next <= input@.len()),
{
    let e = skip_run(input, pos, CharClass::Horizontal);
    if e >= input.len() {
        Some(e)
    } else if input[e] == '\n' {
        Some(e + 1)
    } else if input[e] == '\r' && e + 1 < input.len() && input[e + 1] == '\n' {
        Some(e + 2)
    } else {
        None
    }
}

} // verus!
