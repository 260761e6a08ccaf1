//! The grammar of the notation, as mathematical functions on a sequence of
//! characters.
//!
//! Every rule takes the input `s` and a position `i` and tells, where it
//! matches, what it read and the position behind it. The rules are ordered
//! choices: a later alternative is tried only where every earlier one fails at
//! the same position.
//!
//! A rule that repeats another one goes on only where the step has moved
//! forward inside the input. That test makes the definitions well-founded and
//! decides nothing: the lemmas at the end of this file show that every rule
//! that matches ends behind where it started, inside the input.

use crate::lexer::{
    lemma_eol_bounds, lemma_reference_bounds, lemma_run_end, run_end, spec_eol, spec_reference,
    CharClass,
};
use vstd::prelude::*;

verus! {

/// The mathematical value of a raw link.
///
/// `values` holds what stood beside the link on its line or between its
/// parentheses; `children` holds the lines indented below it. A link with an
/// `id` and neither values nor children is a bare reference.
/// `is_indented_id` marks a label that ended its line with a colon: the lines
/// indented below such a label are its values.
pub struct RawLink {
    pub id: Option<Seq<char>>,
    pub values: Seq<RawLink>,
    pub children: Seq<RawLink>,
    pub is_indented_id: bool,
}

impl RawLink {
    /// A bare reference.
    pub open spec fn singlet(id: Seq<char>) -> RawLink {
        RawLink {
            id: Some(id),
            values: Seq::empty(),
            children: Seq::empty(),
            is_indented_id: false,
        }
    }

    /// A group of values without a label.
    pub open spec fn value(values: Seq<RawLink>) -> RawLink {
        RawLink { id: None, values, children: Seq::empty(), is_indented_id: false }
    }

    /// A group of values with an optional label.
    pub open spec fn link(id: Option<Seq<char>>, values: Seq<RawLink>) -> RawLink {
        RawLink { id, values, children: Seq::empty(), is_indented_id: false }
    }

    /// A label that ended its line with a colon.
    pub open spec fn indented_id(id: Seq<char>) -> RawLink {
        RawLink { id: Some(id), values: Seq::empty(), children: Seq::empty(), is_indented_id: true }
    }

    /// The same link with `children` as the lines indented below it.
    pub open spec fn with_children(self, children: Seq<RawLink>) -> RawLink {
        RawLink { children, ..self }
    }

    /// A link that is nothing but a reference.
    pub open spec fn is_bare_reference(self) -> bool {
        self.id is Some && self.values.len() == 0 && self.children.len() == 0
    }
}

/// What a group of values stands for: a group of one bare reference is that
/// reference; any other group is a link without a label.
pub open spec fn elide_singlet(values: Seq<RawLink>) -> RawLink {
    if values.len() == 1 && values[0].is_bare_reference() {
        RawLink::singlet(values[0].id->0)
    } else {
        RawLink::value(values)
    }
}

/// How much input is left at `i`.
pub open spec fn remaining(s: Seq<char>, i: int) -> nat {
    if i <= s.len() {
        (s.len() - i) as nat
    } else {
        0
    }
}

/// `( id : values )`, where blanks of any kind, line breaks too, may stand
/// around each part.
pub open spec fn spec_multi_line_link(s: Seq<char>, i: int) -> Option<(RawLink, int)>
    decreases remaining(s, i), 0int,
{
    if 0 <= i < s.len() && s[i] == '(' {
        match spec_reference(s, run_end(s, i + 1, CharClass::Blank)) {
            Some((id, after_id)) => {
                let colon = run_end(s, after_id, CharClass::Blank);
                if colon < s.len() && s[colon] == ':' {
                    let (values, after_values) = spec_multi_line_values(s, colon + 1);
                    let close = run_end(s, after_values, CharClass::Blank);
                    if 0 <= close < s.len() && s[close] == ')' {
                        Some((RawLink::link(Some(id), values), close + 1))
                    } else {
                        None
                    }
                } else {
                    None
                }
            },
            None => None,
        }
    } else {
        None
    }
}

/// `( values )`: a group in parentheses without a label.
pub open spec fn spec_multi_line_value_link(s: Seq<char>, i: int) -> Option<(RawLink, int)>
    decreases remaining(s, i), 0int,
{
    if 0 <= i < s.len() && s[i] == '(' {
        let (values, after_values) = spec_multi_line_values(s, i + 1);
        let close = run_end(s, after_values, CharClass::Blank);
        if 0 <= close < s.len() && s[close] == ')' {
            Some((elide_singlet(values), close + 1))
        } else {
            None
        }
    } else {
        None
    }
}

/// A link in parentheses: with a label, else without.
pub open spec fn spec_multi_line_any_link(s: Seq<char>, i: int) -> Option<(RawLink, int)>
    decreases remaining(s, i), 1int,
{
    match spec_multi_line_link(s, i) {
        Some(found) => Some(found),
        None => spec_multi_line_value_link(s, i),
    }
}

/// One value: a link in parentheses, else a reference.
pub open spec fn spec_reference_or_link(s: Seq<char>, i: int) -> Option<(RawLink, int)>
    decreases remaining(s, i), 2int,
{
    match spec_multi_line_any_link(s, i) {
        Some(found) => Some(found),
        None => match spec_reference(s, i) {
            Some((id, next)) => Some((RawLink::singlet(id), next)),
            None => None,
        },
    }
}

/// Values from `i` on, each followed by blanks of any kind, as many as there
/// are; the position is the one behind the blanks after the last value.
pub open spec fn spec_multi_line_items(s: Seq<char>, i: int) -> (Seq<RawLink>, int)
    decreases remaining(s, i), 3int,
{
    match spec_reference_or_link(s, i) {
        Some((value, after_value)) => {
            let next = run_end(s, after_value, CharClass::Blank);
            if i < next <= s.len() {
                let (rest, end) = spec_multi_line_items(s, next);
                (seq![value] + rest, end)
            } else {
                (Seq::empty(), i)
            }
        },
        None => (Seq::empty(), i),
    }
}

/// The values between parentheses: blanks of any kind, then the values.
pub open spec fn spec_multi_line_values(s: Seq<char>, i: int) -> (Seq<RawLink>, int)
    decreases remaining(s, i), 4int,
{
    spec_multi_line_items(s, run_end(s, i, CharClass::Blank))
}

/// Values on one line from `i` on, each after blanks that stay on the line, as
/// many as there are; the position is the one behind the last value.
pub open spec fn spec_single_line_items(s: Seq<char>, i: int) -> (Seq<RawLink>, int)
    decreases remaining(s, i),
{
    match spec_reference_or_link(s, run_end(s, i, CharClass::Horizontal)) {
        Some((value, next)) => {
            if i < next <= s.len() {
                let (rest, end) = spec_single_line_items(s, next);
                (seq![value] + rest, end)
            } else {
                (Seq::empty(), i)
            }
        },
        None => (Seq::empty(), i),
    }
}

/// One value or more on one line.
pub open spec fn spec_single_line_values(s: Seq<char>, i: int) -> Option<(Seq<RawLink>, int)> {
    let (values, end) = spec_single_line_items(s, i);
    if values.len() > 0 {
        Some((values, end))
    } else {
        None
    }
}

/// `id: values` on one line. The label is required: a colon with nothing
/// before it matches no rule.
pub open spec fn spec_single_line_link(s: Seq<char>, i: int) -> Option<(RawLink, int)> {
    match spec_reference(s, run_end(s, i, CharClass::Horizontal)) {
        Some((id, after_id)) => {
            let colon = run_end(s, after_id, CharClass::Horizontal);
            if 0 <= colon < s.len() && s[colon] == ':' {
                match spec_single_line_values(s, colon + 1) {
                    Some((values, end)) => Some((RawLink::link(Some(id), values), end)),
                    None => None,
                }
            } else {
                None
            }
        },
        None => None,
    }
}

/// Values alone on one line.
pub open spec fn spec_single_line_value_link(s: Seq<char>, i: int) -> Option<(RawLink, int)> {
    match spec_single_line_values(s, i) {
        Some((values, end)) => Some((elide_singlet(values), end)),
        None => None,
    }
}

/// `id:` at the end of its line: a label whose values are the lines indented
/// below it.
pub open spec fn spec_indented_id_link(s: Seq<char>, i: int) -> Option<(RawLink, int)> {
    match spec_reference(s, i) {
        Some((id, after_id)) => {
            let colon = run_end(s, after_id, CharClass::Horizontal);
            if 0 <= colon < s.len() && s[colon] == ':' {
                match spec_eol(s, colon + 1) {
                    Some(end) => Some((RawLink::indented_id(id), end)),
                    None => None,
                }
            } else {
                None
            }
        },
        None => None,
    }
}

/// What `first` found, where the line ends behind it.
pub open spec fn then_eol(s: Seq<char>, first: Option<(RawLink, int)>) -> Option<(RawLink, int)> {
    match first {
        Some((link, next)) => match spec_eol(s, next) {
            Some(end) => Some((link, end)),
            None => None,
        },
        None => None,
    }
}

/// A link on one line, with a label or without, up to the end of the line.
pub open spec fn spec_single_line_any_link(s: Seq<char>, i: int) -> Option<(RawLink, int)> {
    match then_eol(s, spec_single_line_link(s, i)) {
        Some(found) => Some(found),
        None => then_eol(s, spec_single_line_value_link(s, i)),
    }
}

/// One element of the document without what is indented below it: a link in
/// parentheses up to the end of its line, else a label that ends its line,
/// else a link on one line.
pub open spec fn spec_any_link(s: Seq<char>, i: int) -> Option<(RawLink, int)> {
    match then_eol(s, spec_multi_line_any_link(s, i)) {
        Some(found) => Some(found),
        None => match spec_indented_id_link(s, i) {
            Some(found) => Some(found),
            None => spec_single_line_any_link(s, i),
        },
    }
}

/// The number of spaces at `i`: the indentation of the line that starts there.
pub open spec fn spec_count_indentation(s: Seq<char>, i: int) -> nat {
    crate::lexer::run_len(s, i, CharClass::Indent)
}

/// An element at `i` inside a block of indentation `top`: a link and, where
/// the next line is indented by more than `top`, the block of lines below it
/// as its children.
pub open spec fn spec_element(s: Seq<char>, i: int, top: nat) -> Option<(RawLink, int)>
    decreases remaining(s, i), 0int,
{
    match spec_any_link(s, i) {
        Some((link, next)) => {
            let indent = spec_count_indentation(s, next);
            if indent > top {
                if i < next + indent <= s.len() {
                    match spec_links(s, next + indent, indent) {
                        Some((children, end)) => Some((link.with_children(children), end)),
                        None => None,
                    }
                } else {
                    None
                }
            } else {
                Some((link, next))
            }
        },
        None => None,
    }
}

/// The lines that go on a block of indentation `top` from `i`: each starts
/// with at least `top` spaces and is an element of the block. The block ends
/// before the first line that is indented less or is no element.
pub open spec fn spec_lines(s: Seq<char>, i: int, top: nat) -> (Seq<RawLink>, int)
    decreases remaining(s, i), 1int,
{
    let indent = spec_count_indentation(s, i);
    if indent >= top {
        match spec_element(s, i + indent, top) {
            Some((link, next)) => {
                if i < next <= s.len() {
                    let (rest, end) = spec_lines(s, next, top);
                    (seq![link] + rest, end)
                } else {
                    (Seq::empty(), i)
                }
            },
            None => (Seq::empty(), i),
        }
    } else {
        (Seq::empty(), i)
    }
}

/// A block of indentation `top` whose first element starts at `i`, behind its
/// indentation.
pub open spec fn spec_links(s: Seq<char>, i: int, top: nat) -> Option<(Seq<RawLink>, int)>
    decreases remaining(s, i), 2int,
{
    match spec_element(s, i, top) {
        Some((first, next)) => {
            if i < next <= s.len() {
                let (rest, end) = spec_lines(s, next, top);
                Some((seq![first] + rest, end))
            } else {
                None
            }
        },
        None => None,
    }
}

/// Why a document is no notation: no rule of the grammar matches the input at
/// `offset`, counted in characters from the start of the document.
#[derive(Debug, Clone, Copy, PartialEq, Eq)]
pub enum ParseError {
    Syntax { offset: usize },
}

/// Where the first line of a document starts: behind the line breaks that
/// lead it.
pub open spec fn spec_document_start(s: Seq<char>) -> int {
    run_end(s, 0, CharClass::LineBreak)
}

/// Whether nothing but white space stands from `i` on.
pub open spec fn spec_is_blank_from(s: Seq<char>, i: int) -> bool {
    run_end(s, i, CharClass::UnicodeBlank) >= s.len()
}

/// The links of a whole document.
///
/// A document of nothing but white space has no links. Any other document is
/// one block of indentation 0, which may be followed by blanks and nothing
/// else. Where the block cannot start, the error points at the start of the
/// first line; where input is left behind the block, at the first character
/// of what is left.
pub open spec fn spec_parse_document(s: Seq<char>) -> Result<Seq<RawLink>, ParseError> {
    let start = spec_document_start(s);
    if spec_is_blank_from(s, start) {
        Ok(Seq::empty())
    } else {
        match spec_links(s, start, 0) {
            Some((links, end)) => {
                let rest = run_end(s, end, CharClass::Blank);
                if rest >= s.len() {
                    Ok(links)
                } else {
                    Err(ParseError::Syntax { offset: rest as usize })
                }
            },
            None => Err(ParseError::Syntax { offset: start as usize }),
        }
    }
}

/// A labelled link in parentheses ends behind where it starts, inside the
/// input.
pub proof fn lemma_multi_line_link_bounds(s: Seq<char>, i: int)
    requires
        0 <= i <= s.len(),
    ensures
        spec_multi_line_link(s, i) matches Some((_, next)) ==> i < next <= s.len(),
    decreases remaining(s, i), 0int,
{
    if i < s.len() && s[i] == '(' {
        let start = run_end(s, i + 1, CharClass::Blank);
        lemma_run_end(s, i + 1, CharClass::Blank);
        lemma_reference_bounds(s, start);
        if let Some((id, after_id)) = spec_reference(s, start) {
            let colon = run_end(s, after_id, CharClass::Blank);
            lemma_run_end(s, after_id, CharClass::Blank);
            if colon < s.len() && s[colon] == ':' {
                lemma_multi_line_values_bounds(s, colon + 1);
                lemma_run_end(s, spec_multi_line_values(s, colon + 1).1, CharClass::Blank);
            }
        }
    }
}

/// A group in parentheses ends behind where it starts, inside the input.
pub proof fn lemma_multi_line_value_link_bounds(s: Seq<char>, i: int)
    requires
        0 <= i <= s.len(),
    ensures
        spec_multi_line_value_link(s, i) matches Some((_, next)) ==> i < next <= s.len(),
    decreases remaining(s, i), 0int,
{
    if i < s.len() && s[i] == '(' {
        lemma_multi_line_values_bounds(s, i + 1);
        lemma_run_end(s, spec_multi_line_values(s, i + 1).1, CharClass::Blank);
    }
}

/// A link in parentheses ends behind where it starts, inside the input.
pub proof fn lemma_multi_line_any_link_bounds(s: Seq<char>, i: int)
    requires
        0 <= i <= s.len(),
    ensures
        spec_multi_line_any_link(s, i) matches Some((_, next)) ==> i < next <= s.len(),
    decreases remaining(s, i), 1int,
{
    lemma_multi_line_link_bounds(s, i);
    lemma_multi_line_value_link_bounds(s, i);
}

/// A value ends behind where it starts, inside the input: the rules that
/// repeat a value never stop for want of progress.
pub proof fn lemma_reference_or_link_bounds(s: Seq<char>, i: int)
    requires
        0 <= i <= s.len(),
    ensures
        spec_reference_or_link(s, i) matches Some((_, next)) ==> i < next <= s.len(),
    decreases remaining(s, i), 2int,
{
    lemma_multi_line_any_link_bounds(s, i);
    lemma_reference_bounds(s, i);
}

/// Values that follow each other end inside the input.
pub proof fn lemma_multi_line_items_bounds(s: Seq<char>, i: int)
    requires
        0 <= i <= s.len(),
    ensures
        i <= spec_multi_line_items(s, i).1 <= s.len(),
    decreases remaining(s, i), 3int,
{
    lemma_reference_or_link_bounds(s, i);
    if let Some((value, after_value)) = spec_reference_or_link(s, i) {
        let next = run_end(s, after_value, CharClass::Blank);
        lemma_run_end(s, after_value, CharClass::Blank);
        lemma_multi_line_items_bounds(s, next);
    }
}

/// The values between parentheses end inside the input.
pub proof fn lemma_multi_line_values_bounds(s: Seq<char>, i: int)
    requires
        0 <= i <= s.len(),
    ensures
        i <= spec_multi_line_values(s, i).1 <= s.len(),
    decreases remaining(s, i), 4int,
{
    lemma_run_end(s, i, CharClass::Blank);
    lemma_multi_line_items_bounds(s, run_end(s, i, CharClass::Blank));
}

/// Values on one line end inside the input, and behind where they start
/// where there is one at least.
pub proof fn lemma_single_line_items_bounds(s: Seq<char>, i: int)
    requires
        0 <= i <= s.len(),
    ensures
        i <= spec_single_line_items(s, i).1 <= s.len(),
        spec_single_line_items(s, i).0.len() > 0 ==> i < spec_single_line_items(s, i).1,
    decreases remaining(s, i),
{
    let start = run_end(s, i, CharClass::Horizontal);
    lemma_run_end(s, i, CharClass::Horizontal);
    lemma_reference_or_link_bounds(s, start);
    if let Some((value, next)) = spec_reference_or_link(s, start) {
        lemma_single_line_items_bounds(s, next);
    }
}

/// An element without its children ends behind where it starts, inside the
/// input.
pub proof fn lemma_any_link_bounds(s: Seq<char>, i: int)
    requires
        0 <= i <= s.len(),
    ensures
        spec_any_link(s, i) matches Some((_, next)) ==> i < next <= s.len(),
{
    lemma_multi_line_any_link_bounds(s, i);
    if let Some((link, next)) = spec_multi_line_any_link(s, i) {
        lemma_eol_bounds(s, next);
    }
    lemma_reference_bounds(s, i);
    if let Some((id, after_id)) = spec_reference(s, i) {
        lemma_run_end(s, after_id, CharClass::Horizontal);
        let colon = run_end(s, after_id, CharClass::Horizontal);
        if colon < s.len() {
            lemma_eol_bounds(s, colon + 1);
        }
    }
    let start = run_end(s, i, CharClass::Horizontal);
    lemma_run_end(s, i, CharClass::Horizontal);
    lemma_reference_bounds(s, start);
    if let Some((id, after_id)) = spec_reference(s, start) {
        lemma_run_end(s, after_id, CharClass::Horizontal);
        let colon = run_end(s, after_id, CharClass::Horizontal);
        if colon < s.len() {
            lemma_single_line_items_bounds(s, colon + 1);
            lemma_eol_bounds(s, spec_single_line_items(s, colon + 1).1);
        }
    }
    lemma_single_line_items_bounds(s, i);
    lemma_eol_bounds(s, spec_single_line_items(s, i).1);
}

/// An element with its children ends behind where it starts, inside the
/// input.
pub proof fn lemma_element_bounds(s: Seq<char>, i: int, top: nat)
    requires
        0 <= i <= s.len(),
    ensures
        spec_element(s, i, top) matches Some((_, next)) ==> i < next <= s.len(),
    decreases remaining(s, i), 0int,
{
    lemma_any_link_bounds(s, i);
    if let Some((link, next)) = spec_any_link(s, i) {
        let indent = spec_count_indentation(s, next);
        lemma_run_end(s, next, CharClass::Indent);
        if indent > top {
            lemma_links_bounds(s, next + indent, indent);
        }
    }
}

/// The lines of a block end inside the input.
pub proof fn lemma_lines_bounds(s: Seq<char>, i: int, top: nat)
    requires
        0 <= i <= s.len(),
    ensures
        i <= spec_lines(s, i, top).1 <= s.len(),
    decreases remaining(s, i), 1int,
{
    let indent = spec_count_indentation(s, i);
    lemma_run_end(s, i, CharClass::Indent);
    if indent >= top {
        lemma_element_bounds(s, i + indent, top);
        if let Some((link, next)) = spec_element(s, i + indent, top) {
            lemma_lines_bounds(s, next, top);
        }
    }
}

/// A block ends behind where it starts, inside the input.
pub proof fn lemma_links_bounds(s: Seq<char>, i: int, top: nat)
    requires
        0 <= i <= s.len(),
    ensures
        spec_links(s, i, top) matches Some((_, next)) ==> i < next <= s.len(),
    decreases remaining(s, i), 2int,
{
    lemma_element_bounds(s, i, top);
    if let Some((first, next)) = spec_element(s, i, top) {
        lemma_lines_bounds(s, next, top);
    }
}

} // verus!
