//! The raw tree that the grammar produces, and the indentation state of one
//! parse.

use crate::grammar::{
    elide_singlet, remaining, spec_any_link, spec_count_indentation, spec_element,
    spec_indented_id_link, spec_lines, spec_links, spec_multi_line_any_link,
    spec_multi_line_items, spec_multi_line_link, spec_multi_line_value_link,
    spec_multi_line_values, spec_parse_document, spec_reference_or_link,
    spec_single_line_any_link, spec_single_line_items, spec_single_line_link,
    spec_single_line_value_link, spec_single_line_values, then_eol, ParseError, RawLink,
};
use crate::lexer::{
    clone_text, eol, reference, skip_run, string_to_chars, view_text, CharClass,
};
use vstd::prelude::*;

verus! {

/// A raw link as the parser builds it.
#[derive(Debug, PartialEq)]
pub struct Link {
    /// The label, or the reference itself where the link is a bare reference.
    pub id: Option<String>,
    /// What stood beside the link on its line or between its parentheses.
    pub values: Vec<Link>,
    /// The lines indented below the link.
    pub children: Vec<Link>,
    /// Whether the link is a label that ended its line with a colon.
    pub is_indented_id: bool,
}

/// The value of a link: its own fields, and the values of the links below it.
pub open spec fn raw_link(link: Link) -> RawLink
    decreases link,
{
    RawLink {
        id: view_text(link.id),
        values: Seq::new(
            link.values@.len(),
            |i: int|
                if 0 <= i < link.values@.len() {
                    raw_link(link.values@[i])
                } else {
                    arbitrary()
                },
        ),
        children: Seq::new(
            link.children@.len(),
            |i: int|
                if 0 <= i < link.children@.len() {
                    raw_link(link.children@[i])
                } else {
                    arbitrary()
                },
        ),
        is_indented_id: link.is_indented_id,
    }
}

impl View for Link {
    type V = RawLink;

    open spec fn view(&self) -> RawLink {
        raw_link(*self)
    }
}

/// The values of a sequence of links, one by one.
pub open spec fn view_links(links: Seq<Link>) -> Seq<RawLink> {
    Seq::new(links.len(), |i: int| links[i]@)
}

impl Link {
    /// The view of a link, field by field.
    pub proof fn lemma_view(&self)
        ensures
            self@.id == view_text(self.id),
            self@.values == view_links(self.values@),
            self@.children == view_links(self.children@),
            self@.is_indented_id == self.is_indented_id,
    {
        assert(self@.values =~= view_links(self.values@));
        assert(self@.children =~= view_links(self.children@));
    }
}

/// Copies a sequence of links.
pub fn clone_links(links: &Vec<Link>) -> (r: Vec<Link>)
    ensures
        view_links(r@) == view_links(links@),
    decreases links, 1int,
{
    let mut out: Vec<Link> = Vec::new();
    let mut i: usize = 0;
    while i < links.len()
        invariant
            i <= links.len(),
            out@.len() == i,
            forall|k: int| 0 <= k < i ==> out@[k]@ == links@[k]@,
        decreases links.len() - i,
    {
        out.push(links[i].clone());
        i += 1;
    }
    assert(view_links(out@) =~= view_links(links@));
    out
}

impl Clone for Link {
    fn clone(&self) -> (r: Self)
        ensures
            r@ == self@,
        decreases self, 0int,
    {
        let r = Link {
            id: clone_text(&self.id),
            values: clone_links(&self.values),
            children: clone_links(&self.children),
            is_indented_id: self.is_indented_id,
        };
        proof {
            r.lemma_view();
            self.lemma_view();
        }
        r
    }
}

impl Link {
    /// A bare reference.
    pub fn new_singlet(id: String) -> (link: Link)
        ensures
            link@ == RawLink::singlet(id@),
    {
        let link = Link {
            id: Some(id),
            values: Vec::new(),
            children: Vec::new(),
            is_indented_id: false,
        };
        proof {
            link.lemma_view();
            assert(link@.values =~= Seq::empty());
            assert(link@.children =~= Seq::empty());
        }
        link
    }

    /// A group of values without a label.
    pub fn new_value(values: Vec<Link>) -> (link: Link)
        ensures
            link@ == RawLink::value(view_links(values@)),
    {
        let link = Link { id: None, values, children: Vec::new(), is_indented_id: false };
        proof {
            link.lemma_view();
            assert(link@.children =~= Seq::empty());
        }
        link
    }

    /// A group of values with an optional label.
    pub fn new_link(id: Option<String>, values: Vec<Link>) -> (link: Link)
        ensures
            link@ == RawLink::link(view_text(id), view_links(values@)),
    {
        let link = Link { id, values, children: Vec::new(), is_indented_id: false };
        proof {
            link.lemma_view();
            assert(link@.children =~= Seq::empty());
        }
        link
    }

    /// A label that ended its line with a colon.
    pub fn new_indented_id(id: String) -> (link: Link)
        ensures
            link@ == RawLink::indented_id(id@),
    {
        let link = Link {
            id: Some(id),
            values: Vec::new(),
            children: Vec::new(),
            is_indented_id: true,
        };
        proof {
            link.lemma_view();
            assert(link@.values =~= Seq::empty());
            assert(link@.children =~= Seq::empty());
        }
        link
    }

    /// The same link with `children` as the lines indented below it.
    pub fn with_children(self, children: Vec<Link>) -> (link: Link)
        ensures
            link@ == self@.with_children(view_links(children@)),
    {
        let link = Link {
            id: self.id,
            values: self.values,
            children,
            is_indented_id: self.is_indented_id,
        };
        proof {
            link.lemma_view();
            self.lemma_view();
        }
        link
    }

    /// Whether the link is nothing but a reference.
    pub fn is_bare_reference(&self) -> (b: bool)
        ensures
            b == self@.is_bare_reference(),
    {
        proof {
            self.lemma_view();
        }
        self.id.is_some() && self.values.len() == 0 && self.children.len() == 0
    }
}

/// Whether a link that was read, with the position behind it, is the one the
/// grammar gives.
pub open spec fn link_matches(r: Option<(Link, usize)>, spec: Option<(RawLink, int)>) -> bool {
    match r {
        Some((link, next)) => spec == Some((link@, next as int)),
        None => spec is None,
    }
}

/// Whether links that were read, with the position behind them, are those
/// the grammar gives.
pub open spec fn links_match(r: (Vec<Link>, usize), spec: (Seq<RawLink>, int)) -> bool {
    view_links(r.0@) == spec.0 && r.1 as int == spec.1
}

/// Appending a link to the links read so far appends its value.
pub proof fn lemma_view_links_push(links: Seq<Link>, link: Link)
    ensures
        view_links(links.push(link)) == view_links(links).push(link@),
{
    assert(view_links(links.push(link)) =~= view_links(links).push(link@));
}

/// Applies singlet elision to a group of values.
pub fn elide(values: Vec<Link>) -> (link: Link)
    ensures
        link@ == elide_singlet(view_links(values@)),
{
    if values.len() == 1 && values[0].is_bare_reference() {
        let id = clone_text(&values[0].id);
        proof {
            values[0].lemma_view();
        }
        match id {
            Some(text) => Link::new_singlet(text),
            None => Link::new_value(values),
        }
    } else {
        Link::new_value(values)
    }
}

/// Reads `( id : values )` at `pos`.
pub fn multi_line_link(input: &[char], pos: usize) -> (r: Option<(Link, usize)>)
    ensures
        link_matches(r, spec_multi_line_link(input@, pos as int)),
        r matches Some((_, next)) ==> pos < next <= input@.len(),
    decreases remaining(input@, pos as int), 0int,
{
    if pos < input.len() && input[pos] == '(' {
        let start = skip_run(input, pos + 1, CharClass::Blank);
        match reference(input, start) {
            Some((id, after_id)) => {
                let colon = skip_run(input, after_id, CharClass::Blank);
                if colon < input.len() && input[colon] == ':' {
                    let (values, after_values) = multi_line_values(input, colon + 1);
                    let close = skip_run(input, after_values, CharClass::Blank);
                    if close < input.len() && input[close] == ')' {
                        Some((Link::new_link(Some(id), values), close + 1))
                    } else {
                        None
                    }
                } else {
                    None
                }
            },
            None => None,
        }
    } else {
        None
    }
}

/// Reads `( values )` at `pos`, and applies singlet elision.
pub fn multi_line_value_link(input: &[char], pos: usize) -> (r: Option<(Link, usize)>)
    ensures
        link_matches(r, spec_multi_line_value_link(input@, pos as int)),
        r matches Some((_, next)) ==> pos < next <= input@.len(),
    decreases remaining(input@, pos as int), 0int,
{
    if pos < input.len() && input[pos] == '(' {
        let (values, after_values) = multi_line_values(input, pos + 1);
        let close = skip_run(input, after_values, CharClass::Blank);
        if close < input.len() && input[close] == ')' {
            Some((elide(values), close + 1))
        } else {
            None
        }
    } else {
        None
    }
}

/// Reads a link in parentheses at `pos`: with a label, else without.
pub fn multi_line_any_link(input: &[char], pos: usize) -> (r: Option<(Link, usize)>)
    ensures
        link_matches(r, spec_multi_line_any_link(input@, pos as int)),
        r matches Some((_, next)) ==> pos < next <= input@.len(),
    decreases remaining(input@, pos as int), 1int,
{
    match multi_line_link(input, pos) {
        Some(found) => Some(found),
        None => multi_line_value_link(input, pos),
    }
}

/// Reads one value at `pos`: a link in parentheses, else a reference.
pub fn reference_or_link(input: &[char], pos: usize) -> (r: Option<(Link, usize)>)
    ensures
        link_matches(r, spec_reference_or_link(input@, pos as int)),
        r matches Some((_, next)) ==> pos < next <= input@.len(),
    decreases remaining(input@, pos as int), 2int,
{
    match multi_line_any_link(input, pos) {
        Some(found) => Some(found),
        None => match reference(input, pos) {
            Some((id, next)) => Some((Link::new_singlet(id), next)),
            None => None,
        },
    }
}

/// Reads the values between parentheses from `pos` on: blanks of any kind,
/// then values, each followed by blanks of any kind.
pub fn multi_line_values(input: &[char], pos: usize) -> (r: (Vec<Link>, usize))
    ensures
        links_match(r, spec_multi_line_values(input@, pos as int)),
        pos <= r.1,
        pos <= input@.len() ==> r.1 <= input@.len(),
    decreases remaining(input@, pos as int), 4int,
{
    let start = skip_run(input, pos, CharClass::Blank);
    let mut values: Vec<Link> = Vec::new();
    let mut cur: usize = start;
    assert(view_links(values@) =~= Seq::empty());
    loop
        invariant
            pos <= start <= cur,
            pos <= input@.len() ==> cur <= input@.len(),
            spec_multi_line_items(input@, start as int).0 == view_links(values@)
                + spec_multi_line_items(input@, cur as int).0,
            spec_multi_line_items(input@, start as int).1 == spec_multi_line_items(
                input@,
                cur as int,
            ).1,
        ensures
            links_match((values, cur), spec_multi_line_items(input@, start as int)),
        decreases input@.len() - cur,
    {
        match reference_or_link(input, cur) {
            Some((value, after_value)) => {
                let next = skip_run(input, after_value, CharClass::Blank);
                proof {
                    lemma_view_links_push(values@, value);
                    let rest = spec_multi_line_items(input@, next as int).0;
                    assert(view_links(values@) + (seq![value@] + rest) =~= view_links(values@).push(
                        value@,
                    ) + rest);
                }
                values.push(value);
                cur = next;
            },
            None => {
                assert(view_links(values@) + Seq::<RawLink>::empty() =~= view_links(values@));
                break ;
            },
        }
    }
    (values, cur)
}

/// Reads the values on one line from `pos` on, one at least, each after
/// blanks that stay on the line.
pub fn single_line_values(input: &[char], pos: usize) -> (r: Option<(Vec<Link>, usize)>)
    ensures
        match r {
            Some(found) => spec_single_line_values(input@, pos as int) == Some(
                (view_links(found.0@), found.1 as int),
            ),
            None => spec_single_line_values(input@, pos as int) is None,
        },
        r matches Some((_, next)) ==> pos < next <= input@.len(),
{
    let mut values: Vec<Link> = Vec::new();
    let mut cur: usize = pos;
    assert(view_links(values@) =~= Seq::empty());
    loop
        invariant
            pos <= cur,
            values@.len() > 0 ==> pos < cur <= input@.len(),
            spec_single_line_items(input@, pos as int).0 == view_links(values@)
                + spec_single_line_items(input@, cur as int).0,
            spec_single_line_items(input@, pos as int).1 == spec_single_line_items(
                input@,
                cur as int,
            ).1,
        ensures
            pos <= cur,
            values@.len() > 0 ==> pos < cur <= input@.len(),
            links_match((values, cur), spec_single_line_items(input@, pos as int)),
        decreases input@.len() - cur,
    {
        let start = skip_run(input, cur, CharClass::Horizontal);
        match reference_or_link(input, start) {
            Some((value, next)) => {
                proof {
                    lemma_view_links_push(values@, value);
                    let rest = spec_single_line_items(input@, next as int).0;
                    assert(view_links(values@) + (seq![value@] + rest) =~= view_links(values@).push(
                        value@,
                    ) + rest);
                }
                values.push(value);
                cur = next;
            },
            None => {
                assert(view_links(values@) + Seq::<RawLink>::empty() =~= view_links(values@));
                break ;
            },
        }
    }
    if values.len() > 0 {
        Some((values, cur))
    } else {
        None
    }
}

/// Reads `id: values` on one line at `pos`.
pub fn single_line_link(input: &[char], pos: usize) -> (r: Option<(Link, usize)>)
    ensures
        link_matches(r, spec_single_line_link(input@, pos as int)),
        r matches Some((_, next)) ==> pos < next <= input@.len(),
{
    let start = skip_run(input, pos, CharClass::Horizontal);
    match reference(input, start) {
        Some((id, after_id)) => {
            let colon = skip_run(input, after_id, CharClass::Horizontal);
            if colon < input.len() && input[colon] == ':' {
                match single_line_values(input, colon + 1) {
                    Some((values, end)) => Some((Link::new_link(Some(id), values), end)),
                    None => None,
                }
            } else {
                None
            }
        },
        None => None,
    }
}

/// Reads values alone on one line at `pos`, and applies singlet elision.
pub fn single_line_value_link(input: &[char], pos: usize) -> (r: Option<(Link, usize)>)
    ensures
        link_matches(r, spec_single_line_value_link(input@, pos as int)),
        r matches Some((_, next)) ==> pos < next <= input@.len(),
{
    match single_line_values(input, pos) {
        Some((values, end)) => Some((elide(values), end)),
        None => None,
    }
}

/// Reads `id:` at the end of its line at `pos`.
pub fn indented_id_link(input: &[char], pos: usize) -> (r: Option<(Link, usize)>)
    ensures
        link_matches(r, spec_indented_id_link(input@, pos as int)),
        r matches Some((_, next)) ==> pos < next <= input@.len(),
{
    match reference(input, pos) {
        Some((id, after_id)) => {
            let colon = skip_run(input, after_id, CharClass::Horizontal);
            if colon < input.len() && input[colon] == ':' {
                match eol(input, colon + 1) {
                    Some(end) => Some((Link::new_indented_id(id), end)),
                    None => None,
                }
            } else {
                None
            }
        },
        None => None,
    }
}

/// Keeps what was found where the line ends behind it.
pub fn terminated_by_eol(input: &[char], found: Option<(Link, usize)>) -> (r: Option<(Link, usize)>)
    requires
        found matches Some((_, next)) ==> next <= input@.len(),
    ensures
        forall|spec: Option<(RawLink, int)>| #[trigger]
            link_matches(found, spec) ==> link_matches(r, then_eol(input@, spec)),
        match (r, found) {
            (Some((_, end)), Some((_, next))) => next <= end <= input@.len(),
            (Some(_), None) => false,
            (None, _) => true,
        },
{
    match found {
        Some((link, next)) => match eol(input, next) {
            Some(end) => Some((link, end)),
            None => None,
        },
        None => None,
    }
}

/// Reads a link on one line at `pos`, up to the end of the line: with a
/// label, else without.
pub fn single_line_any_link(input: &[char], pos: usize) -> (r: Option<(Link, usize)>)
    ensures
        link_matches(r, spec_single_line_any_link(input@, pos as int)),
        r matches Some((_, next)) ==> pos < next <= input@.len(),
{
    let labelled = single_line_link(input, pos);
    assert(link_matches(labelled, spec_single_line_link(input@, pos as int)));
    match terminated_by_eol(input, labelled) {
        Some(found) => Some(found),
        None => {
            let plain = single_line_value_link(input, pos);
            assert(link_matches(plain, spec_single_line_value_link(input@, pos as int)));
            terminated_by_eol(input, plain)
        },
    }
}

/// Reads one element at `pos` without what is indented below it.
pub fn any_link(input: &[char], pos: usize) -> (r: Option<(Link, usize)>)
    ensures
        link_matches(r, spec_any_link(input@, pos as int)),
        r matches Some((_, next)) ==> pos < next <= input@.len(),
{
    let grouped = multi_line_any_link(input, pos);
    assert(link_matches(grouped, spec_multi_line_any_link(input@, pos as int)));
    match terminated_by_eol(input, grouped) {
        Some(found) => Some(found),
        None => match indented_id_link(input, pos) {
            Some(found) => Some(found),
            None => single_line_any_link(input, pos),
        },
    }
}

/// The indentation levels of the blocks that are open at one moment of a
/// parse, the innermost last. The first level is that of the document.
pub struct ParserState {
    indentation_stack: Vec<usize>,
}

impl View for ParserState {
    type V = Seq<usize>;

    closed spec fn view(&self) -> Seq<usize> {
        self.indentation_stack@
    }
}

impl ParserState {
    /// There is always a level: that of the document is never closed.
    pub open spec fn wf(&self) -> bool {
        self@.len() >= 1
    }

    /// The indentation of the innermost open block.
    pub open spec fn spec_current_indentation(&self) -> usize {
        self@.last()
    }

    /// The state at the start of a document: one level, of indentation 0.
    pub fn new() -> (state: Self)
        ensures
            state.wf(),
            state@ == seq![0usize],
    {
        let mut indentation_stack: Vec<usize> = Vec::new();
        indentation_stack.push(0);
        assert(indentation_stack@ =~= seq![0usize]);
        ParserState { indentation_stack }
    }

    /// Opens a block of indentation `indent`.
    pub fn push_indentation(&mut self, indent: usize)
        requires
            old(self).wf(),
        ensures
            final(self).wf(),
            final(self)@ == old(self)@.push(indent),
    {
        self.indentation_stack.push(indent);
    }

    /// Closes the innermost block; the level of the document stays.
    pub fn pop_indentation(&mut self)
        requires
            old(self).wf(),
        ensures
            final(self).wf(),
            final(self)@ == if old(self)@.len() > 1 {
                old(self)@.drop_last()
            } else {
                old(self)@
            },
    {
        if self.indentation_stack.len() > 1 {
            self.indentation_stack.pop();
        }
    }

    /// The indentation of the innermost open block.
    #[verifier::when_used_as_spec(spec_current_indentation)]
    pub fn current_indentation(&self) -> (top: usize)
        requires
            self.wf(),
        ensures
            top == self.spec_current_indentation(),
    {
        self.indentation_stack[self.indentation_stack.len() - 1]
    }

    /// Whether a line indented by `indent` belongs to the innermost open block.
    pub fn check_indentation(&self, indent: usize) -> (b: bool)
        requires
            self.wf(),
        ensures
            b == (indent >= self.spec_current_indentation()),
    {
        indent >= self.current_indentation()
    }
}

/// The number of spaces at `pos`.
pub fn count_indentation(input: &[char], pos: usize) -> (spaces: usize)
    ensures
        spaces == spec_count_indentation(input@, pos as int),
        pos <= input@.len() ==> pos + spaces <= input@.len(),
        pos + spaces <= usize::MAX,
{
    skip_run(input, pos, CharClass::Indent) - pos
}

/// Opens a block where the line at `pos` is indented by more than the
/// innermost open block, and gives the position behind the indentation.
pub fn push_indentation(input: &[char], pos: usize, state: &mut ParserState) -> (r: Option<usize>)
    requires
        old(state).wf(),
    ensures
        final(state).wf(),
        match r {
            Some(next) => {
                &&& spec_count_indentation(input@, pos as int)
                    > old(state).spec_current_indentation()
                &&& next == pos + spec_count_indentation(input@, pos as int)
                &&& pos < next <= input@.len()
                &&& final(state)@ == old(state)@.push(
                    spec_count_indentation(input@, pos as int) as usize,
                )
            },
            None => {
                &&& spec_count_indentation(input@, pos as int)
                    <= old(state).spec_current_indentation()
                &&& final(state)@ == old(state)@
            },
        },
{
    let spaces = count_indentation(input, pos);
    if spaces > state.current_indentation() {
        state.push_indentation(spaces);
        Some(pos + spaces)
    } else {
        None
    }
}

/// The position behind the indentation of the line at `pos`, where the line
/// is indented at least as much as the innermost open block.
pub fn check_indentation(input: &[char], pos: usize, state: &ParserState) -> (r: Option<usize>)
    requires
        state.wf(),
    ensures
        match r {
            Some(next) => {
                &&& spec_count_indentation(input@, pos as int) >= state.spec_current_indentation()
                &&& next == pos + spec_count_indentation(input@, pos as int)
            },
            None => spec_count_indentation(input@, pos as int) < state.spec_current_indentation(),
        },
{
    let spaces = count_indentation(input, pos);
    if state.check_indentation(spaces) {
        Some(pos + spaces)
    } else {
        None
    }
}

/// Reads an element at `pos` inside the innermost open block: a link and,
/// where the next line is indented more deeply, the block below it as its
/// children. The state is left as it was found.
pub fn element(input: &[char], pos: usize, state: &mut ParserState) -> (r: Option<(Link, usize)>)
    requires
        old(state).wf(),
    ensures
        final(state)@ == old(state)@,
        link_matches(
            r,
            spec_element(input@, pos as int, old(state).spec_current_indentation() as nat),
        ),
        r matches Some((_, next)) ==> pos < next <= input@.len(),
    decreases remaining(input@, pos as int), 0int,
{
    match any_link(input, pos) {
        Some((link, next)) => match push_indentation(input, next, state) {
            Some(inside) => match links(input, inside, state) {
                Some((children, end)) => {
                    assert(state@ =~= old(state)@);
                    Some((link.with_children(children), end))
                },
                None => {
                    state.pop_indentation();
                    assert(state@ =~= old(state)@);
                    None
                },
            },
            None => Some((link, next)),
        },
        None => None,
    }
}

/// An element on a line of its own inside the innermost open block.
pub fn line(input: &[char], pos: usize, state: &mut ParserState) -> (r: Option<(Link, usize)>)
    requires
        old(state).wf(),
    ensures
        final(state)@ == old(state)@,
        match r {
            Some((link, next)) => {
                &&& spec_count_indentation(input@, pos as int)
                    >= old(state).spec_current_indentation()
                &&& spec_element(
                    input@,
                    pos + spec_count_indentation(input@, pos as int),
                    old(state).spec_current_indentation() as nat,
                ) == Some((link@, next as int))
                &&& pos < next <= input@.len()
            },
            None => {
                ||| spec_count_indentation(input@, pos as int)
                    < old(state).spec_current_indentation()
                ||| spec_element(
                    input@,
                    pos + spec_count_indentation(input@, pos as int),
                    old(state).spec_current_indentation() as nat,
                ) is None
            },
        },
    decreases remaining(input@, pos as int), 1int,
{
    match check_indentation(input, pos, state) {
        Some(start) => element(input, start, state),
        None => None,
    }
}

/// The block that starts with the element at `pos`; closes the block at its
/// end.
pub fn links(input: &[char], pos: usize, state: &mut ParserState) -> (r: Option<(Vec<Link>, usize)>)
    requires
        old(state).wf(),
    ensures
        final(state).wf(),
        match r {
            Some(found) => {
                &&& spec_links(input@, pos as int, old(state).spec_current_indentation() as nat)
                    == Some((view_links(found.0@), found.1 as int))
                &&& pos < found.1 <= input@.len()
                &&& final(state)@ == if old(state)@.len() > 1 {
                    old(state)@.drop_last()
                } else {
                    old(state)@
                }
            },
            None => {
                &&& spec_links(
                    input@,
                    pos as int,
                    old(state).spec_current_indentation() as nat,
                ) is None
                &&& final(state)@ == old(state)@
            },
        },
    decreases remaining(input@, pos as int), 2int,
{
    let ghost top = state.spec_current_indentation() as nat;
    match element(input, pos, state) {
        Some((first, after_first)) => {
            let mut result: Vec<Link> = Vec::new();
            proof {
                lemma_view_links_push(result@, first);
                assert(view_links(result@.push(first)) =~= seq![first@]);
            }
            result.push(first);
            let ghost lead = seq![first@];
            let mut cur: usize = after_first;
            loop
                invariant
                    pos < after_first <= cur <= input@.len(),
                    state.wf(),
                    state@ == old(state)@,
                    top == old(state).spec_current_indentation() as nat,
                    view_links(result@) + spec_lines(input@, cur as int, top).0 == lead
                        + spec_lines(input@, after_first as int, top).0,
                    spec_lines(input@, cur as int, top).1 == spec_lines(
                        input@,
                        after_first as int,
                        top,
                    ).1,
                ensures
                    pos < after_first <= cur <= input@.len(),
                    state.wf(),
                    state@ == old(state)@,
                    view_links(result@) == lead + spec_lines(input@, after_first as int, top).0,
                    cur as int == spec_lines(input@, after_first as int, top).1,
                decreases input@.len() - cur,
            {
                match line(input, cur, state) {
                    Some((link, next)) => {
                        proof {
                            lemma_view_links_push(result@, link);
                            let rest = spec_lines(input@, next as int, top).0;
                            assert(view_links(result@) + (seq![link@] + rest) =~= view_links(
                                result@,
                            ).push(link@) + rest);
                        }
                        result.push(link);
                        cur = next;
                    },
                    None => {
                        assert(view_links(result@) + Seq::<RawLink>::empty() =~= view_links(
                            result@,
                        ));
                        break ;
                    },
                }
            }
            state.pop_indentation();
            Some((result, cur))
        },
        None => None,
    }
}

/// Parses a whole document into its raw links. On success the first part of
/// the result is the input that is left, which is empty.
pub fn parse_document(input: &str) -> (r: Result<(&str, Vec<Link>), ParseError>)
    ensures
        match r {
            Ok(found) => found.0@.len() == 0 && spec_parse_document(input@) == Ok::<
                Seq<RawLink>,
                ParseError,
            >(view_links(found.1@)),
            Err(e) => spec_parse_document(input@) == Err::<Seq<RawLink>, ParseError>(e),
        },
{
    let chars = string_to_chars(input);
    let text = chars.as_slice();
    proof {
        reveal_strlit("");
    }
    let start = skip_run(text, 0, CharClass::LineBreak);
    if skip_run(text, start, CharClass::UnicodeBlank) >= text.len() {
        let none: Vec<Link> = Vec::new();
        assert(view_links(none@) =~= Seq::empty());
        return Ok(("", none));
    }
    let mut state = ParserState::new();
    match links(text, start, &mut state) {
        Some((found, end)) => {
            let rest = skip_run(text, end, CharClass::Blank);
            if rest >= text.len() {
                Ok(("", found))
            } else {
                Err(ParseError::Syntax { offset: rest })
            }
        },
        None => Err(ParseError::Syntax { offset: start }),
    }
}

} // verus!
