//! Lemmas on the shape of parsed links: singlet elision has been applied
//! throughout, and values own no children.

use crate::flatten::{
    spec_combine, spec_convert, spec_current, spec_flatten_children, spec_flatten_link,
    spec_flatten_links, without_children,
};
use crate::grammar::{
    elide_singlet, remaining, spec_any_link, spec_count_indentation, spec_element, spec_lines,
    spec_multi_line_any_link, spec_multi_line_items, spec_multi_line_link,
    spec_multi_line_value_link, spec_multi_line_values, spec_reference_or_link,
    spec_single_line_items, RawLink,
};
use crate::laws::{is_elided, is_inline, is_written_value};
use crate::lexer::{run_end, spec_reference, CharClass};
use crate::notation::Notation;
use vstd::prelude::*;

verus! {

/// Every raw link of `links` is elided and stands alone: it has no children
/// and is no label that ended its line.
pub open spec fn are_values(links: Seq<RawLink>) -> bool {
    forall|k: int|
        0 <= k < links.len() ==> {
            &&& is_elided(#[trigger] links[k])
            &&& links[k].children.len() == 0
            &&& !links[k].is_indented_id
        }
}

/// A group of values is elided where its values are.
pub(crate) proof fn lemma_elide_is_elided(values: Seq<RawLink>)
    requires
        are_values(values),
    ensures
        is_elided(elide_singlet(values)),
        is_elided(RawLink::link(None, values)) || values.len() == 1,
        forall|id: Seq<char>| is_elided(#[trigger] RawLink::link(Some(id), values)),
        forall|id: Seq<char>| is_elided(#[trigger] RawLink::singlet(id)),
        forall|id: Seq<char>| is_elided(#[trigger] RawLink::indented_id(id)),
{
    assert forall|id: Seq<char>| is_elided(#[trigger] RawLink::link(Some(id), values)) by {
        let raw = RawLink::link(Some(id), values);
        assert forall|k: int| 0 <= k < raw.values.len() implies is_elided(
            #[trigger] raw.values[k],
        ) by {
            assert(raw.values[k] == values[k]);
        }
    }
    if !(values.len() == 1 && values[0].is_bare_reference()) {
        let raw = RawLink::value(values);
        assert forall|k: int| 0 <= k < raw.values.len() implies is_elided(
            #[trigger] raw.values[k],
        ) by {
            assert(raw.values[k] == values[k]);
        }
    }
}

/// A link in parentheses with a label is elided.
pub(crate) proof fn lemma_multi_line_link_elided(s: Seq<char>, i: int)
    ensures
        spec_multi_line_link(s, i) matches Some((raw, _)) ==> is_elided(raw) && raw.children.len()
            == 0 && !raw.is_indented_id,
    decreases remaining(s, i), 0int,
{
    if 0 <= i < s.len() && s[i] == '(' {
        if let Some((id, after_id)) = spec_reference(s, run_end(s, i + 1, CharClass::Blank)) {
            let colon = run_end(s, after_id, CharClass::Blank);
            if colon < s.len() && s[colon] == ':' {
                lemma_multi_line_values_elided(s, colon + 1);
                lemma_elide_is_elided(spec_multi_line_values(s, colon + 1).0);
            }
        }
    }
}

/// A group in parentheses is elided.
pub(crate) proof fn lemma_multi_line_value_link_elided(s: Seq<char>, i: int)
    ensures
        spec_multi_line_value_link(s, i) matches Some((raw, _)) ==> is_elided(raw)
            && raw.children.len() == 0 && !raw.is_indented_id,
    decreases remaining(s, i), 0int,
{
    if 0 <= i < s.len() && s[i] == '(' {
        lemma_multi_line_values_elided(s, i + 1);
        lemma_elide_is_elided(spec_multi_line_values(s, i + 1).0);
    }
}

/// A value is elided, has no children and is no label that ended its line.
pub(crate) proof fn lemma_reference_or_link_elided(s: Seq<char>, i: int)
    ensures
        spec_reference_or_link(s, i) matches Some((raw, _)) ==> is_elided(raw)
            && raw.children.len() == 0 && !raw.is_indented_id,
        spec_multi_line_any_link(s, i) matches Some((raw, _)) ==> is_elided(raw)
            && raw.children.len() == 0 && !raw.is_indented_id,
    decreases remaining(s, i), 2int,
{
    lemma_multi_line_link_elided(s, i);
    lemma_multi_line_value_link_elided(s, i);
    lemma_elide_is_elided(Seq::empty());
}

/// The values that follow each other in parentheses are elided.
pub(crate) proof fn lemma_multi_line_items_elided(s: Seq<char>, i: int)
    ensures
        are_values(spec_multi_line_items(s, i).0),
    decreases remaining(s, i), 3int,
{
    lemma_reference_or_link_elided(s, i);
    if let Some((value, after_value)) = spec_reference_or_link(s, i) {
        let next = run_end(s, after_value, CharClass::Blank);
        if i < next <= s.len() {
            lemma_multi_line_items_elided(s, next);
            let rest = spec_multi_line_items(s, next).0;
            let all = seq![value] + rest;
            assert forall|k: int| 0 <= k < all.len() implies is_elided(#[trigger] all[k])
                && all[k].children.len() == 0 && !all[k].is_indented_id by {
                if k > 0 {
                    assert(all[k] == rest[k - 1]);
                }
            }
        }
    }
}

/// The values between parentheses are elided.
pub(crate) proof fn lemma_multi_line_values_elided(s: Seq<char>, i: int)
    ensures
        are_values(spec_multi_line_values(s, i).0),
    decreases remaining(s, i), 4int,
{
    lemma_multi_line_items_elided(s, run_end(s, i, CharClass::Blank));
}

/// The values on one line are elided.
pub(crate) proof fn lemma_single_line_items_elided(s: Seq<char>, i: int)
    ensures
        are_values(spec_single_line_items(s, i).0),
    decreases remaining(s, i),
{
    let start = run_end(s, i, CharClass::Horizontal);
    lemma_reference_or_link_elided(s, start);
    if let Some((value, next)) = spec_reference_or_link(s, start) {
        if i < next <= s.len() {
            lemma_single_line_items_elided(s, next);
            let rest = spec_single_line_items(s, next).0;
            let all = seq![value] + rest;
            assert forall|k: int| 0 <= k < all.len() implies is_elided(#[trigger] all[k])
                && all[k].children.len() == 0 && !all[k].is_indented_id by {
                if k > 0 {
                    assert(all[k] == rest[k - 1]);
                }
            }
        }
    }
}

/// An element without its children is elided.
pub(crate) proof fn lemma_any_link_elided(s: Seq<char>, i: int)
    ensures
        spec_any_link(s, i) matches Some((raw, _)) ==> is_elided(raw) && raw.children.len() == 0,
{
    lemma_reference_or_link_elided(s, i);
    lemma_elide_is_elided(Seq::empty());
    let start = run_end(s, i, CharClass::Horizontal);
    if let Some((id, after_id)) = spec_reference(s, start) {
        let colon = run_end(s, after_id, CharClass::Horizontal);
        lemma_single_line_items_elided(s, colon + 1);
        lemma_elide_is_elided(spec_single_line_items(s, colon + 1).0);
    }
    lemma_single_line_items_elided(s, i);
    lemma_elide_is_elided(spec_single_line_items(s, i).0);
}

/// Every element of a block is elided.
pub(crate) proof fn lemma_element_elided(s: Seq<char>, i: int, top: nat)
    ensures
        spec_element(s, i, top) matches Some((raw, _)) ==> is_elided(raw),
{
    lemma_any_link_elided(s, i);
}

/// Every line of a block is elided.
pub(crate) proof fn lemma_lines_elided(s: Seq<char>, i: int, top: nat)
    ensures
        forall|k: int|
            0 <= k < spec_lines(s, i, top).0.len() ==> is_elided(
                #[trigger] spec_lines(s, i, top).0[k],
            ),
    decreases remaining(s, i),
{
    let indent = spec_count_indentation(s, i);
    if indent >= top {
        lemma_element_elided(s, i + indent, top);
        if let Some((link, next)) = spec_element(s, i + indent, top) {
            if i < next <= s.len() {
                lemma_lines_elided(s, next, top);
                let rest = spec_lines(s, next, top).0;
                let all = seq![link] + rest;
                assert forall|k: int| 0 <= k < all.len() implies is_elided(#[trigger] all[k]) by {
                    if k > 0 {
                        assert(all[k] == rest[k - 1]);
                    }
                }
            }
        }
    }
}

/// An elided link without indentation converts to a tree that is read back,
/// and contributes that tree as its only entry.
pub(crate) proof fn lemma_inline_converts(raw: RawLink)
    requires
        is_elided(raw),
        is_inline(raw),
    ensures
        is_written_value(spec_convert(raw)),
        without_children(raw) == raw,
        spec_current(raw) == spec_convert(raw),
        spec_flatten_link(raw, None) == seq![spec_convert(raw)],
    decreases raw,
{
    assert(raw.children =~= Seq::empty());
    let tree = spec_convert(raw);
    assert forall|k: int| 0 <= k < raw.values.len() implies is_written_value(
        spec_convert(#[trigger] raw.values[k]),
    ) && without_children(raw.values[k]) == raw.values[k] by {
        assert(is_elided(raw.values[k]));
        assert(is_inline(raw.values[k]));
        lemma_inline_converts(raw.values[k]);
    }
    if raw.values.len() > 0 {
        assert(tree is Link);
        assert(tree->values.len() == raw.values.len());
        assert forall|k: int| 0 <= k < tree->values.len() implies is_written_value(
            #[trigger] tree->values[k],
        ) by {
            assert(tree->values[k] == spec_convert(raw.values[k]));
        }
        if raw.id is None && raw.values.len() == 1 {
            assert(tree->values[0] == spec_convert(raw.values[0]));
            assert(!raw.values[0].is_bare_reference());
            assert(is_inline(raw.values[0]));
        }
        assert(spec_current(raw)->values =~= tree->values);
    }
    assert(spec_combine(None, spec_current(raw)) == spec_current(raw));
    assert(spec_flatten_children(raw, 0, Some(tree)) =~= Seq::<Notation>::empty());
    assert(seq![tree] + Seq::<Notation>::empty() =~= seq![tree]);
}

/// The entries of elided links without indentation are read back, one for
/// each link.
pub(crate) proof fn lemma_inline_flattens(links: Seq<RawLink>)
    requires
        forall|k: int| 0 <= k < links.len() ==> is_elided(#[trigger] links[k]),
        forall|k: int| 0 <= k < links.len() ==> is_inline(#[trigger] links[k]),
    ensures
        spec_flatten_links(links).len() == links.len(),
        forall|k: int|
            0 <= k < links.len() ==> is_written_value(#[trigger] spec_flatten_links(links)[k]),
    decreases links.len(),
{
    if links.len() > 0 {
        let shorter = links.drop_last();
        assert forall|k: int| 0 <= k < shorter.len() implies is_elided(#[trigger] shorter[k])
            && is_inline(shorter[k]) by {
            assert(shorter[k] == links[k]);
        }
        lemma_inline_flattens(shorter);
        assert(is_elided(links[links.len() - 1]));
        assert(is_inline(links[links.len() - 1]));
        lemma_inline_converts(links.last());
    }
}

} // verus!
