//! From raw links to notation trees: the conversion of one link, and the
//! flattening that turns the lines indented below a link into entries of
//! their own, each paired with the chain of lines above it.

use crate::grammar::RawLink;
use crate::notation::{
    lemma_cloned_tree_view, lemma_view_link, lemma_view_trees_push, view_trees, LiNo, Notation,
};
use crate::lexer::clone_text;
use crate::parser::{view_links, Link};
use vstd::prelude::*;

verus! {

/// The tree of a raw link, without regard to what is indented below it: a
/// link without values and children is its reference, or the empty link where
/// it has no label; any other link keeps its label and converts its values.
pub open spec fn spec_convert(link: RawLink) -> Notation
    decreases link,
{
    if link.values.len() == 0 && link.children.len() == 0 {
        match link.id {
            Some(id) => Notation::Ref(id),
            None => Notation::Link { id: None, values: Seq::empty() },
        }
    } else {
        Notation::Link {
            id: link.id,
            values: Seq::new(
                link.values.len(),
                |i: int|
                    if 0 <= i < link.values.len() {
                        spec_convert(link.values[i])
                    } else {
                        arbitrary()
                    },
            ),
        }
    }
}

/// The link as it stands on its own line, without the lines below it.
pub open spec fn without_children(link: RawLink) -> RawLink {
    RawLink { id: link.id, values: link.values, children: Seq::empty(), is_indented_id: false }
}

/// A reference between parentheses; a link as it is.
pub open spec fn wrap_reference(tree: Notation) -> Notation {
    match tree {
        Notation::Ref(text) => Notation::Link { id: None, values: seq![Notation::Ref(text)] },
        Notation::Link { .. } => tree,
    }
}

/// What a link contributes by itself: its reference where it has no values,
/// else its label with its values, each converted without its children.
pub open spec fn spec_current(link: RawLink) -> Notation {
    if link.values.len() == 0 {
        match link.id {
            Some(id) => Notation::Ref(id),
            None => Notation::Link { id: None, values: Seq::empty() },
        }
    } else {
        Notation::Link {
            id: link.id,
            values: Seq::new(
                link.values.len(),
                |i: int| spec_convert(without_children(link.values[i])),
            ),
        }
    }
}

/// A label that ended its line with a colon and has lines indented below it.
pub open spec fn is_indented_id_block(link: RawLink) -> bool {
    link.is_indented_id && link.id is Some && link.values.len() == 0 && link.children.len() > 0
}

/// The label of an indented-id block with the lines below it as its values:
/// each line is converted whole, with its own label and values, and without
/// what is indented below it.
pub open spec fn spec_indented_id_current(link: RawLink) -> Notation {
    Notation::Link {
        id: link.id,
        values: Seq::new(
            link.children.len(),
            |i: int| spec_convert(without_children(link.children[i])),
        ),
    }
}

/// The entry of a line: the line itself where nothing stands above it, else
/// the pair of what stands above it and the line, references between
/// parentheses.
pub open spec fn spec_combine(parent: Option<Notation>, current: Notation) -> Notation {
    match parent {
        Some(above) => Notation::Link {
            id: None,
            values: seq![wrap_reference(above), wrap_reference(current)],
        },
        None => current,
    }
}

/// The entries of a link and of all lines below it, depth first: the entry of
/// the link, then those of its children, each with the entry of the link as
/// what stands above it. An indented-id block is one entry.
pub open spec fn spec_flatten_link(link: RawLink, parent: Option<Notation>) -> Seq<Notation>
    decreases link, link.children.len() + 1,
{
    if is_indented_id_block(link) {
        seq![spec_combine(parent, spec_indented_id_current(link))]
    } else {
        let combined = spec_combine(parent, spec_current(link));
        seq![combined] + spec_flatten_children(link, 0, Some(combined))
    }
}

/// The entries of the children of `link` from the `from`-th on.
pub open spec fn spec_flatten_children(link: RawLink, from: nat, parent: Option<Notation>) -> Seq<
    Notation,
>
    decreases link, link.children.len() - from,
{
    if from >= link.children.len() {
        Seq::empty()
    } else {
        spec_flatten_link(link.children[from as int], parent) + spec_flatten_children(
            link,
            from + 1,
            parent,
        )
    }
}

/// The entries of a forest of raw links, in the order of the text.
pub open spec fn spec_flatten_links(links: Seq<RawLink>) -> Seq<Notation>
    decreases links.len(),
{
    if links.len() == 0 {
        Seq::empty()
    } else {
        spec_flatten_links(links.drop_last()) + spec_flatten_link(links.last(), None)
    }
}

/// The value of an optional tree.
pub open spec fn view_parent(parent: Option<LiNo<String>>) -> Option<Notation> {
    match parent {
        Some(tree) => Some(tree@),
        None => None,
    }
}

impl LiNo<String> {
    /// The tree between parentheses where it is a reference.
    pub fn wrapped(self) -> (tree: LiNo<String>)
        ensures
            tree@ == wrap_reference(self@),
    {
        match self {
            LiNo::Ref(text) => {
                let mut values: Vec<LiNo<String>> = Vec::new();
                values.push(LiNo::Ref(text));
                proof {
                    lemma_view_link(None, values);
                    assert(view_trees(values@) =~= seq![Notation::Ref(text@)]);
                }
                LiNo::Link { id: None, values }
            },
            LiNo::Link { id, values } => LiNo::Link { id, values },
        }
    }
}

/// The empty link without a label.
pub fn empty_link() -> (tree: LiNo<String>)
    ensures
        tree@ == (Notation::Link { id: None, values: Seq::empty() }),
{
    let values: Vec<LiNo<String>> = Vec::new();
    proof {
        lemma_view_link(None, values);
        assert(view_trees(values@) =~= Seq::empty());
    }
    LiNo::Link { id: None, values }
}

/// Converts a raw link without regard to its children.
#[verifier::loop_isolation(false)]
pub fn convert(link: &Link) -> (tree: LiNo<String>)
    ensures
        tree@ == spec_convert(link@),
    decreases link,
{
    proof {
        link.lemma_view();
    }
    if link.values.len() == 0 && link.children.len() == 0 {
        match &link.id {
            Some(id) => LiNo::Ref(id.clone()),
            None => empty_link(),
        }
    } else {
        let mut values: Vec<LiNo<String>> = Vec::new();
        let mut i: usize = 0;
        while i < link.values.len()
            invariant
                i <= link.values.len(),
                values@.len() == i,
                forall|k: int| 0 <= k < i ==> values@[k]@ == spec_convert(link.values@[k]@),
            decreases link.values.len() - i,
        {
            values.push(convert(&link.values[i]));
            i += 1;
        }
        let id = clone_text(&link.id);
        proof {
            lemma_view_link(id, values);
            assert(view_trees(values@) =~= spec_convert(link@)->values);
        }
        LiNo::Link { id, values }
    }
}

/// Converts a raw link as it stands on its own line, without its children.
#[verifier::loop_isolation(false)]
pub fn convert_without_children(link: &Link) -> (tree: LiNo<String>)
    ensures
        tree@ == spec_convert(without_children(link@)),
{
    proof {
        link.lemma_view();
    }
    if link.values.len() == 0 {
        match &link.id {
            Some(id) => LiNo::Ref(id.clone()),
            None => empty_link(),
        }
    } else {
        let mut values: Vec<LiNo<String>> = Vec::new();
        let mut i: usize = 0;
        while i < link.values.len()
            invariant
                i <= link.values.len(),
                values@.len() == i,
                forall|k: int| 0 <= k < i ==> values@[k]@ == spec_convert(link.values@[k]@),
            decreases link.values.len() - i,
        {
            values.push(convert(&link.values[i]));
            i += 1;
        }
        let id = clone_text(&link.id);
        proof {
            lemma_view_link(id, values);
            assert(view_trees(values@) =~= spec_convert(without_children(link@))->values);
        }
        LiNo::Link { id, values }
    }
}

impl From<Link> for LiNo<String> {
    /// The tree of a raw link, without regard to what is indented below it.
    fn from(link: Link) -> (tree: Self)
        ensures
            tree@ == spec_convert(link@),
    {
        convert(&link)
    }
}

impl vstd::std_specs::convert::FromSpecImpl<Link> for LiNo<String> {
    open spec fn obeys_from_spec() -> bool {
        false
    }

    open spec fn from_spec(link: Link) -> Self {
        arbitrary()
    }
}

/// What a link contributes by itself.
#[verifier::loop_isolation(false)]
pub fn current_of(link: &Link) -> (tree: LiNo<String>)
    ensures
        tree@ == spec_current(link@),
{
    proof {
        link.lemma_view();
    }
    if link.values.len() == 0 {
        match &link.id {
            Some(id) => LiNo::Ref(id.clone()),
            None => empty_link(),
        }
    } else {
        let mut values: Vec<LiNo<String>> = Vec::new();
        let mut i: usize = 0;
        while i < link.values.len()
            invariant
                i <= link.values.len(),
                values@.len() == i,
                forall|k: int|
                    0 <= k < i ==> values@[k]@ == spec_convert(
                        without_children(link.values@[k]@),
                    ),
            decreases link.values.len() - i,
        {
            values.push(convert_without_children(&link.values[i]));
            i += 1;
        }
        let id = clone_text(&link.id);
        proof {
            lemma_view_link(id, values);
            assert(view_trees(values@) =~= spec_current(link@)->values);
        }
        LiNo::Link { id, values }
    }
}

/// Pairs a line with what stands above it.
pub fn combine(parent: Option<LiNo<String>>, current: LiNo<String>) -> (tree: LiNo<String>)
    ensures
        tree@ == spec_combine(view_parent(parent), current@),
{
    match parent {
        Some(above) => {
            let mut values: Vec<LiNo<String>> = Vec::new();
            let first = above.wrapped();
            let second = current.wrapped();
            values.push(first);
            values.push(second);
            proof {
                lemma_view_link(None, values);
                assert(view_trees(values@) =~= seq![
                    wrap_reference(above@),
                    wrap_reference(current@),
                ]);
            }
            LiNo::Link { id: None, values }
        },
        None => current,
    }
}

/// Appends to `result` the entries of `link` and of all lines below it, with
/// `parent` as what stands above `link`.
#[verifier::loop_isolation(false)]
pub fn flatten_link_recursive(
    link: &Link,
    parent: Option<LiNo<String>>,
    result: &mut Vec<LiNo<String>>,
)
    ensures
        view_trees(final(result)@) == view_trees(old(result)@) + spec_flatten_link(
            link@,
            view_parent(parent),
        ),
    decreases link,
{
    proof {
        link.lemma_view();
    }
    if link.is_indented_id && link.id.is_some() && link.values.len() == 0 && link.children.len()
        > 0 {
        let mut values: Vec<LiNo<String>> = Vec::new();
        let mut i: usize = 0;
        while i < link.children.len()
            invariant
                i <= link.children.len(),
                values@.len() == i,
                forall|k: int|
                    0 <= k < i ==> values@[k]@ == spec_convert(
                        without_children(link.children@[k]@),
                    ),
            decreases link.children.len() - i,
        {
            values.push(convert_without_children(&link.children[i]));
            i += 1;
        }
        let id = clone_text(&link.id);
        proof {
            lemma_view_link(id, values);
            assert(view_trees(values@) =~= spec_indented_id_current(link@)->values);
        }
        let combined = combine(parent, LiNo::Link { id, values });
        proof {
            lemma_view_trees_push(result@, combined);
        }
        result.push(combined);
        assert(view_trees(result@) =~= view_trees(old(result)@) + spec_flatten_link(
            link@,
            view_parent(parent),
        ));
    } else {
        let combined = combine(parent, current_of(link));
        let ghost above = Some(combined@);
        proof {
            lemma_view_trees_push(result@, combined);
        }
        let entry = combined.clone();
        proof {
            lemma_cloned_tree_view(combined, entry);
            lemma_view_trees_push(result@, entry);
        }
        result.push(entry);
        let mut i: usize = 0;
        assert(view_trees(result@) =~= view_trees(old(result)@) + seq![combined@]);
        while i < link.children.len()
            invariant
                i <= link.children.len(),
                view_trees(result@) + spec_flatten_children(link@, i as nat, above) == view_trees(
                    old(result)@,
                ) + seq![combined@] + spec_flatten_children(link@, 0, above),
            decreases link.children.len() - i,
        {
            let ghost before = view_trees(result@);
            let above_child = combined.clone();
            proof {
                lemma_cloned_tree_view(combined, above_child);
            }
            flatten_link_recursive(&link.children[i], Some(above_child), result);
            proof {
                let entries = spec_flatten_link(link.children@[i as int]@, above);
                let rest = spec_flatten_children(link@, (i + 1) as nat, above);
                assert(before + (entries + rest) =~= (before + entries) + rest);
            }
            i += 1;
        }
        assert(view_trees(result@) + Seq::<Notation>::empty() =~= view_trees(result@));
        assert(view_trees(old(result)@) + seq![combined@] + spec_flatten_children(link@, 0, above)
            =~= view_trees(old(result)@) + (seq![combined@] + spec_flatten_children(
            link@,
            0,
            above,
        )));
    }
}

/// The entries of a forest of raw links.
pub fn flatten_links(links: Vec<Link>) -> (result: Vec<LiNo<String>>)
    ensures
        view_trees(result@) == spec_flatten_links(view_links(links@)),
{
    let mut result: Vec<LiNo<String>> = Vec::new();
    let mut i: usize = 0;
    assert(view_trees(result@) =~= Seq::empty());
    assert(view_links(links@).take(0) =~= Seq::empty());
    while i < links.len()
        invariant
            i <= links.len(),
            view_trees(result@) == spec_flatten_links(view_links(links@).take(i as int)),
        decreases links.len() - i,
    {
        flatten_link_recursive(&links[i], None, &mut result);
        proof {
            let all = view_links(links@);
            assert(all.take(i + 1).drop_last() =~= all.take(i as int));
            assert(all.take(i + 1).last() == links@[i as int]@);
        }
        i += 1;
    }
    assert(view_links(links@).take(i as int) =~= view_links(links@));
    result
}

} // verus!
