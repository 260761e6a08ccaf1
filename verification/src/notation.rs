//! The tree that a caller sees, and its two renderings as text.

use crate::lexer::view_text;
use vstd::prelude::*;

verus! {

/// The mathematical value of a notation tree: a reference, or an ordered
/// association of trees with an optional label.
pub enum Notation {
    Ref(Seq<char>),
    Link { id: Option<Seq<char>>, values: Seq<Notation> },
}

/// A notation tree. Nothing of the indentation of the text it was read from
/// is left in it: all nesting is in `values`.
#[derive(Debug, PartialEq)]
pub enum LiNo<T> {
    Link { id: Option<T>, values: Vec<Self> },
    Ref(T),
}

impl<T> LiNo<T> {
    /// Whether the tree is a reference.
    pub fn is_ref(&self) -> (b: bool)
        ensures
            b == (self is Ref),
    {
        match self {
            LiNo::Ref(_) => true,
            LiNo::Link { .. } => false,
        }
    }

    /// Whether the tree is a link.
    pub fn is_link(&self) -> (b: bool)
        ensures
            b == (self is Link),
    {
        match self {
            LiNo::Ref(_) => false,
            LiNo::Link { .. } => true,
        }
    }

    /// Whether the tree is a sequence of values: a link, under its other name.
    pub fn is_seq(&self) -> (b: bool)
        ensures
            b == (self is Link),
    {
        self.is_link()
    }
}

/// Whether `copy` is what cloning `tree` may give: the same shape, with each
/// text a clone of the text at its place.
pub open spec fn cloned_tree<T: Clone>(tree: LiNo<T>, copy: LiNo<T>) -> bool
    decreases tree,
{
    match (tree, copy) {
        (LiNo::Ref(text), LiNo::Ref(other)) => cloned::<T>(text, other),
        (LiNo::Link { id, values }, LiNo::Link { id: other_id, values: other_values }) => {
            &&& match (id, other_id) {
                (Some(label), Some(other)) => cloned::<T>(label, other),
                (None, None) => true,
                _ => false,
            }
            &&& values@.len() == other_values@.len()
            &&& forall|k: int|
                0 <= k < values@.len() ==> cloned_tree(values@[k], #[trigger] other_values@[k])
        },
        _ => false,
    }
}

impl<T: Clone> Clone for LiNo<T> {
    #[verifier::loop_isolation(false)]
    fn clone(&self) -> (copy: Self)
        ensures
            cloned_tree(*self, copy),
        decreases self,
    {
        match self {
            LiNo::Ref(text) => LiNo::Ref(text.clone()),
            LiNo::Link { id, values } => {
                let mut out: Vec<LiNo<T>> = Vec::new();
                let mut i: usize = 0;
                while i < values.len()
                    invariant
                        i <= values.len(),
                        out@.len() == i,
                        forall|k: int| 0 <= k < i ==> cloned_tree(values@[k], #[trigger] out@[k]),
                    decreases values.len() - i,
                {
                    out.push(values[i].clone());
                    i += 1;
                }
                LiNo::Link { id: id.clone(), values: out }
            },
        }
    }
}

/// The value of a tree of strings.
pub open spec fn notation_of(tree: LiNo<String>) -> Notation
    decreases tree,
{
    match tree {
        LiNo::Ref(text) => Notation::Ref(text@),
        LiNo::Link { id, values } => Notation::Link {
            id: view_text(id),
            values: Seq::new(
                values@.len(),
                |i: int|
                    if 0 <= i < values@.len() {
                        notation_of(values@[i])
                    } else {
                        arbitrary()
                    },
            ),
        },
    }
}

impl View for LiNo<String> {
    type V = Notation;

    open spec fn view(&self) -> Notation {
        notation_of(*self)
    }
}

/// The values of a sequence of trees, one by one.
pub open spec fn view_trees(trees: Seq<LiNo<String>>) -> Seq<Notation> {
    Seq::new(trees.len(), |i: int| trees[i]@)
}

/// The value of a link is made of its label and of the values of its parts.
pub proof fn lemma_view_link(id: Option<String>, values: Vec<LiNo<String>>)
    ensures
        (LiNo::Link { id, values })@ == (Notation::Link {
            id: view_text(id),
            values: view_trees(values@),
        }),
{
    assert((LiNo::Link { id, values })@->values =~= view_trees(values@));
}

/// A clone of a tree of strings has the value of the tree.
pub proof fn lemma_cloned_tree_view(tree: LiNo<String>, copy: LiNo<String>)
    requires
        cloned_tree(tree, copy),
    ensures
        copy@ == tree@,
    decreases tree,
{
    match (tree, copy) {
        (LiNo::Link { id, values }, LiNo::Link { id: other_id, values: other_values }) => {
            assert forall|k: int| 0 <= k < values@.len() implies other_values@[k]@
                == values@[k]@ by {
                lemma_cloned_tree_view(values@[k], other_values@[k]);
            }
            lemma_view_link(id, values);
            lemma_view_link(other_id, other_values);
            assert(view_trees(other_values@) =~= view_trees(values@));
        },
        _ => {},
    }
}

/// Appending a tree to a sequence of trees appends its value.
pub proof fn lemma_view_trees_push(trees: Seq<LiNo<String>>, tree: LiNo<String>)
    ensures
        view_trees(trees.push(tree)) == view_trees(trees).push(tree@),
{
    assert(view_trees(trees.push(tree)) =~= view_trees(trees).push(tree@));
}

/// `parts`, with `sep` between each two of them.
pub open spec fn join(parts: Seq<Seq<char>>, sep: Seq<char>) -> Seq<char>
    decreases parts.len(),
{
    if parts.len() == 0 {
        Seq::empty()
    } else if parts.len() == 1 {
        parts[0]
    } else {
        join(parts.drop_last(), sep) + sep + parts.last()
    }
}

/// A label as it stands before the values: the label, a colon and a space;
/// nothing where there is no label.
pub open spec fn label_prefix(id: Option<Seq<char>>) -> Seq<char> {
    match id {
        Some(text) => text + seq![':', ' '],
        None => Seq::empty(),
    }
}

/// The compact form of each of `values`.
pub open spec fn compact_parts(values: Seq<Notation>) -> Seq<Seq<char>>
    decreases values, 0int,
{
    Seq::new(
        values.len(),
        |i: int|
            if 0 <= i < values.len() {
                spec_format_compact(values[i])
            } else {
                Seq::empty()
            },
    )
}

/// The compact form of a tree, on one line: a reference as it is; a link as
/// `(`, its label with `: ` where it has one, its values in compact form with
/// one space between them, and `)`.
pub open spec fn spec_format_compact(tree: Notation) -> Seq<char>
    decreases tree, 1int,
{
    match tree {
        Notation::Ref(text) => text,
        Notation::Link { id, values } => seq!['('] + label_prefix(id) + join(
            compact_parts(values),
            seq![' '],
        ) + seq![')'],
    }
}

/// One line of the alternate form: the prefix, then the value in compact
/// form, a reference between parentheses.
pub open spec fn alternate_line(prefix: Seq<char>, value: Notation) -> Seq<char> {
    match value {
        Notation::Ref(text) => prefix + seq!['('] + text + seq![')'],
        Notation::Link { .. } => prefix + spec_format_compact(value),
    }
}

/// The alternate form of a tree: a reference as it is; a link as one line for
/// each of its values, with line feeds between them and none at the end.
pub open spec fn spec_format_alternate(tree: Notation) -> Seq<char> {
    match tree {
        Notation::Ref(text) => text,
        Notation::Link { id, values } => join(
            Seq::new(values.len(), |i: int| alternate_line(label_prefix(id), values[i])),
            seq!['\n'],
        ),
    }
}

/// `join` of one part more.
pub proof fn lemma_join_push(parts: Seq<Seq<char>>, sep: Seq<char>, part: Seq<char>)
    ensures
        join(parts.push(part), sep) == if parts.len() == 0 {
            part
        } else {
            join(parts, sep) + sep + part
        },
{
    assert(parts.push(part).drop_last() =~= parts);
}

impl LiNo<String> {
    /// Appends the compact form of the tree to `out`.
    #[verifier::loop_isolation(false)]
    pub fn write_compact(&self, out: &mut String)
        ensures
            final(out)@ == old(out)@ + spec_format_compact(self@),
        decreases self,
    {
        match self {
            LiNo::Ref(text) => {
                out.append(text.as_str());
            },
            LiNo::Link { id, values } => {
                proof {
                    lemma_view_link(*id, *values);
                }
                let ghost parts = compact_parts(self@->values);
                out.push('(');
                match id {
                    Some(text) => {
                        out.append(text.as_str());
                        out.push(':');
                        out.push(' ');
                    },
                    None => {},
                }
                let ghost head = old(out)@ + seq!['('] + label_prefix(self@->id);
                assert(out@ =~= head);
                let mut i: usize = 0;
                while i < values.len()
                    invariant
                        i <= values.len(),
                        out@ == head + join(parts.take(i as int), seq![' ']),
                    decreases values.len() - i,
                {
                    if i > 0 {
                        out.push(' ');
                    }
                    let ghost before = out@;
                    values[i].write_compact(out);
                    proof {
                        lemma_join_push(parts.take(i as int), seq![' '], parts[i as int]);
                        assert(parts.take(i as int).push(parts[i as int]) =~= parts.take(i + 1));
                        assert(parts[i as int] == spec_format_compact(values[i as int]@));
                        assert(out@ =~= head + join(parts.take(i + 1), seq![' ']));
                    }
                    i += 1;
                }
                assert(parts.take(i as int) =~= parts);
                out.push(')');
                assert(out@ =~= old(out)@ + spec_format_compact(self@));
            },
        }
    }

    /// The compact form of the tree.
    pub fn format_compact(&self) -> (text: String)
        ensures
            text@ == spec_format_compact(self@),
    {
        let mut text = String::new();
        self.write_compact(&mut text);
        assert(text@ =~= spec_format_compact(self@));
        text
    }

    /// The tree as text: its compact form.
    pub fn to_string(&self) -> (text: String)
        ensures
            text@ == spec_format_compact(self@),
    {
        self.format_compact()
    }

    /// The alternate form of the tree: its values line by line.
    pub fn format_alternate(&self) -> (text: String)
        ensures
            text@ == spec_format_alternate(self@),
    {
        match self {
            LiNo::Ref(value) => value.clone(),
            LiNo::Link { id, values } => {
                proof {
                    lemma_view_link(*id, *values);
                }
                let ghost prefix = label_prefix(self@->id);
                let ghost lines = Seq::new(
                    self@->values.len(),
                    |i: int| alternate_line(prefix, self@->values[i]),
                );
                let mut text = String::new();
                let mut i: usize = 0;
                assert(lines.take(0) =~= Seq::empty());
                while i < values.len()
                    invariant
                        i <= values.len(),
                        self@->values == view_trees(values@),
                        prefix == label_prefix(view_text(*id)),
                        lines == Seq::new(
                            self@->values.len(),
                            |i: int| alternate_line(prefix, self@->values[i]),
                        ),
                        text@ == join(lines.take(i as int), seq!['\n']),
                    decreases values.len() - i,
                {
                    if i > 0 {
                        text.push('\n');
                    }
                    let ghost before = text@;
                    match id {
                        Some(label) => {
                            text.append(label.as_str());
                            text.push(':');
                            text.push(' ');
                        },
                        None => {},
                    }
                    assert(text@ =~= before + prefix);
                    match &values[i] {
                        LiNo::Ref(reference) => {
                            text.push('(');
                            text.append(reference.as_str());
                            text.push(')');
                        },
                        LiNo::Link { .. } => {
                            values[i].write_compact(&mut text);
                        },
                    }
                    proof {
                        assert(text@ =~= before + lines[i as int]);
                        lemma_join_push(lines.take(i as int), seq!['\n'], lines[i as int]);
                        assert(lines.take(i as int).push(lines[i as int]) =~= lines.take(i + 1));
                        assert(text@ =~= join(lines.take(i + 1), seq!['\n']));
                    }
                    i += 1;
                }
                assert(lines.take(i as int) =~= lines);
                text
            },
        }
    }
}

} // verus!
