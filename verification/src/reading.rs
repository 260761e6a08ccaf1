//! Lemmas on reading text that was written: how the grammar reads the
//! compact form of a tree and the lines of the alternate form.

use crate::flatten::{
    spec_combine, spec_convert, spec_current, spec_flatten_children, spec_flatten_link,
    spec_flatten_links, without_children,
};
use crate::grammar::{
    elide_singlet, lemma_element_bounds, spec_any_link, spec_count_indentation, spec_element,
    spec_indented_id_link, spec_lines, spec_links, spec_multi_line_any_link, spec_multi_line_items,
    spec_multi_line_link, spec_multi_line_value_link, spec_multi_line_values,
    spec_reference_or_link, spec_single_line_any_link, spec_single_line_items,
    spec_single_line_link, spec_single_line_values, RawLink,
};
use crate::laws::{is_plain, is_written_value};
use crate::lexer::{
    lemma_reference_bounds, lemma_run_end, lemma_run_end_unique, run_end, spec_eol,
    spec_is_reference_char, spec_is_whitespace_char, spec_quoted_reference, spec_reference,
    CharClass,
};
use crate::notation::{
    alternate_line, compact_parts, join, label_prefix, spec_format_compact, Notation,
};
use vstd::prelude::*;

verus! {

/// Where no reference character stands, no value starts, unless it is an
/// opening parenthesis.
pub(crate) proof fn lemma_no_value_at(s: Seq<char>, i: int)
    requires
        0 <= i <= s.len(),
        i < s.len() ==> !spec_is_reference_char(s[i]) && s[i] != '(',
    ensures
        spec_reference(s, i) is None,
        spec_multi_line_any_link(s, i) is None,
        spec_reference_or_link(s, i) is None,
{
    lemma_run_end_unique(s, i, CharClass::Reference, i);
}

/// A text of reference characters that is followed by no reference character
/// is read as one bare reference, where a quote at its start has no pair later
/// in the input.
pub(crate) proof fn lemma_bare_reference_reads(s: Seq<char>, i: int, x: Seq<char>)
    requires
        0 <= i,
        i + x.len() <= s.len(),
        s.subrange(i, i + x.len()) == x,
        x.len() > 0,
        forall|k: int| 0 <= k < x.len() ==> spec_is_reference_char(#[trigger] x[k]),
        i + x.len() < s.len() ==> !spec_is_reference_char(s[i + x.len()]),
        (x[0] == '"' || x[0] == '\'') ==> forall|k: int|
            i < k < s.len() ==> #[trigger] s[k] != x[0],
    ensures
        spec_reference(s, i) == Some((x, i + x.len())),
        spec_multi_line_any_link(s, i) is None,
        spec_reference_or_link(s, i) == Some((RawLink::singlet(x), i + x.len())),
{
    assert(s[i] == x[0]);
    assert forall|k: int| i <= k < i + x.len() implies CharClass::Reference.spec_admits(
        #[trigger] s[k],
    ) by {
        assert(s[k] == x[k - i]);
    }
    lemma_run_end_unique(s, i, CharClass::Reference, i + x.len());
    if s[i] == '"' {
        lemma_run_end_unique(s, i + 1, CharClass::Until('"'), s.len() as int);
    }
    if s[i] == '\'' {
        lemma_run_end_unique(s, i + 1, CharClass::Until('\''), s.len() as int);
    }
}

/// `c` stands in `s` at position `i`.
pub open spec fn occurs_at(s: Seq<char>, i: int, c: Seq<char>) -> bool {
    &&& 0 <= i
    &&& i + c.len() <= s.len()
    &&& forall|k: int| 0 <= k < c.len() ==> s[i + k] == #[trigger] c[k]
}

/// Where two texts stand one behind the other, each stands at its place.
pub(crate) proof fn lemma_occurs_split(s: Seq<char>, i: int, a: Seq<char>, b: Seq<char>)
    requires
        occurs_at(s, i, a + b),
    ensures
        occurs_at(s, i, a),
        occurs_at(s, i + a.len(), b),
{
    let c = a + b;
    assert forall|k: int| 0 <= k < a.len() implies s[i + k] == #[trigger] a[k] by {
        assert(c[k] == a[k]);
    }
    assert forall|k: int| 0 <= k < b.len() implies s[i + a.len() + k] == #[trigger] b[k] by {
        assert(c[a.len() + k] == b[k]);
    }
}

/// A text that stands in `s` is the part of `s` at its place.
pub(crate) proof fn lemma_occurs_subrange(s: Seq<char>, i: int, c: Seq<char>)
    requires
        occurs_at(s, i, c),
    ensures
        s.subrange(i, i + c.len()) == c,
{
    assert forall|k: int| 0 <= k < c.len() implies s.subrange(i, i + c.len())[k] == c[k] by {
        assert(s[i + k] == c[k]);
    }
    assert(s.subrange(i, i + c.len()) =~= c);
}

/// `parts` from the `from`-th on, with `sep` between each two of them.
pub open spec fn join_from(parts: Seq<Seq<char>>, sep: Seq<char>, from: int) -> Seq<char>
    decreases parts.len() - from,
{
    if from < 0 || from >= parts.len() {
        Seq::empty()
    } else if from == parts.len() - 1 {
        parts[from]
    } else {
        parts[from] + sep + join_from(parts, sep, from + 1)
    }
}

/// Leaving out the last part leaves out the last separator and the last part.
pub(crate) proof fn lemma_join_from_drop_last(parts: Seq<Seq<char>>, sep: Seq<char>, from: int)
    requires
        0 <= from,
        from + 1 < parts.len(),
    ensures
        join_from(parts, sep, from) == join_from(parts.drop_last(), sep, from) + sep + parts.last(),
    decreases parts.len() - from,
{
    let shorter = parts.drop_last();
    if from + 2 == parts.len() {
        assert(join_from(parts, sep, from + 1) == parts.last());
        assert(join_from(shorter, sep, from) == parts[from]);
    } else {
        lemma_join_from_drop_last(parts, sep, from + 1);
        assert(join_from(shorter, sep, from) == shorter[from] + sep + join_from(
            shorter,
            sep,
            from + 1,
        ));
        assert(parts[from] + sep + (join_from(shorter, sep, from + 1) + sep + parts.last())
            =~= (parts[from] + sep + join_from(shorter, sep, from + 1)) + sep + parts.last());
    }
}

/// Joining may start at either end.
pub(crate) proof fn lemma_join_is_join_from(parts: Seq<Seq<char>>, sep: Seq<char>)
    ensures
        join(parts, sep) == join_from(parts, sep, 0),
    decreases parts.len(),
{
    if parts.len() >= 2 {
        lemma_join_is_join_from(parts.drop_last(), sep);
        lemma_join_from_drop_last(parts, sep, 0);
    }
}

/// The raw link that the compact form of a tree is read as.
pub open spec fn spec_raw_of(tree: Notation) -> RawLink
    decreases tree,
{
    match tree {
        Notation::Ref(text) => RawLink::singlet(text),
        Notation::Link { id, values } => RawLink::link(
            id,
            Seq::new(
                values.len(),
                |k: int|
                    if 0 <= k < values.len() {
                        spec_raw_of(values[k])
                    } else {
                        arbitrary()
                    },
            ),
        ),
    }
}

/// The raw links that the compact forms of trees are read as.
pub open spec fn spec_raws_of(trees: Seq<Notation>) -> Seq<RawLink> {
    Seq::new(trees.len(), |k: int| spec_raw_of(trees[k]))
}

/// The raw link of a link holds the raw links of its values.
pub(crate) proof fn lemma_raw_of_link(id: Option<Seq<char>>, values: Seq<Notation>)
    ensures
        spec_raw_of(Notation::Link { id, values }) == RawLink::link(id, spec_raws_of(values)),
{
    assert(spec_raw_of(Notation::Link { id, values }).values =~= spec_raws_of(values));
}

/// The compact form of a tree that is read back starts with an opening
/// parenthesis or with a reference character that is no quote.
pub(crate) proof fn lemma_compact_starts(tree: Notation)
    requires
        is_written_value(tree),
    ensures
        spec_format_compact(tree).len() > 0,
        spec_format_compact(tree)[0] == '(' || (spec_is_reference_char(
            spec_format_compact(tree)[0],
        ) && spec_format_compact(tree)[0] != '"' && spec_format_compact(tree)[0] != '\''),
        tree is Link ==> spec_format_compact(tree)[0] == '(',
{
    match tree {
        Notation::Ref(text) => {},
        Notation::Link { id, values } => {
            let rest = label_prefix(id) + join(compact_parts(values), seq![' ']) + seq![')'];
            assert(spec_format_compact(tree) =~= seq!['('] + rest);
        },
    }
}

/// Where no reference character stands, no reference starts.
pub(crate) proof fn lemma_no_reference_at(s: Seq<char>, i: int)
    requires
        0 <= i <= s.len(),
        i < s.len() ==> !spec_is_reference_char(s[i]),
    ensures
        spec_reference(s, i) is None,
{
    lemma_run_end_unique(s, i, CharClass::Reference, i);
}

/// No blanks stand where a character that is no blank stands.
pub(crate) proof fn lemma_no_blank_at(s: Seq<char>, i: int)
    requires
        0 <= i <= s.len(),
        i < s.len() ==> !spec_is_whitespace_char(s[i]),
    ensures
        run_end(s, i, CharClass::Blank) == i,
        run_end(s, i, CharClass::Horizontal) == i,
        run_end(s, i, CharClass::Indent) == i,
{
    lemma_run_end_unique(s, i, CharClass::Blank, i);
    lemma_run_end_unique(s, i, CharClass::Horizontal, i);
    lemma_run_end_unique(s, i, CharClass::Indent, i);
}

/// The values of a group, written in compact form with one space between
/// them and a closing parenthesis behind them, are read as their raw links.
pub(crate) proof fn lemma_values_read(s: Seq<char>, p: int, values: Seq<Notation>, k: int)
    requires
        0 <= k <= values.len(),
        forall|j: int| 0 <= j < values.len() ==> is_written_value(#[trigger] values[j]),
        occurs_at(s, p, join_from(compact_parts(values), seq![' '], k)),
        p + join_from(compact_parts(values), seq![' '], k).len() < s.len(),
        s[p + join_from(compact_parts(values), seq![' '], k).len()] == ')',
    ensures
        spec_multi_line_items(s, p) == (
            spec_raws_of(values).skip(k),
            p + join_from(compact_parts(values), seq![' '], k).len(),
        ),
    decreases values, values.len() - k,
{
    let parts = compact_parts(values);
    let sep = seq![' '];
    let text = join_from(parts, sep, k);
    if k == values.len() {
        lemma_no_value_at(s, p);
        assert(spec_raws_of(values).skip(k) =~= Seq::empty());
    } else {
        let value = values[k];
        let c = spec_format_compact(value);
        assert(parts[k] == c);
        lemma_compact_starts(value);
        if k == values.len() - 1 {
            assert(text == c);
            lemma_value_reads(s, p, value);
            lemma_no_blank_at(s, p + c.len());
            assert(join_from(parts, sep, k + 1) =~= Seq::empty());
            lemma_values_read(s, p + c.len(), values, k + 1);
            assert(seq![spec_raw_of(value)] + spec_raws_of(values).skip(k + 1) =~= spec_raws_of(
                values,
            ).skip(k));
        } else {
            let rest = join_from(parts, sep, k + 1);
            assert(text == c + sep + rest);
            lemma_occurs_split(s, p, c + sep, rest);
            lemma_occurs_split(s, p, c, sep);
            assert(s[p + c.len() + 0] == sep[0]);
            lemma_value_reads(s, p, value);
            let following = values[k + 1];
            lemma_compact_starts(following);
            assert(parts[k + 1] == spec_format_compact(following));
            assert(rest.len() > 0 && rest[0] == parts[k + 1][0]) by {
                if k + 1 == values.len() - 1 {
                } else {
                    assert(rest == parts[k + 1] + sep + join_from(parts, sep, k + 2));
                }
            }
            assert(s[p + c.len() + 1 + 0] == rest[0]);
            lemma_run_end_unique(s, p + c.len(), CharClass::Blank, p + c.len() + 1);
            lemma_values_read(s, p + c.len() + 1, values, k + 1);
            assert(seq![spec_raw_of(value)] + spec_raws_of(values).skip(k + 1) =~= spec_raws_of(
                values,
            ).skip(k));
        }
    }
}

/// A label between an opening parenthesis and a colon, then a space, values
/// and a closing parenthesis, are read as a labelled link.
pub(crate) proof fn lemma_labelled_group_reads(
    s: Seq<char>,
    i: int,
    label: Seq<char>,
    values: Seq<RawLink>,
    end: int,
)
    requires
        0 <= i,
        is_plain(label),
        occurs_at(s, i, seq!['('] + label + seq![':', ' ']),
        i + label.len() + 3 <= end < s.len(),
        !spec_is_whitespace_char(s[i + label.len() + 3]),
        spec_multi_line_items(s, i + label.len() + 3) == (values, end),
        s[end] == ')',
    ensures
        spec_multi_line_link(s, i) == Some((RawLink::link(Some(label), values), end + 1)),
{
    let mark = seq![':', ' '];
    let open = seq!['('];
    lemma_occurs_split(s, i, open + label, mark);
    lemma_occurs_split(s, i, open, label);
    lemma_occurs_subrange(s, i + 1, label);
    let after_label = i + 1 + label.len();
    assert(s[i + 0] == open[0]);
    assert(s[after_label + 0] == mark[0]);
    assert(s[after_label + 1] == mark[1]);
    assert(s[i + 1 + 0] == label[0]);
    lemma_no_blank_at(s, i + 1);
    lemma_bare_reference_reads(s, i + 1, label);
    lemma_no_blank_at(s, after_label);
    lemma_run_end_unique(s, after_label + 1, CharClass::Blank, after_label + 2);
    assert(spec_multi_line_values(s, after_label + 1) == spec_multi_line_items(
        s,
        after_label + 2,
    ));
    lemma_no_blank_at(s, end);
}

/// Values between parentheses, where no label stands before them, are read
/// as a group.
pub(crate) proof fn lemma_plain_group_reads(s: Seq<char>, i: int, values: Seq<RawLink>, end: int)
    requires
        0 <= i < end < s.len(),
        s[i] == '(',
        !spec_is_whitespace_char(s[i + 1]),
        spec_multi_line_link(s, i) is None,
        spec_multi_line_items(s, i + 1) == (values, end),
        s[end] == ')',
    ensures
        spec_multi_line_value_link(s, i) == Some((elide_singlet(values), end + 1)),
        spec_multi_line_any_link(s, i) == Some((elide_singlet(values), end + 1)),
{
    lemma_no_blank_at(s, i + 1);
    assert(spec_multi_line_values(s, i + 1) == spec_multi_line_items(s, i + 1));
    lemma_no_blank_at(s, end);
}

/// A reference behind an opening parenthesis is no label where a space and
/// then something other than a colon follow it.
pub(crate) proof fn lemma_first_value_is_no_label(s: Seq<char>, i: int, text: Seq<char>)
    requires
        0 <= i,
        i + text.len() + 3 <= s.len(),
        s[i] == '(',
        is_plain(text),
        occurs_at(s, i + 1, text),
        s[i + 1 + text.len()] == ' ',
        !spec_is_whitespace_char(s[i + text.len() + 2]),
        s[i + text.len() + 2] != ':',
    ensures
        spec_multi_line_link(s, i) is None,
{
    lemma_occurs_subrange(s, i + 1, text);
    assert(s[i + 1 + 0] == text[0]);
    lemma_no_blank_at(s, i + 1);
    lemma_bare_reference_reads(s, i + 1, text);
    lemma_run_end_unique(s, i + 1 + text.len(), CharClass::Blank, i + text.len() + 2);
}

/// The first character of parts joined from the `from`-th on is the first
/// character of that part.
pub(crate) proof fn lemma_join_from_starts(parts: Seq<Seq<char>>, sep: Seq<char>, from: int)
    requires
        0 <= from < parts.len(),
        parts[from].len() > 0,
    ensures
        join_from(parts, sep, from).len() >= parts[from].len(),
        join_from(parts, sep, from)[0] == parts[from][0],
        from + 1 < parts.len() ==> join_from(parts, sep, from) == parts[from] + sep + join_from(
            parts,
            sep,
            from + 1,
        ),
        from + 1 == parts.len() ==> join_from(parts, sep, from) == parts[from],
{
}

/// Reading the compact form of a link without a label.
pub(crate) proof fn lemma_unlabelled_reads(s: Seq<char>, i: int, values: Seq<Notation>)
    requires
        is_written_value(Notation::Link { id: None, values }),
        occurs_at(s, i, spec_format_compact(Notation::Link { id: None, values })),
        spec_multi_line_items(s, i + 1) == (
            spec_raws_of(values),
            i + 1 + join(compact_parts(values), seq![' ']).len(),
        ),
    ensures
        spec_multi_line_any_link(s, i) == Some(
            (
                spec_raw_of(Notation::Link { id: None, values }),
                i + spec_format_compact(Notation::Link { id: None, values }).len(),
            ),
        ),
{
    let tree = Notation::Link { id: None, values };
    let parts = compact_parts(values);
    let sep = seq![' '];
    let body = join(parts, sep);
    let c = spec_format_compact(tree);
    let open = seq!['('];
    let close = seq![')'];
    assert(label_prefix(None) =~= Seq::<char>::empty());
    assert(c =~= open + body + close);
    lemma_join_is_join_from(parts, sep);
    lemma_occurs_split(s, i, open + body, close);
    lemma_occurs_split(s, i, open, body);
    assert(s[i + 0] == open[0]);
    let end = i + 1 + body.len();
    assert(s[end + 0] == close[0]);
    lemma_raw_of_link(None, values);
    if values.len() == 0 {
        lemma_no_reference_at(s, i + 1);
    } else {
        let first = values[0];
        assert(is_written_value(first));
        lemma_compact_starts(first);
        assert(parts[0] == spec_format_compact(first));
        lemma_join_from_starts(parts, sep, 0);
        assert(s[i + 1 + 0] == body[0]);
        match first {
            Notation::Ref(text) => {
                assert(values.len() >= 2);
                let rest = join_from(parts, sep, 1);
                lemma_occurs_split(s, i + 1, parts[0] + sep, rest);
                lemma_occurs_split(s, i + 1, parts[0], sep);
                let after_text = i + 1 + text.len();
                assert(s[after_text + 0] == sep[0]);
                assert(is_written_value(values[1]));
                lemma_compact_starts(values[1]);
                assert(parts[1] == spec_format_compact(values[1]));
                lemma_join_from_starts(parts, sep, 1);
                assert(s[after_text + 1 + 0] == rest[0]);
                lemma_first_value_is_no_label(s, i, text);
            },
            Notation::Link { .. } => {
                lemma_no_reference_at(s, i + 1);
            },
        }
    }
    assert(elide_singlet(spec_raws_of(values)) == spec_raw_of(tree)) by {
        if values.len() == 1 {
            let only = values[0];
            assert(is_written_value(only));
            assert(only is Link);
            lemma_raw_of_link(only->id, only->values);
            assert(spec_raws_of(values)[0] == spec_raw_of(only));
            assert(!spec_raws_of(values)[0].is_bare_reference());
        }
    }
    lemma_plain_group_reads(s, i, spec_raws_of(values), end);
}

/// Reading the compact form of a link with a label.
pub(crate) proof fn lemma_labelled_reads(
    s: Seq<char>,
    i: int,
    label: Seq<char>,
    values: Seq<Notation>,
)
    requires
        is_written_value(Notation::Link { id: Some(label), values }),
        occurs_at(s, i, spec_format_compact(Notation::Link { id: Some(label), values })),
        spec_multi_line_items(s, i + label.len() + 3) == (
            spec_raws_of(values),
            i + label.len() + 3 + join(compact_parts(values), seq![' ']).len(),
        ),
    ensures
        spec_multi_line_any_link(s, i) == Some(
            (
                spec_raw_of(Notation::Link { id: Some(label), values }),
                i + spec_format_compact(Notation::Link { id: Some(label), values }).len(),
            ),
        ),
{
    let tree = Notation::Link { id: Some(label), values };
    let parts = compact_parts(values);
    let sep = seq![' '];
    let body = join(parts, sep);
    let c = spec_format_compact(tree);
    let head = seq!['('] + label + seq![':', ' '];
    let close = seq![')'];
    assert(c =~= head + body + close);
    lemma_join_is_join_from(parts, sep);
    lemma_occurs_split(s, i, head + body, close);
    lemma_occurs_split(s, i, head, body);
    let inner = i + label.len() + 3;
    let end = inner + body.len();
    assert(s[end + 0] == close[0]);
    lemma_raw_of_link(Some(label), values);
    let first = values[0];
    assert(is_written_value(first));
    lemma_compact_starts(first);
    assert(parts[0] == spec_format_compact(first));
    lemma_join_from_starts(parts, sep, 0);
    assert(s[inner + 0] == body[0]);
    lemma_labelled_group_reads(s, i, label, spec_raws_of(values), end);
}

/// The compact form of a tree, followed by no reference character, is read
/// as the raw link of the tree.
pub(crate) proof fn lemma_value_reads(s: Seq<char>, i: int, tree: Notation)
    requires
        is_written_value(tree),
        occurs_at(s, i, spec_format_compact(tree)),
        i + spec_format_compact(tree).len() < s.len() ==> !spec_is_reference_char(
            s[i + spec_format_compact(tree).len()],
        ),
    ensures
        spec_reference_or_link(s, i) == Some(
            (spec_raw_of(tree), i + spec_format_compact(tree).len()),
        ),
        tree is Link ==> spec_multi_line_any_link(s, i) == Some(
            (spec_raw_of(tree), i + spec_format_compact(tree).len()),
        ),
    decreases tree, 0int,
{
    match tree {
        Notation::Ref(text) => {
            lemma_occurs_subrange(s, i, text);
            lemma_bare_reference_reads(s, i, text);
        },
        Notation::Link { id, values } => {
            let parts = compact_parts(values);
            let sep = seq![' '];
            let prefix = label_prefix(id);
            let body = join(parts, sep);
            let c = spec_format_compact(tree);
            let close = seq![')'];
            assert(c == seq!['('] + prefix + body + close);
            lemma_join_is_join_from(parts, sep);
            lemma_occurs_split(s, i, seq!['('] + prefix + body, close);
            lemma_occurs_split(s, i, seq!['('] + prefix, body);
            let inner = i + 1 + prefix.len();
            assert(s[inner + body.len() + 0] == close[0]);
            lemma_values_read(s, inner, values, 0);
            assert(spec_raws_of(values).skip(0) =~= spec_raws_of(values));
            match id {
                Some(label) => {
                    lemma_labelled_reads(s, i, label, values);
                },
                None => {
                    assert(prefix =~= Seq::<char>::empty());
                    lemma_unlabelled_reads(s, i, values);
                },
            }
        },
    }
}

/// A reference between parentheses is read as the reference, where a quote
/// at its start has no pair later in the input.
pub(crate) proof fn lemma_reference_line_reads(s: Seq<char>, i: int, text: Seq<char>)
    requires
        occurs_at(s, i, seq!['('] + text + seq![')']),
        text.len() > 0,
        forall|k: int| 0 <= k < text.len() ==> spec_is_reference_char(#[trigger] text[k]),
        (text[0] == '"' || text[0] == '\'') ==> forall|k: int|
            i + 1 < k < s.len() ==> #[trigger] s[k] != text[0],
    ensures
        spec_multi_line_any_link(s, i) == Some((RawLink::singlet(text), i + text.len() + 2)),
{
    let open = seq!['('];
    let close = seq![')'];
    lemma_occurs_split(s, i, open + text, close);
    lemma_occurs_split(s, i, open, text);
    lemma_occurs_subrange(s, i + 1, text);
    let end = i + 1 + text.len();
    assert(s[i + 0] == open[0]);
    assert(s[end + 0] == close[0]);
    assert(s[i + 1 + 0] == text[0]);
    lemma_no_blank_at(s, i + 1);
    lemma_bare_reference_reads(s, i + 1, text);
    lemma_no_blank_at(s, end);
    lemma_no_value_at(s, end);
    assert(spec_multi_line_items(s, end) == (Seq::<RawLink>::empty(), end));
    let values = seq![RawLink::singlet(text)];
    assert(seq![RawLink::singlet(text)] + Seq::<RawLink>::empty() =~= values);
    assert(spec_multi_line_items(s, i + 1) == (values, end));
    assert(spec_multi_line_link(s, i) is None);
    lemma_plain_group_reads(s, i, values, end);
}

/// At the end of the input nothing is read.
pub(crate) proof fn lemma_nothing_at_end(s: Seq<char>, top: nat)
    ensures
        spec_any_link(s, s.len() as int) is None,
        spec_element(s, s.len() as int, top) is None,
        spec_lines(s, s.len() as int, top) == (Seq::<RawLink>::empty(), s.len() as int),
{
    let end = s.len() as int;
    lemma_no_value_at(s, end);
    lemma_no_blank_at(s, end);
    assert(spec_single_line_items(s, end) == (Seq::<RawLink>::empty(), end));
    assert(spec_single_line_values(s, end) is None);
    assert(spec_single_line_link(s, end) is None);
    assert(spec_indented_id_link(s, end) is None);
    assert(spec_single_line_any_link(s, end) is None);
    assert(spec_any_link(s, end) is None);
}

/// What a tree that is read back is written as on a line of its own in the
/// alternate form.
pub open spec fn written_line(entry: Notation) -> Seq<char> {
    alternate_line(Seq::empty(), entry)
}

/// The lines of entries in the alternate form.
pub open spec fn written_lines(entries: Seq<Notation>) -> Seq<Seq<char>> {
    Seq::new(entries.len(), |k: int| written_line(entries[k]))
}

/// A line of the alternate form starts with an opening parenthesis.
pub(crate) proof fn lemma_written_line_starts(entry: Notation)
    requires
        is_written_value(entry),
    ensures
        written_line(entry).len() > 0,
        written_line(entry)[0] == '(',
{
    match entry {
        Notation::Ref(text) => {
            assert(written_line(entry) =~= seq!['('] + (text + seq![')']));
        },
        Notation::Link { .. } => {
            lemma_compact_starts(entry);
            assert(written_line(entry) =~= spec_format_compact(entry));
        },
    }
}

/// A line of the alternate form, up to the end of the line, is read as the
/// element that it was written from, without children.
pub(crate) proof fn lemma_line_reads(s: Seq<char>, i: int, entry: Notation, top: nat)
    requires
        is_written_value(entry),
        occurs_at(s, i, written_line(entry)),
        i + written_line(entry).len() < s.len() ==> {
            &&& s[i + written_line(entry).len()] == '\n'
            &&& i + written_line(entry).len() + 1 < s.len()
            &&& s[i + written_line(entry).len() + 1] == '('
        },
    ensures
        spec_element(s, i, top) == Some(
            (
                spec_raw_of(entry),
                if i + written_line(entry).len() < s.len() {
                    i + written_line(entry).len() + 1
                } else {
                    s.len() as int
                },
            ),
        ),
{
    let line = written_line(entry);
    let end = i + line.len();
    match entry {
        Notation::Ref(text) => {
            assert(line =~= seq!['('] + text + seq![')']);
            lemma_reference_line_reads(s, i, text);
        },
        Notation::Link { .. } => {
            assert(line =~= spec_format_compact(entry));
            lemma_value_reads(s, i, entry);
        },
    }
    assert(spec_multi_line_any_link(s, i) == Some((spec_raw_of(entry), end)));
    lemma_run_end_unique(s, end, CharClass::Horizontal, end);
    let next = if end < s.len() {
        end + 1
    } else {
        end
    };
    assert(spec_eol(s, end) == Some(next));
    assert(spec_any_link(s, i) == Some((spec_raw_of(entry), next)));
    lemma_no_blank_at(s, next);
    assert(spec_count_indentation(s, next) == 0);
}

/// The lines of the alternate form from the `from`-th on, which end the
/// input, are read as the elements of one block.
pub(crate) proof fn lemma_lines_read(s: Seq<char>, p: int, entries: Seq<Notation>, from: int)
    requires
        0 <= from <= entries.len(),
        forall|k: int| 0 <= k < entries.len() ==> is_written_value(#[trigger] entries[k]),
        occurs_at(s, p, join_from(written_lines(entries), seq!['\n'], from)),
        p + join_from(written_lines(entries), seq!['\n'], from).len() == s.len(),
    ensures
        spec_lines(s, p, 0) == (spec_raws_of(entries).skip(from), s.len() as int),
    decreases entries.len() - from,
{
    let lines = written_lines(entries);
    let sep = seq!['\n'];
    if from == entries.len() {
        lemma_nothing_at_end(s, 0);
        assert(spec_raws_of(entries).skip(from) =~= Seq::empty());
    } else {
        let entry = entries[from];
        let line = written_line(entry);
        assert(lines[from] == line);
        lemma_written_line_starts(entry);
        lemma_join_from_starts(lines, sep, from);
        assert(s[p + 0] == join_from(lines, sep, from)[0]);
        lemma_no_blank_at(s, p);
        if from + 1 == entries.len() {
            lemma_line_reads(s, p, entry, 0);
            lemma_nothing_at_end(s, 0);
        } else {
            let rest = join_from(lines, sep, from + 1);
            lemma_occurs_split(s, p, line + sep, rest);
            lemma_occurs_split(s, p, line, sep);
            assert(s[p + line.len() + 0] == sep[0]);
            let following = entries[from + 1];
            assert(lines[from + 1] == written_line(following));
            lemma_written_line_starts(following);
            lemma_join_from_starts(lines, sep, from + 1);
            assert(s[p + line.len() + 1 + 0] == rest[0]);
            lemma_line_reads(s, p, entry, 0);
            lemma_lines_read(s, p + line.len() + 1, entries, from + 1);
        }
        assert(seq![spec_raw_of(entry)] + spec_raws_of(entries).skip(from + 1) =~= spec_raws_of(
            entries,
        ).skip(from));
    }
}

/// The raw link of a tree that is read back converts to the tree.
pub(crate) proof fn lemma_convert_raw_of(tree: Notation)
    requires
        is_written_value(tree),
    ensures
        spec_convert(spec_raw_of(tree)) == tree,
        without_children(spec_raw_of(tree)) == spec_raw_of(tree),
        spec_current(spec_raw_of(tree)) == tree,
        spec_flatten_link(spec_raw_of(tree), None) == seq![tree],
    decreases tree,
{
    let raw = spec_raw_of(tree);
    match tree {
        Notation::Ref(text) => {},
        Notation::Link { id, values } => {
            lemma_raw_of_link(id, values);
            assert forall|k: int| 0 <= k < values.len() implies spec_convert(
                #[trigger] raw.values[k],
            ) == values[k] && spec_convert(without_children(raw.values[k])) == values[k] by {
                assert(is_written_value(values[k]));
                lemma_convert_raw_of(values[k]);
            }
            assert(raw.values.len() == values.len());
            assert(raw.children.len() == 0);
            if values.len() > 0 {
                assert(spec_convert(raw) is Link);
                assert(spec_convert(raw)->values =~= values);
                assert(spec_current(raw)->values =~= values);
            } else {
                assert(id is None);
                assert(values =~= Seq::empty());
            }
        },
    }
    assert(raw.children.len() == 0);
    assert(!raw.is_indented_id);
    assert(spec_combine(None, spec_current(raw)) == spec_current(raw));
    assert(spec_flatten_children(raw, 0, Some(tree)) =~= Seq::<Notation>::empty());
    assert(seq![tree] + Seq::<Notation>::empty() =~= seq![tree]);
}

/// The raw links of trees that are read back flatten to the trees.
pub(crate) proof fn lemma_flatten_raws_of(entries: Seq<Notation>)
    requires
        forall|k: int| 0 <= k < entries.len() ==> is_written_value(#[trigger] entries[k]),
    ensures
        spec_flatten_links(spec_raws_of(entries)) == entries,
    decreases entries.len(),
{
    let raws = spec_raws_of(entries);
    if entries.len() == 0 {
        assert(entries =~= Seq::empty());
    } else {
        let shorter = entries.drop_last();
        assert(raws.drop_last() =~= spec_raws_of(shorter));
        assert forall|k: int| 0 <= k < shorter.len() implies is_written_value(
            #[trigger] shorter[k],
        ) by {
            assert(shorter[k] == entries[k]);
        }
        lemma_flatten_raws_of(shorter);
        assert(is_written_value(entries[entries.len() - 1]));
        lemma_convert_raw_of(entries.last());
        assert(shorter + seq![entries.last()] =~= entries);
    }
}

/// A block whose first line is not indented is the lines from its start.
pub(crate) proof fn lemma_links_are_lines(s: Seq<char>, i: int, top: nat)
    requires
        0 <= i < s.len(),
        s[i] != ' ',
        top == 0,
        spec_lines(s, i, top).0.len() > 0,
    ensures
        spec_links(s, i, top) == Some(spec_lines(s, i, top)),
{
    lemma_run_end_unique(s, i, CharClass::Indent, i);
    assert(spec_count_indentation(s, i) == 0);
    lemma_element_bounds(s, i, top);
}

/// Where a reference is read, a reference character stands, and the
/// reference ends inside the input.
pub(crate) proof fn lemma_reference_bounds_in(s: Seq<char>, i: int)
    requires
        0 <= i <= s.len(),
    ensures
        spec_reference(s, i) matches Some((_, next)) ==> i < s.len() && i < next <= s.len()
            && spec_is_reference_char(s[i]),
{
    lemma_reference_bounds(s, i);
    lemma_run_end(s, i, CharClass::Reference);
    if spec_reference(s, i) is Some && spec_quoted_reference(s, i, '"') is None
        && spec_quoted_reference(s, i, '\'') is None {
        assert(run_end(s, i, CharClass::Reference) > i);
        assert(CharClass::Reference.spec_admits(s[i]));
    }
}

} // verus!
