//! What holds of reading and writing together.
//!
//! The alternate form of a tree is read back as the tree
//! (`lemma_alternate_round_trip`), so a document without indentation and with
//! plain references is read as the same tree again after it was read and
//! written (`lemma_inline_document_round_trip`). The compact form of one
//! entry, alone in a document, is read as that entry, unless the entry is a
//! reference of nothing but white space (`lemma_entry_round_trip`,
//! `lemma_inline_document_entries_round_trip`). The compact form of a whole
//! tree puts one more pair of parentheses around its values, and is read one
//! level deeper (`lemma_compact_form_reads_one_level_deeper`) unless the tree
//! holds one reference (`lemma_compact_round_trip`): among the documents
//! without indentation and with plain references, those that are read as one
//! reference are the only ones that come back from the compact form of their
//! tree (`lemma_inline_document_compact_round_trip`).
//!
//! Two encodings of one structure have the same entries: a label with lines
//! below it flattens as its group in parentheses
//! (`lemma_indented_block_flattens_as_group`), also below a line
//! (`lemma_block_below_a_line_flattens_as_group`), and links whose children
//! flatten alike flatten alike (`lemma_children_alike_flatten_alike`).
//!
//! The other laws say what every parsed link looks like
//! (`lemma_document_elided`), what a blank document is
//! (`lemma_blank_document`), that a colon needs a label
//! (`lemma_colon_starts_no_element`,
//! `lemma_colon_in_parentheses_starts_no_link`), and that the two forms in
//! parentheses never both match
//! (`lemma_forms_in_parentheses_exclude_each_other`).

use crate::elision::{lemma_element_elided, lemma_inline_flattens, lemma_lines_elided};
use crate::flatten::{
    spec_combine, spec_current, spec_flatten_children, spec_flatten_link, spec_flatten_links,
    spec_indented_id_current,
};
use crate::grammar::{
    spec_any_link, spec_document_start, spec_element, spec_is_blank_from, spec_lines, spec_links,
    spec_multi_line_any_link, spec_multi_line_items, spec_multi_line_link,
    spec_multi_line_value_link, spec_multi_line_values, spec_parse_document, spec_reference_or_link,
    spec_indented_id_link, spec_single_line_any_link, spec_single_line_items,
    spec_single_line_link, spec_single_line_values, ParseError, RawLink,
};
use crate::lexer::{
    lemma_run_end, lemma_run_end_unique, run_end, spec_eol, spec_is_reference_char,
    spec_is_unicode_whitespace, spec_reference, CharClass,
};
use crate::notation::{
    alternate_line, compact_parts, join, label_prefix, spec_format_alternate, spec_format_compact,
    Notation,
};
use crate::reading::{
    lemma_bare_reference_reads, lemma_flatten_raws_of, lemma_join_from_starts,
    lemma_join_is_join_from, lemma_lines_read,
    lemma_links_are_lines, lemma_no_blank_at, lemma_no_reference_at, lemma_no_value_at,
    lemma_nothing_at_end, lemma_reference_bounds_in, lemma_reference_line_reads,
    lemma_written_line_starts, occurs_at, spec_raws_of, written_line, written_lines,
};
use crate::{spec_parse_lino, spec_parse_lino_to_links};
use vstd::prelude::*;

verus! {

/// A text that is read as a bare reference wherever a delimiter follows it:
/// it is not empty, holds reference characters only, and where it starts with
/// a quote, that quote does not come again in it.
pub open spec fn is_plain_reference(x: Seq<char>) -> bool {
    &&& x.len() > 0
    &&& forall|k: int| 0 <= k < x.len() ==> spec_is_reference_char(#[trigger] x[k])
    &&& (x[0] == '"' || x[0] == '\'') ==> forall|k: int|
        1 <= k < x.len() ==> #[trigger] x[k] != x[0]
}

/// A text that is read as a bare reference wherever it is written: it is not
/// empty, holds reference characters only and does not start with a quote.
pub open spec fn is_plain(x: Seq<char>) -> bool {
    &&& x.len() > 0
    &&& x[0] != '"'
    &&& x[0] != '\''
    &&& forall|k: int| 0 <= k < x.len() ==> spec_is_reference_char(#[trigger] x[k])
}

/// A tree whose compact form is read back as the tree: its references and
/// labels are plain, a label has values, and no group without a label holds
/// one reference and nothing else.
pub open spec fn is_written_value(tree: Notation) -> bool
    decreases tree,
{
    match tree {
        Notation::Ref(text) => is_plain(text),
        Notation::Link { id, values } => {
            &&& id matches Some(label) ==> is_plain(label) && values.len() > 0
            &&& !(id is None && values.len() == 1 && values[0] is Ref)
            &&& forall|k: int| 0 <= k < values.len() ==> is_written_value(#[trigger] values[k])
        },
    }
}

/// A raw link in which singlet elision has been applied throughout, and in
/// which no value has children or is a label that ended its line: the shape
/// of every link that the grammar gives.
pub open spec fn is_elided(raw: RawLink) -> bool
    decreases raw,
{
    &&& !(raw.id is None && raw.values.len() == 1 && raw.values[0].is_bare_reference())
    &&& forall|k: int|
        0 <= k < raw.values.len() ==> {
            &&& is_elided(#[trigger] raw.values[k])
            &&& raw.values[k].children.len() == 0
            &&& !raw.values[k].is_indented_id
        }
}

/// A raw link that owes nothing to indentation and holds plain references
/// only: it has no children, is no label that ended its line, its label is
/// plain, and so are its values throughout.
pub open spec fn is_inline(raw: RawLink) -> bool
    decreases raw,
{
    &&& raw.children.len() == 0
    &&& !raw.is_indented_id
    &&& raw.id matches Some(label) ==> is_plain(label)
    &&& forall|k: int| 0 <= k < raw.values.len() ==> is_inline(#[trigger] raw.values[k])
}

/// Reading the alternate form of a link without a label whose values are
/// read back gives the link again.
pub proof fn lemma_alternate_round_trip(entries: Seq<Notation>)
    requires
        forall|k: int| 0 <= k < entries.len() ==> is_written_value(#[trigger] entries[k]),
    ensures
        spec_parse_lino(spec_format_alternate(Notation::Link { id: None, values: entries }))
            == Ok::<Notation, ParseError>(Notation::Link { id: None, values: entries }),
{
    let tree = Notation::Link { id: None, values: entries };
    let sep = seq!['\n'];
    let lines = written_lines(entries);
    let text = spec_format_alternate(tree);
    assert(label_prefix(None) =~= Seq::<char>::empty());
    assert(Seq::new(entries.len(), |i: int| alternate_line(label_prefix(None), entries[i]))
        =~= lines);
    assert(text == join(lines, sep));
    lemma_join_is_join_from(lines, sep);
    lemma_flatten_raws_of(entries);
    if entries.len() == 0 {
        lemma_run_end_unique(text, 0, CharClass::LineBreak, 0);
        lemma_run_end_unique(text, 0, CharClass::UnicodeBlank, 0);
        assert(spec_raws_of(entries) =~= Seq::empty());
    } else {
        let entry = entries[0];
        assert(lines[0] == written_line(entry));
        lemma_written_line_starts(entry);
        lemma_join_from_starts(lines, sep, 0);
        assert(text[0] == '(');
        lemma_run_end_unique(text, 0, CharClass::LineBreak, 0);
        lemma_run_end_unique(text, 0, CharClass::UnicodeBlank, 0);
        assert(!spec_is_blank_from(text, 0));
        assert(occurs_at(text, 0, text));
        lemma_lines_read(text, 0, entries, 0);
        assert(spec_raws_of(entries).skip(0) =~= spec_raws_of(entries));
        lemma_links_are_lines(text, 0, 0);
        lemma_no_blank_at(text, text.len() as int);
    }
}

/// A document that is the alternate form of values that are read back is
/// written again as it stands after it was read.
pub proof fn lemma_written_document_is_stable(document: Seq<char>, entries: Seq<Notation>)
    requires
        forall|k: int| 0 <= k < entries.len() ==> is_written_value(#[trigger] entries[k]),
        document == spec_format_alternate(Notation::Link { id: None, values: entries }),
    ensures
        spec_parse_lino(document) matches Ok(tree) && spec_format_alternate(tree) == document,
{
    lemma_alternate_round_trip(entries);
}

/// A document that owes nothing to indentation and holds plain references
/// only is read as the same tree again after it was read and written in the
/// alternate form.
pub proof fn lemma_inline_document_round_trip(document: Seq<char>)
    requires
        spec_parse_document(document) matches Ok(links) && forall|k: int|
            0 <= k < links.len() ==> is_inline(#[trigger] links[k]),
    ensures
        spec_parse_lino(document) matches Ok(tree) && spec_parse_lino(spec_format_alternate(tree))
            == spec_parse_lino(document),
{
    let links = spec_parse_document(document)->Ok_0;
    lemma_document_elided(document);
    lemma_inline_flattens(links);
    lemma_alternate_round_trip(spec_flatten_links(links));
}

/// A document that is read as one reference is read as the same tree again
/// after it was read and written in the compact form, where the reference
/// holds reference characters only and no quote at its start comes again in
/// it.
pub proof fn lemma_compact_round_trip(document: Seq<char>, text: Seq<char>)
    requires
        spec_parse_lino(document) == Ok::<Notation, ParseError>(
            Notation::Link { id: None, values: seq![Notation::Ref(text)] },
        ),
        is_plain_reference(text),
    ensures
        spec_parse_lino(
            spec_format_compact(Notation::Link { id: None, values: seq![Notation::Ref(text)] }),
        ) == spec_parse_lino(document),
{
    let entry = Notation::Ref(text);
    let tree = Notation::Link { id: None, values: seq![entry] };
    let open = seq!['('];
    let close = seq![')'];
    let written = spec_format_compact(tree);
    let parts = compact_parts(seq![entry]);
    assert(parts[0] == text);
    assert(join(parts, seq![' ']) == text);
    assert(written =~= open + text + close);
    assert(occurs_at(written, 0, open + text + close));
    assert forall|k: int| 1 < k < written.len() implies #[trigger] written[k] != text[0] || !(
    text[0] == '"' || text[0] == '\'') by {
        if k < written.len() - 1 {
            assert(written[k] == text[k - 1]);
        }
    }
    lemma_reference_line_reads(written, 0, text);
    let end = written.len() as int;
    let raw = RawLink::singlet(text);
    lemma_run_end_unique(written, end, CharClass::Horizontal, end);
    assert(spec_any_link(written, 0) == Some((raw, end)));
    lemma_no_blank_at(written, end);
    lemma_nothing_at_end(written, 0);
    assert(spec_element(written, 0, 0) == Some((raw, end)));
    assert(seq![raw] + Seq::<RawLink>::empty() =~= seq![raw]);
    assert(spec_links(written, 0, 0) == Some((seq![raw], end)));
    lemma_run_end_unique(written, 0, CharClass::LineBreak, 0);
    lemma_run_end_unique(written, 0, CharClass::UnicodeBlank, 0);
    assert(spec_parse_document(written) == Ok::<Seq<RawLink>, ParseError>(seq![raw]));
    assert(seq![raw].drop_last() =~= Seq::<RawLink>::empty());
    assert(spec_flatten_children(raw, 0, Some(entry)) =~= Seq::<Notation>::empty());
    assert(spec_flatten_link(raw, None) =~= seq![entry]);
    assert(spec_flatten_links(Seq::<RawLink>::empty()) =~= Seq::<Notation>::empty());
    assert(seq![raw].last() == raw);
    assert(spec_flatten_links(seq![raw]) =~= seq![entry]);
}

/// The compact form of a link without a label is read one level deeper than
/// the link, as a link that holds it, where its values are read back and are
/// not one reference alone. So it is not read as the link itself.
pub proof fn lemma_compact_form_reads_one_level_deeper(entries: Seq<Notation>)
    requires
        forall|k: int| 0 <= k < entries.len() ==> is_written_value(#[trigger] entries[k]),
        !(entries.len() == 1 && entries[0] is Ref),
    ensures
        spec_parse_lino(spec_format_compact(Notation::Link { id: None, values: entries }))
            == Ok::<Notation, ParseError>(
            Notation::Link { id: None, values: seq![Notation::Link { id: None, values: entries }] },
        ),
        spec_parse_lino(spec_format_compact(Notation::Link { id: None, values: entries }))
            != Ok::<Notation, ParseError>(Notation::Link { id: None, values: entries }),
{
    let tree = Notation::Link { id: None, values: entries };
    let above = Notation::Link { id: None, values: seq![tree] };
    assert(is_written_value(tree));
    assert(is_written_value(seq![tree][0]));
    lemma_alternate_round_trip(seq![tree]);
    let lines = Seq::new(1, |i: int| alternate_line(label_prefix(None), seq![tree][i]));
    assert(label_prefix(None) =~= Seq::<char>::empty());
    assert(lines[0] =~= spec_format_compact(tree));
    assert(join(lines, seq!['\n']) == lines[0]);
    assert(spec_format_alternate(above) == spec_format_compact(tree));
    if entries == seq![tree] {
        assert(entries[0] == tree);
        assert(decreases_to!(tree => tree->values[0]));
    }
}

/// Of the documents that owe nothing to indentation and hold plain references
/// only, those that are read as the same tree again after they were read and
/// written in the compact form are the documents that are read as one
/// reference, and no others.
pub proof fn lemma_inline_document_compact_round_trip(document: Seq<char>)
    requires
        spec_parse_document(document) matches Ok(links) && forall|k: int|
            0 <= k < links.len() ==> is_inline(#[trigger] links[k]),
    ensures
        spec_parse_lino(document) matches Ok(tree) && (spec_parse_lino(spec_format_compact(tree))
            == spec_parse_lino(document) <==> tree->values.len() == 1 && tree->values[0] is Ref),
{
    let links = spec_parse_document(document)->Ok_0;
    lemma_document_elided(document);
    lemma_inline_flattens(links);
    let entries = spec_flatten_links(links);
    if entries.len() == 1 && entries[0] is Ref {
        let text = entries[0]->Ref_0;
        assert(is_written_value(entries[0]));
        assert(entries =~= seq![Notation::Ref(text)]);
        lemma_compact_round_trip(document, text);
    } else {
        lemma_compact_form_reads_one_level_deeper(entries);
    }
}

/// A label with lines indented below it has the same entries as the label
/// with those lines as its values between parentheses.
pub proof fn lemma_indented_block_flattens_as_group(
    label: Seq<char>,
    lines: Seq<RawLink>,
    parent: Option<Notation>,
)
    requires
        lines.len() > 0,
    ensures
        spec_flatten_link(RawLink::indented_id(label).with_children(lines), parent)
            == spec_flatten_link(RawLink::link(Some(label), lines), parent),
{
    let block = RawLink::indented_id(label).with_children(lines);
    let group = RawLink::link(Some(label), lines);
    assert(spec_indented_id_current(block)->values =~= spec_current(group)->values);
    assert(spec_flatten_children(group, 0, Some(spec_combine(parent, spec_current(group))))
        =~= Seq::<Notation>::empty());
    assert(seq![spec_combine(parent, spec_current(group))] + Seq::<Notation>::empty() =~= seq![
        spec_combine(parent, spec_current(group)),
    ]);
}

/// Two links that differ only in their children have the same entries where
/// their children, one by one, have the same entries below everything.
pub proof fn lemma_children_alike_flatten_alike(
    first: RawLink,
    second: RawLink,
    parent: Option<Notation>,
)
    requires
        first.id == second.id,
        first.values == second.values,
        !first.is_indented_id,
        !second.is_indented_id,
        first.children.len() == second.children.len(),
        forall|k: int, above: Option<Notation>|
            0 <= k < first.children.len() ==> #[trigger] spec_flatten_link(
                first.children[k],
                above,
            ) == spec_flatten_link(second.children[k], above),
    ensures
        spec_flatten_link(first, parent) == spec_flatten_link(second, parent),
{
    let combined = spec_combine(parent, spec_current(first));
    assert(spec_current(first) == spec_current(second));
    lemma_children_alike_from(first, second, 0, Some(combined));
}

/// The children of two links from the `from`-th on have the same entries
/// where they have the same entries one by one.
proof fn lemma_children_alike_from(
    first: RawLink,
    second: RawLink,
    from: nat,
    above: Option<Notation>,
)
    requires
        first.children.len() == second.children.len(),
        forall|k: int, parent: Option<Notation>|
            0 <= k < first.children.len() ==> #[trigger] spec_flatten_link(
                first.children[k],
                parent,
            ) == spec_flatten_link(second.children[k], parent),
    ensures
        spec_flatten_children(first, from, above) == spec_flatten_children(second, from, above),
    decreases first.children.len() - from,
{
    if from < first.children.len() {
        lemma_children_alike_from(first, second, from + 1, above);
        assert(spec_flatten_link(first.children[from as int], above) == spec_flatten_link(
            second.children[from as int],
            above,
        ));
    }
}

/// Two encodings of one structure have the same entries: a line with a label
/// and its lines indented below it, and the same line with the label and those
/// lines as one group in parentheses below it.
pub proof fn lemma_block_below_a_line_flattens_as_group(
    line: RawLink,
    label: Seq<char>,
    lines: Seq<RawLink>,
    parent: Option<Notation>,
)
    requires
        !line.is_indented_id,
        lines.len() > 0,
    ensures
        spec_flatten_link(
            line.with_children(seq![RawLink::indented_id(label).with_children(lines)]),
            parent,
        ) == spec_flatten_link(
            line.with_children(seq![RawLink::link(Some(label), lines)]),
            parent,
        ),
{
    let block = RawLink::indented_id(label).with_children(lines);
    let group = RawLink::link(Some(label), lines);
    let first = line.with_children(seq![block]);
    let second = line.with_children(seq![group]);
    assert forall|k: int, above: Option<Notation>|
        0 <= k < first.children.len() implies #[trigger] spec_flatten_link(
        first.children[k],
        above,
    ) == spec_flatten_link(second.children[k], above) by {
        lemma_indented_block_flattens_as_group(label, lines, above);
    }
    lemma_children_alike_flatten_alike(first, second, parent);
}

/// A text of nothing but white space.
pub open spec fn is_blank_text(text: Seq<char>) -> bool {
    forall|k: int| 0 <= k < text.len() ==> spec_is_unicode_whitespace(#[trigger] text[k])
}

/// A plain reference that stands alone in a document is read as that
/// reference, unless it is nothing but white space.
proof fn lemma_reference_document_reads(text: Seq<char>)
    requires
        is_plain(text),
        !is_blank_text(text),
    ensures
        spec_parse_document(text) == Ok::<Seq<RawLink>, ParseError>(seq![RawLink::singlet(text)]),
{
    let s = text;
    let end = s.len() as int;
    let raw = RawLink::singlet(text);
    assert(s.subrange(0, end) =~= text);
    lemma_bare_reference_reads(s, 0, text);
    lemma_no_blank_at(s, 0);
    lemma_no_blank_at(s, end);
    lemma_no_value_at(s, end);
    lemma_nothing_at_end(s, 0);
    lemma_run_end_unique(s, end, CharClass::Horizontal, end);
    assert(spec_indented_id_link(s, 0) is None);
    assert(spec_single_line_link(s, 0) is None);
    assert(spec_single_line_items(s, end) == (Seq::<RawLink>::empty(), end));
    assert(seq![raw] + Seq::<RawLink>::empty() =~= seq![raw]);
    assert(spec_single_line_items(s, 0) == (seq![raw], end));
    assert(spec_single_line_values(s, 0) == Some((seq![raw], end)));
    assert(spec_eol(s, end) == Some(end));
    assert(spec_single_line_any_link(s, 0) == Some((raw, end)));
    assert(spec_any_link(s, 0) == Some((raw, end)));
    assert(spec_element(s, 0, 0) == Some((raw, end)));
    assert(spec_links(s, 0, 0) == Some((seq![raw], end)));
    lemma_run_end_unique(s, 0, CharClass::LineBreak, 0);
    lemma_run_end(s, 0, CharClass::UnicodeBlank);
    if spec_is_blank_from(s, 0) {
        assert forall|k: int| 0 <= k < text.len() implies spec_is_unicode_whitespace(
            #[trigger] text[k],
        ) by {
            assert(CharClass::UnicodeBlank.spec_admits(s[k]));
        }
    }
}

/// The compact form of a tree that is read back, alone in a document, is
/// read as that tree and nothing else, unless the tree is a reference of
/// nothing but white space: that is a blank document, which has no entries.
pub proof fn lemma_entry_round_trip(entry: Notation)
    requires
        is_written_value(entry),
    ensures
        spec_parse_lino_to_links(spec_format_compact(entry)) == Ok::<Seq<Notation>, ParseError>(
            seq![entry],
        ) <==> !(entry matches Notation::Ref(text) && is_blank_text(text)),
{
    match entry {
        Notation::Ref(text) => {
            if is_blank_text(text) {
                lemma_blank_document(text);
                assert(spec_flatten_links(Seq::<RawLink>::empty()) =~= Seq::<Notation>::empty());
                assert(seq![entry].len() == 1);
            } else {
                let raw = RawLink::singlet(text);
                lemma_reference_document_reads(text);
                assert(seq![raw].drop_last() =~= Seq::<RawLink>::empty());
                assert(seq![raw].last() == raw);
                assert(spec_flatten_links(Seq::<RawLink>::empty()) =~= Seq::<Notation>::empty());
                assert(spec_flatten_children(raw, 0, Some(entry)) =~= Seq::<Notation>::empty());
                assert(spec_flatten_link(raw, None) =~= seq![entry]);
                assert(spec_flatten_links(seq![raw]) =~= seq![entry]);
            }
        },
        Notation::Link { .. } => {
            let above = Notation::Link { id: None, values: seq![entry] };
            assert(is_written_value(seq![entry][0]));
            lemma_alternate_round_trip(seq![entry]);
            let lines = Seq::new(1, |i: int| alternate_line(label_prefix(None), seq![entry][i]));
            assert(label_prefix(None) =~= Seq::<char>::empty());
            assert(lines[0] =~= spec_format_compact(entry));
            assert(join(lines, seq!['\n']) == lines[0]);
            assert(spec_format_alternate(above) == spec_format_compact(entry));
        },
    }
}

/// Every entry of a document that owes nothing to indentation and holds
/// plain references only is read as itself from its compact form, unless it
/// is a reference of nothing but white space.
pub proof fn lemma_inline_document_entries_round_trip(document: Seq<char>, index: int)
    requires
        spec_parse_document(document) matches Ok(links) && forall|k: int|
            0 <= k < links.len() ==> is_inline(#[trigger] links[k]),
        spec_parse_lino_to_links(document) matches Ok(entries) && 0 <= index < entries.len(),
    ensures
        spec_parse_lino_to_links(document) matches Ok(entries) && (spec_parse_lino_to_links(
            spec_format_compact(entries[index]),
        ) == Ok::<Seq<Notation>, ParseError>(seq![entries[index]]) <==> !(
        entries[index] matches Notation::Ref(text) && is_blank_text(text))),
{
    let links = spec_parse_document(document)->Ok_0;
    lemma_document_elided(document);
    lemma_inline_flattens(links);
    let entries = spec_flatten_links(links);
    assert(is_written_value(entries[index]));
    lemma_entry_round_trip(entries[index]);
}

/// A document of nothing but white space has no links and reads as the
/// empty link.
pub proof fn lemma_blank_document(document: Seq<char>)
    requires
        forall|k: int|
            0 <= k < document.len() ==> spec_is_unicode_whitespace(
                #[trigger] document[k],
            ),
    ensures
        spec_parse_document(document) == Ok::<Seq<RawLink>, ParseError>(Seq::empty()),
        spec_parse_lino(document) == Ok::<Notation, ParseError>(
            Notation::Link { id: None, values: Seq::empty() },
        ),
{
    let start = spec_document_start(document);
    lemma_run_end(document, 0, CharClass::LineBreak);
    lemma_run_end_unique(document, start, CharClass::UnicodeBlank, document.len() as int);
}

/// A colon with nothing but blanks of its line before it starts no element:
/// a label is required.
pub proof fn lemma_colon_starts_no_element(s: Seq<char>, i: int)
    requires
        0 <= i <= s.len(),
        run_end(s, i, CharClass::Horizontal) < s.len(),
        s[run_end(s, i, CharClass::Horizontal)] == ':',
    ensures
        spec_any_link(s, i) is None,
        forall|top: nat| spec_element(s, i, top) is None,
{
    let colon = run_end(s, i, CharClass::Horizontal);
    lemma_run_end(s, i, CharClass::Horizontal);
    lemma_no_value_at(s, colon);
    if i < colon {
        assert(CharClass::Horizontal.spec_admits(s[i]));
        lemma_no_value_at(s, i);
    }
    assert(spec_single_line_items(s, i) == (Seq::<RawLink>::empty(), i));
}

/// A colon behind an opening parenthesis, with nothing but blanks between
/// them, starts no link: a label is required.
pub proof fn lemma_colon_in_parentheses_starts_no_link(s: Seq<char>, i: int)
    requires
        0 <= i < s.len(),
        s[i] == '(',
        run_end(s, i + 1, CharClass::Blank) < s.len(),
        s[run_end(s, i + 1, CharClass::Blank)] == ':',
    ensures
        spec_multi_line_any_link(s, i) is None,
        spec_reference_or_link(s, i) is None,
{
    let colon = run_end(s, i + 1, CharClass::Blank);
    lemma_no_value_at(s, colon);
    lemma_no_reference_at(s, i);
    lemma_no_blank_at(s, colon);
    assert(spec_multi_line_items(s, colon) == (Seq::<RawLink>::empty(), colon));
    assert(spec_multi_line_values(s, i + 1) == (Seq::<RawLink>::empty(), colon));
}

/// Of the two forms in parentheses at most one matches at a place: the order
/// in which they are tried decides nothing.
pub proof fn lemma_forms_in_parentheses_exclude_each_other(s: Seq<char>, i: int)
    ensures
        !(spec_multi_line_link(s, i) is Some && spec_multi_line_value_link(s, i) is Some),
{
    if spec_multi_line_link(s, i) is Some {
        let start = run_end(s, i + 1, CharClass::Blank);
        lemma_run_end(s, i + 1, CharClass::Blank);
        let (id, after_id) = spec_reference(s, start)->Some_0;
        lemma_reference_bounds_in(s, start);
        let colon = run_end(s, after_id, CharClass::Blank);
        assert(s[colon] == ':');
        lemma_run_end(s, after_id, CharClass::Blank);
        assert(spec_multi_line_any_link(s, start) is None) by {
            assert(s[start] != '(');
        }
        lemma_no_value_at(s, colon);
        lemma_no_blank_at(s, colon);
        assert(spec_multi_line_items(s, colon) == (Seq::<RawLink>::empty(), colon));
        assert(seq![RawLink::singlet(id)] + Seq::<RawLink>::empty() =~= seq![
            RawLink::singlet(id),
        ]);
        assert(spec_multi_line_items(s, start).1 == colon);
        assert(spec_multi_line_values(s, i + 1).1 == colon);
    }
}

/// Every link of a document is elided.
pub proof fn lemma_document_elided(s: Seq<char>)
    ensures
        spec_parse_document(s) matches Ok(links) ==> forall|k: int|
            0 <= k < links.len() ==> is_elided(#[trigger] links[k]),
{
    let start = spec_document_start(s);
    lemma_element_elided(s, start, 0);
    if let Some((first, next)) = spec_element(s, start, 0) {
        lemma_lines_elided(s, next, 0);
        let rest = spec_lines(s, next, 0).0;
        let all = seq![first] + rest;
        assert forall|k: int| 0 <= k < all.len() implies is_elided(#[trigger] all[k]) by {
            if k > 0 {
                assert(all[k] == rest[k - 1]);
            }
        }
    }
}

} // verus!
