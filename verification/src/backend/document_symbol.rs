//! The outline of one file: a forest of entries rebuilt from the flat,
//! path-ordered identifiers of its index.

use crate::position::TextPos;
use crate::text::{joined, count_char, last_segment, last_segment_of, occurrences};
use crate::backend::Backend;
use crate::xml_parser::{IdentNode, SymbolKind, ValueNode, XmlParser};
use crate::text::text_eq;
use vstd::prelude::*;

verus! {

/// A place in a text: line and column, both counted from 0.
#[derive(Clone, Copy, Debug, PartialEq, Eq, Structural)]
pub struct Position {
    pub line: u32,
    pub character: u32,
}

/// A stretch of text between two places.
#[derive(Clone, Copy, Debug, PartialEq, Eq, Structural)]
pub struct TextRange {
    pub start: Position,
    pub end: Position,
}

/// One entry of an outline, with the entries nested in it.
pub struct OutlineEntry {
    pub name: String,
    pub detail: String,
    pub kind: SymbolKind,
    pub range: TextRange,
    pub selection_range: TextRange,
    pub children: Vec<OutlineEntry>,
}

/// One line of an outline written out entry by entry: what the entry shows
/// and how deep it lies, the top being depth 1.
pub struct OutlineRow {
    pub name: Seq<char>,
    pub detail: Seq<char>,
    pub kind: SymbolKind,
    pub range: TextRange,
    pub selection_range: TextRange,
    pub depth: int,
}

/// A position counted from 1 as one counted from 0.
pub open spec fn zero_based(pos: TextPos) -> Position {
    Position {
        line: if pos.row > 0 {
            (pos.row - 1) as u32
        } else {
            0
        },
        character: if pos.col > 0 {
            (pos.col - 1) as u32
        } else {
            0
        },
    }
}

/// The stretch between two positions counted from 1.
pub open spec fn stretch(start: TextPos, end: TextPos) -> TextRange {
    TextRange { start: zero_based(start), end: zero_based(end) }
}

/// The outline kind of an identifier, by its tag.
pub open spec fn outline_kind(tag: Seq<char>) -> SymbolKind {
    if tag == "ECUC-CONTAINER-VALUE"@ || tag == "ECUC-PARAM-CONF-CONTAINER-DEF"@ {
        SymbolKind::Struct
    } else if tag == "ECUC-BOOLEAN-PARAM-DEF"@ {
        SymbolKind::Boolean
    } else if tag == "ECUC-ENUMERATION-PARAM-DEF"@ {
        SymbolKind::Enum
    } else if tag == "ECUC-ENUMERATION-LITERAL-DEF"@ {
        SymbolKind::EnumMember
    } else if tag == "ECUC-REFERENCE-DEF"@ || tag == "ECUC-SYMBOLIC-NAME-REFERENCE-DEF"@ {
        SymbolKind::Variable
    } else if tag == "ECUC-INTEGER-PARAM-DEF"@ {
        SymbolKind::Number
    } else if tag == "ECUC-STRING-PARAM-DEF"@ {
        SymbolKind::String
    } else if tag == "ECUC-FUNCTION-NAME-DEF"@ {
        SymbolKind::Function
    } else {
        SymbolKind::Object
    }
}

/// The row of an identifier at a depth: its detail is the last segment of
/// the definition it refers to, or its tag where it refers to none.
pub open spec fn ident_row(ident: IdentNode, depth: int) -> OutlineRow {
    OutlineRow {
        name: ident.short_name@,
        detail: match ident.node.def_ref {
            Some(d) => last_segment(d@),
            None => ident.node.tag_name@,
        },
        kind: outline_kind(ident.node.tag_name@),
        range: stretch(ident.node.start, ident.node.end),
        selection_range: stretch(ident.short_name_start, ident.short_name_end),
        depth,
    }
}

/// The row of a value at a depth: a leaf that shows `= ` and the literal.
pub open spec fn value_row(value: ValueNode, depth: int) -> OutlineRow {
    OutlineRow {
        name: value.short_name@,
        detail: "= "@ + value.value@,
        kind: value.typ,
        range: stretch(value.node.start, value.node.end),
        selection_range: stretch(value.node.start, value.node.end),
        depth,
    }
}

/// The rows of a list of values, all at one depth.
pub open spec fn value_rows(values: Seq<ValueNode>, depth: int) -> Seq<OutlineRow> {
    values.map_values(|v: ValueNode| value_row(v, depth))
}

/// The depth that a path asks for: the number of its `/`.
pub open spec fn path_depth(path: Seq<char>) -> int {
    occurrences(path, '/') as int
}

/// The depth at which an identifier is placed when the one before it lies
/// at depth `above` (0 where there is none): the depth its path asks for,
/// but no deeper than one below its predecessor, and never above the top.
pub open spec fn placed_depth(path: Seq<char>, above: int) -> int {
    let asked = path_depth(path);
    if asked <= 1 {
        1
    } else if asked <= above + 1 {
        asked
    } else {
        above + 1
    }
}

/// The depth of the last of `keys`, each placed after the one before it.
pub open spec fn depth_after(keys: Seq<Seq<char>>) -> int
    decreases keys.len(),
{
    if keys.len() == 0 {
        0
    } else {
        placed_depth(keys.last(), depth_after(keys.drop_last()))
    }
}

/// The outline of identifiers written out row by row: each identifier, in
/// the order given, at the depth it is placed at, followed by its values
/// one level deeper.
pub open spec fn outline_rows(keys: Seq<Seq<char>>, idents: Seq<IdentNode>) -> Seq<OutlineRow>
    decreases keys.len(),
{
    if keys.len() == 0 || idents.len() != keys.len() {
        Seq::empty()
    } else {
        let depth = depth_after(keys);
        outline_rows(keys.drop_last(), idents.drop_last()) + seq![ident_row(idents.last(), depth)]
            + value_rows(idents.last().values@, depth + 1)
    }
}

/// An entry and all below it, row by row: the entry first, then each of its
/// children with what is below that child, one level deeper.
pub open spec fn rows_of(entry: OutlineEntry, depth: int) -> Seq<OutlineRow>
    decreases entry, 0nat,
{
    seq![entry_row(entry, depth)] + rows_of_first(entry.children@, entry.children@.len(), depth + 1)
}

/// The first `n` of `entries`, each with all below it, row by row.
pub open spec fn rows_of_first(entries: Seq<OutlineEntry>, n: nat, depth: int) -> Seq<OutlineRow>
    decreases entries, n,
{
    if n == 0 || n > entries.len() {
        Seq::empty()
    } else {
        rows_of_first(entries, (n - 1) as nat, depth) + rows_of(entries[n - 1], depth)
    }
}

/// A forest row by row, its roots at depth 1.
pub open spec fn forest_rows(roots: Seq<OutlineEntry>) -> Seq<OutlineRow> {
    rows_of_first(roots, roots.len(), 1)
}

/// What an entry itself shows, at a depth.
pub open spec fn entry_row(entry: OutlineEntry, depth: int) -> OutlineRow {
    OutlineRow {
        name: entry.name@,
        detail: entry.detail@,
        kind: entry.kind,
        range: entry.range,
        selection_range: entry.selection_range,
        depth,
    }
}

/// The first `n` of the open entries row by row, the first of them at depth
/// 1 and each later one a level below the one before it.
pub open spec fn open_rows(open: Seq<OutlineEntry>, n: nat) -> Seq<OutlineRow>
    decreases n,
{
    if n == 0 || n > open.len() {
        Seq::empty()
    } else {
        open_rows(open, (n - 1) as nat) + rows_of(open[n - 1], n as int)
    }
}

proof fn lemma_rows_of_first_agree(a: Seq<OutlineEntry>, b: Seq<OutlineEntry>, n: nat, depth: int)
    requires
        n <= a.len(),
        n <= b.len(),
        forall|k: int| 0 <= k < n ==> a[k] == b[k],
    ensures
        rows_of_first(a, n, depth) == rows_of_first(b, n, depth),
    decreases n,
{
    if n > 0 {
        lemma_rows_of_first_agree(a, b, (n - 1) as nat, depth);
    }
}

proof fn lemma_open_rows_agree(a: Seq<OutlineEntry>, b: Seq<OutlineEntry>, n: nat)
    requires
        n <= a.len(),
        n <= b.len(),
        forall|k: int| 0 <= k < n ==> a[k] == b[k],
    ensures
        open_rows(a, n) == open_rows(b, n),
    decreases n,
{
    if n > 0 {
        lemma_open_rows_agree(a, b, (n - 1) as nat);
    }
}

fn zero_based_of(pos: TextPos) -> (at: Position)
    ensures
        at == zero_based(pos),
{
    Position {
        line: if pos.row > 0 {
            pos.row - 1
        } else {
            0
        },
        character: if pos.col > 0 {
            pos.col - 1
        } else {
            0
        },
    }
}

/// The stretch between two positions counted from 1.
pub fn stretch_of(start: TextPos, end: TextPos) -> (range: TextRange)
    ensures
        range == stretch(start, end),
{
    TextRange { start: zero_based_of(start), end: zero_based_of(end) }
}

/// The outline kind of an identifier, by its tag.
pub fn outline_kind_of(tag: &str) -> (kind: SymbolKind)
    ensures
        kind == outline_kind(tag@),
{
    if text_eq(tag, "ECUC-CONTAINER-VALUE") || text_eq(tag, "ECUC-PARAM-CONF-CONTAINER-DEF") {
        SymbolKind::Struct
    } else if text_eq(tag, "ECUC-BOOLEAN-PARAM-DEF") {
        SymbolKind::Boolean
    } else if text_eq(tag, "ECUC-ENUMERATION-PARAM-DEF") {
        SymbolKind::Enum
    } else if text_eq(tag, "ECUC-ENUMERATION-LITERAL-DEF") {
        SymbolKind::EnumMember
    } else if text_eq(tag, "ECUC-REFERENCE-DEF") || text_eq(
        tag,
        "ECUC-SYMBOLIC-NAME-REFERENCE-DEF",
    ) {
        SymbolKind::Variable
    } else if text_eq(tag, "ECUC-INTEGER-PARAM-DEF") {
        SymbolKind::Number
    } else if text_eq(tag, "ECUC-STRING-PARAM-DEF") {
        SymbolKind::String
    } else if text_eq(tag, "ECUC-FUNCTION-NAME-DEF") {
        SymbolKind::Function
    } else {
        SymbolKind::Object
    }
}

fn value_entry(value: &ValueNode, Ghost(depth): Ghost<int>) -> (entry: OutlineEntry)
    ensures
        rows_of(entry, depth) == seq![value_row(*value, depth)],
{
    let range = stretch_of(value.node.start, value.node.end);
    let entry = OutlineEntry {
        name: value.short_name.clone(),
        detail: joined("= ", value.value.as_str()),
        kind: value.typ,
        range,
        selection_range: range,
        children: Vec::new(),
    };
    proof {
        assert(rows_of_first(entry.children@, 0, depth + 1) =~= Seq::<OutlineRow>::empty());
        assert(rows_of(entry, depth) =~= seq![value_row(*value, depth)]);
    }
    entry
}

fn ident_entry(ident: &IdentNode, Ghost(depth): Ghost<int>) -> (entry: OutlineEntry)
    ensures
        rows_of(entry, depth) == seq![ident_row(*ident, depth)] + value_rows(
            ident.values@,
            depth + 1,
        ),
{
    let mut children: Vec<OutlineEntry> = Vec::new();
    let mut k: usize = 0;
    proof {
        assert(rows_of_first(children@, 0, depth + 1) =~= value_rows(
            ident.values@.take(0),
            depth + 1,
        ));
    }
    while k < ident.values.len()
        invariant
            k <= ident.values.len(),
            children@.len() == k,
            rows_of_first(children@, k as nat, depth + 1) == value_rows(
                ident.values@.take(k as int),
                depth + 1,
            ),
        decreases ident.values.len() - k,
    {
        let ghost before = children@;
        let leaf = value_entry(&ident.values[k], Ghost(depth + 1));
        children.push(leaf);
        proof {
            lemma_rows_of_first_agree(before, children@, k as nat, depth + 1);
            assert(value_rows(ident.values@.take(k + 1), depth + 1) =~= value_rows(
                ident.values@.take(k as int),
                depth + 1,
            ) + seq![value_row(ident.values@[k as int], depth + 1)]);
        }
        k = k + 1;
    }
    proof {
        assert(ident.values@.take(k as int) =~= ident.values@);
    }
    let detail = match &ident.node.def_ref {
        Some(d) => last_segment_of(d.as_str()),
        None => ident.node.tag_name.clone(),
    };
    OutlineEntry {
        name: ident.short_name.clone(),
        detail,
        kind: outline_kind_of(ident.node.tag_name.as_str()),
        range: stretch_of(ident.node.start, ident.node.end),
        selection_range: stretch_of(ident.short_name_start, ident.short_name_end),
        children,
    }
}

/// Closes open entries until at most `target` are left: each goes to the
/// end of the children of the entry it was opened under, the outermost to
/// the end of the roots.
fn close_down_to(roots: &mut Vec<OutlineEntry>, open: &mut Vec<OutlineEntry>, target: usize)
    ensures
        forest_rows(final(roots)@) + open_rows(final(open)@, final(open)@.len()) == forest_rows(
            old(roots)@,
        ) + open_rows(old(open)@, old(open)@.len()),
        final(open)@.len() == if old(open)@.len() <= target {
            old(open)@.len()
        } else {
            target as nat
        },
{
    while open.len() > target
        invariant
            forest_rows(roots@) + open_rows(open@, open@.len()) == forest_rows(old(roots)@)
                + open_rows(old(open)@, old(open)@.len()),
            open@.len() <= old(open)@.len(),
            old(open)@.len() <= target ==> open@.len() == old(open)@.len(),
            old(open)@.len() > target ==> open@.len() >= target,
        decreases open.len(),
    {
        let ghost was_open = open@;
        let ghost was_roots = roots@;
        let ghost m = open@.len();
        let top = open.pop().unwrap();
        let left = open.len();
        if left > 0 {
            let ghost under = open@[left - 1];
            open[left - 1].children.push(top);
            proof {
                let now = open@[left - 1];
                assert(now.children@ == under.children@.push(top));
                lemma_rows_of_first_agree(
                    under.children@,
                    now.children@,
                    under.children@.len(),
                    m as int,
                );
                assert(rows_of(now, left as int) =~= rows_of(under, left as int) + rows_of(
                    top,
                    m as int,
                ));
                lemma_open_rows_agree(was_open, open@, (left - 1) as nat);
                assert(open_rows(was_open, m) == open_rows(was_open, (m - 1) as nat) + rows_of(
                    top,
                    m as int,
                ));
                assert(open_rows(was_open, left as nat) == open_rows(
                    was_open,
                    (left - 1) as nat,
                ) + rows_of(under, left as int));
                assert(open_rows(open@, left as nat) =~= open_rows(was_open, m));
            }
        } else {
            roots.push(top);
            proof {
                lemma_rows_of_first_agree(was_roots, roots@, was_roots.len(), 1);
                assert(open_rows(was_open, 0) =~= Seq::<OutlineRow>::empty());
                assert(open_rows(open@, 0) =~= Seq::<OutlineRow>::empty());
                assert(forest_rows(roots@) + open_rows(open@, 0) =~= forest_rows(was_roots)
                    + open_rows(was_open, 1));
            }
        }
    }
}

/// The outline of a file: its identifiers in path order, each nested under
/// the entry most lately opened one level above the depth its path asks
/// for, and each with its values as leaves before the entries nested in it.
///
/// Written out row by row, the forest is the list of the identifiers in
/// path order, each at its depth and followed by its values.
pub fn build_outline(parser: &XmlParser) -> (roots: Vec<OutlineEntry>)
    ensures
        forest_rows(roots@) == outline_rows(
            parser.ident_nodes.keys(),
            parser.ident_nodes.values(),
        ),
{
    let mut roots: Vec<OutlineEntry> = Vec::new();
    let mut open: Vec<OutlineEntry> = Vec::new();
    let n = parser.ident_nodes.len();
    let ghost keys = parser.ident_nodes.keys();
    let ghost idents = parser.ident_nodes.values();
    let mut i: usize = 0;
    proof {
        assert(forest_rows(roots@) + open_rows(open@, 0) =~= outline_rows(
            keys.take(0),
            idents.take(0),
        ));
    }
    while i < n
        invariant
            i <= n,
            n == keys.len(),
            n == idents.len(),
            keys == parser.ident_nodes.keys(),
            idents == parser.ident_nodes.values(),
            open@.len() == depth_after(keys.take(i as int)),
            forest_rows(roots@) + open_rows(open@, open@.len()) == outline_rows(
                keys.take(i as int),
                idents.take(i as int),
            ),
        decreases n - i,
    {
        let key = parser.ident_nodes.key_at(i);
        let ident = parser.ident_nodes.value_at(i);
        let asked = count_char(key.as_str(), '/');
        let above = open.len();
        let target = if asked <= 1 {
            0
        } else if asked - 1 <= above {
            asked - 1
        } else {
            above
        };
        proof {
            assert(keys.take(i + 1).drop_last() =~= keys.take(i as int));
            assert(idents.take(i + 1).drop_last() =~= idents.take(i as int));
            assert(keys.take(i + 1).last() == keys[i as int]);
            assert(idents.take(i + 1).last() == idents[i as int]);
        }
        close_down_to(&mut roots, &mut open, target);
        let ghost depth = placed_depth(key@, above as int);
        let ghost was_open = open@;
        let entry = ident_entry(ident, Ghost(depth));
        open.push(entry);
        proof {
            assert(open@.len() == depth);
            lemma_open_rows_agree(was_open, open@, was_open.len());
            assert(open_rows(open@, open@.len()) == open_rows(was_open, was_open.len()) + rows_of(
                entry,
                depth,
            ));
            assert(forest_rows(roots@) + open_rows(open@, open@.len()) =~= outline_rows(
                keys.take(i as int),
                idents.take(i as int),
            ) + seq![ident_row(idents[i as int], depth)] + value_rows(
                idents[i as int].values@,
                depth + 1,
            ));
        }
        i = i + 1;
    }
    proof {
        assert(keys.take(n as int) =~= keys);
        assert(idents.take(n as int) =~= idents);
    }
    close_down_to(&mut roots, &mut open, 0);
    proof {
        assert(open_rows(open@, 0) =~= Seq::<OutlineRow>::empty());
        assert(forest_rows(roots@) + Seq::<OutlineRow>::empty() =~= forest_rows(roots@));
    }
    roots
}

/// Answers a request for the outline of `file`: none where the file has no
/// index, else the forest built of its identifiers.
pub fn document_symbol(backend: &Backend, file: &str) -> (outline: Option<Vec<OutlineEntry>>)
    ensures
        match outline {
            Some(roots) => backend.parsers@.contains_key(file@) && forest_rows(roots@)
                == outline_rows(
                backend.parsers@[file@].ident_nodes.keys(),
                backend.parsers@[file@].ident_nodes.values(),
            ),
            None => !backend.parsers@.contains_key(file@),
        },
{
    match backend.parsers.get(file) {
        Some(parser) => Some(build_outline(parser)),
        None => None,
    }
}

} // verus!
