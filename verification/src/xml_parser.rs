//! The index of one file: its named elements by path, the values they own,
//! the references written in it and the vendor alias it declares, together
//! with the traversal that fills it from a parsed document.

use crate::path_map::PathMap;
use crate::position::{offset_at, position_at, LineIndex, TextPos};
use crate::text::{
    byte_len, joined, last_segment, last_segment_of, segments, split_segments, text_eq,
    texts_view,
};
use vstd::utf8::encode_utf8;
use crate::xml_tree::{
    attribute_value, child_tagged, kept_nodes, node_text, option_text, parents_precede,
    parse_document, parsed_nodes, text_token, ParseError, XmlDocument, XmlNode, XmlNodeView,
};
use std::ops::Range;
use vstd::prelude::*;

verus! {

/// The kind under which an entry is shown in an outline.
#[derive(Clone, Copy, Debug, PartialEq, Eq, Structural)]
pub enum SymbolKind {
    Struct,
    Boolean,
    Enum,
    EnumMember,
    Variable,
    Number,
    String,
    Function,
    Object,
}

/// Where an element stands in its file, with its tag and the definition it
/// refers to.
pub struct XmlParserNode {
    pub file: String,
    pub start: TextPos,
    pub end: TextPos,
    pub range: Range<usize>,
    pub tag_name: String,
    pub def_ref: Option<String>,
}

/// A value that an identifier owns.
pub struct ValueNode {
    pub short_name: String,
    pub node: XmlParserNode,
    pub path: String,
    pub value: String,
    pub typ: SymbolKind,
}

/// A named element, known by its path.
pub struct IdentNode {
    pub short_name: String,
    pub node: XmlParserNode,
    pub short_name_start: TextPos,
    pub short_name_end: TextPos,
    pub short_name_range: Range<usize>,
    pub path: String,
    pub values: Vec<ValueNode>,
}

/// One occurrence of a reference to a path.
pub struct RefNode {
    pub file: String,
    pub start: TextPos,
    pub end: TextPos,
    pub range: Range<usize>,
    pub tag_name: String,
    pub text_start: TextPos,
    pub text_end: TextPos,
    pub text: String,
    pub text_range: Range<usize>,
    pub path: String,
}

/// What an [`XmlParserNode`] stands for.
pub struct XmlParserNodeView {
    pub file: Seq<char>,
    pub start: TextPos,
    pub end: TextPos,
    pub range: (int, int),
    pub tag_name: Seq<char>,
    pub def_ref: Option<Seq<char>>,
}

/// What a [`ValueNode`] stands for.
pub struct ValueNodeView {
    pub short_name: Seq<char>,
    pub node: XmlParserNodeView,
    pub path: Seq<char>,
    pub value: Seq<char>,
    pub typ: SymbolKind,
}

/// What an [`IdentNode`] stands for.
pub struct IdentNodeView {
    pub short_name: Seq<char>,
    pub node: XmlParserNodeView,
    pub short_name_start: TextPos,
    pub short_name_end: TextPos,
    pub short_name_range: (int, int),
    pub path: Seq<char>,
    pub values: Seq<ValueNodeView>,
}

/// What a [`RefNode`] stands for.
pub struct RefNodeView {
    pub file: Seq<char>,
    pub start: TextPos,
    pub end: TextPos,
    pub range: (int, int),
    pub tag_name: Seq<char>,
    pub text_start: TextPos,
    pub text_end: TextPos,
    pub text: Seq<char>,
    pub text_range: (int, int),
    pub path: Seq<char>,
}

/// The bounds of a byte range.
pub open spec fn bounds(r: Range<usize>) -> (int, int) {
    (r.start as int, r.end as int)
}

impl View for XmlParserNode {
    type V = XmlParserNodeView;

    open spec fn view(&self) -> XmlParserNodeView {
        XmlParserNodeView {
            file: self.file@,
            start: self.start,
            end: self.end,
            range: bounds(self.range),
            tag_name: self.tag_name@,
            def_ref: option_text(self.def_ref),
        }
    }
}

impl View for ValueNode {
    type V = ValueNodeView;

    open spec fn view(&self) -> ValueNodeView {
        ValueNodeView {
            short_name: self.short_name@,
            node: self.node@,
            path: self.path@,
            value: self.value@,
            typ: self.typ,
        }
    }
}

/// What a list of values stands for.
pub open spec fn values_view(values: Seq<ValueNode>) -> Seq<ValueNodeView> {
    values.map_values(|v: ValueNode| v@)
}

impl View for IdentNode {
    type V = IdentNodeView;

    open spec fn view(&self) -> IdentNodeView {
        IdentNodeView {
            short_name: self.short_name@,
            node: self.node@,
            short_name_start: self.short_name_start,
            short_name_end: self.short_name_end,
            short_name_range: bounds(self.short_name_range),
            path: self.path@,
            values: values_view(self.values@),
        }
    }
}

impl View for RefNode {
    type V = RefNodeView;

    open spec fn view(&self) -> RefNodeView {
        RefNodeView {
            file: self.file@,
            start: self.start,
            end: self.end,
            range: bounds(self.range),
            tag_name: self.tag_name@,
            text_start: self.text_start,
            text_end: self.text_end,
            text: self.text@,
            text_range: bounds(self.text_range),
            path: self.path@,
        }
    }
}

/// What a list of references stands for.
pub open spec fn refs_view(refs: Seq<RefNode>) -> Seq<RefNodeView> {
    refs.map_values(|r: RefNode| r@)
}

/// What a node of the document is to the index.
pub enum NodeClass {
    /// It has an identity child with text: `name`, held by node `token`.
    Identifier { name: Seq<char>, token: int },
    /// It carries the reference marker and names `text`, held by node `token`.
    Reference { text: Seq<char>, token: int },
    /// It bears a value defined by `def_ref`, the text of child `definition`.
    Value { definition: int, def_ref: Seq<char> },
    /// A text it needs is missing at node `at`.
    Incomplete { at: int },
    /// Nothing is recorded for it.
    Plain,
}

/// Whether an element with this tag bears a value.
pub open spec fn is_value_tag(tag: Seq<char>) -> bool {
    tag == "ECUC-CONTAINER-VALUE"@ || tag == "ECUC-REFERENCE-VALUE"@ || tag
        == "ECUC-NUMERICAL-PARAM-VALUE"@ || tag == "ECUC-TEXTUAL-PARAM-VALUE"@
}

/// The class of node `i`, by the first of these that holds: it has an
/// identity child; it carries the reference marker; its tag bears a value and
/// it has a definition child.
pub open spec fn classify(nodes: Seq<XmlNodeView>, i: int) -> NodeClass {
    match child_tagged(nodes, i, "SHORT-NAME"@) {
        Some(identity) => match text_token(nodes, identity) {
            Some((token, name)) => NodeClass::Identifier { name, token },
            None => NodeClass::Incomplete { at: identity },
        },
        None => if attribute_value(nodes[i].attributes, "DEST"@) is Some {
            match text_token(nodes, i) {
                Some((token, text)) => NodeClass::Reference { text, token },
                None => NodeClass::Incomplete { at: i },
            }
        } else if is_value_tag(nodes[i].tag_name) {
            match child_tagged(nodes, i, "DEFINITION-REF"@) {
                Some(definition) => match node_text(nodes, definition) {
                    Some(def_ref) => NodeClass::Value { definition, def_ref },
                    None => NodeClass::Incomplete { at: definition },
                },
                None => NodeClass::Plain,
            }
        } else {
            NodeClass::Plain
        },
    }
}

/// The path that holds inside node `i`: the short names of the identifiers
/// from the top of the document down to the node itself, each behind a `/`.
pub open spec fn path_in(nodes: Seq<XmlNodeView>, i: int) -> Seq<char>
    decreases i,
{
    if 0 <= i < nodes.len() {
        match nodes[i].parent {
            Some(p) => if 0 <= p < i {
                match classify(nodes, i) {
                    NodeClass::Identifier { name, .. } => path_in(nodes, p) + "/"@ + name,
                    _ => path_in(nodes, p),
                }
            } else {
                Seq::empty()
            },
            None => Seq::empty(),
        }
    } else {
        Seq::empty()
    }
}

/// The kind of a value, by the tag of its element and the kind of
/// definition that it refers to.
pub open spec fn value_kind(tag: Seq<char>, dest: Option<Seq<char>>) -> SymbolKind {
    if tag == "ECUC-TEXTUAL-PARAM-VALUE"@ {
        if dest == Some("ECUC-ENUMERATION-PARAM-DEF"@) {
            SymbolKind::Enum
        } else if dest == Some("ECUC-FUNCTION-NAME-DEF"@) {
            SymbolKind::Function
        } else {
            SymbolKind::String
        }
    } else if tag == "ECUC-NUMERICAL-PARAM-VALUE"@ {
        if dest == Some("ECUC-BOOLEAN-PARAM-DEF"@) {
            SymbolKind::Boolean
        } else {
            SymbolKind::Number
        }
    } else {
        SymbolKind::Variable
    }
}

/// The literal of the value-bearing node `i`: the text of its `VALUE-REF`
/// child for a reference value, of its `VALUE` child for any other; empty
/// where there is none.
pub open spec fn literal_of(nodes: Seq<XmlNodeView>, i: int) -> Seq<char> {
    let tag = if nodes[i].tag_name == "ECUC-REFERENCE-VALUE"@ {
        "VALUE-REF"@
    } else {
        "VALUE"@
    };
    match child_tagged(nodes, i, tag) {
        Some(v) => match node_text(nodes, v) {
            Some(t) => t,
            None => Seq::empty(),
        },
        None => Seq::empty(),
    }
}

/// What an [`XmlParser`] stands for.
pub struct XmlParserView {
    pub ident_nodes: Map<Seq<char>, IdentNodeView>,
    pub refs: Map<Seq<char>, Seq<RefNodeView>>,
    pub line_starts: Seq<int>,
    pub text_len: int,
    pub file: Seq<char>,
    pub is_ws_file: bool,
    pub vendor_mapping: Option<(Seq<char>, Seq<char>)>,
    pub diagnostics: Seq<TextPos>,
}

impl XmlParserView {
    /// The position of a byte offset in the file.
    pub open spec fn position(self, offset: int) -> TextPos {
        position_at(self.line_starts, self.text_len, offset)
    }

    /// Where `node` stands, with the definition it refers to.
    pub open spec fn located(self, node: XmlNodeView, def_ref: Option<Seq<char>>) -> XmlParserNodeView {
        XmlParserNodeView {
            file: self.file,
            start: self.position(node.start),
            end: self.position(node.end),
            range: (node.start, node.end),
            tag_name: node.tag_name,
            def_ref,
        }
    }

    /// The index with a diagnostic for the node at `at`.
    pub open spec fn reporting(self, nodes: Seq<XmlNodeView>, at: int) -> XmlParserView {
        XmlParserView { diagnostics: self.diagnostics.push(self.position(nodes[at].start)), ..self }
    }

    /// The index with identifier `ident` under its path, in place of any
    /// that was there.
    pub open spec fn with_ident(self, ident: IdentNodeView) -> XmlParserView {
        XmlParserView { ident_nodes: self.ident_nodes.insert(ident.path, ident), ..self }
    }

    /// The index with one more occurrence under the text it names.
    pub open spec fn with_reference(self, occurrence: RefNodeView) -> XmlParserView {
        let earlier = if self.refs.contains_key(occurrence.text) {
            self.refs[occurrence.text]
        } else {
            Seq::empty()
        };
        XmlParserView { refs: self.refs.insert(occurrence.text, earlier.push(occurrence)), ..self }
    }

    /// The index with `value` added to the identifier at path `owner`; the
    /// same index where there is none.
    pub open spec fn with_value(self, owner: Seq<char>, value: ValueNodeView) -> XmlParserView {
        if self.ident_nodes.contains_key(owner) {
            let ident = self.ident_nodes[owner];
            XmlParserView {
                ident_nodes: self.ident_nodes.insert(
                    owner,
                    IdentNodeView { values: ident.values.push(value), ..ident },
                ),
                ..self
            }
        } else {
            self
        }
    }

    /// The index after an identifier at node `i`, named by node `token`.
    pub open spec fn visit_identifier(
        self,
        nodes: Seq<XmlNodeView>,
        i: int,
        name: Seq<char>,
        token: int,
    ) -> XmlParserView {
        let definition = if nodes[i].tag_name == "ECUC-CONTAINER-VALUE"@ {
            child_tagged(nodes, i, "DEFINITION-REF"@)
        } else {
            None
        };
        let def_ref = match definition {
            Some(d) => node_text(nodes, d),
            None => None,
        };
        let reported = match definition {
            Some(d) => if def_ref is None {
                self.reporting(nodes, d)
            } else {
                self
            },
            None => self,
        };
        reported.with_ident(
            IdentNodeView {
                short_name: name,
                node: self.located(nodes[i], def_ref),
                short_name_start: self.position(nodes[token].start),
                short_name_end: self.position(nodes[token].end),
                short_name_range: (nodes[token].start, nodes[token].end),
                path: path_in(nodes, i),
                values: Seq::empty(),
            },
        )
    }

    /// The index after a reference at node `i` that names `text`, held by
    /// node `token`. A module refinement also sets the vendor alias: from
    /// the path around the node to the module named.
    pub open spec fn visit_reference(
        self,
        nodes: Seq<XmlNodeView>,
        i: int,
        text: Seq<char>,
        token: int,
    ) -> XmlParserView {
        let added = self.with_reference(
            RefNodeView {
                file: self.file,
                start: self.position(nodes[i].start),
                end: self.position(nodes[i].end),
                range: (nodes[i].start, nodes[i].end),
                tag_name: nodes[i].tag_name,
                text_start: self.position(nodes[token].start),
                text_end: self.position(nodes[token].end),
                text,
                text_range: (nodes[token].start, nodes[token].end),
                path: path_in(nodes, i),
            },
        );
        if nodes[i].tag_name == "REFINED-MODULE-DEF-REF"@ {
            XmlParserView { vendor_mapping: Some((path_in(nodes, i), text)), ..added }
        } else {
            added
        }
    }

    /// The index after a value at node `i`, defined by `def_ref`, the text
    /// of node `definition`. The value goes to the identifier that encloses
    /// the node most closely.
    pub open spec fn visit_value(
        self,
        nodes: Seq<XmlNodeView>,
        i: int,
        definition: int,
        def_ref: Seq<char>,
    ) -> XmlParserView {
        let name = last_segment(def_ref);
        self.with_value(
            path_in(nodes, i),
            ValueNodeView {
                short_name: name,
                node: self.located(nodes[i], Some(def_ref)),
                path: path_in(nodes, i) + "/"@ + name,
                value: literal_of(nodes, i),
                typ: value_kind(
                    nodes[i].tag_name,
                    attribute_value(nodes[definition].attributes, "DEST"@),
                ),
            },
        )
    }

    /// The index after node `i` of the document. A node without a parent is
    /// passed over.
    pub open spec fn visit(self, nodes: Seq<XmlNodeView>, i: int) -> XmlParserView {
        if nodes[i].parent is None {
            self
        } else {
            match classify(nodes, i) {
                NodeClass::Identifier { name, token } => self.visit_identifier(
                    nodes,
                    i,
                    name,
                    token,
                ),
                NodeClass::Reference { text, token } => self.visit_reference(nodes, i, text, token),
                NodeClass::Value { definition, def_ref } => self.visit_value(
                    nodes,
                    i,
                    definition,
                    def_ref,
                ),
                NodeClass::Incomplete { at } => self.reporting(nodes, at),
                NodeClass::Plain => self,
            }
        }
    }

    /// The index after the first `n` nodes of the document, in document
    /// order.
    pub open spec fn visit_upto(self, nodes: Seq<XmlNodeView>, n: int) -> XmlParserView
        decreases n,
    {
        if n <= 0 {
            self
        } else {
            self.visit_upto(nodes, n - 1).visit(nodes, n - 1)
        }
    }

    /// The index after the whole document.
    pub open spec fn indexed(self, nodes: Seq<XmlNodeView>) -> XmlParserView {
        self.visit_upto(nodes, nodes.len() as int)
    }
}

/// The index of one file.
pub struct XmlParser {
    /// The identifiers of the file, by path.
    pub ident_nodes: PathMap<IdentNode>,
    /// The references written in the file, by the path they name.
    pub refs: PathMap<Vec<RefNode>>,
    /// The line starts of the text that was indexed.
    pub lines: LineIndex,
    /// The name of the file.
    pub file: String,
    /// Whether the file belongs to the workspace.
    pub is_ws_file: bool,
    /// The vendor alias the file declares: overlay prefix and module path.
    pub vendor_mapping: Option<(String, String)>,
    /// Where a node was passed over for want of a text.
    pub diagnostics: Vec<TextPos>,
}

/// What a pair of optional strings stands for.
pub open spec fn mapping_view(mapping: Option<(String, String)>) -> Option<(Seq<char>, Seq<char>)> {
    match mapping {
        Some((overlay, module)) => Some((overlay@, module@)),
        None => None,
    }
}

/// What a map of identifiers stands for.
pub open spec fn idents_view(idents: Map<Seq<char>, IdentNode>) -> Map<Seq<char>, IdentNodeView> {
    idents.map_values(|n: IdentNode| n@)
}

/// What a map of reference lists stands for.
pub open spec fn ref_lists_view(refs: Map<Seq<char>, Vec<RefNode>>) -> Map<
    Seq<char>,
    Seq<RefNodeView>,
> {
    refs.map_values(|l: Vec<RefNode>| refs_view(l@))
}

impl View for XmlParser {
    type V = XmlParserView;

    open spec fn view(&self) -> XmlParserView {
        XmlParserView {
            ident_nodes: idents_view(self.ident_nodes@),
            refs: ref_lists_view(self.refs@),
            line_starts: self.lines.starts(),
            text_len: self.lines.text_len(),
            file: self.file@,
            is_ws_file: self.is_ws_file,
            vendor_mapping: mapping_view(self.vendor_mapping),
            diagnostics: self.diagnostics@,
        }
    }
}

/// The index of a file before anything is read: no identifier, no
/// reference, no alias, the line table of the empty text.
pub open spec fn empty_index(file: Seq<char>, is_ws_file: bool) -> XmlParserView {
    XmlParserView {
        ident_nodes: Map::empty(),
        refs: Map::empty(),
        line_starts: seq![0int],
        text_len: 0,
        file,
        is_ws_file,
        vendor_mapping: None,
        diagnostics: Seq::empty(),
    }
}

fn is_value_tag_of(tag: &str) -> (r: bool)
    ensures
        r == is_value_tag(tag@),
{
    text_eq(tag, "ECUC-CONTAINER-VALUE") || text_eq(tag, "ECUC-REFERENCE-VALUE") || text_eq(
        tag,
        "ECUC-NUMERICAL-PARAM-VALUE",
    ) || text_eq(tag, "ECUC-TEXTUAL-PARAM-VALUE")
}

fn is_text_of(value: Option<&String>, expected: &str) -> (r: bool)
    ensures
        r == (match value {
            Some(v) => Some(v@),
            None => None,
        } == Some(expected@)),
{
    match value {
        Some(v) => text_eq(v.as_str(), expected),
        None => false,
    }
}

/// The kind of a value, by the tag of its element and the kind of
/// definition that it refers to.
pub fn value_kind_of(tag: &str, dest: Option<&String>) -> (kind: SymbolKind)
    ensures
        kind == value_kind(
            tag@,
            match dest {
                Some(d) => Some(d@),
                None => None,
            },
        ),
{
    if text_eq(tag, "ECUC-TEXTUAL-PARAM-VALUE") {
        if is_text_of(dest, "ECUC-ENUMERATION-PARAM-DEF") {
            SymbolKind::Enum
        } else if is_text_of(dest, "ECUC-FUNCTION-NAME-DEF") {
            SymbolKind::Function
        } else {
            SymbolKind::String
        }
    } else if text_eq(tag, "ECUC-NUMERICAL-PARAM-VALUE") {
        if is_text_of(dest, "ECUC-BOOLEAN-PARAM-DEF") {
            SymbolKind::Boolean
        } else {
            SymbolKind::Number
        }
    } else {
        SymbolKind::Variable
    }
}

fn literal_in(doc: &XmlDocument, i: usize) -> (literal: String)
    requires
        i < doc@.len(),
    ensures
        literal@ == literal_of(doc@, i as int),
{
    let child = if text_eq(doc.node(i).tag_name.as_str(), "ECUC-REFERENCE-VALUE") {
        doc.child_tagged(i, "VALUE-REF")
    } else {
        doc.child_tagged(i, "VALUE")
    };
    match child {
        Some(v) => match doc.text_of(v) {
            Some(t) => t.clone(),
            None => String::new(),
        },
        None => String::new(),
    }
}

fn blank_ident() -> (ident: IdentNode)
    ensures
        ident@ == blank_ident_view(),
{
    let ident = IdentNode {
        short_name: String::new(),
        node: XmlParserNode {
            file: String::new(),
            start: TextPos { row: 0, col: 0 },
            end: TextPos { row: 0, col: 0 },
            range: 0..0,
            tag_name: String::new(),
            def_ref: None,
        },
        short_name_start: TextPos { row: 0, col: 0 },
        short_name_end: TextPos { row: 0, col: 0 },
        short_name_range: 0..0,
        path: String::new(),
        values: Vec::new(),
    };
    proof {
        assert(values_view(ident.values@) =~= Seq::<ValueNodeView>::empty());
    }
    ident
}

/// The identifier that stands in for one that is taken out of the index
/// for a moment: every text empty, every position and offset zero, no
/// definition and no value.
pub open spec fn blank_ident_view() -> IdentNodeView {
    IdentNodeView {
        short_name: Seq::empty(),
        node: XmlParserNodeView {
            file: Seq::empty(),
            start: TextPos { row: 0, col: 0 },
            end: TextPos { row: 0, col: 0 },
            range: (0, 0),
            tag_name: Seq::empty(),
            def_ref: None,
        },
        short_name_start: TextPos { row: 0, col: 0 },
        short_name_end: TextPos { row: 0, col: 0 },
        short_name_range: (0, 0),
        path: Seq::empty(),
        values: Seq::empty(),
    }
}

impl XmlParser {
    /// An index for the file `file_name`, with nothing in it yet.
    pub fn new(file_name: &str, is_ws_file: bool) -> (parser: XmlParser)
        ensures
            parser@ == empty_index(file_name@, is_ws_file),
    {
        let parser = XmlParser {
            ident_nodes: PathMap::new(),
            refs: PathMap::new(),
            lines: LineIndex::empty(),
            file: String::from_str(file_name),
            is_ws_file,
            vendor_mapping: None,
            diagnostics: Vec::new(),
        };
        proof {
            assert(parser@.ident_nodes =~= Map::empty());
            assert(parser@.refs =~= Map::empty());
        }
        parser
    }

    fn located(&self, node: &XmlNode, def_ref: Option<String>) -> (at: XmlParserNode)
        ensures
            at@ == self@.located(node@, option_text(def_ref)),
    {
        XmlParserNode {
            file: self.file.clone(),
            start: self.lines.offset_to_position(node.start),
            end: self.lines.offset_to_position(node.end),
            range: node.start..node.end,
            tag_name: node.tag_name.clone(),
            def_ref,
        }
    }

    fn report(&mut self, doc: &XmlDocument, at: usize)
        requires
            at < doc@.len(),
        ensures
            final(self)@ == old(self)@.reporting(doc@, at as int),
    {
        let pos = self.lines.offset_to_position(doc.node(at).start);
        self.diagnostics.push(pos);
    }

    fn insert_ident(&mut self, ident: IdentNode)
        ensures
            final(self)@ == old(self)@.with_ident(ident@),
    {
        let key = ident.path.clone();
        let ghost before = self.ident_nodes@;
        let _ = self.ident_nodes.insert(key, ident);
        proof {
            assert(idents_view(before.insert(ident.path@, ident)) =~= idents_view(before).insert(
                ident.path@,
                ident@,
            ));
        }
    }

    fn add_reference(&mut self, occurrence: RefNode)
        ensures
            final(self)@ == old(self)@.with_reference(occurrence@),
    {
        let ghost before = self.refs@;
        let ghost text = occurrence.text@;
        let n = self.refs.len();
        proof {
            crate::path_map::lemma_pairing(self.refs.keys(), self.refs.values());
        }
        match self.refs.find(occurrence.text.as_str()) {
            Some(place) => {
                let mut list = self.refs.replace_at(place, Vec::new());
                let ghost earlier = list@;
                list.push(occurrence);
                let _ = self.refs.replace_at(place, list);
                proof {
                    assert(before[text]@ == earlier);
                    assert(refs_view(earlier.push(occurrence)) =~= refs_view(earlier).push(
                        occurrence@,
                    ));
                    assert(self.refs@ =~= before.insert(text, list));
                    assert(ref_lists_view(before.insert(text, list)) =~= ref_lists_view(
                        before,
                    ).insert(text, refs_view(list@)));
                }
            },
            None => {
                let key = occurrence.text.clone();
                let mut list: Vec<RefNode> = Vec::new();
                list.push(occurrence);
                let _ = self.refs.insert(key, list);
                proof {
                    assert(refs_view(list@) =~= Seq::<RefNodeView>::empty().push(occurrence@));
                    assert(ref_lists_view(before.insert(text, list)) =~= ref_lists_view(
                        before,
                    ).insert(text, refs_view(list@)));
                }
            },
        }
    }

    fn add_value(&mut self, owner: &str, value: ValueNode)
        ensures
            final(self)@ == old(self)@.with_value(owner@, value@),
    {
        let ghost before = self.ident_nodes@;
        let n = self.ident_nodes.len();
        proof {
            crate::path_map::lemma_pairing(self.ident_nodes.keys(), self.ident_nodes.values());
        }
        match self.ident_nodes.find(owner) {
            Some(place) => {
                let mut ident = self.ident_nodes.replace_at(place, blank_ident());
                let ghost held = ident;
                ident.values.push(value);
                let _ = self.ident_nodes.replace_at(place, ident);
                proof {
                    assert(before[owner@] == held);
                    assert(values_view(held.values@.push(value)) =~= values_view(
                        held.values@,
                    ).push(value@));
                    assert(self.ident_nodes@ =~= before.insert(owner@, ident));
                    assert(idents_view(before.insert(owner@, ident)) =~= idents_view(
                        before,
                    ).insert(owner@, ident@));
                }
            },
            None => {},
        }
    }

    fn visit_identifier(
        &mut self,
        doc: &XmlDocument,
        i: usize,
        name: &String,
        token: usize,
        path: &String,
    )
        requires
            i < doc@.len(),
            token < doc@.len(),
            path@ == path_in(doc@, i as int),
        ensures
            final(self)@ == old(self)@.visit_identifier(doc@, i as int, name@, token as int),
    {
        let node = doc.node(i);
        let held = doc.node(token);
        let ghost before = self@;
        let mut def_ref: Option<String> = None;
        let span_start = self.lines.offset_to_position(held.start);
        let span_end = self.lines.offset_to_position(held.end);
        let at = self.located(node, None);
        if text_eq(node.tag_name.as_str(), "ECUC-CONTAINER-VALUE") {
            if let Some(d) = doc.child_tagged(i, "DEFINITION-REF") {
                match doc.text_of(d) {
                    Some(t) => {
                        def_ref = Some(t.clone());
                    },
                    None => {
                        self.report(doc, d);
                    },
                }
            }
        }
        let ident = IdentNode {
            short_name: name.clone(),
            node: XmlParserNode { def_ref, ..at },
            short_name_start: span_start,
            short_name_end: span_end,
            short_name_range: held.start..held.end,
            path: path.clone(),
            values: Vec::new(),
        };
        proof {
            assert(values_view(ident.values@) =~= Seq::<ValueNodeView>::empty());
        }
        self.insert_ident(ident);
    }

    fn visit_reference(
        &mut self,
        doc: &XmlDocument,
        i: usize,
        text: &String,
        token: usize,
        path: &String,
    )
        requires
            i < doc@.len(),
            token < doc@.len(),
            path@ == path_in(doc@, i as int),
        ensures
            final(self)@ == old(self)@.visit_reference(doc@, i as int, text@, token as int),
    {
        let node = doc.node(i);
        let held = doc.node(token);
        let occurrence = RefNode {
            file: self.file.clone(),
            start: self.lines.offset_to_position(node.start),
            end: self.lines.offset_to_position(node.end),
            range: node.start..node.end,
            tag_name: node.tag_name.clone(),
            text_start: self.lines.offset_to_position(held.start),
            text_end: self.lines.offset_to_position(held.end),
            text: text.clone(),
            text_range: held.start..held.end,
            path: path.clone(),
        };
        self.add_reference(occurrence);
        if text_eq(node.tag_name.as_str(), "REFINED-MODULE-DEF-REF") {
            self.vendor_mapping = Some((path.clone(), text.clone()));
        }
    }

    fn visit_value(
        &mut self,
        doc: &XmlDocument,
        i: usize,
        definition: usize,
        def_ref: &String,
        path: &String,
    )
        requires
            i < doc@.len(),
            definition < doc@.len(),
            path@ == path_in(doc@, i as int),
        ensures
            final(self)@ == old(self)@.visit_value(doc@, i as int, definition as int, def_ref@),
    {
        let node = doc.node(i);
        let name = last_segment_of(def_ref.as_str());
        let mut value_path = joined(path.as_str(), "/");
        vstd::string::StringExecFns::append(&mut value_path, name.as_str());
        let value = ValueNode {
            short_name: name,
            node: self.located(node, Some(def_ref.clone())),
            path: value_path,
            value: literal_in(doc, i),
            typ: value_kind_of(node.tag_name.as_str(), doc.attribute(definition, "DEST")),
        };
        self.add_value(path.as_str(), value);
    }

    /// Takes node `i` of the document into the index and gives the path
    /// that holds inside the node. `paths` holds that path for every node
    /// before it.
    fn visit_node(&mut self, doc: &XmlDocument, i: usize, paths: &Vec<String>) -> (path: String)
        requires
            i < doc@.len(),
            parents_precede(doc@),
            paths@.len() == i,
            forall|k: int| 0 <= k < i ==> (#[trigger] paths@[k])@ == path_in(doc@, k),
        ensures
            final(self)@ == old(self)@.visit(doc@, i as int),
            path@ == path_in(doc@, i as int),
    {
        let node = doc.node(i);
        let around = match node.parent {
            Some(p) => &paths[p],
            None => {
                return String::new();
            },
        };
        if let Some(identity) = doc.child_tagged(i, "SHORT-NAME") {
            match doc.text_token(identity) {
                Some((token, name)) => {
                    let mut path = joined(around.as_str(), "/");
                    vstd::string::StringExecFns::append(&mut path, name.as_str());
                    self.visit_identifier(doc, i, name, token, &path);
                    return path;
                },
                None => {
                    self.report(doc, identity);
                    return around.clone();
                },
            }
        }
        if doc.attribute(i, "DEST").is_some() {
            match doc.text_token(i) {
                Some((token, text)) => {
                    self.visit_reference(doc, i, text, token, around);
                },
                None => {
                    self.report(doc, i);
                },
            }
        } else if is_value_tag_of(node.tag_name.as_str()) {
            if let Some(definition) = doc.child_tagged(i, "DEFINITION-REF") {
                match doc.text_of(definition) {
                    Some(def_ref) => {
                        self.visit_value(doc, i, definition, def_ref, around);
                    },
                    None => {
                        self.report(doc, definition);
                    },
                }
            }
        }
        around.clone()
    }

    /// Takes a document into the index, node by node in document order.
    ///
    /// A node with an identity child becomes an identifier under the path
    /// of its enclosing identifiers and its own name. A node with the
    /// reference marker is recorded under the path it names. A node with a
    /// value tag and a definition adds a value to the identifier that
    /// encloses it. A node that lacks the text it needs is passed over, and
    /// its position recorded.
    pub fn traverse_xml(&mut self, doc: &XmlDocument)
        ensures
            final(self)@ == old(self)@.indexed(doc@),
    {
        let n = doc.len();
        let mut paths: Vec<String> = Vec::new();
        let mut i: usize = 0;
        while i < n
            invariant
                i <= n,
                n == doc@.len(),
                parents_precede(doc@),
                paths@.len() == i,
                forall|k: int| 0 <= k < i ==> (#[trigger] paths@[k])@ == path_in(doc@, k),
                self@ == old(self)@.visit_upto(doc@, i as int),
            decreases n - i,
        {
            let path = self.visit_node(doc, i, &paths);
            paths.push(path);
            i = i + 1;
        }
    }

    /// Empties the index and gives it the line table of `content`. The file
    /// and its membership stay.
    fn start_anew(&mut self, content: &str)
        ensures
            final(self)@ == started_anew(old(self)@, content@),
    {
        self.ident_nodes = PathMap::new();
        self.refs = PathMap::new();
        self.vendor_mapping = None;
        self.diagnostics = Vec::new();
        self.lines = LineIndex::build(content);
        proof {
            assert(self@.ident_nodes =~= Map::empty());
            assert(self@.refs =~= Map::empty());
        }
    }

    /// Replaces what the index holds by the index of `doc`, the document of
    /// `content`: nothing of what was there stays but the file and its
    /// membership, the line table is that of `content`, and every node is
    /// taken in.
    pub fn index_document(&mut self, content: &str, doc: &XmlDocument)
        ensures
            final(self)@ == started_anew(old(self)@, content@).indexed(doc@),
    {
        self.start_anew(content);
        self.traverse_xml(doc);
    }

    /// Parses `content` and replaces what the index holds by the index of
    /// its document. It succeeds exactly where the text is well-formed.
    /// Where it is not, the error is handed back and the index is left
    /// empty, with the line table of `content`. Either way nothing of what
    /// the index held before stays but the file and its membership, so
    /// parsing the same text again leaves the same index.
    pub fn parse(&mut self, content: &str) -> (done: Result<(), ParseError>)
        ensures
            done is Ok <==> parsed_nodes(content@) is Some,
            done matches Err(e) ==> e is Malformed,
            final(self)@ == reparsed(old(self)@, content@),
    {
        self.start_anew(content);
        match parse_document(content) {
            Ok(doc) => {
                self.traverse_xml(&doc);
                Ok(())
            },
            Err(e) => Err(e),
        }
    }
}

/// The index with the line table of `content` in place of its own.
pub open spec fn with_lines(index: XmlParserView, content: Seq<char>) -> XmlParserView {
    XmlParserView {
        line_starts: crate::position::line_starts(vstd::utf8::encode_utf8(content)),
        text_len: vstd::utf8::encode_utf8(content).len() as int,
        ..index
    }
}

/// The empty index of the same file, with the line table of `content`.
pub open spec fn started_anew(index: XmlParserView, content: Seq<char>) -> XmlParserView {
    with_lines(empty_index(index.file, index.is_ws_file), content)
}

/// The index that parsing `content` leaves in place of `index`: that of the
/// document of `content`, built from nothing, or the empty index where
/// `content` is not well-formed.
pub open spec fn reparsed(index: XmlParserView, content: Seq<char>) -> XmlParserView {
    match parsed_nodes(content) {
        Some(nodes) => started_anew(index, content).indexed(kept_nodes(nodes)),
        None => started_anew(index, content),
    }
}

/// Taking nodes in changes neither the file of an index, nor its
/// membership, nor its line table.
pub proof fn lemma_indexing_keeps_file(index: XmlParserView, nodes: Seq<XmlNodeView>, n: int)
    ensures
        index.visit_upto(nodes, n).file == index.file,
        index.visit_upto(nodes, n).is_ws_file == index.is_ws_file,
        index.visit_upto(nodes, n).line_starts == index.line_starts,
        index.visit_upto(nodes, n).text_len == index.text_len,
    decreases n,
{
    if n > 0 {
        lemma_indexing_keeps_file(index, nodes, n - 1);
    }
}

/// Parsing an unchanged text again leaves the index as the first parse
/// left it: the same identifiers, the same references, none of them twice.
pub proof fn lemma_reparse_unchanged(index: XmlParserView, content: Seq<char>)
    ensures
        reparsed(reparsed(index, content), content) == reparsed(index, content),
        reparsed(reparsed(index, content), content).ident_nodes == reparsed(
            index,
            content,
        ).ident_nodes,
        reparsed(reparsed(index, content), content).refs == reparsed(index, content).refs,
{
    match parsed_nodes(content) {
        Some(nodes) => {
            lemma_indexing_keeps_file(
                started_anew(index, content),
                kept_nodes(nodes),
                kept_nodes(nodes).len() as int,
            );
        },
        None => {},
    }
}

/// The segments of a reference that a caret has reached, each behind a `/`.
///
/// `pieces` are the segments still to come and `consumed` the bytes that
/// the segments before them take up, each counted with the separator behind
/// it. Empty segments count for nothing. A segment is reached where the
/// bytes consumed before it do not exceed `caret`.
pub open spec fn reached(pieces: Seq<Seq<char>>, consumed: int, caret: int) -> Seq<char>
    decreases pieces.len(),
{
    if pieces.len() == 0 {
        Seq::empty()
    } else if pieces[0].len() == 0 {
        reached(pieces.drop_first(), consumed, caret)
    } else {
        let rest = reached(
            pieces.drop_first(),
            consumed + encode_utf8(pieces[0]).len() + 1,
            caret,
        );
        if consumed <= caret {
            "/"@ + pieces[0] + rest
        } else {
            rest
        }
    }
}

/// The path that a caret at byte `caret` of the reference `text` stands on:
/// the segments of the reference up to the one under the caret.
pub open spec fn caret_path(text: Seq<char>, caret: int) -> Seq<char> {
    reached(segments(text), 0, caret)
}

/// Behind the caret no segment is reached.
pub proof fn lemma_reached_none(pieces: Seq<Seq<char>>, consumed: int, caret: int)
    requires
        consumed > caret,
    ensures
        reached(pieces, consumed, caret) == Seq::<char>::empty(),
    decreases pieces.len(),
{
    if pieces.len() > 0 {
        if pieces[0].len() == 0 {
            lemma_reached_none(pieces.drop_first(), consumed, caret);
        } else {
            lemma_reached_none(
                pieces.drop_first(),
                consumed + encode_utf8(pieces[0]).len() + 1,
                caret,
            );
        }
    }
}

/// The path under a caret inside a reference: the segments of
/// `reference_text` up to the one that holds byte `caret`, each behind a
/// `/`, together with the caret's offset from the start of the reference.
pub fn resolve_caret_segment(reference_text: &str, caret: usize) -> (found: (String, usize))
    ensures
        found.0@ == caret_path(reference_text@, caret as int),
        found.1 == caret,
{
    let pieces = split_segments(reference_text);
    let ghost all = texts_view(pieces@);
    let mut path = String::new();
    let mut consumed: usize = 0;
    let mut k: usize = 0;
    proof {
        assert(all.skip(0) =~= all);
        assert(path@ + reached(all, 0, caret as int) =~= reached(all, 0, caret as int));
    }
    while k < pieces.len()
        invariant
            k <= pieces.len(),
            all == texts_view(pieces@),
            all == segments(reference_text@),
            consumed <= caret,
            path@ + reached(all.skip(k as int), consumed as int, caret as int) == reached(
                all,
                0,
                caret as int,
            ),
        decreases pieces.len() - k,
    {
        let piece = &pieces[k];
        let ghost rest = all.skip(k + 1);
        let ghost before = path@;
        proof {
            assert(all.skip(k as int)[0] == piece@);
            assert(all.skip(k as int).drop_first() =~= rest);
        }
        let width = byte_len(piece.as_str());
        if width > 0 {
            proof {
                assert(piece@.len() > 0) by {
                    if piece@.len() == 0 {
                        assert(encode_utf8(piece@) =~= Seq::<u8>::empty());
                    }
                }
            }
            vstd::string::StringExecFns::append(&mut path, "/");
            vstd::string::StringExecFns::append(&mut path, piece.as_str());
            proof {
                let tail = reached(rest, consumed + width + 1, caret as int);
                assert(path@ + tail =~= before + ("/"@ + piece@ + tail));
            }
            if width >= caret - consumed {
                proof {
                    lemma_reached_none(rest, consumed + width + 1, caret as int);
                    assert(path@ + Seq::<char>::empty() =~= path@);
                }
                return (path, caret);
            }
            consumed = consumed + width + 1;
        } else {
            proof {
                assert(piece@.len() == 0) by {
                    if piece@.len() > 0 {
                        vstd::utf8::encode_utf8_first_scalar(piece@);
                    }
                }
            }
        }
        k = k + 1;
    }
    proof {
        assert(all.skip(pieces.len() as int) =~= Seq::<Seq<char>>::empty());
        assert(path@ + Seq::<char>::empty() =~= path@);
    }
    (path, caret)
}

/// Whether a byte range holds an offset, its two ends included.
pub open spec fn holds(range: (int, int), offset: int) -> bool {
    range.0 <= offset <= range.1
}

/// The place of the last of `idents` whose element holds `offset`.
pub open spec fn innermost(idents: Seq<IdentNode>, offset: int) -> Option<int>
    decreases idents.len(),
{
    if idents.len() == 0 {
        None
    } else if holds(bounds(idents.last().node.range), offset) {
        Some(idents.len() - 1)
    } else {
        innermost(idents.drop_last(), offset)
    }
}

/// The place of the first of `refs` whose text holds `offset`.
pub open spec fn first_holding(refs: Seq<RefNode>, offset: int) -> Option<int>
    decreases refs.len(),
{
    if refs.len() == 0 {
        None
    } else {
        match first_holding(refs.drop_last(), offset) {
            Some(k) => Some(k),
            None => if holds(bounds(refs.last().text_range), offset) {
                Some(refs.len() - 1)
            } else {
                None
            },
        }
    }
}

/// The first reference of the first of `lists` that has one whose text
/// holds `offset`.
pub open spec fn first_in_lists(lists: Seq<Vec<RefNode>>, offset: int) -> Option<RefNode>
    decreases lists.len(),
{
    if lists.len() == 0 {
        None
    } else {
        match first_in_lists(lists.drop_last(), offset) {
            Some(r) => Some(r),
            None => match first_holding(lists.last()@, offset) {
                Some(k) => Some(lists.last()@[k]),
                None => None,
            },
        }
    }
}

fn holding_in(refs: &Vec<RefNode>, offset: usize) -> (found: Option<usize>)
    ensures
        match found {
            Some(k) => first_holding(refs@, offset as int) == Some(k as int) && k < refs@.len()
                && holds(bounds(refs@[k as int].text_range), offset as int),
            None => first_holding(refs@, offset as int) is None,
        },
{
    let mut k: usize = 0;
    proof {
        assert(refs@.take(0) =~= Seq::<RefNode>::empty());
    }
    while k < refs.len()
        invariant
            k <= refs.len(),
            first_holding(refs@.take(k as int), offset as int) is None,
        decreases refs.len() - k,
    {
        proof {
            assert(refs@.take(k + 1).drop_last() =~= refs@.take(k as int));
            assert(refs@.take(k + 1).last() == refs@[k as int]);
        }
        if refs[k].text_range.start <= offset && offset <= refs[k].text_range.end {
            proof {
                lemma_first_holding_extends(refs@, k + 1, offset as int);
            }
            return Some(k);
        }
        k = k + 1;
    }
    proof {
        assert(refs@.take(refs.len() as int) =~= refs@);
    }
    None
}

/// What is first among the first `n` references is first among all.
proof fn lemma_first_holding_extends(refs: Seq<RefNode>, n: int, offset: int)
    requires
        0 <= n <= refs.len(),
        first_holding(refs.take(n), offset) is Some,
    ensures
        first_holding(refs, offset) == first_holding(refs.take(n), offset),
    decreases refs.len() - n,
{
    if n < refs.len() {
        assert(refs.take(n + 1).drop_last() =~= refs.take(n));
        lemma_first_holding_extends(refs, n + 1, offset);
    } else {
        assert(refs.take(n) =~= refs);
    }
}

/// What is first among the first `n` lists is first among all.
proof fn lemma_first_in_lists_extends(lists: Seq<Vec<RefNode>>, n: int, offset: int)
    requires
        0 <= n <= lists.len(),
        first_in_lists(lists.take(n), offset) is Some,
    ensures
        first_in_lists(lists, offset) == first_in_lists(lists.take(n), offset),
    decreases lists.len() - n,
{
    if n < lists.len() {
        assert(lists.take(n + 1).drop_last() =~= lists.take(n));
        lemma_first_in_lists_extends(lists, n + 1, offset);
    } else {
        assert(lists.take(n) =~= lists);
    }
}

/// The identifier of an index at a line and column, both counted from 0:
/// of the identifiers whose element holds that place, the last in path
/// order.
pub open spec fn ident_at(parser: XmlParser, line: int, position: int) -> Option<IdentNode> {
    match offset_at(parser@.line_starts, parser@.text_len, line, position) {
        Some(offset) => match innermost(parser.ident_nodes.values(), offset) {
            Some(i) => Some(parser.ident_nodes.values()[i]),
            None => None,
        },
        None => None,
    }
}

/// The reference of an index under a line and column, both counted from 0:
/// the path that the caret stands on inside the first reference whose text
/// holds that place, and the caret's offset from the start of that text.
pub open spec fn ref_text_at(parser: XmlParser, line: int, position: int) -> Option<
    (Seq<char>, int),
> {
    match offset_at(parser@.line_starts, parser@.text_len, line, position) {
        Some(offset) => match first_in_lists(parser.refs.values(), offset) {
            Some(r) => Some(
                (caret_path(r.text@, offset - r.text_range.start), offset - r.text_range.start),
            ),
            None => None,
        },
        None => None,
    }
}

impl XmlParser {
    /// The identifier at a line and column, both counted from 0: of the
    /// identifiers whose element holds that place, the last in path order,
    /// which lies innermost.
    pub fn get_ident_node_at(&self, line: usize, position: usize) -> (found: Option<&IdentNode>)
        ensures
            match found {
                Some(ident) => ident_at(*self, line as int, position as int) == Some(*ident),
                None => ident_at(*self, line as int, position as int) is None,
            },
    {
        let offset = match self.lines.position_to_offset(line, position) {
            Some(o) => o,
            None => {
                return None;
            },
        };
        let ghost all = self.ident_nodes.values();
        let mut i: usize = self.ident_nodes.len();
        proof {
            assert(all.take(i as int) =~= all);
        }
        while i > 0
            invariant
                i <= all.len(),
                all == self.ident_nodes.values(),
                offset_at(self@.line_starts, self@.text_len, line as int, position as int) == Some(
                    offset as int,
                ),
                innermost(all, offset as int) == innermost(all.take(i as int), offset as int),
            decreases i,
        {
            let node = self.ident_nodes.value_at(i - 1);
            proof {
                assert(all.take(i as int).last() == all[i - 1]);
                assert(all.take(i as int).drop_last() =~= all.take(i - 1));
            }
            if node.node.range.start <= offset && offset <= node.node.range.end {
                return Some(node);
            }
            i = i - 1;
        }
        None
    }

    /// The reference under a line and column, both counted from 0: the path
    /// that the caret stands on inside the first reference whose text holds
    /// that place, and the caret's offset from the start of that text.
    pub fn get_ref_text_at(&self, line: usize, position: usize) -> (found: Option<(String, usize)>)
        ensures
            match found {
                Some((path, caret)) => ref_text_at(*self, line as int, position as int) == Some(
                    (path@, caret as int),
                ),
                None => ref_text_at(*self, line as int, position as int) is None,
            },
    {
        let offset = match self.lines.position_to_offset(line, position) {
            Some(o) => o,
            None => {
                return None;
            },
        };
        let ghost lists = self.refs.values();
        let n = self.refs.len();
        let mut i: usize = 0;
        proof {
            assert(lists.take(0) =~= Seq::<Vec<RefNode>>::empty());
        }
        while i < n
            invariant
                i <= n,
                n == lists.len(),
                lists == self.refs.values(),
                offset_at(self@.line_starts, self@.text_len, line as int, position as int) == Some(
                    offset as int,
                ),
                first_in_lists(lists.take(i as int), offset as int) is None,
            decreases n - i,
        {
            let list = self.refs.value_at(i);
            proof {
                assert(lists.take(i + 1).drop_last() =~= lists.take(i as int));
                assert(lists.take(i + 1).last() == lists[i as int]);
            }
            if let Some(k) = holding_in(list, offset) {
                proof {
                    lemma_first_in_lists_extends(lists, i + 1, offset as int);
                }
                let occurrence = &list[k];
                return Some(
                    resolve_caret_segment(
                        occurrence.text.as_str(),
                        offset - occurrence.text_range.start,
                    ),
                );
            }
            i = i + 1;
        }
        proof {
            assert(lists.take(n as int) =~= lists);
        }
        None
    }
}

/// Every identifier of the index is kept under its own path.
pub open spec fn keyed_by_path(index: XmlParserView) -> bool {
    forall|k: Seq<char>| #[trigger]
        index.ident_nodes.contains_key(k) ==> index.ident_nodes[k].path == k
}

/// Identity goes by path: where every identifier is kept under its own
/// path, it still is after any number of nodes of a document are taken in.
/// The path of an identifier taken in is the path that holds inside its
/// node: the short names of its enclosing identifiers and its own.
pub proof fn lemma_identifiers_keyed_by_path(index: XmlParserView, nodes: Seq<XmlNodeView>, n: int)
    requires
        keyed_by_path(index),
    ensures
        keyed_by_path(index.visit_upto(nodes, n)),
    decreases n,
{
    if n > 0 {
        lemma_identifiers_keyed_by_path(index, nodes, n - 1);
        let before = index.visit_upto(nodes, n - 1);
        let after = before.visit(nodes, n - 1);
        assert forall|k: Seq<char>| #[trigger]
            after.ident_nodes.contains_key(k) implies after.ident_nodes[k].path == k by {
            if before.ident_nodes.contains_key(k) {
                assert(before.ident_nodes[k].path == k);
            }
        }
    }
}

} // verus!
