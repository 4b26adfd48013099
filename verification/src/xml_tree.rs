//! The parsed document as plain data: its nodes in document order, each
//! naming its parent, with the lookups the indexer makes on them.

use crate::text::text_eq;
use vstd::prelude::*;

verus! {

/// One attribute of an element: local name and value.
pub struct XmlAttribute {
    pub name: String,
    pub value: String,
}

/// One node of a document.
pub struct XmlNode {
    /// Place of the parent in the document; `None` for a node without one.
    pub parent: Option<usize>,
    /// Whether the node is character data.
    pub is_text: bool,
    /// Local tag name; empty for a node that is no element.
    pub tag_name: String,
    /// Attributes, in the order written.
    pub attributes: Vec<XmlAttribute>,
    /// The characters of a text node.
    pub text: Option<String>,
    /// Byte offset at which the node starts.
    pub start: usize,
    /// Byte offset at which the node ends.
    pub end: usize,
}

/// What an [`XmlAttribute`] stands for.
pub struct XmlAttributeView {
    pub name: Seq<char>,
    pub value: Seq<char>,
}

/// What an [`XmlNode`] stands for.
pub struct XmlNodeView {
    pub parent: Option<int>,
    pub is_text: bool,
    pub tag_name: Seq<char>,
    pub attributes: Seq<XmlAttributeView>,
    pub text: Option<Seq<char>>,
    pub start: int,
    pub end: int,
}

impl View for XmlAttribute {
    type V = XmlAttributeView;

    open spec fn view(&self) -> XmlAttributeView {
        XmlAttributeView { name: self.name@, value: self.value@ }
    }
}

/// The text behind an optional string.
pub open spec fn option_text(s: Option<String>) -> Option<Seq<char>> {
    match s {
        Some(t) => Some(t@),
        None => None,
    }
}

impl View for XmlNode {
    type V = XmlNodeView;

    open spec fn view(&self) -> XmlNodeView {
        XmlNodeView {
            parent: match self.parent {
                Some(p) => Some(p as int),
                None => None,
            },
            is_text: self.is_text,
            tag_name: self.tag_name@,
            attributes: self.attributes@.map_values(|a: XmlAttribute| a@),
            text: option_text(self.text),
            start: self.start as int,
            end: self.end as int,
        }
    }
}

/// What a list of nodes stands for.
pub open spec fn nodes_view(nodes: Seq<XmlNode>) -> Seq<XmlNodeView> {
    nodes.map_values(|n: XmlNode| n@)
}

/// Every node that names a parent comes behind it.
pub open spec fn parents_precede(nodes: Seq<XmlNodeView>) -> bool {
    forall|j: int|
        0 <= j < nodes.len() ==> match (#[trigger] nodes[j]).parent {
            Some(p) => 0 <= p < j,
            None => true,
        }
}

/// A node as a document keeps it: only a text node carries characters.
pub open spec fn kept(node: XmlNodeView) -> XmlNodeView {
    XmlNodeView {
        text: if node.is_text {
            node.text
        } else {
            None
        },
        ..node
    }
}

/// The nodes as a document keeps them.
pub open spec fn kept_nodes(nodes: Seq<XmlNodeView>) -> Seq<XmlNodeView> {
    nodes.map_values(|n: XmlNodeView| kept(n))
}

/// The children of node `i` among the first `n` nodes, in document order.
pub open spec fn children_upto(nodes: Seq<XmlNodeView>, i: int, n: int) -> Seq<int>
    decreases n,
{
    if n <= 0 {
        Seq::empty()
    } else if n <= nodes.len() && nodes[n - 1].parent == Some(i) {
        children_upto(nodes, i, n - 1).push(n - 1)
    } else {
        children_upto(nodes, i, n - 1)
    }
}

/// The children of node `i`, in document order.
pub open spec fn children(nodes: Seq<XmlNodeView>, i: int) -> Seq<int> {
    children_upto(nodes, i, nodes.len() as int)
}

/// The first of `kids` whose tag is `tag`.
pub open spec fn first_tagged(nodes: Seq<XmlNodeView>, kids: Seq<int>, tag: Seq<char>) -> Option<
    int,
>
    decreases kids.len(),
{
    if kids.len() == 0 {
        None
    } else if nodes[kids[0]].tag_name == tag {
        Some(kids[0])
    } else {
        first_tagged(nodes, kids.drop_first(), tag)
    }
}

/// The first child of node `i` whose tag is `tag`.
pub open spec fn child_tagged(nodes: Seq<XmlNodeView>, i: int, tag: Seq<char>) -> Option<int> {
    first_tagged(nodes, children(nodes, i), tag)
}

/// The first child of node `i`.
pub open spec fn first_child(nodes: Seq<XmlNodeView>, i: int) -> Option<int> {
    if children(nodes, i).len() > 0 {
        Some(children(nodes, i)[0])
    } else {
        None
    }
}

/// The node that holds the text of node `i`: itself where it is a text node,
/// else its first child where that is one.
pub open spec fn text_node(nodes: Seq<XmlNodeView>, i: int) -> Option<int> {
    if nodes[i].is_text {
        Some(i)
    } else {
        match first_child(nodes, i) {
            Some(c) => if nodes[c].is_text {
                Some(c)
            } else {
                None
            },
            None => None,
        }
    }
}

/// The text of node `i`: its own for a text node, else that of its first
/// child where that child is a text node.
pub open spec fn node_text(nodes: Seq<XmlNodeView>, i: int) -> Option<Seq<char>> {
    match text_node(nodes, i) {
        Some(h) => nodes[h].text,
        None => None,
    }
}

/// The node that holds the text of node `i`, with that text.
pub open spec fn text_token(nodes: Seq<XmlNodeView>, i: int) -> Option<(int, Seq<char>)> {
    match text_node(nodes, i) {
        Some(h) => match nodes[h].text {
            Some(t) => Some((h, t)),
            None => None,
        },
        None => None,
    }
}

/// The value of the first of `attributes` named `name`.
pub open spec fn attribute_value(attributes: Seq<XmlAttributeView>, name: Seq<char>) -> Option<
    Seq<char>,
>
    decreases attributes.len(),
{
    if attributes.len() == 0 {
        None
    } else if attributes[0].name == name {
        Some(attributes[0].value)
    } else {
        attribute_value(attributes.drop_first(), name)
    }
}

/// Children are found among the nodes before `n` alone.
pub proof fn lemma_children_upto_prefix(a: Seq<XmlNodeView>, b: Seq<XmlNodeView>, i: int, n: int)
    requires
        n <= a.len(),
        n <= b.len(),
        forall|j: int| 0 <= j < n ==> a[j].parent == b[j].parent,
    ensures
        children_upto(a, i, n) == children_upto(b, i, n),
    decreases n,
{
    if n > 0 {
        lemma_children_upto_prefix(a, b, i, n - 1);
    }
}

/// Children come in increasing order, each behind none but nodes of the
/// document, and each names `i` as its parent; every node that does is one.
pub proof fn lemma_children(nodes: Seq<XmlNodeView>, i: int, n: int)
    requires
        n <= nodes.len(),
    ensures
        forall|k: int|
            0 <= k < children_upto(nodes, i, n).len() ==> 0 <= #[trigger] children_upto(
                nodes,
                i,
                n,
            )[k] < n && nodes[children_upto(nodes, i, n)[k]].parent == Some(i),
        forall|k: int, l: int|
            0 <= k < l < children_upto(nodes, i, n).len() ==> children_upto(nodes, i, n)[k]
                < children_upto(nodes, i, n)[l],
        forall|j: int|
            0 <= j < n && nodes[j].parent == Some(i) ==> children_upto(nodes, i, n).contains(j),
    decreases n,
{
    if n > 0 {
        lemma_children(nodes, i, n - 1);
        let rest = children_upto(nodes, i, n - 1);
        let all = children_upto(nodes, i, n);
        assert forall|j: int| 0 <= j < n && nodes[j].parent == Some(i) implies all.contains(
            j,
        ) by {
            if j < n - 1 {
                assert(rest.contains(j));
                let k = choose|k: int| 0 <= k < rest.len() && rest[k] == j;
                assert(all[k] == j);
            } else {
                assert(all[all.len() - 1] == j);
            }
        }
    }
}

struct Slot {
    node: XmlNode,
    kids: Vec<usize>,
}

/// A document: nodes in document order, each behind its parent.
pub struct XmlDocument {
    slots: Vec<Slot>,
}

spec fn places(kids: Seq<usize>) -> Seq<int> {
    kids.map_values(|k: usize| k as int)
}

spec fn slot_nodes(slots: Seq<Slot>) -> Seq<XmlNodeView> {
    slots.map_values(|s: Slot| s.node@)
}

spec fn consistent(slots: Seq<Slot>) -> bool {
    &&& parents_precede(slot_nodes(slots))
    &&& forall|i: int|
        0 <= i < slots.len() ==> !(#[trigger] slots[i]).node.is_text ==> slots[i].node.text is None
    &&& forall|i: int|
        0 <= i < slots.len() ==> places((#[trigger] slots[i]).kids@) == children(
            slot_nodes(slots),
            i,
        )
}

impl View for XmlDocument {
    type V = Seq<XmlNodeView>;

    closed spec fn view(&self) -> Seq<XmlNodeView> {
        slot_nodes(self.slots@)
    }
}

impl XmlDocument {
    #[verifier::type_invariant]
    spec fn well_formed(self) -> bool {
        consistent(self.slots@)
    }

    /// A document without nodes.
    pub fn new() -> (doc: XmlDocument)
        ensures
            doc@ == Seq::<XmlNodeView>::empty(),
    {
        let doc = XmlDocument { slots: Vec::new() };
        proof {
            assert(doc@ =~= Seq::<XmlNodeView>::empty());
        }
        doc
    }

    /// The number of nodes. Every node comes behind its parent, and only
    /// text nodes carry characters.
    pub fn len(&self) -> (n: usize)
        ensures
            n == self@.len(),
            parents_precede(self@),
            kept_nodes(self@) == self@,
    {
        proof {
            use_type_invariant(self);
            assert(kept_nodes(self@) =~= self@);
        }
        self.slots.len()
    }

    /// Node `i`.
    pub fn node(&self, i: usize) -> (node: &XmlNode)
        requires
            i < self@.len(),
        ensures
            node@ == self@[i as int],
    {
        &self.slots[i].node
    }

    /// Adds `node` at the end, where its parent is a node of the document,
    /// and gives its place. A node that is no text node is kept without
    /// characters.
    pub fn push(&mut self, node: XmlNode) -> (place: Option<usize>)
        ensures
            match node@.parent {
                Some(p) if p >= old(self)@.len() => place is None && final(self)@ == old(self)@,
                _ => place == Some(old(self)@.len() as usize) && final(self)@ == old(self)@.push(
                    kept(node@),
                ),
            },
    {
        proof {
            use_type_invariant(&*self);
        }
        let n = self.slots.len();
        if let Some(p) = node.parent {
            if p >= n {
                return None;
            }
        }
        let ghost before = slot_nodes(self.slots@);
        let mut slots: Vec<Slot> = Vec::new();
        proof {
            assert(consistent(slots@));
        }
        core::mem::swap(&mut self.slots, &mut slots);
        let parent = node.parent;
        let kept_node = XmlNode {
            parent: node.parent,
            is_text: node.is_text,
            tag_name: node.tag_name,
            attributes: node.attributes,
            text: if node.is_text {
                node.text
            } else {
                None
            },
            start: node.start,
            end: node.end,
        };
        let ghost old_slots = slots@;
        slots.push(Slot { node: kept_node, kids: Vec::new() });
        if let Some(p) = parent {
            slots[p].kids.push(n);
        }
        proof {
            let after = slot_nodes(slots@);
            assert(after =~= before.push(kept(node@)));
            assert forall|i: int| 0 <= i < slots@.len() implies places(
                (#[trigger] slots@[i]).kids@,
            ) == children(after, i) by {
                lemma_children_upto_prefix(before, after, i, n as int);
                if i < n {
                    assert(places(old_slots[i].kids@) == children(before, i));
                    if parent == Some(i as usize) {
                        assert(places(slots@[i].kids@) =~= places(old_slots[i].kids@).push(
                            n as int,
                        ));
                    } else {
                        assert(slots@[i].kids@ == old_slots[i].kids@);
                    }
                } else {
                    lemma_children(after, i, n as int);
                    assert(places(slots@[i].kids@) =~= Seq::<int>::empty());
                    if children_upto(after, i, n as int).len() > 0 {
                        assert(children_upto(after, i, n as int)[0] < n);
                        assert(after[children_upto(after, i, n as int)[0]].parent == Some(i));
                    }
                }
            }
            assert(consistent(slots@));
        }
        core::mem::swap(&mut self.slots, &mut slots);
        Some(n)
    }

    /// The document made of `nodes`, where each of them comes behind its
    /// parent.
    pub fn from_nodes(nodes: Vec<XmlNode>) -> (made: Option<XmlDocument>)
        ensures
            match made {
                Some(doc) => parents_precede(nodes_view(nodes@)) && doc@ == kept_nodes(
                    nodes_view(nodes@),
                ),
                None => !parents_precede(nodes_view(nodes@)),
            },
    {
        let mut doc = XmlDocument::new();
        let ghost all = nodes_view(nodes@);
        for node in it: nodes
            invariant
                it.seq() == nodes@,
                all == nodes_view(nodes@),
                doc@ == kept_nodes(all.take(it.index())),
                parents_precede(all.take(it.index())),
        {
            let ghost k = it.index();
            let ghost seen = doc@;
            proof {
                assert(all[k] == node@);
            }
            if doc.push(node).is_none() {
                return None;
            }
            proof {
                assert(all.take(k + 1) =~= all.take(k).push(all[k]));
                assert(kept_nodes(all.take(k + 1)) =~= seen.push(kept(all[k])));
                assert forall|j: int| 0 <= j < k + 1 implies match (#[trigger] all.take(
                    k + 1,
                )[j]).parent {
                    Some(p) => 0 <= p < j,
                    None => true,
                } by {
                    if j < k {
                        assert(all.take(k)[j] == all.take(k + 1)[j]);
                    }
                }
            }
        }
        proof {
            assert(all.take(all.len() as int) =~= all);
        }
        Some(doc)
    }

    /// The first child of node `i`.
    pub fn first_child(&self, i: usize) -> (child: Option<usize>)
        requires
            i < self@.len(),
        ensures
            match child {
                Some(c) => first_child(self@, i as int) == Some(c as int) && i < c < self@.len(),
                None => first_child(self@, i as int) is None,
            },
    {
        proof {
            use_type_invariant(self);
            lemma_children(self@, i as int, self@.len() as int);
        }
        let kids = &self.slots[i].kids;
        if kids.len() > 0 {
            proof {
                assert(places(kids@)[0] == kids@[0]);
            }
            Some(kids[0])
        } else {
            None
        }
    }

    /// The first child of node `i` whose tag is `tag`.
    pub fn child_tagged(&self, i: usize, tag: &str) -> (child: Option<usize>)
        requires
            i < self@.len(),
        ensures
            match child {
                Some(c) => child_tagged(self@, i as int, tag@) == Some(c as int) && i < c
                    < self@.len(),
                None => child_tagged(self@, i as int, tag@) is None,
            },
    {
        proof {
            use_type_invariant(self);
            lemma_children(self@, i as int, self@.len() as int);
        }
        let kids = &self.slots[i].kids;
        let ghost all = places(kids@);
        let mut k: usize = 0;
        proof {
            assert(all.skip(0) =~= all);
        }
        while k < kids.len()
            invariant
                k <= kids.len(),
                i < self.slots@.len(),
                kids == &self.slots@[i as int].kids,
                all == places(kids@),
                all == children(self@, i as int),
                forall|l: int| 0 <= l < all.len() ==> i < #[trigger] all[l] < self@.len(),
                first_tagged(self@, all, tag@) == first_tagged(self@, all.skip(k as int), tag@),
            decreases kids.len() - k,
        {
            let c = kids[k];
            proof {
                assert(all[k as int] == c);
                assert(all.skip(k as int)[0] == c);
                assert(all.skip(k as int).drop_first() =~= all.skip(k + 1));
            }
            if text_eq(self.slots[c].node.tag_name.as_str(), tag) {
                return Some(c);
            }
            k = k + 1;
        }
        None
    }

    /// The node that holds the text of node `i`.
    pub fn text_node(&self, i: usize) -> (holder: Option<usize>)
        requires
            i < self@.len(),
        ensures
            match holder {
                Some(h) => text_node(self@, i as int) == Some(h as int) && h < self@.len(),
                None => text_node(self@, i as int) is None,
            },
    {
        proof {
            assert(self@[i as int] == self.slots@[i as int].node@);
        }
        if self.slots[i].node.is_text {
            return Some(i);
        }
        match self.first_child(i) {
            Some(c) => {
                proof {
                    assert(self@[c as int] == self.slots@[c as int].node@);
                }
                if self.slots[c].node.is_text {
                    Some(c)
                } else {
                    None
                }
            },
            None => None,
        }
    }

    /// The text of node `i`: its own for a text node, else that of its first
    /// child where that child is a text node.
    pub fn text_of(&self, i: usize) -> (text: Option<&String>)
        requires
            i < self@.len(),
        ensures
            match text {
                Some(t) => node_text(self@, i as int) == Some(t@),
                None => node_text(self@, i as int) is None,
            },
    {
        match self.text_node(i) {
            Some(h) => {
                proof {
                    assert(self@[h as int] == self.slots@[h as int].node@);
                }
                match &self.slots[h].node.text {
                    Some(t) => Some(t),
                    None => None,
                }
            },
            None => None,
        }
    }

    /// The node that holds the text of node `i`, with that text.
    pub fn text_token(&self, i: usize) -> (token: Option<(usize, &String)>)
        requires
            i < self@.len(),
        ensures
            match token {
                Some((h, t)) => text_token(self@, i as int) == Some((h as int, t@)) && h
                    < self@.len(),
                None => text_token(self@, i as int) is None,
            },
    {
        match self.text_node(i) {
            Some(h) => {
                proof {
                    assert(self@[h as int] == self.slots@[h as int].node@);
                }
                match &self.slots[h].node.text {
                    Some(t) => Some((h, t)),
                    None => None,
                }
            },
            None => None,
        }
    }

    /// The value of the first attribute of node `i` named `name`.
    pub fn attribute(&self, i: usize, name: &str) -> (value: Option<&String>)
        requires
            i < self@.len(),
        ensures
            match value {
                Some(v) => attribute_value(self@[i as int].attributes, name@) == Some(v@),
                None => attribute_value(self@[i as int].attributes, name@) is None,
            },
    {
        let attributes = &self.slots[i].node.attributes;
        let ghost all = self@[i as int].attributes;
        let mut k: usize = 0;
        proof {
            assert(all.skip(0) =~= all);
        }
        while k < attributes.len()
            invariant
                k <= attributes.len(),
                i < self@.len(),
                all == self@[i as int].attributes,
                all == attributes@.map_values(|a: XmlAttribute| a@),
                attribute_value(all, name@) == attribute_value(all.skip(k as int), name@),
            decreases attributes.len() - k,
        {
            proof {
                assert(all.skip(k as int)[0] == attributes@[k as int]@);
                assert(all.skip(k as int).drop_first() =~= all.skip(k + 1));
            }
            if text_eq(attributes[k].name.as_str(), name) {
                return Some(&attributes[k].value);
            }
            k = k + 1;
        }
        None
    }
}

/// Why a file has no index.
pub enum ParseError {
    /// The file could not be read.
    Unreadable(String),
    /// The text is not a well-formed document.
    Malformed(String),
}

impl ParseError {
    /// The words that came with the error.
    pub fn message(&self) -> (text: &String)
        ensures
            text == match self {
                ParseError::Unreadable(m) => m,
                ParseError::Malformed(m) => m,
            },
    {
        match self {
            ParseError::Unreadable(m) => m,
            ParseError::Malformed(m) => m,
        }
    }
}

#[verifier::external_type_specification]
#[verifier::external_body]
pub struct ExXmlError(roxmltree::Error);

/// What `roxmltree` makes of a text: its nodes in document order, each with
/// the place of its parent, or nothing where the text is not well-formed.
pub uninterp spec fn parsed_nodes(content: Seq<char>) -> Option<Seq<XmlNodeView>>;

/// `roxmltree::Document::parse`, its tree handed out node by node as
/// `descendants` walks it: in document order, so that the place of a node is
/// its id. The result is a function of the text alone and is named
/// [`parsed_nodes`]; an error stands for a text that is not well-formed.
/// Every node but the root is appended under a node that the tree already
/// holds, so each comes behind its parent.
#[verifier::external_body]
fn read_nodes(content: &str) -> (r: Result<Vec<XmlNode>, roxmltree::Error>)
    ensures
        match r {
            Ok(nodes) => parsed_nodes(content@) == Some(nodes_view(nodes@)),
            Err(_) => parsed_nodes(content@) is None,
        },
        r matches Ok(nodes) ==> parents_precede(nodes_view(nodes@)),
{
    let doc = roxmltree::Document::parse(content)?;
    Ok(doc.descendants().map(|n| XmlNode {
        parent: n.parent().map(|p| p.id().get_usize()),
        is_text: n.is_text(),
        tag_name: n.tag_name().name().to_string(),
        attributes: n.attributes().map(|a| XmlAttribute { name: a.name().to_string(), value: a.value().to_string() }).collect(),
        text: n.text().map(|t| t.to_string()),
        start: n.range().start,
        end: n.range().end,
    }).collect())
}

/// The `Display` text of a `roxmltree::Error`.
#[verifier::external_body]
fn error_text(error: &roxmltree::Error) -> (text: String) {
    error.to_string()
}

/// The document that `nodes` make, or the error that stands in their place.
pub fn document_from(nodes: Result<Vec<XmlNode>, String>) -> (made: Result<XmlDocument, ParseError>)
    ensures
        match made {
            Ok(doc) => nodes matches Ok(list) && parents_precede(nodes_view(list@)) && doc@
                == kept_nodes(nodes_view(list@)),
            Err(ParseError::Malformed(m)) => match nodes {
                Ok(list) => !parents_precede(nodes_view(list@)),
                Err(text) => m == text,
            },
            Err(ParseError::Unreadable(_)) => false,
        },
{
    match nodes {
        Ok(list) => match XmlDocument::from_nodes(list) {
            Some(doc) => Ok(doc),
            None => Err(ParseError::Malformed(String::new())),
        },
        Err(text) => Err(ParseError::Malformed(text)),
    }
}

/// Parses `content` into a document. It fails exactly where the text is not
/// well-formed.
pub fn parse_document(content: &str) -> (made: Result<XmlDocument, ParseError>)
    ensures
        match made {
            Ok(doc) => parsed_nodes(content@) matches Some(nodes) && doc@ == kept_nodes(nodes),
            Err(e) => e is Malformed && parsed_nodes(content@) is None,
        },
{
    match read_nodes(content) {
        Ok(list) => document_from(Ok(list)),
        Err(error) => document_from(Err(error_text(&error))),
    }
}

} // verus!
