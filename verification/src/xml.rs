use vstd::prelude::*;

use crate::types::text_is;

verus! {

/// One attribute of an XML element: its local name and its value.
pub struct XmlAttribute {
    pub name: String,
    pub value: String,
}

/// One node of a parsed XML document.
///
/// A document is a `Vec<XmlNode>` in document order: index 0 is the document
/// root, and `parent` holds the index of the enclosing node. Only elements
/// carry a tag name and attributes; other nodes (text, comments, processing
/// instructions, the root) have an empty tag and no attributes.
pub struct XmlNode {
    pub is_element: bool,
    pub tag: String,
    pub attributes: Vec<XmlAttribute>,
    pub parent: Option<usize>,
}

/// The mathematical value of an `XmlNode`.
pub struct XmlNodeView {
    pub is_element: bool,
    pub tag: Seq<char>,
    pub attributes: Seq<(Seq<char>, Seq<char>)>,
    pub parent: Option<usize>,
}

impl View for XmlAttribute {
    type V = (Seq<char>, Seq<char>);

    open spec fn view(&self) -> (Seq<char>, Seq<char>) {
        (self.name@, self.value@)
    }
}

impl View for XmlNode {
    type V = XmlNodeView;

    open spec fn view(&self) -> XmlNodeView {
        XmlNodeView {
            is_element: self.is_element,
            tag: self.tag@,
            attributes: self.attributes@.map_values(|a: XmlAttribute| a@),
            parent: self.parent,
        }
    }
}

/// The view of a whole document.
pub open spec fn nodes_view(nodes: Seq<XmlNode>) -> Seq<XmlNodeView> {
    nodes.map_values(|n: XmlNode| n@)
}

/// The value of the first attribute called `name`, if any.
pub open spec fn attr_lookup(attrs: Seq<(Seq<char>, Seq<char>)>, name: Seq<char>) -> Option<Seq<char>>
    decreases attrs.len(),
{
    if attrs.len() == 0 {
        None
    } else if attrs[0].0 == name {
        Some(attrs[0].1)
    } else {
        attr_lookup(attrs.drop_first(), name)
    }
}

/// The first node at or after `start` whose parent is `parent` and whose tag is `tag`.
pub open spec fn child_with_tag_from(
    nodes: Seq<XmlNodeView>,
    parent: usize,
    tag: Seq<char>,
    start: int,
) -> Option<usize>
    decreases nodes.len() - start,
{
    if start < 0 || start >= nodes.len() {
        None
    } else if nodes[start].parent == Some(parent) && nodes[start].tag == tag {
        Some(start as usize)
    } else {
        child_with_tag_from(nodes, parent, tag, start + 1)
    }
}

/// The first child of node `parent` whose tag is `tag`, in document order.
pub open spec fn child_with_tag(nodes: Seq<XmlNodeView>, parent: usize, tag: Seq<char>) -> Option<usize> {
    child_with_tag_from(nodes, parent, tag, 0)
}

/// The first element whose parent is the document root (node 0).
pub open spec fn root_element_from(nodes: Seq<XmlNodeView>, start: int) -> Option<usize>
    decreases nodes.len() - start,
{
    if start < 0 || start >= nodes.len() {
        None
    } else if nodes[start].parent == Some(0usize) && nodes[start].is_element {
        Some(start as usize)
    } else {
        root_element_from(nodes, start + 1)
    }
}

pub open spec fn root_element(nodes: Seq<XmlNodeView>) -> Option<usize> {
    root_element_from(nodes, 0)
}

/// Node `c` is the first child of node `p` with tag `tag`, in document order.
pub open spec fn first_child_tagged(nodes: Seq<XmlNodeView>, p: usize, tag: Seq<char>, c: int) -> bool {
    &&& 0 <= c < nodes.len()
    &&& nodes[c].parent == Some(p)
    &&& nodes[c].tag == tag
    &&& forall|d: int| 0 <= d < c ==> !(#[trigger] nodes[d].parent == Some(p) && nodes[d].tag == tag)
}

/// Some child of node `p` has tag `tag`.
pub open spec fn has_child_tagged(nodes: Seq<XmlNodeView>, p: usize, tag: Seq<char>) -> bool {
    exists|c: int| 0 <= c < nodes.len() && #[trigger] nodes[c].parent == Some(p) && nodes[c].tag == tag
}

/// Node `r` is the first element whose parent is the document root.
pub open spec fn first_top_element(nodes: Seq<XmlNodeView>, r: int) -> bool {
    &&& 0 <= r < nodes.len()
    &&& nodes[r].is_element
    &&& nodes[r].parent == Some(0usize)
    &&& forall|q: int| 0 <= q < r ==> !(#[trigger] nodes[q].is_element && nodes[q].parent == Some(0usize))
}

/// The document holds an element whose parent is the document root.
pub open spec fn has_top_element(nodes: Seq<XmlNodeView>) -> bool {
    exists|r: int| 0 <= r < nodes.len() && #[trigger] nodes[r].is_element && nodes[r].parent == Some(0usize)
}

/// `child_with_tag` finds exactly the first child with the tag, and nothing
/// where there is none.
pub proof fn lemma_child_with_tag(nodes: Seq<XmlNodeView>, p: usize, tag: Seq<char>)
    requires
        nodes.len() <= usize::MAX,
    ensures
        child_with_tag(nodes, p, tag) matches Some(c) ==> first_child_tagged(nodes, p, tag, c as int),
        child_with_tag(nodes, p, tag) is None <==> !has_child_tagged(nodes, p, tag),
        forall|c: int| #[trigger] first_child_tagged(nodes, p, tag, c) ==> child_with_tag(nodes, p, tag) == Some(c as usize),
{
    lemma_child_with_tag_from(nodes, p, tag, 0);
    if let Some(c) = child_with_tag(nodes, p, tag) {
        assert forall|c2: int| #[trigger] first_child_tagged(nodes, p, tag, c2) implies c2 == c by {
            if c2 < c {
                assert(!(nodes[c2].parent == Some(p) && nodes[c2].tag == tag));
            } else if c < c2 {
                assert(!(nodes[c as int].parent == Some(p) && nodes[c as int].tag == tag));
            }
        }
    } else {
        assert forall|c2: int| #[trigger] first_child_tagged(nodes, p, tag, c2) implies false by {
            assert(has_child_tagged(nodes, p, tag)) by {
                assert(0 <= c2 < nodes.len() && nodes[c2].parent == Some(p) && nodes[c2].tag == tag);
            }
        }
    }
}

proof fn lemma_child_with_tag_from(nodes: Seq<XmlNodeView>, p: usize, tag: Seq<char>, start: int)
    requires
        nodes.len() <= usize::MAX,
        0 <= start,
    ensures
        child_with_tag_from(nodes, p, tag, start) matches Some(c) ==> {
            &&& start <= c < nodes.len()
            &&& nodes[c as int].parent == Some(p)
            &&& nodes[c as int].tag == tag
            &&& forall|d: int| start <= d < c ==> !(#[trigger] nodes[d].parent == Some(p) && nodes[d].tag == tag)
        },
        child_with_tag_from(nodes, p, tag, start) is None ==> forall|d: int|
            start <= d < nodes.len() ==> !(#[trigger] nodes[d].parent == Some(p) && nodes[d].tag == tag),
    decreases nodes.len() - start,
{
    if start < nodes.len() {
        lemma_child_with_tag_from(nodes, p, tag, start + 1);
        if !(nodes[start].parent == Some(p) && nodes[start].tag == tag) {
            if let Some(c) = child_with_tag_from(nodes, p, tag, start) {
                assert forall|d: int| start <= d < c implies !(#[trigger] nodes[d].parent == Some(p) && nodes[d].tag == tag) by {
                    if d > start {
                        assert(start + 1 <= d < c);
                    }
                }
            } else {
                assert forall|d: int| start <= d < nodes.len() implies !(#[trigger] nodes[d].parent == Some(p) && nodes[d].tag == tag) by {
                    if d > start {
                        assert(start + 1 <= d);
                    }
                }
            }
        }
    }
}

/// `root_element` finds exactly the first element whose parent is the
/// document root, and nothing where there is none.
pub proof fn lemma_root_element(nodes: Seq<XmlNodeView>)
    requires
        nodes.len() <= usize::MAX,
    ensures
        root_element(nodes) matches Some(r) ==> first_top_element(nodes, r as int),
        root_element(nodes) is None <==> !has_top_element(nodes),
        forall|r: int| #[trigger] first_top_element(nodes, r) ==> root_element(nodes) == Some(r as usize),
{
    lemma_root_element_from(nodes, 0);
    if let Some(r) = root_element(nodes) {
        assert forall|r2: int| #[trigger] first_top_element(nodes, r2) implies r2 == r by {
            if r2 < r {
                assert(!(nodes[r2].is_element && nodes[r2].parent == Some(0usize)));
            } else if r < r2 {
                assert(!(nodes[r as int].is_element && nodes[r as int].parent == Some(0usize)));
            }
        }
    } else {
        assert forall|r2: int| #[trigger] first_top_element(nodes, r2) implies false by {
            assert(has_top_element(nodes)) by {
                assert(0 <= r2 < nodes.len() && nodes[r2].is_element && nodes[r2].parent == Some(0usize));
            }
        }
    }
}

proof fn lemma_root_element_from(nodes: Seq<XmlNodeView>, start: int)
    requires
        nodes.len() <= usize::MAX,
        0 <= start,
    ensures
        root_element_from(nodes, start) matches Some(r) ==> {
            &&& start <= r < nodes.len()
            &&& nodes[r as int].is_element
            &&& nodes[r as int].parent == Some(0usize)
            &&& forall|q: int| start <= q < r ==> !(#[trigger] nodes[q].is_element && nodes[q].parent == Some(0usize))
        },
        root_element_from(nodes, start) is None ==> forall|q: int|
            start <= q < nodes.len() ==> !(#[trigger] nodes[q].is_element && nodes[q].parent == Some(0usize)),
    decreases nodes.len() - start,
{
    if start < nodes.len() {
        lemma_root_element_from(nodes, start + 1);
        if !(nodes[start].is_element && nodes[start].parent == Some(0usize)) {
            if let Some(r) = root_element_from(nodes, start) {
                assert forall|q: int| start <= q < r implies !(#[trigger] nodes[q].is_element && nodes[q].parent == Some(0usize)) by {
                    if q > start {
                        assert(start + 1 <= q < r);
                    }
                }
            } else {
                assert forall|q: int| start <= q < nodes.len() implies !(#[trigger] nodes[q].is_element && nodes[q].parent == Some(0usize)) by {
                    if q > start {
                        assert(start + 1 <= q);
                    }
                }
            }
        }
    }
}

impl XmlNode {
    /// The value of this node's attribute called `name`, if it has one
    /// (the first one, should the name repeat).
    pub fn attribute(&self, name: &str) -> (res: Option<String>)
        ensures
            match res {
                Some(v) => attr_lookup(self@.attributes, name@) == Some(v@),
                None => attr_lookup(self@.attributes, name@) is None,
            },
    {
        let n = self.attributes.len();
        let mut i: usize = 0;
        assert(self@.attributes.skip(0) =~= self@.attributes);
        while i < n
            invariant
                n == self.attributes@.len(),
                0 <= i <= n,
                attr_lookup(self@.attributes, name@) == attr_lookup(self@.attributes.skip(i as int), name@),
            decreases n - i,
        {
            let ghost rest = self@.attributes.skip(i as int);
            assert(rest.drop_first() =~= self@.attributes.skip(i + 1));
            assert(rest[0] == self.attributes@[i as int]@);
            if text_is(&self.attributes[i].name, name) {
                return Some(self.attributes[i].value.clone());
            }
            i = i + 1;
        }
        None
    }
}

/// The index of the first child of node `parent` tagged `tag`, in document order.
pub fn find_child_with_tag(nodes: &Vec<XmlNode>, parent: usize, tag: &str) -> (res: Option<usize>)
    ensures
        res == child_with_tag(nodes_view(nodes@), parent, tag@),
        res matches Some(i) ==> i < nodes.len(),
        res matches Some(i) ==> first_child_tagged(nodes_view(nodes@), parent, tag@, i as int),
        res is None <==> !has_child_tagged(nodes_view(nodes@), parent, tag@),
{
    let ghost nv = nodes_view(nodes@);
    let n = nodes.len();
    proof {
        assert(nv.len() == n);
        lemma_child_with_tag(nv, parent, tag@);
    }
    let mut i: usize = 0;
    while i < n
        invariant
            n == nodes@.len(),
            nv == nodes_view(nodes@),
            0 <= i <= n,
            child_with_tag(nv, parent, tag@) == child_with_tag_from(nv, parent, tag@, i as int),
            child_with_tag(nv, parent, tag@) matches Some(c) ==> first_child_tagged(nv, parent, tag@, c as int),
            child_with_tag(nv, parent, tag@) is None <==> !has_child_tagged(nv, parent, tag@),
        decreases n - i,
    {
        if nodes[i].parent == Some(parent) && text_is(&nodes[i].tag, tag) {
            return Some(i);
        }
        i = i + 1;
    }
    None
}

/// The index of the document's root element.
pub fn find_root_element(nodes: &Vec<XmlNode>) -> (res: Option<usize>)
    ensures
        res == root_element(nodes_view(nodes@)),
        res matches Some(i) ==> i < nodes.len(),
        res matches Some(i) ==> first_top_element(nodes_view(nodes@), i as int),
        res is None <==> !has_top_element(nodes_view(nodes@)),
{
    let ghost nv = nodes_view(nodes@);
    let n = nodes.len();
    proof {
        assert(nv.len() == n);
        lemma_root_element(nv);
    }
    let mut i: usize = 0;
    while i < n
        invariant
            n == nodes@.len(),
            nv == nodes_view(nodes@),
            0 <= i <= n,
            root_element(nv) == root_element_from(nv, i as int),
            root_element(nv) matches Some(r) ==> first_top_element(nv, r as int),
            root_element(nv) is None <==> !has_top_element(nv),
        decreases n - i,
    {
        if nodes[i].parent == Some(0usize) && nodes[i].is_element {
            return Some(i);
        }
        i = i + 1;
    }
    None
}

/// The error that `roxmltree` reports for text that is not well-formed XML.
#[verifier::external_type_specification]
#[verifier::external_body]
pub struct ExXmlError(roxmltree::Error);

/// The nodes of the document that `text` holds, as `roxmltree` reads it, in
/// document order; `None` where `roxmltree` refuses the text.
pub uninterp spec fn xml_document(text: Seq<char>) -> Option<Seq<XmlNodeView>>;

/// Calls `roxmltree::Document::parse` (default options) and copies every node
/// of the resulting tree, `Document::descendants` from the root in document
/// order, into plain values: whether it is an element, the local tag name,
/// the attributes' local names and values in order, and the index of the
/// parent node. The contract claims that this is a function of the text
/// alone, named `xml_document`, and that an error comes exactly where that
/// name has no document. Which error `roxmltree` reports is not stated.
#[verifier::external_body]
pub(crate) fn parse_xml_document(text: &str) -> (res: Result<Vec<XmlNode>, roxmltree::Error>)
    ensures
        res is Ok <==> xml_document(text@) is Some,
        res matches Ok(nodes) ==> xml_document(text@) == Some(nodes_view(nodes@)),
{
    let doc = roxmltree::Document::parse(text)?;
    Ok(doc.descendants().map(|n| XmlNode {
        is_element: n.is_element(),
        tag: n.tag_name().name().to_string(),
        attributes: n.attributes().map(|a| XmlAttribute {
            name: a.name().to_string(),
            value: a.value().to_string(),
        }).collect(),
        parent: n.parent().map(|p| p.id().get_usize()),
    }).collect())
}

} // verus!
