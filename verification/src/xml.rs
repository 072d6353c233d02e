//! An XML document as the list of its nodes in document order.
//!
//! The list is what `roxmltree` makes of a text: one entry for each node of
//! its tree, the document's root node first. The functions here walk that
//! list; nothing in them depends on how the list came about.

use crate::error::{Failure, FailureModel};
use crate::scan::{least, lemma_least_absent, lemma_least_found, lemma_positions_gap,
    lemma_positions_none, positions, result_model};
use vstd::prelude::*;

verus! {

/// One attribute of an element.
#[derive(Debug)]
pub struct XmlAttribute {
    /// The name, without a namespace prefix.
    pub name: String,
    /// The value.
    pub value: String,
}

/// One node of a document.
#[derive(Debug)]
pub struct XmlNode {
    /// Whether the node is an element, not text, a comment or the like.
    pub element: bool,
    /// The tag name without a namespace prefix; empty unless the node is an element.
    pub tag: String,
    /// The attributes, in the order in which the element writes them.
    pub attributes: Vec<XmlAttribute>,
    /// For an element, the text that it starts with; for text or a comment, its own.
    pub text: Option<String>,
    /// The position of the parent node in the document.
    pub parent: Option<usize>,
    /// The number of nodes from this one to the last one below it.
    pub span: usize,
}

/// A document: its nodes in document order.
#[derive(Debug)]
pub struct XmlDocument {
    pub nodes: Vec<XmlNode>,
}

/// An `XmlAttribute` with its strings as sequences of characters.
pub struct AttributeModel {
    pub name: Seq<char>,
    pub value: Seq<char>,
}

/// An `XmlNode` with its strings as sequences of characters.
pub struct NodeModel {
    pub element: bool,
    pub tag: Seq<char>,
    pub attributes: Seq<AttributeModel>,
    pub text: Option<Seq<char>>,
    pub parent: Option<usize>,
    pub span: usize,
}

impl DeepView for XmlAttribute {
    type V = AttributeModel;

    open spec fn deep_view(&self) -> AttributeModel {
        AttributeModel { name: self.name@, value: self.value@ }
    }
}

impl DeepView for XmlNode {
    type V = NodeModel;

    open spec fn deep_view(&self) -> NodeModel {
        NodeModel {
            element: self.element,
            tag: self.tag@,
            attributes: self.attributes.deep_view(),
            text: self.text.deep_view(),
            parent: self.parent,
            span: self.span,
        }
    }
}

impl DeepView for XmlDocument {
    type V = Seq<NodeModel>;

    open spec fn deep_view(&self) -> Seq<NodeModel> {
        self.nodes.deep_view()
    }
}

/// The error type of the `roxmltree` crate.
#[verifier::external_type_specification]
#[verifier::external_body]
pub struct ExXmlError(roxmltree::Error);

/// What the `Display` of an error of the `roxmltree` crate writes.
pub uninterp spec fn xml_error_text(e: roxmltree::Error) -> Seq<char>;

/// The nodes that `roxmltree::Document::parse` makes of `text`, or the words
/// with which it refuses the text.
pub uninterp spec fn xml_nodes(text: Seq<char>) -> Result<Seq<NodeModel>, Seq<char>>;

/// Parses `text` with `roxmltree::Document::parse` and copies out each node
/// of the tree, in the order of `Document::descendants`, which starts at the
/// document's root node. Of a node it keeps what `is_element`,
/// `tag_name().name()`, `attributes()` (each by `name()` and `value()`),
/// `text()`, `parent()` (by its `id()`) and the length of `descendants()`
/// return. The contract claims that this list, or else the error, depends
/// on the text alone.
#[verifier::external_body]
fn parse_nodes(text: &str) -> (r: Result<Vec<XmlNode>, roxmltree::Error>)
    ensures
        xml_nodes(text@) == (match r {
            Ok(nodes) => Ok::<Seq<NodeModel>, Seq<char>>(nodes.deep_view()),
            Err(e) => Err(xml_error_text(e)),
        }),
{
    let doc = roxmltree::Document::parse(text)?;
    Ok(doc.descendants().map(|n| XmlNode {
        element: n.is_element(),
        tag: n.tag_name().name().to_string(),
        attributes: n.attributes().map(|a| XmlAttribute {
            name: a.name().to_string(),
            value: a.value().to_string(),
        }).collect(),
        text: n.text().map(|t| t.to_string()),
        parent: n.parent().map(|p| p.id().get_usize()),
        span: n.descendants().len(),
    }).collect())
}

/// Calls `to_string` on an error of the `roxmltree` crate, which writes it
/// with its `Display`.
#[verifier::external_body]
fn error_text(e: &roxmltree::Error) -> (r: String)
    ensures
        r@ == xml_error_text(*e),
{
    e.to_string()
}

/// The position after the last node below node `i`, kept within the document.
pub open spec fn subtree_end(doc: Seq<NodeModel>, i: int) -> int {
    if i + doc[i].span <= doc.len() {
        i + doc[i].span
    } else {
        doc.len() as int
    }
}

/// Node `j` is a child of node `i`.
pub open spec fn is_child(doc: Seq<NodeModel>, i: int, j: int) -> bool {
    &&& i < j < subtree_end(doc, i)
    &&& doc[j].parent == Some(i as usize)
}

/// Node `j` is an element with the tag `tag`.
pub open spec fn has_tag(doc: Seq<NodeModel>, j: int, tag: Seq<char>) -> bool {
    doc[j].element && doc[j].tag == tag
}

/// The test for a child element of node `i` with the tag `tag`.
pub open spec fn child_with_tag(doc: Seq<NodeModel>, i: int, tag: Seq<char>) -> spec_fn(
    int,
) -> bool {
    |j: int| is_child(doc, i, j) && has_tag(doc, j, tag)
}

/// The test for an element with the tag `tag`.
pub open spec fn node_with_tag(doc: Seq<NodeModel>, tag: Seq<char>) -> spec_fn(int) -> bool {
    |j: int| has_tag(doc, j, tag)
}

/// The test for a child of node `i` that is an element.
pub open spec fn child_element(doc: Seq<NodeModel>, i: int) -> spec_fn(int) -> bool {
    |j: int| is_child(doc, i, j) && doc[j].element
}

/// The test for an attribute named `name`.
pub open spec fn attribute_named(attributes: Seq<AttributeModel>, name: Seq<char>) -> spec_fn(
    int,
) -> bool {
    |k: int| attributes[k].name == name
}

/// The child elements of node `i` with the tag `tag`, in document order.
pub open spec fn children_with_tag(doc: Seq<NodeModel>, i: int, tag: Seq<char>) -> Seq<usize> {
    positions(doc.len() as int, child_with_tag(doc, i, tag))
}

/// The first element with the tag `tag` among node `i` and the nodes below it.
pub open spec fn first_descendant_with_tag(doc: Seq<NodeModel>, i: int, tag: Seq<char>) -> Option<
    int,
> {
    least(i, subtree_end(doc, i), node_with_tag(doc, tag))
}

/// The document's root element: the first element among the children of node 0.
pub open spec fn root_element(doc: Seq<NodeModel>) -> Option<int> {
    if doc.len() == 0 {
        None
    } else {
        least(0, subtree_end(doc, 0), child_element(doc, 0))
    }
}

/// The value of the first attribute of `node` named `name`.
pub open spec fn attribute(node: NodeModel, name: Seq<char>) -> Option<Seq<char>> {
    match least(0, node.attributes.len() as int, attribute_named(node.attributes, name)) {
        Some(k) => Some(node.attributes[k].value),
        None => None,
    }
}

/// The value of the attribute `name` of node `i`, or the fault that names the
/// node's tag and the attribute.
pub open spec fn attribute_or_error(doc: Seq<NodeModel>, i: int, name: Seq<char>) -> Result<
    Seq<char>,
    FailureModel,
> {
    match attribute(doc[i], name) {
        Some(v) => Ok(v),
        None => Err(FailureModel::MissingAttribute { tag: doc[i].tag, attribute: name }),
    }
}

impl XmlDocument {
    /// Reads a document from its text; where the parser refuses the text,
    /// the fault holds the parser's words.
    pub fn parse(text: &str) -> (r: Result<XmlDocument, Failure>)
        ensures
            result_model(r) == (match xml_nodes(text@) {
                Ok(nodes) => Ok(nodes),
                Err(words) => Err(FailureModel::Xml(words)),
            }),
    {
        match parse_nodes(text) {
            Ok(nodes) => Ok(XmlDocument { nodes }),
            Err(e) => Err(Failure::Xml(error_text(&e))),
        }
    }

    /// The position after the last node below node `i`.
    pub fn subtree_end(&self, i: usize) -> (r: usize)
        requires
            i < self.nodes.len(),
        ensures
            r == subtree_end(self.deep_view(), i as int),
            r <= self.nodes.len(),
    {
        let span: usize = self.nodes[i].span;
        if span <= self.nodes.len() - i {
            i + span
        } else {
            self.nodes.len()
        }
    }

    /// Whether node `j` is an element with the tag `tag`.
    pub fn has_tag(&self, j: usize, tag: &String) -> (r: bool)
        requires
            j < self.nodes.len(),
        ensures
            r == has_tag(self.deep_view(), j as int, tag@),
    {
        self.nodes[j].element && self.nodes[j].tag == *tag
    }

    /// The child elements of node `i` with the tag `tag`, in document order.
    pub fn children_with_tag(&self, i: usize, tag: &str) -> (r: Vec<usize>)
        requires
            i < self.nodes.len(),
        ensures
            r@ == children_with_tag(self.deep_view(), i as int, tag@),
            forall|k: int| 0 <= k < r.len() ==> (#[trigger] r[k]) < self.nodes.len(),
    {
        let wanted: String = String::from_str(tag);
        let end: usize = self.subtree_end(i);
        let ghost doc = self.deep_view();
        let ghost p = child_with_tag(doc, i as int, tag@);
        let mut out: Vec<usize> = Vec::new();
        let mut j: usize = i + 1;
        proof {
            assert forall|k: int| 0 <= k < i + 1 implies !#[trigger] p(k) by {}
            lemma_positions_none(i + 1, p);
        }
        while j < end
            invariant
                i < j <= self.nodes.len(),
                doc.len() == self.nodes.len(),
                end <= self.nodes.len(),
                end == subtree_end(doc, i as int),
                doc == self.deep_view(),
                p == child_with_tag(doc, i as int, tag@),
                wanted@ == tag@,
                out@ == positions(j as int, p),
                forall|k: int| 0 <= k < out.len() ==> (#[trigger] out[k]) < self.nodes.len(),
            decreases end - j,
        {
            let is_child: bool = match self.nodes[j].parent {
                Some(parent) => parent == i,
                None => false,
            };
            if is_child && self.has_tag(j, &wanted) {
                assert(p(j as int));
                out.push(j);
            } else {
                assert(!p(j as int));
            }
            j += 1;
        }
        proof {
            assert forall|k: int| j <= k < doc.len() implies !#[trigger] p(k) by {}
            lemma_positions_gap(j as int, doc.len() as int, p);
        }
        out
    }

    /// The first element with the tag `tag` among node `i` and the nodes below it.
    pub fn first_descendant_with_tag(&self, i: usize, tag: &str) -> (r: Option<usize>)
        requires
            i < self.nodes.len(),
        ensures
            r matches Some(j) ==> j < self.nodes.len(),
            first_descendant_with_tag(self.deep_view(), i as int, tag@) == (match r {
                Some(j) => Some(j as int),
                None => None,
            }),
    {
        let wanted: String = String::from_str(tag);
        let end: usize = self.subtree_end(i);
        let ghost doc = self.deep_view();
        let ghost p = node_with_tag(doc, tag@);
        let mut j: usize = i;
        while j < end
            invariant
                i <= j,
                end <= self.nodes.len(),
                end == subtree_end(doc, i as int),
                doc == self.deep_view(),
                p == node_with_tag(doc, tag@),
                wanted@ == tag@,
                forall|k: int| i <= k < j ==> !#[trigger] p(k),
            decreases end - j,
        {
            if self.has_tag(j, &wanted) {
                proof {
                    assert(p(j as int));
                    lemma_least_found(i as int, end as int, p, j as int);
                }
                return Some(j);
            }
            assert(!p(j as int));
            j += 1;
        }
        proof {
            lemma_least_absent(i as int, end as int, p);
        }
        None
    }

    /// The document's root element.
    pub fn root_element(&self) -> (r: Option<usize>)
        ensures
            r matches Some(j) ==> j < self.nodes.len(),
            root_element(self.deep_view()) == (match r {
                Some(j) => Some(j as int),
                None => None,
            }),
    {
        if self.nodes.len() == 0 {
            return None;
        }
        let end: usize = self.subtree_end(0);
        let ghost doc = self.deep_view();
        let ghost p = child_element(doc, 0);
        let mut j: usize = 0;
        while j < end
            invariant
                end <= self.nodes.len(),
                end == subtree_end(doc, 0),
                doc == self.deep_view(),
                p == child_element(doc, 0),
                forall|k: int| 0 <= k < j ==> !#[trigger] p(k),
            decreases end - j,
        {
            let is_child: bool = j > 0 && match self.nodes[j].parent {
                Some(parent) => parent == 0,
                None => false,
            };
            if is_child && self.nodes[j].element {
                proof {
                    assert(p(j as int));
                    lemma_least_found(0, end as int, p, j as int);
                }
                return Some(j);
            }
            assert(!p(j as int));
            j += 1;
        }
        proof {
            lemma_least_absent(0, end as int, p);
        }
        None
    }

    /// The value of the first attribute of node `i` named `name`.
    pub fn attribute(&self, i: usize, name: &str) -> (r: Option<String>)
        requires
            i < self.nodes.len(),
        ensures
            r.deep_view() == attribute(self.deep_view()[i as int], name@),
    {
        let wanted: String = String::from_str(name);
        let node: &XmlNode = &self.nodes[i];
        let ghost attributes = node.attributes.deep_view();
        let ghost p = attribute_named(attributes, name@);
        assert(self.deep_view()[i as int] == node.deep_view());
        let mut k: usize = 0;
        while k < node.attributes.len()
            invariant
                attributes == node.attributes.deep_view(),
                attributes == self.deep_view()[i as int].attributes,
                p == attribute_named(attributes, name@),
                wanted@ == name@,
                forall|l: int| 0 <= l < k ==> !#[trigger] p(l),
            decreases node.attributes.len() - k,
        {
            if node.attributes[k].name == wanted {
                proof {
                    assert(attributes[k as int].name == name@);
                    assert(p(k as int));
                    lemma_least_found(0, attributes.len() as int, p, k as int);
                }
                return Some(node.attributes[k].value.clone());
            }
            assert(!p(k as int));
            k += 1;
        }
        proof {
            lemma_least_absent(0, attributes.len() as int, p);
        }
        None
    }

    /// The value of the attribute `name` of node `i`, or the fault that names
    /// the node's tag and the attribute.
    pub fn attribute_or_error(&self, i: usize, name: &str) -> (r: Result<String, Failure>)
        requires
            i < self.nodes.len(),
        ensures
            result_model(r) == attribute_or_error(self.deep_view(), i as int, name@),
    {
        match self.attribute(i, name) {
            Some(v) => Ok(v),
            None => Err(
                Failure::MissingAttribute {
                    tag: self.nodes[i].tag.clone(),
                    attribute: String::from_str(name),
                },
            ),
        }
    }
}

} // verus!
