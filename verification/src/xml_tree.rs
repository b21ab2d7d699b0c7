//! An owned, immutable image of a parsed XML document.
//!
//! The parser hands over one flat row per element, each naming the parent
//! row that precedes it; the verified builder turns the rows into a tree
//! whose children lists are in document order and always point forward.
use vstd::prelude::*;
use std::collections::HashMap;
use roxmltree::Document;

verus! {

/// Index sequence as mathematical integers.
pub open spec fn idx_ints(s: Seq<usize>) -> Seq<int> {
    Seq::new(s.len(), |i: int| s[i] as int)
}

/// One element (or the document root, as node `0`) of a parsed document.
pub struct XmlNode {
    /// The local tag name; empty for the document root.
    pub tag: String,
    /// The element's text: its first child when that is a text node.
    pub text: Option<String>,
    /// Attribute names and values, in document order.
    pub attrs: Vec<(String, String)>,
    /// Indices of the child elements, in document order.
    pub children: Vec<usize>,
}

/// The ghost image of a node.
#[verifier::ext_equal]
pub ghost struct NodeView {
    pub tag: Seq<char>,
    pub text: Option<Seq<char>>,
    pub attrs: Seq<(Seq<char>, Seq<char>)>,
    pub children: Seq<int>,
}

impl View for XmlNode {
    type V = NodeView;

    open spec fn view(&self) -> NodeView {
        NodeView {
            tag: self.tag@,
            text: match self.text {
                Some(ref t) => Some(t@),
                None => None,
            },
            attrs: Seq::new(self.attrs@.len(), |i: int| (self.attrs@[i].0@, self.attrs@[i].1@)),
            children: idx_ints(self.children@),
        }
    }
}

/// A whole parsed document: nodes in document order, node `0` the root.
pub struct XmlTree {
    pub nodes: Vec<XmlNode>,
}

impl View for XmlTree {
    type V = Seq<NodeView>;

    open spec fn view(&self) -> Seq<NodeView> {
        Seq::new(self.nodes@.len(), |i: int| self.nodes@[i]@)
    }
}

/// Well-formedness: the tree is nonempty and every child index points
/// strictly forward, so walks down the tree terminate.
pub open spec fn tree_wf(t: Seq<NodeView>) -> bool {
    t.len() >= 1 && forall|i: int, j: int|
        0 <= i < t.len() && 0 <= j < t[i].children.len() ==> i < #[trigger] t[i].children[j]
            < t.len()
}

impl XmlTree {
    pub open spec fn wf(&self) -> bool {
        tree_wf(self@)
    }
}

/// One element as the XML parser hands it over: its fields and the index
/// of its parent row.
pub struct RawNode {
    pub tag: String,
    pub text: Option<String>,
    pub attrs: Vec<(String, String)>,
    pub parent: Option<usize>,
}

/// The ghost image of a parser row.
#[verifier::ext_equal]
pub ghost struct RawNodeView {
    pub tag: Seq<char>,
    pub text: Option<Seq<char>>,
    pub attrs: Seq<(Seq<char>, Seq<char>)>,
    pub parent: Option<int>,
}

impl View for RawNode {
    type V = RawNodeView;

    open spec fn view(&self) -> RawNodeView {
        RawNodeView {
            tag: self.tag@,
            text: match self.text {
                Some(ref t) => Some(t@),
                None => None,
            },
            attrs: Seq::new(self.attrs@.len(), |i: int| (self.attrs@[i].0@, self.attrs@[i].1@)),
            parent: match self.parent {
                Some(p) => Some(p as int),
                None => None,
            },
        }
    }
}

/// The ghost images of a row list.
pub open spec fn rows_view(rows: Seq<RawNode>) -> Seq<RawNodeView> {
    Seq::new(rows.len(), |i: int| rows[i]@)
}

/// Rows the parser can hand over: the root row first, every later row
/// naming an earlier row as its parent.
pub open spec fn rows_wf(rows: Seq<RawNodeView>) -> bool {
    rows.len() >= 1 && rows[0].parent is None && forall|i: int|
        1 <= i < rows.len() ==> ((#[trigger] rows[i].parent) matches Some(p) && 0 <= p < i)
}

/// The text a byte stream holds, or nothing when it is not valid UTF-8.
pub uninterp spec fn utf8_text(data: Seq<u8>) -> Option<Seq<char>>;

/// Relies on `std::str::from_utf8`: whether the bytes decode, and to which
/// text, is a function of the bytes alone.
#[verifier::external_body]
fn bytes_to_text(data: &Vec<u8>) -> (r: Result<String, String>)
    ensures
        (r is Ok) == (utf8_text(data@) is Some),
        r matches Ok(t) ==> utf8_text(data@) == Some(t@),
{
    std::str::from_utf8(data).map(|t| t.to_string()).map_err(|e| e.to_string())
}

#[verifier::external_type_specification]
#[verifier::external_body]
pub struct ExAttribute<'a, 'input: 'a>(roxmltree::Attribute<'a, 'input>);

/// Relies on `roxmltree::Attribute::name` and `value`; only called from
/// the parse wrapper below, which states the contract.
#[verifier::external_body]
fn attr_pair(a: roxmltree::Attribute<'_, '_>) -> (String, String) {
    (a.name().to_string(), a.value().to_string())
}

/// What the XML parser yields for the given text: the element rows in
/// document order, or `None` when the text is not a well-formed document.
pub uninterp spec fn xml_rows(text: Seq<char>) -> Option<Seq<RawNodeView>>;

/// Relies on `roxmltree::Document::parse`: success and the element
/// structure are functions of the text alone. `descendants` yields the
/// root first and parents before their children, in document order;
/// `Node::text` is the first child when that is a text node.
#[verifier::external_body]
fn parse_xml_rows(text: &str) -> (r: Result<Vec<RawNode>, String>)
    ensures
        (r is Ok) == (xml_rows(text@) is Some),
        r matches Ok(rows) ==> xml_rows(text@) == Some(rows_view(rows@)) && rows_wf(
            rows_view(rows@),
        ),
{
    let doc = Document::parse(text).map_err(|e| e.to_string())?;
    let mut rows = Vec::new();
    let mut ids = HashMap::new();
    for n in doc.root().descendants().filter(|m| m.is_root() || m.is_element()) {
        ids.insert(n.id(), rows.len());
        let parent = n.parent().and_then(|p| ids.get(&p.id()).copied());
        let attrs = n.attributes().map(attr_pair).collect();
        rows.push(RawNode { tag: n.tag_name().name().to_string(), text: n.text().map(str::to_string), attrs, parent });
    }
    Ok(rows)
}

/// The children of row `p` among the first `k` rows: exactly the rows that
/// name `p` as parent, in document order.
pub open spec fn children_upto(rows: Seq<RawNodeView>, p: int, k: int) -> Seq<int>
    decreases k,
{
    if k <= 0 {
        Seq::empty()
    } else if rows[k - 1].parent == Some(p) {
        children_upto(rows, p, k - 1).push(k - 1)
    } else {
        children_upto(rows, p, k - 1)
    }
}

proof fn lemma_children_upto_bounds(rows: Seq<RawNodeView>, p: int, k: int)
    requires
        rows_wf(rows),
        0 <= k <= rows.len(),
    ensures
        forall|j: int|
            0 <= j < children_upto(rows, p, k).len() ==> p < #[trigger] children_upto(
                rows,
                p,
                k,
            )[j] < k,
    decreases k,
{
    if k > 0 {
        lemma_children_upto_bounds(rows, p, k - 1);
        let prev = children_upto(rows, p, k - 1);
        let cur = children_upto(rows, p, k);
        if rows[k - 1].parent == Some(p) {
            if k - 1 == 0 {
                assert(rows[0].parent is None);
                assert(false);
            }
            assert(rows[k - 1].parent matches Some(q) && 0 <= q < k - 1);
            assert(cur == prev.push(k - 1));
            assert forall|j: int| 0 <= j < cur.len() implies p < #[trigger] cur[j] < k by {
                if j < prev.len() {
                    assert(cur[j] == prev[j]);
                } else {
                    assert(cur[j] == k - 1);
                }
            }
        } else {
            assert(cur == prev);
            assert forall|j: int| 0 <= j < cur.len() implies p < #[trigger] cur[j] < k by {
                assert(cur[j] == prev[j]);
            }
        }
    }
}

/// The node a row becomes once every row is placed.
pub open spec fn node_of_row(rows: Seq<RawNodeView>, i: int) -> NodeView {
    NodeView {
        tag: rows[i].tag,
        text: rows[i].text,
        attrs: rows[i].attrs,
        children: children_upto(rows, i, rows.len() as int),
    }
}

/// The tree the parser rows denote.
pub open spec fn tree_view_of(rows: Seq<RawNodeView>) -> Seq<NodeView> {
    Seq::new(rows.len(), |i: int| node_of_row(rows, i))
}

/// The tree a byte stream denotes, when it decodes and parses as XML.
pub open spec fn xml_doc_view(data: Seq<u8>) -> Option<Seq<NodeView>> {
    match utf8_text(data) {
        None => None,
        Some(text) => match xml_rows(text) {
            None => None,
            Some(rows) => Some(tree_view_of(rows)),
        },
    }
}

/// Builds the tree from parser rows, wiring every row into its parent's
/// children list in document order.
fn build_tree(rows: Vec<RawNode>) -> (t: XmlTree)
    requires
        rows_wf(rows_view(rows@)),
    ensures
        t@ == tree_view_of(rows_view(rows@)),
        t.wf(),
{
    let ghost rv = rows_view(rows@);
    let n = rows.len();
    let mut kids: Vec<Vec<usize>> = Vec::new();
    let mut i: usize = 0;
    while i < n
        invariant
            i <= n,
            kids@.len() == i,
            forall|q: int| 0 <= q < i ==> (#[trigger] kids@[q])@.len() == 0,
        decreases n - i,
    {
        kids.push(Vec::new());
        i = i + 1;
    }
    proof {
        assert forall|q: int| 0 <= q < n implies idx_ints(kids@[q]@) =~= children_upto(
            rv,
            q,
            1,
        ) by {
            assert(rv[0].parent is None);
            assert(children_upto(rv, q, 1) == children_upto(rv, q, 0));
            assert(children_upto(rv, q, 0) =~= Seq::<int>::empty());
            assert(kids@[q]@.len() == 0);
            assert(idx_ints(kids@[q]@) =~= Seq::<int>::empty());
        }
    }
    let mut i: usize = 1;
    while i < n
        invariant
            1 <= i <= n,
            n == rows@.len(),
            rv == rows_view(rows@),
            rows_wf(rv),
            kids@.len() == n,
            forall|q: int|
                0 <= q < n ==> idx_ints((#[trigger] kids@[q])@) == children_upto(rv, q, i as int),
            forall|q: int, j: int|
                0 <= q < n && 0 <= j < kids@[q]@.len() ==> (#[trigger] kids@[q]@[j]) < n,
        decreases n - i,
    {
        let p = match rows[i].parent {
            Some(p) => p,
            None => {
                proof {
                    assert(rv[i as int].parent matches Some(q) && 0 <= q < i);
                }
                // unreachable under `rows_wf`
                0
            },
        };
        proof {
            assert(rv[i as int].parent == Some(p as int));
            assert(0 <= p < i);
        }
        let ghost pre = kids@;
        kids[p].push(i);
        proof {
            assert forall|q: int| 0 <= q < n implies idx_ints((#[trigger] kids@[q])@)
                == children_upto(rv, q, i + 1) by {
                if q == p {
                    assert(kids@[q]@ =~= pre[q]@.push(i));
                    assert(idx_ints(pre[q]@.push(i)) =~= idx_ints(pre[q]@).push(i as int));
                    assert(children_upto(rv, q, i + 1) == children_upto(rv, q, i as int).push(
                        i as int,
                    ));
                } else {
                    assert(kids@[q] == pre[q]);
                    assert(rv[i as int].parent != Some(q));
                    assert(children_upto(rv, q, i + 1) == children_upto(rv, q, i as int));
                }
            }
        }
        i = i + 1;
    }
    let ghost kids_full = kids@;
    // Take the rows and children lists apart back to front, then restore
    // the original order.
    let mut rows = rows;
    let mut rev: Vec<XmlNode> = Vec::new();
    let mut t: usize = 0;
    while t < n
        invariant
            t <= n,
            n >= 1,
            rows@.len() == n - t,
            kids@.len() == n - t,
            rv.len() == n,
            forall|k: int| 0 <= k < n - t ==> rv[k] == (#[trigger] rows@[k])@,
            forall|k: int|
                0 <= k < n - t ==> idx_ints((#[trigger] kids@[k])@) == children_upto(
                    rv,
                    k,
                    n as int,
                ),
            rev@.len() == t,
            forall|j: int| 0 <= j < t ==> (#[trigger] rev@[j])@ == node_of_row(rv, n - 1 - j),
        decreases n - t,
    {
        let row = match rows.pop() {
            Some(r) => r,
            None => {
                proof {
                    assert(false);  // `rows` still holds `n - t > 0` rows
                }
                return XmlTree { nodes: Vec::new() };
            },
        };
        let ch = match kids.pop() {
            Some(c) => c,
            None => {
                proof {
                    assert(false);
                }
                return XmlTree { nodes: Vec::new() };
            },
        };
        let ghost k = n - t - 1;
        let node = XmlNode { tag: row.tag, text: row.text, attrs: row.attrs, children: ch };
        proof {
            assert(row@ == rv[k as int]);
            assert(node@ =~= node_of_row(rv, k as int));
        }
        rev.push(node);
        t = t + 1;
    }
    let mut nodes: Vec<XmlNode> = Vec::new();
    let mut u: usize = 0;
    while u < n
        invariant
            u <= n,
            rev@.len() == n - u,
            rv.len() == n,
            forall|j: int| 0 <= j < n - u ==> (#[trigger] rev@[j])@ == node_of_row(rv, n - 1 - j),
            nodes@.len() == u,
            forall|k: int| 0 <= k < u ==> (#[trigger] nodes@[k])@ == node_of_row(rv, k),
        decreases n - u,
    {
        let node = match rev.pop() {
            Some(nd) => nd,
            None => {
                proof {
                    assert(false);
                }
                return XmlTree { nodes: Vec::new() };
            },
        };
        nodes.push(node);
        u = u + 1;
    }
    let tree = XmlTree { nodes };
    proof {
        assert(tree@ =~= tree_view_of(rv));
        lemma_tree_of_rows_wf(rv);
    }
    tree
}

/// Wired-up parser rows always form a well-formed tree.
proof fn lemma_tree_of_rows_wf(rows: Seq<RawNodeView>)
    requires
        rows_wf(rows),
    ensures
        tree_wf(tree_view_of(rows)),
{
    let t = tree_view_of(rows);
    assert forall|i: int, j: int|
        0 <= i < t.len() && 0 <= j < t[i].children.len() implies i < #[trigger] t[i].children[j]
        < t.len() by {
        lemma_children_upto_bounds(rows, i, rows.len() as int);
        assert(t[i].children == children_upto(rows, i, rows.len() as int));
    }
}

/// Parses a byte stream as an XML document into an owned tree.
pub fn parse_xml(data: &Vec<u8>) -> (r: Result<XmlTree, String>)
    ensures
        (r is Ok) == (xml_doc_view(data@) is Some),
        r matches Ok(t) ==> xml_doc_view(data@) == Some(t@) && t.wf(),
{
    let text = match bytes_to_text(data) {
        Ok(t) => t,
        Err(e) => {
            return Err(e);
        },
    };
    match parse_xml_rows(text.as_str()) {
        Ok(rows) => Ok(build_tree(rows)),
        Err(e) => Err(e),
    }
}

} // verus!
