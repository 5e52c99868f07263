//! The document tree: nodes stored in one arena, addressed by handles, with
//! owning parent-to-children lists and non-owning child-to-parent links.
use vstd::prelude::*;
use vstd::string::StringExecFns;

use crate::seqs::{
    lemma_concat_no_dup, lemma_index_of_unique, lemma_insert_at, lemma_push_no_dup, lemma_remove_at,
    lemma_without_absent, lemma_without_at, without,
};

verus! {

/// A node's place in the arena.
pub type Handle = usize;

/// A namespaced element or attribute name.
#[derive(Clone, Debug)]
pub struct QualName {
    pub prefix: Option<String>,
    pub ns: String,
    pub local: String,
}

/// One attribute of an element.
#[derive(Clone, Debug)]
pub struct Attribute {
    pub name: QualName,
    pub value: String,
}

/// The different kinds of nodes in the tree.
#[derive(Debug)]
pub enum NodeData {
    /// The root of a document, or of a template's contents.
    Document,
    /// A document type declaration.
    Doctype { name: String, public_id: String, system_id: String },
    /// A run of text.
    Text { contents: String },
    /// A comment.
    Comment { contents: String },
    /// An element with its attributes.
    Element {
        name: QualName,
        attrs: Vec<Attribute>,
        template_contents: Option<Handle>,
        mathml_annotation_xml_integration_point: bool,
    },
    /// A processing instruction.
    ProcessingInstruction { target: String, contents: String },
}

/// A node: its payload, its ordered children and the link to its parent.
#[derive(Debug)]
pub struct Node {
    pub parent: Option<Handle>,
    pub children: Vec<Handle>,
    pub data: NodeData,
}

/// The document's quirks mode, as the tree builder reports it.
#[derive(Clone, Copy, Debug, PartialEq, Eq, Structural)]
pub enum QuirksMode {
    Quirks,
    LimitedQuirks,
    NoQuirks,
}

/// Flags a tree builder gives with a new element.
#[derive(Clone, Copy, Debug)]
pub struct ElementFlags {
    pub template: bool,
    pub mathml_annotation_xml_integration_point: bool,
}

/// What a tree builder hands over for insertion: a node, or text.
#[derive(Debug)]
pub enum NodeOrText {
    AppendNode(Handle),
    AppendText(String),
}

/// The tree itself; the result of parsing.
#[derive(Debug)]
pub struct Dom {
    pub nodes: Vec<Node>,
    pub document: Handle,
    pub errors: Vec<String>,
    pub quirks_mode: QuirksMode,
}

impl QualName {
    pub open spec fn view(&self) -> (Option<Seq<char>>, Seq<char>, Seq<char>) {
        (
            match self.prefix {
                Some(p) => Some(p@),
                None => None,
            },
            self.ns@,
            self.local@,
        )
    }
}

impl Node {
    /// Create a parentless, childless node from its contents.
    pub fn new(data: NodeData) -> (r: Node)
        ensures
            r.parent is None,
            r.children@.len() == 0,
            r.data == data,
    {
        Node { parent: None, children: Vec::new(), data }
    }
}

/// The contents of a text node.
pub open spec fn text_of(d: NodeData) -> Option<Seq<char>> {
    match d {
        NodeData::Text { contents } => Some(contents@),
        _ => None,
    }
}

/// What appending `child` under `parent` makes of `orig`: see `Dom::append`.
pub open spec fn appended(orig: &Dom, upd: &Dom, parent: Handle, child: NodeOrText) -> bool {
    match child {
        NodeOrText::AppendText(t) => match orig.last_text(parent) {
            Some(l) => {
                &&& upd.nodes@.len() == orig.nodes@.len()
                &&& upd.parents_kept(orig, Set::empty())
                &&& upd.kids_kept(orig, Set::empty())
                &&& upd.data_kept(orig, set![l])
                &&& text_of(upd.data_of(l)) == Some(text_of(orig.data_of(l))->0 + t@)
            },
            None => {
                let n = orig.nodes@.len() as Handle;
                &&& upd.nodes@.len() == orig.nodes@.len() + 1
                &&& upd.parents_kept(orig, Set::empty())
                &&& upd.kids_kept(orig, set![parent])
                &&& upd.data_kept(orig, Set::empty())
                &&& upd.data_of(n) == (NodeData::Text { contents: t })
                &&& upd.parent_of(n) == Some(parent)
                &&& upd.kids(n).len() == 0
                &&& upd.kids(parent) == orig.kids(parent).push(n)
            },
        },
        NodeOrText::AppendNode(c) => {
            &&& upd.nodes@.len() == orig.nodes@.len()
            &&& upd.parents_kept(orig, set![c])
            &&& upd.kids_kept(orig, set![parent])
            &&& upd.data_kept(orig, Set::empty())
            &&& upd.parent_of(c) == Some(parent)
            &&& upd.kids(parent) == orig.kids(parent).push(c)
        },
    }
}

/// What inserting `child` before `sibling` makes of `orig`: see
/// `Dom::append_before_sibling`.
pub open spec fn inserted_before(orig: &Dom, upd: &Dom, sibling: Handle, child: NodeOrText) -> bool {
    ({
        let p = orig.parent_of(sibling)->0;
        let i = orig.kids(p).index_of(sibling);
        match child {
            NodeOrText::AppendText(t) => if i > 0 && text_of(orig.data_of(orig.kids(p)[i - 1])) is Some {
                let l = orig.kids(p)[i - 1];
                &&& upd.nodes@.len() == orig.nodes@.len()
                &&& upd.parents_kept(orig, Set::empty())
                &&& upd.kids_kept(orig, Set::empty())
                &&& upd.data_kept(orig, set![l])
                &&& text_of(upd.data_of(l)) == Some(text_of(orig.data_of(l))->0 + t@)
            } else {
                let n = orig.nodes@.len() as Handle;
                &&& upd.nodes@.len() == orig.nodes@.len() + 1
                &&& upd.parents_kept(orig, Set::empty())
                &&& upd.kids_kept(orig, set![p])
                &&& upd.data_kept(orig, Set::empty())
                &&& upd.data_of(n) == (NodeData::Text { contents: t })
                &&& upd.parent_of(n) == Some(p)
                &&& upd.kids(n).len() == 0
                &&& upd.kids(p) == orig.kids(p).insert(i, n)
            },
            NodeOrText::AppendNode(c) => {
                let mid = without(orig.kids(p), c);
                &&& upd.nodes@.len() == orig.nodes@.len()
                &&& upd.parents_kept(orig, set![c])
                &&& upd.kids_kept(orig, set![p].union(parent_set(orig, c)))
                &&& upd.data_kept(orig, Set::empty())
                &&& upd.parent_of(c) == Some(p)
                &&& upd.kids(p) == mid.insert(mid.index_of(sibling), c)
                &&& forall|q: Handle| orig.parent_of(c) == Some(q) && q != p
                    ==> upd.kids(q) == without(orig.kids(q), c)
            },
        }
    })
}

/// The parent of `c` as a set: empty for a parentless node.
pub open spec fn parent_set(d: &Dom, c: Handle) -> Set<Handle> {
    match d.parent_of(c) {
        Some(q) => set![q],
        None => Set::empty(),
    }
}

/// Insert a parentless node among `parent`'s children, at place `i`.
fn insert_child(dom: &mut Dom, parent: Handle, i: usize, child: Handle)
    requires
        old(dom).wf(),
        old(dom).valid(parent),
        old(dom).valid(child),
        i <= old(dom).kids(parent).len(),
        old(dom).parent_of(child) is None,
        child != old(dom).document,
        child != parent,
    ensures
        final(dom).wf(),
        final(dom).same_rest(old(dom)),
        final(dom).nodes@.len() == old(dom).nodes@.len(),
        final(dom).data_kept(old(dom), Set::empty()),
        final(dom).parents_kept(old(dom), set![child]),
        final(dom).kids_kept(old(dom), set![parent]),
        final(dom).parent_of(child) == Some(parent),
        final(dom).kids(parent) == old(dom).kids(parent).insert(i as int, child),
{
    let ghost d0 = *dom;
    assert(!d0.kids(parent).contains(child)) by {
        if d0.kids(parent).contains(child) {
            let k = choose|k: int| 0 <= k < d0.kids(parent).len() && d0.kids(parent)[k] == child;
            assert(d0.parent_of(d0.kids(parent)[k]) == Some(parent));
        }
    }
    proof {
        lemma_insert_at(d0.kids(parent), i as int, child);
    }
    dom.nodes[child].parent = Some(parent);
    dom.nodes[parent].children.insert(i, child);
    let ghost d1 = *dom;
    assert forall|h: Handle| #[trigger] d1.valid(h) implies d1.parent_of(h) != Some(h) by {
        assert(d0.valid(h));
    }
    assert forall|p: Handle| #[trigger] d1.valid(p) implies d1.kids(p).no_duplicates() by {
        assert(d0.valid(p));
        if p != parent {
            assert(d1.kids(p) == d0.kids(p));
        }
    }
    assert forall|p: Handle, k: int| d1.valid(p) && 0 <= k < d1.kids(p).len() implies {
        &&& d1.valid(#[trigger] d1.kids(p)[k])
        &&& d1.parent_of(d1.kids(p)[k]) == Some(p)
    } by {
        if p == parent {
            if k != i {
                let k0 = if k < i { k } else { k - 1 };
                assert(d1.kids(p)[k] == d0.kids(p)[k0]);
                assert(d0.valid(d0.kids(p)[k0]));
            }
        } else {
            assert(d0.kids(p)[k] == d1.kids(p)[k]);
            assert(d0.valid(d0.kids(p)[k]));
            if d0.kids(p)[k] == child {
                assert(d0.parent_of(d0.kids(p)[k]) == Some(p));
            }
        }
    }
    assert forall|c: Handle| d1.valid(c) && #[trigger] d1.parent_of(c) is Some implies {
        &&& d1.valid(d1.parent_of(c)->0)
        &&& d1.kids(d1.parent_of(c)->0).contains(c)
    } by {
        if c != child {
            let q = d0.parent_of(c)->0;
            assert(d0.kids(q).contains(c));
        }
    }
    assert forall|h: Handle| d0.valid(h) implies #[trigger] d1.data_of(h) == d0.data_of(h) by {}
    assert forall|h: Handle|
        d1.valid(h) && (#[trigger] d1.data_of(h)) is Element implies match d1.data_of(
        h,
    )->template_contents {
        Some(t) => d1.valid(t),
        None => true,
    } by {
        assert(d1.data_of(h) == d0.data_of(h));
    }
    assert forall|h: Handle| d0.valid(h) && !set![child].contains(h) implies #[trigger] d1.parent_of(h) == d0.parent_of(h) by {}
    assert forall|h: Handle| d0.valid(h) && !set![parent].contains(h) implies #[trigger] d1.kids(h) == d0.kids(h) by {}
}

impl Dom {
    /// Whether `h` names a node of this tree.
    pub open spec fn valid(&self, h: Handle) -> bool {
        h < self.nodes@.len()
    }

    /// The children of `h`, in order.
    pub open spec fn kids(&self, h: Handle) -> Seq<Handle> {
        self.nodes@[h as int].children@
    }

    /// The parent of `h`, if it has one.
    pub open spec fn parent_of(&self, h: Handle) -> Option<Handle> {
        self.nodes@[h as int].parent
    }

    /// The payload of `h`.
    pub open spec fn data_of(&self, h: Handle) -> NodeData {
        self.nodes@[h as int].data
    }

    /// The tree's invariant: every link points into the arena, each child
    /// list is free of repeats, a child names its list's owner as parent, a
    /// node with a parent is listed among that parent's children, and no
    /// node is its own parent.
    pub open spec fn wf(&self) -> bool {
        &&& self.valid(self.document)
        &&& self.parent_of(self.document) is None
        &&& forall|h: Handle| #[trigger] self.valid(h) ==> self.parent_of(h) != Some(h)
        &&& forall|p: Handle| #[trigger] self.valid(p) ==> self.kids(p).no_duplicates()
        &&& forall|p: Handle, k: int|
            self.valid(p) && 0 <= k < self.kids(p).len() ==> {
                &&& self.valid(#[trigger] self.kids(p)[k])
                &&& self.parent_of(self.kids(p)[k]) == Some(p)
            }
        &&& forall|c: Handle|
            self.valid(c) && #[trigger] self.parent_of(c) is Some ==> {
                &&& self.valid(self.parent_of(c)->0)
                &&& self.kids(self.parent_of(c)->0).contains(c)
            }
        &&& forall|h: Handle|
            self.valid(h) && (#[trigger] self.data_of(h)) is Element ==> match self.data_of(
                h,
            )->template_contents {
                Some(t) => self.valid(t),
                None => true,
            }
    }

    /// The payloads of all nodes are those of `orig`, and no node was added.
    pub open spec fn same_data(&self, orig: &Dom) -> bool {
        &&& self.nodes@.len() == orig.nodes@.len()
        &&& forall|h: Handle| self.valid(h) ==> #[trigger] self.data_of(h) == orig.data_of(h)
    }

    /// Nodes of `orig` outside `except` keep their parent link.
    pub open spec fn parents_kept(&self, orig: &Dom, except: Set<Handle>) -> bool {
        forall|h: Handle|
            orig.valid(h) && !except.contains(h) ==> #[trigger] self.parent_of(h) == orig.parent_of(h)
    }

    /// Nodes of `orig` outside `except` keep their children.
    pub open spec fn kids_kept(&self, orig: &Dom, except: Set<Handle>) -> bool {
        forall|h: Handle|
            orig.valid(h) && !except.contains(h) ==> #[trigger] self.kids(h) == orig.kids(h)
    }

    /// Nodes of `orig` outside `except` keep their payload.
    pub open spec fn data_kept(&self, orig: &Dom, except: Set<Handle>) -> bool {
        forall|h: Handle|
            orig.valid(h) && !except.contains(h) ==> #[trigger] self.data_of(h) == orig.data_of(h)
    }

    /// The last child of `p`, if it is a text node.
    pub open spec fn last_text(&self, p: Handle) -> Option<Handle> {
        if self.kids(p).len() > 0 && text_of(self.data_of(self.kids(p).last())) is Some {
            Some(self.kids(p).last())
        } else {
            None
        }
    }

    /// Everything but the node list is as in `orig`.
    pub open spec fn same_rest(&self, orig: &Dom) -> bool {
        &&& self.document == orig.document
        &&& self.errors@ == orig.errors@
        &&& self.quirks_mode == orig.quirks_mode
    }
}

/// Changing one node's payload, where it is no element or keeps its
/// template contents, keeps the tree well formed.
proof fn lemma_wf_data_change(d0: Dom, d1: Dom, x: Handle)
    requires
        d0.wf(),
        d1.same_rest(&d0),
        d1.nodes@.len() == d0.nodes@.len(),
        d1.parents_kept(&d0, Set::empty()),
        d1.kids_kept(&d0, Set::empty()),
        d1.data_kept(&d0, set![x]),
        d1.valid(x) && d1.data_of(x) is Element ==> match d1.data_of(x)->template_contents {
            Some(t) => d1.valid(t),
            None => true,
        },
    ensures
        d1.wf(),
{
    assert forall|p: Handle| #[trigger] d1.valid(p) implies d1.kids(p).no_duplicates() by {
        assert(d0.valid(p));
        assert(d1.kids(p) == d0.kids(p));
    }
    assert forall|p: Handle, k: int| d1.valid(p) && 0 <= k < d1.kids(p).len() implies {
        &&& d1.valid(#[trigger] d1.kids(p)[k])
        &&& d1.parent_of(d1.kids(p)[k]) == Some(p)
    } by {
        assert(d0.valid(p));
        assert(d1.kids(p) == d0.kids(p));
        assert(d0.valid(d0.kids(p)[k]));
        assert(d1.parent_of(d0.kids(p)[k]) == d0.parent_of(d0.kids(p)[k]));
    }
    assert forall|c: Handle| d1.valid(c) && #[trigger] d1.parent_of(c) is Some implies {
        &&& d1.valid(d1.parent_of(c)->0)
        &&& d1.kids(d1.parent_of(c)->0).contains(c)
    } by {
        assert(d0.valid(c));
        assert(d1.parent_of(c) == d0.parent_of(c));
        assert(d0.valid(d0.parent_of(c)->0));
        assert(d1.kids(d0.parent_of(c)->0) == d0.kids(d0.parent_of(c)->0));
    }
    assert forall|h: Handle|
        d1.valid(h) && (#[trigger] d1.data_of(h)) is Element implies match d1.data_of(
        h,
    )->template_contents {
        Some(t) => d1.valid(t),
        None => true,
    } by {
        assert(d0.valid(h));
        if h != x {
            assert(d1.data_of(h) == d0.data_of(h));
        }
    }
    assert(d0.valid(d0.document));
    assert(d1.parent_of(d1.document) == d0.parent_of(d0.document));
}

/// Append a parentless node to another node's children.
pub fn append(dom: &mut Dom, new_parent: Handle, child: Handle)
    requires
        old(dom).wf(),
        old(dom).valid(new_parent),
        old(dom).valid(child),
        old(dom).parent_of(child) is None,
        child != old(dom).document,
        child != new_parent,
    ensures
        final(dom).wf(),
        final(dom).same_data(old(dom)),
        final(dom).same_rest(old(dom)),
        final(dom).parent_of(child) == Some(new_parent),
        final(dom).kids(new_parent) == old(dom).kids(new_parent).push(child),
        forall|h: Handle|
            final(dom).valid(h) && h != child ==> #[trigger] final(dom).parent_of(h)
                == old(dom).parent_of(h),
        forall|h: Handle|
            final(dom).valid(h) && h != new_parent ==> #[trigger] final(dom).kids(h) == old(
                dom,
            ).kids(h),
{
    let ghost d0 = *dom;
    let n = dom.nodes[new_parent].children.len();
    insert_child(dom, new_parent, n, child);
    assert(d0.kids(new_parent).insert(n as int, child) =~= d0.kids(new_parent).push(child));
    assert forall|h: Handle| dom.valid(h) implies #[trigger] dom.data_of(h) == d0.data_of(h) by {
        assert(!Set::<Handle>::empty().contains(h));
    }
    assert forall|h: Handle| dom.valid(h) && h != child implies #[trigger] dom.parent_of(h) == d0.parent_of(h) by {
        assert(!set![child].contains(h));
    }
    assert forall|h: Handle| dom.valid(h) && h != new_parent implies #[trigger] dom.kids(h) == d0.kids(h) by {
        assert(!set![new_parent].contains(h));
    }
}

/// If `target` has a parent, that parent and `target`'s place among its children.
fn get_parent_and_index(dom: &Dom, target: Handle) -> (r: Option<(Handle, usize)>)
    requires
        dom.wf(),
        dom.valid(target),
    ensures
        match r {
            Some((p, i)) => {
                &&& dom.parent_of(target) == Some(p)
                &&& i < dom.kids(p).len()
                &&& dom.kids(p)[i as int] == target
            },
            None => dom.parent_of(target) is None,
        },
{
    match dom.nodes[target].parent {
        None => None,
        Some(p) => {
            assert(dom.kids(p).contains(target));
            let children = &dom.nodes[p].children;
            let mut i: usize = 0;
            while i < children.len()
                invariant
                    children@ == dom.kids(p),
                    dom.parent_of(target) == Some(p),
                    dom.kids(p).contains(target),
                    forall|k: int| 0 <= k < i ==> children@[k] != target,
                    i <= children@.len(),
                decreases children@.len() - i,
            {
                if children[i] == target {
                    return Some((p, i));
                }
                i = i + 1;
            }
            None
        },
    }
}

/// Detach `target` from its parent, if it has one; the parent's other
/// children keep their order.
pub fn remove_from_parent(dom: &mut Dom, target: Handle)
    requires
        old(dom).wf(),
        old(dom).valid(target),
    ensures
        final(dom).wf(),
        final(dom).same_rest(old(dom)),
        final(dom).nodes@.len() == old(dom).nodes@.len(),
        final(dom).data_kept(old(dom), Set::empty()),
        final(dom).parents_kept(old(dom), set![target]),
        final(dom).kids_kept(old(dom), parent_set(old(dom), target)),
        final(dom).parent_of(target) is None,
        final(dom).kids(target) == old(dom).kids(target),
        match old(dom).parent_of(target) {
            Some(p) => final(dom).kids(p) == without(old(dom).kids(p), target),
            None => true,
        },
{
    if let Some((parent, i)) = get_parent_and_index(dom, target) {
        let ghost d0 = *dom;
        proof {
            lemma_without_at(d0.kids(parent), i as int);
            lemma_remove_at(d0.kids(parent), i as int);
        }
        dom.nodes[parent].children.remove(i);
        dom.nodes[target].parent = None;
        let ghost d1 = *dom;
        assert forall|p: Handle| #[trigger] d1.valid(p) implies d1.kids(p).no_duplicates() by {
            assert(d0.valid(p));
            if p != parent {
                assert(d1.kids(p) == d0.kids(p));
            }
        }
        assert forall|p: Handle, k: int| d1.valid(p) && 0 <= k < d1.kids(p).len() implies {
            &&& d1.valid(#[trigger] d1.kids(p)[k])
            &&& d1.parent_of(d1.kids(p)[k]) == Some(p)
        } by {
            if p == parent {
                let k0 = if k < i { k } else { k + 1 };
                assert(d1.kids(p)[k] == d0.kids(p)[k0]);
                assert(d0.valid(d0.kids(p)[k0]));
                assert(d1.kids(p).contains(d1.kids(p)[k]));
            } else {
                assert(d0.kids(p)[k] == d1.kids(p)[k]);
                assert(d0.valid(d0.kids(p)[k]));
                if d0.kids(p)[k] == target {
                    assert(d0.parent_of(d0.kids(p)[k]) == Some(p));
                }
            }
        }
        assert forall|c: Handle| d1.valid(c) && #[trigger] d1.parent_of(c) is Some implies {
            &&& d1.valid(d1.parent_of(c)->0)
            &&& d1.kids(d1.parent_of(c)->0).contains(c)
        } by {
            let q = d0.parent_of(c)->0;
            assert(d0.kids(q).contains(c));
        }
        assert forall|h: Handle| d1.valid(h) implies #[trigger] d1.data_of(h) == d0.data_of(h) by {}
        assert forall|h: Handle|
            d1.valid(h) && (#[trigger] d1.data_of(h)) is Element implies match d1.data_of(
            h,
        )->template_contents {
            Some(t) => d1.valid(t),
            None => true,
        } by {
            assert(d1.data_of(h) == d0.data_of(h));
        }
        assert forall|h: Handle| d0.valid(h) && !set![target].contains(h) implies #[trigger] d1.parent_of(h) == d0.parent_of(h) by {}
        assert forall|h: Handle| d0.valid(h) && !parent_set(&d0, target).contains(h) implies #[trigger] d1.kids(h) == d0.kids(h) by {}
    }
}

/// Append `text` to `prev` if `prev` is a text node; say whether it was.
fn append_to_existing_text(dom: &mut Dom, prev: Handle, text: &str) -> (r: bool)
    requires
        old(dom).wf(),
        old(dom).valid(prev),
    ensures
        final(dom).wf(),
        final(dom).same_rest(old(dom)),
        final(dom).nodes@.len() == old(dom).nodes@.len(),
        final(dom).parents_kept(old(dom), Set::empty()),
        final(dom).kids_kept(old(dom), Set::empty()),
        final(dom).data_kept(old(dom), set![prev]),
        r == text_of(old(dom).data_of(prev)) is Some,
        r ==> text_of(final(dom).data_of(prev)) == Some(
            text_of(old(dom).data_of(prev))->0 + text@,
        ),
        !r ==> *final(dom) == *old(dom),
{
    let ghost d0 = *dom;
    if !matches!(dom.nodes[prev].data, NodeData::Text { .. }) {
        return false;
    }
    match &mut dom.nodes[prev].data {
        NodeData::Text { contents } => contents.append(text),
        _ => {},
    }
    proof {
        lemma_wf_data_change(d0, *dom, prev);
    }
    true
}

impl Dom {
    /// A tree that holds only an empty document node.
    pub fn new() -> (r: Dom)
        ensures
            r.wf(),
            r.nodes@.len() == 1,
            r.document == 0,
            r.data_of(0) == NodeData::Document,
            r.kids(0).len() == 0,
            r.errors@.len() == 0,
            r.quirks_mode == QuirksMode::NoQuirks,
    {
        let mut nodes: Vec<Node> = Vec::new();
        nodes.push(Node::new(NodeData::Document));
        Dom { nodes, document: 0, errors: Vec::new(), quirks_mode: QuirksMode::NoQuirks }
    }

    /// Store a new parentless, childless node; its handle is the arena's
    /// former length.
    fn add_node(&mut self, data: NodeData) -> (r: Handle)
        requires
            old(self).wf(),
            data is Element ==> match data->template_contents {
                Some(t) => old(self).valid(t),
                None => true,
            },
        ensures
            final(self).wf(),
            final(self).same_rest(old(self)),
            r == old(self).nodes@.len(),
            final(self).nodes@.len() == old(self).nodes@.len() + 1,
            forall|h: Handle| old(self).valid(h) ==> #[trigger] final(self).nodes@[h as int] == old(self).nodes@[h as int],
            final(self).data_of(r) == data,
            final(self).parent_of(r) is None,
            final(self).kids(r).len() == 0,
    {
        let r = self.nodes.len();
        let ghost d0 = *self;
        self.nodes.push(Node::new(data));
        let ghost d1 = *self;
        assert forall|h: Handle| #[trigger] d1.valid(h) implies d1.parent_of(h) != Some(h) by {
            if h != r {
                assert(d0.valid(h));
                assert(d1.nodes@[h as int] == d0.nodes@[h as int]);
            }
        }
        assert forall|p: Handle| #[trigger] d1.valid(p) implies d1.kids(p).no_duplicates() by {
            if p != r {
                assert(d0.valid(p));
                assert(d1.kids(p) == d0.kids(p));
            }
        }
        assert forall|p: Handle, k: int| d1.valid(p) && 0 <= k < d1.kids(p).len() implies {
            &&& d1.valid(#[trigger] d1.kids(p)[k])
            &&& d1.parent_of(d1.kids(p)[k]) == Some(p)
        } by {
            assert(d0.valid(p));
            assert(d1.kids(p) == d0.kids(p));
            assert(d0.valid(d0.kids(p)[k]));
            assert(d1.nodes@[d0.kids(p)[k] as int] == d0.nodes@[d0.kids(p)[k] as int]);
        }
        assert forall|c: Handle| d1.valid(c) && #[trigger] d1.parent_of(c) is Some implies {
            &&& d1.valid(d1.parent_of(c)->0)
            &&& d1.kids(d1.parent_of(c)->0).contains(c)
        } by {
            assert(d0.valid(c));
            assert(d1.parent_of(c) == d0.parent_of(c));
            assert(d0.valid(d0.parent_of(c)->0));
            assert(d1.kids(d0.parent_of(c)->0) == d0.kids(d0.parent_of(c)->0));
        }
        assert forall|h: Handle|
            d1.valid(h) && (#[trigger] d1.data_of(h)) is Element implies match d1.data_of(
            h,
        )->template_contents {
            Some(t) => d1.valid(t),
            None => true,
        } by {
            if h != r {
                assert(d0.valid(h));
                assert(d1.data_of(h) == d0.data_of(h));
            }
        }
        assert(d1.parent_of(d1.document) == d0.parent_of(d0.document));
        r
    }

    /// A new element; a template element owns a fresh empty document node
    /// as its contents.
    pub fn create_element(&mut self, name: QualName, attrs: Vec<Attribute>, flags: ElementFlags) -> (r: Handle)
        requires
            old(self).wf(),
        ensures
            final(self).wf(),
            final(self).same_rest(old(self)),
            final(self).nodes@.len() == old(self).nodes@.len() + if flags.template { 2int } else { 1int },
            forall|h: Handle| old(self).valid(h) ==> #[trigger] final(self).nodes@[h as int] == old(self).nodes@[h as int],
            r == final(self).nodes@.len() - 1,
            final(self).parent_of(r) is None,
            final(self).kids(r).len() == 0,
            final(self).data_of(r) matches NodeData::Element { name: n, attrs: a, template_contents: t, mathml_annotation_xml_integration_point: m }
                && n == name && a == attrs && m == flags.mathml_annotation_xml_integration_point
                && (flags.template <==> t is Some)
                && (t is Some ==> {
                    &&& t->0 == old(self).nodes@.len()
                    &&& final(self).data_of(t->0) == NodeData::Document
                    &&& final(self).parent_of(t->0) is None
                    &&& final(self).kids(t->0).len() == 0
                }),
    {
        let template_contents = if flags.template {
            Some(self.add_node(NodeData::Document))
        } else {
            None
        };
        self.add_node(NodeData::Element {
            name,
            attrs,
            template_contents,
            mathml_annotation_xml_integration_point: flags.mathml_annotation_xml_integration_point,
        })
    }

    /// A new comment node.
    pub fn create_comment(&mut self, text: String) -> (r: Handle)
        requires
            old(self).wf(),
        ensures
            final(self).wf(),
            final(self).same_rest(old(self)),
            r == old(self).nodes@.len(),
            final(self).nodes@.len() == old(self).nodes@.len() + 1,
            forall|h: Handle| old(self).valid(h) ==> #[trigger] final(self).nodes@[h as int] == old(self).nodes@[h as int],
            final(self).data_of(r) == (NodeData::Comment { contents: text }),
            final(self).parent_of(r) is None,
            final(self).kids(r).len() == 0,
    {
        self.add_node(NodeData::Comment { contents: text })
    }

    /// A new processing instruction node.
    pub fn create_pi(&mut self, target: String, data: String) -> (r: Handle)
        requires
            old(self).wf(),
        ensures
            final(self).wf(),
            final(self).same_rest(old(self)),
            r == old(self).nodes@.len(),
            final(self).nodes@.len() == old(self).nodes@.len() + 1,
            forall|h: Handle| old(self).valid(h) ==> #[trigger] final(self).nodes@[h as int] == old(self).nodes@[h as int],
            final(self).data_of(r) == (NodeData::ProcessingInstruction { target, contents: data }),
            final(self).parent_of(r) is None,
            final(self).kids(r).len() == 0,
    {
        self.add_node(NodeData::ProcessingInstruction { target, contents: data })
    }
}

impl Dom {
    /// Store a new text node and insert it among `parent`'s children at
    /// place `i`.
    fn insert_new_text(&mut self, parent: Handle, i: usize, text: String) -> (n: Handle)
        requires
            old(self).wf(),
            old(self).valid(parent),
            i <= old(self).kids(parent).len(),
        ensures
            final(self).wf(),
            final(self).same_rest(old(self)),
            n == old(self).nodes@.len(),
            final(self).nodes@.len() == old(self).nodes@.len() + 1,
            final(self).parents_kept(old(self), Set::empty()),
            final(self).kids_kept(old(self), set![parent]),
            final(self).data_kept(old(self), Set::empty()),
            final(self).data_of(n) == (NodeData::Text { contents: text }),
            final(self).parent_of(n) == Some(parent),
            final(self).kids(n).len() == 0,
            final(self).kids(parent) == old(self).kids(parent).insert(i as int, n),
    {
        let ghost d0 = *self;
        let node = self.add_node(NodeData::Text { contents: text });
        let ghost d1 = *self;
        assert(d1.kids(parent) == d0.kids(parent));
        insert_child(self, parent, i, node);
        let ghost d2 = *self;
        assert(d2.data_kept(&d0, Set::empty())) by {
            assert forall|h: Handle| d0.valid(h) && !Set::<Handle>::empty().contains(h) implies #[trigger] d2.data_of(h) == d0.data_of(h) by {
                assert(d1.nodes@[h as int] == d0.nodes@[h as int]);
                assert(d1.valid(h));
            }
        }
        assert(d2.parents_kept(&d0, Set::empty())) by {
            assert forall|h: Handle| d0.valid(h) && !Set::<Handle>::empty().contains(h) implies #[trigger] d2.parent_of(h) == d0.parent_of(h) by {
                assert(d1.nodes@[h as int] == d0.nodes@[h as int]);
                assert(d1.valid(h));
                assert(h != node);
            }
        }
        assert(d2.kids_kept(&d0, set![parent])) by {
            assert forall|h: Handle| d0.valid(h) && !set![parent].contains(h) implies #[trigger] d2.kids(h) == d0.kids(h) by {
                assert(d1.nodes@[h as int] == d0.nodes@[h as int]);
                assert(d1.valid(h));
            }
        }
        assert(d2.data_of(node) == d1.data_of(node));
        assert(d2.kids(node) == d1.kids(node));
        node
    }

    /// Append a node, or text, as `parent`'s last child. Text that would
    /// follow a text node is added to that node instead, so that appending
    /// never sets two text nodes side by side.
    pub fn append(&mut self, parent: Handle, child: NodeOrText)
        requires
            old(self).wf(),
            old(self).valid(parent),
            child matches NodeOrText::AppendNode(c) ==> {
                &&& old(self).valid(c)
                &&& old(self).parent_of(c) is None
                &&& c != old(self).document
                &&& c != parent
            },
        ensures
            final(self).wf(),
            final(self).same_rest(old(self)),
            appended(old(self), final(self), parent, child),
    {
        let ghost d0 = *self;
        let n = self.nodes[parent].children.len();
        assert(n == d0.kids(parent).len());
        match child {
            NodeOrText::AppendText(text) => {
                if n > 0 {
                    let last = self.nodes[parent].children[n - 1];
                    assert(d0.valid(last));
                    if append_to_existing_text(self, last, text.as_str()) {
                        return;
                    }
                }
                assert(d0.last_text(parent) is None);
                self.insert_new_text(parent, n, text);
                assert(d0.kids(parent).insert(n as int, d0.nodes@.len() as Handle) =~= d0.kids(parent).push(d0.nodes@.len() as Handle));

            },
            NodeOrText::AppendNode(node) => {
                insert_child(self, parent, n, node);
                assert(d0.kids(parent).insert(n as int, node) =~= d0.kids(parent).push(node));
            },
        }
    }
}

impl Dom {
    /// Insert a node, or text, immediately before `sibling` among its
    /// parent's children. Text that would follow a text node is added to
    /// that node instead. A node that has a parent is detached first.
    pub fn append_before_sibling(&mut self, sibling: Handle, child: NodeOrText)
        requires
            old(self).wf(),
            old(self).valid(sibling),
            old(self).parent_of(sibling) is Some,
            child matches NodeOrText::AppendNode(c) ==> {
                &&& old(self).valid(c)
                &&& c != old(self).document
                &&& c != sibling
                &&& Some(c) != old(self).parent_of(sibling)
            },
        ensures
            final(self).wf(),
            final(self).same_rest(old(self)),
            inserted_before(old(self), final(self), sibling, child),
    {
        let ghost d0 = *self;
        let ghost par = d0.parent_of(sibling)->0;
        match child {
            NodeOrText::AppendText(text) => {
                if let Some((parent, i)) = get_parent_and_index(self, sibling) {
                    proof {
                        lemma_index_of_unique(d0.kids(parent), i as int);
                    }
                    if i > 0 {
                        let prev = self.nodes[parent].children[i - 1];
                        if append_to_existing_text(self, prev, text.as_str()) {
                            return;
                        }
                    }
                    self.insert_new_text(parent, i, text);
                }
            },
            NodeOrText::AppendNode(node) => {
                remove_from_parent(self, node);
                let ghost d1 = *self;
                proof {
                    assert(d1.parent_of(sibling) == Some(par));
                    if d0.parent_of(node) != Some(par) {
                        assert(!d0.kids(par).contains(node)) by {
                            if d0.kids(par).contains(node) {
                                let k = choose|k: int| 0 <= k < d0.kids(par).len() && d0.kids(par)[k] == node;
                                assert(d0.parent_of(d0.kids(par)[k]) == Some(par));
                            }
                        }
                        lemma_without_absent(d0.kids(par), node);
                        assert(d1.kids(par) == d0.kids(par));
                    }
                    assert(d1.kids(par) == without(d0.kids(par), node));
                }
                if let Some((parent, i)) = get_parent_and_index(self, sibling) {
                    proof {
                        lemma_index_of_unique(d1.kids(parent), i as int);
                    }
                    insert_child(self, parent, i, node);
                    let ghost d2 = *self;
                    assert(d2.parents_kept(&d0, set![node])) by {
                        assert forall|h: Handle| d0.valid(h) && !set![node].contains(h) implies #[trigger] d2.parent_of(h) == d0.parent_of(h) by {
                            assert(d1.parent_of(h) == d0.parent_of(h));
                        }
                    }
                    assert(d2.kids_kept(&d0, set![par].union(parent_set(&d0, node)))) by {
                        assert forall|h: Handle| d0.valid(h) && !set![par].union(parent_set(&d0, node)).contains(h) implies #[trigger] d2.kids(h) == d0.kids(h) by {
                            assert(!parent_set(&d0, node).contains(h));
                            assert(d1.kids(h) == d0.kids(h));
                        }
                    }
                    assert(d2.data_kept(&d0, Set::empty())) by {
                        assert forall|h: Handle| d0.valid(h) && !Set::<Handle>::empty().contains(h) implies #[trigger] d2.data_of(h) == d0.data_of(h) by {
                            assert(d1.data_of(h) == d0.data_of(h));
                        }
                    }
                    assert forall|q: Handle| d0.parent_of(node) == Some(q) && q != par
                        implies d2.kids(q) == without(d0.kids(q), node) by {
                        assert(d0.valid(q));
                        assert(d2.kids(q) == d1.kids(q));
                    }
                }
            },
        }
    }
}

impl Dom {
    /// Move all children of `node`, in order, to the end of `new_parent`'s
    /// children; `node` is left without children.
    pub fn reparent_children(&mut self, node: Handle, new_parent: Handle)
        requires
            old(self).wf(),
            old(self).valid(node),
            old(self).valid(new_parent),
            node != new_parent,
            old(self).parent_of(new_parent) != Some(node),
        ensures
            final(self).wf(),
            final(self).same_rest(old(self)),
            final(self).nodes@.len() == old(self).nodes@.len(),
            final(self).data_kept(old(self), Set::empty()),
            final(self).kids_kept(old(self), set![node, new_parent]),
            final(self).parents_kept(old(self), old(self).kids(node).to_set()),
            final(self).kids(node).len() == 0,
            final(self).kids(new_parent) == old(self).kids(new_parent) + old(self).kids(node),
            forall|k: int| 0 <= k < old(self).kids(node).len()
                ==> #[trigger] final(self).parent_of(old(self).kids(node)[k]) == Some(new_parent),
    {
        let ghost d0 = *self;
        let ghost a = d0.kids(new_parent);
        let ghost b = d0.kids(node);
        let mut moved: Vec<Handle> = Vec::new();
        std::mem::swap(&mut self.nodes[node].children, &mut moved);
        assert(moved@ == b);
        let mut i: usize = 0;
        while i < moved.len()
            invariant
                d0.wf(),
                moved@ == b,
                b == d0.kids(node),
                a == d0.kids(new_parent),
                d0.valid(node),
                d0.valid(new_parent),
                node != new_parent,
                0 <= i <= moved@.len(),
                self.same_rest(&d0),
                self.nodes@.len() == d0.nodes@.len(),
                forall|h: Handle| d0.valid(h) ==> #[trigger] self.data_of(h) == d0.data_of(h),
                forall|h: Handle| d0.valid(h) && h != node ==> #[trigger] self.kids(h) == d0.kids(h),
                self.kids(node).len() == 0,
                forall|k: int| 0 <= k < i ==> #[trigger] self.parent_of(b[k]) == Some(new_parent),
                forall|h: Handle| d0.valid(h) && !b.subrange(0, i as int).contains(h) ==> #[trigger] self.parent_of(h) == d0.parent_of(h),
            decreases moved@.len() - i,
        {
            let c = moved[i];
            assert(d0.valid(b[i as int]));
            let ghost s0 = *self;
            self.nodes[c].parent = Some(new_parent);
            proof {
                assert forall|h: Handle| d0.valid(h) && h != c implies #[trigger] self.nodes@[h as int] == s0.nodes@[h as int] by {}
                assert forall|h: Handle| d0.valid(h) implies #[trigger] self.data_of(h) == d0.data_of(h) by {
                    assert(self.data_of(h) == s0.data_of(h));
                }
                assert forall|h: Handle| d0.valid(h) && h != node implies #[trigger] self.kids(h) == d0.kids(h) by {
                    assert(self.kids(h) == s0.kids(h));
                }
                assert forall|h: Handle| d0.valid(h) && !b.subrange(0, i + 1).contains(h) implies #[trigger] self.parent_of(h) == d0.parent_of(h) by {
                    if b.subrange(0, i as int).contains(h) {
                        let k = choose|k: int| 0 <= k < i && b.subrange(0, i as int)[k] == h;
                        assert(b.subrange(0, i + 1)[k] == h);
                    }
                    assert(b.subrange(0, i + 1)[i as int] == c);
                    assert(self.nodes@[h as int] == s0.nodes@[h as int]);
                    assert(s0.parent_of(h) == d0.parent_of(h));
                }
                assert forall|k: int| 0 <= k < i + 1 implies #[trigger] self.parent_of(b[k]) == Some(new_parent) by {
                    if k < i {
                        assert(b[k] != b[i as int]) by {
                            assert(d0.kids(node).no_duplicates());
                        }
                        assert(self.nodes@[b[k] as int] == s0.nodes@[b[k] as int]);
                        assert(s0.parent_of(b[k]) == Some(new_parent));
                    }
                }
            }
            i = i + 1;
        }
        let ghost s1 = *self;
        self.nodes[new_parent].children.append(&mut moved);
        let ghost d1 = *self;
        assert forall|h: Handle| d0.valid(h) && h != new_parent implies #[trigger] d1.nodes@[h as int] == s1.nodes@[h as int] by {}
        assert(s1.kids(new_parent) == a);
        assert forall|h: Handle| d0.valid(h) implies #[trigger] d1.parent_of(h) == s1.parent_of(h) && d1.data_of(h) == s1.data_of(h) by {}
        assert(b.subrange(0, b.len() as int) =~= b);
        assert forall|h: Handle| d0.valid(h) && !b.contains(h) implies #[trigger] d1.parent_of(h) == d0.parent_of(h) by {
            assert(s1.parent_of(h) == d0.parent_of(h));
        }
        assert forall|m: int| 0 <= m < b.len() implies #[trigger] d1.parent_of(b[m]) == Some(new_parent) by {
            assert(s1.parent_of(b[m]) == Some(new_parent));
            assert(d0.valid(b[m]));
        }
        assert(d1.kids(new_parent) == a + b);
        assert(b.subrange(0, b.len() as int) =~= b);
        proof {
            assert(d0.kids(node).no_duplicates());
            assert(d0.kids(new_parent).no_duplicates());
            assert forall|x: Handle| a.contains(x) implies !b.contains(x) by {
                let k = choose|k: int| 0 <= k < a.len() && a[k] == x;
                assert(d0.parent_of(a[k]) == Some(new_parent));
                if b.contains(x) {
                    let m = choose|m: int| 0 <= m < b.len() && b[m] == x;
                    assert(d0.parent_of(b[m]) == Some(node));
                }
            }
            lemma_concat_no_dup(a, b);
        }
        assert forall|p: Handle| #[trigger] d1.valid(p) implies d1.kids(p).no_duplicates() by {
            assert(d0.valid(p));
            if p != node && p != new_parent {
                assert(d1.nodes@[p as int] == s1.nodes@[p as int]);
                assert(s1.kids(p) == d0.kids(p));
                assert(d1.kids(p) == d0.kids(p));
            }
        }
        assert forall|p: Handle, k: int| d1.valid(p) && 0 <= k < d1.kids(p).len() implies {
            &&& d1.valid(#[trigger] d1.kids(p)[k])
            &&& d1.parent_of(d1.kids(p)[k]) == Some(p)
        } by {
            if p == new_parent {
                if k < a.len() {
                    assert(d1.kids(p)[k] == a[k]);
                    assert(d0.valid(a[k]));
                    assert(d0.parent_of(a[k]) == Some(new_parent));
                    if b.contains(a[k]) {
                        let m = choose|m: int| 0 <= m < b.len() && b[m] == a[k];
                        assert(d0.parent_of(b[m]) == Some(node));
                    }
                } else {
                    assert(d1.kids(p)[k] == b[k - a.len()]);
                    assert(d0.valid(b[k - a.len()]));
                    assert(d1.parent_of(b[k - a.len()]) == s1.parent_of(b[k - a.len()]));
                }
            } else if p != node {
                assert(d1.nodes@[p as int] == s1.nodes@[p as int]);
                assert(s1.kids(p) == d0.kids(p));
                assert(d1.kids(p) == d0.kids(p));
                let c = d0.kids(p)[k];
                assert(d0.valid(c));
                assert(d0.parent_of(c) == Some(p));
                if b.contains(c) {
                    let m = choose|m: int| 0 <= m < b.len() && b[m] == c;
                    assert(d0.parent_of(b[m]) == Some(node));
                }
            }
        }
        assert forall|c: Handle| d1.valid(c) && #[trigger] d1.parent_of(c) is Some implies {
            &&& d1.valid(d1.parent_of(c)->0)
            &&& d1.kids(d1.parent_of(c)->0).contains(c)
        } by {
            if b.contains(c) {
                let m = choose|m: int| 0 <= m < b.len() && b[m] == c;
                assert(d1.parent_of(b[m]) == Some(new_parent));
                assert(d1.kids(new_parent)[a.len() + m] == c);
            } else {
                let q = d0.parent_of(c)->0;
                assert(d0.kids(q).contains(c));
                if q == node {
                    assert(b.contains(c));
                } else if q == new_parent {
                    let m = choose|m: int| 0 <= m < a.len() && a[m] == c;
                    assert(d1.kids(new_parent)[m] == c);
                } else {
                    assert(d0.valid(q));
                    assert(d1.nodes@[q as int] == s1.nodes@[q as int]);
                    assert(s1.kids(q) == d0.kids(q));
                }
            }
        }
        assert forall|h: Handle| #[trigger] d1.valid(h) implies d1.parent_of(h) != Some(h) by {
            assert(d0.valid(h));
            if b.contains(h) {
                let m = choose|m: int| 0 <= m < b.len() && b[m] == h;
                assert(d0.parent_of(b[m]) == Some(node));
                assert(d1.parent_of(b[m]) == Some(new_parent));
            } else {
                assert(d1.parent_of(h) == d0.parent_of(h));
            }
        }
        assert forall|h: Handle|
            d1.valid(h) && (#[trigger] d1.data_of(h)) is Element implies match d1.data_of(
            h,
        )->template_contents {
            Some(t) => d1.valid(t),
            None => true,
        } by {
            assert(s1.data_of(h) == d0.data_of(h));
            assert(d1.data_of(h) == d0.data_of(h));
        }
        assert forall|h: Handle| d0.valid(h) && !b.to_set().contains(h) implies #[trigger] d1.parent_of(h) == d0.parent_of(h) by {
            if b.contains(h) {
                assert(b.to_set().contains(h));
            }
        }
        assert forall|h: Handle| d0.valid(h) && !set![node, new_parent].contains(h) implies #[trigger] d1.kids(h) == d0.kids(h) by {
            assert(d1.nodes@[h as int] == s1.nodes@[h as int]);
            assert(s1.kids(h) == d0.kids(h));
        }
        assert forall|h: Handle| d0.valid(h) && !Set::<Handle>::empty().contains(h) implies #[trigger] d1.data_of(h) == d0.data_of(h) by {
            assert(s1.data_of(h) == d0.data_of(h));
        }
    }
}

/// Whether some attribute of `existing` has the name `n`.
pub open spec fn has_name(existing: Seq<Attribute>, n: (Option<Seq<char>>, Seq<char>, Seq<char>)) -> bool {
    exists|k: int| 0 <= k < existing.len() && (#[trigger] existing[k]).name@ == n
}

/// The attributes of `incoming`, in order, whose names neither an attribute
/// of `existing` nor an earlier accepted attribute of `incoming` has: the
/// first attribute seen under a name wins.
pub open spec fn missing_attrs(existing: Seq<Attribute>, incoming: Seq<Attribute>) -> Seq<Attribute>
    decreases incoming.len(),
{
    if incoming.len() == 0 {
        incoming
    } else {
        let rest = missing_attrs(existing, incoming.drop_last());
        if has_name(existing + rest, incoming.last().name@) {
            rest
        } else {
            rest.push(incoming.last())
        }
    }
}

fn same_string_opt(a: &Option<String>, b: &Option<String>) -> (r: bool)
    ensures
        r == (match *a {
            Some(x) => Some(x@),
            None => None,
        } == match *b {
            Some(y) => Some(y@),
            None => None,
        }),
{
    match a {
        Some(x) => match b {
            Some(y) => {
                let r = (*x) == (*y);
                assert(r ==> Some(x@) == Some(y@));
                assert(Some(x@) == Some(y@) ==> x@ == y@);
                r
            },
            None => false,
        },
        None => b.is_none(),
    }
}

/// Whether two names are equal in prefix, namespace and local part.
fn same_name(a: &QualName, b: &QualName) -> (r: bool)
    ensures
        r == (a@ == b@),
{
    same_string_opt(&a.prefix, &b.prefix) && a.ns == b.ns && a.local == b.local
}

/// Whether one of the first `n` attributes of `attrs` is named `name`.
fn has_name_in(attrs: &Vec<Attribute>, n: usize, name: &QualName) -> (r: bool)
    requires
        n <= attrs@.len(),
    ensures
        r == has_name(attrs@.subrange(0, n as int), name@),
{
    let mut k: usize = 0;
    while k < n
        invariant
            n <= attrs@.len(),
            k <= n,
            forall|j: int| 0 <= j < k ==> attrs@[j].name@ != name@,
        decreases n - k,
    {
        if same_name(&attrs[k].name, name) {
            assert(attrs@.subrange(0, n as int)[k as int] == attrs@[k as int]);
            return true;
        }
        k = k + 1;
    }
    assert forall|j: int| 0 <= j < n implies (#[trigger] attrs@.subrange(0, n as int)[j]).name@ != name@ by {
        assert(attrs@.subrange(0, n as int)[j] == attrs@[j]);
    }
    false
}

impl Dom {
    /// Add to element `target` each attribute of `attrs` whose name the
    /// element does not have yet, taking them in order, so that of several
    /// attributes with one name the first seen wins; existing attributes
    /// keep their values and order, and the new ones follow in the given
    /// order.
    pub fn add_attrs_if_missing(&mut self, target: Handle, attrs: Vec<Attribute>)
        requires
            old(self).wf(),
            old(self).valid(target),
            old(self).data_of(target) is Element,
        ensures
            final(self).wf(),
            final(self).same_rest(old(self)),
            final(self).nodes@.len() == old(self).nodes@.len(),
            final(self).parents_kept(old(self), Set::empty()),
            final(self).kids_kept(old(self), Set::empty()),
            final(self).data_kept(old(self), set![target]),
            final(self).data_of(target) matches NodeData::Element { name, attrs: a, template_contents, mathml_annotation_xml_integration_point }
                && old(self).data_of(target) matches NodeData::Element { name: name0, attrs: a0, template_contents: t0, mathml_annotation_xml_integration_point: m0 }
                && name == name0 && template_contents == t0 && mathml_annotation_xml_integration_point == m0
                && a@ == a0@ + missing_attrs(a0@, attrs@),
    {
        let ghost d0 = *self;
        let mut data = NodeData::Document;
        std::mem::swap(&mut self.nodes[target].data, &mut data);
        match data {
            NodeData::Element { name, attrs: mut existing, template_contents, mathml_annotation_xml_integration_point } => {
                let ghost e0 = existing@;
                let n0 = existing.len();
                let mut rest = attrs;
                let ghost incoming = rest@;
                let total = rest.len();
                let mut i: usize = 0;
                while rest.len() > 0
                    invariant
                        existing@.len() >= n0,
                        n0 == e0.len(),
                        existing@.subrange(0, n0 as int) == e0,
                        i <= incoming.len(),
                        i + rest@.len() == incoming.len(),
                        incoming.len() == total,
                        rest@ == incoming.subrange(i as int, incoming.len() as int),
                        existing@ == e0 + missing_attrs(e0, incoming.subrange(0, i as int)),
                    decreases rest@.len(),
                {
                    let a = rest.remove(0);
                    assert(incoming.subrange(0, i + 1).drop_last() =~= incoming.subrange(0, i as int));
                    assert(incoming.subrange(0, i + 1).last() == a);
                    let len = existing.len();
                    assert(existing@.subrange(0, len as int) =~= existing@);
                    if !has_name_in(&existing, len, &a.name) {
                        existing.push(a);
                    }
                    i = i + 1;
                    assert(rest@ =~= incoming.subrange(i as int, incoming.len() as int));
                    assert(existing@.subrange(0, n0 as int) =~= e0);
                }
                assert(incoming.subrange(0, i as int) =~= incoming);
                self.nodes[target].data = NodeData::Element {
                    name,
                    attrs: existing,
                    template_contents,
                    mathml_annotation_xml_integration_point,
                };
            },
            other => {
                self.nodes[target].data = other;
            },
        }
        proof {
            lemma_wf_data_change(d0, *self, target);
        }
    }

    /// Attach a new document type node as the document's last child.
    pub fn append_doctype_to_document(&mut self, name: String, public_id: String, system_id: String)
        requires
            old(self).wf(),
        ensures
            final(self).wf(),
            final(self).same_rest(old(self)),
            ({
                let n = old(self).nodes@.len() as Handle;
                &&& final(self).nodes@.len() == old(self).nodes@.len() + 1
                &&& final(self).parents_kept(old(self), Set::empty())
                &&& final(self).kids_kept(old(self), set![old(self).document])
                &&& final(self).data_kept(old(self), Set::empty())
                &&& final(self).data_of(n) == (NodeData::Doctype { name, public_id, system_id })
                &&& final(self).parent_of(n) == Some(old(self).document)
                &&& final(self).kids(n).len() == 0
                &&& final(self).kids(old(self).document) == old(self).kids(old(self).document).push(n)
            }),
    {
        let ghost d0 = *self;
        let node = self.add_node(NodeData::Doctype { name, public_id, system_id });
        let ghost d1 = *self;
        let document = self.document;
        assert(node != document);
        append(self, document, node);
        let ghost d2 = *self;
        assert forall|h: Handle| d0.valid(h) implies #[trigger] d1.nodes@[h as int] == d0.nodes@[h as int] by {}
        assert(d2.parents_kept(&d0, Set::empty())) by {
            assert forall|h: Handle| d0.valid(h) && !Set::<Handle>::empty().contains(h) implies #[trigger] d2.parent_of(h) == d0.parent_of(h) by {
                assert(d1.nodes@[h as int] == d0.nodes@[h as int]);
                assert(d1.valid(h) && h != node);
            }
        }
        assert(d2.kids_kept(&d0, set![document])) by {
            assert forall|h: Handle| d0.valid(h) && !set![document].contains(h) implies #[trigger] d2.kids(h) == d0.kids(h) by {
                assert(d1.nodes@[h as int] == d0.nodes@[h as int]);
                assert(d1.valid(h));
            }
        }
        assert(d2.data_kept(&d0, Set::empty())) by {
            assert forall|h: Handle| d0.valid(h) && !Set::<Handle>::empty().contains(h) implies #[trigger] d2.data_of(h) == d0.data_of(h) by {
                assert(d1.nodes@[h as int] == d0.nodes@[h as int]);
                assert(d1.valid(h));
            }
        }
        assert(d2.data_of(node) == d1.data_of(node));
        assert(d2.kids(node) == d1.kids(node));
    }

    /// Insert before `element` if it has a parent; else append under
    /// `prev_element`.
    pub fn append_based_on_parent_node(&mut self, element: Handle, prev_element: Handle, child: NodeOrText)
        requires
            old(self).wf(),
            old(self).valid(element),
            old(self).valid(prev_element),
            old(self).parent_of(element) is Some ==> (child matches NodeOrText::AppendNode(c) ==> {
                &&& old(self).valid(c)
                &&& c != old(self).document
                &&& c != element
                &&& Some(c) != old(self).parent_of(element)
            }),
            old(self).parent_of(element) is None ==> (child matches NodeOrText::AppendNode(c) ==> {
                &&& old(self).valid(c)
                &&& old(self).parent_of(c) is None
                &&& c != old(self).document
                &&& c != prev_element
            }),
        ensures
            final(self).wf(),
            final(self).same_rest(old(self)),
            old(self).parent_of(element) is Some ==> inserted_before(old(self), final(self), element, child),
            old(self).parent_of(element) is None ==> appended(old(self), final(self), prev_element, child),
    {
        if self.nodes[element].parent.is_some() {
            self.append_before_sibling(element, child);
        } else {
            self.append(prev_element, child);
        }
    }

    /// Record a parse error; the tree is not touched.
    pub fn parse_error(&mut self, msg: String)
        ensures
            final(self).nodes == old(self).nodes,
            final(self).document == old(self).document,
            final(self).quirks_mode == old(self).quirks_mode,
            final(self).errors@ == old(self).errors@.push(msg),
    {
        self.errors.push(msg);
    }

    /// Record the quirks mode; the tree is not touched.
    pub fn set_quirks_mode(&mut self, mode: QuirksMode)
        ensures
            final(self).nodes == old(self).nodes,
            final(self).document == old(self).document,
            final(self).errors == old(self).errors,
            final(self).quirks_mode == mode,
    {
        self.quirks_mode = mode;
    }

    /// The document node.
    pub fn get_document(&self) -> (r: Handle)
        ensures
            r == self.document,
    {
        self.document
    }

    /// Whether two handles name the same node.
    pub fn same_node(&self, x: Handle, y: Handle) -> (r: bool)
        ensures
            r == (x == y),
    {
        x == y
    }

    /// The name of element `target`.
    pub fn elem_name(&self, target: Handle) -> (r: &QualName)
        requires
            self.valid(target),
            self.data_of(target) is Element,
        ensures
            *r == self.data_of(target)->Element_name,
    {
        match &self.nodes[target].data {
            NodeData::Element { name, .. } => name,
            _ => vstd::pervasive::unreached(),
        }
    }

    /// The attributes of element `target`, in order.
    pub fn elem_attrs(&self, target: Handle) -> (r: &Vec<Attribute>)
        requires
            self.valid(target),
            self.data_of(target) is Element,
        ensures
            *r == self.data_of(target)->Element_attrs,
    {
        match &self.nodes[target].data {
            NodeData::Element { attrs, .. } => attrs,
            _ => vstd::pervasive::unreached(),
        }
    }

    /// The children of `h`, in order.
    pub fn children(&self, h: Handle) -> (r: &Vec<Handle>)
        requires
            self.valid(h),
        ensures
            r@ == self.kids(h),
    {
        &self.nodes[h].children
    }

    /// Whether `h` has a parent.
    pub fn has_parent(&self, h: Handle) -> (r: bool)
        requires
            self.valid(h),
        ensures
            r == self.parent_of(h) is Some,
    {
        self.nodes[h].parent.is_some()
    }

    /// The contents of template element `target`.
    pub fn get_template_contents(&self, target: Handle) -> (r: Handle)
        requires
            self.valid(target),
            self.data_of(target) matches NodeData::Element { template_contents, .. } && template_contents is Some,
        ensures
            Some(r) == self.data_of(target)->Element_template_contents,
    {
        match &self.nodes[target].data {
            NodeData::Element { template_contents: Some(t), .. } => *t,
            _ => vstd::pervasive::unreached(),
        }
    }

    /// Whether element `target` is a MathML annotation-xml integration point.
    pub fn is_mathml_annotation_xml_integration_point(&self, target: Handle) -> (r: bool)
        requires
            self.valid(target),
            self.data_of(target) is Element,
        ensures
            r == self.data_of(target)->Element_mathml_annotation_xml_integration_point,
    {
        match &self.nodes[target].data {
            NodeData::Element { mathml_annotation_xml_integration_point, .. } => *mathml_annotation_xml_integration_point,
            _ => vstd::pervasive::unreached(),
        }
    }
}

/// Text coalescing: appending two pieces of text one after the other under
/// the same parent leaves one text node, the parent's last child, holding
/// what that node held before (nothing, if it was made by the first append)
/// followed by both pieces; the second append adds no child.
pub proof fn lemma_text_coalesces(d0: Dom, d1: Dom, d2: Dom, p: Handle, t1: String, t2: String)
    requires
        d0.wf(),
        d0.valid(p),
        d1.wf(),
        appended(&d0, &d1, p, NodeOrText::AppendText(t1)),
        appended(&d1, &d2, p, NodeOrText::AppendText(t2)),
    ensures
        d2.kids(p).len() == d1.kids(p).len(),
        d2.kids(p).len() > 0,
        d2.last_text(p) == d1.last_text(p),
        d1.last_text(p) is Some,
        text_of(d2.data_of(d2.kids(p).last())) == Some(
            match d0.last_text(p) {
                Some(l) => text_of(d0.data_of(l))->0,
                None => Seq::<char>::empty(),
            } + t1@ + t2@,
        ),
{
    assert(d1.valid(p));
    match d0.last_text(p) {
        Some(l) => {
            assert(d1.kids(p) == d0.kids(p));
            assert(d1.last_text(p) == Some(l));
        },
        None => {
            let n = d0.nodes@.len() as Handle;
            assert(d1.kids(p).last() == n);
            assert(text_of(d1.data_of(n)) == Some(t1@));
            assert(d1.last_text(p) == Some(n));
            assert(Seq::<char>::empty() + t1@ == t1@);
        },
    }
    let l = d1.last_text(p)->0;
    assert(d2.kids(p) == d1.kids(p));
    assert(d2.kids(p).last() == l);
    assert(text_of(d2.data_of(l)) is Some);
}

impl Dom {
    /// A new, parentless, empty document node, the root of a tree built
    /// apart from the main document (a fragment, before it is grafted).
    pub fn create_document(&mut self) -> (r: Handle)
        requires
            old(self).wf(),
        ensures
            final(self).wf(),
            final(self).same_rest(old(self)),
            r == old(self).nodes@.len(),
            final(self).nodes@.len() == old(self).nodes@.len() + 1,
            forall|h: Handle| old(self).valid(h) ==> #[trigger] final(self).nodes@[h as int] == old(self).nodes@[h as int],
            final(self).data_of(r) == NodeData::Document,
            final(self).parent_of(r) is None,
            final(self).kids(r).len() == 0,
    {
        self.add_node(NodeData::Document)
    }

    /// Take the payload out of a parsed fragment: the first child of the
    /// first child of `root` (the container that the parser wraps the
    /// fragment in), detached from it. `None`, with nothing changed, if
    /// there is no such node.
    pub fn extract_fragment(&mut self, root: Handle) -> (r: Option<Handle>)
        requires
            old(self).wf(),
            old(self).valid(root),
        ensures
            final(self).wf(),
            final(self).same_rest(old(self)),
            r is Some <==> (old(self).kids(root).len() > 0 && old(self).kids(old(self).kids(root)[0]).len() > 0),
            match r {
                Some(f) => {
                    let c = old(self).kids(root)[0];
                    &&& f == old(self).kids(c)[0]
                    &&& final(self).nodes@.len() == old(self).nodes@.len()
                    &&& final(self).parent_of(f) is None
                    &&& final(self).kids(c) == old(self).kids(c).drop_first()
                    &&& final(self).data_kept(old(self), Set::empty())
                    &&& final(self).parents_kept(old(self), set![f])
                    &&& final(self).kids_kept(old(self), set![c])
                },
                None => *final(self) == *old(self),
            },
    {
        if self.nodes[root].children.len() == 0 {
            return None;
        }
        let container = self.nodes[root].children[0];
        assert(self.valid(container));
        if self.nodes[container].children.len() == 0 {
            return None;
        }
        let f = self.nodes[container].children[0];
        let ghost d0 = *self;
        assert(d0.valid(f) && d0.parent_of(f) == Some(container));
        proof {
            lemma_without_at(d0.kids(container), 0);
            assert(d0.kids(container).remove(0) =~= d0.kids(container).drop_first());
            assert(parent_set(&d0, f) =~= set![container]);
        }
        remove_from_parent(self, f);
        Some(f)
    }
}

impl Default for Dom {
    /// A tree that holds only an empty document node.
    fn default() -> (r: Dom)
        ensures
            r.wf(),
            r.nodes@.len() == 1,
            r.document == 0,
            r.data_of(0) == NodeData::Document,
            r.kids(0).len() == 0,
            r.errors@.len() == 0,
            r.quirks_mode == QuirksMode::NoQuirks,
    {
        Dom::new()
    }
}

/// No two neighbours among the children of `p` are both text nodes.
pub open spec fn no_adjacent_text(d: &Dom, p: Handle) -> bool {
    forall|k: int|
        0 <= k && k + 1 < d.kids(p).len() ==> !(text_of(d.data_of(#[trigger] d.kids(p)[k])) is Some
            && text_of(d.data_of(d.kids(p)[k + 1])) is Some)
}

/// Appending text, or a node that is no text node, never sets two text
/// nodes side by side among a parent's children.
pub proof fn lemma_append_keeps_text_apart(d0: Dom, d1: Dom, p: Handle, child: NodeOrText)
    requires
        d0.wf(),
        d0.valid(p),
        no_adjacent_text(&d0, p),
        child matches NodeOrText::AppendNode(n) ==> d0.valid(n) && text_of(d0.data_of(n)) is None,
        appended(&d0, &d1, p, child),
    ensures
        no_adjacent_text(&d1, p),
{
    let s0 = d0.kids(p);
    assert forall|k: int| 0 <= k < s0.len() implies #[trigger] d0.valid(s0[k]) by {}
    match child {
        NodeOrText::AppendText(t) => {
            match d0.last_text(p) {
                Some(l) => {
                    assert(d1.kids(p) == s0);
                    assert forall|k: int| 0 <= k < s0.len() implies (text_of(d1.data_of(s0[k])) is Some) == (text_of(d0.data_of(#[trigger] s0[k])) is Some) by {
                        assert(d0.valid(s0[k]));
                        if s0[k] != l {
                            assert(d1.data_of(s0[k]) == d0.data_of(s0[k]));
                        }
                    }
                    assert forall|k: int| 0 <= k && k + 1 < d1.kids(p).len() implies !(text_of(d1.data_of(#[trigger] d1.kids(p)[k])) is Some
                        && text_of(d1.data_of(d1.kids(p)[k + 1])) is Some) by {
                        assert(d0.valid(s0[k]) && d0.valid(s0[k + 1]));
                        assert((text_of(d1.data_of(s0[k + 1])) is Some) == (text_of(d0.data_of(s0[k + 1])) is Some));
                        assert(!(text_of(d0.data_of(s0[k])) is Some && text_of(d0.data_of(s0[k + 1])) is Some));
                    }
                },
                None => {
                    let n = d0.nodes@.len() as Handle;
                    assert(d1.kids(p) == s0.push(n));
                    assert forall|k: int| 0 <= k && k + 1 < d1.kids(p).len() implies !(text_of(d1.data_of(#[trigger] d1.kids(p)[k])) is Some
                        && text_of(d1.data_of(d1.kids(p)[k + 1])) is Some) by {
                        assert(d1.kids(p)[k] == s0[k]);
                        assert(d0.valid(s0[k]));
                        assert(d1.data_of(s0[k]) == d0.data_of(s0[k]));
                        if k + 1 < s0.len() {
                            assert(d1.kids(p)[k + 1] == s0[k + 1]);
                            assert(d0.valid(s0[k + 1]));
                            assert(d1.data_of(s0[k + 1]) == d0.data_of(s0[k + 1]));
                            assert(!(text_of(d0.data_of(s0[k])) is Some && text_of(d0.data_of(s0[k + 1])) is Some));
                        } else {
                            assert(s0.last() == s0[k]);
                        }
                    }
                },
            }
        },
        NodeOrText::AppendNode(c) => {
            assert(d1.kids(p) == s0.push(c));
            assert forall|k: int| 0 <= k && k + 1 < d1.kids(p).len() implies !(text_of(d1.data_of(#[trigger] d1.kids(p)[k])) is Some
                && text_of(d1.data_of(d1.kids(p)[k + 1])) is Some) by {
                assert(d1.kids(p)[k] == s0[k]);
                assert(d0.valid(s0[k]));
                assert(d1.data_of(s0[k]) == d0.data_of(s0[k]));
                if k + 1 < s0.len() {
                    assert(d1.kids(p)[k + 1] == s0[k + 1]);
                    assert(d0.valid(s0[k + 1]));
                    assert(d1.data_of(s0[k + 1]) == d0.data_of(s0[k + 1]));
                    assert(!(text_of(d0.data_of(s0[k])) is Some && text_of(d0.data_of(s0[k + 1])) is Some));
                } else {
                    assert(d1.kids(p)[k + 1] == c);
                    assert(d1.data_of(c) == d0.data_of(c));
                }
            }
        },
    }
}

} // verus!
