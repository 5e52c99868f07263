//! Structural injection: find the elements of a given local name in the
//! document and graft a prepared fragment under the one that matches.
use vstd::prelude::*;
use vstd::set_lib::{lemma_int_range, lemma_len_subset, set_int_range};
use crate::dom::{append, appended, Dom, Handle, NodeData, NodeOrText};

verus! {

/// The node `k` parent links above `h`, if the chain is that long.
pub open spec fn ancestor_at(d: &Dom, h: Handle, k: nat) -> Option<Handle>
    decreases k,
{
    if k == 0 {
        Some(h)
    } else {
        match d.parent_of(h) {
            Some(p) => ancestor_at(d, p, (k - 1) as nat),
            None => None,
        }
    }
}

/// `h` lies in the tree rooted at `root`: following parent links from `h`
/// reaches `root`.
pub open spec fn within(d: &Dom, root: Handle, h: Handle) -> bool {
    d.valid(h) && exists|k: nat| #[trigger] ancestor_at(d, h, k) == Some(root)
}

/// `h` is an element whose local name is `name`.
pub open spec fn is_named(d: &Dom, h: Handle, name: Seq<char>) -> bool {
    d.data_of(h) matches NodeData::Element { name: q, .. } && q.local@ == name
}

/// `h` is an element of the document whose local name is `name`.
pub open spec fn is_target(d: &Dom, h: Handle, name: Seq<char>) -> bool {
    within(d, d.document, h) && is_named(d, h, name)
}

/// Why a fragment could not be grafted.
#[derive(Clone, Copy, Debug, PartialEq, Eq, Structural)]
pub enum InjectError {
    /// The fragment already has a parent, or is the document itself.
    FragmentAttached,
    /// More than one element carries the target name: one fragment can
    /// have only one parent.
    MultipleTargets,
}

proof fn lemma_bounded_len(s: Seq<Handle>, n: nat)
    requires
        s.no_duplicates(),
        forall|j: int| 0 <= j < s.len() ==> #[trigger] s[j] < n,
    ensures
        s.len() <= n,
{
    let t = s.map_values(|h: Handle| h as int);
    assert forall|i: int, j: int| 0 <= i < t.len() && 0 <= j < t.len() && i != j implies t[i]
        != t[j] by {
        assert(s[i] != s[j]);
    }
    assert(t.no_duplicates());
    t.unique_seq_to_set();
    lemma_int_range(0, n as int);
    assert forall|x: int| t.to_set().contains(x) implies set_int_range(0, n as int).contains(x) by {
        let j = choose|j: int| 0 <= j < t.len() && t[j] == x;
        assert(s[j] < n);
    }
    lemma_len_subset(t.to_set(), set_int_range(0, n as int));
}

proof fn lemma_child_within(d: &Dom, root: Handle, p: Handle, c: Handle)
    requires
        d.wf(),
        within(d, root, p),
        d.valid(c),
        d.parent_of(c) == Some(p),
    ensures
        within(d, root, c),
{
    let k = choose|k: nat| #[trigger] ancestor_at(d, p, k) == Some(root);
    assert(ancestor_at(d, c, k + 1) == ancestor_at(d, p, k));
}

proof fn lemma_closed_complete(d: &Dom, root: Handle, order: Seq<Handle>, h: Handle, k: nat)
    requires
        d.wf(),
        order.contains(root),
        forall|j: int, m: int|
            0 <= j < order.len() && 0 <= m < d.kids(order[j]).len() ==> order.contains(
                #[trigger] d.kids(order[j])[m],
            ),
        d.valid(h),
        ancestor_at(d, h, k) == Some(root),
    ensures
        order.contains(h),
    decreases k,
{
    if k > 0 {
        let p = d.parent_of(h)->0;
        assert(d.valid(p) && d.kids(p).contains(h));
        lemma_closed_complete(d, root, order, p, (k - 1) as nat);
        let j = choose|j: int| 0 <= j < order.len() && order[j] == p;
        let m = choose|m: int| 0 <= m < d.kids(p).len() && d.kids(p)[m] == h;
        assert(order.contains(d.kids(order[j])[m]));
    }
}

impl Dom {
    /// Every element of the document whose local name is `name`, each once.
    pub fn find_elements(&self, name: &String) -> (r: Vec<Handle>)
        requires
            self.wf(),
        ensures
            r@.no_duplicates(),
            forall|h: Handle| r@.contains(h) <==> is_target(self, h, name@),
    {
        let n = self.nodes.len();
        let root = self.document;
        let mut seen: Vec<bool> = vec![false; n];
        seen.set(root, true);
        let mut order: Vec<Handle> = Vec::new();
        order.push(root);
        let mut found: Vec<Handle> = Vec::new();
        let mut head: usize = 0;
        assert(ancestor_at(self, root, 0) == Some(root));
        assert forall|h: Handle| h < n implies (seen@[h as int] <==> order@.contains(h)) by {
            assert(order@[0] == root);
            if order@.contains(h) {
                let j = choose|j: int| 0 <= j < order@.len() && order@[j] == h;
                assert(h == root);
            }
        }
        proof {
            lemma_bounded_len(order@, n as nat);
        }
        while head < order.len()
            invariant
                self.wf(),
                n == self.nodes@.len(),
                root == self.document,
                seen@.len() == n,
                order@.len() <= n,
                head <= order@.len(),
                order@.len() > 0,
                order@[0] == root,
                order@.no_duplicates(),
                forall|j: int| 0 <= j < order@.len() ==> within(self, root, #[trigger] order@[j]),
                forall|h: Handle| h < n ==> (seen@[h as int] <==> order@.contains(h)),
                forall|j: int, m: int|
                    0 <= j < head && 0 <= m < self.kids(order@[j]).len() ==> order@.contains(
                        #[trigger] self.kids(order@[j])[m],
                    ),
                found@.no_duplicates(),
                forall|h: Handle| found@.contains(h) <==> (order@.subrange(0, head as int).contains(h) && is_named(self, h, name@)),
            decreases n - head,
        {
            let cur = order[head];
            assert(within(self, root, order@[head as int]));
            let ghost found0 = found@;
            let ghost pre = order@.subrange(0, head as int);
            assert(!pre.contains(cur)) by {
                if pre.contains(cur) {
                    let j = choose|j: int| 0 <= j < pre.len() && pre[j] == cur;
                    assert(order@[j] == order@[head as int]);
                }
            }
            let named = match &self.nodes[cur].data {
                NodeData::Element { name: q, .. } => q.local == *name,
                _ => false,
            };
            assert(named == is_named(self, cur, name@));
            if named {
                found.push(cur);
                proof {
                    assert(!found0.contains(cur));
                    crate::seqs::lemma_push_no_dup(found0, cur);
                }
            }
            let children = &self.nodes[cur].children;
            let mut k: usize = 0;
            let ghost order0 = order@;
            while k < children.len()
                invariant
                    self.wf(),
                    n == self.nodes@.len(),
                    root == self.document,
                    children@ == self.kids(cur),
                    self.valid(cur),
                    within(self, root, cur),
                    seen@.len() == n,
                    order@.len() <= n,
                    head < order@.len(),
                    order@.subrange(0, order0.len() as int) == order0,
                    order0.len() <= order@.len(),
                    order@[0] == root,
                    order@.no_duplicates(),
                    forall|j: int| 0 <= j < order@.len() ==> within(self, root, #[trigger] order@[j]),
                    forall|h: Handle| h < n ==> (seen@[h as int] <==> order@.contains(h)),
                    forall|m: int| 0 <= m < k ==> order@.contains(#[trigger] children@[m]),
                    k <= children@.len(),
                decreases children@.len() - k,
            {
                let c = children[k];
                assert(self.valid(c) && self.parent_of(c) == Some(cur));
                if !seen[c] {
                    let ghost o1 = order@;
                    seen.set(c, true);
                    order.push(c);
                    proof {
                        crate::seqs::lemma_push_no_dup(o1, c);
                        lemma_child_within(self, root, cur, c);
                        assert forall|j: int| 0 <= j < order@.len() implies #[trigger] order@[j] < n by {
                            assert(within(self, root, order@[j]));
                        }
                        lemma_bounded_len(order@, n as nat);
                        assert forall|h: Handle| h < n implies (seen@[h as int] <==> order@.contains(h)) by {
                            if o1.contains(h) {
                                let j = choose|j: int| 0 <= j < o1.len() && o1[j] == h;
                                assert(order@[j] == h);
                            }
                            if order@.contains(h) && h != c {
                                let j = choose|j: int| 0 <= j < order@.len() && order@[j] == h;
                                assert(o1[j] == h);
                            }
                            assert(order@[o1.len() as int] == c);
                        }
                        assert forall|m: int| 0 <= m < k + 1 implies order@.contains(#[trigger] children@[m]) by {
                            if m < k {
                                let j = choose|j: int| 0 <= j < o1.len() && o1[j] == children@[m];
                                assert(order@[j] == children@[m]);
                            } else {
                                assert(order@[o1.len() as int] == c);
                            }
                        }
                        assert(order@.subrange(0, order0.len() as int) =~= order0) by {
                            assert(o1.subrange(0, order0.len() as int) == order0);
                        }
                    }
                }
                k = k + 1;
            }
            proof {
                assert forall|j: int, m: int|
                    0 <= j < head + 1 && 0 <= m < self.kids(order@[j]).len() implies order@.contains(
                        #[trigger] self.kids(order@[j])[m],
                    ) by {
                    assert(order@[j] == order0[j]);
                    if j < head {
                        let x = self.kids(order0[j])[m];
                        assert(order0.contains(x));
                        let i = choose|i: int| 0 <= i < order0.len() && order0[i] == x;
                        assert(order@[i] == x);
                    } else {
                        assert(order@.contains(children@[m]));
                    }
                }
                assert forall|h: Handle| found@.contains(h) <==> (order@.subrange(0, head + 1).contains(h) && is_named(self, h, name@)) by {
                    let pre1 = order@.subrange(0, head + 1);
                    assert(pre1[head as int] == cur);
                    if pre.contains(h) {
                        let j = choose|j: int| 0 <= j < pre.len() && pre[j] == h;
                        assert(pre1[j] == h);
                    }
                    if pre1.contains(h) && h != cur {
                        let j = choose|j: int| 0 <= j < pre1.len() && pre1[j] == h;
                        assert(pre[j] == h);
                    }
                    if named {
                        assert(found@ == found0.push(cur));
                        if found0.contains(h) {
                            let j = choose|j: int| 0 <= j < found0.len() && found0[j] == h;
                            assert(found@[j] == h);
                        }
                        if found@.contains(h) && h != cur {
                            let j = choose|j: int| 0 <= j < found@.len() && found@[j] == h;
                            assert(found0[j] == h);
                        }
                        assert(found@[found0.len() as int] == cur);
                    }
                }
            }
            head = head + 1;
        }
        proof {
            assert(order@.subrange(0, head as int) =~= order@);
            assert(order@.contains(root)) by {
                assert(order@[0] == root);
            }
            assert forall|h: Handle| found@.contains(h) <==> is_target(self, h, name@) by {
                if is_target(self, h, name@) {
                    let k = choose|k: nat| #[trigger] ancestor_at(self, h, k) == Some(root);
                    lemma_closed_complete(self, root, order@, h, k);
                }
                if order@.contains(h) {
                    let j = choose|j: int| 0 <= j < order@.len() && order@[j] == h;
                    assert(within(self, root, order@[j]));
                }
            }
        }
        found
    }
}

impl Dom {
    /// Graft `fragment` as the last child of the document's one element
    /// whose local name is `target`. With no such element nothing changes
    /// and `Ok(None)` comes back; with several, or with a fragment that
    /// already has a parent (or is the document), nothing changes and the
    /// error says which.
    pub fn inject_fragment(&mut self, target: &String, fragment: Handle) -> (r: Result<Option<Handle>, InjectError>)
        requires
            old(self).wf(),
            old(self).valid(fragment),
        ensures
            final(self).wf(),
            match r {
                Ok(None) => {
                    &&& forall|h: Handle| !is_target(old(self), h, target@)
                    &&& *final(self) == *old(self)
                },
                Ok(Some(m)) => {
                    &&& is_target(old(self), m, target@)
                    &&& forall|h: Handle| is_target(old(self), h, target@) ==> h == m
                    &&& old(self).parent_of(fragment) is None
                    &&& fragment != old(self).document
                    &&& final(self).same_rest(old(self))
                    &&& appended(old(self), final(self), m, NodeOrText::AppendNode(fragment))
                },
                Err(InjectError::MultipleTargets) => {
                    &&& exists|a: Handle, b: Handle| a != b && is_target(old(self), a, target@) && is_target(old(self), b, target@)
                    &&& *final(self) == *old(self)
                },
                Err(InjectError::FragmentAttached) => {
                    &&& exists|m: Handle| is_target(old(self), m, target@)
                        && forall|h: Handle| is_target(old(self), h, target@) ==> h == m
                    &&& (old(self).parent_of(fragment) is Some || fragment == old(self).document)
                    &&& *final(self) == *old(self)
                },
            },
    {
        let found = self.find_elements(target);
        if found.len() == 0 {
            assert forall|h: Handle| !is_target(self, h, target@) by {
                if is_target(self, h, target@) {
                    assert(found@.contains(h));
                }
            }
            return Ok(None);
        }
        if found.len() > 1 {
            assert(found@.contains(found@[0]) && found@.contains(found@[1]));
            assert(found@[0] != found@[1]);
            return Err(InjectError::MultipleTargets);
        }
        let m = found[0];
        assert(found@.contains(m));
        assert forall|h: Handle| is_target(self, h, target@) implies h == m by {
            assert(found@.contains(h));
        }
        if self.nodes[fragment].parent.is_some() || fragment == self.document {
            return Err(InjectError::FragmentAttached);
        }
        assert(m != fragment) by {
            let k = choose|k: nat| #[trigger] ancestor_at(self, m, k) == Some(self.document);
            if m == fragment && k > 0 {
                assert(ancestor_at(self, m, k) is None);
            }
        }
        append(self, m, fragment);
        Ok(Some(m))
    }
}

proof fn lemma_chain_kept(d0: &Dom, d1: &Dom, h: Handle, k: nat, root: Handle, f: Handle)
    requires
        d0.wf(),
        d0.valid(h),
        ancestor_at(d0, h, k) == Some(root),
        d1.parents_kept(d0, set![f]),
        d0.parent_of(f) is None,
        f != root,
    ensures
        ancestor_at(d1, h, k) == Some(root),
    decreases k,
{
    if k > 0 {
        let p = d0.parent_of(h)->0;
        assert(h != f);
        assert(d1.parent_of(h) == d0.parent_of(h));
        lemma_chain_kept(d0, d1, p, (k - 1) as nat, root, f);
    }
}

/// A grafted fragment lands in the document: appending a detached node
/// (not the document itself) under an element of the document makes it the
/// element's last child, and it lies under that element and in the
/// document.
pub proof fn lemma_fragment_lands_in_document(d0: Dom, d1: Dom, m: Handle, f: Handle, name: Seq<char>)
    requires
        d0.wf(),
        d0.valid(f),
        is_target(&d0, m, name),
        d0.parent_of(f) is None,
        f != d0.document,
        d1.same_rest(&d0),
        appended(&d0, &d1, m, NodeOrText::AppendNode(f)),
    ensures
        d1.kids(m).last() == f,
        within(&d1, m, f),
        within(&d1, d1.document, f),
{
    assert(d1.parent_of(f) == Some(m));
    assert(ancestor_at(&d1, m, 0) == Some(m));
    assert(ancestor_at(&d1, f, 1) == Some(m));
    let k = choose|k: nat| #[trigger] ancestor_at(&d0, m, k) == Some(d0.document);
    lemma_chain_kept(&d0, &d1, m, k, d0.document, f);
    assert(ancestor_at(&d1, f, k + 1) == ancestor_at(&d1, m, k));
}

} // verus!
