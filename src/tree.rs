use vstd::prelude::*;

verus! {

/// Identifier of a node in an [`Arena`]; never zero. It doubles as the inode
/// number that the filesystem hands out.
#[derive(Debug, PartialEq, Eq, Hash, Clone, Copy)]
pub struct NodeId(u64);

impl NodeId {
    /// The number this identifier stands for.
    pub closed spec fn value(self) -> u64 {
        self.0
    }

    #[verifier::type_invariant]
    spec fn nonzero(self) -> bool {
        self.0 != 0
    }

    pub fn new(id: u64) -> (r: NodeId)
        requires
            id != 0,
        ensures
            r.value() == id,
    {
        NodeId(id)
    }

    /// The inode number of this identifier.
    pub fn get(&self) -> (r: u64)
        ensures
            r == self.value(),
            r != 0,
    {
        proof {
            use_type_invariant(self);
        }
        self.0
    }
}

/// The numbers that a sequence of identifiers stands for.
pub open spec fn id_values(s: Seq<NodeId>) -> Seq<u64> {
    s.map_values(|n: NodeId| n.value())
}

/// What a node is, as plain values.
pub ghost struct NodeView<T> {
    pub id: u64,
    pub parent: Option<u64>,
    pub children: Seq<u64>,
    pub payload: T,
}

/// One entry of an [`Arena`].
#[derive(Debug)]
pub struct Node<T> {
    pub id: NodeId,
    pub parent_id: Option<NodeId>,
    pub children_ids: Vec<NodeId>,
    pub payload: T,
}

impl<T> View for Node<T> {
    type V = NodeView<T>;

    open spec fn view(&self) -> NodeView<T> {
        NodeView {
            id: self.id.value(),
            parent: match self.parent_id {
                Some(p) => Some(p.value()),
                None => None,
            },
            children: id_values(self.children_ids@),
            payload: self.payload,
        }
    }
}

/// The same node with one more child at the end of its children.
pub open spec fn with_child<T>(n: NodeView<T>, c: u64) -> NodeView<T> {
    NodeView { children: n.children.push(c), ..n }
}

/// The same node without the child `c`.
pub open spec fn without_child<T>(n: NodeView<T>, c: u64) -> NodeView<T> {
    NodeView { children: n.children.remove_value(c), ..n }
}

/// An owning store of tree nodes, indexed by identifier. Identifiers are
/// handed out in increasing order, starting at one, and never reused.
#[derive(Debug)]
pub struct Arena<T> {
    slots: Vec<Option<Node<T>>>,
    counter: u64,
}

impl<T> View for Arena<T> {
    type V = Map<u64, NodeView<T>>;

    closed spec fn view(&self) -> Map<u64, NodeView<T>> {
        Map::new(
            |k: u64| 1 <= k <= self.slots@.len() && self.slots@[k - 1] is Some,
            |k: u64| self.slots@[k - 1]->Some_0@,
        )
    }
}

impl<T> Arena<T> {
    /// The identifier that the next insertion gets.
    pub closed spec fn next_id(&self) -> u64 {
        self.counter
    }

    /// The identifier that the next insertion gets.
    pub fn next_id_exec(&self) -> (r: u64)
        ensures
            r == self.next_id(),
    {
        self.counter
    }

    pub open spec fn has(&self, id: u64) -> bool {
        self@.contains_key(id)
    }

    pub open spec fn children_of(&self, id: u64) -> Seq<u64> {
        self@[id].children
    }

    pub closed spec fn slots_wf(&self) -> bool {
        &&& self.counter == self.slots@.len() + 1
        &&& forall|i: int|
            0 <= i < self.slots@.len() && #[trigger] self.slots@[i] is Some
                ==> self.slots@[i]->Some_0.id.value() == i + 1
    }

    /// The structural invariant of the tree, over the arena's nodes.
    pub open spec fn tree_wf(&self) -> bool {
        &&& forall|id: u64| #[trigger] self.has(id) ==> id != 0 && id < self.next_id()
        &&& forall|id: u64| #[trigger] self.has(id) ==> self@[id].id == id
        &&& forall|id: u64| #[trigger] self.has(id) ==> self.children_of(id).no_duplicates()
        &&& forall|id: u64, c: u64|
            self.has(id) && #[trigger] self.children_of(id).contains(c) ==> {
                &&& self.has(c)
                &&& self@[c].parent == Some(id)
                &&& id < c
            }
        &&& forall|id: u64|
            #[trigger] self.has(id) && self@[id].parent is Some ==> {
                &&& self.has(self@[id].parent->Some_0)
                &&& self.children_of(self@[id].parent->Some_0).contains(id)
            }
    }

    pub open spec fn wf(&self) -> bool {
        self.slots_wf() && self.tree_wf()
    }

    /// The identifiers of the subtree rooted at `id`, in pre-order: the node
    /// itself, then the subtree of each child, in the order of the children.
    pub open spec fn walk(&self, id: u64) -> Seq<u64>
        decreases self.next_id() - id + 1, 0int,
    {
        if self.has(id) && id < self.next_id() {
            seq![id] + self.walk_list(self.children_of(id), id)
        } else {
            seq![]
        }
    }

    /// The walks of the identifiers in `ids` above `lo`, one after the other.
    pub open spec fn walk_list(&self, ids: Seq<u64>, lo: u64) -> Seq<u64>
        decreases self.next_id() - lo, ids.len(),
    {
        if ids.len() == 0 {
            seq![]
        } else if lo < ids[0] && ids[0] < self.next_id() {
            self.walk(ids[0]) + self.walk_list(ids.drop_first(), lo)
        } else {
            self.walk_list(ids.drop_first(), lo)
        }
    }

    pub fn new() -> (r: Arena<T>)
        ensures
            r.wf(),
            r@ == Map::<u64, NodeView<T>>::empty(),
            r.next_id() == 1,
    {
        let r = Arena { slots: Vec::new(), counter: 1 };
        assert(r@ =~= Map::<u64, NodeView<T>>::empty());
        r
    }

    /// The parent that a node inserted under `parent_id` is linked to: the
    /// given one where it exists, else none.
    pub open spec fn linked_parent(&self, parent_id: Option<NodeId>) -> Option<u64> {
        match parent_id {
            Some(p) => if self.has(p.value()) {
                Some(p.value())
            } else {
                None
            },
            None => None,
        }
    }

    /// The nodes after inserting `payload` as node `id` under `parent`.
    pub open spec fn inserted(
        m: Map<u64, NodeView<T>>,
        id: u64,
        parent: Option<u64>,
        payload: T,
    ) -> Map<u64, NodeView<T>> {
        let linked = match parent {
            Some(p) => m.insert(p, with_child(m[p], id)),
            None => m,
        };
        linked.insert(id, NodeView { id, parent, children: seq![], payload })
    }

    proof fn lemma_slot(&self, id: u64)
        requires
            self.slots_wf(),
        ensures
            self.has(id) <==> (1 <= id <= self.slots@.len() && self.slots@[id - 1] is Some),
            self.has(id) ==> self@[id] == self.slots@[id - 1]->Some_0@,
    {
    }

    pub fn contains(&self, node_id: &NodeId) -> (r: bool)
        requires
            self.wf(),
        ensures
            r == self.has(node_id.value()),
    {
        self.get(node_id).is_some()
    }

    pub fn get(&self, node_id: &NodeId) -> (r: Option<&Node<T>>)
        requires
            self.wf(),
        ensures
            r is None <==> !self.has(node_id.value()),
            r is Some ==> r->Some_0@ == self@[node_id.value()],
    {
        let id = node_id.get();
        proof {
            self.lemma_slot(id);
        }
        if id <= self.slots.len() as u64 {
            let i = (id - 1) as usize;
            match &self.slots[i] {
                Some(n) => {
                    assert(self.has(id));
                    Some(n)
                },
                None => None,
            }
        } else {
            None
        }
    }

    /// Takes the next identifier; the slot for it is pushed right after.
    fn generate_id(&mut self) -> (r: NodeId)
        requires
            1 <= old(self).counter < u64::MAX,
        ensures
            r.value() == old(self).counter,
            final(self).counter == old(self).counter + 1,
            final(self).slots == old(self).slots,
    {
        let id = self.counter;
        self.counter = self.counter + 1;
        NodeId::new(id)
    }

    /// Inserts `payload` as a new node and returns its identifier. The node is
    /// appended to the children of `parent_id` where that node exists; a parent
    /// that does not exist is not recorded, and the node stands unlinked.
    pub fn add(&mut self, payload: T, parent_id: Option<NodeId>) -> (r: NodeId)
        requires
            old(self).wf(),
            old(self).next_id() < u64::MAX,
        ensures
            final(self).wf(),
            r.value() == old(self).next_id(),
            r.value() != 0,
            !old(self).has(r.value()),
            final(self).next_id() == old(self).next_id() + 1,
            final(self)@ == Self::inserted(
                old(self)@,
                r.value(),
                old(self).linked_parent(parent_id),
                payload,
            ),
    {
        let linked = match parent_id {
            Some(p) => if self.contains(&p) {
                Some(p)
            } else {
                None
            },
            None => None,
        };
        let ghost old_map = self@;
        let ghost lp = self.linked_parent(parent_id);
        proof {
            self.lemma_slot(self.next_id());
        }
        let nid = self.generate_id();
        let id = nid.get();
        self.slots.push(Some(Node { id: nid, parent_id: linked, children_ids: Vec::new(), payload }));
        assert(id_values(Seq::<NodeId>::empty()) =~= Seq::<u64>::empty());
        assert(self@ =~= old_map.insert(id, NodeView { id, parent: lp, children: seq![], payload }));
        if let Some(p) = linked {
            let pi = p.get();
            assert(pi <= self.slots@.len());
            // reading the length bounds the index by usize::MAX
            let _len = self.slots.len();
            let i = (pi - 1) as usize;
            let ghost before = self@;
            match &mut self.slots[i] {
                Some(node) => {
                    let ghost old_children = node.children_ids@;
                    node.children_ids.push(nid);
                    assert(id_values(node.children_ids@) =~= id_values(old_children).push(id));
                },
                None => {},
            }
            assert(self@ =~= before.insert(pi, with_child(before[pi], id)));
        }
        assert(self@ =~= Self::inserted(old_map, id, lp, payload));
        assert(self.tree_wf()) by {
            assert forall|k: u64, c: u64|
                self.has(k) && #[trigger] self.children_of(k).contains(c) implies self.has(c)
                && self@[c].parent == Some(k) && k < c by {
                if k != id {
                    assert(old_map.contains_key(k));
                    if lp == Some(k) {
                        assert(self.children_of(k) == old_map[k].children.push(id));
                        if c != id {
                            let j = self.children_of(k).index_of(c);
                            assert(old_map[k].children[j] == c);
                            assert(old(self).children_of(k).contains(c));
                        }
                    } else {
                        assert(old(self).children_of(k).contains(c));
                    }
                }
            }
            assert forall|k: u64| #[trigger] self.has(k) implies self.children_of(
                k,
            ).no_duplicates() by {
                if k != id {
                    assert(old(self).has(k));
                    assert(old(self).children_of(k).no_duplicates());
                    if lp == Some(k) {
                        assert(!old_map[k].children.contains(id)) by {
                            if old_map[k].children.contains(id) {
                                assert(old(self).children_of(k).contains(id));
                            }
                        }
                        let ch = self.children_of(k);
                        assert(ch == old_map[k].children.push(id));
                        assert forall|a: int, b: int|
                            0 <= a < ch.len() && 0 <= b < ch.len() && a != b implies ch[a]
                            != ch[b] by {
                            if a == ch.len() - 1 {
                                assert(old_map[k].children[b] == ch[b]);
                            } else if b == ch.len() - 1 {
                                assert(old_map[k].children[a] == ch[a]);
                            }
                        }
                    }
                }
            }
            assert forall|k: u64| #[trigger]
                self.has(k) && self@[k].parent is Some implies self.has(self@[k].parent->Some_0)
                && self.children_of(self@[k].parent->Some_0).contains(k) by {
                let pk = self@[k].parent->Some_0;
                if k == id {
                    assert(self.children_of(pk)[self.children_of(pk).len() - 1] == k);
                } else {
                    assert(old(self).has(k));
                    assert(old(self).children_of(pk).contains(k));
                    if lp == Some(pk) {
                        assert(self.children_of(pk) == old_map[pk].children.push(id));
                        let j = old_map[pk].children.index_of(k);
                        assert(self.children_of(pk)[j] == k);
                    }
                }
            }
        }
        nid
    }

    /// The existing children of `parent`, in order; `None` where `parent`
    /// does not exist.
    pub fn get_children(&self, parent: &NodeId) -> (r: Option<Vec<&Node<T>>>)
        requires
            self.wf(),
        ensures
            r is None <==> !self.has(parent.value()),
            r is Some ==> {
                let v = r->Some_0@;
                &&& v.len() == self.children_of(parent.value()).len()
                &&& forall|i: int|
                    0 <= i < v.len() ==> (#[trigger] v[i])@ == self@[self.children_of(
                        parent.value(),
                    )[i]]
            },
    {
        match self.get(parent) {
            None => None,
            Some(node) => {
                let mut out: Vec<&Node<T>> = Vec::new();
                let mut i: usize = 0;
                while i < node.children_ids.len()
                    invariant
                        self.wf(),
                        node@ == self@[parent.value()],
                        self.has(parent.value()),
                        i <= node.children_ids.len(),
                        out@.len() == i,
                        forall|j: int|
                            0 <= j < i ==> (#[trigger] out@[j])@ == self@[self.children_of(
                                parent.value(),
                            )[j]],
                    decreases node.children_ids.len() - i,
                {
                    let c = &node.children_ids[i];
                    assert(self.children_of(parent.value())[i as int] == c.value());
                    assert(self.children_of(parent.value()).contains(c.value()));
                    match self.get(c) {
                        Some(n) => out.push(n),
                        None => {},
                    }
                    i = i + 1;
                }
                Some(out)
            },
        }
    }

    proof fn lemma_walk_list_concat(&self, a: Seq<u64>, b: Seq<u64>, lo: u64)
        ensures
            self.walk_list(a + b, lo) == self.walk_list(a, lo) + self.walk_list(b, lo),
        decreases a.len(),
    {
        if a.len() == 0 {
            assert(a + b =~= b);
            assert(self.walk_list(a, lo) =~= seq![]);
            assert(seq![] + self.walk_list(b, lo) =~= self.walk_list(b, lo));
        } else {
            assert((a + b)[0] == a[0]);
            assert((a + b).drop_first() =~= a.drop_first() + b);
            self.lemma_walk_list_concat(a.drop_first(), b, lo);
            if lo < a[0] && a[0] < self.next_id() {
                assert(self.walk(a[0]) + (self.walk_list(a.drop_first(), lo) + self.walk_list(
                    b,
                    lo,
                )) =~= (self.walk(a[0]) + self.walk_list(a.drop_first(), lo)) + self.walk_list(
                    b,
                    lo,
                ));
            }
        }
    }

    proof fn lemma_walk_list_lo(&self, s: Seq<u64>, lo: u64)
        requires
            forall|i: int| 0 <= i < s.len() ==> lo < #[trigger] s[i],
        ensures
            self.walk_list(s, lo) == self.walk_list(s, 0),
        decreases s.len(),
    {
        if s.len() > 0 {
            self.lemma_walk_list_lo(s.drop_first(), lo);
        }
    }

    proof fn lemma_walk_list_single(&self, t: u64)
        requires
            0 < t < self.next_id(),
        ensures
            self.walk_list(seq![t], 0) == self.walk(t),
    {
        let s = seq![t];
        assert(s.len() == 1 && s[0] == t);
        assert(s.drop_first() =~= Seq::<u64>::empty());
        assert(self.walk_list(s.drop_first(), 0) == Seq::<u64>::empty());
        assert(self.walk_list(s, 0) == self.walk(t) + self.walk_list(s.drop_first(), 0));
        assert(self.walk(t) + Seq::<u64>::empty() =~= self.walk(t));
    }

    /// Walks the subtree rooted at `node_id` depth first, in pre-order, with
    /// an explicit stack; `None` where `node_id` does not exist.
    pub fn tree_walk_dfs(&self, node_id: &NodeId) -> (r: Option<Vec<NodeId>>)
        requires
            self.wf(),
        ensures
            r is None <==> !self.has(node_id.value()),
            r is Some ==> id_values(r->Some_0@) == self.walk(node_id.value()),
            r is Some ==> id_values(r->Some_0@).no_duplicates(),
    {
        proof {
            self.lemma_walk_no_dup(node_id.value());
        }
        if !self.contains(node_id) {
            return None;
        }
        let mut stack: Vec<NodeId> = Vec::new();
        stack.push(*node_id);
        let mut it: Vec<NodeId> = Vec::new();
        proof {
            self.lemma_walk_list_single(node_id.value());
            assert(id_values(stack@).reverse() =~= seq![node_id.value()]);
            assert(id_values(it@) + self.walk(node_id.value()) =~= self.walk(node_id.value()));
        }
        while stack.len() > 0
            invariant
                self.wf(),
                self.has(node_id.value()),
                forall|i: int| 0 <= i < stack@.len() ==> self.has(#[trigger] stack@[i].value()),
                id_values(it@) + self.walk_list(id_values(stack@).reverse(), 0) == self.walk(
                    node_id.value(),
                ),
            decreases self.walk_list(id_values(stack@).reverse(), 0).len(),
        {
            let ghost before = stack@;
            let top = stack.pop().unwrap();
            let node = match self.get(&top) {
                Some(n) => n,
                None => {
                    return None;
                },
            };
            let ghost t = top.value();
            let ghost rest = stack@;
            let ghost children = self.children_of(t);
            proof {
                assert(before == rest.push(top));
                assert(id_values(before).reverse() =~= seq![t] + id_values(rest).reverse());
                self.lemma_walk_list_concat(seq![t], id_values(rest).reverse(), 0);
                self.lemma_walk_list_single(t);
                assert forall|i: int| 0 <= i < children.len() implies t < #[trigger] children[i] by {
                    assert(children.contains(children[i]));
                }
                self.lemma_walk_list_lo(children, t);
            }
            it.push(node.id);
            let mut j: usize = node.children_ids.len();
            while j > 0
                invariant
                    self.wf(),
                    self.has(node_id.value()),
                    self.has(t),
                    node@ == self@[t],
                    j <= node.children_ids.len(),
                    children == self.children_of(t),
                    forall|i: int| 0 <= i < stack@.len() ==> self.has(#[trigger] stack@[i].value()),
                    id_values(stack@).reverse() == children.subrange(j as int, children.len() as int)
                        + id_values(rest).reverse(),
                decreases j,
            {
                j = j - 1;
                let ghost prev = stack@;
                stack.push(node.children_ids[j]);
                proof {
                    assert(children[j as int] == node.children_ids@[j as int].value());
                    assert(children.contains(children[j as int]));
                    let pv = id_values(prev);
                    assert(id_values(stack@) =~= pv.push(children[j as int]));
                    assert(pv.push(children[j as int]).reverse() =~= seq![children[j as int]]
                        + pv.reverse());
                    assert(children.subrange(j as int, children.len() as int) =~= seq![
                        children[j as int],
                    ] + children.subrange(j + 1, children.len() as int));
                    assert(id_values(stack@).reverse() =~= children.subrange(
                        j as int,
                        children.len() as int,
                    ) + id_values(rest).reverse());
                }
            }
            proof {
                assert(children.subrange(0, children.len() as int) =~= children);
                self.lemma_walk_list_concat(children, id_values(rest).reverse(), 0);
                assert(id_values(it@) =~= id_values(it@.drop_last()).push(t));
                assert(self.walk(t) =~= seq![t] + self.walk_list(children, t));
                assert(id_values(it@) + self.walk_list(id_values(stack@).reverse(), 0)
                    =~= id_values(it@.drop_last()) + self.walk_list(id_values(before).reverse(), 0));
            }
        }
        proof {
            assert(id_values(stack@).reverse() =~= Seq::<u64>::empty());
            assert(id_values(it@) + seq![] =~= id_values(it@));
        }
        Some(it)
    }

    proof fn lemma_walk_list_mem(&self, s: Seq<u64>, lo: u64, x: u64) -> (i: int)
        requires
            self.walk_list(s, lo).contains(x),
        ensures
            0 <= i < s.len(),
            lo < s[i] < self.next_id(),
            self.walk(s[i]).contains(x),
        decreases s.len(),
    {
        if lo < s[0] && s[0] < self.next_id() && self.walk(s[0]).contains(x) {
            0
        } else {
            if lo < s[0] && s[0] < self.next_id() {
                let w = self.walk(s[0]);
                let k = choose|k: int|
                    0 <= k < self.walk_list(s, lo).len() && self.walk_list(s, lo)[k] == x;
                assert(self.walk_list(s.drop_first(), lo)[k - w.len()] == x);
            }
            let j = self.lemma_walk_list_mem(s.drop_first(), lo, x);
            j + 1
        }
    }

    proof fn lemma_walk_list_sub(&self, s: Seq<u64>, lo: u64, i: int, x: u64)
        requires
            0 <= i < s.len(),
            lo < s[i] < self.next_id(),
            self.walk(s[i]).contains(x),
        ensures
            self.walk_list(s, lo).contains(x),
        decreases s.len(),
    {
        if i == 0 {
            let k = choose|k: int| 0 <= k < self.walk(s[0]).len() && self.walk(s[0])[k] == x;
            assert(self.walk_list(s, lo)[k] == x);
        } else {
            self.lemma_walk_list_sub(s.drop_first(), lo, i - 1, x);
            let rest = self.walk_list(s.drop_first(), lo);
            let k = choose|k: int| 0 <= k < rest.len() && rest[k] == x;
            if lo < s[0] && s[0] < self.next_id() {
                assert(self.walk_list(s, lo)[self.walk(s[0]).len() + k] == x);
            } else {
                assert(self.walk_list(s, lo)[k] == x);
            }
        }
    }

    /// Every node in the subtree of `r` exists, is not below `r`, and is
    /// `r` itself or has its parent in the subtree.
    pub proof fn lemma_walk_facts(&self, r: u64, x: u64)
        requires
            self.wf(),
            self.walk(r).contains(x),
        ensures
            self.has(x),
            r <= x,
            x == r || (self@[x].parent is Some && self.walk(r).contains(
                self@[x].parent->Some_0,
            )),
        decreases self.next_id() - r,
    {
        let w = self.walk(r);
        assert(self.has(r));
        if x != r {
            let ch = self.children_of(r);
            let k = choose|k: int| 0 <= k < w.len() && w[k] == x;
            assert(w == seq![r] + self.walk_list(ch, r));
            assert(self.walk_list(ch, r)[k - 1] == x);
            let i = self.lemma_walk_list_mem(ch, r, x);
            let c = ch[i];
            assert(ch.contains(c));
            self.lemma_walk_facts(c, x);
            if x == c {
                assert(w[0] == r);
            } else {
                let q = self@[x].parent->Some_0;
                self.lemma_walk_list_sub(ch, r, i, q);
                let k2 = choose|k2: int|
                    0 <= k2 < self.walk_list(ch, r).len() && self.walk_list(ch, r)[k2] == q;
                assert(w[k2 + 1] == q);
            }
        }
    }

    /// The subtree of `r` holds the children of each of its nodes.
    proof fn lemma_walk_closed(&self, r: u64, y: u64, c: u64)
        requires
            self.wf(),
            self.walk(r).contains(y),
            self.children_of(y).contains(c),
        ensures
            self.walk(r).contains(c),
        decreases self.next_id() - r,
    {
        let w = self.walk(r);
        assert(self.has(r));
        self.lemma_walk_facts(r, y);
        let ch = self.children_of(r);
        assert(w == seq![r] + self.walk_list(ch, r));
        if y == r {
            let i = ch.index_of(c);
            assert(self.walk(c)[0] == c);
            self.lemma_walk_list_sub(ch, r, i, c);
        } else {
            let k = choose|k: int| 0 <= k < w.len() && w[k] == y;
            assert(self.walk_list(ch, r)[k - 1] == y);
            let i = self.lemma_walk_list_mem(ch, r, y);
            assert(ch.contains(ch[i]));
            self.lemma_walk_closed(ch[i], y, c);
            self.lemma_walk_list_sub(ch, r, i, c);
        }
        let wl = self.walk_list(ch, r);
        let k3 = choose|k3: int| 0 <= k3 < wl.len() && wl[k3] == c;
        assert(w[k3 + 1] == c);
    }

    /// The nodes after the subtree `sub` of node `id` is taken out, and `id`
    /// is detached from its parent.
    pub open spec fn removed(m: Map<u64, NodeView<T>>, id: u64, sub: Seq<u64>) -> Map<
        u64,
        NodeView<T>,
    > {
        let kept = m.remove_keys(sub.to_set());
        match m[id].parent {
            Some(p) => kept.insert(p, without_child(m[p], id)),
            None => kept,
        }
    }

    proof fn lemma_remove_no_dup(s: Seq<u64>, i: int)
        requires
            s.no_duplicates(),
            0 <= i < s.len(),
        ensures
            s.remove(i).no_duplicates(),
            forall|x: u64| s.remove(i).contains(x) <==> (s.contains(x) && x != s[i]),
    {
        let t = s.remove(i);
        assert forall|a: int, b: int| 0 <= a < t.len() && 0 <= b < t.len() && a != b implies t[a]
            != t[b] by {
            let a2 = if a < i { a } else { a + 1 };
            let b2 = if b < i { b } else { b + 1 };
            assert(t[a] == s[a2] && t[b] == s[b2]);
        }
        assert forall|x: u64| t.contains(x) <==> (s.contains(x) && x != s[i]) by {
            if t.contains(x) {
                let a = t.index_of(x);
                let a2 = if a < i { a } else { a + 1 };
                assert(s[a2] == x);
            }
            if s.contains(x) && x != s[i] {
                let a = s.index_of(x);
                if a < i {
                    assert(t[a] == x);
                } else {
                    assert(t[a - 1] == x);
                }
            }
        }
    }

    proof fn lemma_deleted_wf(&self, after: &Self, id: u64)
        requires
            self.wf(),
            self.has(id),
            after.next_id() == self.next_id(),
            after@ == Self::removed(self@, id, self.walk(id)),
        ensures
            after.tree_wf(),
    {
        let w = self.walk(id);
        let par = self@[id].parent;
        assert(w[0] == id);
        if let Some(p) = par {
            assert(!w.contains(p)) by {
                if w.contains(p) {
                    self.lemma_walk_facts(id, p);
                }
            }
            let ch = self.children_of(p);
            let i = ch.index_of_first(id);
            ch.index_of_first_ensures(id);
            Self::lemma_remove_no_dup(ch, i->Some_0);
        }
        assert forall|k: u64| #[trigger] after.has(k) implies k != 0 && k < after.next_id()
            && after@[k].id == k && after.children_of(k).no_duplicates() by {
            assert(self.has(k));
        }
        assert forall|k: u64, c: u64|
            after.has(k) && #[trigger] after.children_of(k).contains(c) implies after.has(c)
            && after@[c].parent == Some(k) && k < c by {
            assert(self.has(k) && !w.contains(k));
            assert(self.children_of(k).contains(c));
            assert(c != id) by {
                if c == id {
                    assert(par == Some(k));
                }
            }
            if w.contains(c) {
                self.lemma_walk_facts(id, c);
            }
        }
        assert forall|k: u64| #[trigger]
            after.has(k) && after@[k].parent is Some implies after.has(after@[k].parent->Some_0)
            && after.children_of(after@[k].parent->Some_0).contains(k) by {
            let q = after@[k].parent->Some_0;
            assert(self.has(k) && !w.contains(k));
            assert(self@[k].parent == Some(q));
            if w.contains(q) {
                self.lemma_walk_closed(id, q, k);
            }
        }
    }

    /// Removes the subtree rooted at `node_id` and detaches it from its
    /// parent; returns the removed identifiers in pre-order, `None` where
    /// `node_id` does not exist.
    pub fn delete_node(&mut self, node_id: NodeId) -> (r: Option<Vec<NodeId>>)
        requires
            old(self).wf(),
        ensures
            final(self).wf(),
            final(self).next_id() == old(self).next_id(),
            r is None <==> !old(self).has(node_id.value()),
            r is None ==> final(self)@ == old(self)@,
            r is Some ==> {
                &&& id_values(r->Some_0@) == old(self).walk(node_id.value())
                &&& id_values(r->Some_0@).no_duplicates()
                &&& final(self)@ == Self::removed(
                    old(self)@,
                    node_id.value(),
                    old(self).walk(node_id.value()),
                )
            },
    {
        let parent = match self.get(&node_id) {
            Some(node) => node.parent_id,
            None => {
                return None;
            },
        };
        let list = match self.tree_walk_dfs(&node_id) {
            Some(l) => l,
            None => {
                return None;
            },
        };
        let ghost id = node_id.value();
        let ghost w = self.walk(id);
        let ghost m0 = self@;
        let ghost old_self = *self;
        if let Some(p) = parent {
            let pi = p.get();
            proof {
                assert(self@[id].parent == Some(pi));
                assert(pi <= self.slots@.len());
            }
            // reading the length bounds the index by usize::MAX
            let _len = self.slots.len();
            let i = (pi - 1) as usize;
            match &mut self.slots[i] {
                Some(pn) => {
                    let ghost ch = id_values(pn.children_ids@);
                    let mut k: usize = 0;
                    while k < pn.children_ids.len() && pn.children_ids[k].get() != node_id.get()
                        invariant
                            k <= pn.children_ids.len(),
                            ch == id_values(pn.children_ids@),
                            id == node_id.value(),
                            forall|j: int| 0 <= j < k ==> ch[j] != id,
                        decreases pn.children_ids.len() - k,
                    {
                        k = k + 1;
                    }
                    proof {
                        ch.index_of_first_ensures(id);
                    }
                    if k < pn.children_ids.len() {
                        pn.children_ids.remove(k);
                        proof {
                            assert(ch[k as int] == id);
                            assert(ch.contains(id));
                            let f = ch.index_of_first(id)->Some_0;
                            assert(f == k) by {
                                if f < k {
                                    assert(ch[f] != id);
                                } else if f > k {
                                    assert(ch[k as int] != id);
                                }
                            }
                            assert(id_values(pn.children_ids@) =~= ch.remove(k as int));
                        }
                    }
                },
                None => {},
            }
            proof {
                assert(m0[pi].children.contains(id));
                assert(self@ =~= m0.insert(pi, without_child(m0[pi], id)));
            }
        } else {
            assert(self@ == m0);
        }
        let ghost m1 = self@;
        let mut j: usize = 0;
        while j < list.len()
            invariant
                self.slots_wf(),
                self.counter == old_self.counter,
                id_values(list@) == w,
                j <= list.len(),
                self@ == m1.remove_keys(w.subrange(0, j as int).to_set()),
            decreases list.len() - j,
        {
            let x = list[j].get();
            let ghost before = self@;
            if x <= self.slots.len() as u64 {
                let xi = (x - 1) as usize;
                self.slots.set(xi, None);
            }
            proof {
                assert(w[j as int] == x);
                assert(w.subrange(0, j + 1).to_set() =~= w.subrange(0, j as int).to_set().insert(x)) by {
                    assert(w.subrange(0, j + 1) =~= w.subrange(0, j as int).push(x));
                    w.subrange(0, j as int).lemma_push_to_set_commute(x);
                }
                assert(self@ =~= before.remove(x));
            }
            j = j + 1;
        }
        proof {
            assert(w.subrange(0, w.len() as int) =~= w);
            assert(self@ =~= Self::removed(m0, id, w)) by {
                if let Some(p) = old_self@[id].parent {
                    assert(!w.contains(p)) by {
                        if w.contains(p) {
                            old_self.lemma_walk_facts(id, p);
                        }
                    }
                }
            }
            old_self.lemma_deleted_wf(self, id);
        }
        Some(list)
    }

    /// Removing the first occurrence of `v` from a sequence without
    /// duplicates leaves exactly the other elements, still without duplicates.
    pub proof fn lemma_remove_value(s: Seq<u64>, v: u64)
        requires
            s.no_duplicates(),
        ensures
            s.remove_value(v).no_duplicates(),
            forall|x: u64| s.remove_value(v).contains(x) <==> (s.contains(x) && x != v),
    {
        s.index_of_first_ensures(v);
        if s.contains(v) {
            Self::lemma_remove_no_dup(s, s.index_of_first(v)->Some_0);
        }
    }

    /// The subtrees of two distinct siblings share no node.
    pub proof fn lemma_walk_disjoint(&self, c1: u64, c2: u64, x: u64)
        requires
            self.wf(),
            c1 != c2,
            self.has(c1),
            self.has(c2),
            self@[c1].parent is Some,
            self@[c1].parent == self@[c2].parent,
            self.walk(c1).contains(x),
        ensures
            !self.walk(c2).contains(x),
        decreases x,
    {
        if self.walk(c2).contains(x) {
            self.lemma_walk_facts(c1, x);
            self.lemma_walk_facts(c2, x);
            let p = self@[c1].parent->Some_0;
            assert(self.children_of(p).contains(c1));
            assert(self.children_of(p).contains(c2));
            if x == c1 {
                self.lemma_walk_facts(c2, p);
            } else if x == c2 {
                self.lemma_walk_facts(c1, p);
            } else {
                let q = self@[x].parent->Some_0;
                assert(self.children_of(q).contains(x));
                self.lemma_walk_disjoint(c1, c2, q);
            }
        }
    }

    proof fn lemma_concat_no_dup(a: Seq<u64>, b: Seq<u64>)
        requires
            a.no_duplicates(),
            b.no_duplicates(),
            forall|x: u64| a.contains(x) ==> !b.contains(x),
        ensures
            (a + b).no_duplicates(),
    {
        let c = a + b;
        assert forall|i: int, j: int| 0 <= i < c.len() && 0 <= j < c.len() && i != j implies c[i]
            != c[j] by {
            if i < a.len() && j >= a.len() {
                assert(a.contains(c[i]) && b[j - a.len()] == c[j]);
            } else if j < a.len() && i >= a.len() {
                assert(a.contains(c[j]) && b[i - a.len()] == c[i]);
            } else if i >= a.len() {
                assert(b[i - a.len()] == c[i] && b[j - a.len()] == c[j]);
            }
        }
    }

    /// A walk visits each node once.
    pub proof fn lemma_walk_no_dup(&self, r: u64)
        requires
            self.wf(),
        ensures
            self.walk(r).no_duplicates(),
        decreases self.next_id() - r + 1, 0int,
    {
        if self.has(r) && r < self.next_id() {
            let ch = self.children_of(r);
            self.lemma_walk_list_no_dup(r, 0);
            assert(ch.subrange(0, ch.len() as int) =~= ch);
            let rest = self.walk_list(ch, r);
            assert forall|x: u64| seq![r].contains(x) implies !rest.contains(x) by {
                assert(seq![r][0] == r);
                if rest.contains(r) {
                    let i = self.lemma_walk_list_mem(ch, r, r);
                    assert(ch.contains(ch[i]));
                    self.lemma_walk_facts(ch[i], r);
                }
            }
            Self::lemma_concat_no_dup(seq![r], rest);
        }
    }

    proof fn lemma_walk_list_no_dup(&self, p: u64, k: int)
        requires
            self.wf(),
            self.has(p),
            0 <= k <= self.children_of(p).len(),
        ensures
            self.walk_list(
                self.children_of(p).subrange(k, self.children_of(p).len() as int),
                p,
            ).no_duplicates(),
        decreases self.next_id() - p, self.children_of(p).len() - k,
    {
        let ch = self.children_of(p);
        let s = ch.subrange(k, ch.len() as int);
        if k < ch.len() {
            let c = ch[k];
            assert(s[0] == c);
            assert(ch.contains(c));
            assert(s.drop_first() =~= ch.subrange(k + 1, ch.len() as int));
            self.lemma_walk_no_dup(c);
            self.lemma_walk_list_no_dup(p, k + 1);
            let rest = self.walk_list(s.drop_first(), p);
            assert forall|x: u64| self.walk(c).contains(x) implies !rest.contains(x) by {
                if rest.contains(x) {
                    let j = self.lemma_walk_list_mem(s.drop_first(), p, x);
                    let c2 = s.drop_first()[j];
                    assert(c2 == ch[k + 1 + j]);
                    assert(ch.contains(c2));
                    assert(c2 != c);
                    self.lemma_walk_disjoint(c, c2, x);
                }
            }
            Self::lemma_concat_no_dup(self.walk(c), rest);
        } else {
            assert(s.len() == 0);
        }
    }

    /// A walk depends only on the nodes it visits: an arena that holds those
    /// nodes unchanged walks the same way.
    pub proof fn lemma_walk_agree(&self, other: &Self, r: u64)
        requires
            self.wf(),
            self.has(r),
            self.next_id() == other.next_id(),
            forall|x: u64| #[trigger]
                self.walk(r).contains(x) ==> other.has(x) && other@[x] == self@[x],
        ensures
            other.walk(r) == self.walk(r),
        decreases self.next_id() - r + 1, 0int,
    {
        let w = self.walk(r);
        let ch = self.children_of(r);
        assert(w[0] == r);
        assert(w.contains(r));
        assert(w == seq![r] + self.walk_list(ch, r));
        assert forall|x: u64| #[trigger]
            self.walk_list(ch, r).contains(x) implies other.has(x) && other@[x] == self@[x] by {
            let k = choose|k: int|
                0 <= k < self.walk_list(ch, r).len() && self.walk_list(ch, r)[k] == x;
            assert(w[k + 1] == x);
            assert(w.contains(x));
        }
        assert forall|i: int| 0 <= i < ch.len() implies #[trigger] self.has(ch[i]) && r < ch[i] by {
            assert(ch.contains(ch[i]));
        }
        self.lemma_walk_list_agree(other, ch, r);
    }

    proof fn lemma_walk_list_agree(&self, other: &Self, s: Seq<u64>, lo: u64)
        requires
            self.wf(),
            self.next_id() == other.next_id(),
            forall|i: int| 0 <= i < s.len() ==> #[trigger] self.has(s[i]) && lo < s[i],
            forall|x: u64| #[trigger]
                self.walk_list(s, lo).contains(x) ==> other.has(x) && other@[x] == self@[x],
        ensures
            other.walk_list(s, lo) == self.walk_list(s, lo),
        decreases self.next_id() - lo, s.len(),
    {
        if s.len() > 0 {
            assert(self.has(s[0]) && lo < s[0]);
            assert(s[0] < self.next_id());
            let w0 = self.walk(s[0]);
            let rest = s.drop_first();
            let wr = self.walk_list(rest, lo);
            assert(self.walk_list(s, lo) == w0 + wr);
            assert forall|x: u64| #[trigger] w0.contains(x) implies other.has(x) && other@[x]
                == self@[x] by {
                let k = choose|k: int| 0 <= k < w0.len() && w0[k] == x;
                assert((w0 + wr)[k] == x);
                assert(self.walk_list(s, lo).contains(x));
            }
            assert forall|x: u64| #[trigger] wr.contains(x) implies other.has(x) && other@[x]
                == self@[x] by {
                let k = choose|k: int| 0 <= k < wr.len() && wr[k] == x;
                assert((w0 + wr)[w0.len() + k] == x);
                assert(self.walk_list(s, lo).contains(x));
            }
            assert forall|i: int| 0 <= i < rest.len() implies #[trigger] self.has(rest[i]) && lo
                < rest[i] by {
                assert(rest[i] == s[i + 1]);
            }
            self.lemma_walk_agree(other, s[0]);
            self.lemma_walk_list_agree(other, rest, lo);
        }
    }
}

} // verus!
