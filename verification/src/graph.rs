use vstd::prelude::*;

use crate::error::Error;

verus! {

/// One named unit of work. Identity is the dense `index` (assigned in
/// insertion order) and the unique, non-empty `name`. `parent_count` is the
/// number of distinct incoming edges; `childrens` is the ordered list of
/// distinct child indices. The task itself is stored by the owning graph,
/// next to the node, so that the synthetic root (which never runs anything)
/// can be a plain `Node` too.
pub struct Node {
    pub index: usize,
    pub name: String,
    pub parent_count: usize,
    pub childrens: Vec<usize>,
}

impl Node {
    pub(crate) fn new(index: usize, name: String) -> (node: Node)
        ensures
            node.index == index,
            node.name == name,
            node.parent_count == 0,
            node.childrens@ == Seq::<usize>::empty(),
    {
        Node { index, name, parent_count: 0, childrens: Vec::new() }
    }
}

/// There is an edge from node `p` to node `c` in `nodes`.
pub open spec fn is_edge(nodes: Seq<Node>, p: int, c: int) -> bool {
    &&& 0 <= p < nodes.len()
    &&& exists|k: int|
        0 <= k < nodes[p].childrens@.len() && #[trigger] nodes[p].childrens@[k] as int == c
}

/// How many nodes `j` in `[0, upto)` outside `done` have an edge to `c`:
/// the number of `c`'s parents whose completion is still pending when the
/// nodes in `done` are the ones completed so far.
pub open spec fn pending_count(nodes: Seq<Node>, done: Set<int>, c: int, upto: int) -> int
    decreases upto,
{
    if upto <= 0 {
        0
    } else {
        pending_count(nodes, done, c, upto - 1) + if !done.contains(upto - 1) && is_edge(
            nodes,
            upto - 1,
            c,
        ) {
            1int
        } else {
            0int
        }
    }
}

/// Structural well-formedness of a node sequence: dense indices, non-empty
/// distinct names, and child lists that stay in range, never repeat and never
/// point back at their own node.
pub open spec fn nodes_wf(nodes: Seq<Node>) -> bool {
    &&& forall|i: int| 0 <= i < nodes.len() ==> (#[trigger] nodes[i].index) as int == i
    &&& forall|i: int| 0 <= i < nodes.len() ==> (#[trigger] nodes[i].name)@.len() > 0
    &&& forall|i: int, j: int|
        0 <= i < j < nodes.len() ==> (#[trigger] nodes[i].name)@ != (#[trigger] nodes[j].name)@
    &&& forall|i: int, k: int|
        0 <= i < nodes.len() && 0 <= k < nodes[i].childrens@.len() ==> ((
        #[trigger] nodes[i].childrens@[k]) as int) < nodes.len() && (nodes[i].childrens@[k] as int)
            != i
    &&& forall|i: int, k1: int, k2: int|
        0 <= i < nodes.len() && 0 <= k1 < k2 < nodes[i].childrens@.len()
            ==> (#[trigger] nodes[i].childrens@[k1]) != (#[trigger] nodes[i].childrens@[k2])
}

/// Node `i` can be scheduled within `k` rounds of peeling: it has no parents,
/// or every parent can be scheduled within `k - 1` rounds.
pub open spec fn ok_within(nodes: Seq<Node>, i: int, k: nat) -> bool
    decreases k,
{
    &&& k > 0
    &&& forall|p: int| #[trigger] is_edge(nodes, p, i) ==> ok_within(nodes, p, (k - 1) as nat)
}

/// Node `i` eventually becomes schedulable: it does not sit on or downstream
/// of a cycle.
pub open spec fn resolvable(nodes: Seq<Node>, i: int) -> bool {
    exists|k: nat| ok_within(nodes, i, k)
}

/// Every node eventually becomes schedulable: the graph has no cycle.
pub open spec fn acyclic(nodes: Seq<Node>) -> bool {
    forall|i: int| 0 <= i < nodes.len() ==> resolvable(nodes, i)
}

/// Some node in `nodes` carries this name.
pub open spec fn has_name(nodes: Seq<Node>, name: Seq<char>) -> bool {
    exists|j: int| 0 <= j < nodes.len() && (#[trigger] nodes[j].name)@ == name
}

/// The index of the node named `name` (unique when `nodes_wf` holds).
pub open spec fn name_index(nodes: Seq<Node>, name: Seq<char>) -> int {
    choose|j: int| 0 <= j < nodes.len() && (#[trigger] nodes[j].name)@ == name
}

/// A mutable builder that accumulates named nodes and directed edges.
/// Consumed by [`Graph::froze`].
pub struct Graph<T> {
    pub(crate) nodes: Vec<Node>,
    pub(crate) tasks: Vec<T>,
}

impl<T> Graph<T> {
    /// All of the graph's invariants: structural well-formedness, one task
    /// per node, and every `parent_count` equal to the node's in-degree.
    pub open(crate) spec fn wf(&self) -> bool {
        &&& nodes_wf(self.nodes@)
        &&& self.tasks@.len() == self.nodes@.len()
        &&& forall|i: int|
            0 <= i < self.nodes@.len() ==> (#[trigger] self.nodes@[i].parent_count) as int
                == pending_count(self.nodes@, Set::empty(), i, self.nodes@.len() as int)
    }

    pub open(crate) spec fn spec_nodes(&self) -> Seq<Node> {
        self.nodes@
    }

    pub open(crate) spec fn spec_tasks(&self) -> Seq<T> {
        self.tasks@
    }

    pub fn new() -> (graph: Graph<T>)
        ensures
            graph.wf(),
            graph.spec_nodes() == Seq::<Node>::empty(),
            graph.spec_tasks() == Seq::<T>::empty(),
    {
        Graph { nodes: Vec::new(), tasks: Vec::new() }
    }

    /// The index of the node named `name`, scanning in insertion order.
    fn find_index(&self, name: &String) -> (r: Option<usize>)
        ensures
            match r {
                Some(i) => i < self.nodes@.len() && self.nodes@[i as int].name@ == name@,
                None => !has_name(self.nodes@, name@),
            },
    {
        let n = self.nodes.len();
        let mut i: usize = 0;
        while i < n
            invariant
                i <= n,
                forall|j: int| 0 <= j < i ==> (#[trigger] self.nodes@[j].name)@ != name@,
            decreases n - i,
        {
            if self.nodes[i].name == *name {
                return Some(i);
            }
            i += 1;
        }
        None
    }

    /// Registers a new node under `name`, holding `task`.
    ///
    /// Fails with `InvalidNode` on an empty name and with `DuplicatedNode` on
    /// a name already registered; in both cases the graph is unchanged.
    /// Otherwise the node is appended with index equal to the previous node
    /// count, no parents and no children.
    pub fn add_node(&mut self, name: &str, task: T) -> (r: Result<(), Error<(), ()>>)
        requires
            old(self).wf(),
        ensures
            final(self).wf(),
            name@.len() == 0 ==> (r matches Err(Error::InvalidNode { name: m }) && m@ == name@)
                && *final(self) == *old(self),
            name@.len() > 0 && has_name(old(self).spec_nodes(), name@) ==> (r matches Err(
                Error::DuplicatedNode { name: m },
            ) && m@ == name@) && *final(self) == *old(self),
            name@.len() > 0 && !has_name(old(self).spec_nodes(), name@) ==> {
                &&& r is Ok
                &&& final(self).spec_nodes().len() == old(self).spec_nodes().len() + 1
                &&& final(self).spec_nodes().subrange(0, old(self).spec_nodes().len() as int)
                    == old(self).spec_nodes()
                &&& final(self).spec_nodes().last().index as int == old(self).spec_nodes().len()
                &&& final(self).spec_nodes().last().name@ == name@
                &&& final(self).spec_nodes().last().parent_count == 0
                &&& final(self).spec_nodes().last().childrens@ == Seq::<usize>::empty()
                &&& final(self).spec_tasks() == old(self).spec_tasks().push(task)
            },
    {
        let name_owned: String = name.to_owned();
        if name.is_empty() {
            return Err(Error::InvalidNode { name: name_owned });
        }
        if self.find_index(&name_owned).is_some() {
            return Err(Error::DuplicatedNode { name: name_owned });
        }
        let index = self.nodes.len();
        let node = Node::new(index, name_owned);
        let ghost node_g = node;
        self.nodes.push(node);
        self.tasks.push(task);
        proof {
            let old_nodes = old(self).nodes@;
            let ns = self.nodes@;
            let n = old_nodes.len() as int;
            assert(ns =~= old_nodes.push(node_g));
            assert(ns.subrange(0, n) =~= old_nodes);
            assert forall|j: int| 0 <= j < n implies (#[trigger] old_nodes[j].name)@ != name@ by {
                assert(!has_name(old_nodes, name@));
            }
            lemma_pending_count_push(old_nodes, node_g, Set::empty());
            assert forall|p: int| 0 <= p <= n implies !is_edge(ns, p, n) by {
                if is_edge(ns, p, n) {
                    let k = choose|k: int|
                        0 <= k < ns[p].childrens@.len() && #[trigger] ns[p].childrens@[k] as int
                            == n;
                    if p < n {
                        assert(ns[p] == old_nodes[p]);
                        assert((old_nodes[p].childrens@[k] as int) < n);
                    }
                }
            }
            assert forall|i: int, k: int|
                0 <= i < ns.len() && 0 <= k < ns[i].childrens@.len() implies ((
            #[trigger] ns[i].childrens@[k]) as int) < ns.len() && (ns[i].childrens@[k] as int)
                != i by {
                assert(i < n);
                assert(ns[i] == old_nodes[i]);
                assert(((old_nodes[i].childrens@[k]) as int) < n);
                assert((old_nodes[i].childrens@[k] as int) != i);
            }
            assert forall|i: int, k1: int, k2: int|
                0 <= i < ns.len() && 0 <= k1 < k2 < ns[i].childrens@.len() implies (
            #[trigger] ns[i].childrens@[k1]) != (#[trigger] ns[i].childrens@[k2]) by {
                assert(i < n);
                assert(ns[i] == old_nodes[i]);
                assert(old_nodes[i].childrens@[k1] != old_nodes[i].childrens@[k2]);
            }
            assert forall|i: int, j: int|
                0 <= i < j < ns.len() implies (#[trigger] ns[i].name)@ != (
            #[trigger] ns[j].name)@ by {
                assert(ns[i] == old_nodes[i]);
                if j < n {
                    assert(ns[j] == old_nodes[j]);
                } else {
                    assert(ns[j].name@ == name@);
                    assert(old_nodes[i].name@ != name@);
                }
            }
            assert forall|i: int|
                0 <= i < ns.len() implies (#[trigger] ns[i].parent_count) as int == pending_count(
                ns,
                Set::empty(),
                i,
                ns.len() as int,
            ) by {
                if i < n {
                    assert(pending_count(ns, Set::empty(), i, n) == pending_count(
                        old_nodes,
                        Set::empty(),
                        i,
                        n,
                    ));
                    assert(!is_edge(ns, n, i));
                    assert(pending_count(ns, Set::empty(), i, n + 1) == pending_count(
                        ns,
                        Set::empty(),
                        i,
                        n,
                    ));
                } else {
                    lemma_pending_bounds(ns, Set::empty(), n, n + 1);
                }
            }
        }
        Ok(())
    }

    /// Registers the edge `parent_index -> child_index`: the child gains a
    /// parent, the parent's ordered child list gains the child. Fails with
    /// `DuplicatedEdge` (and changes nothing) when the edge already exists.
    fn add_child(&mut self, parent_index: usize, child_index: usize) -> (r: Result<
        (),
        Error<(), ()>,
    >)
        requires
            old(self).wf(),
            parent_index < old(self).spec_nodes().len(),
            child_index < old(self).spec_nodes().len(),
            parent_index != child_index,
        ensures
            final(self).wf(),
            is_edge(old(self).spec_nodes(), parent_index as int, child_index as int) ==> (
            r matches Err(Error::DuplicatedEdge { from_node: f, to_node: t }) && f@ == old(
                self,
            ).spec_nodes()[parent_index as int].name@ && t@ == old(self).spec_nodes()[child_index
                as int].name@) && *final(self) == *old(self),
            !is_edge(old(self).spec_nodes(), parent_index as int, child_index as int) ==> {
                let p = parent_index as int;
                let c = child_index as int;
                let before = old(self).spec_nodes();
                let after = final(self).spec_nodes();
                &&& r is Ok
                &&& after.len() == before.len()
                &&& final(self).spec_tasks() == old(self).spec_tasks()
                &&& forall|i: int|
                    0 <= i < before.len() && i != p && i != c ==> #[trigger] after[i] == before[i]
                &&& after[p].index == before[p].index
                &&& after[p].name == before[p].name
                &&& after[p].parent_count == before[p].parent_count
                &&& after[p].childrens@ == before[p].childrens@.push(child_index)
                &&& after[c].index == before[c].index
                &&& after[c].name == before[c].name
                &&& after[c].parent_count == before[c].parent_count + 1
                &&& after[c].childrens == before[c].childrens
            },
    {
        let ghost before = self.nodes@;
        let n_nodes = self.nodes.len();
        let ghost n = n_nodes as int;
        let ch_len = self.nodes[parent_index].childrens.len();
        let mut k: usize = 0;
        while k < ch_len
            invariant
                k <= ch_len,
                forall|k2: int|
                    0 <= k2 < k ==> (#[trigger] self.nodes@[parent_index as int].childrens@[k2])
                        != child_index,
            decreases ch_len - k,
        {
            if self.nodes[parent_index].childrens[k] == child_index {
                return Err(Error::DuplicatedEdge {
                    from_node: self.nodes[parent_index].name.clone(),
                    to_node: self.nodes[child_index].name.clone(),
                });
            }
            k += 1;
        }
        assert(!is_edge(before, parent_index as int, child_index as int));
        let pc = self.nodes[child_index].parent_count;
        proof {
            lemma_pending_missing(
                before,
                Set::empty(),
                child_index as int,
                n,
                parent_index as int,
            );
            assert(pc as int <= n - 1);
        }
        self.nodes[child_index].parent_count = pc + 1;
        let ghost mid = self.nodes@;
        self.nodes[parent_index].childrens.push(child_index);
        proof {
            let p = parent_index as int;
            let c = child_index as int;
            let after = self.nodes@;
            assert forall|j: int|
                0 <= j < n && j != p implies (#[trigger] mid[j].childrens)@
                    == after[j].childrens@ by {}
            assert forall|j: int|
                0 <= j < n implies (#[trigger] before[j].childrens)@ == mid[j].childrens@ by {}
            assert(!is_edge(mid, p, c)) by {
                lemma_is_edge_congruent(before, mid, p, c);
            }
            // structural well-formedness of the updated sequence
            assert forall|i: int, kk: int|
                0 <= i < after.len() && 0 <= kk < after[i].childrens@.len() implies ((
            #[trigger] after[i].childrens@[kk]) as int) < after.len() && (after[i].childrens@[kk]
                as int) != i by {
                if i == p && kk == before[p].childrens@.len() {
                } else {
                    assert(after[i].childrens@[kk] == before[i].childrens@[kk]);
                    assert(((before[i].childrens@[kk]) as int) < n);
                    assert((before[i].childrens@[kk] as int) != i);
                }
            }
            assert forall|i: int, k1: int, k2: int|
                0 <= i < after.len() && 0 <= k1 < k2 < after[i].childrens@.len() implies (
            #[trigger] after[i].childrens@[k1]) != (#[trigger] after[i].childrens@[k2]) by {
                if i == p && k2 == before[p].childrens@.len() {
                    assert(after[i].childrens@[k1] == before[p].childrens@[k1]);
                    assert(after[i].childrens@[k2] == child_index);
                } else {
                    assert(after[i].childrens@[k1] == before[i].childrens@[k1]);
                    assert(after[i].childrens@[k2] == before[i].childrens@[k2]);
                    assert(before[i].childrens@[k1] != before[i].childrens@[k2]);
                }
            }
            // parent counts still match the in-degrees
            assert forall|i: int|
                0 <= i < after.len() implies (#[trigger] after[i].parent_count) as int
                    == pending_count(after, Set::empty(), i, after.len() as int) by {
                lemma_pending_congruent(before, mid, Set::empty(), i, n);
                lemma_pending_push_child(mid, after, p, child_index, Set::empty(), i, n);
            }
        }
        Ok(())
    }

    /// Adds the directed edge `from_node -> to_node`.
    ///
    /// Fails with `InvalidEdge` when an endpoint is empty or the edge is a
    /// self-loop, with `NodeNotFound` when an endpoint is not registered
    /// (`from_node` is looked up first), and with `DuplicatedEdge` when the
    /// edge already exists. On any failure the graph is unchanged. Otherwise
    /// the target's `parent_count` grows by one and the target's index is
    /// appended to the source's child list, insertion order preserved.
    pub fn add_edge(&mut self, from_node: &str, to_node: &str) -> (r: Result<(), Error<(), ()>>)
        requires
            old(self).wf(),
        ensures
            final(self).wf(),
            (from_node@.len() == 0 || to_node@.len() == 0 || from_node@ == to_node@) ==> (
            r matches Err(Error::InvalidEdge { from_node: f, to_node: t }) && f@ == from_node@
                && t@ == to_node@) && *final(self) == *old(self),
            !(from_node@.len() == 0 || to_node@.len() == 0 || from_node@ == to_node@)
                && !has_name(old(self).spec_nodes(), from_node@) ==> (r matches Err(
                Error::NodeNotFound { name: m },
            ) && m@ == from_node@) && *final(self) == *old(self),
            !(from_node@.len() == 0 || to_node@.len() == 0 || from_node@ == to_node@) && has_name(
                old(self).spec_nodes(),
                from_node@,
            ) && !has_name(old(self).spec_nodes(), to_node@) ==> (r matches Err(
                Error::NodeNotFound { name: m },
            ) && m@ == to_node@) && *final(self) == *old(self),
            !(from_node@.len() == 0 || to_node@.len() == 0 || from_node@ == to_node@) && has_name(
                old(self).spec_nodes(),
                from_node@,
            ) && has_name(old(self).spec_nodes(), to_node@) ==> {
                let before = old(self).spec_nodes();
                let after = final(self).spec_nodes();
                let p = name_index(before, from_node@);
                let c = name_index(before, to_node@);
                &&& is_edge(before, p, c) ==> (r matches Err(
                    Error::DuplicatedEdge { from_node: f, to_node: t },
                ) && f@ == from_node@ && t@ == to_node@) && *final(self) == *old(self)
                &&& !is_edge(before, p, c) ==> {
                    &&& r is Ok
                    &&& after.len() == before.len()
                    &&& final(self).spec_tasks() == old(self).spec_tasks()
                    &&& forall|i: int|
                        0 <= i < before.len() && i != p && i != c ==> #[trigger] after[i]
                            == before[i]
                    &&& after[p].index == before[p].index
                    &&& after[p].name == before[p].name
                    &&& after[p].parent_count == before[p].parent_count
                    &&& after[p].childrens@ == before[p].childrens@.push(c as usize)
                    &&& after[c].index == before[c].index
                    &&& after[c].name == before[c].name
                    &&& after[c].parent_count == before[c].parent_count + 1
                    &&& after[c].childrens == before[c].childrens
                }
            },
    {
        let from_owned: String = from_node.to_owned();
        let to_owned_s: String = to_node.to_owned();
        if from_node.is_empty() || to_node.is_empty() || from_owned == to_owned_s {
            return Err(Error::InvalidEdge { from_node: from_owned, to_node: to_owned_s });
        }
        let parent_index = match self.find_index(&from_owned) {
            Some(v) => v,
            None => { return Err(Error::NodeNotFound { name: from_owned }) },
        };
        let child_index = match self.find_index(&to_owned_s) {
            Some(v) => v,
            None => { return Err(Error::NodeNotFound { name: to_owned_s }) },
        };
        proof {
            let before = self.nodes@;
            let p = name_index(before, from_node@);
            let c = name_index(before, to_node@);
            assert(before[p].name@ == from_node@ && 0 <= p < before.len());
            assert(before[c].name@ == to_node@ && 0 <= c < before.len());
            assert(p == parent_index as int);
            assert(c == child_index as int);
        }
        self.add_child(parent_index, child_index)
    }

    /// Validates and compiles the graph, consuming it.
    ///
    /// A dependency-counting topological pass (Kahn's algorithm) runs over
    /// the nodes. It succeeds exactly when the graph is acyclic, producing a
    /// frozen graph whose synthetic root adopts every zero-dependency node
    /// (raising each adopted node's `parent_count` by one); everything else
    /// is kept as built. Otherwise it fails with `CyclicGraphFound`, whose
    /// payload lists every node whose remaining in-degree never reached
    /// zero, bracketed and comma-joined in insertion order.
    pub fn froze(self) -> (r: Result<FrozenGraph<T>, Error<(), ()>>)
        requires
            self.wf(),
        ensures
            r is Ok <==> acyclic(self.spec_nodes()),
            r matches Ok(frozen) ==> {
                let before = self.spec_nodes();
                let n = before.len() as int;
                let ext = frozen.ext_nodes();
                &&& frozen.wf()
                &&& frozen.n_nodes() == n
                &&& frozen.spec_tasks() == self.spec_tasks()
                &&& forall|i: int| 0 <= i < n ==> #[trigger] ext[i].index == before[i].index
                &&& forall|i: int| 0 <= i < n ==> #[trigger] ext[i].name == before[i].name
                &&& forall|i: int|
                    0 <= i < n ==> #[trigger] ext[i].childrens == before[i].childrens
                &&& forall|i: int|
                    0 <= i < n ==> (#[trigger] ext[i].parent_count) as int
                        == before[i].parent_count + if before[i].parent_count == 0 {
                        1int
                    } else {
                        0int
                    }
                &&& ext[n].name@ == "$ROOT"@
                &&& ext[n].childrens@ == roots_of(before, n)
            },
            r matches Err(e) ==> (e matches Error::CyclicGraphFound { ring } && ring@ == ring_of(
                self.spec_nodes(),
            )),
    {
        let mut g = self;
        let ghost ns = g.nodes@;
        let ghost ts = g.tasks@;
        let n_node = g.nodes.len();
        let ghost n = n_node as int;

        // remaining in-degrees, copied from the static parent counts
        let mut in_degrees: Vec<usize> = Vec::new();
        let mut i: usize = 0;
        while i < n_node
            invariant
                i <= n_node,
                in_degrees@.len() == i as int,
                forall|j: int| 0 <= j < i ==> (#[trigger] in_degrees@[j]) == ns[j].parent_count,
            decreases n_node - i,
        {
            in_degrees.push(g.nodes[i].parent_count);
            i += 1;
        }

        // seed the queue with the nodes that start at in-degree zero
        let mut queue: Vec<usize> = Vec::new();
        let mut queue_i: usize = 0;
        let mut i: usize = 0;
        while i < n_node
            invariant
                i <= n_node,
                queue@.len() <= i as int,
                forall|kk: int| 0 <= kk < queue@.len() ==> ((#[trigger] queue@[kk]) as int) < i,
                forall|k1: int, k2: int|
                    0 <= k1 < k2 < queue@.len() ==> queue@[k1] != queue@[k2],
                forall|kk: int|
                    0 <= kk < queue@.len() ==> in_degrees@[(#[trigger] queue@[kk]) as int] == 0,
                forall|j: int| 0 <= j < i && in_degrees@[j] == 0 ==> in_queue(queue@, j),
                forall|kk: int, p: int|
                    0 <= kk < queue@.len() && #[trigger] is_edge(
                        ns,
                        p,
                        (#[trigger] queue@[kk]) as int,
                    ) ==> prefix_set(queue@, kk).contains(p),
            decreases n_node - i,
        {
            if in_degrees[i] == 0 {
                let ghost q0 = queue@;
                queue.push(i);
                proof {
                    lemma_in_queue_push(q0, i);
                    lemma_pending_bounds(ns, Set::empty(), i as int, n);
                    assert forall|p: int| !(#[trigger] is_edge(ns, p, i as int)) by {
                        if is_edge(ns, p, i as int) {
                            assert(Set::<int>::empty().contains(p));
                        }
                    }
                    assert forall|kk: int, p: int|
                        0 <= kk < queue@.len() && #[trigger] is_edge(
                            ns,
                            p,
                            (#[trigger] queue@[kk]) as int,
                        ) implies prefix_set(queue@, kk).contains(p) by {
                        if kk < q0.len() {
                            assert(queue@[kk] == q0[kk]);
                            lemma_prefix_set_push(q0, i, kk);
                        } else {
                            assert(queue@[kk] as int == i as int);
                        }
                    }
                }
            }
            i += 1;
        }

        // process the queue in FIFO order, decrementing children
        while queue_i < queue.len()
            invariant
                queue_i <= queue@.len(),
                queue@.len() <= n,
                forall|kk: int| 0 <= kk < queue@.len() ==> ((#[trigger] queue@[kk]) as int) < n,
                forall|k1: int, k2: int|
                    0 <= k1 < k2 < queue@.len() ==> queue@[k1] != queue@[k2],
                in_degrees@.len() == n,
                forall|j: int|
                    0 <= j < n ==> (#[trigger] in_degrees@[j]) as int == pending_count(
                        ns,
                        prefix_set(queue@, queue_i as int),
                        j,
                        n,
                    ),
                forall|kk: int|
                    0 <= kk < queue@.len() ==> in_degrees@[(#[trigger] queue@[kk]) as int] == 0,
                forall|j: int| 0 <= j < n && in_degrees@[j] == 0 ==> in_queue(queue@, j),
                forall|kk: int, p: int|
                    0 <= kk < queue@.len() && #[trigger] is_edge(
                        ns,
                        p,
                        (#[trigger] queue@[kk]) as int,
                    ) ==> prefix_set(queue@, kk).contains(p),
            decreases n - queue_i,
        {
            let cursor = queue[queue_i];
            queue_i += 1;
            let ghost done = prefix_set(queue@, queue_i as int);
            let ghost ch = ns[cursor as int].childrens@;
            proof {
                lemma_prefix_set_contains(queue@, queue_i - 1);
                assert(!prefix_set(queue@, queue_i - 1).contains(cursor as int));
                assert forall|j: int|
                    0 <= j < n implies pending_count(ns, done, j, n) == pending_count(
                    ns,
                    prefix_set(queue@, queue_i - 1),
                    j,
                    n,
                ) - if is_edge(ns, cursor as int, j) {
                    1int
                } else {
                    0int
                } by {
                    lemma_pending_insert(ns, prefix_set(queue@, queue_i - 1), cursor as int, j, n);
                }
                assert forall|j: int|
                    0 <= j < n implies is_edge(ns, cursor as int, j) == in_suffix(ch, 0, j) by {
                    if is_edge(ns, cursor as int, j) {
                        let kk = choose|kk: int|
                            0 <= kk < ns[cursor as int].childrens@.len() && #[trigger] ns[cursor
                                as int].childrens@[kk] as int == j;
                        assert(ch[kk] as int == j);
                    }
                    if in_suffix(ch, 0, j) {
                        let kk = choose|kk: int|
                            0 <= kk < ch.len() && (#[trigger] ch[kk]) as int == j;
                        assert(ns[cursor as int].childrens@[kk] as int == j);
                    }
                }
            }
            let ch_len = g.nodes[cursor].childrens.len();
            let mut k: usize = 0;
            while k < ch_len
                invariant
                    k <= ch_len,
                    queue_i <= queue@.len(),
                    queue@.len() <= n,
                    prefix_set(queue@, queue_i as int) == done,
                    forall|kk: int|
                        0 <= kk < queue@.len() ==> ((#[trigger] queue@[kk]) as int) < n,
                    forall|k1: int, k2: int|
                        0 <= k1 < k2 < queue@.len() ==> queue@[k1] != queue@[k2],
                    in_degrees@.len() == n,
                    forall|j: int|
                        0 <= j < n ==> (#[trigger] in_degrees@[j]) as int == pending_count(
                            ns,
                            done,
                            j,
                            n,
                        ) + if in_suffix(ch, k as int, j) {
                            1int
                        } else {
                            0int
                        },
                    forall|kk: int|
                        0 <= kk < queue@.len() ==> in_degrees@[(#[trigger] queue@[kk]) as int]
                            == 0,
                    forall|j: int| 0 <= j < n && in_degrees@[j] == 0 ==> in_queue(queue@, j),
                    forall|kk: int, p: int|
                        0 <= kk < queue@.len() && #[trigger] is_edge(
                            ns,
                            p,
                            (#[trigger] queue@[kk]) as int,
                        ) ==> prefix_set(queue@, kk).contains(p),
                decreases ch_len - k,
            {
                let child = g.nodes[cursor].childrens[k];
                proof {
                    assert(ch[k as int] == child);
                    assert(in_suffix(ch, k as int, child as int));
                    lemma_pending_bounds(ns, done, child as int, n);
                }
                let d = in_degrees[child];
                proof {
                    assert(!in_queue(queue@, child as int)) by {
                        if in_queue(queue@, child as int) {
                            let kk = choose|kk: int|
                                0 <= kk < queue@.len() && (#[trigger] queue@[kk]) as int == child
                                    as int;
                            assert(in_degrees@[child as int] == 0);
                        }
                    }
                }
                let nd = d - 1;
                in_degrees[child] = nd;
                proof {
                    assert forall|j: int|
                        0 <= j < n && j != child as int implies in_suffix(ch, k as int, j)
                            == in_suffix(ch, k + 1, j) by {
                        if in_suffix(ch, k as int, j) {
                            let kk = choose|kk: int|
                                k <= kk < ch.len() && (#[trigger] ch[kk]) as int == j;
                            assert(kk != k);
                            assert(k + 1 <= kk < ch.len() && ch[kk] as int == j);
                        }
                    }
                    assert(!in_suffix(ch, k + 1, child as int)) by {
                        if in_suffix(ch, k + 1, child as int) {
                            let kk = choose|kk: int|
                                k + 1 <= kk < ch.len() && (#[trigger] ch[kk]) as int == child
                                    as int;
                            assert(ns[cursor as int].childrens@[k as int] == ns[cursor
                                as int].childrens@[kk]);
                        }
                    }
                }
                if nd == 0 {
                    let ghost q0 = queue@;
                    proof {
                        lemma_queue_capacity(q0, n, child as int);
                    }
                    queue.push(child);
                    proof {
                        lemma_in_queue_push(q0, child);
                        lemma_pending_bounds(ns, done, child as int, n);
                        assert forall|kk: int, p: int|
                            0 <= kk < queue@.len() && #[trigger] is_edge(
                                ns,
                                p,
                                (#[trigger] queue@[kk]) as int,
                            ) implies prefix_set(queue@, kk).contains(p) by {
                            if kk < q0.len() {
                                assert(queue@[kk] == q0[kk]);
                                lemma_prefix_set_push(q0, child, kk);
                            } else {
                                assert(queue@[kk] as int == child as int);
                                assert(done.contains(p));
                                lemma_prefix_set_push(q0, child, queue_i as int);
                                lemma_prefix_set_monotone(queue@, queue_i as int, kk);
                            }
                        }
                        lemma_prefix_set_push(q0, child, queue_i as int);
                    }
                }
                k += 1;
            }
        }

        // every processed node is schedulable, every unprocessed one is not
        proof {
            assert(queue_i == queue@.len());
            lemma_topo_queue_resolvable(ns, queue@, queue@.len() as int);
            lemma_prefix_set_contains(queue@, queue@.len() as int);
            assert forall|j: int| 0 <= j < n && in_queue(queue@, j) implies resolvable(ns, j) by {
                let kk = choose|kk: int|
                    0 <= kk < queue@.len() && (#[trigger] queue@[kk]) as int == j;
                assert(ok_within(ns, queue@[kk] as int, (kk + 1) as nat));
            }
            let trapped = Set::new(|j: int| 0 <= j < n && !in_queue(queue@, j));
            assert forall|u: int| #[trigger] trapped.contains(u) implies exists|p: int|
                trapped.contains(p) && #[trigger] is_edge(ns, p, u) by {
                assert(in_degrees@[u] != 0);
                lemma_pending_bounds(ns, prefix_set(queue@, queue_i as int), u, n);
                assert(!(forall|p: int|
                    0 <= p < n && #[trigger] is_edge(ns, p, u) ==> prefix_set(
                        queue@,
                        queue_i as int,
                    ).contains(p)));
                let p = choose|p: int|
                    !(0 <= p < n && #[trigger] is_edge(ns, p, u) ==> prefix_set(
                        queue@,
                        queue_i as int,
                    ).contains(p));
                assert(is_edge(ns, p, u));
                assert(!in_queue(queue@, p));
                assert(trapped.contains(p));
            }
            assert forall|j: int| 0 <= j < n && !in_queue(queue@, j) implies !resolvable(
                ns,
                j,
            ) by {
                assert(trapped.contains(j));
                assert forall|k2: nat| !ok_within(ns, j, k2) by {
                    lemma_trapped(ns, trapped, j, k2);
                }
            }
            assert forall|j: int| 0 <= j < n implies (in_degrees@[j] == 0 <==> in_queue(
                queue@,
                j,
            )) by {}
        }

        if queue_i < n_node {
            // a cycle: list every node whose in-degree never reached zero
            proof {
                assert(exists|j: int| 0 <= j < n && !(#[trigger] in_queue(queue@, j))) by {
                    if !(exists|j: int| 0 <= j < n && !(#[trigger] in_queue(queue@, j))) {
                        assert forall|j: int|
                            0 <= j < n implies prefix_set(queue@, queue@.len() as int).contains(
                            j,
                        ) by {
                            assert(in_queue(queue@, j));
                        }
                        lemma_prefix_set_len(queue@, queue@.len() as int);
                        vstd::set_lib::lemma_int_range(0, n);
                        assert(vstd::set_lib::set_int_range(0, n).subset_of(
                            prefix_set(queue@, queue@.len() as int),
                        ));
                        vstd::set_lib::lemma_len_subset(
                            vstd::set_lib::set_int_range(0, n),
                            prefix_set(queue@, queue@.len() as int),
                        );
                        assert(false);
                    }
                }
                let bad = choose|j: int| 0 <= j < n && !(#[trigger] in_queue(queue@, j));
                assert(!resolvable(ns, bad));
                assert(!acyclic(ns));
            }
            let mut ring = String::from_str("[");
            let mut any = false;
            let mut i: usize = 0;
            while i < n_node
                invariant
                    i <= n_node,
                    ring@ == "["@ + ring_names(ns, i as int),
                    any == (ring_names(ns, i as int).len() > 0),
                decreases n_node - i,
            {
                let ghost rest = ring_names(ns, i as int);
                if in_degrees[i] > 0 {
                    proof {
                        assert(!in_queue(queue@, i as int));
                        assert(!resolvable(ns, i as int));
                    }
                    if any {
                        ring.append(", ");
                        proof {
                            assert(ring@ == ("["@ + rest) + ", "@);
                        }
                    }
                    ring.append(g.nodes[i].name.as_str());
                    proof {
                        if rest.len() == 0 {
                            assert(ring_names(ns, i + 1) == ns[i as int].name@);
                            assert(ring@ =~= "["@ + ring_names(ns, i + 1));
                        } else {
                            assert(ring_names(ns, i + 1) == rest + ", "@ + ns[i as int].name@);
                            assert(ring@ =~= "["@ + ring_names(ns, i + 1));
                        }
                        assert(ns[i as int].name@.len() > 0);
                    }
                    any = true;
                } else {
                    proof {
                        assert(in_queue(queue@, i as int));
                        assert(resolvable(ns, i as int));
                        assert(ring_names(ns, i + 1) == rest);
                    }
                }
                i += 1;
            }
            ring.append("]");
            proof {
                assert(ring@ =~= ring_of(ns));
            }
            return Err(Error::CyclicGraphFound { ring });
        }

        // no cycle: all nodes processed, the graph is acyclic
        proof {
            lemma_queue_full(queue@, n);
            assert forall|j: int| 0 <= j < n implies resolvable(ns, j) by {}
            assert(acyclic(ns));
        }

        // link every zero-dependency node under the synthetic root
        let mut root = Node::new(n_node, String::from_str("$ROOT"));
        let mut i: usize = 0;
        while i < n_node
            invariant
                i <= n_node,
                g.nodes@.len() == n,
                g.tasks@ == ts,
                forall|j: int| i <= j < n ==> #[trigger] g.nodes@[j] == ns[j],
                forall|j: int| 0 <= j < i ==> #[trigger] g.nodes@[j].index == ns[j].index,
                forall|j: int| 0 <= j < i ==> #[trigger] g.nodes@[j].name == ns[j].name,
                forall|j: int|
                    0 <= j < i ==> #[trigger] g.nodes@[j].childrens == ns[j].childrens,
                forall|j: int|
                    0 <= j < i ==> (#[trigger] g.nodes@[j].parent_count) as int
                        == ns[j].parent_count + if ns[j].parent_count == 0 {
                        1int
                    } else {
                        0int
                    },
                root.index == n_node,
                root.name@ == "$ROOT"@,
                root.parent_count == 0,
                root.childrens@ == roots_of(ns, i as int),
                forall|kk: int|
                    0 <= kk < root.childrens@.len() ==> ((#[trigger] root.childrens@[kk]) as int)
                        < i,
                forall|k1: int, k2: int|
                    0 <= k1 < k2 < root.childrens@.len() ==> root.childrens@[k1]
                        != root.childrens@[k2],
                forall|j: int|
                    0 <= j < i ==> #[trigger] in_queue(root.childrens@, j) == (ns[j].parent_count
                        == 0),
            decreases n_node - i,
        {
            let ghost rc0 = root.childrens@;
            if g.nodes[i].parent_count == 0 {
                root.childrens.push(i);
                g.nodes[i].parent_count = 1;
            }
            proof {
                assert forall|j: int|
                    0 <= j < i + 1 implies #[trigger] in_queue(root.childrens@, j) == (
                ns[j].parent_count == 0) by {
                    if ns[i as int].parent_count == 0 {
                        if j == i as int {
                            assert(root.childrens@[rc0.len() as int] as int == j);
                        } else {
                            if in_queue(rc0, j) {
                                let kk = choose|kk: int|
                                    0 <= kk < rc0.len() && (#[trigger] rc0[kk]) as int == j;
                                assert(root.childrens@[kk] as int == j);
                            }
                            if in_queue(root.childrens@, j) {
                                let kk = choose|kk: int|
                                    0 <= kk < root.childrens@.len() && (
                                    #[trigger] root.childrens@[kk]) as int == j;
                                assert(kk < rc0.len());
                                assert(in_queue(rc0, j));
                            }
                        }
                    }
                }
            }
            i += 1;
        }

        // assemble the compiled graph and show it is well formed
        proof {
            let new_ns = g.nodes@;
            let ext = new_ns.push(root);
            reveal_strlit("$ROOT");
            assert(root.name@.len() > 0);
            // the builder's structural conditions carry over field by field
            assert forall|i2: int, k2: int|
                0 <= i2 < new_ns.len() && 0 <= k2 < new_ns[i2].childrens@.len() implies ((
            #[trigger] new_ns[i2].childrens@[k2]) as int) < new_ns.len() && (
            new_ns[i2].childrens@[k2] as int) != i2 by {
                assert(new_ns[i2].childrens == ns[i2].childrens);
                assert(((ns[i2].childrens@[k2]) as int) < n);
                assert((ns[i2].childrens@[k2] as int) != i2);
            }
            assert forall|i2: int, k1: int, k2: int|
                0 <= i2 < new_ns.len() && 0 <= k1 < k2 < new_ns[i2].childrens@.len() implies (
            #[trigger] new_ns[i2].childrens@[k1]) != (#[trigger] new_ns[i2].childrens@[k2]) by {
                assert(new_ns[i2].childrens == ns[i2].childrens);
                assert(ns[i2].childrens@[k1] != ns[i2].childrens@[k2]);
            }
            assert forall|i2: int, j2: int|
                0 <= i2 < j2 < new_ns.len() implies (#[trigger] new_ns[i2].name)@ != (
            #[trigger] new_ns[j2].name)@ by {
                assert(new_ns[i2].name == ns[i2].name);
                assert(new_ns[j2].name == ns[j2].name);
                assert(ns[i2].name@ != ns[j2].name@);
            }
            assert(nodes_wf(new_ns));
            // every child of every extended node stays below `n`
            assert forall|p: int, kk: int|
                0 <= p < ext.len() && 0 <= kk < ext[p].childrens@.len() implies ((
            #[trigger] ext[p].childrens@[kk]) as int) < new_ns.len() by {
                if p < n {
                    assert(ext[p] == new_ns[p]);
                    assert(new_ns[p].childrens == ns[p].childrens);
                    assert(((ns[p].childrens@[kk]) as int) < n);
                } else {
                    assert(ext[p] == root);
                }
            }
            // nothing points at the root
            assert forall|pp: int| !(#[trigger] is_edge(ext, pp, n)) by {
                if is_edge(ext, pp, n) {
                    let kk = choose|kk: int|
                        0 <= kk < ext[pp].childrens@.len() && #[trigger] ext[pp].childrens@[kk]
                            as int == n;
                }
            }
            // the root's edges are exactly the formerly parentless nodes
            assert forall|i2: int|
                0 <= i2 < n implies is_edge(ext, n, i2) == (ns[i2].parent_count == 0) by {
                assert(ext[n] == root);
                if in_queue(root.childrens@, i2) {
                    let kk = choose|kk: int|
                        0 <= kk < root.childrens@.len() && (#[trigger] root.childrens@[kk]) as int
                            == i2;
                    assert(ext[n].childrens@[kk] as int == i2);
                }
                if is_edge(ext, n, i2) {
                    let kk = choose|kk: int|
                        0 <= kk < ext[n].childrens@.len() && #[trigger] ext[n].childrens@[kk]
                            as int == i2;
                    assert(root.childrens@[kk] as int == i2);
                    assert(in_queue(root.childrens@, i2));
                }
            }
            // parent counts match in-degrees over the extended node list
            assert forall|i2: int|
                0 <= i2 < n implies (#[trigger] ext[i2].parent_count) as int == pending_count(
                ext,
                Set::empty(),
                i2,
                n + 1,
            ) by {
                lemma_pending_congruent(ns, ext, Set::empty(), i2, n);
                assert(pending_count(ext, Set::empty(), i2, n + 1) == pending_count(
                    ext,
                    Set::empty(),
                    i2,
                    n,
                ) + if is_edge(ext, n, i2) {
                    1int
                } else {
                    0int
                });
                assert(ext[i2] == new_ns[i2]);
            }
            // acyclicity carries over to the extended node list
            assert forall|i2: int| 0 <= i2 < ext.len() implies resolvable(ext, i2) by {
                if i2 < n {
                    assert(resolvable(ns, i2));
                    let k2 = choose|k2: nat| ok_within(ns, i2, k2);
                    lemma_ok_congruent(ns, new_ns, i2, k2);
                    lemma_ok_extend(new_ns, ext, i2, k2);
                    assert(ok_within(ext, i2, (k2 + 1) as nat));
                } else {
                    assert(ok_within(ext, n, 1nat));
                }
            }
            assert(acyclic(ext));
        }
        let frozen = FrozenGraph::new(g, root);
        Ok(frozen)
    }
}

/// An immutable, execution-ready graph: the validated nodes and tasks plus
/// one synthetic root node whose children are exactly the nodes that had no
/// dependencies. The root's index is the node count; it carries no task and
/// is never run.
pub struct FrozenGraph<T> {
    pub(crate) graph: Graph<T>,
    pub(crate) root: Node,
}

impl<T> FrozenGraph<T> {
    /// The real nodes with the synthetic root appended: indices `0..n` are
    /// the tasks' nodes, index `n` is the root.
    pub open(crate) spec fn ext_nodes(&self) -> Seq<Node> {
        self.graph.nodes@.push(self.root)
    }

    /// The number of real (task-carrying) nodes.
    pub open(crate) spec fn n_nodes(&self) -> int {
        self.graph.nodes@.len() as int
    }

    pub open(crate) spec fn spec_tasks(&self) -> Seq<T> {
        self.graph.tasks@
    }

    /// The compiled graph's invariants: the builder's structural
    /// well-formedness, a root at index `n` with no parents, every
    /// `parent_count` equal to the in-degree over the root-extended edge set
    /// (so every real node has at least one parent: a real one or the root),
    /// and a confirmed absence of cycles.
    pub open(crate) spec fn wf(&self) -> bool {
        let n = self.n_nodes();
        let ext = self.ext_nodes();
        &&& nodes_wf(self.graph.nodes@)
        &&& self.graph.tasks@.len() == n
        &&& self.root.index as int == n
        &&& self.root.name@.len() > 0
        &&& self.root.parent_count == 0
        &&& forall|k: int|
            0 <= k < self.root.childrens@.len() ==> ((#[trigger] self.root.childrens@[k]) as int)
                < n
        &&& forall|k1: int, k2: int|
            0 <= k1 < k2 < self.root.childrens@.len() ==> self.root.childrens@[k1]
                != self.root.childrens@[k2]
        &&& forall|i: int|
            0 <= i < n ==> (#[trigger] ext[i].parent_count) as int == pending_count(
                ext,
                Set::empty(),
                i,
                n + 1,
            )
        &&& acyclic(ext)
    }

    pub(crate) fn new(graph: Graph<T>, root: Node) -> (frozen: FrozenGraph<T>)
        ensures
            frozen.graph == graph,
            frozen.root == root,
    {
        FrozenGraph { graph, root }
    }
}

/// `pending_count` stays within `[0, upto]`, and is zero exactly when every
/// parent of `c` below `upto` is already in `done`.
pub proof fn lemma_pending_bounds(nodes: Seq<Node>, done: Set<int>, c: int, upto: int)
    ensures
        0 <= pending_count(nodes, done, c, upto) <= if upto < 0 {
            0int
        } else {
            upto
        },
        pending_count(nodes, done, c, upto) == 0 <==> (forall|p: int|
            0 <= p < upto && #[trigger] is_edge(nodes, p, c) ==> done.contains(p)),
    decreases upto,
{
    if upto > 0 {
        lemma_pending_bounds(nodes, done, c, upto - 1);
    }
}

/// If some position below `upto` contributes nothing (it is done, or it has
/// no edge to `c`), the pending count stays below `upto`.
proof fn lemma_pending_missing(nodes: Seq<Node>, done: Set<int>, c: int, upto: int, j: int)
    requires
        0 <= j < upto,
        done.contains(j) || !is_edge(nodes, j, c),
    ensures
        pending_count(nodes, done, c, upto) <= upto - 1,
    decreases upto,
{
    if j == upto - 1 {
        lemma_pending_bounds(nodes, done, c, upto - 1);
    } else {
        lemma_pending_missing(nodes, done, c, upto - 1, j);
    }
}

/// `is_edge` looks only at child lists, so two sequences that agree on them
/// agree on the edge.
proof fn lemma_is_edge_congruent(nodes1: Seq<Node>, nodes2: Seq<Node>, p: int, c: int)
    requires
        0 <= p < nodes1.len(),
        0 <= p < nodes2.len(),
        nodes1[p].childrens@ == nodes2[p].childrens@,
    ensures
        is_edge(nodes1, p, c) == is_edge(nodes2, p, c),
{
    if is_edge(nodes1, p, c) {
        let k = choose|k: int|
            0 <= k < nodes1[p].childrens@.len() && #[trigger] nodes1[p].childrens@[k] as int == c;
        assert(nodes2[p].childrens@[k] as int == c);
    }
    if is_edge(nodes2, p, c) {
        let k = choose|k: int|
            0 <= k < nodes2[p].childrens@.len() && #[trigger] nodes2[p].childrens@[k] as int == c;
        assert(nodes1[p].childrens@[k] as int == c);
    }
}

/// `pending_count` looks only at child lists, so two sequences that agree on
/// them agree on the count.
proof fn lemma_pending_congruent(
    nodes1: Seq<Node>,
    nodes2: Seq<Node>,
    done: Set<int>,
    c: int,
    upto: int,
)
    requires
        upto <= nodes1.len(),
        upto <= nodes2.len(),
        forall|j: int|
            0 <= j < upto ==> (#[trigger] nodes1[j].childrens)@ == nodes2[j].childrens@,
    ensures
        pending_count(nodes1, done, c, upto) == pending_count(nodes2, done, c, upto),
    decreases upto,
{
    if upto > 0 {
        lemma_pending_congruent(nodes1, nodes2, done, c, upto - 1);
        lemma_is_edge_congruent(nodes1, nodes2, upto - 1, c);
    }
}

/// Pushing the fresh child `c` onto `p`'s child list raises `c`'s pending
/// count by one (when `p` is counted at all) and leaves every other node's
/// count unchanged.
proof fn lemma_pending_push_child(
    nodes1: Seq<Node>,
    nodes2: Seq<Node>,
    p: int,
    c: usize,
    done: Set<int>,
    i: int,
    upto: int,
)
    requires
        nodes1.len() == nodes2.len(),
        0 <= p < nodes1.len(),
        !is_edge(nodes1, p, c as int),
        nodes2[p].childrens@ == nodes1[p].childrens@.push(c),
        forall|j: int|
            0 <= j < nodes1.len() && j != p ==> (#[trigger] nodes1[j].childrens)@
                == nodes2[j].childrens@,
        upto <= nodes1.len(),
    ensures
        pending_count(nodes2, done, i, upto) == pending_count(nodes1, done, i, upto) + if 0 <= p
            < upto && !done.contains(p) && i == c as int {
            1int
        } else {
            0int
        },
    decreases upto,
{
    if upto > 0 {
        lemma_pending_push_child(nodes1, nodes2, p, c, done, i, upto - 1);
        let j = upto - 1;
        if j != p {
            lemma_is_edge_congruent(nodes1, nodes2, j, i);
        } else {
            let ch1 = nodes1[p].childrens@;
            let ch2 = nodes2[p].childrens@;
            if i == c as int {
                assert(ch2[ch1.len() as int] as int == i);
                assert(is_edge(nodes2, p, i));
            } else {
                if is_edge(nodes1, p, i) {
                    let k = choose|k: int|
                        0 <= k < ch1.len() && #[trigger] ch1[k] as int == i;
                    assert(ch2[k] as int == i);
                }
                if is_edge(nodes2, p, i) {
                    let k = choose|k: int|
                        0 <= k < ch2.len() && #[trigger] ch2[k] as int == i;
                    assert(k < ch1.len());
                    assert(ch1[k] as int == i);
                }
                assert(is_edge(nodes1, p, i) == is_edge(nodes2, p, i));
            }
        }
    }
}

/// Appending a node leaves `is_edge` and `pending_count` over the existing
/// prefix untouched, and the new node (with an empty child list for the
/// appended case handled here) contributes nothing.
proof fn lemma_pending_count_push(nodes: Seq<Node>, node: Node, done: Set<int>)
    requires
        node.childrens@.len() == 0,
    ensures
        forall|c: int, upto: int|
            0 <= upto <= nodes.len() + 1 ==> #[trigger] pending_count(
                nodes.push(node),
                done,
                c,
                upto,
            ) == pending_count(nodes, done, c, upto),
{
    assert forall|c: int, upto: int| 0 <= upto <= nodes.len() + 1 implies #[trigger] pending_count(
        nodes.push(node),
        done,
        c,
        upto,
    ) == pending_count(nodes, done, c, upto) by {
        lemma_pending_count_push_one(nodes, node, done, c, upto);
    }
}

proof fn lemma_pending_count_push_one(nodes: Seq<Node>, node: Node, done: Set<int>, c: int, upto: int)
    requires
        node.childrens@.len() == 0,
        0 <= upto <= nodes.len() + 1,
    ensures
        pending_count(nodes.push(node), done, c, upto) == pending_count(nodes, done, c, upto),
    decreases upto,
{
    if upto > 0 {
        lemma_pending_count_push_one(nodes, node, done, c, upto - 1);
        if upto - 1 < nodes.len() {
            assert(nodes.push(node)[upto - 1] == nodes[upto - 1]);
            assert(is_edge(nodes.push(node), upto - 1, c) == is_edge(nodes, upto - 1, c));
        } else {
            assert(!is_edge(nodes.push(node), upto - 1, c));
            assert(!is_edge(nodes, upto - 1, c));
        }
    }
}

/// `j` occurs somewhere in `q`.
pub open spec fn in_queue(q: Seq<usize>, j: int) -> bool {
    exists|kk: int| 0 <= kk < q.len() && (#[trigger] q[kk]) as int == j
}

/// `j` occurs in `ch` at position `k` or later.
pub(crate) open spec fn in_suffix(ch: Seq<usize>, k: int, j: int) -> bool {
    exists|kk: int| k <= kk < ch.len() && (#[trigger] ch[kk]) as int == j
}

/// The set of the first `m` entries of `q`.
pub open spec fn prefix_set(q: Seq<usize>, m: int) -> Set<int>
    decreases m,
{
    if m <= 0 {
        Set::empty()
    } else {
        prefix_set(q, m - 1).insert(q[m - 1] as int)
    }
}

/// The indices below `upto` whose nodes have no parents, in increasing order.
pub open spec fn roots_of(nodes: Seq<Node>, upto: int) -> Seq<usize>
    decreases upto,
{
    if upto <= 0 {
        Seq::empty()
    } else {
        let rest = roots_of(nodes, upto - 1);
        if nodes[upto - 1].parent_count == 0 {
            rest.push((upto - 1) as usize)
        } else {
            rest
        }
    }
}

/// The names of the unresolvable nodes below `upto`, comma-joined in
/// insertion order.
pub open spec fn ring_names(nodes: Seq<Node>, upto: int) -> Seq<char>
    decreases upto,
{
    if upto <= 0 {
        Seq::empty()
    } else {
        let rest = ring_names(nodes, upto - 1);
        if resolvable(nodes, upto - 1) {
            rest
        } else if rest.len() == 0 {
            nodes[upto - 1].name@
        } else {
            rest + ", "@ + nodes[upto - 1].name@
        }
    }
}

/// The bracketed list of the names of all unresolvable nodes, in insertion
/// order: the payload of `CyclicGraphFound`.
pub open spec fn ring_of(nodes: Seq<Node>) -> Seq<char> {
    "["@ + ring_names(nodes, nodes.len() as int) + "]"@
}

/// Pushing onto a queue keeps every present value present and adds the new
/// one.
pub(crate) proof fn lemma_in_queue_push(q: Seq<usize>, x: usize)
    ensures
        forall|j: int| #[trigger] in_queue(q, j) ==> in_queue(q.push(x), j),
        in_queue(q.push(x), x as int),
{
    assert(q.push(x)[q.len() as int] == x);
    assert forall|j: int| #[trigger] in_queue(q, j) implies in_queue(q.push(x), j) by {
        let kk = choose|kk: int| 0 <= kk < q.len() && (#[trigger] q[kk]) as int == j;
        assert(q.push(x)[kk] as int == j);
    }
}

/// Marking `x` done removes exactly `x`'s own contribution from the count.
pub(crate) proof fn lemma_pending_insert(nodes: Seq<Node>, done: Set<int>, x: int, c: int, upto: int)
    requires
        !done.contains(x),
    ensures
        pending_count(nodes, done.insert(x), c, upto) == pending_count(nodes, done, c, upto)
            - if 0 <= x < upto && is_edge(nodes, x, c) {
            1int
        } else {
            0int
        },
    decreases upto,
{
    if upto > 0 {
        lemma_pending_insert(nodes, done, x, c, upto - 1);
    }
}

/// Enlarging `done` can only lower the count.
pub proof fn lemma_pending_subset(
    nodes: Seq<Node>,
    done1: Set<int>,
    done2: Set<int>,
    c: int,
    upto: int,
)
    requires
        done1.subset_of(done2),
    ensures
        pending_count(nodes, done2, c, upto) <= pending_count(nodes, done1, c, upto),
    decreases upto,
{
    if upto > 0 {
        lemma_pending_subset(nodes, done1, done2, c, upto - 1);
    }
}

/// What `prefix_set` holds: exactly the values of the first `m` entries.
proof fn lemma_prefix_set_contains(q: Seq<usize>, m: int)
    requires
        m <= q.len(),
    ensures
        forall|x: int| #[trigger]
            prefix_set(q, m).contains(x) <==> (exists|j: int|
                0 <= j < m && (#[trigger] q[j]) as int == x),
    decreases m,
{
    if m > 0 {
        lemma_prefix_set_contains(q, m - 1);
        assert forall|x: int| #[trigger] prefix_set(q, m).contains(x) implies (exists|j: int|
            0 <= j < m && (#[trigger] q[j]) as int == x) by {
            if x == q[m - 1] as int {
                assert(q[m - 1] as int == x);
            } else {
                assert(prefix_set(q, m - 1).contains(x));
            }
        }
        assert forall|x: int|
            (exists|j: int| 0 <= j < m && (#[trigger] q[j]) as int == x) implies #[trigger]
        prefix_set(q, m).contains(x) by {
            let j = choose|j: int| 0 <= j < m && (#[trigger] q[j]) as int == x;
            if j < m - 1 {
                assert(prefix_set(q, m - 1).contains(x));
            }
        }
    }
}

/// A prefix set is finite, and when the entries are distinct its size is the
/// prefix length.
proof fn lemma_prefix_set_len(q: Seq<usize>, m: int)
    requires
        0 <= m <= q.len(),
        forall|k1: int, k2: int| 0 <= k1 < k2 < q.len() ==> q[k1] != q[k2],
    ensures
        prefix_set(q, m).finite(),
        prefix_set(q, m).len() == m,
    decreases m,
{
    if m > 0 {
        lemma_prefix_set_len(q, m - 1);
        lemma_prefix_set_contains(q, m - 1);
        assert(!prefix_set(q, m - 1).contains(q[m - 1] as int));
    }
}

/// Pushing onto `q` leaves the set of any existing prefix unchanged.
proof fn lemma_prefix_set_push(q: Seq<usize>, x: usize, m: int)
    requires
        0 <= m <= q.len(),
    ensures
        prefix_set(q.push(x), m) == prefix_set(q, m),
    decreases m,
{
    if m > 0 {
        lemma_prefix_set_push(q, x, m - 1);
        assert(q.push(x)[m - 1] == q[m - 1]);
    }
}

/// A longer prefix holds every value of a shorter one.
proof fn lemma_prefix_set_monotone(q: Seq<usize>, m1: int, m2: int)
    requires
        0 <= m1 <= m2 <= q.len(),
    ensures
        prefix_set(q, m1).subset_of(prefix_set(q, m2)),
{
    lemma_prefix_set_contains(q, m1);
    lemma_prefix_set_contains(q, m2);
    assert forall|x: int| prefix_set(q, m1).contains(x) implies prefix_set(q, m2).contains(x) by {
        let j = choose|j: int| 0 <= j < m1 && (#[trigger] q[j]) as int == x;
        assert(0 <= j < m2 && q[j] as int == x);
    }
}

/// A queue of distinct values below `n` that misses some value below `n`
/// cannot be full.
proof fn lemma_queue_capacity(q: Seq<usize>, n: int, x: int)
    requires
        forall|kk: int| 0 <= kk < q.len() ==> ((#[trigger] q[kk]) as int) < n,
        forall|k1: int, k2: int| 0 <= k1 < k2 < q.len() ==> q[k1] != q[k2],
        !in_queue(q, x),
        0 <= x < n,
    ensures
        q.len() < n,
{
    let m = q.len() as int;
    lemma_prefix_set_len(q, m);
    lemma_prefix_set_contains(q, m);
    let range = vstd::set_lib::set_int_range(0, n).remove(x);
    vstd::set_lib::lemma_int_range(0, n);
    assert forall|y: int| prefix_set(q, m).contains(y) implies range.contains(y) by {
        let j = choose|j: int| 0 <= j < m && (#[trigger] q[j]) as int == y;
        assert(0 <= y < n && y != x);
    }
    vstd::set_lib::lemma_len_subset(prefix_set(q, m), range);
}

/// A queue of `n` distinct values below `n` holds every value below `n`.
proof fn lemma_queue_full(q: Seq<usize>, n: int)
    requires
        forall|kk: int| 0 <= kk < q.len() ==> ((#[trigger] q[kk]) as int) < n,
        forall|k1: int, k2: int| 0 <= k1 < k2 < q.len() ==> q[k1] != q[k2],
        q.len() == n,
    ensures
        forall|j: int| 0 <= j < n ==> in_queue(q, j),
{
    assert forall|j: int| 0 <= j < n implies in_queue(q, j) by {
        if !in_queue(q, j) {
            lemma_queue_capacity(q, n, j);
        }
    }
}

/// Schedulability within `k` rounds extends to any larger bound.
proof fn lemma_ok_monotone(nodes: Seq<Node>, i: int, k1: nat, k2: nat)
    requires
        ok_within(nodes, i, k1),
        k1 <= k2,
    ensures
        ok_within(nodes, i, k2),
    decreases k1,
{
    assert forall|p: int| #[trigger] is_edge(nodes, p, i) implies ok_within(
        nodes,
        p,
        (k2 - 1) as nat,
    ) by {
        lemma_ok_monotone(nodes, p, (k1 - 1) as nat, (k2 - 1) as nat);
    }
}

/// `ok_within` looks only at child lists, so two sequences of equal length
/// that agree on them agree on it.
proof fn lemma_ok_congruent(nodes1: Seq<Node>, nodes2: Seq<Node>, i: int, k: nat)
    requires
        nodes1.len() == nodes2.len(),
        forall|j: int|
            0 <= j < nodes1.len() ==> (#[trigger] nodes1[j].childrens)@ == nodes2[j].childrens@,
    ensures
        ok_within(nodes1, i, k) == ok_within(nodes2, i, k),
    decreases k,
{
    if k > 0 {
        if ok_within(nodes1, i, k) {
            assert forall|p: int| #[trigger] is_edge(nodes2, p, i) implies ok_within(
                nodes2,
                p,
                (k - 1) as nat,
            ) by {
                lemma_is_edge_congruent(nodes1, nodes2, p, i);
                assert(ok_within(nodes1, p, (k - 1) as nat));
                lemma_ok_congruent(nodes1, nodes2, p, (k - 1) as nat);
            }
            assert(ok_within(nodes2, i, k));
        }
        if ok_within(nodes2, i, k) {
            assert forall|p: int| #[trigger] is_edge(nodes1, p, i) implies ok_within(
                nodes1,
                p,
                (k - 1) as nat,
            ) by {
                lemma_is_edge_congruent(nodes1, nodes2, p, i);
                assert(ok_within(nodes2, p, (k - 1) as nat));
                lemma_ok_congruent(nodes1, nodes2, p, (k - 1) as nat);
            }
            assert(ok_within(nodes1, i, k));
        }
    }
}

/// Members of a set in which every member has a parent that is also a member
/// can never be scheduled: they sit on or downstream of a cycle.
pub proof fn lemma_trapped(nodes: Seq<Node>, trapped: Set<int>, i: int, k: nat)
    requires
        trapped.contains(i),
        forall|u: int| #[trigger]
            trapped.contains(u) ==> exists|p: int|
                trapped.contains(p) && #[trigger] is_edge(nodes, p, u),
    ensures
        !ok_within(nodes, i, k),
    decreases k,
{
    if k > 0 {
        let p = choose|p: int| trapped.contains(p) && #[trigger] is_edge(nodes, p, i);
        lemma_trapped(nodes, trapped, p, (k - 1) as nat);
        if ok_within(nodes, i, k) {
            assert(ok_within(nodes, p, (k - 1) as nat));
        }
    }
}

/// Entries of a queue in which every entry's parents all appear earlier in
/// the queue are schedulable, each within one round more than its position.
proof fn lemma_topo_queue_resolvable(nodes: Seq<Node>, q: Seq<usize>, m: int)
    requires
        0 <= m <= q.len(),
        forall|kk: int, p: int|
            0 <= kk < q.len() && #[trigger] is_edge(nodes, p, (#[trigger] q[kk]) as int)
                ==> prefix_set(q, kk).contains(p),
    ensures
        forall|kk: int| 0 <= kk < m ==> ok_within(nodes, (#[trigger] q[kk]) as int, (kk + 1) as nat),
    decreases m,
{
    if m > 0 {
        lemma_topo_queue_resolvable(nodes, q, m - 1);
        let i = q[m - 1] as int;
        lemma_prefix_set_contains(q, m - 1);
        assert forall|p: int| #[trigger] is_edge(nodes, p, i) implies ok_within(
            nodes,
            p,
            (m - 1) as nat,
        ) by {
            assert(prefix_set(q, m - 1).contains(p));
            let j = choose|j: int| 0 <= j < m - 1 && (#[trigger] q[j]) as int == p;
            assert(ok_within(nodes, q[j] as int, (j + 1) as nat));
            lemma_ok_monotone(nodes, p, (j + 1) as nat, (m - 1) as nat);
        }
        assert(ok_within(nodes, i, m as nat));
    }
}

/// Appending one node whose own children stay in the old range (and into
/// which no edge leads) preserves schedulability, at one extra round.
proof fn lemma_ok_extend(base: Seq<Node>, ext: Seq<Node>, i: int, k: nat)
    requires
        ext.len() == base.len() + 1,
        forall|j: int| 0 <= j < base.len() ==> #[trigger] ext[j] == base[j],
        forall|p: int, kk: int|
            0 <= p < ext.len() && 0 <= kk < ext[p].childrens@.len() ==> ((
            #[trigger] ext[p].childrens@[kk]) as int) < base.len(),
        ok_within(base, i, k),
    ensures
        ok_within(ext, i, (k + 1) as nat),
    decreases k,
{
    let n = base.len() as int;
    assert forall|p: int| #[trigger] is_edge(ext, p, i) implies ok_within(ext, p, k) by {
        if p < n {
            lemma_is_edge_congruent(base, ext, p, i);
            assert(is_edge(base, p, i));
            assert(ok_within(base, p, (k - 1) as nat));
            lemma_ok_extend(base, ext, p, (k - 1) as nat);
        } else {
            assert(p == n);
            assert forall|pp: int| !(#[trigger] is_edge(ext, pp, n)) by {
                if is_edge(ext, pp, n) {
                    let kk = choose|kk: int|
                        0 <= kk < ext[pp].childrens@.len() && #[trigger] ext[pp].childrens@[kk]
                            as int == n;
                }
            }
            assert(ok_within(ext, n, k)) by {
                assert(k > 0);
            }
        }
    }
}

} // verus!
