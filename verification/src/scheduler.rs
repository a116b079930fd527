use vstd::prelude::*;

use crate::error::Error;
use crate::graph::{
    acyclic, in_queue, in_suffix, is_edge, lemma_in_queue_push, lemma_pending_bounds,
    lemma_pending_insert, lemma_pending_subset, ok_within, pending_count, resolvable, FrozenGraph,
    Node,
};

verus! {

/// Drives the execution of a frozen graph. The scheduler itself only keeps
/// the immutable compiled graph; each run owns a fresh [`RunState`] of
/// remaining-dependency counters, advanced through [`Scheduler::on_event`].
///
/// The embedding program performs the actual dispatching: it starts a run by
/// recording the synthetic root's completion (which yields the
/// zero-dependency nodes), launches each ready node's task, and feeds every
/// completion event back through [`Scheduler::on_event`] until all `n`
/// events have been consumed or an [`Step::Abort`] tells it to stop
/// dispatching.
pub struct Scheduler<T> {
    pub(crate) frozen: FrozenGraph<T>,
}

/// The per-run counter of one node: how many of its parents (the synthetic
/// root included) have not completed yet. A node is dispatched exactly when
/// this count reaches zero.
pub struct RunningNode {
    pub(crate) index: usize,
    pub(crate) n_unfinished: usize,
}

impl RunningNode {
    pub(crate) fn new(node: &Node) -> (running: RunningNode)
        ensures
            running.index == node.index,
            running.n_unfinished == node.parent_count,
    {
        RunningNode { index: node.index, n_unfinished: node.parent_count }
    }
}

/// The single message a dispatched task's wrapper emits when it finishes:
/// the node's index and its outcome. `E` is the payload of a reported
/// failure, `P` the payload of an abnormal termination.
pub enum CompletionEvent<E, P> {
    Success { index: usize },
    Failure { index: usize, err: E },
    Panic { index: usize, err: P },
}

/// What the run loop must do after one completion event: dispatch the nodes
/// that just became ready, or stop dispatching and surface the error once the
/// already-dispatched tasks have drained.
pub enum Step<E, P> {
    Dispatch { ready: Vec<usize> },
    Abort { error: Error<E, P> },
}

/// The transient state of one run: for every real node, how many parents are
/// still unfinished. `completed` is the (ghost) set of node indices whose
/// success has been recorded, the synthetic root included once the run
/// starts.
pub struct RunState {
    pub(crate) running: Vec<RunningNode>,
    pub(crate) completed: Ghost<Set<int>>,
}

/// `ready` is a sound and complete dispatch list for the completion of
/// `index` against the completed set `done`: it holds exactly the children
/// of `index` whose pending-parent count reached zero, each exactly once.
pub open spec fn ready_list_ok(
    ext: Seq<Node>,
    n: int,
    index: int,
    done: Set<int>,
    ready: Seq<usize>,
) -> bool {
    &&& forall|kk: int|
        0 <= kk < ready.len() ==> is_edge(ext, index, (#[trigger] ready[kk]) as int)
            && pending_count(ext, done, ready[kk] as int, n + 1) == 0 && ((ready[kk]) as int) < n
    &&& forall|j: int|
        0 <= j < n && #[trigger] is_edge(ext, index, j) && pending_count(ext, done, j, n + 1) == 0
            ==> in_queue(ready, j)
    &&& forall|k1: int, k2: int| 0 <= k1 < k2 < ready.len() ==> ready[k1] != ready[k2]
}

impl RunState {
    /// The indices whose success has been recorded so far (the synthetic
    /// root included).
    pub open(crate) spec fn completed(&self) -> Set<int> {
        self.completed@
    }

    /// How many parents of node `i` are still unfinished.
    pub open(crate) spec fn counter(&self, i: int) -> int {
        self.running@[i].n_unfinished as int
    }

    /// The run-state invariant: one counter per real node, each equal to the
    /// number of the node's parents (root included) not yet completed.
    pub open(crate) spec fn inv<T>(&self, scheduler: &Scheduler<T>) -> bool {
        let n = scheduler.spec_n();
        let ext = scheduler.spec_frozen().ext_nodes();
        &&& scheduler.wf()
        &&& self.running@.len() == n
        &&& forall|i: int| 0 <= i < n ==> (#[trigger] self.running@[i].index) as int == i
        &&& forall|i: int|
            0 <= i < n ==> #[trigger] self.counter(i) == pending_count(
                ext,
                self.completed@,
                i,
                n + 1,
            )
        &&& forall|j: int| #[trigger] self.completed@.contains(j) ==> 0 <= j <= n
    }
}

impl<T> Scheduler<T> {
    pub open(crate) spec fn wf(&self) -> bool {
        self.frozen.wf()
    }

    /// The compiled graph this scheduler drives.
    pub open(crate) spec fn spec_frozen(&self) -> FrozenGraph<T> {
        self.frozen
    }

    /// The number of real (task-carrying) nodes.
    pub open(crate) spec fn spec_n(&self) -> int {
        self.frozen.n_nodes()
    }

    pub fn new(frozen: FrozenGraph<T>) -> (scheduler: Scheduler<T>)
        ensures
            scheduler.spec_frozen() == frozen,
            frozen.wf() ==> scheduler.wf(),
    {
        Scheduler { frozen }
    }

    /// The number of real nodes: how many completion events one run yields.
    pub fn n_nodes(&self) -> (n: usize)
        ensures
            n as int == self.spec_n(),
    {
        self.frozen.graph.nodes.len()
    }

    /// The synthetic root's index. Recording its completion starts a run.
    pub fn root_index(&self) -> (index: usize)
        requires
            self.wf(),
        ensures
            index as int == self.spec_n(),
    {
        self.frozen.root.index
    }

    /// The name of the real node at `index`.
    pub fn node_name(&self, index: usize) -> (name: String)
        requires
            self.wf(),
            (index as int) < self.spec_n(),
        ensures
            name@ == self.spec_frozen().ext_nodes()[index as int].name@,
    {
        proof {
            assert(self.frozen.ext_nodes()[index as int] == self.frozen.graph.nodes@[index as int]);
        }
        self.frozen.graph.nodes[index].name.clone()
    }

    /// The task of the real node at `index`.
    pub fn task(&self, index: usize) -> (task: &T)
        requires
            self.wf(),
            (index as int) < self.spec_n(),
        ensures
            *task == self.spec_frozen().spec_tasks()[index as int],
    {
        &self.frozen.graph.tasks[index]
    }

    /// A fresh run: every counter seeded from the node's static parent
    /// count, nothing completed yet.
    pub fn new_run(&self) -> (run: RunState)
        requires
            self.wf(),
        ensures
            run.inv(self),
            run.completed() == Set::<int>::empty(),
    {
        let n = self.frozen.graph.nodes.len();
        let mut running: Vec<RunningNode> = Vec::new();
        let mut i: usize = 0;
        while i < n
            invariant
                i <= n,
                running@.len() == i as int,
                forall|j: int|
                    0 <= j < i ==> (#[trigger] running@[j].index) == self.frozen.graph.nodes@[j].index,
                forall|j: int|
                    0 <= j < i ==> (#[trigger] running@[j].n_unfinished)
                        == self.frozen.graph.nodes@[j].parent_count,
            decreases n - i,
        {
            let running_node = RunningNode::new(&self.frozen.graph.nodes[i]);
            running.push(running_node);
            i += 1;
        }
        let run = RunState { running, completed: Ghost(Set::empty()) };
        proof {
            let ext = self.frozen.ext_nodes();
            assert forall|j: int| 0 <= j < n implies #[trigger] run.counter(j) == pending_count(
                ext,
                Set::empty(),
                j,
                n as int + 1,
            ) by {
                assert(ext[j] == self.frozen.graph.nodes@[j]);
            }
        }
        run
    }

    /// Records that the node at `index` (or the synthetic root) completed
    /// successfully: every child's counter drops by one, and the children
    /// whose counter just reached zero — whose last unfinished parent this
    /// was — come back as the list of nodes to dispatch now, each exactly
    /// once.
    pub fn record_success(&self, run: &mut RunState, index: usize) -> (ready: Vec<usize>)
        requires
            old(run).inv(self),
            index as int <= self.spec_n(),
            !old(run).completed().contains(index as int),
            (index as int) < self.spec_n() ==> old(run).counter(index as int) == 0,
        ensures
            final(run).inv(self),
            final(run).completed() == old(run).completed().insert(index as int),
            ready_list_ok(
                self.spec_frozen().ext_nodes(),
                self.spec_n(),
                index as int,
                final(run).completed(),
                ready@,
            ),
            forall|j: int|
                #[trigger] in_queue(ready@, j) ==> old(run).counter(j) == 1 && final(run).counter(
                    j,
                ) == 0,
    {
        let ghost ext = self.frozen.ext_nodes();
        let ghost n = self.spec_n();
        let ghost done0 = run.completed@;
        let n_node = self.frozen.graph.nodes.len();
        proof {
            run.completed = Ghost(done0.insert(index as int));
        }
        let ghost done = run.completed@;
        let childrens: &Vec<usize> = if index == self.frozen.root.index {
            &self.frozen.root.childrens
        } else {
            &self.frozen.graph.nodes[index].childrens
        };
        let ghost ch = ext[index as int].childrens@;
        proof {
            assert(ext[index as int] == if index as int == n {
                self.frozen.root
            } else {
                self.frozen.graph.nodes@[index as int]
            });
            assert(childrens@ == ch);
            assert forall|j: int|
                0 <= j < n implies ((#[trigger] run.running@[j]).n_unfinished) as int
                    == pending_count(ext, done, j, n + 1) + if in_suffix(ch, 0, j) {
                    1int
                } else {
                    0int
                } by {
                lemma_pending_insert(ext, done0, index as int, j, n + 1);
                if is_edge(ext, index as int, j) {
                    let kk = choose|kk: int|
                        0 <= kk < ext[index as int].childrens@.len() && #[trigger] ext[index
                            as int].childrens@[kk] as int == j;
                    assert(ch[kk] as int == j);
                    assert(in_suffix(ch, 0, j));
                }
                if in_suffix(ch, 0, j) {
                    let kk = choose|kk: int| 0 <= kk < ch.len() && (#[trigger] ch[kk]) as int == j;
                    assert(ext[index as int].childrens@[kk] as int == j);
                    assert(is_edge(ext, index as int, j));
                }
                assert(run.counter(j) == old(run).counter(j));
                assert(old(run).counter(j) == pending_count(ext, done0, j, n + 1));
            }
            assert forall|k1: int, k2: int| 0 <= k1 < k2 < ch.len() implies ch[k1] != ch[k2] by {
                if index as int == n {
                    assert(self.frozen.root.childrens@[k1] != self.frozen.root.childrens@[k2]);
                } else {
                    assert(self.frozen.graph.nodes@[index as int].childrens@[k1]
                        != self.frozen.graph.nodes@[index as int].childrens@[k2]);
                }
            }
        }
        let mut ready: Vec<usize> = Vec::new();
        let ch_len = childrens.len();
        let mut k: usize = 0;
        while k < ch_len
            invariant
                k <= ch_len,
                run.completed@ == done,
                run.running@.len() == n,
                forall|i: int|
                    0 <= i < n ==> (#[trigger] run.running@[i].index) as int == i,
                forall|j: int|
                    0 <= j < n ==> ((#[trigger] run.running@[j]).n_unfinished) as int
                        == pending_count(ext, done, j, n + 1) + if in_suffix(ch, k as int, j) {
                        1int
                    } else {
                        0int
                    },
                forall|kk: int|
                    0 <= kk < ready@.len() ==> is_edge(ext, index as int, (#[trigger] ready@[kk]) as int)
                        && pending_count(ext, done, ready@[kk] as int, n + 1) == 0 && ((
                    ready@[kk]) as int) < n && old(run).counter(ready@[kk] as int) == 1,
                forall|j: int|
                    (exists|kk: int| 0 <= kk < k && (#[trigger] ch[kk]) as int == j)
                        && pending_count(ext, done, j, n + 1) == 0 ==> in_queue(ready@, j),
                forall|kk2: int|
                    0 <= kk2 < ready@.len() ==> exists|kk: int|
                        0 <= kk < k && ch[kk] == (#[trigger] ready@[kk2]),
                forall|k1: int, k2: int|
                    0 <= k1 < k2 < ready@.len() ==> ready@[k1] != ready@[k2],
            decreases ch_len - k,
        {
            let child = childrens[k];
            proof {
                assert(ch[k as int] == child);
                assert(in_suffix(ch, k as int, child as int));
                lemma_pending_bounds(ext, done, child as int, n + 1);
                assert((child as int) < n) by {
                    if index as int == n {
                        assert(self.frozen.root.childrens@[k as int] == child);
                    } else {
                        assert(self.frozen.graph.nodes@[index as int].childrens@[k as int]
                            == child);
                    }
                }
                assert(run.counter(child as int) == pending_count(ext, done, child as int, n + 1)
                    + 1);
                assert(run.running@[child as int].n_unfinished as int >= 1);
            }
            let nu = run.running[child].n_unfinished;
            let nd = nu - 1;
            run.running[child].n_unfinished = nd;
            proof {
                assert(pending_count(ext, done, child as int, n + 1) == nd as int);
                assert forall|j: int|
                    0 <= j < n && j != child as int implies in_suffix(ch, k as int, j)
                        == in_suffix(ch, k + 1, j) by {
                    if in_suffix(ch, k as int, j) {
                        let kk = choose|kk: int|
                            k <= kk < ch.len() && (#[trigger] ch[kk]) as int == j;
                        assert(kk != k);
                        assert(k + 1 <= kk < ch.len() && ch[kk] as int == j);
                    }
                }
                assert(!in_suffix(ch, k + 1, child as int)) by {
                    if in_suffix(ch, k + 1, child as int) {
                        let kk = choose|kk: int|
                            k + 1 <= kk < ch.len() && (#[trigger] ch[kk]) as int == child as int;
                        assert(ext[index as int].childrens@[k as int] == ext[index
                            as int].childrens@[kk]);
                    }
                }
            }
            if nd == 0 {
                let ghost r0 = ready@;
                proof {
                    assert(!in_queue(r0, child as int)) by {
                        if in_queue(r0, child as int) {
                            let kk2 = choose|kk2: int|
                                0 <= kk2 < r0.len() && (#[trigger] r0[kk2]) as int == child as int;
                            let kk = choose|kk: int| 0 <= kk < k && (#[trigger] ch[kk]) == r0[kk2];
                            assert(ch[kk] == ch[k as int]);
                        }
                    }
                }
                ready.push(child);
                proof {
                    lemma_in_queue_push(r0, child);
                    assert(is_edge(ext, index as int, child as int)) by {
                        assert(ext[index as int].childrens@[k as int] as int == child as int);
                    }
                    assert(old(run).counter(child as int) == 1) by {
                        lemma_pending_insert(ext, done0, index as int, child as int, n + 1);
                        assert(pending_count(ext, done, child as int, n + 1) == nd as int);
                    }
                    assert forall|j: int|
                        (exists|kk: int| 0 <= kk < k + 1 && (#[trigger] ch[kk]) as int == j)
                            && pending_count(ext, done, j, n + 1) == 0 implies in_queue(
                        ready@,
                        j,
                    ) by {
                        let kk = choose|kk: int|
                            0 <= kk < k + 1 && (#[trigger] ch[kk]) as int == j;
                        if kk == k {
                            assert(j == child as int);
                        } else {
                            assert(in_queue(r0, j));
                        }
                    }
                    assert forall|kk2: int|
                        0 <= kk2 < ready@.len() implies exists|kk: int|
                            0 <= kk < k + 1 && ch[kk] == (#[trigger] ready@[kk2]) by {
                        if kk2 < r0.len() {
                            assert(ready@[kk2] == r0[kk2]);
                            let kk = choose|kk: int| 0 <= kk < k && (#[trigger] ch[kk]) == r0[kk2];
                            assert(0 <= kk < k + 1 && ch[kk] == ready@[kk2]);
                        } else {
                            assert(ready@[kk2] == child);
                            assert(0 <= k < k + 1 && ch[k as int] == ready@[kk2]);
                        }
                    }
                }
            } else {
                proof {
                    assert forall|j: int|
                        (exists|kk: int| 0 <= kk < k + 1 && (#[trigger] ch[kk]) as int == j)
                            && pending_count(ext, done, j, n + 1) == 0 implies in_queue(
                        ready@,
                        j,
                    ) by {
                        let kk = choose|kk: int|
                            0 <= kk < k + 1 && (#[trigger] ch[kk]) as int == j;
                        if kk == k {
                            assert(j == child as int);
                            assert(run.counter(child as int) == pending_count(
                                ext,
                                done,
                                child as int,
                                n + 1,
                            ));
                        }
                    }
                }
            }
            k += 1;
        }
        proof {
            assert forall|j: int|
                0 <= j < n && #[trigger] is_edge(ext, index as int, j) && pending_count(
                    ext,
                    done,
                    j,
                    n + 1,
                ) == 0 implies in_queue(ready@, j) by {
                assert(in_suffix(ch, 0, j));
                let kk = choose|kk: int| 0 <= kk < ch.len() && (#[trigger] ch[kk]) as int == j;
            }
        }
        ready
    }

    /// Consumes one completion event.
    ///
    /// A success is recorded (see [`Scheduler::record_success`]) and the
    /// newly ready nodes come back as [`Step::Dispatch`]. A reported failure
    /// or an abnormal termination leaves the run state untouched and comes
    /// back as [`Step::Abort`] carrying `RuntimeFailed` or `RuntimePanicked`
    /// naming exactly the event's node and carrying the event's payload
    /// unchanged: no further node is ever dispatched.
    pub fn on_event<E, P>(&self, run: &mut RunState, event: CompletionEvent<E, P>) -> (step: Step<
        E,
        P,
    >)
        requires
            old(run).inv(self),
            match event {
                CompletionEvent::Success { index } => (index as int) < self.spec_n() && !old(
                    run,
                ).completed().contains(index as int) && old(run).counter(index as int) == 0,
                CompletionEvent::Failure { index, .. } => (index as int) < self.spec_n(),
                CompletionEvent::Panic { index, .. } => (index as int) < self.spec_n(),
            },
        ensures
            final(run).inv(self),
            match event {
                CompletionEvent::Success { index } => {
                    &&& final(run).completed() == old(run).completed().insert(index as int)
                    &&& step matches Step::Dispatch { ready } && ready_list_ok(
                        self.spec_frozen().ext_nodes(),
                        self.spec_n(),
                        index as int,
                        final(run).completed(),
                        ready@,
                    )
                },
                CompletionEvent::Failure { index, err } => {
                    &&& *final(run) == *old(run)
                    &&& step matches Step::Abort { error } && (error matches Error::RuntimeFailed {
                        node,
                        err: payload,
                    } && node@ == self.spec_frozen().ext_nodes()[index as int].name@ && payload
                        == err)
                },
                CompletionEvent::Panic { index, err } => {
                    &&& *final(run) == *old(run)
                    &&& step matches Step::Abort { error } && (error
                        matches Error::RuntimePanicked {
                        node,
                        err: payload,
                    } && node@ == self.spec_frozen().ext_nodes()[index as int].name@ && payload
                        == err)
                },
            },
    {
        match event {
            CompletionEvent::Success { index } => {
                let ready = self.record_success(run, index);
                Step::Dispatch { ready }
            },
            CompletionEvent::Failure { index, err } => Step::Abort {
                error: Error::RuntimeFailed { node: self.node_name(index), err },
            },
            CompletionEvent::Panic { index, err } => Step::Abort {
                error: Error::RuntimePanicked { node: self.node_name(index), err },
            },
        }
    }
}

/// A node's counter reaches zero only once every one of its parents (the
/// synthetic root included) has recorded a successful completion. Since
/// [`ready_list_ok`] dispatches exactly the nodes whose counter reached
/// zero, a node is never dispatched before all of its parents completed:
/// execution respects the dependency order.
pub proof fn lemma_dispatch_after_parents<T>(scheduler: &Scheduler<T>, run: &RunState, i: int)
    requires
        run.inv(scheduler),
        0 <= i < scheduler.spec_n(),
        run.counter(i) == 0,
    ensures
        forall|p: int|
            #[trigger] is_edge(scheduler.spec_frozen().ext_nodes(), p, i) ==> run.completed(
            ).contains(p),
{
    let ext = scheduler.spec_frozen().ext_nodes();
    let n = scheduler.spec_n();
    lemma_pending_bounds(ext, run.completed(), i, n + 1);
}

/// Once a node's counter has reached zero — once it has been dispatched — it
/// stays zero in every later state of the same run. [`ready_list_ok`] only
/// admits a node whose counter was still one before the event, so a node is
/// dispatched at most once per run: together with
/// [`lemma_dispatch_after_parents`], exactly when its last parent completes.
pub proof fn lemma_dispatch_once<T>(
    scheduler: &Scheduler<T>,
    earlier: &RunState,
    later: &RunState,
    i: int,
)
    requires
        earlier.inv(scheduler),
        later.inv(scheduler),
        earlier.completed().subset_of(later.completed()),
        0 <= i < scheduler.spec_n(),
        earlier.counter(i) == 0,
    ensures
        later.counter(i) == 0,
{
    let ext = scheduler.spec_frozen().ext_nodes();
    let n = scheduler.spec_n();
    lemma_pending_subset(ext, earlier.completed(), later.completed(), i, n + 1);
    lemma_pending_bounds(ext, later.completed(), i, n + 1);
}

/// As long as some real node is incomplete, some node (possibly the
/// synthetic root) is already dispatchable — no parent pending — yet not
/// completed. A run of an acyclic graph therefore never deadlocks: whenever
/// the loop still waits for events, a completion is outstanding, and every
/// node is eventually dispatched and completed.
pub proof fn lemma_progress<T>(scheduler: &Scheduler<T>, run: &RunState)
    requires
        run.inv(scheduler),
        exists|i: int| 0 <= i < scheduler.spec_n() && !(#[trigger] run.completed().contains(i)),
    ensures
        exists|d: int|
            0 <= d <= scheduler.spec_n() && !(#[trigger] run.completed().contains(d))
                && pending_count(
                scheduler.spec_frozen().ext_nodes(),
                run.completed(),
                d,
                scheduler.spec_n() + 1,
            ) == 0,
{
    let ext = scheduler.spec_frozen().ext_nodes();
    let n = scheduler.spec_n();
    let i = choose|i: int| 0 <= i < n && !(#[trigger] run.completed().contains(i));
    assert(resolvable(ext, i));
    let k = choose|k: nat| ok_within(ext, i, k);
    lemma_progress_rec(ext, n, run.completed(), i, k);
}

proof fn lemma_progress_rec(ext: Seq<Node>, n: int, done: Set<int>, i: int, k: nat)
    requires
        ext.len() == n + 1,
        ok_within(ext, i, k),
        0 <= i <= n,
        !done.contains(i),
    ensures
        exists|d: int|
            0 <= d <= n && !(#[trigger] done.contains(d)) && pending_count(ext, done, d, n + 1)
                == 0,
    decreases k,
{
    lemma_pending_bounds(ext, done, i, n + 1);
    if pending_count(ext, done, i, n + 1) == 0 {
        assert(0 <= i <= n && !done.contains(i) && pending_count(ext, done, i, n + 1) == 0);
    } else {
        let p = choose|p: int|
            !(0 <= p < n + 1 && #[trigger] is_edge(ext, p, i) ==> done.contains(p));
        assert(is_edge(ext, p, i));
        assert(ok_within(ext, p, (k - 1) as nat));
        lemma_progress_rec(ext, n, done, p, (k - 1) as nat);
    }
}

} // verus!
