use rayon::iter::{IntoParallelIterator, ParallelIterator};
use vstd::prelude::*;
use vstd::set_lib::*;

use crate::error::TaskError;
use crate::store::Store;
use crate::target::{present, Target};
use crate::task::{available, keeps, lemma_keeps_trans, shrinks, Task, TaskProtocol};

verus! {

/// A graph node: a task with its identifier, its parent (absent for the
/// head), the identifiers of its children (the task's dependencies) and
/// whether it is done.
#[derive(Debug)]
pub struct Node<T> {
    pub id: u128,
    pub task: T,
    pub is_done: bool,
    pub parent: Option<u128>,
    pub children: Vec<u128>,
}

/// How a ready frontier is dispatched.
#[derive(Debug, Clone, Copy, PartialEq, Eq)]
pub enum RunStyle {
    /// One task after another, on the calling thread.
    LOCAL,
    /// All tasks of the frontier at once, on a pool of worker threads.
    PARALLEL,
}

/// The node with identifier `c` stands before position `i` in `ns`, names
/// the node at `i` as its parent and holds the `k`-th dependency of its task.
pub open spec fn child_placed<T: Task>(ns: Seq<Node<T>>, i: int, k: int) -> bool {
    exists|j: int|
        0 <= j < i && ns[j].id == ns[i].children@[k] && ns[j].parent == Some(ns[i].id) && ns[j].task
            == ns[i].task.deps()[k]
}

/// Node identifiers are distinct, and every node's children are the nodes of
/// its task's dependencies, placed before it.
pub open spec fn nodes_linked<T: Task>(ns: Seq<Node<T>>) -> bool {
    &&& forall|i: int, j: int| 0 <= i < j < ns.len() ==> ns[i].id != ns[j].id
    &&& forall|i: int| 0 <= i < ns.len() ==> (#[trigger] ns[i]).children@.len() == ns[i].task.deps().len()
    &&& forall|i: int, k: int|
        0 <= i < ns.len() && 0 <= k < ns[i].children@.len() ==> #[trigger] child_placed(ns, i, k)
    &&& forall|i: int, k1: int, k2: int|
        0 <= i < ns.len() && 0 <= k1 < k2 < ns[i].children@.len() ==> #[trigger] ns[i].children@[k1]
            != #[trigger] ns[i].children@[k2]
}

/// The node at `j` has its parent at a later position, and the parent
/// lists it among its children.
pub open spec fn parent_placed<T>(ns: Seq<Node<T>>, j: int) -> bool {
    exists|q: int|
        j < q < ns.len() && ns[j].parent == Some(ns[q].id) && ns[q].children@.contains(ns[j].id)
}

/// Whether the node with identifier `c` is done.
pub open spec fn done_id<T>(ns: Seq<Node<T>>, c: u128) -> bool {
    exists|j: int| 0 <= j < ns.len() && ns[j].id == c && ns[j].is_done
}

/// `ns` is `old` with only the done flags changed.
pub open spec fn same_graph<T>(old: Seq<Node<T>>, ns: Seq<Node<T>>) -> bool {
    &&& ns.len() == old.len()
    &&& forall|i: int|
        0 <= i < ns.len() ==> (#[trigger] ns[i]).id == old[i].id && ns[i].task == old[i].task
            && ns[i].parent == old[i].parent && ns[i].children@ == old[i].children@
}

/// The node at `i` is not done and all its children are.
pub open spec fn ready<T>(ns: Seq<Node<T>>, i: int) -> bool {
    &&& !ns[i].is_done
    &&& forall|k: int| 0 <= k < ns[i].children@.len() ==> done_id(ns, #[trigger] ns[i].children@[k])
}

/// The positions of the nodes that are not done.
pub open spec fn pending<T>(ns: Seq<Node<T>>) -> Set<int> {
    Set::new(|i: int| 0 <= i < ns.len() && !ns[i].is_done)
}

/// The frontiers in `rounds` dispatch, once each, exactly the nodes of `ns`
/// that are not done, and a node's children were done already or were
/// dispatched in an earlier frontier.
pub open spec fn dispatched_in_order<T>(ns: Seq<Node<T>>, rounds: Seq<Set<u128>>) -> bool {
    &&& forall|i: int|
        0 <= i < ns.len() ==> (!ns[i].is_done <==> exists|k: int|
            0 <= k < rounds.len() && #[trigger] rounds[k].contains(ns[i].id))
    &&& forall|k: int, x: u128|
        0 <= k < rounds.len() && #[trigger] rounds[k].contains(x) ==> exists|i: int|
            0 <= i < ns.len() && ns[i].id == x && !ns[i].is_done
    &&& forall|k1: int, k2: int, x: u128|
        0 <= k1 < k2 < rounds.len() && #[trigger] rounds[k1].contains(x) ==> !#[trigger] rounds[k2].contains(x)
    &&& forall|k: int, i: int, c: int|
        0 <= k < rounds.len() && 0 <= i < ns.len() && #[trigger] rounds[k].contains(ns[i].id) && 0 <= c
            < ns[i].children@.len() ==> done_id(ns, #[trigger] ns[i].children@[c]) || exists|k2: int|
            0 <= k2 < k && #[trigger] rounds[k2].contains(ns[i].children@[c])
}

/// Before frontier `k` of `rounds`, dispatched from the graph `ns`, the node
/// at `i` was ready: not done, not dispatched yet, and each child done
/// already or dispatched in an earlier frontier.
pub open spec fn ready_at<T>(ns: Seq<Node<T>>, rounds: Seq<Set<u128>>, k: int, i: int) -> bool {
    &&& !ns[i].is_done
    &&& forall|k2: int| 0 <= k2 < k ==> !#[trigger] rounds[k2].contains(ns[i].id)
    &&& forall|c: int|
        0 <= c < ns[i].children@.len() ==> done_id(ns, #[trigger] ns[i].children@[c]) || exists|k2: int|
            0 <= k2 < k && #[trigger] rounds[k2].contains(ns[i].children@[c])
}

/// Every frontier is non-empty and holds every node that was ready before
/// it.
pub open spec fn rounds_maximal<T>(ns: Seq<Node<T>>, rounds: Seq<Set<u128>>) -> bool {
    &&& forall|k: int| 0 <= k < rounds.len() ==> #[trigger] rounds[k] != Set::<u128>::empty()
    &&& forall|k: int, i: int|
        0 <= k < rounds.len() && 0 <= i < ns.len() && #[trigger] ready_at(ns, rounds, k, i) ==> rounds[k].contains(
            ns[i].id,
        )
}

/// Relies on rayon's parallel iterator over a vector: `map` applies the
/// closure to every item on a pool of worker threads, and `collect` keeps
/// the items' order.
#[verifier::external_body]
fn prepare_in_parallel<T: Task + Sync, S: Store + Sync>(tasks: Vec<&T>, store: &S) -> (r: Vec<
    Result<Option<Vec<u8>>, TaskError>,
>)
    ensures
        r@.len() == tasks@.len(),
        forall|i: int|
            0 <= i < r@.len() ==> (#[trigger] r@[i] matches Ok(None) ==> present(
                store.contents(),
                tasks@[i].target_loc(),
            )),
        forall|i: int|
            0 <= i < r@.len() ==> (#[trigger] r@[i] matches Ok(Some(_)) ==> !present(
                store.contents(),
                tasks@[i].target_loc(),
            )),
{
    tasks.into_par_iter().map(|t| t.prepare(store)).collect()
}

/// Relies on uuid::Uuid::new_v4, read as a 128-bit integer: a random value,
/// of which nothing is promised.
#[verifier::external_body]
fn random_id() -> (r: u128) {
    uuid::Uuid::new_v4().as_u128()
}

/// Whether `v` holds `x`.
fn holds(v: &Vec<u128>, x: u128) -> (r: bool)
    ensures
        r == v@.contains(x),
{
    let mut i: usize = 0;
    while i < v.len()
        invariant
            i <= v@.len(),
            forall|j: int| 0 <= j < i ==> v@[j] != x,
        decreases v@.len() - i,
    {
        if v[i] == x {
            return true;
        }
        i = i + 1;
    }
    false
}

/// How many random identifiers minting draws before it gives up.
const MINT_ATTEMPTS: usize = 3;

/// A random identifier that `used` does not hold yet, recorded in `used`.
fn mint(used: &mut Vec<u128>) -> (r: Result<u128, TaskError>)
    ensures
        r is Ok ==> !old(used)@.contains(r->Ok_0) && final(used)@ == old(used)@.push(r->Ok_0),
        r is Err ==> final(used)@ == old(used)@,
{
    let mut attempt: usize = 0;
    while attempt < MINT_ATTEMPTS
        invariant
            used@ == old(used)@,
        decreases MINT_ATTEMPTS - attempt,
    {
        let id = random_id();
        if !holds(used, id) {
            used.push(id);
            return Ok(id);
        }
        attempt = attempt + 1;
    }
    Err(TaskError::IdCollision)
}

/// A directed acyclic graph of the tasks below a head task, one node per
/// dependency, indexed by node identifier.
pub struct DAG<T> {
    nodes: Vec<Node<T>>,
    rounds: Ghost<Seq<Set<u128>>>,
    succeeded: Ghost<Set<u128>>,
}

impl<T: Task> DAG<T> {
    /// The nodes, children before their parents, the head last.
    pub closed spec fn spec_nodes(&self) -> Seq<Node<T>> {
        self.nodes@
    }

    /// The frontiers that the last run dispatched, in order.
    pub closed spec fn spec_rounds(&self) -> Seq<Set<u128>> {
        self.rounds@
    }

    /// The nodes whose task the last run dispatched with success.
    pub closed spec fn spec_succeeded(&self) -> Set<u128> {
        self.succeeded@
    }

    /// Exactly the last node, the head, has no parent, and the nodes are
    /// linked as their tasks' dependencies say.
    pub open spec fn wf(&self) -> bool {
        &&& self.spec_nodes().len() > 0
        &&& self.spec_nodes().last().parent is None
        &&& forall|i: int|
            0 <= i < self.spec_nodes().len() - 1 ==> (#[trigger] self.spec_nodes()[i]).parent is Some
        &&& nodes_linked(self.spec_nodes())
        &&& forall|j: int| 0 <= j < self.spec_nodes().len() - 1 ==> #[trigger] parent_placed(self.spec_nodes(), j)
    }

    /// The nodes of the graph.
    pub fn nodes(&self) -> (r: &Vec<Node<T>>)
        ensures
            r@ == self.spec_nodes(),
    {
        &self.nodes
    }

    /// The position of the node with identifier `id`.
    fn find(&self, id: u128) -> (r: Option<usize>)
        ensures
            match r {
                Some(j) => j < self.spec_nodes().len() && self.spec_nodes()[j as int].id == id,
                None => forall|j: int| 0 <= j < self.spec_nodes().len() ==> self.spec_nodes()[j].id != id,
            },
    {
        let mut j: usize = 0;
        while j < self.nodes.len()
            invariant
                j <= self.nodes@.len(),
                forall|l: int| 0 <= l < j ==> self.nodes@[l].id != id,
            decreases self.nodes@.len() - j,
        {
            if self.nodes[j].id == id {
                return Some(j);
            }
            j = j + 1;
        }
        None
    }

    /// Whether every child of the node at `i` is done.
    fn children_done(&self, i: usize) -> (r: bool)
        requires
            i < self.spec_nodes().len(),
            nodes_linked(self.spec_nodes()),
        ensures
            r == forall|k: int|
                0 <= k < self.spec_nodes()[i as int].children@.len() ==> done_id(
                    self.spec_nodes(),
                    #[trigger] self.spec_nodes()[i as int].children@[k],
                ),
    {
        let ghost ns = self.nodes@;
        let mut k: usize = 0;
        while k < self.nodes[i].children.len()
            invariant
                ns == self.nodes@,
                i < ns.len(),
                nodes_linked(ns),
                k <= ns[i as int].children@.len(),
                forall|l: int| 0 <= l < k ==> done_id(ns, #[trigger] ns[i as int].children@[l]),
            decreases ns[i as int].children@.len() - k,
        {
            let c = self.nodes[i].children[k];
            match self.find(c) {
                Some(j) => {
                    if !self.nodes[j].is_done {
                        assert(!done_id(ns, c));
                        return false;
                    }
                }
                None => {
                    return false;
                }
            }
            k = k + 1;
        }
        true
    }

    /// The ready frontier: the positions, in increasing order, of the nodes
    /// that are not done and whose children are all done.
    fn get_run_candidates(&self) -> (r: Vec<usize>)
        requires
            self.wf(),
        ensures
            forall|j: int| 0 <= j < r@.len() ==> (#[trigger] r@[j]) < self.spec_nodes().len(),
            forall|j: int, l: int| 0 <= j < l < r@.len() ==> r@[j] < r@[l],
            forall|i: int|
                0 <= i < self.spec_nodes().len() ==> (r@.contains(i as usize) <==> ready(self.spec_nodes(), i)),
            !pending(self.spec_nodes()).is_empty() ==> r@.len() > 0,
    {
        let ghost ns = self.nodes@;
        let mut candidates: Vec<usize> = Vec::new();
        let mut i: usize = 0;
        while i < self.nodes.len()
            invariant
                ns == self.nodes@,
                self.wf(),
                i <= ns.len(),
                forall|j: int| 0 <= j < candidates@.len() ==> (#[trigger] candidates@[j]) < i,
                forall|j: int, l: int| 0 <= j < l < candidates@.len() ==> candidates@[j] < candidates@[l],
                forall|x: int| 0 <= x < i ==> (candidates@.contains(x as usize) <==> ready(ns, x)),
                (exists|x: int| 0 <= x < i && !ns[x].is_done) ==> candidates@.len() > 0,
            decreases ns.len() - i,
        {
            let ghost first = forall|x: int| 0 <= x < i ==> ns[x].is_done;
            let done_children = self.children_done(i);
            proof {
                if first && !ns[i as int].is_done {
                    assert forall|k: int| 0 <= k < ns[i as int].children@.len() implies done_id(
                        ns,
                        #[trigger] ns[i as int].children@[k],
                    ) by {
                        assert(child_placed(ns, i as int, k));
                    }
                }
            }
            let ghost cands0 = candidates@;
            if !self.nodes[i].is_done && done_children {
                candidates.push(i);
            }
            proof {
                assert(ready(ns, i as int) == (!ns[i as int].is_done && done_children));
                assert(!cands0.contains(i));
                assert forall|x: int| 0 <= x < i + 1 implies (candidates@.contains(x as usize) <==> ready(ns, x)) by {
                    if x < i {
                        if candidates@.contains(x as usize) {
                            let j = choose|j: int| 0 <= j < candidates@.len() && candidates@[j] == x as usize;
                            if j < cands0.len() {
                                assert(cands0[j] == x as usize);
                            }
                        }
                        if cands0.contains(x as usize) {
                            let j = choose|j: int| 0 <= j < cands0.len() && cands0[j] == x as usize;
                            assert(candidates@[j] == x as usize);
                        }
                    } else {
                        if ready(ns, x) {
                            assert(candidates@[candidates@.len() - 1] == i);
                        }
                        if candidates@.contains(x as usize) {
                            let j = choose|j: int| 0 <= j < candidates@.len() && candidates@[j] == x as usize;
                            if j < cands0.len() {
                                assert(cands0[j] < i);
                            }
                        }
                    }
                }
            }
            i = i + 1;
        }
        proof {
            if !pending(ns).is_empty() {
                let x = pending(ns).choose();
                assert(pending(ns).contains(x));
            }
        }
        candidates
    }

    /// Sets the done flag of the node at `i`.
    fn set_done(&mut self, i: usize, done: bool)
        requires
            i < old(self).spec_nodes().len(),
        ensures
            final(self).spec_nodes().len() == old(self).spec_nodes().len(),
            final(self).spec_rounds() == old(self).spec_rounds(),
            final(self).spec_succeeded() == old(self).spec_succeeded(),
            final(self).spec_nodes()[i as int].is_done == done,
            forall|j: int|
                0 <= j < final(self).spec_nodes().len() && j != i ==> #[trigger] final(self).spec_nodes()[j]
                    == old(self).spec_nodes()[j],
            same_graph(old(self).spec_nodes(), final(self).spec_nodes()),
    {
        self.nodes[i].is_done = done;
    }

    /// Deletes the output of every node's task and marks every node not
    /// done, stopping at the first failure.
    pub fn delete_all<S: Store>(&mut self, store: &mut S) -> (r: Result<(), TaskError>)
        requires
            old(self).wf(),
        ensures
            final(self).wf(),
            same_graph(old(self).spec_nodes(), final(self).spec_nodes()),
            shrinks(old(store).contents(), final(store).contents()),
            forall|i: int|
                0 <= i < final(self).spec_nodes().len() && (#[trigger] final(self).spec_nodes()[i]).is_done
                    ==> old(self).spec_nodes()[i].is_done,
            r is Ok ==> forall|i: int|
                0 <= i < final(self).spec_nodes().len() ==> !(#[trigger] final(self).spec_nodes()[i]).is_done
                    && !present(final(store).contents(), final(self).spec_nodes()[i].task.target_loc()),
    {
        let ghost start = self.nodes@;
        let ghost store0 = store.contents();
        let mut i: usize = 0;
        while i < self.nodes.len()
            invariant
                i <= self.nodes@.len(),
                start.len() > 0,
                start == old(self).spec_nodes(),
                store0 == old(store).contents(),
                shrinks(store0, store.contents()),
                forall|j: int| i <= j < start.len() ==> (#[trigger] self.nodes@[j]).is_done == start[j].is_done,
                same_graph(start, self.nodes@),
                self.wf(),
                forall|j: int|
                    0 <= j < i ==> !(#[trigger] self.nodes@[j]).is_done && !present(
                        store.contents(),
                        self.nodes@[j].task.target_loc(),
                    ),
            decreases self.nodes@.len() - i,
        {
            let ghost m0 = store.contents();
            let res = self.nodes[i].task.delete_data(store);
            proof {
                lemma_keeps_trans(store.contents(), m0, store0);
            }
            if let Err(e) = res {
                return Err(e);
            }
            let ghost before = self.nodes@;
            self.set_done(i, false);
            proof {
                lemma_same_graph_linked(before, self.nodes@);
                assert forall|j: int| 0 <= j < i + 1 implies !(#[trigger] self.nodes@[j]).is_done && !present(
                    store.contents(),
                    self.nodes@[j].task.target_loc(),
                ) by {
                    if j < i {
                        assert(self.nodes@[j] == before[j]);
                        assert(!present(m0, before[j].task.target_loc()));
                    }
                }
                assert forall|j: int| i + 1 <= j < start.len() implies (#[trigger] self.nodes@[j]).is_done == start[j].is_done by {
                    assert(self.nodes@[j] == before[j]);
                }
            }
            i = i + 1;
        }
        Ok(())
    }

    /// Builds the graph of `head` and its transitive dependencies. A node
    /// starts done where its task's target exists in `store`.
    pub fn new<S: Store>(head_task: T, store: &S) -> (r: Result<DAG<T>, TaskError>)
        ensures
            r is Ok ==> r->Ok_0.wf(),
            r is Ok ==> r->Ok_0.spec_nodes().last().task == head_task,
            r is Ok ==> r->Ok_0.spec_rounds().len() == 0,
            r is Ok ==> forall|i: int|
                0 <= i < r->Ok_0.spec_nodes().len() ==> (#[trigger] r->Ok_0.spec_nodes()[i]).is_done
                    == present(store.contents(), r->Ok_0.spec_nodes()[i].task.target_loc()),
    {
        let mut nodes: Vec<Node<T>> = Vec::new();
        let mut used: Vec<u128> = Vec::new();
        let id = mint(&mut used)?;
        assert(used@[0] == id);
        Self::make_node(&mut nodes, &mut used, head_task, id, None, store)?;
        Ok(DAG { nodes, rounds: Ghost(Seq::empty()), succeeded: Ghost(Set::empty()) })
    }

    /// Appends the nodes of `task` and of its transitive dependencies to
    /// `nodes`, the node of `task` last, under identifier `id`.
    fn make_node<S: Store>(
        nodes: &mut Vec<Node<T>>,
        used: &mut Vec<u128>,
        task: T,
        id: u128,
        parent: Option<u128>,
        store: &S,
    ) -> (r: Result<(), TaskError>)
        requires
            nodes_linked(old(nodes)@),
            old(used)@.contains(id),
            forall|j: int| 0 <= j < old(nodes)@.len() ==> old(used)@.contains(#[trigger] old(nodes)@[j].id),
            forall|j: int| 0 <= j < old(nodes)@.len() ==> (#[trigger] old(nodes)@[j]).id != id,
            forall|j: int|
                0 <= j < old(nodes)@.len() ==> (#[trigger] old(nodes)@[j]).is_done == present(
                    store.contents(),
                    old(nodes)@[j].task.target_loc(),
                ),
        ensures
            r is Ok ==> {
                let ns = final(nodes)@;
                let n0 = old(nodes)@.len();
                &&& nodes_linked(ns)
                &&& ns.len() > n0
                &&& forall|j: int| 0 <= j < n0 ==> #[trigger] ns[j] == old(nodes)@[j]
                &&& ns.last().id == id && ns.last().task == task && ns.last().parent == parent
                &&& forall|j: int| n0 <= j < ns.len() - 1 ==> (#[trigger] ns[j]).parent is Some
                &&& forall|j: int| n0 <= j < ns.len() - 1 ==> #[trigger] parent_placed(ns, j)
                &&& forall|j: int|
                    n0 <= j < ns.len() - 1 ==> !old(used)@.contains(#[trigger] ns[j].id)
                        && final(used)@.contains(ns[j].id)
                &&& forall|x: u128| old(used)@.contains(x) ==> #[trigger] final(used)@.contains(x)
                &&& forall|j: int|
                    0 <= j < ns.len() ==> (#[trigger] ns[j]).is_done == present(
                        store.contents(),
                        ns[j].task.target_loc(),
                    )
            },
        decreases task.depth(),
    {
        let target = task.get_target()?;
        let is_done = target.is_present(store)?;
        let mut deps = task.get_dep_tasks()?;
        let ghost dep_tasks = task.deps();
        let ghost used0 = used@;
        let ghost n0 = nodes@.len();
        let ghost nodes0 = nodes@;
        assert(forall|j: int| 0 <= j < n0 ==> used0.contains(#[trigger] nodes0[j].id));
        let mut children: Vec<u128> = Vec::new();
        let mut k: usize = 0;
        while k < deps.len()
            invariant
                k <= deps@.len(),
                children@.len() == k,
                forall|x: u128| used0.contains(x) ==> #[trigger] used@.contains(x),
                forall|j: int| 0 <= j < k ==> !used0.contains(#[trigger] children@[j]),
                forall|j: int| 0 <= j < k ==> used@.contains(#[trigger] children@[j]),
                forall|j: int, l: int| 0 <= j < l < k ==> children@[j] != children@[l],
            decreases deps@.len() - k,
        {
            let ghost prior = used@;
            let child = mint(used)?;
            proof {
                assert forall|x: u128| prior.contains(x) implies #[trigger] used@.contains(x) by {
                    let i = choose|i: int| 0 <= i < prior.len() && prior[i] == x;
                    assert(used@[i] == x);
                }
                assert(used@[prior.len() as int] == child);
            }
            children.push(child);
            k = k + 1;
        }
        let ghost listed = deps@;
        let ghost minted = used@;
        let mut m: usize = deps.len();
        while m > 0
            invariant
                m <= listed.len(),
                deps@ == listed.subrange(0, m as int),
                listed.len() == dep_tasks.len(),
                children@.len() == listed.len(),
                forall|j: int| 0 <= j < listed.len() ==> #[trigger] listed[j].1 == dep_tasks[j],
                forall|j: int| 0 <= j < listed.len() ==> (#[trigger] dep_tasks[j]).depth() < task.depth(),
                forall|j: int| 0 <= j < children@.len() ==> !used0.contains(#[trigger] children@[j]),
                forall|j: int| 0 <= j < children@.len() ==> minted.contains(#[trigger] children@[j]),
                forall|j: int, l: int| 0 <= j < l < children@.len() ==> children@[j] != children@[l],
                forall|x: u128| used0.contains(x) ==> minted.contains(x),
                forall|x: u128| minted.contains(x) ==> #[trigger] used@.contains(x),
                nodes_linked(nodes@),
                nodes@.len() >= n0,
                forall|j: int| 0 <= j < n0 ==> #[trigger] nodes@[j] == nodes0[j],
                nodes0 == old(nodes)@,
                forall|j: int| 0 <= j < n0 ==> used0.contains(#[trigger] nodes0[j].id),
                forall|j: int| 0 <= j < n0 ==> (#[trigger] nodes0[j]).id != id,
                used0.contains(id),
                n0 == nodes0.len(),
                forall|j: int| n0 <= j < nodes@.len() ==> (#[trigger] nodes@[j]).parent is Some,
                forall|j: int|
                    n0 <= j < nodes@.len() ==> #[trigger] parent_placed(nodes@, j) || exists|l: int|
                        m <= l < listed.len() && nodes@[j].id == children@[l] && nodes@[j].parent == Some(id),
                forall|j: int|
                    n0 <= j < nodes@.len() ==> !used0.contains(#[trigger] nodes@[j].id) && used@.contains(
                        nodes@[j].id,
                    ),
                forall|j: int, l: int|
                    n0 <= j < nodes@.len() && 0 <= l < m ==> #[trigger] nodes@[j].id != #[trigger] children@[l],
                forall|l: int|
                    m <= l < listed.len() ==> exists|j: int|
                        n0 <= j < nodes@.len() && nodes@[j].id == #[trigger] children@[l]
                            && nodes@[j].parent == Some(id) && nodes@[j].task == dep_tasks[l],
                forall|j: int|
                    0 <= j < nodes@.len() ==> (#[trigger] nodes@[j]).is_done == present(
                        store.contents(),
                        nodes@[j].task.target_loc(),
                    ),
            decreases m,
        {
            let ghost before = nodes@;
            let ghost used_before = used@;
            let (_, dep) = deps.pop().unwrap();
            m = m - 1;
            let child = children[m];
            proof {
                assert(listed[m as int].1 == dep);
                assert(used_before.contains(child));
                assert forall|j: int| 0 <= j < before.len() implies used_before.contains(#[trigger] before[j].id) by {
                    if j < n0 {
                        assert(before[j] == nodes0[j]);
                        assert(used0.contains(nodes0[j].id));
                    }
                }
                assert forall|j: int| 0 <= j < before.len() implies (#[trigger] before[j]).id != child by {
                    if j < n0 {
                        assert(before[j] == nodes0[j]);
                        assert(used0.contains(nodes0[j].id));
                    }
                }
            }
            Self::make_node(nodes, used, dep, child, Some(id), store)?;
            proof {
                let ns = nodes@;
                assert forall|l: int|
                    m <= l < listed.len() implies exists|j: int|
                        n0 <= j < ns.len() && ns[j].id == #[trigger] children@[l] && ns[j].parent == Some(id)
                            && ns[j].task == dep_tasks[l] by {
                    if l == m {
                        assert(ns[ns.len() - 1].id == children@[l]);
                    } else {
                        let j = choose|j: int|
                            n0 <= j < before.len() && before[j].id == children@[l] && before[j].parent == Some(
                                id,
                            ) && before[j].task == dep_tasks[l];
                        assert(ns[j] == before[j]);
                    }
                }
                assert forall|j: int, l: int|
                    n0 <= j < ns.len() && 0 <= l < m implies #[trigger] ns[j].id != #[trigger] children@[l] by {
                    if j < before.len() {
                        assert(ns[j] == before[j]);
                    } else if j < ns.len() - 1 {
                        assert(!used_before.contains(ns[j].id));
                        assert(minted.contains(children@[l]));
                    } else {
                        assert(children@[l] != children@[m as int]);
                    }
                }
                assert forall|j: int|
                    n0 <= j < ns.len() implies !used0.contains(#[trigger] ns[j].id) && used@.contains(ns[j].id) by {
                    if j < before.len() {
                        assert(ns[j] == before[j]);
                    } else if j < ns.len() - 1 {
                        assert(!used_before.contains(ns[j].id));
                    }
                }
                assert forall|j: int| 0 <= j < n0 implies #[trigger] ns[j] == old(nodes)@[j] by {
                    assert(ns[j] == before[j]);
                }
                assert forall|j: int|
                    n0 <= j < ns.len() implies #[trigger] parent_placed(ns, j) || exists|l: int|
                        m <= l < listed.len() && ns[j].id == children@[l] && ns[j].parent == Some(id) by {
                    if j < before.len() {
                        assert(ns[j] == before[j]);
                        if parent_placed(before, j) {
                            let q = choose|q: int|
                                j < q < before.len() && before[j].parent == Some(before[q].id)
                                    && before[q].children@.contains(before[j].id);
                            assert(ns[q] == before[q]);
                            assert(parent_placed(ns, j));
                        }
                    } else if j == ns.len() - 1 {
                        assert(ns[j].id == children@[m as int]);
                    }
                }
            }
        }
        let ghost before = nodes@;
        nodes.push(Node { id, task, is_done, parent, children });
        proof {
            let ns = nodes@;
            let last = ns.len() - 1;
            assert(ns[last].task.deps() == dep_tasks);
            assert forall|i: int, j: int| 0 <= i < j < ns.len() implies ns[i].id != ns[j].id by {
                if j == last && i < n0 {
                    assert(ns[i] == nodes0[i]);
                    assert(used0.contains(nodes0[i].id));
                } else if j == last {
                    assert(!used0.contains(ns[i].id));
                } else {
                    assert(ns[i] == before[i] && ns[j] == before[j]);
                }
            }
            assert forall|i: int, k: int|
                0 <= i < ns.len() && 0 <= k < ns[i].children@.len() implies #[trigger] child_placed(ns, i, k) by {
                if i == last {
                    let j = choose|j: int|
                        n0 <= j < before.len() && before[j].id == children@[k] && before[j].parent == Some(id)
                            && before[j].task == dep_tasks[k];
                    assert(ns[j] == before[j]);
                } else {
                    assert(ns[i] == before[i]);
                    assert(child_placed(before, i, k));
                    let j = choose|j: int|
                        0 <= j < i && before[j].id == before[i].children@[k] && before[j].parent == Some(
                            before[i].id,
                        ) && before[j].task == before[i].task.deps()[k];
                    assert(ns[j] == before[j]);
                }
            }
            assert forall|i: int| 0 <= i < ns.len() implies (#[trigger] ns[i]).children@.len() == ns[i].task.deps().len() by {
                if i < last {
                    assert(ns[i] == before[i]);
                }
            }
            assert forall|j: int| 0 <= j < n0 implies #[trigger] ns[j] == old(nodes)@[j] by {
                assert(ns[j] == before[j]);
            }
            assert forall|j: int| n0 <= j < ns.len() - 1 implies #[trigger] parent_placed(ns, j) by {
                assert(ns[j] == before[j]);
                if parent_placed(before, j) {
                    let q = choose|q: int|
                        j < q < before.len() && before[j].parent == Some(before[q].id)
                            && before[q].children@.contains(before[j].id);
                    assert(ns[q] == before[q]);
                } else {
                    let l = choose|l: int|
                        0 <= l < listed.len() && before[j].id == children@[l] && before[j].parent == Some(id);
                    assert(ns[last].children@[l] == before[j].id);
                    assert(ns[last].children@.contains(before[j].id));
                }
            }
            assert forall|i: int, k1: int, k2: int|
                0 <= i < ns.len() && 0 <= k1 < k2 < ns[i].children@.len() implies #[trigger] ns[i].children@[k1]
                    != #[trigger] ns[i].children@[k2] by {
                if i < last {
                    assert(ns[i] == before[i]);
                }
            }
        }
        Ok(())
    }
}

/// Whether `rounds`, dispatched from the graph `start`, have reached the
/// graph `ns`: a node is done exactly where it was done already or was
/// dispatched, and the frontiers so far were dispatched in order.
pub open spec fn dispatch_reached<T>(start: Seq<Node<T>>, ns: Seq<Node<T>>, rounds: Seq<Set<u128>>) -> bool {
    &&& forall|i: int|
        0 <= i < ns.len() ==> (#[trigger] ns[i].is_done <==> (start[i].is_done || exists|k: int|
            0 <= k < rounds.len() && #[trigger] rounds[k].contains(start[i].id)))
    &&& forall|k: int, x: u128|
        0 <= k < rounds.len() && #[trigger] rounds[k].contains(x) ==> exists|i: int|
            0 <= i < start.len() && start[i].id == x && !start[i].is_done
    &&& forall|k1: int, k2: int, x: u128|
        0 <= k1 < k2 < rounds.len() && #[trigger] rounds[k1].contains(x) ==> !#[trigger] rounds[k2].contains(x)
    &&& forall|k: int, i: int, c: int|
        0 <= k < rounds.len() && 0 <= i < start.len() && #[trigger] rounds[k].contains(start[i].id) && 0 <= c
            < start[i].children@.len() ==> done_id(start, #[trigger] start[i].children@[c]) || exists|k2: int|
            0 <= k2 < k && #[trigger] rounds[k2].contains(start[i].children@[c])
}

/// Changing done flags keeps the links of a graph.
pub proof fn lemma_same_graph_linked<T: Task>(a: Seq<Node<T>>, b: Seq<Node<T>>)
    requires
        same_graph(a, b),
        nodes_linked(a),
    ensures
        nodes_linked(b),
        forall|j: int| 0 <= j < a.len() && parent_placed(a, j) ==> #[trigger] parent_placed(b, j),
{
    assert forall|j: int| 0 <= j < a.len() && parent_placed(a, j) implies #[trigger] parent_placed(b, j) by {
        let q = choose|q: int| j < q < a.len() && a[j].parent == Some(a[q].id) && a[q].children@.contains(a[j].id);
        assert(b[q].children@ == a[q].children@);
    }
    assert forall|i: int, k: int| 0 <= i < b.len() && 0 <= k < b[i].children@.len() implies #[trigger] child_placed(b, i, k) by {
        assert(child_placed(a, i, k));
        let j = choose|j: int|
            0 <= j < i && a[j].id == a[i].children@[k] && a[j].parent == Some(a[i].id) && a[j].task
                == a[i].task.deps()[k];
        assert(b[j].id == a[j].id);
    }
    assert forall|i: int| 0 <= i < b.len() implies (#[trigger] b[i]).children@.len() == b[i].task.deps().len() by {
        assert(a[i].children@.len() == a[i].task.deps().len());
    }
}

/// One frontier, dispatched and marked done, extends the record of
/// frontiers in order and keeps it maximal.
proof fn lemma_round_step<T: Task>(
    start: Seq<Node<T>>,
    cur: Seq<Node<T>>,
    ns: Seq<Node<T>>,
    rounds0: Seq<Set<u128>>,
    ids: Set<u128>,
    frontier: Seq<usize>,
)
    requires
        same_graph(start, cur),
        same_graph(cur, ns),
        nodes_linked(cur),
        cur.len() <= usize::MAX,
        dispatch_reached(start, cur, rounds0),
        rounds_maximal(start, rounds0),
        forall|i: int| 0 <= i < cur.len() ==> (frontier.contains(i as usize) <==> ready(cur, i)),
        forall|l: int| 0 <= l < frontier.len() ==> (#[trigger] frontier[l]) < cur.len(),
        frontier.len() > 0,
        ids == Set::new(|x: u128| exists|l: int| 0 <= l < frontier.len() && start[frontier[l] as int].id == x),
        forall|i: int|
            0 <= i < cur.len() ==> (#[trigger] ns[i].is_done <==> (cur[i].is_done || exists|l: int|
                0 <= l < frontier.len() && frontier[l] == i)),
    ensures
        nodes_linked(ns),
        dispatch_reached(start, ns, rounds0.push(ids)),
        rounds_maximal(start, rounds0.push(ids)),
{
    let rounds = rounds0.push(ids);
    let kk = rounds0.len() as int;
    lemma_same_graph_linked(cur, ns);
    assert(forall|i: int| 0 <= i < ns.len() ==> (#[trigger] ns[i]).parent == start[i].parent);
    assert(forall|k: int| 0 <= k < kk ==> rounds[k] == rounds0[k]);
    assert(rounds[kk] == ids);
    // a frontier position is exactly a node whose identifier is in `ids`
    assert forall|i: int| 0 <= i < ns.len() implies (ids.contains(start[i].id) <==> exists|l: int|
        0 <= l < frontier.len() && frontier[l] == i) by {
        if ids.contains(start[i].id) {
            let l = choose|l: int| 0 <= l < frontier.len() && start[frontier[l] as int].id == start[i].id;
            assert(cur[frontier[l] as int].id == cur[i].id);
        }
        if exists|l: int| 0 <= l < frontier.len() && frontier[l] == i {
            let l = choose|l: int| 0 <= l < frontier.len() && frontier[l] == i;
            assert(start[frontier[l] as int].id == start[i].id);
        }
    }
    assert forall|l: int| 0 <= l < frontier.len() implies ready(cur, #[trigger] frontier[l] as int) by {
        assert(frontier.contains(frontier[l]));
    }
    assert forall|i: int| 0 <= i < ns.len() implies (#[trigger] ns[i].is_done <==> (start[i].is_done
        || exists|k: int| 0 <= k < rounds.len() && #[trigger] rounds[k].contains(start[i].id))) by {
        if exists|k: int| 0 <= k < kk && #[trigger] rounds0[k].contains(start[i].id) {
            let k = choose|k: int| 0 <= k < kk && #[trigger] rounds0[k].contains(start[i].id);
            assert(rounds[k].contains(start[i].id));
        }
        if exists|k: int| 0 <= k < rounds.len() && #[trigger] rounds[k].contains(start[i].id) {
            let k = choose|k: int| 0 <= k < rounds.len() && #[trigger] rounds[k].contains(start[i].id);
            if k < kk {
                assert(rounds0[k].contains(start[i].id));
            }
        }
    }
    assert forall|k: int, x: u128| 0 <= k < rounds.len() && #[trigger] rounds[k].contains(x) implies exists|i: int|
        0 <= i < start.len() && start[i].id == x && !start[i].is_done by {
        if k == kk {
            let l = choose|l: int| 0 <= l < frontier.len() && start[frontier[l] as int].id == x;
            let f = frontier[l] as int;
            assert(ready(cur, f));
            assert(!cur[f].is_done);
        } else {
            assert(rounds0[k].contains(x));
        }
    }
    assert forall|k1: int, k2: int, x: u128|
        0 <= k1 < k2 < rounds.len() && #[trigger] rounds[k1].contains(x) implies !#[trigger] rounds[k2].contains(x) by {
        assert(rounds0[k1].contains(x));
        if k2 == kk && rounds[k2].contains(x) {
            let l = choose|l: int| 0 <= l < frontier.len() && start[frontier[l] as int].id == x;
            let f = frontier[l] as int;
            assert(ready(cur, f));
            assert(cur[f].is_done);
        } else if k2 < kk {
            assert(rounds[k2] == rounds0[k2]);
        }
    }
    assert forall|k: int, i: int, c: int|
        0 <= k < rounds.len() && 0 <= i < start.len() && #[trigger] rounds[k].contains(start[i].id) && 0
            <= c < start[i].children@.len() implies done_id(start, #[trigger] start[i].children@[c])
            || exists|k2: int| 0 <= k2 < k && #[trigger] rounds[k2].contains(start[i].children@[c]) by {
        let ch = start[i].children@[c];
        if k == kk {
            let l = choose|l: int| 0 <= l < frontier.len() && frontier[l] == i;
            assert(ready(cur, frontier[l] as int));
            assert(cur[i].children@[c] == ch);
            assert(done_id(cur, ch));
            let j = choose|j: int| 0 <= j < cur.len() && cur[j].id == ch && cur[j].is_done;
            assert(start[j].id == ch);
            if !start[j].is_done {
                let k2 = choose|k2: int| 0 <= k2 < kk && #[trigger] rounds0[k2].contains(start[j].id);
                assert(rounds[k2].contains(ch));
            }
        } else {
            assert(rounds0[k].contains(start[i].id));
            if !done_id(start, ch) {
                let k2 = choose|k2: int| 0 <= k2 < k && #[trigger] rounds0[k2].contains(ch);
                assert(rounds[k2].contains(ch));
            }
        }
    }
    // frontiers are non-empty and maximal
    assert(rounds[kk].contains(start[frontier[0] as int].id));
    assert forall|k: int| 0 <= k < rounds.len() implies #[trigger] rounds[k] != Set::<u128>::empty() by {
        if k < kk {
            assert(rounds[k] == rounds0[k]);
        } else {
            assert(rounds[k].contains(start[frontier[0] as int].id));
            assert(!Set::<u128>::empty().contains(start[frontier[0] as int].id));
        }
    }
    assert(cur.len() <= usize::MAX);
    lemma_maximal_step(start, cur, rounds0, ids, frontier);
}

/// A frontier that holds every ready node keeps the frontiers maximal.
proof fn lemma_maximal_step<T: Task>(
    start: Seq<Node<T>>,
    cur: Seq<Node<T>>,
    rounds0: Seq<Set<u128>>,
    ids: Set<u128>,
    frontier: Seq<usize>,
)
    requires
        same_graph(start, cur),
        nodes_linked(cur),
        cur.len() <= usize::MAX,
        dispatch_reached(start, cur, rounds0),
        rounds_maximal(start, rounds0),
        forall|i: int| 0 <= i < cur.len() ==> (frontier.contains(i as usize) <==> ready(cur, i)),
        forall|l: int| 0 <= l < frontier.len() ==> (#[trigger] frontier[l]) < cur.len(),
        ids == Set::new(|x: u128| exists|l: int| 0 <= l < frontier.len() && start[frontier[l] as int].id == x),
    ensures
        forall|k: int, i: int|
            0 <= k < rounds0.len() + 1 && 0 <= i < start.len() && #[trigger] ready_at(start, rounds0.push(ids), k, i)
                ==> rounds0.push(ids)[k].contains(start[i].id),
{
    let rounds = rounds0.push(ids);
    let kk = rounds0.len() as int;
    assert forall|k: int, i: int|
        0 <= k < kk + 1 && 0 <= i < start.len() && #[trigger] ready_at(start, rounds, k, i) implies rounds[k].contains(
        start[i].id,
    ) by {
        if k < kk {
            assert forall|k2: int| 0 <= k2 < k implies !#[trigger] rounds0[k2].contains(start[i].id) by {
                assert(rounds[k2] == rounds0[k2]);
            }
            assert forall|c: int| 0 <= c < start[i].children@.len() implies done_id(start, #[trigger] start[i].children@[c])
                || exists|k2: int| 0 <= k2 < k && #[trigger] rounds0[k2].contains(start[i].children@[c]) by {
                if !done_id(start, start[i].children@[c]) {
                    let k2 = choose|k2: int| 0 <= k2 < k && #[trigger] rounds[k2].contains(start[i].children@[c]);
                    assert(rounds0[k2] == rounds[k2]);
                }
            }
            assert(ready_at(start, rounds0, k, i));
            assert(rounds0[k].contains(start[i].id));
            assert(rounds[k] == rounds0[k]);
        } else {
            assert(!cur[i].is_done) by {
                if exists|k2: int| 0 <= k2 < kk && #[trigger] rounds0[k2].contains(start[i].id) {
                    let k2 = choose|k2: int| 0 <= k2 < kk && #[trigger] rounds0[k2].contains(start[i].id);
                    assert(rounds[k2] == rounds0[k2]);
                }
            }
            assert forall|c: int| 0 <= c < cur[i].children@.len() implies done_id(cur, #[trigger] cur[i].children@[c]) by {
                let ch = start[i].children@[c];
                assert(cur[i].children@[c] == ch);
                if done_id(start, ch) {
                    let j = choose|j: int| 0 <= j < start.len() && start[j].id == ch && start[j].is_done;
                    assert(cur[j].is_done && cur[j].id == ch);
                } else {
                    let k2 = choose|k2: int| 0 <= k2 < kk && #[trigger] rounds[k2].contains(ch);
                    assert(rounds0[k2] == rounds[k2]);
                    assert(rounds0[k2].contains(ch));
                    let j = choose|j: int| 0 <= j < start.len() && start[j].id == ch && !start[j].is_done;
                    assert(cur[j].is_done && cur[j].id == ch);
                }
            }
            assert(ready(cur, i));
            assert(frontier.contains(i as usize));
            let l = choose|l: int| 0 <= l < frontier.len() && frontier[l] == i as usize;
            assert(frontier[l] as int == i);
            assert(start[frontier[l] as int].id == start[i].id);
            assert(ids.contains(start[i].id));
        }
    }
}

impl<T: Task + Sync> DAG<T> {
    /// Runs every task of the frontier at positions `frontier`, under
    /// `run_style`, and tells for each whether it succeeded. A task's
    /// failure does not stop the others. Under `PARALLEL` the outputs are
    /// computed on worker threads from the store as it was, then written
    /// one by one, each only where its target is still absent.
    fn dispatch<S: Store + Sync>(&self, frontier: &Vec<usize>, run_style: &RunStyle, store: &mut S) -> (ok: Vec<bool>)
        requires
            forall|j: int| 0 <= j < frontier@.len() ==> (#[trigger] frontier@[j]) < self.spec_nodes().len(),
        ensures
            ok@.len() == frontier@.len(),
            keeps(old(store).contents(), final(store).contents()),
            frontier@.len() == 0 ==> final(store).contents() == old(store).contents(),
            forall|j: int|
                0 <= j < ok@.len() && #[trigger] ok@[j] ==> available(
                    final(store).contents(),
                    self.spec_nodes()[frontier@[j] as int].task.target_loc(),
                ),
    {
        let ghost start = store.contents();
        let ghost ns = self.nodes@;
        let mut ok: Vec<bool> = Vec::new();
        match run_style {
            RunStyle::LOCAL => {
                let mut j: usize = 0;
                while j < frontier.len()
                    invariant
                        ns == self.nodes@,
                        forall|l: int| 0 <= l < frontier@.len() ==> (#[trigger] frontier@[l]) < ns.len(),
                        j <= frontier@.len(),
                        ok@.len() == j,
                        keeps(start, store.contents()),
                        j == 0 ==> store.contents() == start,
                        forall|l: int|
                            0 <= l < j && #[trigger] ok@[l] ==> available(
                                store.contents(),
                                ns[frontier@[l] as int].task.target_loc(),
                            ),
                    decreases frontier@.len() - j,
                {
                    let ghost before = store.contents();
                    let res = self.nodes[frontier[j]].task.run_no_deps(store);
                    proof {
                        lemma_keeps_trans(start, before, store.contents());
                    }
                    ok.push(res.is_ok());
                    j = j + 1;
                }
            }
            RunStyle::PARALLEL => {
                let mut tasks: Vec<&T> = Vec::new();
                let mut j: usize = 0;
                while j < frontier.len()
                    invariant
                        ns == self.nodes@,
                        forall|l: int| 0 <= l < frontier@.len() ==> (#[trigger] frontier@[l]) < ns.len(),
                        j <= frontier@.len(),
                        tasks@.len() == j,
                        forall|l: int| 0 <= l < j ==> *(#[trigger] tasks@[l]) == ns[frontier@[l] as int].task,
                    decreases frontier@.len() - j,
                {
                    tasks.push(&self.nodes[frontier[j]].task);
                    j = j + 1;
                }
                let results = prepare_in_parallel(tasks, &*store);
                let mut j: usize = 0;
                while j < results.len()
                    invariant
                        ns == self.nodes@,
                        forall|l: int| 0 <= l < frontier@.len() ==> (#[trigger] frontier@[l]) < ns.len(),
                        results@.len() == frontier@.len(),
                        forall|l: int|
                            0 <= l < results@.len() ==> (#[trigger] results@[l] matches Ok(None) ==> present(
                                start,
                                ns[frontier@[l] as int].task.target_loc(),
                            )),
                        j <= results@.len(),
                        ok@.len() == j,
                        keeps(start, store.contents()),
                        j == 0 ==> store.contents() == start,
                        forall|l: int|
                            0 <= l < j && #[trigger] ok@[l] ==> available(
                                store.contents(),
                                ns[frontier@[l] as int].task.target_loc(),
                            ),
                    decreases results@.len() - j,
                {
                    let ghost before = store.contents();
                    let mut done = false;
                    match &results[j] {
                        Ok(None) => {
                            done = true;
                        }
                        Ok(Some(data)) => {
                            if let Ok(target) = self.nodes[frontier[j]].task.get_target() {
                                match target.is_present(store) {
                                    Ok(true) => {
                                        done = true;
                                    }
                                    Ok(false) => {
                                        done = target.write(store, data.as_slice()).is_ok();
                                    }
                                    Err(_) => {}
                                }
                            }
                        }
                        Err(_) => {}
                    }
                    proof {
                        assert(keeps(before, store.contents()));
                        lemma_keeps_trans(start, before, store.contents());
                    }
                    ok.push(done);
                    j = j + 1;
                }
            }
        }
        ok
    }

    /// Drives the graph to completion: while some node is not done, the
    /// nodes whose children are all done form the next frontier, which is
    /// dispatched under `run_style` and then marked done. A task's failure
    /// does not stop the run: its node is marked done all the same.
    pub fn run<S: Store + Sync>(&mut self, run_style: &RunStyle, store: &mut S) -> (r: Result<(), TaskError>)
        requires
            old(self).wf(),
        ensures
            r is Ok,
            final(self).wf(),
            same_graph(old(self).spec_nodes(), final(self).spec_nodes()),
            forall|i: int|
                0 <= i < final(self).spec_nodes().len() ==> (#[trigger] final(self).spec_nodes()[i]).is_done,
            dispatched_in_order(old(self).spec_nodes(), final(self).spec_rounds()),
            rounds_maximal(old(self).spec_nodes(), final(self).spec_rounds()),
            final(self).spec_rounds().len() <= old(self).spec_nodes().len(),
            keeps(old(store).contents(), final(store).contents()),
            (forall|i: int|
                0 <= i < old(self).spec_nodes().len() ==> (#[trigger] old(self).spec_nodes()[i]).is_done)
                ==> final(store).contents() == old(store).contents(),
            forall|x: u128| #[trigger] final(self).spec_succeeded().contains(x) ==> exists|k: int|
                0 <= k < final(self).spec_rounds().len() && final(self).spec_rounds()[k].contains(x),
            forall|i: int|
                0 <= i < old(self).spec_nodes().len() && #[trigger] final(self).spec_succeeded().contains(
                    old(self).spec_nodes()[i].id,
                ) ==> available(final(store).contents(), old(self).spec_nodes()[i].task.target_loc()),
    {
        let ghost start = self.nodes@;
        let ghost store0 = store.contents();
        self.rounds = Ghost(Seq::empty());
        self.succeeded = Ghost(Set::empty());
        proof {
            lemma_int_range(0, start.len() as int);
            lemma_len_subset(pending(start), set_int_range(0, start.len() as int));
        }
        loop
            invariant
                start.len() > 0,
                start == old(self).spec_nodes(),
                store0 == old(store).contents(),
                same_graph(start, self.nodes@),
                self.wf(),
                dispatch_reached(start, self.nodes@, self.rounds@),
                rounds_maximal(start, self.rounds@),
                self.rounds@.len() + pending(self.nodes@).len() <= start.len(),
                keeps(store0, store.contents()),
                (forall|i: int| 0 <= i < start.len() ==> (#[trigger] start[i]).is_done) ==> store.contents()
                    == store0 && self.rounds@.len() == 0,
                forall|x: u128| #[trigger] self.succeeded@.contains(x) ==> exists|k: int|
                    0 <= k < self.rounds@.len() && self.rounds@[k].contains(x),
                forall|i: int|
                    0 <= i < start.len() && #[trigger] self.succeeded@.contains(start[i].id) ==> available(
                        store.contents(),
                        start[i].task.target_loc(),
                    ),
            ensures
                same_graph(start, self.nodes@),
                self.wf(),
                dispatch_reached(start, self.nodes@, self.rounds@),
                rounds_maximal(start, self.rounds@),
                self.rounds@.len() <= start.len(),
                keeps(store0, store.contents()),
                (forall|i: int| 0 <= i < start.len() ==> (#[trigger] start[i]).is_done) ==> store.contents()
                    == store0,
                forall|x: u128| #[trigger] self.succeeded@.contains(x) ==> exists|k: int|
                    0 <= k < self.rounds@.len() && self.rounds@[k].contains(x),
                forall|i: int|
                    0 <= i < start.len() && #[trigger] self.succeeded@.contains(start[i].id) ==> available(
                        store.contents(),
                        start[i].task.target_loc(),
                    ),
                forall|i: int| 0 <= i < self.nodes@.len() ==> (#[trigger] self.nodes@[i]).is_done,
            decreases pending(self.nodes@).len(),
        {
            let ghost cur = self.nodes@;
            proof {
                lemma_int_range(0, cur.len() as int);
                lemma_len_subset(pending(cur), set_int_range(0, cur.len() as int));
            }
            let count = self.nodes.len();
            let frontier = self.get_run_candidates();
            if frontier.len() == 0 {
                proof {
                    assert forall|i: int| 0 <= i < cur.len() implies (#[trigger] cur[i]).is_done by {
                        if !cur[i].is_done {
                            assert(pending(cur).contains(i));
                        }
                    }
                }
                break;
            }
            proof {
                assert(ready(cur, frontier@[0] as int)) by {
                    assert(frontier@.contains(frontier@[0]));
                }
                assert(!cur[frontier@[0] as int].is_done);
                assert(!start[frontier@[0] as int].is_done);
            }
            let ghost store1 = store.contents();
            let ok = self.dispatch(&frontier, run_style, store);
            proof {
                lemma_keeps_trans(store0, store1, store.contents());
            }
            let ghost fresh = Set::new(|x: u128| exists|l: int| 0 <= l < frontier@.len() && ok@[l] && start[frontier@[l] as int].id == x);
            let ghost succeeded0 = self.succeeded@;
            self.succeeded = Ghost(self.succeeded@.union(fresh));
            let ghost ids = Set::new(|x: u128| exists|l: int| 0 <= l < frontier@.len() && start[frontier@[l] as int].id == x);
            let ghost rounds0 = self.rounds@;
            let mut j: usize = 0;
            while j < frontier.len()
                invariant
                    j <= frontier@.len(),
                    forall|l: int| 0 <= l < frontier@.len() ==> (#[trigger] frontier@[l]) < cur.len(),
                    same_graph(cur, self.nodes@),
                    self.rounds@ == rounds0,
                    self.succeeded@ == succeeded0.union(fresh),
                    forall|i: int|
                        0 <= i < cur.len() ==> (#[trigger] self.nodes@[i].is_done <==> (cur[i].is_done || exists|l: int|
                            0 <= l < j && frontier@[l] == i)),
                decreases frontier@.len() - j,
            {
                let ghost before = self.nodes@;
                self.set_done(frontier[j], true);
                proof {
                    assert forall|i: int| 0 <= i < cur.len() implies (#[trigger] self.nodes@[i].is_done <==> (cur[i].is_done
                        || exists|l: int| 0 <= l < j + 1 && frontier@[l] == i)) by {
                        if i == frontier@[j as int] {
                            assert(frontier@[j as int] == i);
                        } else {
                            assert(self.nodes@[i] == before[i]);
                            if exists|l: int| 0 <= l < j + 1 && frontier@[l] == i {
                                let l = choose|l: int| 0 <= l < j + 1 && frontier@[l] == i;
                                assert(l < j);
                            }
                        }
                    }
                }
                j = j + 1;
            }
            self.rounds = Ghost(self.rounds@.push(ids));
            proof {
                let ns = self.nodes@;
                let rounds = self.rounds@;
                let kk = rounds0.len() as int;
                assert(cur.len() == count);
                lemma_round_step(start, cur, ns, rounds0, ids, frontier@);
                lemma_same_graph_linked(cur, ns);
                assert forall|j: int| 0 <= j < ns.len() - 1 implies #[trigger] parent_placed(ns, j) by {
                    assert(parent_placed(cur, j));
                }
                // successful dispatches left their output available
                assert forall|x: u128| #[trigger] self.succeeded@.contains(x) implies exists|k: int|
                    0 <= k < rounds.len() && rounds[k].contains(x) by {
                    if succeeded0.contains(x) {
                        let k = choose|k: int| 0 <= k < kk && rounds0[k].contains(x);
                        assert(rounds[k].contains(x));
                    } else {
                        let l = choose|l: int| 0 <= l < frontier@.len() && ok@[l] && start[frontier@[l] as int].id == x;
                        assert(rounds[kk].contains(x));
                    }
                }
                assert forall|i: int|
                    0 <= i < start.len() && #[trigger] self.succeeded@.contains(start[i].id) implies available(
                        store.contents(),
                        start[i].task.target_loc(),
                    ) by {
                    if succeeded0.contains(start[i].id) {
                        assert(available(store1, start[i].task.target_loc()));
                    } else {
                        let l = choose|l: int| 0 <= l < frontier@.len() && ok@[l] && start[frontier@[l] as int].id == start[i].id;
                        assert(cur[frontier@[l] as int].id == cur[i].id);
                        assert(frontier@[l] as int == i);
                    }
                }
                // the frontier was pending and is done now
                let f0 = frontier@[0] as int;
                assert(ready(cur, f0));
                assert(pending(cur).contains(f0));
                assert(pending(ns).subset_of(pending(cur).remove(f0)));
                lemma_len_subset(pending(ns), pending(cur).remove(f0));
            }
        }
        proof {
            let ns = self.nodes@;
            let rounds = self.rounds@;
            assert forall|i: int| 0 <= i < start.len() implies (!start[i].is_done <==> exists|k: int|
                0 <= k < rounds.len() && #[trigger] rounds[k].contains(start[i].id)) by {
                assert(ns[i].is_done);
                if exists|k: int| 0 <= k < rounds.len() && #[trigger] rounds[k].contains(start[i].id) {
                    let k = choose|k: int| 0 <= k < rounds.len() && #[trigger] rounds[k].contains(start[i].id);
                    let i2 = choose|i2: int| 0 <= i2 < start.len() && start[i2].id == start[i].id && !start[i2].is_done;
                    assert(ns[i2].id == ns[i].id);
                }
            }
        }
        Ok(())
    }
}

} // verus!
