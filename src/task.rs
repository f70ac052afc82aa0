use vstd::prelude::*;
use vstd::string::*;

use crate::error::TaskError;
use crate::store::{agrees_except, Store};
use crate::target::{erase, present, put, stored, Target};

verus! {

/// Every artifact that `old` holds is still in `new`, with the same bytes.
pub open spec fn keeps(old: Map<Seq<char>, Seq<u8>>, new: Map<Seq<char>, Seq<u8>>) -> bool {
    forall|k: Seq<char>| #[trigger] old.contains_key(k) ==> new.contains_key(k) && new[k] == old[k]
}

/// `new` holds only artifacts of `old`, with the same bytes.
pub open spec fn shrinks(old: Map<Seq<char>, Seq<u8>>, new: Map<Seq<char>, Seq<u8>>) -> bool {
    keeps(new, old)
}

/// A target is available as an input when it exists, or when it is a sink,
/// which never exists.
pub open spec fn available(m: Map<Seq<char>, Seq<u8>>, loc: Option<Seq<char>>) -> bool {
    loc is Some ==> present(m, loc)
}

/// Every target in the dependency tree of `t` is available in `m`.
pub open spec fn built<T: Task>(m: Map<Seq<char>, Seq<u8>>, t: T) -> bool
    decreases t.depth(),
{
    &&& available(m, t.target_loc())
    &&& forall|i: int|
        0 <= i < t.deps().len() ==> (#[trigger] t.deps()[i]).depth() < t.depth() ==> built(
            m,
            t.deps()[i],
        )
}

/// No target in the dependency tree of `t` exists in `m`.
pub open spec fn cleared<T: Task>(m: Map<Seq<char>, Seq<u8>>, t: T) -> bool
    decreases t.depth(),
{
    &&& !present(m, t.target_loc())
    &&& forall|i: int|
        0 <= i < t.deps().len() ==> (#[trigger] t.deps()[i]).depth() < t.depth() ==> cleared(
            m,
            t.deps()[i],
        )
}

/// What a successful `run` of `t` did to the store, from `old` to `new`:
/// the whole dependency tree is built, nothing that existed was touched, and
/// a tree that was already built left the store as it was.
pub open spec fn ran<T: Task>(old: Map<Seq<char>, Seq<u8>>, new: Map<Seq<char>, Seq<u8>>, t: T) -> bool {
    &&& built(new, t)
    &&& keeps(old, new)
    &&& built(old, t) ==> new == old
    &&& produced(old, new, t)
}

/// How the task's own step took the store from `m`, where its
/// dependencies had run, to `new`: an existing output was left alone;
/// otherwise the output was computed from `m`, accepted by validation and,
/// where the target has a location, written there and nowhere else.
pub open spec fn stepped<T: Task>(m: Map<Seq<char>, Seq<u8>>, new: Map<Seq<char>, Seq<u8>>, t: T) -> bool {
    &&& present(m, t.target_loc()) ==> new == m
    &&& t.target_loc() is None ==> new == m
    &&& t.target_loc() is Some && !present(m, t.target_loc()) ==> {
        let out = stored(new, t.target_loc());
        &&& t.accepts(out)
        &&& t.computes(m, out)
        &&& new == m.insert(t.target_loc()->Some_0, out)
    }
}

/// How the task's own step failed between `m` and `new`: either the store
/// is left as it was, or the write of an output that was computed from `m`
/// and accepted by validation failed, which touched no other artifact.
pub open spec fn failed_step<T: Task>(m: Map<Seq<char>, Seq<u8>>, new: Map<Seq<char>, Seq<u8>>, t: T) -> bool {
    ||| new == m
    ||| t.target_loc() is Some && !present(m, t.target_loc()) && agrees_except(m, new, t.target_loc()->Some_0)
        && exists|d: Seq<u8>| #[trigger] t.computes(m, d) && t.accepts(d)
}

/// A failed run of `t` went from `old` through a store `m` (equal to `old`
/// where there are no dependencies) and then failed as `failed_step` says.
pub open spec fn run_failed<T: Task>(old: Map<Seq<char>, Seq<u8>>, new: Map<Seq<char>, Seq<u8>>, t: T) -> bool {
    exists|m: Map<Seq<char>, Seq<u8>>|
        #[trigger] keeps(old, m) && failed_step(m, new, t) && (t.deps().len() == 0 ==> m == old)
}

/// A run of `t` went from `old` through a store `m`, reached by running
/// the dependencies (and equal to `old` where there are none), to `new` by
/// the task's own step.
pub open spec fn produced<T: Task>(old: Map<Seq<char>, Seq<u8>>, new: Map<Seq<char>, Seq<u8>>, t: T) -> bool {
    exists|m: Map<Seq<char>, Seq<u8>>|
        #[trigger] keeps(old, m) && stepped(m, new, t) && (t.deps().len() == 0 ==> m == old)
}

/// `keeps` is transitive.
pub proof fn lemma_keeps_trans(
    a: Map<Seq<char>, Seq<u8>>,
    b: Map<Seq<char>, Seq<u8>>,
    c: Map<Seq<char>, Seq<u8>>,
)
    requires
        keeps(a, b),
        keeps(b, c),
    ensures
        keeps(a, c),
{
}

/// The keys of the targets of `t`'s dependencies among the first `n`.
pub open spec fn dep_keys<T: Task>(t: T, n: int) -> Set<Seq<char>> {
    Set::new(|k: Seq<char>| exists|i: int| 0 <= i < n && #[trigger] t.deps()[i].target_loc() == Some(k))
}

/// What a successful `run_no_deps` of `t` did to the store.
pub open spec fn ran_alone<T: Task>(old: Map<Seq<char>, Seq<u8>>, new: Map<Seq<char>, Seq<u8>>, t: T) -> bool {
    &&& available(new, t.target_loc())
    &&& keeps(old, new)
    &&& available(old, t.target_loc()) ==> new == old
    &&& t.target_loc() is Some && !present(old, t.target_loc()) ==> {
        let out = stored(new, t.target_loc());
        t.computes(old, out) && new == old.insert(t.target_loc()->Some_0, out)
    }
}

/// Availability of a whole tree survives any change that keeps what existed.
pub proof fn lemma_built_kept<T: Task>(m: Map<Seq<char>, Seq<u8>>, m2: Map<Seq<char>, Seq<u8>>, t: T)
    requires
        built(m, t),
        keeps(m, m2),
    ensures
        built(m2, t),
    decreases t.depth(),
{
    assert forall|i: int|
        0 <= i < t.deps().len() && (#[trigger] t.deps()[i]).depth() < t.depth() implies built(
        m2,
        t.deps()[i],
    ) by {
        lemma_built_kept(m, m2, t.deps()[i]);
    }
}

/// Absence of a whole tree survives any change that only removes.
pub proof fn lemma_cleared_kept<T: Task>(m: Map<Seq<char>, Seq<u8>>, m2: Map<Seq<char>, Seq<u8>>, t: T)
    requires
        cleared(m, t),
        shrinks(m, m2),
    ensures
        cleared(m2, t),
    decreases t.depth(),
{
    assert forall|i: int|
        0 <= i < t.deps().len() && (#[trigger] t.deps()[i]).depth() < t.depth() implies cleared(
        m2,
        t.deps()[i],
    ) by {
        lemma_cleared_kept(m, m2, t.deps()[i]);
    }
}

/// Running a task a second time changes nothing: the store, and so the
/// task's output, are what the first run left.
pub proof fn lemma_run_idempotent<T: Task>(
    m0: Map<Seq<char>, Seq<u8>>,
    m1: Map<Seq<char>, Seq<u8>>,
    m2: Map<Seq<char>, Seq<u8>>,
    t: T,
)
    requires
        ran(m0, m1, t),
        ran(m1, m2, t),
    ensures
        m2 == m1,
        stored(m2, t.target_loc()) == stored(m1, t.target_loc()),
{
}

/// Output that exists when a task runs is reused: it still exists
/// afterwards, with the same bytes, whether the task runs with its
/// dependencies or alone.
pub proof fn lemma_cached_output_reused<T: Task>(
    m0: Map<Seq<char>, Seq<u8>>,
    m1: Map<Seq<char>, Seq<u8>>,
    t: T,
)
    requires
        ran(m0, m1, t) || ran_alone(m0, m1, t),
        present(m0, t.target_loc()),
    ensures
        present(m1, t.target_loc()),
        stored(m1, t.target_loc()) == stored(m0, t.target_loc()),
{
}

/// Output that validation rejects is never persisted: where validation
/// rejects every output, a run of a task without dependencies whose target
/// is absent fails, and the target stays absent.
pub proof fn lemma_rejected_output_not_persisted<T: Task>(
    old: Map<Seq<char>, Seq<u8>>,
    new: Map<Seq<char>, Seq<u8>>,
    t: T,
)
    requires
        t.deps().len() == 0,
        t.target_loc() is Some,
        !present(old, t.target_loc()),
        forall|d: Seq<u8>| !t.accepts(d),
        ran(old, new, t) || run_failed(old, new, t),
    ensures
        !ran(old, new, t),
        !present(new, t.target_loc()),
{
    if ran(old, new, t) {
        let m = choose|m: Map<Seq<char>, Seq<u8>>|
            #[trigger] keeps(old, m) && stepped(m, new, t) && (t.deps().len() == 0 ==> m == old);
    } else {
        let m = choose|m: Map<Seq<char>, Seq<u8>>|
            #[trigger] keeps(old, m) && failed_step(m, new, t) && (t.deps().len() == 0 ==> m == old);
    }
}

/// A unit of work whose output persists in a target and whose inputs are the
/// outputs of other tasks, its dependencies.
pub trait Task: Sized {
    /// The kind of target that holds the task's output.
    type Output: Target;

    /// Where the task's output lives; every call of `get_target` addresses it.
    closed spec fn target_loc(&self) -> Option<Seq<char>> {
        None
    }

    /// The task's dependencies, in the order `get_dep_tasks` lists them.
    closed spec fn deps(&self) -> Seq<Self> {
        Seq::empty()
    }

    /// A bound on the height of the dependency tree below the task.
    closed spec fn depth(&self) -> nat {
        0
    }

    /// The labels of the task's dependencies, in the order `get_dep_tasks`
    /// lists them.
    closed spec fn dep_labels(&self) -> Seq<Seq<char>> {
        Seq::empty()
    }

    /// Whether `validate` accepts `data`.
    closed spec fn accepts(&self, data: Seq<u8>) -> bool {
        true
    }

    /// Whether `out` is an output that `compute_output` may give on a store
    /// holding `m`.
    closed spec fn computes(&self, m: Map<Seq<char>, Seq<u8>>, out: Seq<u8>) -> bool {
        true
    }

    /// A fresh handle to the task's target.
    fn get_target(&self) -> (r: Result<Self::Output, TaskError>)
        ensures
            r is Ok ==> r->Ok_0.location() == self.target_loc(),
    ;

    /// Computes the task's output. Every dependency's output is available
    /// in the store whenever this is entered.
    fn compute_output<S: Store>(&self, store: &S) -> (r: Result<Vec<u8>, TaskError>)
        requires
            forall|i: int|
                0 <= i < self.deps().len() ==> available(
                    store.contents(),
                    #[trigger] self.deps()[i].target_loc(),
                ),
        ensures
            r is Ok ==> self.computes(store.contents(), r->Ok_0@),
    ;

    /// The task's dependencies under their labels, which are distinct.
    fn get_dep_tasks(&self) -> (r: Result<Vec<(String, Self)>, TaskError>)
        ensures
            r is Ok ==> r->Ok_0@.len() == self.deps().len(),
            r is Ok ==> forall|i: int| 0 <= i < r->Ok_0@.len() ==> #[trigger] r->Ok_0@[i].1 == self.deps()[i],
            r is Ok ==> forall|i: int| 0 <= i < r->Ok_0@.len() ==> (#[trigger] self.deps()[i]).depth() < self.depth(),
            r is Ok ==> self.dep_labels().len() == self.deps().len(),
            r is Ok ==> forall|i: int| 0 <= i < r->Ok_0@.len() ==> #[trigger] r->Ok_0@[i].0@ == self.dep_labels()[i],
            r is Ok ==> forall|i: int, j: int| 0 <= i < j < self.dep_labels().len() ==> self.dep_labels()[i] != self.dep_labels()[j],
    ;

    /// A display name for diagnostics.
    fn get_name(&self) -> String {
        String::from_str("Unimplemented")
    }

    /// Accepts or rejects freshly computed output before it is persisted.
    fn validate(&self, data: &[u8]) -> (r: Result<(), TaskError>)
        ensures
            r is Ok <==> self.accepts(data@),
    ;

    /// Reads the task's output from its target; fails where it is absent.
    fn get_data<S: Store>(&self, store: &S) -> (r: Result<Vec<u8>, TaskError>)
        ensures
            r is Ok ==> r->Ok_0@ == stored(store.contents(), self.target_loc()),
            r is Ok ==> available(store.contents(), self.target_loc()),
    {
        let target = self.get_target()?;
        target.read(store)
    }

    /// One handle to the target of each dependency, under its label.
    fn get_dep_targets(&self) -> (r: Result<Vec<(String, Self::Output)>, TaskError>)
        ensures
            r is Ok ==> r->Ok_0@.len() == self.deps().len(),
            r is Ok ==> forall|i: int|
                0 <= i < self.deps().len() ==> (#[trigger] r->Ok_0@[i]).1.location()
                    == self.deps()[i].target_loc() && r->Ok_0@[i].0@ == self.dep_labels()[i],
    {
        let deps = self.get_dep_tasks()?;
        let mut result: Vec<(String, Self::Output)> = Vec::new();
        let mut i: usize = 0;
        while i < deps.len()
            invariant
                deps@.len() == self.deps().len(),
                forall|j: int| 0 <= j < deps@.len() ==> #[trigger] deps@[j].1 == self.deps()[j],
                i <= deps@.len(),
                result@.len() == i,
                forall|j: int| 0 <= j < deps@.len() ==> #[trigger] deps@[j].0@ == self.dep_labels()[j],
                forall|j: int|
                    0 <= j < i ==> (#[trigger] result@[j]).1.location() == self.deps()[j].target_loc()
                        && result@[j].0@ == self.dep_labels()[j],
            decreases deps@.len() - i,
        {
            let target = deps[i].1.get_target()?;
            result.push((deps[i].0.clone(), target));
            i = i + 1;
        }
        Ok(result)
    }
}

/// The protocol that every task follows: dependency-first runs that reuse
/// cached output, and deletion of outputs.
pub trait TaskProtocol: Task {
    /// Runs every dependency, recursively, then computes, validates and
    /// writes the task's output where its target does not exist yet.
    fn run<S: Store>(&self, store: &mut S) -> (r: Result<(), TaskError>)
        ensures
            keeps(old(store).contents(), final(store).contents()),
            r is Ok ==> ran(old(store).contents(), final(store).contents(), *self),
            r is Err ==> run_failed(old(store).contents(), final(store).contents(), *self),
    ;

    /// Runs the task as `run` does and reads its output.
    fn run_and_get_data<S: Store>(&self, store: &mut S) -> (r: Result<Vec<u8>, TaskError>)
        ensures
            keeps(old(store).contents(), final(store).contents()),
            r is Ok ==> ran(old(store).contents(), final(store).contents(), *self),
            r is Ok ==> r->Ok_0@ == stored(final(store).contents(), self.target_loc()),
    ;

    /// Computes and writes the task's output where its target does not
    /// exist yet, taking the dependencies as done. Where one of them is not
    /// available the computation does not start. The output is not validated.
    fn run_no_deps<S: Store>(&self, store: &mut S) -> (r: Result<(), TaskError>)
        ensures
            keeps(old(store).contents(), final(store).contents()),
            present(old(store).contents(), self.target_loc()) ==> final(store).contents() == old(store).contents(),
            r is Ok ==> ran_alone(old(store).contents(), final(store).contents(), *self),
            r is Err ==> final(store).contents() == old(store).contents() || (self.target_loc() is Some
                && !present(old(store).contents(), self.target_loc()) && agrees_except(
                old(store).contents(),
                final(store).contents(),
                self.target_loc()->Some_0,
            ) && exists|d: Seq<u8>| #[trigger] self.computes(old(store).contents(), d)),
            !present(old(store).contents(), self.target_loc()) && (exists|i: int|
                0 <= i < self.deps().len() && !available(old(store).contents(), #[trigger] self.deps()[i].target_loc()))
                ==> r is Err && final(store).contents() == old(store).contents(),
    ;

    /// What `run_no_deps` would write, read from the store alone: nothing
    /// where the target exists, else the freshly computed output.
    fn prepare<S: Store>(&self, store: &S) -> (r: Result<Option<Vec<u8>>, TaskError>)
        ensures
            r matches Ok(None) ==> present(store.contents(), self.target_loc()),
            r matches Ok(Some(d)) ==> !present(store.contents(), self.target_loc()) && self.computes(store.contents(), d@),
            !present(store.contents(), self.target_loc()) && (exists|i: int|
                0 <= i < self.deps().len() && !available(store.contents(), #[trigger] self.deps()[i].target_loc()))
                ==> r is Err,
    ;

    /// Deletes the task's output.
    fn delete_data<S: Store>(&self, store: &mut S) -> (r: Result<(), TaskError>)
        ensures
            r is Ok ==> final(store).contents() == erase(old(store).contents(), self.target_loc()),
            r is Err ==> final(store).contents() == old(store).contents(),
    ;

    /// Deletes the outputs of the direct dependencies.
    fn delete_deps<S: Store>(&self, store: &mut S) -> (r: Result<(), TaskError>)
        ensures
            shrinks(old(store).contents(), final(store).contents()),
            r is Ok ==> final(store).contents() == old(store).contents().remove_keys(
                dep_keys(*self, self.deps().len() as int),
            ),
            r is Ok ==> forall|i: int|
                0 <= i < self.deps().len() ==> !present(
                    final(store).contents(),
                    #[trigger] self.deps()[i].target_loc(),
                ),
    ;

    /// Deletes the outputs of the direct dependencies and of their own
    /// direct dependencies.
    fn recursively_delete_deps<S: Store>(&self, store: &mut S) -> (r: Result<(), TaskError>)
        ensures
            shrinks(old(store).contents(), final(store).contents()),
            r is Ok ==> forall|i: int|
                0 <= i < self.deps().len() ==> !present(
                    final(store).contents(),
                    #[trigger] self.deps()[i].target_loc(),
                ),
            r is Ok ==> forall|i: int, j: int|
                0 <= i < self.deps().len() && 0 <= j < self.deps()[i].deps().len() ==> !present(
                    final(store).contents(),
                    #[trigger] self.deps()[i].deps()[j].target_loc(),
                ),
    ;

    /// Deletes the task's output and, recursively, that of every
    /// dependency below it.
    fn recursively_delete_data<S: Store>(&self, store: &mut S) -> (r: Result<(), TaskError>)
        ensures
            shrinks(old(store).contents(), final(store).contents()),
            r is Ok ==> cleared(final(store).contents(), *self),
    ;
}

impl<T: Task> TaskProtocol for T {
    fn run<S: Store>(&self, store: &mut S) -> (r: Result<(), TaskError>)
        decreases self.depth(),
    {
        let ghost start = store.contents();
        let deps = match self.get_dep_tasks() {
            Ok(deps) => deps,
            Err(e) => {
                assert(keeps(start, start));
                return Err(e);
            }
        };
        let mut i: usize = 0;
        while i < deps.len()
            invariant
                deps@.len() == self.deps().len(),
                forall|j: int| 0 <= j < deps@.len() ==> #[trigger] deps@[j].1 == self.deps()[j],
                forall|j: int| 0 <= j < deps@.len() ==> (#[trigger] self.deps()[j]).depth() < self.depth(),
                i <= deps@.len(),
                start == old(store).contents(),
                keeps(start, store.contents()),
                forall|j: int| 0 <= j < i ==> built(store.contents(), #[trigger] self.deps()[j]),
                built(start, *self) ==> store.contents() == start,
                i == 0 ==> store.contents() == start,
            decreases deps@.len() - i,
        {
            let ghost before = store.contents();
            proof {
                if built(start, *self) {
                    assert(built(before, self.deps()[i as int]));
                }
            }
            let res = deps[i].1.run(store);
            proof {
                lemma_keeps_trans(start, before, store.contents());
            }
            if let Err(e) = res {
                proof {
                    assert(keeps(start, store.contents()));
                    assert(failed_step(store.contents(), store.contents(), *self));
                }
                return Err(e);
            }
            proof {
                assert forall|j: int| 0 <= j < i + 1 implies built(store.contents(), #[trigger] self.deps()[j]) by {
                    if j < i {
                        lemma_built_kept(before, store.contents(), self.deps()[j]);
                    }
                }
            }
            i = i + 1;
        }
        let ghost inputs = store.contents();
        proof {
            assert(keeps(start, inputs));
            assert(failed_step(inputs, inputs, *self));
        }
        let target = self.get_target()?;
        if !target.is_present(store)? {
            let data = self.compute_output(store)?;
            self.validate(data.as_slice())?;
            let written = target.write(store, data.as_slice());
            proof {
                assert(keeps(inputs, store.contents()));
                lemma_keeps_trans(start, inputs, store.contents());
            }
            if let Err(e) = written {
                proof {
                    assert(self.computes(inputs, data@) && self.accepts(data@));
                    assert(failed_step(inputs, store.contents(), *self));
                }
                return Err(e);
            }
            proof {
                if self.target_loc() is Some {
                    assert(stored(store.contents(), self.target_loc()) == data@);
                }
            }
        }
        proof {
            assert(keeps(inputs, store.contents()));
            lemma_keeps_trans(start, inputs, store.contents());
            assert forall|j: int| 0 <= j < self.deps().len() implies built(store.contents(), #[trigger] self.deps()[j]) by {
                lemma_built_kept(inputs, store.contents(), self.deps()[j]);
            }
            assert(built(store.contents(), *self));
            assert(stepped(inputs, store.contents(), *self));
            assert(keeps(start, inputs));
        }
        Ok(())
    }

    fn run_and_get_data<S: Store>(&self, store: &mut S) -> (r: Result<Vec<u8>, TaskError>) {
        self.run(store)?;
        self.get_data(store)
    }

    fn run_no_deps<S: Store>(&self, store: &mut S) -> (r: Result<(), TaskError>) {
        match self.prepare(store)? {
            Some(data) => {
                let target = self.get_target()?;
                let written = target.write(store, data.as_slice());
                proof {
                    if written is Err {
                        assert(self.computes(old(store).contents(), data@));
                    }
                }
                written
            }
            None => Ok(()),
        }
    }

    fn prepare<S: Store>(&self, store: &S) -> (r: Result<Option<Vec<u8>>, TaskError>) {
        let target = self.get_target()?;
        if target.is_present(store)? {
            return Ok(None);
        }
        let deps = self.get_dep_tasks()?;
        let mut i: usize = 0;
        while i < deps.len()
            invariant
                deps@.len() == self.deps().len(),
                forall|j: int| 0 <= j < deps@.len() ==> #[trigger] deps@[j].1 == self.deps()[j],
                i <= deps@.len(),
                forall|j: int| 0 <= j < i ==> available(store.contents(), #[trigger] self.deps()[j].target_loc()),
            decreases deps@.len() - i,
        {
            let input = deps[i].1.get_target()?;
            if input.address().is_some() && !input.is_present(store)? {
                return Err(TaskError::MissingInput(deps[i].0.clone()));
            }
            i = i + 1;
        }
        let data = self.compute_output(store)?;
        Ok(Some(data))
    }

    fn delete_data<S: Store>(&self, store: &mut S) -> (r: Result<(), TaskError>) {
        let target = self.get_target()?;
        target.delete(store)
    }

    fn delete_deps<S: Store>(&self, store: &mut S) -> (r: Result<(), TaskError>) {
        let ghost start = store.contents();
        let targets = self.get_dep_targets()?;
        let mut i: usize = 0;
        assert(start.remove_keys(dep_keys(*self, 0)) =~= start);
        while i < targets.len()
            invariant
                targets@.len() == self.deps().len(),
                forall|j: int|
                    0 <= j < targets@.len() ==> (#[trigger] targets@[j]).1.location() == self.deps()[j].target_loc(),
                i <= targets@.len(),
                start == old(store).contents(),
                store.contents() == start.remove_keys(dep_keys(*self, i as int)),
                shrinks(start, store.contents()),
                forall|j: int| 0 <= j < i ==> !present(store.contents(), #[trigger] self.deps()[j].target_loc()),
            decreases targets@.len() - i,
        {
            let ghost before = store.contents();
            let res = targets[i].1.delete(store);
            if let Err(e) = res {
                return Err(e);
            }
            proof {
                let loc = self.deps()[i as int].target_loc();
                assert(targets@[i as int].1.location() == loc);
                let next = start.remove_keys(dep_keys(*self, i + 1));
                assert forall|k: Seq<char>| #[trigger] dep_keys(*self, i + 1).contains(k) == (dep_keys(*self, i as int).contains(k) || loc == Some(k)) by {
                    if dep_keys(*self, i + 1).contains(k) {
                        let j = choose|j: int| 0 <= j < i + 1 && #[trigger] self.deps()[j].target_loc() == Some(k);
                        if j < i {
                            assert(dep_keys(*self, i as int).contains(k));
                        }
                    }
                    if dep_keys(*self, i as int).contains(k) {
                        let j = choose|j: int| 0 <= j < i && #[trigger] self.deps()[j].target_loc() == Some(k);
                        assert(self.deps()[j].target_loc() == Some(k));
                    }
                    if loc == Some(k) {
                        assert(self.deps()[i as int].target_loc() == Some(k));
                    }
                }
                assert(store.contents() =~= next);
            }
            i = i + 1;
        }
        Ok(())
    }

    fn recursively_delete_deps<S: Store>(&self, store: &mut S) -> (r: Result<(), TaskError>) {
        let ghost start = store.contents();
        let deps = self.get_dep_tasks()?;
        let mut i: usize = 0;
        while i < deps.len()
            invariant
                deps@.len() == self.deps().len(),
                forall|j: int| 0 <= j < deps@.len() ==> #[trigger] deps@[j].1 == self.deps()[j],
                i <= deps@.len(),
                start == old(store).contents(),
                shrinks(start, store.contents()),
                forall|j: int| 0 <= j < i ==> !present(store.contents(), #[trigger] self.deps()[j].target_loc()),
                forall|j: int, k: int|
                    0 <= j < i && 0 <= k < self.deps()[j].deps().len() ==> !present(
                        store.contents(),
                        #[trigger] self.deps()[j].deps()[k].target_loc(),
                    ),
            decreases deps@.len() - i,
        {
            let target = deps[i].1.get_target()?;
            target.delete(store)?;
            let ghost before = store.contents();
            let res = deps[i].1.delete_deps(store);
            proof {
                lemma_keeps_trans(store.contents(), before, start);
            }
            if let Err(e) = res {
                return Err(e);
            }
            i = i + 1;
        }
        Ok(())
    }

    fn recursively_delete_data<S: Store>(&self, store: &mut S) -> (r: Result<(), TaskError>)
        decreases self.depth(),
    {
        let ghost start = store.contents();
        self.delete_data(store)?;
        let deps = self.get_dep_tasks()?;
        let mut i: usize = 0;
        while i < deps.len()
            invariant
                deps@.len() == self.deps().len(),
                forall|j: int| 0 <= j < deps@.len() ==> #[trigger] deps@[j].1 == self.deps()[j],
                forall|j: int| 0 <= j < deps@.len() ==> (#[trigger] self.deps()[j]).depth() < self.depth(),
                i <= deps@.len(),
                start == old(store).contents(),
                shrinks(start, store.contents()),
                !present(store.contents(), self.target_loc()),
                forall|j: int| 0 <= j < i ==> cleared(store.contents(), #[trigger] self.deps()[j]),
            decreases deps@.len() - i,
        {
            let ghost before = store.contents();
            let res = deps[i].1.recursively_delete_data(store);
            proof {
                lemma_keeps_trans(store.contents(), before, start);
            }
            if let Err(e) = res {
                return Err(e);
            }
            proof {
                assert forall|j: int| 0 <= j < i + 1 implies cleared(store.contents(), #[trigger] self.deps()[j]) by {
                    if j < i {
                        lemma_cleared_kept(before, store.contents(), self.deps()[j]);
                    }
                }
            }
            i = i + 1;
        }
        Ok(())
    }
}

} // verus!
