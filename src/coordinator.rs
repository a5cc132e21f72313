//! The scheduling state of one build run and the dispatch loop over it.
use crate::job::{
    dependency_identities, forest_size, first_subtrees, lemma_tree_node_cases, lemma_child_in_tree, dep_ids, lemma_first_dep_ids_index, lemma_first_dep_ids_len, lemma_tree_has_leaf, copy_strings, ids_distinguish_nodes, identity_from_deps, job_id, tree_nodes, Command, Job,
};
use std::collections::HashMap;
use vstd::prelude::*;

verus! {

broadcast use vstd::std_specs::hash::group_hash_axioms;

/// The runner-facing view of a graph node: its command, each dependency
/// name with the identity of the job behind it, its input files and outputs.
pub struct RunnableJob {
    pub command: Command,
    pub inputs: Vec<(String, u64)>,
    pub input_files: Vec<String>,
    pub outputs: Vec<String>,
}

/// The identities a job waits on before it may run.
pub open spec fn blockers(rj: RunnableJob) -> Set<u64> {
    rj.inputs@.map_values(|p: (String, u64)| p.1).to_set()
}

/// Why a scheduling step did not complete.
pub enum RunError {
    /// A step was asked for while no job is left at all.
    NoReadyWork,
    /// Jobs remain, but none of them can ever become ready.
    Deadlock { blocked: usize },
    /// The runner reported a failure for the job with identity `id`.
    JobFailed { id: u64, command: Command, reason: String },
}

/// An execution backend: runs one job and reports success or a failure
/// message. It must treat the job as read-only.
pub trait Runner {
    fn run(&self, job: &RunnableJob) -> Result<(), String>;
}

/// Whether some entry of `s` is keyed by `k`.
pub open spec fn keyed_in(s: Seq<(u64, Vec<u64>)>, k: u64) -> bool {
    exists|i: int| 0 <= i < s.len() && (#[trigger] s[i]).0 == k
}

impl Default for Coordinator {
    fn default() -> (r: Self)
        ensures
            r.wf(),
            r.node_table() == Map::<u64, RunnableJob>::empty(),
            r.ready_ids() == Seq::<u64>::empty(),
            r.blocked_count() == 0,
            r.dispatched() == Set::<u64>::empty(),
            r.retired() == Seq::<u64>::empty(),
    {
        Coordinator::new()
    }
}

/// The identities of the nodes of the tree rooted at `t`.
pub open spec fn node_ids(t: Job) -> Set<u64> {
    tree_nodes(t).map_values(|n: Job| job_id(n)).to_set()
}

/// Each entry of the node table of `c` stands for a node of the tree rooted
/// at `t` with the same identity and waits on that node's dependencies, and
/// each node of the tree has an entry.
pub open spec fn built_from(c: Coordinator, t: Job) -> bool {
    &&& c.node_table().dom() == node_ids(t)
    &&& forall|k: u64| #[trigger]
        c.node_table().contains_key(k) ==> exists|n: Job| tree_nodes(t).contains(n) && job_id(n) == k
            && c.deps(k) == dep_ids(n).to_set()
}

/// Two parents in a tree that depend on structurally identical subjobs
/// share one node for them: when identities tell the tree's nodes apart,
/// that node's identity is in the table and among the blockers of both.
pub proof fn lemma_shared_dependency(c: Coordinator, t: Job, p1: Job, i1: int, p2: Job, i2: int)
    requires
        built_from(c, t),
        forall|a: Job, b: Job|
            tree_nodes(t).contains(a) && tree_nodes(t).contains(b) && #[trigger] job_id(a) == #[trigger] job_id(b) ==> a == b,
        tree_nodes(t).contains(p1),
        tree_nodes(t).contains(p2),
        0 <= i1 < p1.inputs.len(),
        0 <= i2 < p2.inputs.len(),
        p1.inputs@[i1].1 == p2.inputs@[i2].1,
    ensures
        c.node_table().contains_key(job_id(p1.inputs@[i1].1)),
        c.deps(job_id(p1)).contains(job_id(p1.inputs@[i1].1)),
        c.deps(job_id(p2)).contains(job_id(p2.inputs@[i2].1)),
{
    let s = p1.inputs@[i1].1;
    lemma_child_in_tree(t, p1, i1);
    let nodes = tree_nodes(t);
    let ms = nodes.map_values(|m: Job| job_id(m));
    let a = choose|a: int| 0 <= a < nodes.len() && #[trigger] nodes[a] == s;
    assert(ms[a] == job_id(s));
    assert(node_ids(t).contains(job_id(s)));
    lemma_parent_blocks_on(c, t, p1, i1);
    lemma_parent_blocks_on(c, t, p2, i2);
}

proof fn lemma_parent_blocks_on(c: Coordinator, t: Job, p: Job, i: int)
    requires
        built_from(c, t),
        forall|a: Job, b: Job|
            tree_nodes(t).contains(a) && tree_nodes(t).contains(b) && #[trigger] job_id(a) == #[trigger] job_id(b) ==> a == b,
        tree_nodes(t).contains(p),
        0 <= i < p.inputs.len(),
    ensures
        c.deps(job_id(p)).contains(job_id(p.inputs@[i].1)),
{
    let nodes = tree_nodes(t);
    let ms = nodes.map_values(|m: Job| job_id(m));
    let a = choose|a: int| 0 <= a < nodes.len() && #[trigger] nodes[a] == p;
    assert(ms[a] == job_id(p));
    assert(node_ids(t).contains(job_id(p)));
    let k = job_id(p);
    let n = choose|n: Job| tree_nodes(t).contains(n) && job_id(n) == k && c.deps(k) == dep_ids(n).to_set();
    assert(n == p);
    lemma_first_dep_ids_index(p, p.inputs.len() as int, i);
    assert(dep_ids(p)[i] == job_id(p.inputs@[i].1));
    assert(dep_ids(p).contains(job_id(p.inputs@[i].1)));
}

impl Coordinator {
    /// What the scheduling invariant says of each job: the ready list has
    /// no repeats; a ready job is in the table, not dispatched, not blocked,
    /// and all its dependencies have completed; a blocked job is in the
    /// table, not dispatched, and waits on some dependency that has not
    /// completed; every job of the table is dispatched, ready or blocked;
    /// only dispatched jobs complete, and only jobs of the table are
    /// dispatched.
    pub proof fn lemma_wf_facts(&self)
        requires
            self.wf(),
        ensures
            self.ready_ids().no_duplicates(),
            forall|i: int|
                0 <= i < self.ready_ids().len() ==> {
                    let k = #[trigger] self.ready_ids()[i];
                    &&& self.node_table().contains_key(k)
                    &&& !self.dispatched().contains(k)
                    &&& self.deps_retired(k)
                    &&& !self.is_blocked(k)
                },
            forall|k: u64| #[trigger]
                self.is_blocked(k) ==> self.node_table().contains_key(k) && !self.dispatched().contains(k)
                    && !self.deps_retired(k),
            forall|k: u64| #[trigger]
                self.node_table().contains_key(k) ==> self.dispatched().contains(k)
                    || self.ready_ids().contains(k) || self.is_blocked(k),
            forall|k: u64| #[trigger] self.retired().contains(k) ==> self.dispatched().contains(k),
            forall|k: u64| #[trigger] self.dispatched().contains(k) ==> self.node_table().contains_key(k),
            forall|k: u64| #[trigger] self.is_blocked(k) ==> self.blocked_count() > 0,
    {
        assert forall|k: u64| #[trigger] self.is_blocked(k) implies self.node_table().contains_key(k)
            && !self.dispatched().contains(k) && !self.deps_retired(k) by {
            let i = choose|i: int| 0 <= i < self.blocked@.len() && (#[trigger] self.blocked@[i]).0 == k;
            assert(self.blocked_entry_ok(self.blocked@[i]));
            let d = self.blocked@[i].1@[0];
            assert(self.blocked@[i].1@.contains(d));
        }
    }
}

/// In a table built from a tree whose nodes identity tells apart, where
/// exactly the jobs without dependencies are ready, some job is ready: the
/// tree has a node without dependencies.
pub proof fn lemma_leaf_is_ready(c: Coordinator, t: Job)
    requires
        built_from(c, t),
        ids_distinguish_nodes(t),
        forall|k: u64| #[trigger]
            c.node_table().contains_key(k) ==> (c.ready_ids().contains(k) <==> c.deps(k).is_empty()),
    ensures
        c.ready_ids().len() > 0,
{
    lemma_tree_has_leaf(t);
    let l = choose|l: Job| #[trigger] tree_nodes(t).contains(l) && l.inputs.len() == 0;
    let ms = tree_nodes(t).map_values(|m: Job| job_id(m));
    let a = choose|a: int| 0 <= a < tree_nodes(t).len() && #[trigger] tree_nodes(t)[a] == l;
    assert(ms[a] == job_id(l));
    assert(node_ids(t).contains(job_id(l)));
    let k = job_id(l);
    let n = choose|n: Job| tree_nodes(t).contains(n) && job_id(n) == k && c.deps(k) == dep_ids(n).to_set();
    assert(n == l);
    assert(dep_ids(l).len() == 0);
    assert(c.deps(k) =~= Set::<u64>::empty());
    assert(c.ready_ids().contains(k));
}

/// In a table built from a tree, every job that a job waits on is itself in
/// the table: no blocker dangles.
pub proof fn lemma_no_dangling_blockers(c: Coordinator, t: Job)
    requires
        built_from(c, t),
    ensures
        forall|k: u64, d: u64|
            c.node_table().contains_key(k) && #[trigger] c.deps(k).contains(d) ==> c.node_table().contains_key(d),
{
    assert forall|k: u64, d: u64| c.node_table().contains_key(k) && #[trigger] c.deps(k).contains(d) implies c.node_table().contains_key(d) by {
        let n = choose|n: Job| tree_nodes(t).contains(n) && job_id(n) == k && c.deps(k) == dep_ids(n).to_set();
        lemma_first_dep_ids_len(n, n.inputs.len() as int);
        assert(dep_ids(n).to_set().contains(d));
        let i = choose|i: int| 0 <= i < dep_ids(n).len() && dep_ids(n)[i] == d;
        lemma_first_dep_ids_index(n, n.inputs.len() as int, i);
        lemma_child_in_tree(t, n, i);
        let ch = n.inputs@[i].1;
        let ms = tree_nodes(t).map_values(|m: Job| job_id(m));
        let a = choose|a: int| 0 <= a < tree_nodes(t).len() && #[trigger] tree_nodes(t)[a] == ch;
        assert(ms[a] == d);
        assert(node_ids(t).contains(d));
    }
}

/// A tree whose nodes have pairwise distinct identities (no subjob is
/// shared or repeated) fills a node table built from it alone with exactly
/// one entry per node.
pub proof fn lemma_one_entry_per_node(c: &Coordinator, t: Job)
    requires
        c.node_table().dom() == node_ids(t),
        forall|i: int, j: int|
            0 <= i < j < tree_nodes(t).len() ==> job_id(#[trigger] tree_nodes(t)[i]) != job_id(#[trigger] tree_nodes(t)[j]),
    ensures
        c.node_table().len() == tree_nodes(t).len(),
{
    let s = tree_nodes(t).map_values(|n: Job| job_id(n));
    assert(s.no_duplicates()) by {
        assert forall|i: int, j: int| 0 <= i < s.len() && 0 <= j < s.len() && i != j implies s[i] != s[j] by {
            if i < j {
                assert(job_id(tree_nodes(t)[i]) != job_id(tree_nodes(t)[j]));
            } else {
                assert(job_id(tree_nodes(t)[j]) != job_id(tree_nodes(t)[i]));
            }
        }
    }
    s.unique_seq_to_set();
}

/// The table entry `rj` is the runner-facing view of job `n`: the same
/// command, input files and outputs, and each named input of `n` with the
/// identity of the job behind it, in order.
pub open spec fn runnable_matches(rj: RunnableJob, n: Job) -> bool {
    &&& same_command(rj.command, n.command)
    &&& rj.input_files@ == n.input_files@
    &&& rj.outputs@ == n.outputs@
    &&& rj.inputs.len() == n.inputs.len()
    &&& forall|j: int|
        0 <= j < n.inputs.len() ==> (#[trigger] rj.inputs@[j]).0 == n.inputs@[j].0 && rj.inputs@[j].1 == job_id(
            n.inputs@[j].1,
        )
}

/// Two commands with the same tool and the same arguments.
pub open spec fn same_command(a: Command, b: Command) -> bool {
    a.tool == b.tool && a.args@ == b.args@
}

/// Owns the flattened graph of one build run: the node table keyed by
/// identity, the jobs still waiting on dependencies, and the ready list.
pub struct Coordinator {
    jobs: HashMap<u64, RunnableJob>,
    blocked: Vec<(u64, Vec<u64>)>,
    ready: Vec<u64>,
    dispatched: Ghost<Set<u64>>,
    retired: Ghost<Seq<u64>>,
}

impl Coordinator {
    /// The node table: every job of the graph by identity.
    pub closed spec fn node_table(&self) -> Map<u64, RunnableJob> {
        self.jobs@
    }

    /// The ready list, in dispatch order from the back.
    pub closed spec fn ready_ids(&self) -> Seq<u64> {
        self.ready@
    }

    /// The number of jobs still waiting on a dependency.
    pub closed spec fn blocked_count(&self) -> nat {
        self.blocked@.len()
    }

    /// Whether the job `k` is still waiting on a dependency.
    pub closed spec fn is_blocked(&self, k: u64) -> bool {
        keyed_in(self.blocked@, k)
    }

    /// Job `id` has been handed to a runner and has not completed; all its
    /// dependencies have.
    pub open spec fn in_flight(&self, id: u64) -> bool {
        &&& self.node_table().contains_key(id)
        &&& self.dispatched().contains(id)
        &&& !self.retired().contains(id)
        &&& self.deps_retired(id)
    }

    spec fn after_pop(&self, pre: Coordinator, id: u64) -> bool {
        &&& pre.wf()
        &&& pre.in_flight(id)
        &&& self.jobs@ == pre.jobs@
        &&& self.blocked@ == pre.blocked@
        &&& self.ready@ == pre.ready@
        &&& self.dispatched@ == pre.dispatched@
        &&& self.retired@ == pre.retired@.push(id)
        &&& forall|d: u64| #[trigger] self.retired@.contains(d) <==> (pre.retired@.contains(d) || d == id)
        &&& forall|i: int| 0 <= i < self.blocked@.len() ==> pre.blocked_entry_ok(#[trigger] self.blocked@[i])
    }

    /// The jobs handed to a runner so far.
    pub closed spec fn dispatched(&self) -> Set<u64> {
        self.dispatched@
    }

    /// The jobs that ran successfully, in the order they completed.
    pub closed spec fn retired(&self) -> Seq<u64> {
        self.retired@
    }

    /// The identities that job `k` waits on.
    pub open spec fn deps(&self, k: u64) -> Set<u64> {
        blockers(self.node_table()[k])
    }

    /// Every dependency of job `k` has completed.
    pub open spec fn deps_retired(&self, k: u64) -> bool {
        forall|d: u64| #[trigger] self.deps(k).contains(d) ==> self.retired().contains(d)
    }

    spec fn blocked_entry_ok(&self, e: (u64, Vec<u64>)) -> bool {
        &&& self.node_table().contains_key(e.0)
        &&& !self.dispatched().contains(e.0)
        &&& e.1@.len() > 0
        &&& forall|d: u64|
            #![trigger e.1@.contains(d)]
            #![trigger self.deps(e.0).contains(d)]
            e.1@.contains(d) <==> self.deps(e.0).contains(d) && !self.retired().contains(d)
    }

    /// The scheduling invariant. Each job of the table is dispatched, ready
    /// or blocked; a ready job waits on nothing that has not completed; a
    /// blocked job waits on exactly its dependencies that have not
    /// completed; each job completed only after all its dependencies had.
    pub closed spec fn wf(&self) -> bool {
        &&& self.ready@.no_duplicates()
        &&& forall|i: int|
            0 <= i < self.ready@.len() ==> {
                let k = #[trigger] self.ready@[i];
                &&& self.node_table().contains_key(k)
                &&& !self.dispatched().contains(k)
                &&& self.deps_retired(k)
                &&& !self.is_blocked(k)
            }
        &&& forall|i: int| 0 <= i < self.blocked@.len() ==> self.blocked_entry_ok(#[trigger] self.blocked@[i])
        &&& forall|i: int, j: int|
            0 <= i < j < self.blocked@.len() ==> (#[trigger] self.blocked@[i]).0 != (#[trigger] self.blocked@[j]).0
        &&& forall|k: u64| #[trigger] self.dispatched().contains(k) ==> self.node_table().contains_key(k)
        &&& forall|k: u64| #[trigger] self.retired().contains(k) ==> self.dispatched().contains(k)
        &&& self.retired().no_duplicates()
        &&& forall|i: int, d: u64|
            0 <= i < self.retired().len() && #[trigger] self.deps(self.retired()[i]).contains(d)
                ==> self.retired().subrange(0, i).contains(d)
        &&& forall|k: u64|
            #[trigger] self.node_table().contains_key(k) ==> self.dispatched().contains(k)
                || self.ready@.contains(k) || self.is_blocked(k)
    }

    /// An empty coordinator.
    pub fn new() -> (r: Self)
        ensures
            r.wf(),
            r.node_table() == Map::<u64, RunnableJob>::empty(),
            r.ready_ids() == Seq::<u64>::empty(),
            r.blocked_count() == 0,
            r.dispatched() == Set::<u64>::empty(),
            r.retired() == Seq::<u64>::empty(),
    {
        Coordinator {
            jobs: HashMap::new(),
            blocked: Vec::new(),
            ready: Vec::new(),
            dispatched: Ghost(Set::empty()),
            retired: Ghost(Seq::empty()),
        }
    }

    /// Whether some job of the table has not been dispatched yet.
    pub fn has_outstanding_work(&self) -> (r: bool)
        requires
            self.wf(),
        ensures
            r == (self.ready_ids().len() > 0 || self.blocked_count() > 0),
            r == exists|k: u64|
                #[trigger] self.node_table().contains_key(k) && !self.dispatched().contains(k),
    {
        let r = self.ready.len() > 0 || self.blocked.len() > 0;
        proof {
            if self.ready@.len() > 0 {
                let k = self.ready@[0];
                assert(self.node_table().contains_key(k) && !self.dispatched().contains(k));
            } else if self.blocked@.len() > 0 {
                let k = self.blocked@[0].0;
                assert(self.blocked_entry_ok(self.blocked@[0]));
                assert(self.node_table().contains_key(k) && !self.dispatched().contains(k));
            } else {
                assert forall|k: u64| #[trigger] self.node_table().contains_key(k) implies self.dispatched().contains(k) by {
                    if !self.dispatched().contains(k) {
                        if self.ready@.contains(k) {
                        } else {
                            assert(self.is_blocked(k));
                        }
                    }
                }
            }
        }
        r
    }

    /// Adds the graph of `target` and all its transitive dependencies to the
    /// node table, keyed by identity. Each job not yet in the table becomes
    /// ready when it has no dependencies and blocked on its dependencies
    /// otherwise; jobs already in the table keep their entry.
    #[verifier::rlimit(80)]
    pub fn add_target(&mut self, target: &Job)
        requires
            old(self).wf(),
            old(self).dispatched() == Set::<u64>::empty(),
        ensures
            final(self).wf(),
            final(self).dispatched() == Set::<u64>::empty(),
            final(self).retired() == old(self).retired(),
            final(self).node_table().contains_key(job_id(*target)),
            forall|n: Job| #[trigger]
                tree_nodes(*target).contains(n) ==> final(self).node_table().contains_key(job_id(n)),
            forall|k: u64| #[trigger]
                old(self).node_table().contains_key(k) ==> final(self).node_table().contains_key(k)
                    && final(self).node_table()[k] == old(self).node_table()[k],
            forall|k: u64| #[trigger]
                final(self).node_table().contains_key(k) && !old(self).node_table().contains_key(k)
                    ==> exists|n: Job| tree_nodes(*target).contains(n) && job_id(n) == k
                        && final(self).deps(k) == dep_ids(n).to_set()
                        && runnable_matches(final(self).node_table()[k], n),
            old(self).node_table() == Map::<u64, RunnableJob>::empty() ==> built_from(*final(self), *target),
            final(self).ready_ids().no_duplicates(),
            forall|k: u64| #[trigger]
                final(self).node_table().contains_key(k) ==> (final(self).ready_ids().contains(k)
                    <==> final(self).deps(k).is_empty()) && (final(self).is_blocked(k)
                    <==> !final(self).deps(k).is_empty()),
    {
        let mut todo: Vec<&Job> = Vec::new();
        todo.push(target);
        let ghost start = *self;
        proof {
            assert(*todo@[0] == *target);
            assert(tree_nodes(*target)[0] == *target);
            assert forall|n: Job| #[trigger] tree_nodes(*target).contains(n) implies self.node_table().contains_key(job_id(n))
                || exists|t: int| 0 <= t < todo@.len() && tree_nodes(*todo@[t]).contains(n) by {
                assert(tree_nodes(*todo@[0]).contains(n));
            }
        }
        while todo.len() > 0
            invariant
                self.wf(),
                self.dispatched() == Set::<u64>::empty(),
                self.retired() == start.retired(),
                self.node_table().contains_key(job_id(*target)) || (todo@.len() > 0 && todo@[0] == target),
                forall|n: Job| #[trigger]
                    tree_nodes(*target).contains(n) ==> self.node_table().contains_key(job_id(n))
                        || exists|t: int| 0 <= t < todo@.len() && tree_nodes(*todo@[t]).contains(n),
                forall|k: u64| #[trigger]
                    start.node_table().contains_key(k) ==> self.node_table().contains_key(k)
                        && self.node_table()[k] == start.node_table()[k],
                forall|t: int| 0 <= t < todo@.len() ==> tree_nodes(*target).contains(*#[trigger] todo@[t]),
                forall|k: u64| #[trigger]
                    self.node_table().contains_key(k) && !start.node_table().contains_key(k)
                        ==> exists|n: Job| tree_nodes(*target).contains(n) && job_id(n) == k
                            && self.deps(k) == dep_ids(n).to_set()
                            && runnable_matches(self.node_table()[k], n),
            decreases forest_size(todo@),
        {
            let ghost before = todo@;
            let x = todo.pop().unwrap();
            assert(before.drop_last() == todo@);
            let ghost pre_iter = *self;
            let deps = dependency_identities(x);
            let id = identity_from_deps(x, &deps);
            assert(id == job_id(*x));
            if !self.jobs.contains_key(&id) {
                let mut inputs: Vec<(String, u64)> = Vec::new();
                let mut i: usize = 0;
                while i < x.inputs.len()
                    invariant
                        0 <= i <= x.inputs.len(),
                        deps@.len() == x.inputs.len(),
                        inputs@.map_values(|p: (String, u64)| p.1) == deps@.subrange(0, i as int),
                        inputs@.len() == i,
                        forall|j: int| 0 <= j < i ==> (#[trigger] inputs@[j]).0 == x.inputs@[j].0,
                    decreases x.inputs.len() - i,
                {
                    let name = x.inputs[i].0.clone();
                    let ghost prev = inputs@;
                    inputs.push((name, deps[i]));
                    assert(inputs@.map_values(|p: (String, u64)| p.1) =~= prev.map_values(|p: (String, u64)| p.1).push(deps@[i as int]));
                    assert(deps@.subrange(0, i + 1) =~= deps@.subrange(0, i as int).push(deps@[i as int]));
                    i = i + 1;
                }
                assert(deps@.subrange(0, deps@.len() as int) =~= deps@);
                let rj = RunnableJob {
                    command: x.command.duplicate(),
                    inputs,
                    input_files: copy_strings(&x.input_files),
                    outputs: copy_strings(&x.outputs),
                };
                assert(blockers(rj) == deps@.to_set());
                assert forall|j: int| 0 <= j < x.inputs.len() implies (#[trigger] rj.inputs@[j]).1 == job_id(x.inputs@[j].1) by {
                    lemma_first_dep_ids_index(*x, x.inputs.len() as int, j);
                    assert(rj.inputs@.map_values(|p: (String, u64)| p.1)[j] == deps@[j]);
                }
                assert(runnable_matches(rj, *x));
                let ghost pre = *self;
                assert(!pre.ready@.contains(id));
                assert(!pre.is_blocked(id));
                if deps.len() == 0 {
                    assert(deps@.to_set() =~= Set::<u64>::empty());
                    self.ready.push(id);
                } else {
                    assert(deps@.contains(deps@[0]));
                    self.blocked.push((id, deps));
                }
                self.jobs.insert(id, rj);
                proof {
                    assert(self.node_table() == pre.node_table().insert(id, rj));
                    assert forall|k: u64| pre.node_table().contains_key(k) implies self.deps(k) == pre.deps(k) by {
                    }
                    assert(self.deps(id) == deps@.to_set());
                    assert forall|i: int| 0 <= i < self.blocked@.len() implies self.blocked_entry_ok(#[trigger] self.blocked@[i]) by {
                        if i < pre.blocked@.len() {
                            assert(pre.blocked_entry_ok(pre.blocked@[i]));
                            assert(self.blocked@[i] == pre.blocked@[i]);
                        }
                    }
                    assert forall|i: int, j: int| 0 <= i < j < self.blocked@.len() implies (#[trigger] self.blocked@[i]).0 != (#[trigger] self.blocked@[j]).0 by {
                        if j == pre.blocked@.len() {
                            assert(pre.blocked_entry_ok(pre.blocked@[i]));
                        }
                    }
                    assert forall|i: int| 0 <= i < self.ready@.len() implies {
                        let k = #[trigger] self.ready@[i];
                        &&& self.node_table().contains_key(k)
                        &&& !self.dispatched().contains(k)
                        &&& self.deps_retired(k)
                        &&& !self.is_blocked(k)
                    } by {
                        let k = self.ready@[i];
                        if i < pre.ready@.len() {
                            assert(pre.ready@[i] == k);
                            assert(pre.deps_retired(k));
                            assert forall|d: u64| #[trigger] self.deps(k).contains(d) implies self.retired().contains(d) by {
                                assert(pre.deps(k).contains(d));
                            }
                            if self.is_blocked(k) {
                                let j = choose|j: int| 0 <= j < self.blocked@.len() && (#[trigger] self.blocked@[j]).0 == k;
                                if j < pre.blocked@.len() {
                                    assert(pre.blocked@[j].0 == k);
                                }
                            }
                        } else {
                            if self.is_blocked(k) {
                                let j = choose|j: int| 0 <= j < self.blocked@.len() && (#[trigger] self.blocked@[j]).0 == k;
                                assert(pre.blocked@[j].0 == k);
                                assert(pre.blocked_entry_ok(pre.blocked@[j]));
                            }
                        }
                    }
                    assert forall|k: u64| #[trigger] self.node_table().contains_key(k) implies self.dispatched().contains(k)
                        || self.ready@.contains(k) || self.is_blocked(k) by {
                        if k == id {
                            if deps@.len() == 0 {
                                assert(self.ready@[self.ready@.len() - 1] == id);
                            } else {
                                assert(self.blocked@[self.blocked@.len() - 1].0 == id);
                            }
                        } else if pre.ready@.contains(k) {
                            let i = choose|i: int| 0 <= i < pre.ready@.len() && pre.ready@[i] == k;
                            assert(self.ready@[i] == k);
                        } else if pre.is_blocked(k) {
                            let j = choose|j: int| 0 <= j < pre.blocked@.len() && (#[trigger] pre.blocked@[j]).0 == k;
                            assert(self.blocked@[j].0 == k);
                        }
                    }
                    assert(self.ready@.no_duplicates()) by {
                        if deps@.len() == 0 {
                            assert forall|i: int, j: int| 0 <= i < j < self.ready@.len() implies self.ready@[i] != self.ready@[j] by {
                                if j == pre.ready@.len() {
                                    assert(pre.ready@.contains(pre.ready@[i]));
                                } else {
                                    assert(pre.ready@[i] == self.ready@[i] && pre.ready@[j] == self.ready@[j]);
                                }
                            }
                        }
                    }
                    if self.retired().len() > 0 {
                        assert(self.retired().contains(self.retired()[0]));
                    }
                }
            }
            assert(self.node_table().contains_key(id));
            assert(forall|k: u64| #[trigger] pre_iter.node_table().contains_key(k) ==> self.node_table().contains_key(k));
            assert forall|k: u64| #[trigger]
                self.node_table().contains_key(k) && !start.node_table().contains_key(k)
                    implies exists|n: Job| tree_nodes(*target).contains(n) && job_id(n) == k
                        && self.deps(k) == dep_ids(n).to_set()
                        && runnable_matches(self.node_table()[k], n) by {
                if pre_iter.node_table().contains_key(k) {
                    let n = choose|n: Job| tree_nodes(*target).contains(n) && job_id(n) == k
                        && pre_iter.deps(k) == dep_ids(n).to_set()
                        && runnable_matches(pre_iter.node_table()[k], n);
                    assert(self.deps(k) == pre_iter.deps(k));
                } else {
                    assert(k == id);
                    assert(tree_nodes(*target).contains(*before[before.len() - 1]));
                    assert(self.deps(k) == dep_ids(*x).to_set());
                }
            }
            let ghost rest = todo@;
            assert(tree_nodes(*target).contains(*before[before.len() - 1]));
            let mut i: usize = 0;
            while i < x.inputs.len()
                invariant
                    0 <= i <= x.inputs.len(),
                    todo@.len() >= rest.len(),
                    todo@.subrange(0, rest.len() as int) == rest,
                    forest_size(todo@) == forest_size(rest) + first_subtrees(*x, i as int).len(),
                    todo@.len() == rest.len() + i,
                    forall|j: int| 0 <= j < i ==> *todo@[rest.len() + j] == (#[trigger] x.inputs@[j]).1,
                    forall|t: int| 0 <= t < todo@.len() ==> tree_nodes(*target).contains(*#[trigger] todo@[t]),
                    tree_nodes(*target).contains(*x),
                decreases x.inputs.len() - i,
            {
                let ghost prev = todo@;
                proof {
                    lemma_child_in_tree(*target, *x, i as int);
                }
                todo.push(&x.inputs[i].1);
                assert(todo@.drop_last() == prev);
                assert(todo@.subrange(0, rest.len() as int) =~= prev.subrange(0, rest.len() as int));
                i = i + 1;
            }
            proof {
                assert(forest_size(before) == forest_size(rest) + tree_nodes(*x).len());
                assert(tree_nodes(*x).len() == 1 + first_subtrees(*x, x.inputs.len() as int).len());
                assert forall|n: Job| #[trigger]
                    tree_nodes(*target).contains(n) implies self.node_table().contains_key(job_id(n))
                        || exists|t: int| 0 <= t < todo@.len() && tree_nodes(*todo@[t]).contains(n) by {
                    if !pre_iter.node_table().contains_key(job_id(n)) {
                        let t = choose|t: int| 0 <= t < before.len() && tree_nodes(*before[t]).contains(n);
                        if t < rest.len() {
                            assert(todo@.subrange(0, rest.len() as int)[t] == todo@[t]);
                            assert(tree_nodes(*todo@[t]).contains(n));
                        } else {
                            lemma_tree_node_cases(*x, n);
                            if n != *x {
                                let c = choose|c: int| 0 <= c < x.inputs.len() && tree_nodes(#[trigger] x.inputs@[c].1).contains(n);
                                assert(*todo@[rest.len() + c] == x.inputs@[c].1);
                            }
                        }
                    }
                }
                if !self.node_table().contains_key(job_id(*target)) {
                    if before.len() == 1 {
                        assert(*x == *before[0]);
                    } else {
                        assert(rest[0] == before[0]);
                        assert(todo@.subrange(0, rest.len() as int)[0] == todo@[0]);
                    }
                }
            }
        }
        proof {
            if start.node_table() == Map::<u64, RunnableJob>::empty() {
                let ids = node_ids(*target);
                let nodes = tree_nodes(*target);
                let ms = nodes.map_values(|m: Job| job_id(m));
                assert(ids == ms.to_set());
                assert forall|k: u64| self.node_table().dom().contains(k) <==> ids.contains(k) by {
                    if self.node_table().contains_key(k) {
                        let n = choose|n: Job| tree_nodes(*target).contains(n) && job_id(n) == k
                            && self.deps(k) == dep_ids(n).to_set();
                        let a = choose|a: int| 0 <= a < nodes.len() && #[trigger] nodes[a] == n;
                        assert(ms[a] == k);
                    }
                    if ids.contains(k) {
                        let a = choose|a: int| 0 <= a < ms.len() && #[trigger] ms[a] == k;
                        assert(nodes.contains(nodes[a]));
                    }
                }
                assert(self.node_table().dom() =~= ids);
            }
        }
        proof {
            self.lemma_wf_facts();
            if self.retired().len() > 0 {
                assert(self.retired().contains(self.retired()[0]));
            }
            assert forall|k: u64| #[trigger] self.node_table().contains_key(k) implies (self.ready_ids().contains(k)
                <==> self.deps(k).is_empty()) && (self.is_blocked(k) <==> !self.deps(k).is_empty()) by {
                if self.ready_ids().contains(k) {
                    let i = choose|i: int| 0 <= i < self.ready_ids().len() && self.ready_ids()[i] == k;
                    assert(self.deps_retired(k));
                    assert(self.deps(k) =~= Set::<u64>::empty());
                }
                if self.deps(k).is_empty() {
                    assert(self.deps(k) =~= Set::<u64>::empty());
                    assert(self.deps_retired(k));
                }
            }
        }
    }

    /// Runs ready jobs until none is left. Stops at the first runner
    /// failure, and with a deadlock when jobs remain that can never become
    /// ready.
    pub fn run_to_completion<R: Runner>(&mut self, runner: &R) -> (r: Result<(), RunError>)
        requires
            old(self).wf(),
        ensures
            final(self).wf(),
            final(self).node_table() == old(self).node_table(),
            r is Ok ==> forall|k: u64| #[trigger]
                final(self).node_table().contains_key(k) ==> final(self).dispatched().contains(k),
            (r is Ok && forall|k: u64| #[trigger] old(self).dispatched().contains(k) ==> old(self).retired().contains(k))
                ==> forall|k: u64| #[trigger]
                final(self).node_table().contains_key(k) ==> final(self).retired().contains(k),
            !(r matches Err(RunError::NoReadyWork)),
            old(self).ready_ids().len() == 0 && old(self).blocked_count() == 0 ==> r is Ok,
            r is Ok ==> final(self).ready_ids().len() == 0 && final(self).blocked_count() == 0,
            (r matches Err(RunError::Deadlock { .. })) ==> final(self).ready_ids().len() == 0
                && final(self).blocked_count() > 0,
            r matches Err(RunError::JobFailed { id, .. }) ==> final(self).dispatched().contains(id)
                && !final(self).retired().contains(id),
    {
        let ghost start = *self;
        let ghost clean = forall|k: u64| #[trigger] start.dispatched().contains(k) ==> start.retired().contains(k);
        while self.has_outstanding_work()
            invariant
                self.wf(),
                self.node_table() == old(self).node_table(),
                old(self).ready_ids().len() == 0 && old(self).blocked_count() == 0 ==> self.ready_ids().len() == 0
                    && self.blocked_count() == 0,
                clean ==> forall|k: u64| #[trigger] self.dispatched().contains(k) ==> self.retired().contains(k),
            decreases 2 * self.blocked_count() + self.ready_ids().len(),
        {
            let ghost pre = *self;
            match self.run_next(runner) {
                Ok(()) => {
                    proof {
                        let id = pre.ready_ids().last();
                        if clean {
                            assert forall|k: u64| #[trigger] self.dispatched().contains(k) implies self.retired().contains(k) by {
                                if k != id {
                                    assert(pre.dispatched().contains(k));
                                    assert(pre.retired().contains(k));
                                    let j = choose|j: int| 0 <= j < pre.retired().len() && pre.retired()[j] == k;
                                    assert(self.retired()[j] == k);
                                } else {
                                    assert(self.retired()[self.retired().len() - 1] == k);
                                }
                            }
                        }
                    }
                },
                Err(e) => {
                    proof {
                        if e matches RunError::JobFailed { .. } {
                            assert(!pre.retired().contains(pre.ready_ids().last()));
                        }
                    }
                    return Err(e);
                },
            }
        }
        Ok(())
    }

    /// The number of distinct jobs in the node table.
    pub fn job_count(&self) -> (r: usize)
        ensures
            r == self.node_table().len(),
    {
        self.jobs.len()
    }

    /// Whether a job with identity `id` is in the node table.
    pub fn contains_job(&self, id: u64) -> (r: bool)
        ensures
            r == self.node_table().contains_key(id),
    {
        self.jobs.contains_key(&id)
    }

    /// The identities of the jobs in the node table that job `id` depends
    /// on, or `None` when `id` is not in the table.
    pub fn dependencies_of(&self, id: u64) -> (r: Option<Vec<u64>>)
        ensures
            r is None <==> !self.node_table().contains_key(id),
            r matches Some(v) ==> v@ == self.node_table()[id].inputs@.map_values(|p: (String, u64)| p.1)
                && v@.to_set() == self.deps(id),
    {
        match self.jobs.get(&id) {
            None => None,
            Some(rj) => {
                let mut v: Vec<u64> = Vec::new();
                let mut i: usize = 0;
                while i < rj.inputs.len()
                    invariant
                        0 <= i <= rj.inputs.len(),
                        v@ == rj.inputs@.map_values(|p: (String, u64)| p.1).subrange(0, i as int),
                    decreases rj.inputs.len() - i,
                {
                    v.push(rj.inputs[i].1);
                    assert(v@ =~= rj.inputs@.map_values(|p: (String, u64)| p.1).subrange(0, i + 1));
                    i = i + 1;
                }
                assert(v@ =~= rj.inputs@.map_values(|p: (String, u64)| p.1));
                Some(v)
            },
        }
    }

    /// The ready list; the next job to run is the last one.
    pub fn ready_list(&self) -> (r: &Vec<u64>)
        ensures
            r@ == self.ready_ids(),
    {
        &self.ready
    }

    /// The dependencies of `ws` other than `id`.
    fn without(ws: &Vec<u64>, id: u64) -> (r: Vec<u64>)
        ensures
            forall|d: u64| r@.contains(d) <==> ws@.contains(d) && d != id,
            r@.len() <= ws@.len(),
    {
        let mut r: Vec<u64> = Vec::new();
        let mut j: usize = 0;
        while j < ws.len()
            invariant
                0 <= j <= ws.len(),
                r@.len() <= j,
                forall|d: u64| r@.contains(d) <==> ws@.subrange(0, j as int).contains(d) && d != id,
            decreases ws.len() - j,
        {
            let d = ws[j];
            let ghost prev = r@;
            let ghost seen = ws@.subrange(0, j as int);
            assert(ws@.subrange(0, j + 1) =~= seen.push(d));
            if d != id {
                r.push(d);
            }
            assert forall|x: u64| r@.contains(x) <==> seen.push(d).contains(x) && x != id by {
                if prev.contains(x) {
                    let k = choose|k: int| 0 <= k < prev.len() && prev[k] == x;
                    assert(r@[k] == x);
                    let m = choose|m: int| 0 <= m < seen.len() && seen[m] == x;
                    assert(seen.push(d)[m] == x);
                }
                if r@.contains(x) && !prev.contains(x) {
                    let k = choose|k: int| 0 <= k < r@.len() && r@[k] == x;
                    if k < prev.len() {
                        assert(prev[k] == x);
                    }
                    assert(seen.push(d)[seen.len() as int] == x);
                }
                if seen.push(d).contains(x) && x != id {
                    let k = choose|k: int| 0 <= k < seen.len() + 1 && seen.push(d)[k] == x;
                    if k < seen.len() {
                        assert(seen[k] == x);
                        assert(prev.contains(x));
                    } else {
                        assert(r@[r@.len() - 1] == x);
                    }
                }
            }
            j = j + 1;
        }
        assert(ws@.subrange(0, ws.len() as int) =~= ws@);
        r
    }

    /// Pops the last ready job and records it as dispatched; it is then in
    /// flight until `complete` is told how its run went. With no ready job
    /// nothing changes and the error says whether any job is left.
    pub fn start_next(&mut self) -> (r: Result<u64, RunError>)
        requires
            old(self).wf(),
        ensures
            final(self).wf(),
            final(self).node_table() == old(self).node_table(),
            final(self).blocked_count() == old(self).blocked_count(),
            final(self).retired() == old(self).retired(),
            forall|k: u64| final(self).is_blocked(k) == old(self).is_blocked(k),
            old(self).ready_ids().len() == 0 ==> {
                &&& final(self).ready_ids() == old(self).ready_ids()
                &&& final(self).dispatched() == old(self).dispatched()
                &&& old(self).blocked_count() == 0 ==> (r matches Err(RunError::NoReadyWork))
                &&& old(self).blocked_count() > 0 ==> (r matches Err(RunError::Deadlock { .. }))
            },
            old(self).ready_ids().len() > 0 ==> {
                let id = old(self).ready_ids().last();
                &&& r == Ok::<u64, RunError>(id)
                &&& !old(self).dispatched().contains(id)
                &&& final(self).dispatched() == old(self).dispatched().insert(id)
                &&& final(self).ready_ids() == old(self).ready_ids().drop_last()
                &&& final(self).in_flight(id)
            },
    {
        if self.ready.len() == 0 {
            if self.blocked.len() == 0 {
                return Err(RunError::NoReadyWork);
            } else {
                return Err(RunError::Deadlock { blocked: self.blocked.len() });
            }
        }
        let ghost pre = *self;
        let id = self.ready.pop().unwrap();
        assert(pre.ready@[pre.ready@.len() - 1] == id);
        assert(self.ready@ == pre.ready@.drop_last());
        assert(!pre.is_blocked(id) && pre.deps_retired(id) && !pre.dispatched().contains(id));
        self.dispatched = Ghost(self.dispatched@.insert(id));
        assert(!self.ready@.contains(id)) by {
            if self.ready@.contains(id) {
                let i = choose|i: int| 0 <= i < self.ready@.len() && self.ready@[i] == id;
                assert(pre.ready@[i] == pre.ready@[pre.ready@.len() - 1]);
            }
        }
        assert(!pre.retired().contains(id));
                proof {
            assert forall|k: u64| #[trigger] self.node_table().contains_key(k) implies self.dispatched().contains(k)
                || self.ready@.contains(k) || self.is_blocked(k) by {
                if pre.ready@.contains(k) && k != id {
                    let i = choose|i: int| 0 <= i < pre.ready@.len() && pre.ready@[i] == k;
                    assert(self.ready@[i] == k);
                }
            }
            assert forall|i: int| 0 <= i < self.blocked@.len() implies self.blocked_entry_ok(#[trigger] self.blocked@[i]) by {
                let e = self.blocked@[i];
                assert(pre.blocked_entry_ok(pre.blocked@[i]));
                if e.0 == id {
                    assert(pre.is_blocked(id));
                }
                assert(self.deps(e.0) == pre.deps(e.0));
                assert(self.retired() == pre.retired());
                assert(self.node_table().contains_key(e.0));
                assert(!self.dispatched().contains(e.0));
                assert(e.1@.len() > 0);
                assert forall|d: u64| e.1@.contains(d) <==> self.deps(e.0).contains(d) && !self.retired().contains(d) by {
                    assert(e.1@.contains(d) <==> pre.deps(e.0).contains(d) && !pre.retired().contains(d));
                }
            }
        }
        proof {
            assert forall|i: int| 0 <= i < self.ready@.len() implies self.ready@[i] == pre.ready@[i] && pre.ready@[i] != id by {
                assert(pre.ready@[pre.ready@.len() - 1] == id);
            }
            assert forall|i: int| 0 <= i < self.ready@.len() implies {
                let k = #[trigger] self.ready@[i];
                &&& self.node_table().contains_key(k)
                &&& !self.dispatched().contains(k)
                &&& self.deps_retired(k)
                &&& !self.is_blocked(k)
            } by {
                let k = self.ready@[i];
                assert(pre.ready@[i] == k);
                assert(pre.deps_retired(k));
                assert forall|d: u64| #[trigger] self.deps(k).contains(d) implies self.retired().contains(d) by {
                    assert(pre.deps(k).contains(d));
                }
            }
            assert(self.ready@.no_duplicates()) by {
                assert forall|i: int, j: int| 0 <= i < j < self.ready@.len() implies self.ready@[i] != self.ready@[j] by {
                    assert(self.ready@[i] == pre.ready@[i] && self.ready@[j] == pre.ready@[j]);
                }
            }
            assert forall|i: int, d: u64| 0 <= i < self.retired().len() && #[trigger] self.deps(self.retired()[i]).contains(d)
                implies self.retired().subrange(0, i).contains(d) by {
                assert(pre.deps(pre.retired()[i]).contains(d));
            }
        }
        assert forall|d: u64| #[trigger] self.deps(id).contains(d) implies self.retired().contains(d) by {
            assert(pre.deps(id).contains(d));
        }
        Ok(id)
    }

    /// The node table's entry for `id`.
    pub fn job(&self, id: u64) -> (r: Option<&RunnableJob>)
        ensures
            r is Some <==> self.node_table().contains_key(id),
            r matches Some(j) ==> *j == self.node_table()[id],
    {
        self.jobs.get(&id)
    }

    /// Records how the run of the in-flight job `id` went. On success the
    /// job is retired: it is removed from every blocked job's waiting set,
    /// and each job left with nothing to wait on moves to the end of the
    /// ready list. On failure nothing changes and the error carries the
    /// job's identity, its command and the runner's message.
    pub fn complete(&mut self, id: u64, outcome: Result<(), String>) -> (r: Result<(), RunError>)
        requires
            old(self).wf(),
            old(self).in_flight(id),
        ensures
            final(self).wf(),
            final(self).node_table() == old(self).node_table(),
            final(self).dispatched() == old(self).dispatched(),
            outcome matches Err(e) ==> {
                &&& (r matches Err(RunError::JobFailed { id: fid, command, reason })
                    && fid == id && reason == e
                    && same_command(command, old(self).node_table()[id].command))
                &&& final(self).retired() == old(self).retired()
                &&& final(self).ready_ids() == old(self).ready_ids()
                &&& final(self).blocked_count() == old(self).blocked_count()
                &&& forall|k: u64| final(self).is_blocked(k) == old(self).is_blocked(k)
            },
            outcome is Ok ==> {
                let n = old(self).ready_ids().len() as int;
                &&& r is Ok
                &&& final(self).retired() == old(self).retired().push(id)
                &&& final(self).ready_ids().len() >= n
                &&& final(self).ready_ids().subrange(0, n) == old(self).ready_ids()
                &&& forall|k: u64|
                    final(self).is_blocked(k) <==> old(self).is_blocked(k) && !final(self).deps_retired(k)
                &&& forall|k: u64|
                    final(self).ready_ids().subrange(n, final(self).ready_ids().len() as int).contains(k)
                        <==> old(self).is_blocked(k) && final(self).deps_retired(k)
                &&& final(self).blocked_count() + final(self).ready_ids().len()
                    == old(self).blocked_count() + n
                &&& final(self).blocked_count() <= old(self).blocked_count()
            },
    {
        let ghost pre = *self;
        match outcome {
            Err(reason) => {
                let command = self.jobs.get(&id).unwrap().command.duplicate();
                return Err(RunError::JobFailed { id, command, reason });
            },
            Ok(()) => {},
        }
        self.retired = Ghost(self.retired@.push(id));
        proof {
            assert(self.retired@.subrange(0, pre.retired@.len() as int) =~= pre.retired@);
            assert forall|d: u64| #[trigger] self.retired@.contains(d) <==> (pre.retired@.contains(d) || d == id) by {
                if pre.retired@.contains(d) {
                    let k = choose|k: int| 0 <= k < pre.retired@.len() && pre.retired@[k] == d;
                    assert(self.retired@[k] == d);
                }
                if d == id {
                    assert(self.retired@[pre.retired@.len() as int] == d);
                }
                if self.retired@.contains(d) && d != id {
                    let k = choose|k: int| 0 <= k < self.retired@.len() && self.retired@[k] == d;
                    assert(pre.retired@[k] == d);
                }
            }
            assert forall|i: int| 0 <= i < self.blocked@.len() implies pre.blocked_entry_ok(#[trigger] self.blocked@[i]) by {
                assert(pre.blocked_entry_ok(pre.blocked@[i]));
            }
        }
        let ghost mid = *self;
        let ghost base = self.ready@;
        let mut fresh: Vec<(u64, Vec<u64>)> = Vec::new();
        let mut i: usize = 0;
        while i < self.blocked.len()
            invariant
                mid.after_pop(pre, id),
                self.jobs == mid.jobs,
                self.blocked == mid.blocked,
                self.dispatched == mid.dispatched,
                self.retired == mid.retired,
                0 <= i <= self.blocked.len(),
                self.ready@.len() >= base.len(),
                self.ready@.subrange(0, base.len() as int) == base,
                base == mid.ready@,
                fresh@.len() + self.ready@.len() == base.len() + i,
                self.ready@.no_duplicates(),
                forall|j: int| 0 <= j < fresh@.len() ==> mid.blocked_entry_ok(#[trigger] fresh@[j]),
                forall|j: int, m: int| 0 <= j < m < fresh@.len() ==> (#[trigger] fresh@[j]).0 != (#[trigger] fresh@[m]).0,
                forall|j: int| 0 <= j < fresh@.len() ==> exists|m: int| 0 <= m < i && (#[trigger] fresh@[j]).0 == (#[trigger] mid.blocked@[m]).0,
                forall|j: int| base.len() <= j < self.ready@.len() ==> exists|m: int| 0 <= m < i && (#[trigger] self.ready@[j]) == (#[trigger] mid.blocked@[m]).0,
                forall|j: int| base.len() <= j < self.ready@.len() ==> mid.deps_retired(#[trigger] self.ready@[j]),
                forall|j: int, m: int| 0 <= j < fresh@.len() && base.len() <= m < self.ready@.len() ==> (#[trigger] fresh@[j]).0 != #[trigger] self.ready@[m],
                forall|m: int| 0 <= m < i ==> keyed_in(fresh@, mid.blocked@[m].0) || self.ready@.subrange(base.len() as int, self.ready@.len() as int).contains(mid.blocked@[m].0),
            decreases self.blocked.len() - i,
        {
            let k = self.blocked[i].0;
            let ghost fresh0 = fresh@;
            let ghost ready0 = self.ready@;
            let ws = Self::without(&self.blocked[i].1, id);
            assert(pre.blocked_entry_ok(mid.blocked@[i as int]));
            assert(k != id) by {
                if k == id {
                    assert(pre.blocked@[i as int].0 == id);
                }
            }
            if ws.len() == 0 {
                let ghost before = self.ready@;
                self.ready.push(k);
                assert(self.ready@.subrange(0, base.len() as int) =~= before.subrange(0, base.len() as int));
                assert(mid.deps_retired(k)) by {
                    assert forall|d: u64| #[trigger] mid.deps(k).contains(d) implies mid.retired().contains(d) by {
                        if !mid.retired().contains(d) {
                            assert(mid.retired().contains(d) <==> (pre.retired@.contains(d) || d == id));
                            assert(d != id);
                            assert(!pre.retired().contains(d));
                            assert(ws@.contains(d));
                        }
                    }
                }
                assert(!before.contains(k)) by {
                    if before.contains(k) {
                        let j = choose|j: int| 0 <= j < before.len() && before[j] == k;
                        if j < base.len() {
                            assert(before.subrange(0, base.len() as int)[j] == before[j]);
                            assert(base[j] == pre.ready@[j]);
                            assert(pre.ready@[j] == k);
                            assert(pre.is_blocked(k));
                        } else {
                            let m = choose|m: int| 0 <= m < i && before[j] == mid.blocked@[m].0;
                        }
                    }
                }
            } else {
                assert(ws@.len() > 0);
                let ghost e = (k, ws);
                assert forall|d: u64| e.1@.contains(d) <==> mid.deps(e.0).contains(d) && !mid.retired().contains(d) by {
                    assert(mid.retired().contains(d) <==> (pre.retired@.contains(d) || d == id));
                }
                assert(mid.node_table().contains_key(e.0));
                assert(!mid.dispatched().contains(e.0));
                assert(e.1@.len() > 0);
                assert(mid.blocked_entry_ok(e));
                fresh.push((k, ws));
            }
            proof {
                assert forall|m: int| 0 <= m < i + 1 implies keyed_in(fresh@, mid.blocked@[m].0) || self.ready@.subrange(base.len() as int, self.ready@.len() as int).contains(mid.blocked@[m].0) by {
                    let key = mid.blocked@[m].0;
                    let tail0 = ready0.subrange(base.len() as int, ready0.len() as int);
                    let tail = self.ready@.subrange(base.len() as int, self.ready@.len() as int);
                    if m == i {
                        if ws@.len() == 0 {
                            assert(tail[tail.len() - 1] == k);
                        } else {
                            assert(fresh@[fresh@.len() - 1].0 == k);
                        }
                    } else {
                        if keyed_in(fresh0, key) {
                            let j = choose|j: int| 0 <= j < fresh0.len() && (#[trigger] fresh0[j]).0 == key;
                            assert(fresh@[j] == fresh0[j]);
                        } else {
                            assert(tail0.contains(key));
                            let j = choose|j: int| 0 <= j < tail0.len() && tail0[j] == key;
                            assert(tail[j] == key);
                        }
                    }
                }
            }
            i = i + 1;
        }
        let ghost fr = fresh@;
        self.blocked = fresh;
        proof {
            assert(self.blocked@ == fr);
            let tail = self.ready@.subrange(base.len() as int, self.ready@.len() as int);
            assert forall|j: int| 0 <= j < base.len() implies (#[trigger] self.ready@[j]) == pre.ready@[j] && pre.ready@[j] != id by {
                assert(self.ready@.subrange(0, base.len() as int)[j] == self.ready@[j]);
            }
            assert forall|i: int| 0 <= i < self.blocked@.len() implies self.blocked_entry_ok(#[trigger] self.blocked@[i]) by {
                assert(mid.blocked_entry_ok(self.blocked@[i]));
            }
            assert forall|i: int| 0 <= i < self.ready@.len() implies {
                let k = #[trigger] self.ready@[i];
                &&& self.node_table().contains_key(k)
                &&& !self.dispatched().contains(k)
                &&& self.deps_retired(k)
                &&& !self.is_blocked(k)
            } by {
                let k = self.ready@[i];
                if i < base.len() {
                    assert(pre.ready@[i] == k);
                    assert(!pre.is_blocked(k));
                    assert(pre.deps_retired(k));
                    assert forall|d: u64| #[trigger] self.deps(k).contains(d) implies self.retired().contains(d) by {
                        assert(self.node_table() == pre.node_table());
                        assert(pre.deps(k).contains(d));
                        assert(pre.retired().contains(d));
                    }
                    if self.is_blocked(k) {
                        let j = choose|j: int| 0 <= j < self.blocked@.len() && (#[trigger] self.blocked@[j]).0 == k;
                        let m = choose|m: int| 0 <= m < i && (#[trigger] self.blocked@[j]).0 == (#[trigger] mid.blocked@[m]).0;
                        let m = choose|m: int| 0 <= m < mid.blocked@.len() && self.blocked@[j].0 == (#[trigger] mid.blocked@[m]).0;
                        assert(pre.blocked@[m].0 == k);
                    }
                } else {
                    let m = choose|m: int| 0 <= m < mid.blocked@.len() && k == (#[trigger] mid.blocked@[m]).0;
                    assert(pre.blocked_entry_ok(pre.blocked@[m]));
                    assert(k != id) by {
                        if k == id {
                            assert(pre.is_blocked(id));
                        }
                    }
                    assert(mid.deps_retired(k));
                    assert forall|d: u64| #[trigger] self.deps(k).contains(d) implies self.retired().contains(d) by {
                        assert(mid.deps(k).contains(d));
                    }
                    if self.is_blocked(k) {
                        let j = choose|j: int| 0 <= j < self.blocked@.len() && (#[trigger] self.blocked@[j]).0 == k;
                        assert(fr[j].0 != self.ready@[i]);
                    }
                }
            }
            assert forall|i: int, d: u64| 0 <= i < self.retired().len() && #[trigger] self.deps(self.retired()[i]).contains(d)
                implies self.retired().subrange(0, i).contains(d) by {
                if i < pre.retired().len() {
                    assert(self.retired()[i] == pre.retired()[i]);
                    assert(pre.deps(pre.retired()[i]).contains(d));
                    assert(pre.retired().subrange(0, i).contains(d));
                    assert(self.retired().subrange(0, i) =~= pre.retired().subrange(0, i));
                } else {
                    assert(self.retired()[i] == id);
                    assert(pre.deps_retired(id));
                    assert(pre.deps(id).contains(d));
                    assert(pre.retired().contains(d));
                    assert(self.retired().subrange(0, i) =~= pre.retired());
                }
            }
            assert(self.retired().no_duplicates()) by {
                assert(!pre.retired().contains(id));
                assert forall|i: int, j: int| 0 <= i < j < self.retired().len() implies self.retired()[i] != self.retired()[j] by {
                    if j == pre.retired().len() {
                        assert(self.retired()[i] == pre.retired()[i]);
                    } else {
                        assert(self.retired()[i] == pre.retired()[i] && self.retired()[j] == pre.retired()[j]);
                    }
                }
            }
            assert forall|k: u64| self.is_blocked(k) <==> pre.is_blocked(k) && !self.deps_retired(k) by {
                if self.is_blocked(k) {
                    let j = choose|j: int| 0 <= j < fr.len() && (#[trigger] fr[j]).0 == k;
                    let m = choose|m: int| 0 <= m < mid.blocked@.len() && fr[j].0 == (#[trigger] mid.blocked@[m]).0;
                    assert(pre.blocked@[m].0 == k);
                    assert(self.blocked_entry_ok(fr[j]));
                    let d = fr[j].1@[0];
                    assert(fr[j].1@.contains(d));
                }
                if pre.is_blocked(k) && !self.deps_retired(k) {
                    let m = choose|m: int| 0 <= m < pre.blocked@.len() && (#[trigger] pre.blocked@[m]).0 == k;
                    assert(mid.blocked@[m].0 == k);
                    if tail.contains(k) {
                        let j = choose|j: int| 0 <= j < tail.len() && tail[j] == k;
                        assert(self.ready@[base.len() + j] == k);
                        assert(mid.deps_retired(k));
                        assert forall|d: u64| #[trigger] self.deps(k).contains(d) implies self.retired().contains(d) by {
                            assert(mid.deps(k).contains(d));
                        }
                    }
                }
            }
            assert forall|k: u64| tail.contains(k) <==> pre.is_blocked(k) && self.deps_retired(k) by {
                if tail.contains(k) {
                    let j = choose|j: int| 0 <= j < tail.len() && tail[j] == k;
                    assert(self.ready@[base.len() + j] == k);
                    let m = choose|m: int| 0 <= m < mid.blocked@.len() && self.ready@[base.len() + j] == (#[trigger] mid.blocked@[m]).0;
                    assert(pre.blocked@[m].0 == k);
                    assert(mid.deps_retired(k));
                    assert forall|d: u64| #[trigger] self.deps(k).contains(d) implies self.retired().contains(d) by {
                        assert(mid.deps(k).contains(d));
                    }
                }
                if pre.is_blocked(k) && self.deps_retired(k) {
                    let m = choose|m: int| 0 <= m < pre.blocked@.len() && (#[trigger] pre.blocked@[m]).0 == k;
                    assert(mid.blocked@[m].0 == k);
                    if keyed_in(fr, k) {
                        let j = choose|j: int| 0 <= j < fr.len() && (#[trigger] fr[j]).0 == k;
                        assert(self.blocked_entry_ok(fr[j]));
                        let d = fr[j].1@[0];
                        assert(fr[j].1@.contains(d));
                    }
                }
            }
            assert forall|k: u64| #[trigger] self.node_table().contains_key(k) implies self.dispatched().contains(k)
                || self.ready@.contains(k) || self.is_blocked(k) by {
                if !self.dispatched().contains(k) {
                    if pre.ready@.contains(k) {
                        let i = choose|i: int| 0 <= i < pre.ready@.len() && pre.ready@[i] == k;
                        assert(i < base.len());
                        assert(self.ready@[i] == k);
                    } else {
                        assert(pre.is_blocked(k));
                        let m = choose|m: int| 0 <= m < pre.blocked@.len() && (#[trigger] pre.blocked@[m]).0 == k;
                        assert(mid.blocked@[m].0 == k);
                        if tail.contains(k) {
                            let j = choose|j: int| 0 <= j < tail.len() && tail[j] == k;
                            assert(self.ready@[base.len() + j] == k);
                        }
                    }
                }
            }
        }
        Ok(())
    }

    /// Pops the last ready job, hands its table entry to `runner`, and
    /// records the outcome as `complete` does.
    pub fn run_next<R: Runner>(&mut self, runner: &R) -> (r: Result<(), RunError>)
        requires
            old(self).wf(),
        ensures
            final(self).wf(),
            final(self).node_table() == old(self).node_table(),
            old(self).ready_ids().len() == 0 ==> {
                &&& final(self).ready_ids() == old(self).ready_ids()
                &&& final(self).blocked_count() == old(self).blocked_count()
                &&& final(self).dispatched() == old(self).dispatched()
                &&& final(self).retired() == old(self).retired()
                &&& forall|k: u64| final(self).is_blocked(k) == old(self).is_blocked(k)
                &&& old(self).blocked_count() == 0 ==> (r matches Err(RunError::NoReadyWork))
                &&& old(self).blocked_count() > 0 ==> (r matches Err(RunError::Deadlock { .. }))
            },
            old(self).ready_ids().len() > 0 ==> {
                let id = old(self).ready_ids().last();
                let n = old(self).ready_ids().len() - 1;
                &&& !old(self).dispatched().contains(id)
                &&& old(self).deps_retired(id)
                &&& final(self).dispatched() == old(self).dispatched().insert(id)
                &&& final(self).ready_ids().len() >= n
                &&& final(self).ready_ids().subrange(0, n) == old(self).ready_ids().drop_last()
                &&& match r {
                    Ok(()) => {
                        &&& final(self).retired() == old(self).retired().push(id)
                        &&& forall|k: u64|
                            final(self).is_blocked(k) <==> old(self).is_blocked(k)
                                && !final(self).deps_retired(k)
                        &&& forall|k: u64|
                            final(self).ready_ids().subrange(n, final(self).ready_ids().len() as int).contains(k)
                                <==> old(self).is_blocked(k) && final(self).deps_retired(k)
                        &&& final(self).blocked_count() + final(self).ready_ids().len()
                            == old(self).blocked_count() + n
                        &&& final(self).blocked_count() <= old(self).blocked_count()
                    },
                    Err(e) => {
                        &&& (e matches RunError::JobFailed { id: fid, command, .. } && fid == id
                            && same_command(command, old(self).node_table()[id].command))
                        &&& final(self).retired() == old(self).retired()
                        &&& final(self).ready_ids() == old(self).ready_ids().drop_last()
                        &&& final(self).blocked_count() == old(self).blocked_count()
                        &&& forall|k: u64| final(self).is_blocked(k) == old(self).is_blocked(k)
                    },
                }
            },
    {
        let id = match self.start_next() {
            Ok(id) => id,
            Err(e) => {
                return Err(e);
            },
        };
        let job = self.job(id).unwrap();
        let outcome = runner.run(job);
        let r = self.complete(id, outcome);
        proof {
            if r is Ok {
                assert(self.ready_ids().subrange(0, old(self).ready_ids().len() - 1) =~= self.ready_ids().subrange(0, old(self).ready_ids().len() - 1));
            }
        }
        r
    }
}

} // verus!

verus! {

proof fn no_member_retired_before(c: &Coordinator, cycle: Set<u64>, n: int)
    requires
        c.wf(),
        0 <= n <= c.retired().len(),
        forall|k: u64| #[trigger] cycle.contains(k) ==> exists|d: u64| cycle.contains(d) && #[trigger] c.deps(k).contains(d),
    ensures
        forall|i: int| 0 <= i < n ==> !cycle.contains(#[trigger] c.retired()[i]),
    decreases n,
{
    if n > 0 {
        no_member_retired_before(c, cycle, n - 1);
        let k = c.retired()[n - 1];
        if cycle.contains(k) {
            let d = choose|d: u64| cycle.contains(d) && #[trigger] c.deps(k).contains(d);
            assert(c.retired().subrange(0, n - 1).contains(d));
            let j = choose|j: int| 0 <= j < n - 1 && #[trigger] c.retired().subrange(0, n - 1)[j] == d;
            assert(c.retired()[j] == d);
        }
    }
}

/// A nonempty set of jobs in which every member waits on another member
/// (a dependency cycle) can never complete in full: some member is never
/// retired, so a run over such a graph ends in a deadlock or a failure.
pub proof fn cycle_never_completes(c: &Coordinator, cycle: Set<u64>)
    requires
        c.wf(),
        exists|k: u64| #[trigger] cycle.contains(k),
        forall|k: u64| #[trigger] cycle.contains(k) ==> exists|d: u64| cycle.contains(d) && #[trigger] c.deps(k).contains(d),
    ensures
        exists|k: u64| #[trigger] cycle.contains(k) && !c.retired().contains(k),
{
    let k = choose|k: u64| #[trigger] cycle.contains(k);
    if c.retired().contains(k) {
        no_member_retired_before(c, cycle, c.retired().len() as int);
        let i = choose|i: int| 0 <= i < c.retired().len() && c.retired()[i] == k;
        assert(!cycle.contains(c.retired()[i]));
    }
}

} // verus!
