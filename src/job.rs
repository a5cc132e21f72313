//! The job tree handed to the scheduler, and the content identity of a job.
use std::collections::hash_map::DefaultHasher;
use std::hash::Hasher;
use vstd::prelude::*;
use vstd::std_specs::hash::DefaultHasherAdditionalSpecFns;
use vstd::string::StringSliceAdditionalSpecFns;
use vstd::utf8::encode_utf8;

verus! {

/// A resolvable executable.
#[derive(Clone, Debug, PartialEq, Eq)]
pub enum Tool {
    /// A tool looked up on the host's executable search path.
    SystemTool { name: String },
}

/// A tool plus its ordered arguments.
#[derive(Clone, Debug, PartialEq, Eq)]
pub struct Command {
    pub tool: Tool,
    pub args: Vec<String>,
}

/// A unit of build work. `inputs` maps each dependency name to the job that
/// produces it; the tree owns its subtrees.
pub struct Job {
    pub command: Command,
    pub inputs: Vec<(String, Job)>,
    pub input_files: Vec<String>,
    pub outputs: Vec<String>,
}

/// A whole build description: the job that defines "build done".
pub struct Rbt {
    pub default: Job,
}

/// The eight little-endian bytes of `x`.
pub open spec fn le_bytes(x: u64) -> Seq<u8> {
    seq![
        (x & 0xff) as u8,
        ((x >> 8u64) & 0xff) as u8,
        ((x >> 16u64) & 0xff) as u8,
        ((x >> 24u64) & 0xff) as u8,
        ((x >> 32u64) & 0xff) as u8,
        ((x >> 40u64) & 0xff) as u8,
        ((x >> 48u64) & 0xff) as u8,
        ((x >> 56u64) & 0xff) as u8,
    ]
}

/// The bytes written for one string: its UTF-8 length, then its UTF-8
/// bytes, so that the hasher's byte stream tells adjacent strings apart.
pub open spec fn framed(s: Seq<char>) -> Seq<u8> {
    le_bytes(encode_utf8(s).len() as u64) + encode_utf8(s)
}

/// Hasher writes for a list of strings: its length, then each framed string.
pub open spec fn strings_writes(items: Seq<String>) -> Seq<Seq<u8>> {
    seq![le_bytes(items.len() as u64)] + items.map_values(|s: String| framed(s@))
}

/// Hasher writes for a list of identities: its length, then each identity.
pub open spec fn ids_writes(ids: Seq<u64>) -> Seq<Seq<u8>> {
    seq![le_bytes(ids.len() as u64)] + ids.map_values(|d: u64| le_bytes(d))
}

/// Hasher writes for a tool: a variant tag, then its payload.
pub open spec fn tool_writes(t: Tool) -> Seq<Seq<u8>> {
    match t {
        Tool::SystemTool { name } => seq![seq![0u8], framed(name@)],
    }
}

pub open spec fn command_writes(c: Command) -> Seq<Seq<u8>> {
    tool_writes(c.tool) + strings_writes(c.args@)
}

impl Tool {
    /// A copy of this tool.
    pub fn duplicate(&self) -> (r: Tool)
        ensures
            r == *self,
    {
        match self {
            Tool::SystemTool { name } => Tool::SystemTool { name: name.clone() },
        }
    }
}

/// A copy of `v`, string by string.
pub fn copy_strings(v: &Vec<String>) -> (r: Vec<String>)
    ensures
        r@ == v@,
{
    let mut r: Vec<String> = Vec::new();
    let mut i: usize = 0;
    while i < v.len()
        invariant
            0 <= i <= v.len(),
            r@ == v@.subrange(0, i as int),
        decreases v.len() - i,
    {
        r.push(v[i].clone());
        assert(r@ =~= v@.subrange(0, i + 1));
        i = i + 1;
    }
    assert(v@.subrange(0, v.len() as int) =~= v@);
    r
}

impl Command {
    /// A copy of this command: the same tool and the same arguments.
    pub fn duplicate(&self) -> (r: Command)
        ensures
            r.tool == self.tool,
            r.args@ == self.args@,
    {
        Command { tool: self.tool.duplicate(), args: copy_strings(&self.args) }
    }
}

/// Everything a job's identity is computed from, given the identities of
/// its dependencies (in the order of `inputs`).
pub open spec fn job_writes(j: Job, dep_ids: Seq<u64>) -> Seq<Seq<u8>> {
    command_writes(j.command) + ids_writes(dep_ids) + strings_writes(j.input_files@)
        + strings_writes(j.outputs@)
}

/// Identities of the first `n` dependencies of `j`.
pub open spec fn first_dep_ids(j: Job, n: int) -> Seq<u64>
    decreases j, n,
{
    if n <= 0 || n > j.inputs.len() {
        seq![]
    } else {
        first_dep_ids(j, n - 1).push(job_id(j.inputs@[n - 1].1))
    }
}

/// Identities of all dependencies of `j`, in the order of `inputs`.
pub open spec fn dep_ids(j: Job) -> Seq<u64> {
    first_dep_ids(j, j.inputs.len() as int)
}

/// The content identity of a job: the digest of its command, the identities
/// of its dependencies, its input files and its outputs.
pub open spec fn job_id(j: Job) -> u64
    decreases j, j.inputs.len() + 1,
{
    DefaultHasher::spec_finish(job_writes(j, first_dep_ids(j, j.inputs.len() as int)))
}


/// The nodes of the subtrees of the first `n` dependencies of `j`.
pub open spec fn first_subtrees(j: Job, n: int) -> Seq<Job>
    decreases j, n,
{
    if n <= 0 || n > j.inputs.len() {
        seq![]
    } else {
        first_subtrees(j, n - 1) + tree_nodes(j.inputs@[n - 1].1)
    }
}

/// Every node of the tree rooted at `j`, `j` first, shared subjobs once per
/// occurrence.
pub open spec fn tree_nodes(j: Job) -> Seq<Job>
    decreases j, j.inputs.len() + 1,
{
    seq![j] + first_subtrees(j, j.inputs.len() as int)
}

/// The number of tree nodes under the jobs of `s`.
pub open spec fn forest_size(s: Seq<&Job>) -> nat
    decreases s.len(),
{
    if s.len() == 0 {
        0
    } else {
        forest_size(s.drop_last()) + tree_nodes(*s.last()).len()
    }
}

/// A node of the subtrees of the first `m` dependencies of `j` lies in the
/// subtree of one of them.
pub proof fn lemma_in_subtrees(j: Job, m: int, n: Job)
    requires
        0 <= m <= j.inputs.len(),
        first_subtrees(j, m).contains(n),
    ensures
        exists|i: int| 0 <= i < m && tree_nodes(#[trigger] j.inputs@[i].1).contains(n),
    decreases m,
{
    if m > 0 {
        let a = first_subtrees(j, m - 1);
        let b = tree_nodes(j.inputs@[m - 1].1);
        assert(first_subtrees(j, m) == a + b);
        let idx = choose|idx: int| 0 <= idx < (a + b).len() && (a + b)[idx] == n;
        if idx < a.len() {
            assert(a[idx] == n);
            lemma_in_subtrees(j, m - 1, n);
        } else {
            assert(b[idx - a.len()] == n);
        }
    }
}

/// A node of the tree rooted at `j` is `j` itself or a node of the subtree
/// of one of its dependencies.
pub proof fn lemma_tree_node_cases(j: Job, n: Job)
    requires
        tree_nodes(j).contains(n),
    ensures
        n == j || exists|i: int| 0 <= i < j.inputs.len() && tree_nodes(#[trigger] j.inputs@[i].1).contains(n),
{
    let f = first_subtrees(j, j.inputs.len() as int);
    let idx = choose|idx: int| 0 <= idx < tree_nodes(j).len() && tree_nodes(j)[idx] == n;
    if idx > 0 {
        assert(f[idx - 1] == n);
        lemma_in_subtrees(j, j.inputs.len() as int, n);
    }
}

/// The subtree of each of the first `m` dependencies of `j` lies among
/// their combined nodes.
pub proof fn lemma_subtree_within(j: Job, m: int, i: int, n: Job)
    requires
        0 <= i < m <= j.inputs.len(),
        tree_nodes(j.inputs@[i].1).contains(n),
    ensures
        first_subtrees(j, m).contains(n),
    decreases m,
{
    let a = first_subtrees(j, m - 1);
    let b = tree_nodes(j.inputs@[m - 1].1);
    assert(first_subtrees(j, m) == a + b);
    if i < m - 1 {
        lemma_subtree_within(j, m - 1, i, n);
        let k = choose|k: int| 0 <= k < a.len() && a[k] == n;
        assert((a + b)[k] == n);
    } else {
        let k = choose|k: int| 0 <= k < b.len() && b[k] == n;
        assert((a + b)[a.len() + k] == n);
    }
}

/// Each node of a subtree of `j` is a node of the tree rooted at `j`.
pub proof fn lemma_subtree_nodes(j: Job, i: int, n: Job)
    requires
        0 <= i < j.inputs.len(),
        tree_nodes(j.inputs@[i].1).contains(n),
    ensures
        tree_nodes(j).contains(n),
{
    lemma_subtree_within(j, j.inputs.len() as int, i, n);
    let f = first_subtrees(j, j.inputs.len() as int);
    let k = choose|k: int| 0 <= k < f.len() && f[k] == n;
    assert(tree_nodes(j)[k + 1] == n);
}

/// The dependencies of a node of a tree are nodes of that tree too.
pub proof fn lemma_child_in_tree(t: Job, x: Job, i: int)
    requires
        tree_nodes(t).contains(x),
        0 <= i < x.inputs.len(),
    ensures
        tree_nodes(t).contains(x.inputs@[i].1),
    decreases t,
{
    let c = x.inputs@[i].1;
    assert(tree_nodes(c)[0] == c);
    lemma_tree_node_cases(t, x);
    if x == t {
        lemma_subtree_nodes(t, i, c);
    } else {
        let k = choose|k: int| 0 <= k < t.inputs.len() && tree_nodes(#[trigger] t.inputs@[k].1).contains(x);
        vstd::std_specs::vec::axiom_vec_index_decreases(t.inputs, k);
        lemma_child_in_tree(t.inputs@[k].1, x, i);
        lemma_subtree_nodes(t, k, c);
    }
}

/// There are `m` identities among the first `m` dependencies.
pub proof fn lemma_first_dep_ids_len(j: Job, m: int)
    requires
        0 <= m <= j.inputs.len(),
    ensures
        first_dep_ids(j, m).len() == m,
    decreases m,
{
    if m > 0 {
        lemma_first_dep_ids_len(j, m - 1);
    }
}

/// The `i`-th of the first `m` dependency identities of `j` is the identity
/// of its `i`-th dependency.
pub proof fn lemma_first_dep_ids_index(j: Job, m: int, i: int)
    requires
        0 <= i < m <= j.inputs.len(),
    ensures
        first_dep_ids(j, m).len() == m,
        first_dep_ids(j, m)[i] == job_id(j.inputs@[i].1),
    decreases m,
{
    if i < m - 1 {
        lemma_first_dep_ids_index(j, m - 1, i);
    } else if m > 1 {
        lemma_first_dep_ids_index(j, m - 1, 0);
    } else {
        assert(first_dep_ids(j, 0).len() == 0);
    }
}

/// Identity tells the nodes of the tree rooted at `t` apart.
pub open spec fn ids_distinguish_nodes(t: Job) -> bool {
    forall|a: Job, b: Job|
        tree_nodes(t).contains(a) && tree_nodes(t).contains(b) && #[trigger] job_id(a) == #[trigger] job_id(b)
            ==> a == b
}

/// Every tree has a node without dependencies.
pub proof fn lemma_tree_has_leaf(t: Job)
    ensures
        exists|l: Job| #[trigger] tree_nodes(t).contains(l) && l.inputs.len() == 0,
    decreases t,
{
    if t.inputs.len() == 0 {
        assert(tree_nodes(t)[0] == t);
        assert(tree_nodes(t).contains(t) && t.inputs.len() == 0);
    } else {
        vstd::std_specs::vec::axiom_vec_index_decreases(t.inputs, 0);
        let c = t.inputs@[0].1;
        lemma_tree_has_leaf(c);
        let l = choose|l: Job| #[trigger] tree_nodes(c).contains(l) && l.inputs.len() == 0;
        lemma_subtree_nodes(t, 0, l);
        assert(tree_nodes(t).contains(l) && l.inputs.len() == 0);
    }
}

fn le_bytes_of(x: u64) -> (r: Vec<u8>)
    ensures
        r@ == le_bytes(x),
{
    let mut r: Vec<u8> = Vec::new();
    r.push((x & 0xff) as u8);
    r.push(((x >> 8u64) & 0xff) as u8);
    r.push(((x >> 16u64) & 0xff) as u8);
    r.push(((x >> 24u64) & 0xff) as u8);
    r.push(((x >> 32u64) & 0xff) as u8);
    r.push(((x >> 40u64) & 0xff) as u8);
    r.push(((x >> 48u64) & 0xff) as u8);
    r.push(((x >> 56u64) & 0xff) as u8);
    assert(r@ =~= le_bytes(x));
    r
}

fn write_str(h: &mut DefaultHasher, s: &String)
    ensures
        final(h)@ == old(h)@.push(framed(s@)),
{
    let b = s.as_str().as_bytes();
    let mut v = le_bytes_of(b.len() as u64);
    let mut i: usize = 0;
    while i < b.len()
        invariant
            0 <= i <= b@.len(),
            b@ == encode_utf8(s@),
            v@ == le_bytes(b@.len() as u64) + b@.subrange(0, i as int),
        decreases b@.len() - i,
    {
        v.push(b[i]);
        assert(b@.subrange(0, i + 1) =~= b@.subrange(0, i as int).push(b@[i as int]));
        i = i + 1;
    }
    assert(b@.subrange(0, b@.len() as int) =~= b@);
    h.write(v.as_slice());
}

fn write_strings(h: &mut DefaultHasher, items: &Vec<String>)
    ensures
        final(h)@ == old(h)@ + strings_writes(items@),
{
    let n = le_bytes_of(items.len() as u64);
    h.write(n.as_slice());
    let ghost start = h@;
    let mut i: usize = 0;
    while i < items.len()
        invariant
            0 <= i <= items.len(),
            h@ == start + items@.subrange(0, i as int).map_values(|s: String| framed(s@)),
        decreases items.len() - i,
    {
        write_str(h, &items[i]);
        assert(items@.subrange(0, i + 1).map_values(|s: String| framed(s@)) =~= items@.subrange(
            0,
            i as int,
        ).map_values(|s: String| framed(s@)).push(framed(items@[i as int]@)));
        i = i + 1;
    }
    assert(items@.subrange(0, items.len() as int) =~= items@);
    assert(old(h)@ + strings_writes(items@) =~= start + items@.map_values(|s: String| framed(s@)));
}

fn write_ids(h: &mut DefaultHasher, ids: &Vec<u64>)
    ensures
        final(h)@ == old(h)@ + ids_writes(ids@),
{
    let n = le_bytes_of(ids.len() as u64);
    h.write(n.as_slice());
    let ghost start = h@;
    let mut i: usize = 0;
    while i < ids.len()
        invariant
            0 <= i <= ids.len(),
            h@ == start + ids@.subrange(0, i as int).map_values(|d: u64| le_bytes(d)),
        decreases ids.len() - i,
    {
        let b = le_bytes_of(ids[i]);
        h.write(b.as_slice());
        assert(ids@.subrange(0, i + 1).map_values(|d: u64| le_bytes(d)) =~= ids@.subrange(
            0,
            i as int,
        ).map_values(|d: u64| le_bytes(d)).push(le_bytes(ids@[i as int])));
        i = i + 1;
    }
    assert(ids@.subrange(0, ids.len() as int) =~= ids@);
    assert(old(h)@ + ids_writes(ids@) =~= start + ids@.map_values(|d: u64| le_bytes(d)));
}

fn write_command(h: &mut DefaultHasher, c: &Command)
    ensures
        final(h)@ == old(h)@ + command_writes(*c),
{
    match &c.tool {
        Tool::SystemTool { name } => {
            let tag: Vec<u8> = vec![0u8];
            assert(tag@ =~= seq![0u8]);
            h.write(tag.as_slice());
            write_str(h, name);
            assert(h@ =~= old(h)@ + tool_writes(c.tool));
        },
    }
    write_strings(h, &c.args);
    assert(old(h)@ + command_writes(*c) =~= h@);
}

/// The identity of a job whose dependencies have the identities `dep_ids`
/// (in the order of `job.inputs`).
pub fn identity_from_deps(job: &Job, dep_ids: &Vec<u64>) -> (r: u64)
    ensures
        r == DefaultHasher::spec_finish(job_writes(*job, dep_ids@)),
{
    let mut h = DefaultHasher::new();
    write_command(&mut h, &job.command);
    write_ids(&mut h, dep_ids);
    write_strings(&mut h, &job.input_files);
    write_strings(&mut h, &job.outputs);
    assert(h@ =~= job_writes(*job, dep_ids@));
    h.finish()
}

/// The identities of the direct dependencies of `job`, in the order of
/// `job.inputs`.
pub fn dependency_identities(job: &Job) -> (r: Vec<u64>)
    ensures
        r@ == dep_ids(*job),
        r@.len() == job.inputs.len(),
    decreases job, 0int,
{
    let mut r: Vec<u64> = Vec::new();
    let mut i: usize = 0;
    while i < job.inputs.len()
        invariant
            0 <= i <= job.inputs.len(),
            r@ == first_dep_ids(*job, i as int),
            r@.len() == i,
        decreases job.inputs.len() - i,
    {
        proof {
            vstd::std_specs::vec::axiom_vec_index_decreases(job.inputs, i as int);
        }
        let d = identity(&job.inputs[i].1);
        r.push(d);
        i = i + 1;
    }
    r
}

/// The content identity of `job`.
pub fn identity(job: &Job) -> (r: u64)
    ensures
        r == job_id(*job),
    decreases job, 1int,
{
    let ids = dependency_identities(job);
    identity_from_deps(job, &ids)
}

} // verus!
