//! The profile aggregator: a CPU flame graph merged from native stack
//! samples and a GPU utilization tree merged from telemetry ticks.

use vstd::prelude::*;

use crate::flame::{
    add_path, add_path_tree, cap_trees, frames_view, height, max_height, lemma_count_ge_props,
    lemma_max_height, lemma_sort_cap_all, lemma_sort_desc, lemma_sum_values_add,
    lemma_sum_values_nonneg, lemma_trees_of, other_node, sort_and_cap, sort_cap_all,
    sort_cap_tree, sort_desc, sum_values, tails_fit, lemma_all_tails_fit, kept, lemma_kept, lemma_max_height_le, lemma_sum_values_prefix, tree_of, trees_of, FlameNode,
    FlameTree, MAX_CHILDREN_PER_NODE,
};
use crate::counts::{lemma_merge_keeps_tidy, lemma_root_tidy, names_unique, positive, tidy, within_cap};
use crate::stacks::{stacks_view, strings_view};
use crate::text::{chars_of, push_all, push_char, string_of};
use crate::types::{FlameKind, FlameProfile, GpuUtilSource};

verus! {

// ---------------------------------------------------------------------------
// Inclusive trees
// ---------------------------------------------------------------------------

/// Every node's value is at least the sum of its children's values: what
/// holds of inclusive sample counts.
pub open spec fn inclusive(t: FlameTree) -> bool
    decreases t,
{
    &&& sum_values(t.children) <= t.value
    &&& all_inclusive(t.children)
}

pub open spec fn all_inclusive(cs: Seq<FlameTree>) -> bool
    decreases cs,
{
    if cs.len() == 0 {
        true
    } else {
        all_inclusive(cs.drop_last()) && inclusive(cs.last())
    }
}

pub proof fn lemma_all_inclusive(cs: Seq<FlameTree>)
    ensures
        all_inclusive(cs) <==> forall|i: int| 0 <= i < cs.len() ==> #[trigger] inclusive(cs[i]),
    decreases cs.len(),
{
    if cs.len() > 0 {
        lemma_all_inclusive(cs.drop_last());
        if all_inclusive(cs) {
            assert forall|i: int| 0 <= i < cs.len() implies #[trigger] inclusive(cs[i]) by {
                if i < cs.len() - 1 {
                    assert(cs.drop_last()[i] == cs[i]);
                }
            }
        }
        if forall|i: int| 0 <= i < cs.len() ==> #[trigger] inclusive(cs[i]) {
            assert forall|i: int| 0 <= i < cs.len() - 1 implies #[trigger] inclusive(
                cs.drop_last()[i],
            ) by {
                assert(cs.drop_last()[i] == cs[i]);
                assert(inclusive(cs[i]));
            }
            assert(inclusive(cs[cs.len() - 1]));
        }
    }
}

/// The children of an inclusive tree are inclusive and count no more than
/// their parent.
pub proof fn lemma_inclusive_child(t: FlameTree, i: int)
    requires
        inclusive(t),
        0 <= i < t.children.len(),
    ensures
        inclusive(t.children[i]),
        t.children[i].value <= t.value,
{
    lemma_all_inclusive(t.children);
    lemma_sum_values_update(t.children, i, t.children[i]);
}

/// A fresh leaf is inclusive.
pub proof fn lemma_leaf_inclusive(name: Seq<char>)
    ensures
        inclusive(crate::flame::leaf(name)),
{
    let l = crate::flame::leaf(name);
    lemma_all_inclusive(l.children);
}

/// An inclusive tree has no tail of siblings whose sum goes beyond a `u64`.
pub proof fn lemma_inclusive_tails_fit(t: FlameTree)
    requires
        inclusive(t),
    ensures
        tails_fit(t),
    decreases t,
{
    let cs = t.children;
    lemma_all_inclusive(cs);
    assert forall|i: int| 0 <= i < cs.len() implies #[trigger] tails_fit(cs[i]) by {
        lemma_inclusive_tails_fit(cs[i]);
    }
    lemma_kept(cs);
    let kp = kept(cs);
    assert forall|i: int| 0 <= i < kp.len() implies #[trigger] tails_fit(kp[i]) by {
        let j = choose|j: int| 0 <= j < cs.len() && #[trigger] kp[i] == cs[j];
        assert(tails_fit(cs[j]));
    }
    lemma_all_tails_fit(kp);
    lemma_sort_desc(cs);
    let s = sort_desc(cs);
    if s.len() > MAX_CHILDREN_PER_NODE {
        lemma_sum_values_prefix(s, MAX_CHILDREN_PER_NODE as int);
    }
}

proof fn lemma_sum_values_update(s: Seq<FlameTree>, i: int, x: FlameTree)
    requires
        0 <= i < s.len(),
    ensures
        sum_values(s.update(i, x)) == sum_values(s) - s[i].value + x.value,
        s[i].value <= sum_values(s),
{
    let a = s.subrange(0, i);
    let b = s.subrange(i + 1, s.len() as int);
    assert(s =~= a + seq![s[i]] + b);
    assert(s.update(i, x) =~= a + seq![x] + b);
    lemma_sum_values_add(a + seq![s[i]], b);
    lemma_sum_values_add(a, seq![s[i]]);
    lemma_sum_values_add(a + seq![x], b);
    lemma_sum_values_add(a, seq![x]);
    assert(seq![s[i]].drop_last() =~= Seq::<FlameTree>::empty());
    assert(seq![x].drop_last() =~= Seq::<FlameTree>::empty());
    lemma_sum_values_nonneg(a);
    lemma_sum_values_nonneg(b);
    crate::flame::lemma_sum_values_single(s[i]);
    crate::flame::lemma_sum_values_single(x);
}

/// Merging a stack into an inclusive tree, without saturating, keeps it
/// inclusive and adds the weight at the root.
pub proof fn lemma_add_path_inclusive(t: FlameTree, frames: Seq<Seq<char>>, w: u64)
    requires
        inclusive(t),
        t.value + w <= u64::MAX,
    ensures
        inclusive(add_path_tree(t, frames, w)),
        add_path_tree(t, frames, w).value == t.value + w,
        add_path_tree(t, frames, w).name == t.name,
    decreases frames.len(),
{
    let r = add_path_tree(t, frames, w);
    lemma_all_inclusive(t.children);
    if frames.len() > 0 {
        let i = crate::flame::find_child(t.children, frames[0]);
        if 0 <= i < t.children.len() {
            let c = t.children[i];
            lemma_sum_values_update(t.children, i, add_path_tree(c, frames.drop_first(), w));
            assert(inclusive(c));
            lemma_add_path_inclusive(c, frames.drop_first(), w);
            let nc = t.children.update(i, add_path_tree(c, frames.drop_first(), w));
            assert forall|j: int| 0 <= j < nc.len() implies #[trigger] inclusive(nc[j]) by {
                if j != i {
                    assert(nc[j] == t.children[j]);
                }
            }
            lemma_all_inclusive(nc);
        } else {
            let l = crate::flame::leaf(frames[0]);
            assert(sum_values(l.children) == 0);
            lemma_all_inclusive(l.children);
            lemma_add_path_inclusive(l, frames.drop_first(), w);
            let x = add_path_tree(l, frames.drop_first(), w);
            let nc = t.children.push(x);
            assert(nc.drop_last() =~= t.children);
            assert forall|j: int| 0 <= j < nc.len() implies #[trigger] inclusive(nc[j]) by {
                if j < t.children.len() {
                    assert(nc[j] == t.children[j]);
                }
            }
            lemma_all_inclusive(nc);
        }
    }
}

/// Capping keeps the total value of a set of siblings.
pub proof fn lemma_cap_sum(x: Seq<FlameTree>)
    requires
        sum_values(x) <= u64::MAX,
    ensures
        sum_values(cap_trees(x)) == sum_values(x),
{
    let m = MAX_CHILDREN_PER_NODE as int;
    if x.len() > m {
        let a = x.subrange(0, m);
        let rest = x.subrange(m, x.len() as int);
        assert(x =~= a + rest);
        lemma_sum_values_add(a, rest);
        let tail = sum_values(rest);
        lemma_sum_values_nonneg(rest);
        lemma_sum_values_nonneg(a);
        if tail > 0 {
            let o = other_node(rest.len(), tail as u64);
            lemma_sum_values_add(a, seq![o]);
            assert(seq![o].drop_last() =~= Seq::<FlameTree>::empty());
            assert(a.push(o) =~= a + seq![o]);
            crate::flame::lemma_sum_values_single(o);
        }
    }
}

/// Ordering and capping keeps a tree inclusive and keeps its root.
pub proof fn lemma_sort_cap_inclusive(t: FlameTree)
    requires
        inclusive(t),
    ensures
        inclusive(sort_cap_tree(t)),
        sort_cap_tree(t).value == t.value,
        sort_cap_tree(t).name == t.name,
    decreases t,
{
    let cs = t.children;
    lemma_all_inclusive(cs);
    lemma_sort_cap_all(cs);
    let f = sort_cap_all(cs);
    assert forall|i: int| 0 <= i < cs.len() implies #[trigger] inclusive(f[i]) by {
        lemma_sort_cap_inclusive(cs[i]);
    }
    crate::flame::lemma_sum_values_pointwise(cs, f);
    lemma_sort_desc(f);
    let s = sort_desc(f);
    lemma_cap_sum(s);
    let k = cap_trees(s);
    let m = MAX_CHILDREN_PER_NODE as int;
    assert forall|j: int| 0 <= j < k.len() implies #[trigger] inclusive(k[j]) by {
        if j < s.len() && (s.len() <= m || j < m) {
            assert(k[j] == s[j]);
            let q = choose|q: int| 0 <= q < f.len() && s[j] == f[q];
            assert(inclusive(f[q]));
        } else {
            let rest = s.subrange(m, s.len() as int);
            assert(k[j] == other_node(rest.len(), sum_values(rest) as u64));
            assert(sum_values(k[j].children) == 0);
            lemma_all_inclusive(k[j].children);
        }
    }
    lemma_all_inclusive(k);
}

// ---------------------------------------------------------------------------
// Copying a tree
// ---------------------------------------------------------------------------

/// A deep copy of `n`.
pub fn clone_tree(n: &FlameNode) -> (r: FlameNode)
    ensures
        r@ == n@,
    decreases height(n@),
{
    let mut children: Vec<FlameNode> = Vec::new();
    let mut i: usize = 0;
    proof {
        lemma_trees_of(n.children@);
        lemma_max_height(n@.children);
    }
    while i < n.children.len()
        invariant
            i <= n.children.len(),
            children.len() == i,
            trees_of(n.children@).len() == n.children.len(),
            forall|j: int| 0 <= j < n.children.len() ==> #[trigger] trees_of(n.children@)[j]
                == tree_of(n.children@[j]),
            forall|j: int| 0 <= j < n.children.len() ==> height(#[trigger] trees_of(n.children@)[j])
                < height(n@),
            forall|j: int| 0 <= j < i ==> #[trigger] children@[j]@ == n.children@[j]@,
        decreases n.children.len() - i,
    {
        assert(height(n.children@[i as int]@) < height(n@)) by {
            assert(trees_of(n.children@)[i as int] == tree_of(n.children@[i as int]));
        }
        let c = clone_tree(&n.children[i]);
        children.push(c);
        i += 1;
    }
    let r = FlameNode { name: n.name.clone(), value: n.value, children };
    proof {
        lemma_trees_of(r.children@);
        lemma_trees_of(n.children@);
        assert forall|j: int| 0 <= j < n.children.len() implies #[trigger] trees_of(r.children@)[j]
            == trees_of(n.children@)[j] by {
            assert(r.children@[j]@ == n.children@[j]@);
        }
        assert(trees_of(r.children@) =~= trees_of(n.children@));
    }
    r
}

// ---------------------------------------------------------------------------
// The aggregator
// ---------------------------------------------------------------------------

/// The trees after `stacks` (each root first) are merged one by one with
/// weight 1; empty stacks are skipped.
pub open spec fn add_stacks(t: FlameTree, stacks: Seq<Seq<Seq<char>>>) -> FlameTree
    decreases stacks.len(),
{
    if stacks.len() == 0 {
        t
    } else {
        let t0 = add_stacks(t, stacks.drop_last());
        if stacks.last().len() == 0 {
            t0
        } else {
            add_path_tree(t0, stacks.last(), 1)
        }
    }
}

/// Number of non-empty stacks.
pub open spec fn nonempty_count(stacks: Seq<Seq<Seq<char>>>) -> nat
    decreases stacks.len(),
{
    if stacks.len() == 0 {
        0
    } else {
        nonempty_count(stacks.drop_last()) + if stacks.last().len() == 0 {
            0nat
        } else {
            1nat
        }
    }
}

proof fn lemma_nonempty_count_prefix(s: Seq<Seq<Seq<char>>>, i: int)
    requires
        0 <= i <= s.len(),
    ensures
        nonempty_count(s.take(i)) <= nonempty_count(s),
    decreases s.len() - i,
{
    if i < s.len() {
        lemma_nonempty_count_prefix(s, i + 1);
        assert(s.take(i + 1).drop_last() =~= s.take(i));
    } else {
        assert(s.take(i) =~= s);
    }
}

/// Merging a stack of `n` frames leaves a tree no taller than it was, or
/// than the stack's path with its root (`n + 1` levels).
pub proof fn lemma_add_path_height(t: FlameTree, frames: Seq<Seq<char>>, w: u64)
    ensures
        height(add_path_tree(t, frames, w)) <= if height(t) >= frames.len() + 1 {
            height(t)
        } else {
            frames.len() + 1
        },
    decreases frames.len(),
{
    let cs = t.children;
    let r = add_path_tree(t, frames, w);
    let h: nat = if max_height(cs) >= frames.len() {
        max_height(cs)
    } else {
        frames.len()
    };
    lemma_max_height(cs);
    if frames.len() > 0 {
        let ff = frames.drop_first();
        let i = crate::flame::find_child(cs, frames[0]);
        if 0 <= i < cs.len() {
            lemma_add_path_height(cs[i], ff, w);
            let u = cs.update(i, add_path_tree(cs[i], ff, w));
            assert forall|j: int| 0 <= j < u.len() implies height(#[trigger] u[j]) <= h by {
                if j != i {
                    assert(u[j] == cs[j]);
                }
            }
            lemma_max_height_le(u, h);
        } else {
            let l = crate::flame::leaf(frames[0]);
            assert(height(l) == 1) by {
                assert(max_height(l.children) == 0);
            }
            lemma_add_path_height(l, ff, w);
            let u = cs.push(add_path_tree(l, ff, w));
            assert forall|j: int| 0 <= j < u.len() implies height(#[trigger] u[j]) <= h by {
                if j < cs.len() {
                    assert(u[j] == cs[j]);
                }
            }
            lemma_max_height_le(u, h);
        }
    }
}

/// Ordering and capping never makes a tree taller.
pub proof fn lemma_sort_cap_height(t: FlameTree)
    ensures
        height(sort_cap_tree(t)) <= height(t),
    decreases t,
{
    let cs = t.children;
    lemma_max_height(cs);
    lemma_sort_cap_all(cs);
    let f = sort_cap_all(cs);
    assert forall|i: int| 0 <= i < f.len() implies height(#[trigger] f[i]) <= max_height(cs) by {
        lemma_sort_cap_height(cs[i]);
    }
    lemma_sort_desc(f);
    let s = sort_desc(f);
    let k = cap_trees(s);
    let m = MAX_CHILDREN_PER_NODE as int;
    assert forall|j: int| 0 <= j < k.len() implies height(#[trigger] k[j]) <= max_height(cs) by {
        if j < s.len() && (s.len() <= m || j < m) {
            assert(k[j] == s[j]);
            let q = choose|q: int| 0 <= q < f.len() && #[trigger] s[j] == f[q];
            assert(height(f[q]) <= max_height(cs));
        } else {
            let rest = s.subrange(m, s.len() as int);
            assert(k[j] == other_node(rest.len(), sum_values(rest) as u64));
            assert(max_height(k[j].children) == 0);
            assert(height(f[0]) <= max_height(cs));
        }
    }
    lemma_max_height_le(k, max_height(cs));
}

/// The name of the GPU tree's first level for a utilization source.
pub open spec fn gpu_source_frame(src: GpuUtilSource) -> Seq<char> {
    match src {
        GpuUtilSource::NvidiaSmi => "nvidia_smi"@,
        GpuUtilSource::EstimatedFromCpu => "host_estimate"@,
        GpuUtilSource::Mock => "mock_tracer"@,
    }
}

/// The two-level stack one telemetry tick adds to the GPU tree: the source,
/// then the whole-percent utilization with a `'%'`.
pub open spec fn gpu_stack(src: GpuUtilSource, pct_text: Seq<char>) -> Seq<Seq<char>> {
    seq![gpu_source_frame(src), pct_text.push('%')]
}

pub open spec fn root_tree(name: Seq<char>) -> FlameTree {
    FlameTree { name, value: 0, children: seq![] }
}

/// The GPU stack of one telemetry tick, as `gpu_stack` states it.
pub fn gpu_stack_from_telemetry(src: GpuUtilSource, pct_text: &str) -> (v: Vec<String>)
    ensures
        strings_view(v@) == gpu_stack(src, pct_text@),
{
    let first = match src {
        GpuUtilSource::NvidiaSmi => "nvidia_smi".to_owned(),
        GpuUtilSource::EstimatedFromCpu => "host_estimate".to_owned(),
        GpuUtilSource::Mock => "mock_tracer".to_owned(),
    };
    let mut pct = String::new();
    push_all(&mut pct, &chars_of(pct_text));
    push_char(&mut pct, '%');
    let mut v: Vec<String> = Vec::new();
    v.push(first);
    v.push(pct);
    assert(strings_view(v@) =~= gpu_stack(src, pct_text@));
    v
}

/// Merges telemetry into a GPU utilization tree and native stack samples
/// into a CPU flame graph.
pub struct ProfileAggregator {
    cpu_root: FlameNode,
    gpu_root: FlameNode,
    cpu_total: u64,
    gpu_total: u64,
}

impl ProfileAggregator {
    pub closed spec fn cpu_tree(&self) -> FlameTree {
        self.cpu_root@
    }

    pub closed spec fn gpu_tree(&self) -> FlameTree {
        self.gpu_root@
    }

    pub closed spec fn cpu_samples(&self) -> u64 {
        self.cpu_total
    }

    pub closed spec fn gpu_samples(&self) -> u64 {
        self.gpu_total
    }

    /// Both trees hold inclusive counts, and each root counts every sample
    /// merged into it.
    pub closed spec fn wf(&self) -> bool {
        &&& inclusive(self.cpu_root@)
        &&& inclusive(self.gpu_root@)
        &&& self.cpu_root.value == self.cpu_total
        &&& self.gpu_root.value == self.gpu_total
        &&& height(self.gpu_root@) <= 3
        &&& tidy(self.cpu_root@)
    }

    /// In every state an aggregator reaches, each node's value in either tree
    /// is at least the sum of its children's values, each root's value is
    /// the number of samples merged into that tree, and the GPU tree goes no
    /// deeper than two levels below its root (source, then utilization). In
    /// the CPU tree every node below the root counts at least one sample, and
    /// sibling names are distinct as long as no node has gone over the cap.
    pub broadcast proof fn lemma_wf(&self)
        requires
            self.wf(),
        ensures
            #[trigger] inclusive(self.cpu_tree()),
            inclusive(self.gpu_tree()),
            height(self.gpu_tree()) <= 3,
            positive(self.cpu_tree()),
            within_cap(self.cpu_tree()) ==> names_unique(self.cpu_tree()),
            self.cpu_tree().value == self.cpu_samples(),
            self.gpu_tree().value == self.gpu_samples(),
    {
    }

    /// An aggregator with empty `"cpu"` and `"gpu"` roots.
    pub fn new() -> (r: Self)
        ensures
            r.wf(),
            r.cpu_tree() == root_tree("cpu"@),
            r.gpu_tree() == root_tree("gpu"@),
            r.cpu_samples() == 0,
            r.gpu_samples() == 0,
    {
        let r = ProfileAggregator {
            cpu_root: FlameNode { name: "cpu".to_owned(), value: 0, children: Vec::new() },
            gpu_root: FlameNode { name: "gpu".to_owned(), value: 0, children: Vec::new() },
            cpu_total: 0,
            gpu_total: 0,
        };
        proof {
            lemma_trees_of(r.cpu_root.children@);
            lemma_trees_of(r.gpu_root.children@);
            assert(r.cpu_root@.children =~= seq![]);
            assert(r.gpu_root@.children =~= seq![]);
            lemma_all_inclusive(r.cpu_root@.children);
            lemma_all_inclusive(r.gpu_root@.children);
            lemma_root_tidy("cpu"@);
            assert(r.cpu_root@ == root_tree("cpu"@));
        }
        r
    }

    /// One telemetry tick: the tick's two-level GPU stack (`gpu_stack`) is
    /// merged into the GPU tree, which is then ordered and capped.
    pub fn ingest_telemetry(&mut self, src: GpuUtilSource, pct_text: &str)
        requires
            old(self).wf(),
            old(self).gpu_samples() < u64::MAX,
        ensures
            final(self).wf(),
            final(self).gpu_tree() == sort_cap_tree(
                add_path_tree(old(self).gpu_tree(), gpu_stack(src, pct_text@), 1),
            ),
            final(self).gpu_samples() == old(self).gpu_samples() + 1,
            final(self).cpu_tree() == old(self).cpu_tree(),
            final(self).cpu_samples() == old(self).cpu_samples(),
    {
        let stack = gpu_stack_from_telemetry(src, pct_text);
        proof {
            assert(frames_view(stack@) =~= strings_view(stack@));
            lemma_add_path_inclusive(self.gpu_root@, gpu_stack(src, pct_text@), 1);
            lemma_add_path_height(self.gpu_root@, gpu_stack(src, pct_text@), 1);
        }
        add_path(&mut self.gpu_root, stack.as_slice(), 1);
        self.gpu_total = self.gpu_total.saturating_add(1);
        proof {
            lemma_inclusive_tails_fit(self.gpu_root@);
            lemma_sort_cap_inclusive(self.gpu_root@);
            lemma_sort_cap_height(self.gpu_root@);
        }
        sort_and_cap(&mut self.gpu_root);
    }

    /// Merges native CPU stacks (each root first; empty ones skipped) into
    /// the CPU flame graph, which is then ordered and capped.
    pub fn merge_native_cpu(&mut self, stacks: &[Vec<String>])
        requires
            old(self).wf(),
            old(self).cpu_samples() + nonempty_count(stacks_view(stacks@)) <= u64::MAX,
        ensures
            final(self).wf(),
            final(self).cpu_tree() == sort_cap_tree(
                add_stacks(old(self).cpu_tree(), stacks_view(stacks@)),
            ),
            final(self).cpu_samples() == old(self).cpu_samples() + nonempty_count(
                stacks_view(stacks@),
            ),
            final(self).gpu_tree() == old(self).gpu_tree(),
            final(self).gpu_samples() == old(self).gpu_samples(),
    {
        let ghost start = self.cpu_root@;
        let ghost sv = stacks_view(stacks@);
        let mut i: usize = 0;
        assert(sv.take(0) =~= seq![]);
        while i < stacks.len()
            invariant
                i <= stacks@.len(),
                sv == stacks_view(stacks@),
                old(self).cpu_total + nonempty_count(sv) <= u64::MAX,
                inclusive(self.cpu_root@),
                self.cpu_root.value == self.cpu_total,
                self.cpu_root@ == add_stacks(start, sv.take(i as int)),
                self.cpu_total == old(self).cpu_total + nonempty_count(sv.take(i as int)),
                self.gpu_root == old(self).gpu_root,
                self.gpu_total == old(self).gpu_total,
                inclusive(self.gpu_root@),
                self.gpu_root.value == self.gpu_total,
            decreases stacks@.len() - i,
        {
            proof {
                assert(sv.take(i + 1).drop_last() =~= sv.take(i as int));
                assert(sv.take(i + 1).last() == strings_view(stacks@[i as int]@));
            }
            if stacks[i].len() > 0 {
                proof {
                    assert(frames_view(stacks@[i as int]@) =~= strings_view(stacks@[i as int]@));
                    lemma_nonempty_count_prefix(sv, i + 1);
                    lemma_add_path_inclusive(self.cpu_root@, strings_view(stacks@[i as int]@), 1);
                }
                add_path(&mut self.cpu_root, stacks[i].as_slice(), 1);
                self.cpu_total = self.cpu_total.saturating_add(1);
            }
            i += 1;
        }
        assert(sv.take(stacks@.len() as int) =~= sv);
        proof {
            lemma_merge_keeps_tidy(start, sv);
            lemma_inclusive_tails_fit(self.cpu_root@);
            lemma_sort_cap_inclusive(self.cpu_root@);
        }
        sort_and_cap(&mut self.cpu_root);
    }

    /// Stacks merged into the CPU flame graph so far.
    pub fn cpu_total(&self) -> (n: u64)
        ensures
            n == self.cpu_samples(),
    {
        self.cpu_total
    }

    /// Telemetry ticks merged into the GPU tree so far.
    pub fn gpu_total(&self) -> (n: u64)
        ensures
            n == self.gpu_samples(),
    {
        self.gpu_total
    }

    /// The CPU flame graph and its sample count, stamped with the given time
    /// (nanoseconds since the Unix epoch, as the caller read its clock).
    pub fn cpu_profile(&self, updated_at_nanos: Option<i64>) -> (p: FlameProfile)
        ensures
            p.kind == FlameKind::Cpu,
            p.updated_at_nanos == updated_at_nanos,
            p.total_samples == self.cpu_samples(),
            p.root@ == self.cpu_tree(),
    {
        FlameProfile {
            kind: FlameKind::Cpu,
            total_samples: self.cpu_total,
            updated_at_nanos,
            root: clone_tree(&self.cpu_root),
        }
    }

    /// The GPU utilization tree and its tick count, stamped with the given
    /// time (nanoseconds since the Unix epoch, as the caller read its clock).
    pub fn gpu_profile(&self, updated_at_nanos: Option<i64>) -> (p: FlameProfile)
        ensures
            p.kind == FlameKind::Gpu,
            p.updated_at_nanos == updated_at_nanos,
            p.total_samples == self.gpu_samples(),
            p.root@ == self.gpu_tree(),
    {
        FlameProfile {
            kind: FlameKind::Gpu,
            total_samples: self.gpu_total,
            updated_at_nanos,
            root: clone_tree(&self.gpu_root),
        }
    }
}

} // verus!
