//! Inclusive counts: the value a flame graph shows for a path is the number
//! of merged stacks that begin with that path.

use vstd::prelude::*;

use crate::flame::{
    add_path_tree, cap_trees, count_ge, find_child, insert_desc, leaf, lemma_count_ge_props, other_node,
    sum_values,
    lemma_insert_desc,
    lemma_find_child, lemma_sort_cap_all, lemma_sort_desc, sort_cap_all, sort_cap_tree, sort_desc,
    FlameTree, MAX_CHILDREN_PER_NODE,
};
use crate::profiler::{
    add_stacks, inclusive, lemma_add_path_inclusive, lemma_all_inclusive, lemma_sort_cap_inclusive,
    nonempty_count, root_tree, ProfileAggregator,
};

verus! {

/// The node reached from `t` by following, level by level, the first child
/// with each name of `path`.
pub open spec fn node_at(t: FlameTree, path: Seq<Seq<char>>) -> Option<FlameTree>
    decreases path.len(),
{
    if path.len() == 0 {
        Some(t)
    } else {
        let i = find_child(t.children, path[0]);
        if 0 <= i < t.children.len() {
            node_at(t.children[i], path.drop_first())
        } else {
            None
        }
    }
}

/// The count the graph shows for `path`; 0 where there is no such node.
pub open spec fn count_at(t: FlameTree, path: Seq<Seq<char>>) -> nat {
    match node_at(t, path) {
        Some(n) => n.value as nat,
        None => 0,
    }
}

pub open spec fn is_prefix(p: Seq<Seq<char>>, s: Seq<Seq<char>>) -> bool {
    p.len() <= s.len() && s.subrange(0, p.len() as int) == p
}

/// How many of the non-empty `stacks` begin with `p`.
pub open spec fn prefix_count(stacks: Seq<Seq<Seq<char>>>, p: Seq<Seq<char>>) -> nat
    decreases stacks.len(),
{
    if stacks.len() == 0 {
        0
    } else {
        prefix_count(stacks.drop_last(), p) + if stacks.last().len() > 0 && is_prefix(
            p,
            stacks.last(),
        ) {
            1nat
        } else {
            0nat
        }
    }
}

proof fn lemma_add_path_name(t: FlameTree, frames: Seq<Seq<char>>, w: u64)
    ensures
        add_path_tree(t, frames, w).name == t.name,
{
}

proof fn lemma_find_child_update(cs: Seq<FlameTree>, i: int, x: FlameTree, name: Seq<char>)
    requires
        0 <= i < cs.len(),
        x.name == cs[i].name,
    ensures
        find_child(cs.update(i, x), name) == find_child(cs, name),
{
    let u = cs.update(i, x);
    lemma_find_child(cs, name);
    lemma_find_child(u, name);
    let a = find_child(cs, name);
    let b = find_child(u, name);
    if a >= 0 {
        assert(u[a].name == name);
    }
    if b >= 0 {
        assert(cs[b].name == name);
    }
}

proof fn lemma_find_child_push(cs: Seq<FlameTree>, x: FlameTree, name: Seq<char>)
    ensures
        find_child(cs.push(x), name) == (if find_child(cs, name) >= 0 {
            find_child(cs, name)
        } else if x.name == name {
            cs.len() as int
        } else {
            -1
        }),
{
    assert(cs.push(x).drop_last() =~= cs);
}

/// Merging one stack with weight `w` adds `w` to the count of every prefix
/// of the stack (the empty prefix, the root, included) and changes no other
/// count, as long as no count saturates.
pub proof fn lemma_add_path_counts(t: FlameTree, frames: Seq<Seq<char>>, w: u64, p: Seq<Seq<char>>)
    requires
        inclusive(t),
        t.value + w <= u64::MAX,
    ensures
        count_at(add_path_tree(t, frames, w), p) == count_at(t, p) + if is_prefix(p, frames) {
            w as nat
        } else {
            0nat
        },
    decreases frames.len(),
{
    let r = add_path_tree(t, frames, w);
    if p.len() == 0 {
        assert(frames.subrange(0, 0) =~= p);
        lemma_add_path_counts_root(t, frames, w);
    } else if frames.len() == 0 {
        assert(!is_prefix(p, frames));
    } else {
        let f0 = frames[0];
        let i = find_child(t.children, f0);
        lemma_find_child(t.children, f0);
        let pp = p.drop_first();
        let ff = frames.drop_first();
        assert(is_prefix(p, frames) == (p[0] == f0 && is_prefix(pp, ff))) by {
            if p[0] == f0 && is_prefix(pp, ff) {
                assert(frames.subrange(0, p.len() as int) =~= seq![f0] + ff.subrange(
                    0,
                    pp.len() as int,
                ));
                assert(p =~= seq![f0] + pp);
            }
            if is_prefix(p, frames) {
                assert(frames.subrange(0, p.len() as int)[0] == frames[0]);
                assert(ff.subrange(0, pp.len() as int) =~= frames.subrange(0, p.len() as int).drop_first());
            }
        }
        if 0 <= i < t.children.len() {
            let c = t.children[i];
            crate::profiler::lemma_inclusive_child(t, i);
            let c2 = add_path_tree(c, ff, w);
            lemma_add_path_name(c, ff, w);
            lemma_find_child_update(t.children, i, c2, p[0]);
            assert(r.children == t.children.update(i, c2));
            if p[0] == f0 {
                lemma_add_path_counts(c, ff, w, pp);
                assert(r.children[i] == c2);
                assert(node_at(r, p) == node_at(c2, pp));
                assert(node_at(t, p) == node_at(c, pp));
            } else {
                let j = find_child(t.children, p[0]);
                lemma_find_child(t.children, p[0]);
                if 0 <= j < t.children.len() {
                    assert(j != i);
                    assert(r.children[j] == t.children[j]);
                    assert(node_at(r, p) == node_at(t.children[j], pp));
                } else {
                    assert(node_at(r, p) is None);
                }
                assert(!is_prefix(p, frames));
            }
        } else {
            let l = leaf(f0);
            let l2 = add_path_tree(l, ff, w);
            lemma_add_path_name(l, ff, w);
            lemma_find_child_push(t.children, l2, p[0]);
            assert(r.children == t.children.push(l2));
            if p[0] == f0 {
                crate::profiler::lemma_leaf_inclusive(f0);
                lemma_add_path_counts(l, ff, w, pp);
                lemma_leaf_counts(f0, pp);
                assert(find_child(r.children, p[0]) == t.children.len());
                assert(r.children[t.children.len() as int] == l2);
                assert(node_at(r, p) == node_at(l2, pp));
                assert(node_at(t, p) is None);
            } else {
                let j = find_child(t.children, p[0]);
                lemma_find_child(t.children, p[0]);
                if 0 <= j < t.children.len() {
                    assert(r.children[j] == t.children[j]);
                    assert(node_at(r, p) == node_at(t.children[j], pp));
                } else {
                    assert(node_at(r, p) is None);
                }
                assert(!is_prefix(p, frames));
            }
        }
    }
}

proof fn lemma_add_path_counts_root(t: FlameTree, frames: Seq<Seq<char>>, w: u64)
    requires
        t.value + w <= u64::MAX,
    ensures
        add_path_tree(t, frames, w).value == t.value + w,
{
}

proof fn lemma_leaf_counts(name: Seq<char>, p: Seq<Seq<char>>)
    ensures
        count_at(leaf(name), p) == 0,
{
}

/// Merging stacks one by one (weight 1, empty ones skipped) into an empty
/// root gives every path the number of stacks that begin with it, and the
/// root the number of non-empty stacks.
pub proof fn lemma_inclusive_counts(
    name: Seq<char>,
    stacks: Seq<Seq<Seq<char>>>,
    p: Seq<Seq<char>>,
)
    requires
        nonempty_count(stacks) <= u64::MAX,
    ensures
        count_at(add_stacks(root_tree(name), stacks), p) == prefix_count(stacks, p),
        add_stacks(root_tree(name), stacks).value == nonempty_count(stacks),
        inclusive(add_stacks(root_tree(name), stacks)),
    decreases stacks.len(),
{
    if stacks.len() == 0 {
        crate::profiler::lemma_leaf_inclusive(name);
        assert(root_tree(name) == leaf(name));
        lemma_leaf_counts(name, p);
    } else {
        let s0 = stacks.drop_last();
        let last = stacks.last();
        lemma_inclusive_counts(name, s0, p);
        let t0 = add_stacks(root_tree(name), s0);
        if last.len() > 0 {
            lemma_add_path_counts(t0, last, 1, p);
            lemma_add_path_inclusive(t0, last, 1);
        }
        if p.len() == 0 {
            assert(last.subrange(0, 0) =~= p);
        }
    }
}


// ---------------------------------------------------------------------------
// Ordering and capping keep counts when no node has too many children
// ---------------------------------------------------------------------------

pub open spec fn unique_names(cs: Seq<FlameTree>) -> bool {
    forall|i: int, j: int| 0 <= i < j < cs.len() ==> cs[i].name != cs[j].name
}

/// Siblings have distinct names at every node.
pub open spec fn names_unique(t: FlameTree) -> bool
    decreases t,
{
    unique_names(t.children) && all_names_unique(t.children)
}

pub open spec fn all_names_unique(cs: Seq<FlameTree>) -> bool
    decreases cs,
{
    if cs.len() == 0 {
        true
    } else {
        all_names_unique(cs.drop_last()) && names_unique(cs.last())
    }
}

/// No node has more children than `sort_and_cap` keeps.
pub open spec fn within_cap(t: FlameTree) -> bool
    decreases t,
{
    t.children.len() <= MAX_CHILDREN_PER_NODE && all_within_cap(t.children)
}

pub open spec fn all_within_cap(cs: Seq<FlameTree>) -> bool
    decreases cs,
{
    if cs.len() == 0 {
        true
    } else {
        all_within_cap(cs.drop_last()) && within_cap(cs.last())
    }
}

proof fn lemma_all_names_unique(cs: Seq<FlameTree>)
    ensures
        all_names_unique(cs) <==> forall|i: int| 0 <= i < cs.len() ==> #[trigger] names_unique(cs[i]),
    decreases cs.len(),
{
    if cs.len() > 0 {
        lemma_all_names_unique(cs.drop_last());
        if all_names_unique(cs) {
            assert forall|i: int| 0 <= i < cs.len() implies #[trigger] names_unique(cs[i]) by {
                if i < cs.len() - 1 {
                    assert(cs.drop_last()[i] == cs[i]);
                }
            }
        }
        if forall|i: int| 0 <= i < cs.len() ==> #[trigger] names_unique(cs[i]) {
            assert forall|i: int| 0 <= i < cs.len() - 1 implies #[trigger] names_unique(
                cs.drop_last()[i],
            ) by {
                assert(cs.drop_last()[i] == cs[i]);
                assert(names_unique(cs[i]));
            }
            assert(names_unique(cs[cs.len() - 1]));
        }
    }
}

proof fn lemma_all_within_cap(cs: Seq<FlameTree>)
    ensures
        all_within_cap(cs) <==> forall|i: int| 0 <= i < cs.len() ==> #[trigger] within_cap(cs[i]),
    decreases cs.len(),
{
    if cs.len() > 0 {
        lemma_all_within_cap(cs.drop_last());
        if all_within_cap(cs) {
            assert forall|i: int| 0 <= i < cs.len() implies #[trigger] within_cap(cs[i]) by {
                if i < cs.len() - 1 {
                    assert(cs.drop_last()[i] == cs[i]);
                }
            }
        }
        if forall|i: int| 0 <= i < cs.len() ==> #[trigger] within_cap(cs[i]) {
            assert forall|i: int| 0 <= i < cs.len() - 1 implies #[trigger] within_cap(
                cs.drop_last()[i],
            ) by {
                assert(cs.drop_last()[i] == cs[i]);
                assert(within_cap(cs[i]));
            }
            assert(within_cap(cs[cs.len() - 1]));
        }
    }
}

proof fn lemma_insert_desc_unique(r: Seq<FlameTree>, x: FlameTree)
    requires
        unique_names(r),
        forall|k: int| 0 <= k < r.len() ==> (#[trigger] r[k]).name != x.name,
    ensures
        unique_names(insert_desc(r, x)),
        forall|k: int| 0 <= k < r.len() ==> exists|i: int| 0 <= i <= r.len() && insert_desc(r, x)[i] == #[trigger] r[k],
        exists|i: int| 0 <= i <= r.len() && insert_desc(r, x)[i] == x,
{
    lemma_insert_desc(r, x);
    let p = count_ge(r, x.value) as int;
    let q = insert_desc(r, x);
    assert forall|i: int, j: int| 0 <= i < j < q.len() implies q[i].name != q[j].name by {
        if i < p && j < p {
            assert(q[i] == r[i] && q[j] == r[j]);
        } else if i < p && j == p {
            assert(q[i] == r[i]);
        } else if i < p && j > p {
            assert(q[i] == r[i] && q[j] == r[j - 1]);
        } else if i == p {
            assert(q[j] == r[j - 1]);
        } else {
            assert(q[i] == r[i - 1] && q[j] == r[j - 1]);
        }
    }
    assert forall|k: int| 0 <= k < r.len() implies exists|i: int|
        0 <= i <= r.len() && q[i] == #[trigger] r[k] by {
        if k < p {
            assert(q[k] == r[k]);
        } else {
            assert(q[k + 1] == r[k]);
        }
    }
    assert(q[p] == x);
}

/// With distinct names, the sort keeps them distinct and keeps every tree.
#[verifier::spinoff_prover]
#[verifier::rlimit(40)]
proof fn lemma_sort_desc_unique(s: Seq<FlameTree>)
    requires
        unique_names(s),
    ensures
        unique_names(sort_desc(s)),
        forall|j: int| 0 <= j < s.len() ==> exists|i: int| 0 <= i < s.len() && sort_desc(s)[i] == #[trigger] s[j],
    decreases s.len(),
{
    lemma_sort_desc(s);
    if s.len() > 0 {
        let s0 = s.drop_last();
        let x = s.last();
        let r = sort_desc(s0);
        assert(unique_names(s0)) by {
            assert forall|i: int, j: int| 0 <= i < j < s0.len() implies s0[i].name != s0[j].name by {
                assert(s0[i] == s[i] && s0[j] == s[j]);
            }
        }
        lemma_sort_desc_unique(s0);
        lemma_sort_desc(s0);
        assert forall|k: int| 0 <= k < r.len() implies (#[trigger] r[k]).name != x.name by {
            let j = choose|j: int| 0 <= j < s0.len() && #[trigger] r[k] == s0[j];
            assert(s0[j] == s[j]);
            assert(s[s.len() - 1] == x);
        }
        lemma_insert_desc_unique(r, x);
        let q = insert_desc(r, x);
        assert forall|j: int| 0 <= j < s.len() implies exists|i: int|
            0 <= i < s.len() && q[i] == #[trigger] s[j] by {
            if j == s.len() - 1 {
                let i = choose|i: int| 0 <= i <= r.len() && q[i] == x;
                assert(q[i] == s[j]);
            } else {
                assert(s0[j] == s[j]);
                let k = choose|k: int| 0 <= k < s0.len() && r[k] == #[trigger] s0[j];
                let i = choose|i: int| 0 <= i <= r.len() && q[i] == #[trigger] r[k];
                assert(q[i] == s[j]);
            }
        }
    }
}

proof fn lemma_find_sorted_found(f: Seq<FlameTree>, n: Seq<char>)
    requires
        unique_names(f),
        find_child(f, n) >= 0,
    ensures
        0 <= find_child(sort_desc(f), n) < sort_desc(f).len(),
        sort_desc(f)[find_child(sort_desc(f), n)] == f[find_child(f, n)],
{
    lemma_sort_desc_unique(f);
    let k = sort_desc(f);
    assert(k.len() == f.len()) by {
        lemma_sort_desc(f);
    }
    lemma_find_child(f, n);
    lemma_find_child(k, n);
    let j = find_child(f, n);
    let i = find_child(k, n);
    let i2 = choose|i2: int| 0 <= i2 < f.len() && k[i2] == #[trigger] f[j];
    assert(k[i2].name == n);
    if i == -1 {
        assert(k[i2].name != n);
    }
    if 0 <= i < i2 {
        assert(k[i].name != k[i2].name);
    } else if i > i2 {
        assert(k[i2].name != n);
    }
}

proof fn lemma_find_sorted_missing(f: Seq<FlameTree>, n: Seq<char>)
    requires
        find_child(f, n) == -1,
    ensures
        find_child(sort_desc(f), n) == -1,
{
    lemma_sort_desc(f);
    let k = sort_desc(f);
    lemma_find_child(f, n);
    lemma_find_child(k, n);
    let i = find_child(k, n);
    if 0 <= i < k.len() {
        let jj = choose|jj: int| 0 <= jj < f.len() && #[trigger] k[i] == f[jj];
        assert(f[jj].name != n);
    }
}

/// Under distinct sibling names and no node beyond the cap, ordering and
/// capping leaves the count of every path unchanged.
pub proof fn lemma_sort_cap_counts(t: FlameTree, p: Seq<Seq<char>>)
    requires
        names_unique(t),
        within_cap(t),
    ensures
        count_at(sort_cap_tree(t), p) == count_at(t, p),
    decreases p.len(),
{
    if p.len() > 0 {
        let cs = t.children;
        let n = p[0];
        let pp = p.drop_first();
        lemma_sort_cap_all(cs);
        let f = sort_cap_all(cs);
        assert(unique_names(f)) by {
            assert forall|i: int, j: int| 0 <= i < j < f.len() implies f[i].name != f[j].name by {
                assert(f[i] == sort_cap_tree(cs[i]) && f[j] == sort_cap_tree(cs[j]));
            }
        }
        lemma_sort_desc(f);
        let k = sort_desc(f);
        assert(cap_trees(k) == k);
        assert(sort_cap_tree(t).children == k);
        lemma_find_child(cs, n);
        lemma_find_child(f, n);
        assert(find_child(f, n) == find_child(cs, n)) by {
            let a = find_child(f, n);
            let b = find_child(cs, n);
            if a >= 0 {
                assert(cs[a].name == f[a].name);
            }
            if b >= 0 {
                assert(f[b].name == cs[b].name);
            }
        }
        let j = find_child(cs, n);
        if j >= 0 {
            lemma_find_sorted_found(f, n);
        } else {
            lemma_find_sorted_missing(f, n);
        }
        lemma_all_names_unique(cs);
        lemma_all_within_cap(cs);
        if 0 <= j < cs.len() {
            assert(names_unique(cs[j]) && within_cap(cs[j]));
            lemma_sort_cap_counts(cs[j], pp);
            assert(node_at(sort_cap_tree(t), p) == node_at(sort_cap_tree(cs[j]), pp));
        } else {
            assert(node_at(sort_cap_tree(t), p) is None);
        }
    }
}

proof fn lemma_leaf_tidy(name: Seq<char>)
    ensures
        names_unique(leaf(name)),
{
    lemma_all_names_unique(leaf(name).children);
}

/// Merging a stack keeps sibling names distinct.
pub proof fn lemma_add_path_names_unique(t: FlameTree, frames: Seq<Seq<char>>, w: u64)
    requires
        names_unique(t),
    ensures
        names_unique(add_path_tree(t, frames, w)),
    decreases frames.len(),
{
    let r = add_path_tree(t, frames, w);
    let cs = t.children;
    lemma_all_names_unique(cs);
    if frames.len() > 0 {
        let f0 = frames[0];
        let ff = frames.drop_first();
        let i = find_child(cs, f0);
        lemma_find_child(cs, f0);
        if 0 <= i < cs.len() {
            let c2 = add_path_tree(cs[i], ff, w);
            lemma_add_path_name(cs[i], ff, w);
            lemma_add_path_names_unique(cs[i], ff, w);
            let u = cs.update(i, c2);
            assert forall|a: int| 0 <= a < u.len() implies #[trigger] names_unique(u[a]) by {
                if a != i {
                    assert(u[a] == cs[a]);
                }
            }
            lemma_all_names_unique(u);
            assert(unique_names(u)) by {
                assert forall|a: int, b: int| 0 <= a < b < u.len() implies u[a].name != u[b].name by {
                    assert(u[a].name == cs[a].name && u[b].name == cs[b].name);
                }
            }
        } else {
            let l2 = add_path_tree(leaf(f0), ff, w);
            lemma_add_path_name(leaf(f0), ff, w);
            lemma_leaf_tidy(f0);
            lemma_add_path_names_unique(leaf(f0), ff, w);
            let u = cs.push(l2);
            assert forall|a: int| 0 <= a < u.len() implies #[trigger] names_unique(u[a]) by {
                if a < cs.len() {
                    assert(u[a] == cs[a]);
                }
            }
            lemma_all_names_unique(u);
            assert(unique_names(u)) by {
                assert forall|a: int, b: int| 0 <= a < b < u.len() implies u[a].name != u[b].name by {
                    if b == cs.len() {
                        assert(cs[a].name != f0);
                    }
                }
            }
        }
    }
}

proof fn lemma_add_stacks_names_unique(name: Seq<char>, stacks: Seq<Seq<Seq<char>>>)
    ensures
        names_unique(add_stacks(root_tree(name), stacks)),
    decreases stacks.len(),
{
    if stacks.len() == 0 {
        assert(root_tree(name) == leaf(name));
        lemma_leaf_tidy(name);
    } else {
        lemma_add_stacks_names_unique(name, stacks.drop_last());
        if stacks.last().len() > 0 {
            lemma_add_path_names_unique(add_stacks(root_tree(name), stacks.drop_last()), stacks.last(), 1);
        }
    }
}

/// The flame graph that merging stacks into a fresh aggregator shows
/// (merge, then order and cap) counts, for every path, the stacks that begin
/// with it, provided no node gathers more distinct children than the cap.
pub proof fn lemma_merged_graph_counts(
    name: Seq<char>,
    stacks: Seq<Seq<Seq<char>>>,
    p: Seq<Seq<char>>,
)
    requires
        nonempty_count(stacks) <= u64::MAX,
        within_cap(add_stacks(root_tree(name), stacks)),
    ensures
        count_at(sort_cap_tree(add_stacks(root_tree(name), stacks)), p) == prefix_count(stacks, p),
{
    lemma_inclusive_counts(name, stacks, p);
    lemma_add_stacks_names_unique(name, stacks);
    lemma_sort_cap_counts(add_stacks(root_tree(name), stacks), p);
}

// ---------------------------------------------------------------------------
// Merging in batches
// ---------------------------------------------------------------------------

/// Merging stacks into any inclusive tree, with room left in its root,
/// adds to every path the number of stacks that begin with it.
pub proof fn lemma_add_stacks_counts(t: FlameTree, stacks: Seq<Seq<Seq<char>>>, p: Seq<Seq<char>>)
    requires
        inclusive(t),
        t.value + nonempty_count(stacks) <= u64::MAX,
    ensures
        count_at(add_stacks(t, stacks), p) == count_at(t, p) + prefix_count(stacks, p),
        add_stacks(t, stacks).value == t.value + nonempty_count(stacks),
        inclusive(add_stacks(t, stacks)),
    decreases stacks.len(),
{
    if stacks.len() > 0 {
        let s0 = stacks.drop_last();
        let last = stacks.last();
        lemma_add_stacks_counts(t, s0, p);
        let t0 = add_stacks(t, s0);
        if last.len() > 0 {
            lemma_add_path_counts(t0, last, 1, p);
            lemma_add_path_inclusive(t0, last, 1);
        }
        if p.len() == 0 {
            assert(last.subrange(0, 0) =~= p);
        }
    }
}

proof fn lemma_add_stacks_keeps_names_unique(t: FlameTree, stacks: Seq<Seq<Seq<char>>>)
    requires
        names_unique(t),
    ensures
        names_unique(add_stacks(t, stacks)),
    decreases stacks.len(),
{
    if stacks.len() > 0 {
        lemma_add_stacks_keeps_names_unique(t, stacks.drop_last());
        if stacks.last().len() > 0 {
            lemma_add_path_names_unique(add_stacks(t, stacks.drop_last()), stacks.last(), 1);
        }
    }
}

proof fn lemma_add_stacks_concat(t: FlameTree, a: Seq<Seq<Seq<char>>>, b: Seq<Seq<Seq<char>>>)
    ensures
        add_stacks(t, a + b) == add_stacks(add_stacks(t, a), b),
        nonempty_count(a + b) == nonempty_count(a) + nonempty_count(b),
    decreases b.len(),
{
    if b.len() == 0 {
        assert(a + b =~= a);
    } else {
        lemma_add_stacks_concat(t, a, b.drop_last());
        assert((a + b).drop_last() =~= a + b.drop_last());
        assert((a + b).last() == b.last());
    }
}

/// Ordering and capping a tree with distinct sibling names and no node over
/// the cap keeps sibling names distinct.
proof fn lemma_sort_cap_names_unique(t: FlameTree)
    requires
        names_unique(t),
        within_cap(t),
    ensures
        names_unique(sort_cap_tree(t)),
    decreases t,
{
    let cs = t.children;
    lemma_all_names_unique(cs);
    lemma_all_within_cap(cs);
    lemma_sort_cap_all(cs);
    let f = sort_cap_all(cs);
    assert forall|i: int| 0 <= i < f.len() implies #[trigger] names_unique(f[i]) by {
        lemma_sort_cap_names_unique(cs[i]);
    }
    assert(unique_names(f)) by {
        assert forall|i: int, j: int| 0 <= i < j < f.len() implies f[i].name != f[j].name by {
            assert(f[i] == sort_cap_tree(cs[i]) && f[j] == sort_cap_tree(cs[j]));
        }
    }
    lemma_sort_desc(f);
    lemma_sort_desc_unique(f);
    let k = sort_desc(f);
    assert(cap_trees(k) == k);
    assert forall|i: int| 0 <= i < k.len() implies #[trigger] names_unique(k[i]) by {
        let j = choose|j: int| 0 <= j < f.len() && #[trigger] k[i] == f[j];
        assert(names_unique(f[j]));
    }
    lemma_all_names_unique(k);
}

/// Merging stacks `a`, ordering and capping, then merging `b` and ordering
/// and capping again (two calls of `merge_native_cpu`) shows, for every
/// path, the same count as merging `a` followed by `b` in one call, and the
/// same total; provided sibling names start distinct and no node ever
/// gathers more distinct children than the cap.
pub proof fn lemma_merge_in_two_batches(
    t: FlameTree,
    a: Seq<Seq<Seq<char>>>,
    b: Seq<Seq<Seq<char>>>,
    p: Seq<Seq<char>>,
)
    requires
        inclusive(t),
        names_unique(t),
        t.value + nonempty_count(a) + nonempty_count(b) <= u64::MAX,
        within_cap(add_stacks(t, a)),
        within_cap(add_stacks(sort_cap_tree(add_stacks(t, a)), b)),
        within_cap(add_stacks(t, a + b)),
    ensures
        count_at(sort_cap_tree(add_stacks(sort_cap_tree(add_stacks(t, a)), b)), p) == count_at(
            sort_cap_tree(add_stacks(t, a + b)),
            p,
        ),
        sort_cap_tree(add_stacks(sort_cap_tree(add_stacks(t, a)), b)).value == sort_cap_tree(
            add_stacks(t, a + b),
        ).value,
        nonempty_count(a + b) == nonempty_count(a) + nonempty_count(b),
{
    lemma_add_stacks_concat(t, a, b);
    let t1 = add_stacks(t, a);
    let u1 = sort_cap_tree(t1);
    let t2 = add_stacks(u1, b);
    let v2 = add_stacks(t1, b);
    // one batch
    lemma_add_stacks_counts(t, a, p);
    lemma_add_stacks_counts(t1, b, p);
    lemma_add_stacks_keeps_names_unique(t, a);
    lemma_add_stacks_keeps_names_unique(t1, b);
    lemma_sort_cap_counts(v2, p);
    // two batches
    lemma_sort_cap_counts(t1, p);
    lemma_sort_cap_inclusive(t1);
    lemma_sort_cap_names_unique(t1);
    lemma_add_stacks_counts(u1, b, p);
    lemma_add_stacks_keeps_names_unique(u1, b);
    lemma_sort_cap_counts(t2, p);
    lemma_sort_cap_inclusive(t2);
    lemma_sort_cap_inclusive(v2);
}

// ---------------------------------------------------------------------------
// What every CPU flame graph of an aggregator keeps
// ---------------------------------------------------------------------------

/// Every node below `t` has a value of at least 1.
pub open spec fn positive(t: FlameTree) -> bool
    decreases t,
{
    all_positive(t.children)
}

pub open spec fn all_positive(cs: Seq<FlameTree>) -> bool
    decreases cs,
{
    if cs.len() == 0 {
        true
    } else {
        all_positive(cs.drop_last()) && cs.last().value >= 1 && positive(cs.last())
    }
}

/// Values below the root are positive, and as long as no node has gone over
/// the cap, sibling names are distinct.
pub open spec fn tidy(t: FlameTree) -> bool {
    positive(t) && (within_cap(t) ==> names_unique(t))
}

proof fn lemma_all_positive(cs: Seq<FlameTree>)
    ensures
        all_positive(cs) <==> forall|i: int|
            0 <= i < cs.len() ==> (#[trigger] cs[i]).value >= 1 && positive(cs[i]),
    decreases cs.len(),
{
    if cs.len() > 0 {
        lemma_all_positive(cs.drop_last());
        if all_positive(cs) {
            assert forall|i: int| 0 <= i < cs.len() implies (#[trigger] cs[i]).value >= 1 && positive(
                cs[i],
            ) by {
                if i < cs.len() - 1 {
                    assert(cs.drop_last()[i] == cs[i]);
                }
            }
        }
        if forall|i: int| 0 <= i < cs.len() ==> (#[trigger] cs[i]).value >= 1 && positive(cs[i]) {
            assert forall|i: int| 0 <= i < cs.len() - 1 implies (#[trigger] cs.drop_last()[i]).value
                >= 1 && positive(cs.drop_last()[i]) by {
                assert(cs.drop_last()[i] == cs[i]);
                assert(cs[i].value >= 1 && positive(cs[i]));
            }
            assert(cs[cs.len() - 1].value >= 1 && positive(cs[cs.len() - 1]));
        }
    }
}

proof fn lemma_add_path_positive(t: FlameTree, frames: Seq<Seq<char>>, w: u64)
    requires
        positive(t),
        w >= 1,
    ensures
        positive(add_path_tree(t, frames, w)),
    decreases frames.len(),
{
    let cs = t.children;
    lemma_all_positive(cs);
    if frames.len() > 0 {
        let ff = frames.drop_first();
        let i = find_child(cs, frames[0]);
        if 0 <= i < cs.len() {
            lemma_add_path_positive(cs[i], ff, w);
            let u = cs.update(i, add_path_tree(cs[i], ff, w));
            assert forall|j: int| 0 <= j < u.len() implies (#[trigger] u[j]).value >= 1 && positive(
                u[j],
            ) by {
                if j != i {
                    assert(u[j] == cs[j]);
                }
            }
            lemma_all_positive(u);
        } else {
            let l = leaf(frames[0]);
            lemma_all_positive(l.children);
            lemma_add_path_positive(l, ff, w);
            let u = cs.push(add_path_tree(l, ff, w));
            assert forall|j: int| 0 <= j < u.len() implies (#[trigger] u[j]).value >= 1 && positive(
                u[j],
            ) by {
                if j < cs.len() {
                    assert(u[j] == cs[j]);
                }
            }
            lemma_all_positive(u);
        }
    }
}

proof fn lemma_add_stacks_positive(t: FlameTree, stacks: Seq<Seq<Seq<char>>>)
    requires
        positive(t),
    ensures
        positive(add_stacks(t, stacks)),
    decreases stacks.len(),
{
    if stacks.len() > 0 {
        lemma_add_stacks_positive(t, stacks.drop_last());
        if stacks.last().len() > 0 {
            lemma_add_path_positive(add_stacks(t, stacks.drop_last()), stacks.last(), 1);
        }
    }
}

proof fn lemma_sort_desc_keeps(s: Seq<FlameTree>)
    ensures
        sort_desc(s).len() == s.len(),
        forall|j: int|
            0 <= j < s.len() ==> exists|i: int| 0 <= i < s.len() && sort_desc(s)[i] == #[trigger] s[j],
    decreases s.len(),
{
    if s.len() > 0 {
        let s0 = s.drop_last();
        let x = s.last();
        let r = sort_desc(s0);
        lemma_sort_desc_keeps(s0);
        lemma_insert_desc(r, x);
        let q = insert_desc(r, x);
        assert(q == sort_desc(s));
        let c = count_ge(r, x.value) as int;
        assert forall|j: int| 0 <= j < s.len() implies exists|i: int|
            0 <= i < s.len() && q[i] == #[trigger] s[j] by {
            if j == s.len() - 1 {
                assert(q[c] == s[j]);
            } else {
                assert(s0[j] == s[j]);
                let k = choose|k: int| 0 <= k < s0.len() && r[k] == #[trigger] s0[j];
                if k < c {
                    assert(q[k] == s[j]);
                } else {
                    assert(q[k + 1] == r[k]);
                }
            }
        }
    }
}

proof fn lemma_sort_cap_positive(t: FlameTree)
    requires
        positive(t),
        inclusive(t),
    ensures
        positive(sort_cap_tree(t)),
    decreases t,
{
    let cs = t.children;
    lemma_all_positive(cs);
    lemma_all_inclusive(cs);
    lemma_sort_cap_all(cs);
    let f = sort_cap_all(cs);
    assert forall|i: int| 0 <= i < f.len() implies (#[trigger] f[i]).value >= 1 && positive(f[i]) by {
        lemma_sort_cap_positive(cs[i]);
    }
    crate::flame::lemma_sum_values_pointwise(cs, f);
    lemma_sort_desc(f);
    let srt = sort_desc(f);
    let k = cap_trees(srt);
    let m = MAX_CHILDREN_PER_NODE as int;
    assert forall|j: int| 0 <= j < k.len() implies (#[trigger] k[j]).value >= 1 && positive(k[j]) by {
        if j < srt.len() && (srt.len() <= m || j < m) {
            assert(k[j] == srt[j]);
            let q = choose|q: int| 0 <= q < f.len() && #[trigger] srt[j] == f[q];
        } else {
            let rest = srt.subrange(m, srt.len() as int);
            crate::flame::lemma_sum_values_prefix(srt, m);
            assert(k[j] == other_node(rest.len(), sum_values(rest) as u64));
            lemma_all_positive(k[j].children);
        }
    }
    lemma_all_positive(k);
}

proof fn lemma_add_path_over_cap(t: FlameTree, frames: Seq<Seq<char>>, w: u64)
    requires
        !within_cap(t),
    ensures
        !within_cap(add_path_tree(t, frames, w)),
    decreases frames.len(),
{
    let cs = t.children;
    lemma_all_within_cap(cs);
    if frames.len() > 0 && cs.len() <= MAX_CHILDREN_PER_NODE {
        let j0 = choose|j: int| 0 <= j < cs.len() && !within_cap(#[trigger] cs[j]);
        let ff = frames.drop_first();
        let i = find_child(cs, frames[0]);
        if 0 <= i < cs.len() {
            let u = cs.update(i, add_path_tree(cs[i], ff, w));
            if i == j0 {
                lemma_add_path_over_cap(cs[i], ff, w);
            } else {
                assert(u[j0] == cs[j0]);
            }
            assert(!within_cap(u[j0]));
            lemma_all_within_cap(u);
        } else {
            let u = cs.push(add_path_tree(leaf(frames[0]), ff, w));
            assert(u[j0] == cs[j0]);
            lemma_all_within_cap(u);
        }
    }
}

proof fn lemma_add_stacks_over_cap(t: FlameTree, stacks: Seq<Seq<Seq<char>>>)
    requires
        !within_cap(t),
    ensures
        !within_cap(add_stacks(t, stacks)),
    decreases stacks.len(),
{
    if stacks.len() > 0 {
        lemma_add_stacks_over_cap(t, stacks.drop_last());
        if stacks.last().len() > 0 {
            lemma_add_path_over_cap(add_stacks(t, stacks.drop_last()), stacks.last(), 1);
        }
    }
}

proof fn lemma_sum_values_positive(s: Seq<FlameTree>)
    requires
        s.len() > 0,
        forall|i: int| 0 <= i < s.len() ==> (#[trigger] s[i]).value >= 1,
    ensures
        sum_values(s) >= 1,
{
    crate::flame::lemma_sum_values_nonneg(s.drop_last());
}

/// With positive values, a node over the cap stays over it after ordering
/// and capping (it keeps the cap plus the merged node), so a tree that went
/// over the cap never comes back within it.
proof fn lemma_sort_cap_over_cap(t: FlameTree)
    requires
        positive(t),
        !within_cap(t),
    ensures
        !within_cap(sort_cap_tree(t)),
    decreases t,
{
    let cs = t.children;
    let m = MAX_CHILDREN_PER_NODE as int;
    lemma_all_positive(cs);
    lemma_all_within_cap(cs);
    lemma_sort_cap_all(cs);
    let f = sort_cap_all(cs);
    lemma_sort_desc(f);
    let srt = sort_desc(f);
    let k = cap_trees(srt);
    if cs.len() > m {
        let rest = srt.subrange(m, srt.len() as int);
        assert forall|i: int| 0 <= i < rest.len() implies (#[trigger] rest[i]).value >= 1 by {
            let q = choose|q: int| 0 <= q < f.len() && #[trigger] srt[m + i] == f[q];
            assert(rest[i] == srt[m + i]);
            assert(f[q] == sort_cap_tree(cs[q]));
        }
        lemma_sum_values_positive(rest);
        assert(k.len() == m + 1);
    } else {
        let j0 = choose|j: int| 0 <= j < cs.len() && !within_cap(#[trigger] cs[j]);
        lemma_sort_cap_over_cap(cs[j0]);
        assert(f[j0] == sort_cap_tree(cs[j0]));
        lemma_sort_desc_keeps(f);
        let i = choose|i: int| 0 <= i < f.len() && srt[i] == #[trigger] f[j0];
        assert(k == srt);
        lemma_all_within_cap(k);
        assert(!within_cap(k[i]));
    }
}

/// One call of `merge_native_cpu` (merge, then order and cap) keeps a CPU
/// flame graph tidy.
pub proof fn lemma_merge_keeps_tidy(t: FlameTree, stacks: Seq<Seq<Seq<char>>>)
    requires
        tidy(t),
        inclusive(t),
        t.value + nonempty_count(stacks) <= u64::MAX,
    ensures
        tidy(sort_cap_tree(add_stacks(t, stacks))),
{
    let x = add_stacks(t, stacks);
    lemma_add_stacks_counts(t, stacks, seq![]);
    lemma_add_stacks_positive(t, stacks);
    lemma_sort_cap_positive(x);
    if within_cap(sort_cap_tree(x)) {
        if !within_cap(x) {
            lemma_sort_cap_over_cap(x);
        }
        if !within_cap(t) {
            lemma_add_stacks_over_cap(t, stacks);
        }
        lemma_add_stacks_keeps_names_unique(t, stacks);
        lemma_sort_cap_names_unique(x);
    }
}

/// A fresh root is tidy.
pub proof fn lemma_root_tidy(name: Seq<char>)
    ensures
        tidy(root_tree(name)),
{
    assert(root_tree(name) == leaf(name));
    lemma_leaf_tidy(name);
    lemma_all_positive(leaf(name).children);
}

/// Two calls of `merge_native_cpu` on an aggregator, with stacks `a` and
/// then `b`, leave a CPU flame graph that shows, for every path, the same
/// count as one call with `a` followed by `b`, and the same total; provided
/// no node gathers more distinct children than the cap along the way.
pub proof fn lemma_aggregator_merges_in_two_batches(
    agg: ProfileAggregator,
    a: Seq<Seq<Seq<char>>>,
    b: Seq<Seq<Seq<char>>>,
    p: Seq<Seq<char>>,
)
    requires
        agg.wf(),
        agg.cpu_samples() + nonempty_count(a) + nonempty_count(b) <= u64::MAX,
        within_cap(add_stacks(agg.cpu_tree(), a)),
        within_cap(add_stacks(sort_cap_tree(add_stacks(agg.cpu_tree(), a)), b)),
        within_cap(add_stacks(agg.cpu_tree(), a + b)),
    ensures
        count_at(sort_cap_tree(add_stacks(sort_cap_tree(add_stacks(agg.cpu_tree(), a)), b)), p)
            == count_at(sort_cap_tree(add_stacks(agg.cpu_tree(), a + b)), p),
        sort_cap_tree(add_stacks(sort_cap_tree(add_stacks(agg.cpu_tree(), a)), b)).value
            == sort_cap_tree(add_stacks(agg.cpu_tree(), a + b)).value,
        nonempty_count(a + b) == nonempty_count(a) + nonempty_count(b),
{
    let t = agg.cpu_tree();
    agg.lemma_wf();
    if !within_cap(t) {
        lemma_add_stacks_over_cap(t, a);
    }
    lemma_merge_in_two_batches(t, a, b, p);
}

} // verus!
