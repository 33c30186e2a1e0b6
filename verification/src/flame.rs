//! Flame graph trees: merging stacks with inclusive counts, ordering and
//! capping siblings.

use vstd::prelude::*;

use crate::text::{decimal, push_char, push_decimal};

verus! {

/// Most children a node keeps after `sort_and_cap`; the rest merge into one.
pub const MAX_CHILDREN_PER_NODE: usize = 24;

/// A flame graph node. `value` is an inclusive sample count: the number of
/// samples whose stack passed through this frame from the root down.
pub struct FlameNode {
    pub name: String,
    pub value: u64,
    pub children: Vec<FlameNode>,
}

/// The mathematical model of a `FlameNode`.
pub struct FlameTree {
    pub name: Seq<char>,
    pub value: u64,
    pub children: Seq<FlameTree>,
}

pub open spec fn tree_of(n: FlameNode) -> FlameTree
    decreases n,
{
    FlameTree { name: n.name@, value: n.value, children: trees_of(n.children@) }
}

pub open spec fn trees_of(s: Seq<FlameNode>) -> Seq<FlameTree>
    decreases s,
{
    if s.len() == 0 {
        seq![]
    } else {
        trees_of(s.drop_last()).push(tree_of(s.last()))
    }
}

impl View for FlameNode {
    type V = FlameTree;

    open spec fn view(&self) -> FlameTree {
        tree_of(*self)
    }
}

pub broadcast proof fn lemma_trees_of(s: Seq<FlameNode>)
    ensures
        #[trigger] trees_of(s).len() == s.len(),
        forall|i: int| 0 <= i < s.len() ==> #[trigger] trees_of(s)[i] == tree_of(s[i]),
    decreases s.len(),
{
    if s.len() > 0 {
        lemma_trees_of(s.drop_last());
        assert forall|i: int| 0 <= i < s.len() implies #[trigger] trees_of(s)[i] == tree_of(
            s[i],
        ) by {
            if i < s.len() - 1 {
                assert(s.drop_last()[i] == s[i]);
            }
        }
    }
}

pub open spec fn sat_add(a: u64, b: u64) -> u64 {
    if a + b > u64::MAX {
        u64::MAX
    } else {
        (a + b) as u64
    }
}

/// Index of the first tree in `cs` named `name`, or `-1`.
pub open spec fn find_child(cs: Seq<FlameTree>, name: Seq<char>) -> int
    decreases cs.len(),
{
    if cs.len() == 0 {
        -1
    } else {
        let r = find_child(cs.drop_last(), name);
        if r >= 0 {
            r
        } else if cs.last().name == name {
            cs.len() - 1
        } else {
            -1
        }
    }
}

pub proof fn lemma_find_child(cs: Seq<FlameTree>, name: Seq<char>)
    ensures
        -1 <= find_child(cs, name) < cs.len(),
        find_child(cs, name) >= 0 ==> cs[find_child(cs, name)].name == name,
        forall|j: int|
            0 <= j < cs.len() && (find_child(cs, name) == -1 || j < find_child(cs, name)) ==> (
            #[trigger] cs[j]).name != name,
    decreases cs.len(),
{
    if cs.len() > 0 {
        lemma_find_child(cs.drop_last(), name);
        assert forall|j: int|
            0 <= j < cs.len() && (find_child(cs, name) == -1 || j < find_child(
                cs,
                name,
            )) implies (#[trigger] cs[j]).name != name by {
            if j < cs.len() - 1 {
                assert(cs.drop_last()[j] == cs[j]);
            }
        }
    }
}

/// A leaf named `name`.
pub open spec fn leaf(name: Seq<char>) -> FlameTree {
    FlameTree { name, value: 0, children: seq![] }
}

/// The tree after one stack `frames` (root first) is merged with weight `w`:
/// every node along the path gains `w` (saturating), missing nodes are
/// appended as new last children.
pub open spec fn add_path_tree(t: FlameTree, frames: Seq<Seq<char>>, w: u64) -> FlameTree
    decreases frames.len(),
{
    let v = sat_add(t.value, w);
    if frames.len() == 0 {
        FlameTree { name: t.name, value: v, children: t.children }
    } else {
        let i = find_child(t.children, frames[0]);
        if 0 <= i < t.children.len() {
            FlameTree {
                name: t.name,
                value: v,
                children: t.children.update(
                    i,
                    add_path_tree(t.children[i], frames.drop_first(), w),
                ),
            }
        } else {
            FlameTree {
                name: t.name,
                value: v,
                children: t.children.push(
                    add_path_tree(leaf(frames[0]), frames.drop_first(), w),
                ),
            }
        }
    }
}

pub open spec fn frames_view(frames: Seq<String>) -> Seq<Seq<char>> {
    frames.map_values(|f: String| f@)
}

fn find_child_exec(children: &Vec<FlameNode>, name: &String) -> (r: Option<usize>)
    ensures
        match r {
            Some(i) => i < children.len() && find_child(trees_of(children@), name@) == i,
            None => find_child(trees_of(children@), name@) == -1,
        },
{
    let ghost cs = trees_of(children@);
    proof {
        lemma_trees_of(children@);
        lemma_find_child(cs, name@);
    }
    let mut i: usize = 0;
    while i < children.len()
        invariant
            i <= children.len(),
            cs == trees_of(children@),
            cs.len() == children.len(),
            forall|j: int| 0 <= j < i ==> (#[trigger] cs[j]).name != name@,
            -1 <= find_child(cs, name@) < cs.len(),
            find_child(cs, name@) >= 0 ==> cs[find_child(cs, name@)].name == name@,
            forall|j: int|
                0 <= j < cs.len() && (find_child(cs, name@) == -1 || j < find_child(cs, name@))
                    ==> (#[trigger] cs[j]).name != name@,
        decreases children.len() - i,
    {
        proof {
            lemma_trees_of(children@);
        }
        assert(cs[i as int] == tree_of(children@[i as int]));
        if children[i].name == *name {
            return Some(i);
        }
        i += 1;
    }
    None
}

fn add_path_from(node: &mut FlameNode, frames: &[String], from: usize, weight: u64)
    requires
        from <= frames@.len(),
    ensures
        final(node)@ == add_path_tree(
            old(node)@,
            frames_view(frames@).subrange(from as int, frames@.len() as int),
            weight,
        ),
    decreases frames@.len() - from,
{
    let ghost fr = frames_view(frames@).subrange(from as int, frames@.len() as int);
    let ghost before = node@;
    node.value = node.value.saturating_add(weight);
    if from == frames.len() {
        assert(fr.len() == 0);
        return;
    }
    assert(fr[0] == frames@[from as int]@);
    assert(fr.drop_first() =~= frames_view(frames@).subrange(from + 1, frames@.len() as int));
    proof {
        lemma_trees_of(node.children@);
    }
    let idx = find_child_exec(&node.children, &frames[from]);
    match idx {
        Some(i) => {
            let ghost kids = node.children@;
            add_path_from(&mut node.children[i], frames, from + 1, weight);
            proof {
                lemma_trees_of(kids);
                lemma_trees_of(node.children@);
                assert(trees_of(node.children@) =~= before.children.update(
                    i as int,
                    add_path_tree(before.children[i as int], fr.drop_first(), weight),
                ));
            }
        },
        None => {
            let ghost kids = node.children@;
            let fresh = FlameNode { name: frames[from].clone(), value: 0, children: Vec::new() };
            proof {
                lemma_trees_of(fresh.children@);
                assert(trees_of(fresh.children@) =~= seq![]);
                assert(fresh@ == leaf(fr[0]));
            }
            node.children.push(fresh);
            let last = node.children.len() - 1;
            let ghost kids2 = node.children@;
            add_path_from(&mut node.children[last], frames, from + 1, weight);
            proof {
                lemma_trees_of(kids);
                lemma_trees_of(kids2);
                lemma_trees_of(node.children@);
                assert(trees_of(node.children@) =~= before.children.push(
                    add_path_tree(leaf(fr[0]), fr.drop_first(), weight),
                ));
            }
        },
    }
}

/// Merges one stack (root first) into `node` with weight `weight`.
pub fn add_path(node: &mut FlameNode, frames: &[String], weight: u64)
    ensures
        final(node)@ == add_path_tree(old(node)@, frames_view(frames@), weight),
{
    add_path_from(node, frames, 0, weight);
    assert(frames_view(frames@).subrange(0, frames@.len() as int) =~= frames_view(frames@));
}


// ---------------------------------------------------------------------------
// Ordering siblings: a stable sort by value, largest first
// ---------------------------------------------------------------------------

/// Number of leading trees of `r` whose value is at least `v`.
pub open spec fn count_ge(r: Seq<FlameTree>, v: u64) -> nat
    decreases r.len(),
{
    if r.len() > 0 && r[0].value >= v {
        1 + count_ge(r.drop_first(), v)
    } else {
        0
    }
}

/// `x` inserted into `r` after every leading tree whose value is at least
/// `x.value`: the place a stable descending sort gives a later element.
pub open spec fn insert_desc(r: Seq<FlameTree>, x: FlameTree) -> Seq<FlameTree> {
    r.insert(count_ge(r, x.value) as int, x)
}

/// `s` stably sorted by value, largest first (what `sort_by(|a, b|
/// b.value.cmp(&a.value))` yields).
pub open spec fn sort_desc(s: Seq<FlameTree>) -> Seq<FlameTree>
    decreases s.len(),
{
    if s.len() == 0 {
        seq![]
    } else {
        insert_desc(sort_desc(s.drop_last()), s.last())
    }
}

pub open spec fn sorted_desc(s: Seq<FlameTree>) -> bool {
    forall|i: int, j: int| 0 <= i < j < s.len() ==> s[i].value >= s[j].value
}

pub open spec fn sum_values(s: Seq<FlameTree>) -> int
    decreases s.len(),
{
    if s.len() == 0 {
        0
    } else {
        sum_values(s.drop_last()) + s.last().value
    }
}

pub proof fn lemma_count_ge(r: Seq<FlameTree>, v: u64, k: int)
    requires
        0 <= k <= r.len(),
        forall|j: int| 0 <= j < k ==> (#[trigger] r[j]).value >= v,
        k == r.len() || r[k].value < v,
    ensures
        count_ge(r, v) == k,
    decreases k,
{
    if k > 0 {
        assert forall|j: int| 0 <= j < k - 1 implies (#[trigger] r.drop_first()[j]).value >= v by {
            assert(r.drop_first()[j] == r[j + 1]);
        }
        lemma_count_ge(r.drop_first(), v, k - 1);
    }
}

pub proof fn lemma_count_ge_props(r: Seq<FlameTree>, v: u64)
    ensures
        count_ge(r, v) <= r.len(),
        forall|j: int| 0 <= j < count_ge(r, v) ==> (#[trigger] r[j]).value >= v,
        count_ge(r, v) < r.len() ==> r[count_ge(r, v) as int].value < v,
    decreases r.len(),
{
    if r.len() > 0 && r[0].value >= v {
        lemma_count_ge_props(r.drop_first(), v);
        assert forall|j: int| 0 <= j < count_ge(r, v) implies (#[trigger] r[j]).value >= v by {
            if j > 0 {
                assert(r[j] == r.drop_first()[j - 1]);
            }
        }
        if count_ge(r, v) < r.len() {
            assert(r[count_ge(r, v) as int] == r.drop_first()[count_ge(r.drop_first(), v) as int]);
        }
    }
}

pub proof fn lemma_sum_values_add(a: Seq<FlameTree>, b: Seq<FlameTree>)
    ensures
        sum_values(a + b) == sum_values(a) + sum_values(b),
    decreases b.len(),
{
    if b.len() > 0 {
        assert((a + b).drop_last() =~= a + b.drop_last());
        lemma_sum_values_add(a, b.drop_last());
    } else {
        assert(a + b =~= a);
    }
}

pub proof fn lemma_sum_values_single(x: FlameTree)
    ensures
        sum_values(seq![x]) == x.value,
{
    let s = seq![x];
    assert(s.len() == 1);
    assert(s.drop_last().len() == 0);
    assert(sum_values(s.drop_last()) == 0);
    assert(s.last() == x);
}

pub proof fn lemma_sum_values_nonneg(a: Seq<FlameTree>)
    ensures
        sum_values(a) >= 0,
    decreases a.len(),
{
    if a.len() > 0 {
        lemma_sum_values_nonneg(a.drop_last());
    }
}

pub proof fn lemma_insert_desc(r: Seq<FlameTree>, x: FlameTree)
    ensures
        insert_desc(r, x).len() == r.len() + 1,
        count_ge(r, x.value) <= r.len(),
        forall|k: int| 0 <= k < count_ge(r, x.value) ==> #[trigger] insert_desc(r, x)[k] == r[k],
        insert_desc(r, x)[count_ge(r, x.value) as int] == x,
        forall|k: int|
            count_ge(r, x.value) < k <= r.len() ==> #[trigger] insert_desc(r, x)[k] == r[k - 1],
        sum_values(insert_desc(r, x)) == sum_values(r) + x.value,
        forall|i: int|
            0 <= i < r.len() + 1 ==> #[trigger] insert_desc(r, x)[i] == x || exists|j: int|
                0 <= j < r.len() && insert_desc(r, x)[i] == r[j],
        sorted_desc(r) ==> sorted_desc(insert_desc(r, x)),
{
    lemma_count_ge_props(r, x.value);
    let p = count_ge(r, x.value) as int;
    let a = r.subrange(0, p);
    let b = r.subrange(p, r.len() as int);
    assert(insert_desc(r, x) =~= a.push(x) + b);
    lemma_sum_values_add(a.push(x), b);
    assert(a.push(x).drop_last() =~= a);
    lemma_sum_values_add(a, b);
    assert(r =~= a + b);
    assert forall|i: int| 0 <= i < r.len() + 1 implies #[trigger] insert_desc(r, x)[i] == x
        || exists|j: int| 0 <= j < r.len() && insert_desc(r, x)[i] == r[j] by {
        if i < p {
            assert(insert_desc(r, x)[i] == r[i]);
        } else if i > p {
            assert(insert_desc(r, x)[i] == r[i - 1]);
        }
    }
    if sorted_desc(r) {
        let q = insert_desc(r, x);
        assert forall|i: int, j: int| 0 <= i < j < q.len() implies q[i].value >= q[j].value by {
            if i < p && j < p {
                assert(q[i] == r[i] && q[j] == r[j]);
            } else if i < p && j == p {
                assert(q[i] == r[i]);
            } else if i < p && j > p {
                assert(q[i] == r[i] && q[j] == r[j - 1]);
            } else if i == p {
                assert(q[j] == r[j - 1]);
                assert(r[p].value < x.value);
            } else {
                assert(q[i] == r[i - 1] && q[j] == r[j - 1]);
            }
        }
    }
}

/// `sort_desc` keeps the number of trees and their total value, takes
/// every tree from its input, and yields a descending order.
pub proof fn lemma_sort_desc(s: Seq<FlameTree>)
    ensures
        sort_desc(s).len() == s.len(),
        sum_values(sort_desc(s)) == sum_values(s),
        sorted_desc(sort_desc(s)),
        forall|i: int|
            0 <= i < s.len() ==> exists|j: int| 0 <= j < s.len() && #[trigger] sort_desc(s)[i] == s[j],
    decreases s.len(),
{
    if s.len() > 0 {
        let r = sort_desc(s.drop_last());
        lemma_sort_desc(s.drop_last());
        lemma_insert_desc(r, s.last());
        assert forall|i: int| 0 <= i < s.len() implies exists|j: int|
            0 <= j < s.len() && #[trigger] sort_desc(s)[i] == s[j] by {
            if sort_desc(s)[i] == s.last() {
                assert(sort_desc(s)[i] == s[s.len() - 1]);
            } else {
                let j1 = choose|j1: int| 0 <= j1 < r.len() && sort_desc(s)[i] == r[j1];
                let j2 = choose|j2: int|
                    0 <= j2 < s.drop_last().len() && #[trigger] r[j1] == s.drop_last()[j2];
                assert(sort_desc(s)[i] == s[j2]);
            }
        }
    }
}

/// The trees of `s` with value `v`, in order.
pub open spec fn with_value(s: Seq<FlameTree>, v: u64) -> Seq<FlameTree> {
    s.filter(|t: FlameTree| t.value == v)
}

/// The sort is stable: for every value, the trees carrying it keep their
/// relative order.
pub proof fn lemma_sort_desc_stable(s: Seq<FlameTree>, v: u64)
    ensures
        with_value(sort_desc(s), v) == with_value(s, v),
    decreases s.len(),
{
    let pred = |t: FlameTree| t.value == v;
    if s.len() == 0 {
        reveal(Seq::filter);
    } else {
        let s0 = s.drop_last();
        let x = s.last();
        let r = sort_desc(s0);
        lemma_sort_desc_stable(s0, v);
        lemma_sort_desc(s0);
        lemma_count_ge_props(r, x.value);
        let p = count_ge(r, x.value) as int;
        let a = r.subrange(0, p);
        let b = r.subrange(p, r.len() as int);
        assert(r =~= a + b);
        assert(insert_desc(r, x) =~= a + (seq![x] + b));
        Seq::filter_distributes_over_add(a, seq![x] + b, pred);
        Seq::filter_distributes_over_add(seq![x], b, pred);
        Seq::filter_distributes_over_add(a, b, pred);
        assert(s0.push(x) =~= s);
        s0.lemma_filter_push(x, pred);
        Seq::<FlameTree>::empty().lemma_filter_push(x, pred);
        assert(seq![x] =~= Seq::<FlameTree>::empty().push(x));
        assert(Seq::<FlameTree>::empty().filter(pred) =~= Seq::<FlameTree>::empty()) by {
            reveal(Seq::filter);
        }
        if x.value == v {
            assert forall|i: int| 0 <= i < b.len() implies !pred(#[trigger] b[i]) by {
                assert(b[i] == r[p + i]);
                assert(r[p].value < x.value);
                if i > 0 {
                    assert(r[p].value >= r[p + i].value);
                }
            }
            b.lemma_all_neg_filter_empty(pred);
            assert(a.filter(pred) + (seq![x].filter(pred) + b.filter(pred)) =~= (a.filter(pred)
                + b.filter(pred)).push(x));
        } else {
            assert(a.filter(pred) + (seq![x].filter(pred) + b.filter(pred)) =~= a.filter(pred)
                + b.filter(pred));
        }
    }
}

/// Number of leading nodes of `v[..n]` whose value is at least `x`.
fn count_ge_exec(v: &Vec<FlameNode>, n: usize, x: u64) -> (p: usize)
    requires
        n <= v.len(),
    ensures
        p == count_ge(trees_of(v@).subrange(0, n as int), x),
{
    let ghost r = trees_of(v@).subrange(0, n as int);
    proof {
        lemma_trees_of(v@);
    }
    let mut p: usize = 0;
    while p < n && v[p].value >= x
        invariant
            p <= n <= v.len(),
            r == trees_of(v@).subrange(0, n as int),
            trees_of(v@).len() == v.len(),
            forall|i: int| 0 <= i < v.len() ==> #[trigger] trees_of(v@)[i] == tree_of(v@[i]),
            forall|j: int| 0 <= j < p ==> (#[trigger] r[j]).value >= x,
        decreases n - p,
    {
        assert(r[p as int] == tree_of(v@[p as int]));
        p += 1;
    }
    proof {
        if p < n {
            assert(r[p as int] == tree_of(v@[p as int]));
        }
        lemma_count_ge(r, x, p as int);
    }
    p
}

/// Sorts `v` stably by value, largest first.
pub fn sort_by_value_desc(v: &mut Vec<FlameNode>)
    ensures
        trees_of(final(v)@) == sort_desc(trees_of(old(v)@)),
{
    broadcast use lemma_trees_of;

    let ghost orig = trees_of(v@);
    proof {
        lemma_trees_of(v@);
    }
    let n = v.len();
    if n == 0 {
        assert(orig =~= seq![]);
        return;
    }
    let mut i: usize = 1;
    proof {
        let o1 = orig.subrange(0, 1);
        assert(o1.drop_last() =~= seq![]);
        assert(sort_desc(o1.drop_last()) == Seq::<FlameTree>::empty());
        assert(count_ge(Seq::<FlameTree>::empty(), o1.last().value) == 0);
        assert(insert_desc(Seq::<FlameTree>::empty(), o1.last()) =~= seq![o1.last()]);
        assert(trees_of(v@).subrange(0, 1) =~= sort_desc(o1));
    }
    while i < n
        invariant
            1 <= i <= n,
            v.len() == n,
            orig.len() == n,
            trees_of(v@).subrange(0, i as int) == sort_desc(orig.subrange(0, i as int)),
            trees_of(v@).subrange(i as int, n as int) == orig.subrange(i as int, n as int),
        decreases n - i,
    {
        let ghost before = trees_of(v@);
        proof {
            lemma_trees_of(v@);
        }
        let x = v.remove(i);
        let ghost xt = tree_of(x);
        proof {
            lemma_trees_of(v@);
            assert(xt == orig[i as int]) by {
                assert(before.subrange(i as int, n as int)[0] == orig.subrange(i as int, n as int)[0]);
            }
            assert(trees_of(v@).subrange(0, i as int) =~= before.subrange(0, i as int));
        }
        let p = count_ge_exec(v, i, x.value);
        proof {
            lemma_count_ge_props(trees_of(v@).subrange(0, i as int), x.value);
        }
        v.insert(p, x);
        proof {
            lemma_trees_of(v@);
            let r = before.subrange(0, i as int);
            lemma_count_ge_props(r, xt.value);
            assert(trees_of(v@).subrange(0, i + 1) =~= insert_desc(r, xt));
            assert(orig.subrange(0, i + 1).drop_last() =~= orig.subrange(0, i as int));
            assert(trees_of(v@).subrange(i + 1, n as int) =~= orig.subrange(i + 1, n as int)) by {
                assert forall|k: int| 0 <= k < n - (i + 1) implies #[trigger] trees_of(v@).subrange(
                    i + 1,
                    n as int,
                )[k] == orig.subrange(i + 1, n as int)[k] by {
                    assert(trees_of(v@)[i + 1 + k] == before[i + 1 + k]);
                    assert(before.subrange(i as int, n as int)[k + 1] == orig.subrange(
                        i as int,
                        n as int,
                    )[k + 1]);
                }
            }
        }
        i += 1;
    }
    assert(trees_of(v@).subrange(0, n as int) =~= trees_of(v@));
    assert(orig.subrange(0, n as int) =~= orig);
}


// ---------------------------------------------------------------------------
// Capping siblings
// ---------------------------------------------------------------------------

/// Name of the node that stands for `n` merged siblings.
pub open spec fn other_label(n: nat) -> Seq<char> {
    seq!['…', ' ', 'o', 't', 'h', 'e', 'r', ' ', '×'] + decimal(n)
}

/// The node that stands for merged siblings of total value `v`.
pub open spec fn other_node(n: nat, v: u64) -> FlameTree {
    FlameTree { name: other_label(n), value: v, children: seq![] }
}

/// Siblings beyond the first `MAX_CHILDREN_PER_NODE` replaced by one node
/// carrying their summed value (dropped where that sum is zero).
pub open spec fn cap_trees(cs: Seq<FlameTree>) -> Seq<FlameTree> {
    let m = MAX_CHILDREN_PER_NODE as int;
    if cs.len() > m {
        let rest = cs.subrange(m, cs.len() as int);
        let tail = sum_values(rest);
        if tail > 0 {
            cs.subrange(0, m).push(other_node(rest.len(), tail as u64))
        } else {
            cs.subrange(0, m)
        }
    } else {
        cs
    }
}

/// Capping keeps at most one sibling more than the cap: the first
/// `MAX_CHILDREN_PER_NODE` unchanged, then at most one merged node, which
/// has no children.
pub proof fn lemma_cap_trees(cs: Seq<FlameTree>)
    ensures
        cap_trees(cs).len() <= MAX_CHILDREN_PER_NODE + 1,
        cs.len() <= MAX_CHILDREN_PER_NODE ==> cap_trees(cs) == cs,
        forall|i: int|
            0 <= i < cs.len() && i < MAX_CHILDREN_PER_NODE ==> #[trigger] cap_trees(cs)[i] == cs[i],
        cap_trees(cs).len() == MAX_CHILDREN_PER_NODE + 1 ==> cap_trees(
            cs,
        )[MAX_CHILDREN_PER_NODE as int].children.len() == 0,
{
}

/// The summed value of the siblings beyond the first
/// `MAX_CHILDREN_PER_NODE` (0 where there are none).
pub open spec fn tail_sum(cs: Seq<FlameTree>) -> int {
    if cs.len() > MAX_CHILDREN_PER_NODE {
        sum_values(cs.subrange(MAX_CHILDREN_PER_NODE as int, cs.len() as int))
    } else {
        0
    }
}

/// The children `sort_and_cap` keeps as they are (and recurses into): the
/// first `MAX_CHILDREN_PER_NODE` in descending order of value.
pub open spec fn kept(cs: Seq<FlameTree>) -> Seq<FlameTree> {
    let s = sort_desc(cs);
    if s.len() > MAX_CHILDREN_PER_NODE {
        s.subrange(0, MAX_CHILDREN_PER_NODE as int)
    } else {
        s
    }
}

pub proof fn lemma_max_height_le(cs: Seq<FlameTree>, h: nat)
    requires
        forall|i: int| 0 <= i < cs.len() ==> height(#[trigger] cs[i]) <= h,
    ensures
        max_height(cs) <= h,
    decreases cs.len(),
{
    if cs.len() > 0 {
        assert forall|i: int| 0 <= i < cs.len() - 1 implies height(#[trigger] cs.drop_last()[i])
            <= h by {
            assert(cs.drop_last()[i] == cs[i]);
        }
        lemma_max_height_le(cs.drop_last(), h);
        assert(height(cs[cs.len() - 1]) <= h);
    }
}

/// Every kept child is one of the children, so none is taller than they
/// are.
pub proof fn lemma_kept(cs: Seq<FlameTree>)
    ensures
        kept(cs).len() <= cs.len(),
        kept(cs).len() <= MAX_CHILDREN_PER_NODE,
        forall|i: int| 0 <= i < kept(cs).len() ==> #[trigger] kept(cs)[i] == sort_desc(cs)[i],
        forall|i: int|
            0 <= i < kept(cs).len() ==> exists|j: int| 0 <= j < cs.len() && #[trigger] kept(cs)[i] == cs[j],
        max_height(kept(cs)) <= max_height(cs),
{
    lemma_sort_desc(cs);
    lemma_max_height(cs);
    let k = kept(cs);
    assert forall|i: int| 0 <= i < k.len() implies exists|j: int| 0 <= j < cs.len() && #[trigger] k[i] == cs[j] by {
        assert(k[i] == sort_desc(cs)[i]);
    }
    assert forall|i: int| 0 <= i < k.len() implies height(#[trigger] k[i]) <= max_height(cs) by {
        let j = choose|j: int| 0 <= j < cs.len() && #[trigger] k[i] == cs[j];
    }
    lemma_max_height_le(k, max_height(cs));
}

/// At the node and, recursively, at every child that ordering and capping
/// keep, the children left beyond the cap have values whose sum fits in a
/// `u64`: the value of the node they are merged into.
pub open spec fn tails_fit(t: FlameTree) -> bool
    decreases height(t), 0nat,
{
    proof {
        lemma_kept(t.children);
    }
    tail_sum(sort_desc(t.children)) <= u64::MAX && all_tails_fit(kept(t.children))
}

pub open spec fn all_tails_fit(cs: Seq<FlameTree>) -> bool
    decreases max_height(cs), cs.len(),
{
    if cs.len() == 0 {
        true
    } else {
        all_tails_fit(cs.drop_last()) && tails_fit(cs.last())
    }
}

pub proof fn lemma_all_tails_fit(cs: Seq<FlameTree>)
    ensures
        all_tails_fit(cs) <==> forall|i: int| 0 <= i < cs.len() ==> #[trigger] tails_fit(cs[i]),
    decreases cs.len(),
{
    if cs.len() > 0 {
        lemma_all_tails_fit(cs.drop_last());
        if all_tails_fit(cs) {
            assert forall|i: int| 0 <= i < cs.len() implies #[trigger] tails_fit(cs[i]) by {
                if i < cs.len() - 1 {
                    assert(cs.drop_last()[i] == cs[i]);
                }
            }
        } else {
            if forall|i: int| 0 <= i < cs.len() ==> #[trigger] tails_fit(cs[i]) {
                assert forall|i: int| 0 <= i < cs.len() - 1 implies #[trigger] tails_fit(
                    cs.drop_last()[i],
                ) by {
                    assert(cs.drop_last()[i] == cs[i]);
                }
                assert(tails_fit(cs[cs.len() - 1]));
            }
        }
    }
}

/// The tree after `sort_and_cap`: at every node, children ordered by value
/// (largest first, stable) and capped.
pub open spec fn sort_cap_tree(t: FlameTree) -> FlameTree
    decreases t,
{
    FlameTree {
        name: t.name,
        value: t.value,
        children: cap_trees(sort_desc(sort_cap_all(t.children))),
    }
}

pub open spec fn sort_cap_all(cs: Seq<FlameTree>) -> Seq<FlameTree>
    decreases cs,
{
    if cs.len() == 0 {
        seq![]
    } else {
        sort_cap_all(cs.drop_last()).push(sort_cap_tree(cs.last()))
    }
}

pub open spec fn height(t: FlameTree) -> nat
    decreases t,
{
    1 + max_height(t.children)
}

pub open spec fn max_height(cs: Seq<FlameTree>) -> nat
    decreases cs,
{
    if cs.len() == 0 {
        0
    } else {
        let a = max_height(cs.drop_last());
        let b = height(cs.last());
        if a >= b {
            a
        } else {
            b
        }
    }
}

pub proof fn lemma_max_height(cs: Seq<FlameTree>)
    ensures
        forall|i: int| 0 <= i < cs.len() ==> height(#[trigger] cs[i]) <= max_height(cs),
    decreases cs.len(),
{
    if cs.len() > 0 {
        lemma_max_height(cs.drop_last());
        assert forall|i: int| 0 <= i < cs.len() implies height(#[trigger] cs[i]) <= max_height(
            cs,
        ) by {
            if i < cs.len() - 1 {
                assert(cs.drop_last()[i] == cs[i]);
            }
        }
    }
}

pub proof fn lemma_sort_cap_all(cs: Seq<FlameTree>)
    ensures
        sort_cap_all(cs).len() == cs.len(),
        forall|i: int| 0 <= i < cs.len() ==> #[trigger] sort_cap_all(cs)[i] == sort_cap_tree(cs[i]),
    decreases cs.len(),
{
    if cs.len() > 0 {
        lemma_sort_cap_all(cs.drop_last());
        assert forall|i: int| 0 <= i < cs.len() implies #[trigger] sort_cap_all(cs)[i]
            == sort_cap_tree(cs[i]) by {
            if i < cs.len() - 1 {
                assert(cs.drop_last()[i] == cs[i]);
            }
        }
    }
}

pub proof fn lemma_sum_values_pointwise(a: Seq<FlameTree>, b: Seq<FlameTree>)
    requires
        a.len() == b.len(),
        forall|i: int| 0 <= i < a.len() ==> (#[trigger] a[i]).value == b[i].value,
    ensures
        sum_values(a) == sum_values(b),
    decreases a.len(),
{
    if a.len() > 0 {
        assert forall|i: int| 0 <= i < a.len() - 1 implies (#[trigger] a.drop_last()[i]).value
            == b.drop_last()[i].value by {
            assert(a.drop_last()[i] == a[i] && b.drop_last()[i] == b[i]);
        }
        lemma_sum_values_pointwise(a.drop_last(), b.drop_last());
    }
}

pub proof fn lemma_sum_values_prefix(a: Seq<FlameTree>, i: int)
    requires
        0 <= i <= a.len(),
    ensures
        sum_values(a.subrange(0, i)) <= sum_values(a),
        sum_values(a.subrange(i, a.len() as int)) <= sum_values(a),
{
    assert(a =~= a.subrange(0, i) + a.subrange(i, a.len() as int));
    lemma_sum_values_add(a.subrange(0, i), a.subrange(i, a.len() as int));
    lemma_sum_values_nonneg(a.subrange(0, i));
    lemma_sum_values_nonneg(a.subrange(i, a.len() as int));
}

proof fn lemma_sort_desc_commutes(cs: Seq<FlameTree>)
    ensures
        sort_desc(sort_cap_all(cs)) == sort_cap_all(sort_desc(cs)),
    decreases cs.len(),
{
    lemma_sort_cap_all(cs);
    lemma_sort_desc(cs);
    lemma_sort_cap_all(sort_desc(cs));
    if cs.len() > 0 {
        let c0 = cs.drop_last();
        let x = cs.last();
        lemma_sort_desc_commutes(c0);
        lemma_sort_cap_all(c0);
        assert(sort_cap_all(cs).drop_last() =~= sort_cap_all(c0));
        let r = sort_desc(c0);
        let fr = sort_cap_all(r);
        lemma_sort_desc(c0);
        lemma_sort_cap_all(r);
        // count_ge only looks at values, which sort_cap_tree keeps
        lemma_count_ge_props(r, x.value);
        let p = count_ge(r, x.value) as int;
        assert forall|j: int| 0 <= j < p implies (#[trigger] fr[j]).value >= x.value by {
            assert(fr[j] == sort_cap_tree(r[j]));
        }
        if p < fr.len() {
            assert(fr[p] == sort_cap_tree(r[p]));
        }
        lemma_count_ge(fr, sort_cap_tree(x).value, p);
        let ins = insert_desc(r, x);
        lemma_insert_desc(r, x);
        lemma_sort_cap_all(ins);
        assert(insert_desc(fr, sort_cap_tree(x)) =~= sort_cap_all(ins)) by {
            assert forall|k: int| 0 <= k < ins.len() implies #[trigger] insert_desc(
                fr,
                sort_cap_tree(x),
            )[k] == sort_cap_all(ins)[k] by {
                if k < p {
                    assert(ins[k] == r[k]);
                } else if k > p {
                    assert(ins[k] == r[k - 1]);
                }
            }
        }
    }
}

proof fn lemma_sort_cap_other(n: nat, v: u64)
    ensures
        sort_cap_tree(other_node(n, v)) == other_node(n, v),
{
    let o = other_node(n, v);
    assert(sort_cap_all(o.children) =~= seq![]);
    assert(sort_desc(Seq::<FlameTree>::empty()) =~= seq![]);
    assert(sort_cap_tree(o).children =~= o.children);
}

proof fn lemma_cap_commutes(cs: Seq<FlameTree>)
    ensures
        sort_cap_all(cap_trees(cs)) == cap_trees(sort_cap_all(cs)),
{
    lemma_sort_cap_all(cs);
    lemma_sort_cap_all(cap_trees(cs));
    let m = MAX_CHILDREN_PER_NODE as int;
    let f = sort_cap_all(cs);
    if cs.len() > m {
        let rest = cs.subrange(m, cs.len() as int);
        let frest = f.subrange(m, f.len() as int);
        assert forall|i: int| 0 <= i < rest.len() implies (#[trigger] rest[i]).value
            == frest[i].value by {
            assert(frest[i] == sort_cap_tree(cs[m + i]));
        }
        lemma_sum_values_pointwise(rest, frest);
        let tail = sum_values(rest);
        if tail > 0 {
            lemma_sort_cap_other(rest.len(), tail as u64);
        }
        assert(sort_cap_all(cap_trees(cs)) =~= cap_trees(f));
    } else {
        assert(sort_cap_all(cap_trees(cs)) =~= cap_trees(f));
    }
}

/// Caps the children `v`, which `sort_by_value_desc` has ordered.
fn cap_children(v: &mut Vec<FlameNode>)
    requires
        tail_sum(trees_of(old(v)@)) <= u64::MAX,
    ensures
        trees_of(final(v)@) == cap_trees(trees_of(old(v)@)),
{
    broadcast use lemma_trees_of;

    let ghost orig = trees_of(v@);
    if v.len() > MAX_CHILDREN_PER_NODE {
        let rest = v.split_off(MAX_CHILDREN_PER_NODE);
        let ghost rt = trees_of(rest@);
        assert(rt =~= orig.subrange(MAX_CHILDREN_PER_NODE as int, orig.len() as int));
        assert(trees_of(v@) =~= orig.subrange(0, MAX_CHILDREN_PER_NODE as int));
        let mut tail: u64 = 0;
        let mut i: usize = 0;
        while i < rest.len()
            invariant
                i <= rest.len(),
                rt == trees_of(rest@),
                rt.len() == rest.len(),
                sum_values(rt) <= u64::MAX,
                tail == sum_values(rt.subrange(0, i as int)),
            decreases rest.len() - i,
        {
            proof {
                assert(rt.subrange(0, i + 1).drop_last() =~= rt.subrange(0, i as int));
                lemma_trees_of(rest@);
                assert(rt[i as int] == tree_of(rest@[i as int]));
                assert(rt.subrange(0, i + 1).last() == rt[i as int]);
                lemma_sum_values_prefix(rt, i + 1);
            }
            tail = tail + rest[i].value;
            i += 1;
        }
        assert(rt.subrange(0, rest.len() as int) =~= rt);
        let merged = rest.len();
        if tail > 0 {
            let mut name = String::new();
            push_char(&mut name, '…');
            push_char(&mut name, ' ');
            push_char(&mut name, 'o');
            push_char(&mut name, 't');
            push_char(&mut name, 'h');
            push_char(&mut name, 'e');
            push_char(&mut name, 'r');
            push_char(&mut name, ' ');
            push_char(&mut name, '×');
            push_decimal(&mut name, merged as u64);
            let other = FlameNode { name, value: tail, children: Vec::new() };
            assert(trees_of(other.children@) =~= seq![]);
            assert(other@.name =~= other_label(merged as nat));
            let ghost kept = v@;
            v.push(other);
            assert(trees_of(v@) =~= trees_of(kept).push(other@));
        }
    }
}

/// Orders every node's children by value (largest first, stable) and caps
/// them at `MAX_CHILDREN_PER_NODE`, the rest merged into one node.
pub fn sort_and_cap(node: &mut FlameNode)
    requires
        tails_fit(old(node)@),
    ensures
        final(node)@ == sort_cap_tree(old(node)@),
    decreases height(old(node)@),
{
    broadcast use lemma_trees_of;

    let ghost orig = node@;
    assert(tails_fit(orig));
    proof {
        lemma_sort_desc(orig.children);
    }
    sort_by_value_desc(&mut node.children);
    cap_children(&mut node.children);
    let ghost sorted = sort_desc(orig.children);
    let ghost k = cap_trees(sorted);
    let ghost m = MAX_CHILDREN_PER_NODE as int;
    proof {
        lemma_max_height(orig.children);
        // every capped child is an original child or the merged node
        lemma_kept(orig.children);
        lemma_all_tails_fit(kept(orig.children));
        assert forall|j: int| 0 <= j < k.len() implies tails_fit(#[trigger] k[j]) && height(k[j])
            < height(orig) by {
            if j < sorted.len() && (sorted.len() <= m || j < m) {
                assert(k[j] == sorted[j]);
                assert(kept(orig.children)[j] == sorted[j]);
                assert(tails_fit(kept(orig.children)[j]));
                let q = choose|q: int| 0 <= q < orig.children.len() && sorted[j] == orig.children[q];
            } else {
                let rest = sorted.subrange(m, sorted.len() as int);
                assert(k[j] == other_node(rest.len(), sum_values(rest) as u64));
                assert(k[j].children =~= seq![]);
                assert(sort_desc(k[j].children) =~= seq![]);
                assert(kept(k[j].children) =~= seq![]);
                lemma_all_tails_fit(kept(k[j].children));
                assert(orig.children.len() > 0);
                assert(height(orig.children[0]) >= 1);
            }
        }
    }
    let n = node.children.len();
    let mut i: usize = 0;
    while i < n
        invariant
            i <= n,
            node.children.len() == n,
            trees_of(node.children@).len() == n,
            orig == old(node)@,
            k.len() == n,
            node.name@ == orig.name,
            node.value == orig.value,
            forall|j: int| 0 <= j < k.len() ==> tails_fit(#[trigger] k[j]) && height(k[j]) < height(
                orig,
            ),
            forall|j: int| 0 <= j < i ==> #[trigger] trees_of(node.children@)[j] == sort_cap_tree(k[j]),
            forall|j: int| i <= j < n ==> #[trigger] trees_of(node.children@)[j] == k[j],
        decreases n - i,
    {
        let ghost before = node.children@;
        proof {
            lemma_trees_of(node.children@);
        }
        assert(trees_of(node.children@)[i as int] == k[i as int]);
        assert(node.children@[i as int]@ == k[i as int]);
        assert(height(node.children@[i as int]@) < height(orig));
        sort_and_cap(&mut node.children[i]);
        assert(node.children@[i as int]@ == sort_cap_tree(k[i as int]));
        assert forall|j: int| 0 <= j < n && j != i implies #[trigger] node.children@[j]
            == before[j] by {}
        proof {
            lemma_trees_of(node.children@);
            lemma_trees_of(before);
            assert forall|j: int| 0 <= j < i + 1 implies #[trigger] trees_of(node.children@)[j]
                == sort_cap_tree(k[j]) by {
                if j < i {
                    assert(node.children@[j] == before[j]);
                    assert(trees_of(before)[j] == sort_cap_tree(k[j]));
                }
            }
            assert forall|j: int| i + 1 <= j < n implies #[trigger] trees_of(node.children@)[j]
                == k[j] by {
                assert(node.children@[j] == before[j]);
                assert(trees_of(before)[j] == k[j]);
            }
        }
        i += 1;
    }
    proof {
        lemma_sort_cap_all(k);
        assert(trees_of(node.children@) =~= sort_cap_all(k));
        lemma_cap_commutes(sorted);
        lemma_sort_desc_commutes(orig.children);
        assert(node@.children =~= sort_cap_tree(orig).children);
    }
}

} // verus!
