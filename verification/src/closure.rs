//! Dependency closures: the nodes that a node of a graph reaches, put in an
//! order in which what a node depends on comes before the node.
//!
//! A graph is a sequence of nodes, each with the list of the nodes it depends
//! on; a node is its place in the sequence.

use vstd::prelude::*;

verus! {

/// The lists of a graph, each as a sequence.
pub open spec fn graph_of(lists: Seq<Vec<usize>>) -> Seq<Seq<usize>> {
    Seq::new(lists.len(), |i: int| lists[i]@)
}

/// Every list of `g` names nodes of `g` only.
pub open spec fn graph_wf(g: Seq<Seq<usize>>) -> bool {
    forall|a: int, k: int|
        0 <= a < g.len() && 0 <= k < g[a].len() ==> (#[trigger] g[a][k]) < g.len()
}

/// Node `a` of `g` depends on `b`.
pub open spec fn edge(g: Seq<Seq<usize>>, a: usize, b: usize) -> bool {
    a < g.len() && g[a as int].contains(b)
}

/// `p` is a walk through `g` along its dependencies.
pub open spec fn is_path(g: Seq<Seq<usize>>, p: Seq<usize>) -> bool {
    &&& p.len() >= 1
    &&& p[0] < g.len()
    &&& forall|k: int| 0 <= k < p.len() - 1 ==> edge(g, #[trigger] p[k], p[k + 1])
}

/// From node `a` a walk along the dependencies leads to `b`; every node
/// reaches itself.
pub open spec fn reaches(g: Seq<Seq<usize>>, a: usize, b: usize) -> bool {
    exists|p: Seq<usize>| #[trigger] is_path(g, p) && p[0] == a && p.last() == b
}

/// No node of `g` depends on a node that reaches it.
pub open spec fn acyclic(g: Seq<Seq<usize>>) -> bool {
    forall|a: usize, b: usize| #[trigger] edge(g, a, b) ==> !reaches(g, b, a)
}

/// `d` stands in `order` before place `p`.
pub open spec fn comes_before(order: Seq<usize>, d: usize, p: int) -> bool {
    exists|q: int| 0 <= q < p && #[trigger] order[q] == d
}

/// `order` is a dependency closure of `root` in `g`: it holds the nodes that
/// `root` reaches, each once and `root` last, and whatever a node depends on
/// comes before the node, unless the two lie on a cycle.
pub open spec fn is_closure_order(g: Seq<Seq<usize>>, root: usize, order: Seq<usize>) -> bool {
    &&& order.no_duplicates()
    &&& forall|x: usize| order.contains(x) <==> reaches(g, root, x)
    &&& order.len() >= 1
    &&& order.last() == root
    &&& forall|p: int, d: usize|
        0 <= p < order.len() && #[trigger] edge(g, order[p], d) ==> comes_before(order, d, p)
            || reaches(g, d, order[p])
}

pub proof fn lemma_reaches_self(g: Seq<Seq<usize>>, a: usize)
    requires
        a < g.len(),
    ensures
        reaches(g, a, a),
{
    let p = seq![a];
    assert(is_path(g, p) && p[0] == a && p.last() == a);
}

pub proof fn lemma_reaches_step(g: Seq<Seq<usize>>, a: usize, b: usize, c: usize)
    requires
        reaches(g, a, b),
        edge(g, b, c),
    ensures
        reaches(g, a, c),
{
    let p = choose|p: Seq<usize>| #[trigger] is_path(g, p) && p[0] == a && p.last() == b;
    let q = p.push(c);
    assert forall|k: int| 0 <= k < q.len() - 1 implies edge(g, #[trigger] q[k], q[k + 1]) by {
        if k < p.len() - 1 {
            assert(q[k] == p[k] && q[k + 1] == p[k + 1]);
            assert(edge(g, p[k], p[k + 1]));
        } else {
            assert(q[k] == b && q[k + 1] == c);
        }
    }
    assert(is_path(g, q) && q[0] == a && q.last() == c);
}

/// A set of nodes that holds `root` and, with a node, all that it depends on,
/// holds all that `root` reaches.
pub proof fn lemma_closed_set_holds_reach(
    g: Seq<Seq<usize>>,
    root: usize,
    nodes: Set<usize>,
    x: usize,
)
    requires
        nodes.contains(root),
        forall|a: usize, b: usize| nodes.contains(a) && #[trigger] edge(g, a, b) ==> nodes.contains(b),
        reaches(g, root, x),
    ensures
        nodes.contains(x),
{
    let p = choose|p: Seq<usize>| #[trigger] is_path(g, p) && p[0] == root && p.last() == x;
    lemma_along_path(g, nodes, p, p.len() - 1);
}

proof fn lemma_along_path(g: Seq<Seq<usize>>, nodes: Set<usize>, p: Seq<usize>, k: int)
    requires
        is_path(g, p),
        nodes.contains(p[0]),
        forall|a: usize, b: usize| nodes.contains(a) && #[trigger] edge(g, a, b) ==> nodes.contains(b),
        0 <= k < p.len(),
    ensures
        nodes.contains(p[k]),
    decreases k,
{
    if k > 0 {
        lemma_along_path(g, nodes, p, k - 1);
        assert(edge(g, p[k - 1], p[k]));
    }
}

/// In a graph without cycles, whatever a node of a dependency closure
/// depends on comes before it: the closure can be read from its start with
/// no reference forward.
pub proof fn law_dependencies_come_first(
    g: Seq<Seq<usize>>,
    root: usize,
    order: Seq<usize>,
    p: int,
    d: usize,
)
    requires
        is_closure_order(g, root, order),
        acyclic(g),
        0 <= p < order.len(),
        edge(g, order[p], d),
    ensures
        comes_before(order, d, p),
        order.contains(d),
{
}

/// A dependency closure holds what a node of it depends on.
pub proof fn law_closure_is_closed(
    g: Seq<Seq<usize>>,
    root: usize,
    order: Seq<usize>,
    a: usize,
    b: usize,
)
    requires
        is_closure_order(g, root, order),
        order.contains(a),
        edge(g, a, b),
    ensures
        order.contains(b),
{
    lemma_reaches_step(g, root, a, b);
}

/// How many nodes are not marked.
pub open spec fn unmarked(marks: Seq<bool>) -> nat
    decreases marks.len(),
{
    if marks.len() == 0 {
        0
    } else {
        unmarked(marks.drop_last()) + if marks.last() {
            0nat
        } else {
            1nat
        }
    }
}

pub proof fn lemma_unmarked_update(marks: Seq<bool>, i: int)
    requires
        0 <= i < marks.len(),
        !marks[i],
    ensures
        unmarked(marks.update(i, true)) + 1 == unmarked(marks),
    decreases marks.len(),
{
    let after = marks.update(i, true);
    if i == marks.len() - 1 {
        assert(after.drop_last() =~= marks.drop_last());
    } else {
        lemma_unmarked_update(marks.drop_last(), i);
        assert(after.drop_last() =~= marks.drop_last().update(i, true));
    }
}

pub proof fn lemma_unmarked_monotone(before: Seq<bool>, after: Seq<bool>)
    requires
        before.len() == after.len(),
        forall|i: int| 0 <= i < before.len() && before[i] ==> after[i],
    ensures
        unmarked(after) <= unmarked(before),
    decreases before.len(),
{
    if before.len() > 0 {
        lemma_unmarked_monotone(before.drop_last(), after.drop_last());
    }
}

/// `nodes` holds the node `i`.
pub open spec fn holds_node(nodes: Seq<usize>, i: int) -> bool {
    exists|p: int| 0 <= p < nodes.len() && #[trigger] nodes[p] == i
}

/// The marks `marks` with the nodes of `nodes` marked too.
pub open spec fn mark_all(marks: Seq<bool>, nodes: Seq<usize>) -> Seq<bool> {
    Seq::new(marks.len(), |i: int| marks[i] || holds_node(nodes, i))
}

/// No node is marked.
pub open spec fn no_marks(n: nat) -> Seq<bool> {
    Seq::new(n, |i: int| false)
}

/// The nodes that a search from `node` adds to the order when the nodes of
/// `marks` were found before: nothing where `node` is among them; otherwise
/// what the search adds from each node that `node` depends on, one after
/// the other in the order of its list, and then `node` itself.
pub open spec fn visit_order(g: Seq<Seq<usize>>, node: usize, marks: Seq<bool>) -> Seq<usize>
    decreases unmarked(marks), 0int, 0int,
{
    if node < g.len() && node < marks.len() && !marks[node as int] {
        proof {
            lemma_unmarked_update(marks, node as int);
        }
        list_order(g, g[node as int], 0, marks.update(node as int, true)).push(node)
    } else {
        Seq::empty()
    }
}

/// The nodes that the searches from `deps[k]`, `deps[k + 1]` and so on add
/// to the order, one search after the other, each with what the searches
/// before it found marked.
pub open spec fn list_order(
    g: Seq<Seq<usize>>,
    deps: Seq<usize>,
    k: int,
    marks: Seq<bool>,
) -> Seq<usize>
    decreases unmarked(marks), 1int, deps.len() - k,
{
    if 0 <= k < deps.len() {
        let first = visit_order(g, deps[k], marks);
        proof {
            lemma_unmarked_monotone(marks, mark_all(marks, first));
        }
        first + list_order(g, deps, k + 1, mark_all(marks, first))
    } else {
        Seq::empty()
    }
}

/// The order in which a search from `root` finds the nodes that `root`
/// reaches: of each node first what it depends on, in the order of its list
/// and as far as it was not found before, then the node itself.
pub open spec fn search_order(g: Seq<Seq<usize>>, root: usize) -> Seq<usize> {
    visit_order(g, root, no_marks(g.len()))
}

/// Node `x` is marked.
pub open spec fn marked(marks: Seq<bool>, x: usize) -> bool {
    x < marks.len() && marks[x as int]
}

/// Node `x` is marked and not yet in `order`: the search is inside it.
pub open spec fn open_node(marks: Seq<bool>, order: Seq<usize>, x: usize) -> bool {
    marked(marks, x) && !order.contains(x)
}

/// What holds of the marks and the order throughout a search from `root`.
pub open spec fn search_inv(
    g: Seq<Seq<usize>>,
    root: usize,
    marks: Seq<bool>,
    order: Seq<usize>,
) -> bool {
    &&& marks.len() == g.len()
    &&& order.no_duplicates()
    &&& forall|p: int| 0 <= p < order.len() ==> marked(marks, #[trigger] order[p])
    &&& forall|x: usize| #[trigger] marked(marks, x) ==> reaches(g, root, x)
    &&& forall|p: int, d: usize|
        0 <= p < order.len() && #[trigger] edge(g, order[p], d) ==> marked(marks, d)
    &&& forall|p: int, d: usize|
        0 <= p < order.len() && #[trigger] edge(g, order[p], d) ==> comes_before(order, d, p)
            || reaches(g, d, order[p])
}

/// To mark one list of nodes and then another is to mark the two together.
proof fn lemma_mark_all_twice(marks: Seq<bool>, first: Seq<usize>, second: Seq<usize>)
    ensures
        mark_all(mark_all(marks, first), second) == mark_all(marks, first + second),
{
    let both = first + second;
    assert forall|i: int| 0 <= i < marks.len() implies mark_all(mark_all(marks, first), second)[i]
        == mark_all(marks, both)[i] by {
        if holds_node(first, i) {
            let p = choose|p: int| 0 <= p < first.len() && #[trigger] first[p] == i;
            assert(both[p] == i);
        }
        if holds_node(second, i) {
            let p = choose|p: int| 0 <= p < second.len() && #[trigger] second[p] == i;
            assert(both[first.len() + p] == i);
        }
        if holds_node(both, i) {
            let p = choose|p: int| 0 <= p < both.len() && #[trigger] both[p] == i;
            if p < first.len() {
                assert(first[p] == i);
            } else {
                assert(second[p - first.len()] == i);
            }
        }
    }
    assert(mark_all(mark_all(marks, first), second) =~= mark_all(marks, both));
}

/// What a search from `node` leaves behind, when it starts from marks and an
/// order that meet what holds throughout a search: marks and an order that
/// meet it again, `node` marked and last in the order, and no node left open
/// that was not open before.
proof fn lemma_visit_search(
    g: Seq<Seq<usize>>,
    root: usize,
    node: usize,
    marks: Seq<bool>,
    order: Seq<usize>,
)
    requires
        graph_wf(g),
        node < g.len(),
        search_inv(g, root, marks, order),
        !marks[node as int],
        reaches(g, root, node),
        forall|a: usize| #[trigger] open_node(marks, order, a) ==> reaches(g, a, node),
    ensures
        ({
            let out = visit_order(g, node, marks);
            let marks2 = mark_all(marks, out);
            let order2 = order + out;
            &&& search_inv(g, root, marks2, order2)
            &&& forall|x: usize| marked(marks, x) ==> marked(marks2, x)
            &&& marked(marks2, node)
            &&& out.len() > 0
            &&& out.last() == node
            &&& forall|x: usize| #[trigger]
                open_node(marks2, order2, x) ==> open_node(marks, order, x)
            &&& forall|x: usize| #[trigger]
                open_node(marks, order, x) ==> open_node(marks2, order2, x)
        }),
    decreases unmarked(marks), 0int, 0int,
{
    let deps = g[node as int];
    let marks1 = marks.update(node as int, true);
    lemma_unmarked_update(marks, node as int);
    assert forall|x: usize| #[trigger] marked(marks1, x) implies reaches(g, root, x) by {
        if x != node {
            assert(marked(marks, x));
        }
    }
    assert forall|p: int| 0 <= p < order.len() implies marked(marks1, #[trigger] order[p]) by {
        assert(marked(marks, order[p]));
    }
    assert forall|p: int, d: usize|
        0 <= p < order.len() && #[trigger] edge(g, order[p], d) implies marked(marks1, d) by {
        assert(marked(marks, d));
    }
    assert(!order.contains(node)) by {
        if order.contains(node) {
            let p = choose|p: int| 0 <= p < order.len() && order[p] == node;
            assert(marked(marks, order[p]));
        }
    }
    assert(open_node(marks1, order, node));
    assert forall|a: usize| #[trigger] open_node(marks1, order, a) implies reaches(g, a, node) by {
        if a == node {
            lemma_reaches_self(g, node);
        } else {
            assert(open_node(marks, order, a));
        }
    }
    lemma_list_search(g, root, node, 0, marks1, order);
    let found = list_order(g, deps, 0, marks1);
    let marks2 = mark_all(marks1, found);
    let order2 = order + found;
    let out = visit_order(g, node, marks);
    assert(out == found.push(node));
    let marks3 = mark_all(marks, out);
    let order3 = order + out;
    let last = order2.len() as int;
    assert(order3 =~= order2.push(node));
    assert(marks3 =~= marks2) by {
        assert forall|i: int| 0 <= i < marks.len() implies marks2[i] == marks3[i] by {
            if holds_node(found, i) {
                let p = choose|p: int| 0 <= p < found.len() && #[trigger] found[p] == i;
                assert(out[p] == i);
            }
            if holds_node(out, i) {
                let p = choose|p: int| 0 <= p < out.len() && #[trigger] out[p] == i;
                if p < found.len() {
                    assert(found[p] == i);
                }
            }
            assert(out[found.len() as int] == node);
        }
    }
    assert(open_node(marks2, order2, node));
    assert(order3.no_duplicates()) by {
        assert forall|i: int, j: int| 0 <= i < order3.len() && 0 <= j < order3.len() && i
            != j implies order3[i] != order3[j] by {
            if i < last && j < last {
                assert(order2[i] != order2[j]);
            } else if i < last {
                assert(order2.contains(order2[i]));
            } else {
                assert(order2.contains(order2[j]));
            }
        }
    }
    assert forall|p: int| 0 <= p < order3.len() implies marked(marks2, #[trigger] order3[p]) by {
        if p < last {
            assert(order3[p] == order2[p]);
        }
    }
    assert forall|p: int, d: usize|
        0 <= p < order3.len() && #[trigger] edge(g, order3[p], d) implies marked(marks2, d) by {
        if p < last {
            assert(order3[p] == order2[p]);
            assert(edge(g, order2[p], d));
        } else {
            assert(order3[p] == node);
            let j = choose|j: int| 0 <= j < deps.len() && deps[j] == d;
            assert(marked(marks2, deps[j]));
        }
    }
    assert forall|p: int, d: usize|
        0 <= p < order3.len() && #[trigger] edge(g, order3[p], d) implies comes_before(
        order3,
        d,
        p,
    ) || reaches(g, d, order3[p]) by {
        if p < last {
            assert(order3[p] == order2[p]);
            assert(edge(g, order2[p], d));
            if comes_before(order2, d, p) {
                let q = choose|q: int| 0 <= q < p && #[trigger] order2[q] == d;
                assert(order3[q] == d);
            }
        } else {
            assert(order3[p] == node);
            let j = choose|j: int| 0 <= j < deps.len() && deps[j] == d;
            assert(marked(marks2, deps[j]));
            if order2.contains(d) {
                let q = choose|q: int| 0 <= q < order2.len() && order2[q] == d;
                assert(order3[q] == d);
                assert(comes_before(order3, d, p));
            } else {
                assert(open_node(marks2, order2, d));
                assert(open_node(marks1, order, d));
                assert(reaches(g, d, node));
            }
        }
    }
    assert forall|x: usize| #[trigger] open_node(marks2, order3, x) implies open_node(
        marks,
        order,
        x,
    ) by {
        assert(order3[last] == node);
        if order2.contains(x) {
            let p = choose|p: int| 0 <= p < order2.len() && order2[p] == x;
            assert(order3[p] == x);
        }
        assert(open_node(marks2, order2, x));
        assert(open_node(marks1, order, x));
    }
    assert forall|x: usize| #[trigger] open_node(marks, order, x) implies open_node(
        marks2,
        order3,
        x,
    ) by {
        assert(open_node(marks1, order, x));
        assert(open_node(marks2, order2, x));
        if order3.contains(x) {
            let p = choose|p: int| 0 <= p < order3.len() && order3[p] == x;
            if p < last {
                assert(order2[p] == x);
                assert(order2.contains(x));
            }
        }
    }
    assert forall|x: usize| marked(marks, x) implies marked(marks2, x) by {
        assert(marked(marks1, x));
    }
    assert(order3[last] == node);
    assert(marked(marks2, node));
}

/// What the searches from the nodes that `node` depends on leave behind,
/// from the one at place `k` of its list on: marks and an order that meet
/// what holds throughout a search, every node of the list marked, and the
/// same nodes open as before.
proof fn lemma_list_search(
    g: Seq<Seq<usize>>,
    root: usize,
    node: usize,
    k: int,
    marks: Seq<bool>,
    order: Seq<usize>,
)
    requires
        graph_wf(g),
        node < g.len(),
        0 <= k <= g[node as int].len(),
        search_inv(g, root, marks, order),
        reaches(g, root, node),
        open_node(marks, order, node),
        forall|a: usize| #[trigger] open_node(marks, order, a) ==> reaches(g, a, node),
        forall|j: int| 0 <= j < k ==> marked(marks, #[trigger] g[node as int][j]),
    ensures
        ({
            let rest = list_order(g, g[node as int], k, marks);
            let marks2 = mark_all(marks, rest);
            let order2 = order + rest;
            &&& search_inv(g, root, marks2, order2)
            &&& forall|x: usize| marked(marks, x) ==> marked(marks2, x)
            &&& forall|x: usize| #[trigger]
                open_node(marks2, order2, x) ==> open_node(marks, order, x)
            &&& forall|x: usize| #[trigger]
                open_node(marks, order, x) ==> open_node(marks2, order2, x)
            &&& forall|j: int|
                0 <= j < g[node as int].len() ==> marked(marks2, #[trigger] g[node as int][j])
        }),
    decreases unmarked(marks), 1int, g[node as int].len() - k,
{
    let deps = g[node as int];
    let rest = list_order(g, deps, k, marks);
    if k < deps.len() {
        let d = deps[k];
        assert(d < g.len());
        let first = visit_order(g, d, marks);
        let marks1 = mark_all(marks, first);
        let order1 = order + first;
        assert(edge(g, node, d));
        if !marks[d as int] {
            lemma_reaches_step(g, root, node, d);
            assert forall|a: usize| #[trigger] open_node(marks, order, a) implies reaches(
                g,
                a,
                d,
            ) by {
                lemma_reaches_step(g, a, node, d);
            }
            lemma_visit_search(g, root, d, marks, order);
        } else {
            assert(first =~= Seq::<usize>::empty());
            assert(marks1 =~= marks);
            assert(order1 =~= order);
        }
        assert(marked(marks1, d));
        assert forall|j: int| 0 <= j < k + 1 implies marked(marks1, #[trigger] deps[j]) by {
            if j < k {
                assert(marked(marks, deps[j]));
            }
        }
        assert(open_node(marks1, order1, node));
        assert forall|a: usize| #[trigger] open_node(marks1, order1, a) implies reaches(
            g,
            a,
            node,
        ) by {
            assert(open_node(marks, order, a));
        }
        lemma_unmarked_monotone(marks, marks1);
        lemma_list_search(g, root, node, k + 1, marks1, order1);
        let rest1 = list_order(g, deps, k + 1, marks1);
        assert(rest == first + rest1);
        lemma_mark_all_twice(marks, first, rest1);
        assert(order + rest =~= order1 + rest1);
        let marks2 = mark_all(marks1, rest1);
        let order2 = order1 + rest1;
        assert forall|x: usize| marked(marks, x) implies marked(marks2, x) by {
            assert(marked(marks1, x));
        }
        assert forall|x: usize| #[trigger] open_node(marks2, order2, x) implies open_node(
            marks,
            order,
            x,
        ) by {
            assert(open_node(marks1, order1, x));
        }
        assert forall|x: usize| #[trigger] open_node(marks, order, x) implies open_node(
            marks2,
            order2,
            x,
        ) by {
            assert(open_node(marks1, order1, x));
        }
    } else {
        assert(rest =~= Seq::<usize>::empty());
        assert(mark_all(marks, rest) =~= marks);
        assert(order + rest =~= order);
    }
}

/// The order in which a search from `root` finds the nodes is a dependency
/// closure of `root`: it holds the nodes that `root` reaches, each once and
/// `root` last, and whatever a node depends on comes before the node, unless
/// the two lie on a cycle.
pub proof fn law_search_order_is_closure(g: Seq<Seq<usize>>, root: usize)
    requires
        graph_wf(g),
        root < g.len(),
    ensures
        is_closure_order(g, root, search_order(g, root)),
        forall|p: int|
            0 <= p < search_order(g, root).len() ==> (#[trigger] search_order(g, root)[p])
                < g.len(),
{
    let marks0 = no_marks(g.len());
    let none = Seq::<usize>::empty();
    lemma_reaches_self(g, root);
    assert(forall|x: usize| !marked(marks0, x));
    lemma_visit_search(g, root, root, marks0, none);
    let order = search_order(g, root);
    let marks = mark_all(marks0, order);
    assert(none + order =~= order);
    let nodes = Set::new(|x: usize| order.contains(x));
    assert forall|x: usize| marked(marks, x) implies order.contains(x) by {
        if !order.contains(x) {
            assert(open_node(marks, order, x));
            assert(open_node(marks0, none, x));
            assert(marked(marks0, x));
        }
    }
    assert(nodes.contains(root));
    assert forall|a: usize, b: usize| nodes.contains(a) && #[trigger] edge(
        g,
        a,
        b,
    ) implies nodes.contains(b) by {
        let p = choose|p: int| 0 <= p < order.len() && order[p] == a;
        assert(edge(g, order[p], b));
        assert(marked(marks, b));
    }
    assert forall|x: usize| order.contains(x) <==> reaches(g, root, x) by {
        if order.contains(x) {
            let p = choose|p: int| 0 <= p < order.len() && order[p] == x;
            assert(marked(marks, order[p]));
        }
        if reaches(g, root, x) {
            lemma_closed_set_holds_reach(g, root, nodes, x);
        }
    }
    assert forall|p: int| 0 <= p < order.len() implies (#[trigger] order[p]) < g.len() by {
        assert(marked(marks, order[p]));
    }
}

/// Searches from `node`: marks it and all that it reaches and was not marked,
/// and appends them to `order`, each after what it depends on.
fn visit(lists: &Vec<Vec<usize>>, node: usize, marks: &mut Vec<bool>, order: &mut Vec<usize>)
    requires
        graph_wf(graph_of(lists@)),
        node < lists@.len(),
        old(marks)@.len() == lists@.len(),
        !old(marks)@[node as int],
    ensures
        final(order)@ == old(order)@ + visit_order(graph_of(lists@), node, old(marks)@),
        final(marks)@ == mark_all(old(marks)@, visit_order(graph_of(lists@), node, old(marks)@)),
        unmarked(final(marks)@) < unmarked(old(marks)@),
    decreases unmarked(old(marks)@),
{
    let ghost g = graph_of(lists@);
    let ghost marks0 = marks@;
    let ghost order0 = order@;
    marks.set(node, true);
    let ghost marks1 = marks@;
    proof {
        lemma_unmarked_update(marks0, node as int);
    }
    let deps = &lists[node];
    let mut k: usize = 0;
    while k < deps.len()
        invariant
            g == graph_of(lists@),
            graph_wf(g),
            node < lists@.len(),
            deps@ == lists@[node as int]@,
            k <= deps@.len(),
            marks0 == old(marks)@,
            marks@.len() == g.len(),
            marks1.len() == g.len(),
            unmarked(marks@) <= unmarked(marks1),
            unmarked(marks1) < unmarked(marks0),
            order0 + list_order(g, deps@, 0, marks1) == order@ + list_order(
                g,
                deps@,
                k as int,
                marks@,
            ),
            mark_all(marks1, list_order(g, deps@, 0, marks1)) == mark_all(
                marks@,
                list_order(g, deps@, k as int, marks@),
            ),
        decreases deps@.len() - k,
    {
        let d = deps[k];
        let ghost marks_here = marks@;
        let ghost order_here = order@;
        let ghost first = visit_order(g, d, marks_here);
        proof {
            assert(g[node as int] == deps@);
            assert(g[node as int][k as int] < g.len());
            assert(list_order(g, deps@, k as int, marks_here) == first + list_order(
                g,
                deps@,
                k + 1,
                mark_all(marks_here, first),
            ));
            if marks_here[d as int] {
                assert(first =~= Seq::<usize>::empty());
                assert(mark_all(marks_here, first) =~= marks_here);
                assert(first + list_order(g, deps@, k + 1, marks_here) =~= list_order(
                    g,
                    deps@,
                    k + 1,
                    marks_here,
                ));
            }
        }
        if !marks[d] {
            visit(lists, d, marks, order);
            proof {
                let rest = list_order(g, deps@, k + 1, marks@);
                assert(order_here + (first + rest) =~= (order_here + first) + rest);
                lemma_mark_all_twice(marks_here, first, rest);
            }
        }
        k = k + 1;
    }
    let ghost marks2 = marks@;
    let ghost order2 = order@;
    order.push(node);
    proof {
        let found = list_order(g, deps@, 0, marks1);
        let out = found.push(node);
        assert(list_order(g, deps@, deps@.len() as int, marks2) =~= Seq::<usize>::empty());
        assert(order2 =~= order0 + found);
        assert(mark_all(marks2, Seq::<usize>::empty()) =~= marks2);
        assert(marks2 == mark_all(marks1, found));
        assert(g[node as int] == deps@);
        assert(visit_order(g, node, marks0) == out);
        assert(order@ =~= order0 + out);
        assert(marks2 =~= mark_all(marks0, out)) by {
            assert forall|i: int| 0 <= i < marks0.len() implies mark_all(marks1, found)[i]
                == mark_all(marks0, out)[i] by {
                if holds_node(found, i) {
                    let p = choose|p: int| 0 <= p < found.len() && #[trigger] found[p] == i;
                    assert(out[p] == i);
                }
                if holds_node(out, i) {
                    let p = choose|p: int| 0 <= p < out.len() && #[trigger] out[p] == i;
                    if p < found.len() {
                        assert(found[p] == i);
                    }
                }
                assert(out[found.len() as int] == node);
            }
        }
    }
}

/// The dependency closure of `root`, in the order in which the search finds
/// it: the nodes that `root` reaches, each once, `root` last, and what a node
/// depends on before the node.
pub fn closure_order(lists: &Vec<Vec<usize>>, root: usize) -> (order: Vec<usize>)
    requires
        graph_wf(graph_of(lists@)),
        root < lists@.len(),
    ensures
        order@ == search_order(graph_of(lists@), root),
        is_closure_order(graph_of(lists@), root, order@),
        forall|p: int| 0 <= p < order@.len() ==> (#[trigger] order@[p]) < lists@.len(),
{
    let ghost g = graph_of(lists@);
    let mut marks: Vec<bool> = Vec::new();
    let mut i: usize = 0;
    while i < lists.len()
        invariant
            i <= lists@.len(),
            marks@.len() == i,
            forall|j: int| 0 <= j < i ==> !(#[trigger] marks@[j]),
        decreases lists@.len() - i,
    {
        marks.push(false);
        i = i + 1;
    }
    let mut order: Vec<usize> = Vec::new();
    proof {
        assert(marks@ =~= no_marks(g.len()));
    }
    visit(lists, root, &mut marks, &mut order);
    proof {
        assert(order@ =~= search_order(g, root));
        law_search_order_is_closure(g, root);
    }
    order
}

} // verus!
