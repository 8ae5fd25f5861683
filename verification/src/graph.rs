//! Depth-first walks over directed graphs whose nodes are numbered from zero.
//!
//! A graph is a sequence of successor lists: `g[u]` lists the nodes that `u`
//! points at. Both the order in which targets are built and the set of headers
//! a source file depends on are read off such a walk.

use vstd::prelude::*;

verus! {

/// A directed graph: `g[u]` holds the successors of node `u`.
pub type Graph = Seq<Seq<usize>>;

/// The state of a walk: which nodes were entered, and the nodes that were
/// left, in the order in which the walk left them.
pub struct Walk {
    pub seen: Seq<bool>,
    pub order: Seq<usize>,
}

/// The walk state made of the given marks and order.
pub open spec fn state(seen: Seq<bool>, order: Seq<usize>) -> Walk {
    Walk { seen, order }
}

/// The graph that a vector of successor lists stands for.
pub open spec fn graph_of(adj: &Vec<Vec<usize>>) -> Graph {
    Seq::new(adj@.len(), |u: int| adj@[u]@)
}

/// The state before anything was visited, for a graph of `n` nodes.
pub open spec fn unvisited(n: nat) -> Walk {
    Walk { seen: Seq::new(n, |u: int| false), order: Seq::empty() }
}

/// How many entries of `seen` are still unset.
pub open spec fn unmarked(seen: Seq<bool>) -> nat
    decreases seen.len(),
{
    if seen.len() == 0 {
        0
    } else {
        unmarked(seen.drop_last()) + if seen.last() {
            0nat
        } else {
            1nat
        }
    }
}

/// Node `v` exists and the walk has not entered it yet.
pub open spec fn is_new(g: Graph, v: usize, st: Walk) -> bool {
    v < g.len() && v < st.seen.len() && !st.seen[v as int]
}

/// The walk after visiting `v`: a node entered before is left alone; a new one
/// is marked, its successors are visited in order, and then it is appended to
/// the order.
pub open spec fn visit(g: Graph, v: usize, st: Walk) -> Walk
    decreases unmarked(st.seen), 0nat,
{
    if is_new(g, v, st) {
        proof {
            lemma_mark_one(st.seen, v as int);
        }
        let inner = visit_all(
            g,
            g[v as int],
            Walk { seen: st.seen.update(v as int, true), order: st.order },
        );
        Walk { seen: inner.seen, order: inner.order.push(v) }
    } else {
        st
    }
}

/// The walk after visiting the nodes of `queue` one after the other.
pub open spec fn visit_all(g: Graph, queue: Seq<usize>, st: Walk) -> Walk
    decreases unmarked(st.seen), queue.len() + 1,
{
    if queue.len() == 0 {
        st
    } else {
        let next = visit(g, queue[0], st);
        if unmarked(next.seen) <= unmarked(st.seen) {
            visit_all(g, queue.drop_first(), next)
        } else {
            next
        }
    }
}

/// Setting an unset entry leaves one unset entry fewer.
pub proof fn lemma_mark_one(seen: Seq<bool>, v: int)
    requires
        0 <= v < seen.len(),
        !seen[v],
    ensures
        unmarked(seen.update(v, true)) + 1 == unmarked(seen),
    decreases seen.len(),
{
    let marked = seen.update(v, true);
    if v == seen.len() - 1 {
        assert(marked.drop_last() =~= seen.drop_last());
    } else {
        lemma_mark_one(seen.drop_last(), v);
        assert(marked.drop_last() =~= seen.drop_last().update(v, true));
    }
}

/// `after` continues `before`: no mark is lost and the order only grows.
pub open spec fn continues(before: Walk, after: Walk) -> bool {
    &&& after.seen.len() == before.seen.len()
    &&& forall|u: int| 0 <= u < before.seen.len() && before.seen[u] ==> after.seen[u]
    &&& before.order.len() <= after.order.len()
    &&& after.order.take(before.order.len() as int) == before.order
    &&& unmarked(after.seen) <= unmarked(before.seen)
}

/// A visit continues the walk it started from.
pub proof fn lemma_visit_continues(g: Graph, v: usize, st: Walk)
    ensures
        continues(st, visit(g, v, st)),
    decreases unmarked(st.seen), 0nat,
{
    if is_new(g, v, st) {
        lemma_mark_one(st.seen, v as int);
        let marked = Walk { seen: st.seen.update(v as int, true), order: st.order };
        lemma_visit_all_continues(g, g[v as int], marked);
        let inner = visit_all(g, g[v as int], marked);
        let out = visit(g, v, st);
        assert(out.order.take(st.order.len() as int) =~= inner.order.take(st.order.len() as int));
    } else {
        assert(st.order.take(st.order.len() as int) =~= st.order);
    }
}

/// Visiting a list of nodes continues the walk it started from.
pub proof fn lemma_visit_all_continues(g: Graph, queue: Seq<usize>, st: Walk)
    ensures
        continues(st, visit_all(g, queue, st)),
    decreases unmarked(st.seen), queue.len() + 1,
{
    if queue.len() == 0 {
        assert(st.order.take(st.order.len() as int) =~= st.order);
    } else {
        lemma_visit_continues(g, queue[0], st);
        let next = visit(g, queue[0], st);
        lemma_visit_all_continues(g, queue.drop_first(), next);
        let out = visit_all(g, queue.drop_first(), next);
        assert(out.order.take(st.order.len() as int) =~= out.order.take(
            next.order.len() as int,
        ).take(st.order.len() as int));
    }
}

/// Visiting a list is visiting its first node and then the rest.
pub proof fn lemma_visit_all_step(g: Graph, queue: Seq<usize>, st: Walk)
    requires
        queue.len() > 0,
    ensures
        visit_all(g, queue, st) == visit_all(g, queue.drop_first(), visit(g, queue[0], st)),
{
    lemma_visit_continues(g, queue[0], st);
}

/// Every successor listed in `g` is a node of `g`.
pub open spec fn in_bounds(g: Graph) -> bool {
    forall|u: int, k: int|
        0 <= u < g.len() && 0 <= k < g[u].len() ==> (#[trigger] g[u][k]) < g.len()
}

/// `g` has an edge from `u` to `w`.
pub open spec fn edge(g: Graph, u: usize, w: usize) -> bool {
    u < g.len() && g[u as int].contains(w)
}

/// `p` is a path of `g`: one node or more, each pointing at the next.
pub open spec fn is_path(g: Graph, p: Seq<usize>) -> bool {
    &&& p.len() > 0
    &&& forall|i: int| 0 <= i < p.len() ==> (#[trigger] p[i]) < g.len()
    &&& forall|i: int| #![trigger p[i]] 0 <= i < p.len() - 1 ==> edge(g, p[i], p[i + 1])
}

/// `p` is a path of `g` that leads from `u` to `w`.
pub open spec fn path_between(g: Graph, p: Seq<usize>, u: usize, w: usize) -> bool {
    is_path(g, p) && p[0] == u && p[p.len() - 1] == w
}

/// Some path of `g` leads from `u` to `w`; every node reaches itself.
pub open spec fn reaches(g: Graph, u: usize, w: usize) -> bool {
    exists|p: Seq<usize>| path_between(g, p, u, w)
}

/// Some node of `roots` reaches `x`.
pub open spec fn reaches_from_any(g: Graph, roots: Seq<usize>, x: usize) -> bool {
    exists|k: int| 0 <= k < roots.len() && reaches(g, #[trigger] roots[k], x)
}

/// `g` has a cycle: an edge whose head leads back to its tail.
pub open spec fn has_cycle(g: Graph) -> bool {
    exists|u: usize, w: usize| edge(g, u, w) && reaches(g, w, u)
}

/// No node occurs twice in `order`.
pub open spec fn distinct(order: Seq<usize>) -> bool {
    forall|i: int, j: int| 0 <= i < j < order.len() ==> order[i] != order[j]
}

/// Every node of `order` stands behind all of its successors.
pub open spec fn is_topological(g: Graph, order: Seq<usize>) -> bool {
    forall|i: int, k: int|
        0 <= i < order.len() && order[i] < g.len() && 0 <= k < g[order[i] as int].len()
            ==> order.take(i).contains(#[trigger] g[order[i] as int][k])
}

/// The successor `w` of the node at place `i` of the order is accounted for:
/// it stands before that node, or it was entered and leads back to that node.
pub open spec fn settled(g: Graph, st: Walk, i: int, w: usize) -> bool {
    st.order.take(i).contains(w) || (w < st.seen.len() && st.seen[w as int] && reaches(
        g,
        w,
        st.order[i],
    ))
}

/// `stack` is empty or a path of `g`.
pub open spec fn is_chain(g: Graph, stack: Seq<usize>) -> bool {
    stack.len() > 0 ==> is_path(g, stack)
}

/// What holds of a walk while the nodes of `stack` are entered and not yet
/// left.
pub open spec fn walk_inv(g: Graph, st: Walk, stack: Seq<usize>) -> bool {
    &&& st.seen.len() == g.len()
    &&& forall|i: int| 0 <= i < st.order.len() ==> (#[trigger] st.order[i]) < g.len()
    &&& distinct(st.order)
    &&& forall|u: usize|
        u < g.len() ==> (#[trigger] st.seen[u as int] <==> st.order.contains(u) || stack.contains(
            u,
        ))
    &&& forall|i: int| 0 <= i < st.order.len() ==> !stack.contains(#[trigger] st.order[i])
    &&& forall|i: int, k: int|
        0 <= i < st.order.len() && 0 <= k < g[st.order[i] as int].len() ==> settled(
            g,
            st,
            i,
            #[trigger] g[st.order[i] as int][k],
        )
}

/// Every node of `queue` is a node of `g`, and a successor of the top of
/// `stack` where there is one.
pub open spec fn may_follow(g: Graph, stack: Seq<usize>, queue: Seq<usize>) -> bool {
    forall|k: int|
        0 <= k < queue.len() ==> (#[trigger] queue[k]) < g.len() && (stack.len() > 0 ==> edge(
            g,
            stack.last(),
            queue[k],
        ))
}

/// Every node that `after` appended to the order of `before` is reached from
/// a node of `roots`.
pub open spec fn grown_from(g: Graph, roots: Seq<usize>, before: Walk, after: Walk) -> bool {
    forall|i: int|
        before.order.len() <= i < after.order.len() ==> reaches_from_any(
            g,
            roots,
            #[trigger] after.order[i],
        )
}

/// An edge followed by a path is a path.
pub proof fn lemma_edge_then_reaches(g: Graph, u: usize, w: usize, x: usize)
    requires
        edge(g, u, w),
        reaches(g, w, x),
    ensures
        reaches(g, u, x),
{
    let p = choose|p: Seq<usize>| path_between(g, p, w, x);
    let q = seq![u] + p;
    assert forall|i: int| #![trigger q[i]] 0 <= i < q.len() - 1 implies edge(g, q[i], q[i + 1]) by {
        if i > 0 {
            assert(q[i] == p[i - 1]);
            assert(q[i + 1] == p[i - 1 + 1]);
        }
    }
    assert(path_between(g, q, u, x));
}

/// A node of the graph reaches itself.
pub proof fn lemma_reaches_self(g: Graph, u: usize)
    requires
        u < g.len(),
    ensures
        reaches(g, u, u),
{
    assert(path_between(g, seq![u], u, u));
}

/// A node on a chain reaches the top of the chain.
proof fn lemma_chain_reaches_top(g: Graph, stack: Seq<usize>, j: int)
    requires
        is_path(g, stack),
        0 <= j < stack.len(),
    ensures
        reaches(g, stack[j], stack.last()),
{
    let p = stack.subrange(j, stack.len() as int);
    assert forall|i: int| #![trigger p[i]] 0 <= i < p.len() - 1 implies edge(g, p[i], p[i + 1]) by {
        assert(p[i] == stack[j + i]);
        assert(p[i + 1] == stack[j + i + 1]);
    }
    assert(path_between(g, p, stack[j], stack.last()));
}

/// The invariant of a walk survives a visit, and what the visit appends is
/// reached from the visited node.
pub proof fn lemma_visit_inv(g: Graph, v: usize, st: Walk, stack: Seq<usize>)
    requires
        in_bounds(g),
        walk_inv(g, st, stack),
        is_chain(g, stack),
        may_follow(g, stack, seq![v]),
    ensures
        walk_inv(g, visit(g, v, st), stack),
        continues(st, visit(g, v, st)),
        visit(g, v, st).seen[v as int],
        grown_from(g, seq![v], st, visit(g, v, st)),
    decreases unmarked(st.seen), 0nat,
{
    lemma_visit_continues(g, v, st);
    assert(seq![v][0] == v);
    let out = visit(g, v, st);
    if is_new(g, v, st) {
        lemma_mark_one(st.seen, v as int);
        let marked = state(st.seen.update(v as int, true), st.order);
        let deeper = stack.push(v);
        let queue = g[v as int];
        assert(deeper[deeper.len() - 1] == v);
        assert forall|u: usize| u < g.len() implies (#[trigger] marked.seen[u as int]
            <==> marked.order.contains(u) || deeper.contains(u)) by {
            if u == v {
                assert(deeper.contains(v));
            } else {
                assert(st.seen[u as int] <==> st.order.contains(u) || stack.contains(u));
                if stack.contains(u) {
                    let j = choose|j: int| 0 <= j < stack.len() && stack[j] == u;
                    assert(deeper[j] == u);
                }
                if deeper.contains(u) {
                    let j = choose|j: int| 0 <= j < deeper.len() && deeper[j] == u;
                    assert(stack[j] == u);
                }
            }
        }
        assert forall|i: int| 0 <= i < marked.order.len() implies !deeper.contains(
            #[trigger] marked.order[i],
        ) by {
            let x = marked.order[i];
            assert(st.order.contains(x));
            assert(st.seen[x as int]);
            if deeper.contains(x) {
                let j = choose|j: int| 0 <= j < deeper.len() && deeper[j] == x;
                assert(stack[j] == x);
            }
        }
        assert forall|i: int, k: int|
            0 <= i < marked.order.len() && 0 <= k < g[marked.order[i] as int].len() implies settled(
            g,
            marked,
            i,
            #[trigger] g[marked.order[i] as int][k],
        ) by {
            assert(settled(g, st, i, g[st.order[i] as int][k]));
        }
        assert(walk_inv(g, marked, deeper));
        assert(is_path(g, deeper)) by {
            assert forall|i: int| 0 <= i < deeper.len() implies (#[trigger] deeper[i]) < g.len() by {
                if i < stack.len() {
                    assert(deeper[i] == stack[i]);
                }
            }
            assert forall|i: int| #![trigger deeper[i]] 0 <= i < deeper.len() - 1 implies edge(
                g,
                deeper[i],
                deeper[i + 1],
            ) by {
                assert(deeper[i] == stack[i]);
                if i + 1 < stack.len() {
                    assert(deeper[i + 1] == stack[i + 1]);
                }
            }
        }
        assert(may_follow(g, deeper, queue)) by {
            assert forall|k: int| 0 <= k < queue.len() implies (#[trigger] queue[k]) < g.len()
                && edge(g, deeper.last(), queue[k]) by {
                assert(g[v as int][k] < g.len());
            }
        }
        lemma_visit_all_inv(g, queue, marked, deeper);
        let inner = visit_all(g, queue, marked);
        let n = inner.order.len() as int;
        assert(out.order == inner.order.push(v));
        assert(out.order.take(n) =~= inner.order);
        assert(!inner.order.contains(v)) by {
            if inner.order.contains(v) {
                let j = choose|j: int| 0 <= j < inner.order.len() && inner.order[j] == v;
                assert(!deeper.contains(inner.order[j]));
            }
        }
        assert(!stack.contains(v)) by {
            if stack.contains(v) {
                assert(st.seen[v as int]);
            }
        }
        assert forall|u: usize| u < g.len() implies (#[trigger] out.seen[u as int]
            <==> out.order.contains(u) || stack.contains(u)) by {
            assert(inner.seen[u as int] <==> inner.order.contains(u) || deeper.contains(u));
            if inner.order.contains(u) {
                let j = choose|j: int| 0 <= j < inner.order.len() && inner.order[j] == u;
                assert(out.order[j] == u);
            }
            if deeper.contains(u) {
                let j = choose|j: int| 0 <= j < deeper.len() && deeper[j] == u;
                if j < stack.len() {
                    assert(stack[j] == u);
                } else {
                    assert(out.order[n] == u);
                }
            }
            if out.order.contains(u) {
                let j = choose|j: int| 0 <= j < out.order.len() && out.order[j] == u;
                if j < n {
                    assert(inner.order[j] == u);
                } else {
                    assert(deeper.contains(u));
                }
            }
            if stack.contains(u) {
                let j = choose|j: int| 0 <= j < stack.len() && stack[j] == u;
                assert(deeper[j] == u);
            }
        }
        assert forall|i: int| 0 <= i < out.order.len() implies !stack.contains(
            #[trigger] out.order[i],
        ) by {
            if i < n {
                assert(!deeper.contains(inner.order[i]));
                if stack.contains(inner.order[i]) {
                    let j = choose|j: int| 0 <= j < stack.len() && stack[j] == inner.order[i];
                    assert(deeper[j] == inner.order[i]);
                }
            }
        }
        assert forall|i: int, k: int|
            0 <= i < out.order.len() && 0 <= k < g[out.order[i] as int].len() implies settled(
            g,
            out,
            i,
            #[trigger] g[out.order[i] as int][k],
        ) by {
            let w = g[out.order[i] as int][k];
            if i < n {
                assert(settled(g, inner, i, g[inner.order[i] as int][k]));
                assert(out.order.take(i) =~= inner.order.take(i));
            } else {
                assert(w == queue[k]);
                assert(inner.seen[queue[k] as int]);
                assert(inner.seen[w as int] <==> inner.order.contains(w) || deeper.contains(w));
                if !inner.order.contains(w) {
                    let j = choose|j: int| 0 <= j < deeper.len() && deeper[j] == w;
                    lemma_chain_reaches_top(g, deeper, j);
                }
            }
        }
        assert(distinct(out.order));
        assert(grown_from(g, seq![v], st, out)) by {
            assert forall|i: int| st.order.len() <= i < out.order.len() implies reaches_from_any(
                g,
                seq![v],
                #[trigger] out.order[i],
            ) by {
                if i < n {
                    assert(reaches_from_any(g, queue, inner.order[i]));
                    let k = choose|k: int|
                        0 <= k < queue.len() && reaches(g, #[trigger] queue[k], inner.order[i]);
                    lemma_edge_then_reaches(g, v, queue[k], inner.order[i]);
                } else {
                    lemma_reaches_self(g, v);
                }
                assert(reaches(g, seq![v][0], out.order[i]));
            }
        }
    }
}

/// The invariant of a walk survives visiting a list of nodes, and what those
/// visits append is reached from a node of the list.
pub proof fn lemma_visit_all_inv(g: Graph, queue: Seq<usize>, st: Walk, stack: Seq<usize>)
    requires
        in_bounds(g),
        walk_inv(g, st, stack),
        is_chain(g, stack),
        may_follow(g, stack, queue),
    ensures
        walk_inv(g, visit_all(g, queue, st), stack),
        continues(st, visit_all(g, queue, st)),
        forall|k: int| 0 <= k < queue.len() ==> visit_all(g, queue, st).seen[(#[trigger] queue[k]) as int],
        grown_from(g, queue, st, visit_all(g, queue, st)),
    decreases unmarked(st.seen), queue.len() + 1,
{
    lemma_visit_all_continues(g, queue, st);
    if queue.len() > 0 {
        let rest = queue.drop_first();
        let next = visit(g, queue[0], st);
        let out = visit_all(g, queue, st);
        assert(seq![queue[0]][0] == queue[0]);
        lemma_visit_inv(g, queue[0], st, stack);
        lemma_visit_all_step(g, queue, st);
        assert(may_follow(g, stack, rest)) by {
            assert forall|k: int| 0 <= k < rest.len() implies (#[trigger] rest[k]) < g.len() && (
            stack.len() > 0 ==> edge(g, stack.last(), rest[k])) by {
                assert(rest[k] == queue[k + 1]);
            }
        }
        lemma_visit_all_inv(g, rest, next, stack);
        assert forall|k: int| 0 <= k < queue.len() implies out.seen[(#[trigger] queue[k]) as int] by {
            if k > 0 {
                assert(rest[k - 1] == queue[k]);
            }
        }
        assert forall|i: int| st.order.len() <= i < out.order.len() implies reaches_from_any(
            g,
            queue,
            #[trigger] out.order[i],
        ) by {
            let x = out.order[i];
            if i < next.order.len() {
                assert(out.order.take(next.order.len() as int)[i] == x);
                assert(reaches_from_any(g, seq![queue[0]], next.order[i]));
                let k = choose|k: int|
                    0 <= k < 1 && reaches(g, #[trigger] seq![queue[0]][k], next.order[i]);
                assert(reaches(g, queue[0], x));
            } else {
                assert(reaches_from_any(g, rest, x));
                let k = choose|k: int| 0 <= k < rest.len() && reaches(g, #[trigger] rest[k], x);
                assert(rest[k] == queue[k + 1]);
                assert(reaches(g, queue[k + 1], x));
            }
        }
    }
}

/// The order in which a walk that starts with nothing visited, and visits the
/// nodes of `roots` one after the other, leaves the nodes it enters.
pub open spec fn finish_order(g: Graph, roots: Seq<usize>) -> Seq<usize> {
    visit_all(g, roots, unvisited(g.len())).order
}

/// Every node of `nodes` is a node of `g`.
pub open spec fn all_nodes(g: Graph, nodes: Seq<usize>) -> bool {
    forall|k: int| 0 <= k < nodes.len() ==> (#[trigger] nodes[k]) < g.len()
}

/// In a finished walk, the end of a path is in the order if its start is.
proof fn lemma_order_closed(g: Graph, st: Walk, p: Seq<usize>)
    requires
        walk_inv(g, st, Seq::<usize>::empty()),
        is_path(g, p),
        st.order.contains(p[0]),
    ensures
        st.order.contains(p[p.len() - 1]),
    decreases p.len(),
{
    if p.len() > 1 {
        let i = choose|i: int| 0 <= i < st.order.len() && st.order[i] == p[0];
        assert(edge(g, p[0], p[0int + 1]));
        let k = choose|k: int| 0 <= k < g[p[0] as int].len() && g[p[0] as int][k] == p[1];
        assert(settled(g, st, i, g[st.order[i] as int][k]));
        if st.order.take(i).contains(p[1]) {
            let j = choose|j: int| 0 <= j < st.order.take(i).len() && st.order.take(i)[j] == p[1];
            assert(st.order[j] == p[1]);
        } else {
            assert(st.seen[p[1] as int]);
            assert(!Seq::<usize>::empty().contains(p[1]));
        }
        let rest = p.drop_first();
        assert forall|i: int| #![trigger rest[i]] 0 <= i < rest.len() - 1 implies edge(
            g,
            rest[i],
            rest[i + 1],
        ) by {
            assert(rest[i] == p[i + 1]);
            assert(rest[i + 1] == p[i + 1 + 1]);
        }
        lemma_order_closed(g, st, rest);
    }
}

/// Every successor of a node of `order` stands before that node or leads
/// back to it.
pub open spec fn accounted(g: Graph, order: Seq<usize>) -> bool {
    forall|i: int, k: int|
        0 <= i < order.len() && order[i] < g.len() && 0 <= k < g[order[i] as int].len()
            ==> order.take(i).contains(#[trigger] g[order[i] as int][k]) || reaches(
            g,
            g[order[i] as int][k],
            order[i],
        )
}

/// The node `u` lies on a cycle: one of its edges leads back to it.
pub open spec fn on_cycle(g: Graph, u: usize) -> bool {
    exists|w: usize| edge(g, u, w) && reaches(g, w, u)
}

/// A node that the roots reach lies on a cycle.
pub open spec fn cycle_reached(g: Graph, roots: Seq<usize>) -> bool {
    exists|u: usize| reaches_from_any(g, roots, u) && on_cycle(g, u)
}

/// The order of a finished walk holds each node once, and holds exactly the
/// nodes that the roots reach. Every successor of a node stands before it or
/// leads back to it; so where the graph has no cycle, every node stands
/// behind all of its successors.
pub proof fn lemma_finish_order(g: Graph, roots: Seq<usize>)
    requires
        in_bounds(g),
        all_nodes(g, roots),
    ensures
        distinct(finish_order(g, roots)),
        all_nodes(g, finish_order(g, roots)),
        forall|x: usize| finish_order(g, roots).contains(x) <==> reaches_from_any(g, roots, x),
        accounted(g, finish_order(g, roots)),
        !has_cycle(g) ==> is_topological(g, finish_order(g, roots)),
{
    let start = unvisited(g.len());
    let empty = Seq::<usize>::empty();
    assert(walk_inv(g, start, empty));
    lemma_visit_all_inv(g, roots, start, empty);
    let out = visit_all(g, roots, start);
    let order = out.order;
    assert forall|x: usize| order.contains(x) <==> reaches_from_any(g, roots, x) by {
        if order.contains(x) {
            let i = choose|i: int| 0 <= i < order.len() && order[i] == x;
            assert(reaches_from_any(g, roots, out.order[i]));
        }
        if reaches_from_any(g, roots, x) {
            let k = choose|k: int| 0 <= k < roots.len() && reaches(g, #[trigger] roots[k], x);
            let p = choose|p: Seq<usize>| path_between(g, p, roots[k], x);
            assert(out.seen[roots[k] as int]);
            assert(!empty.contains(roots[k]));
            lemma_order_closed(g, out, p);
        }
    }
    assert forall|i: int, k: int|
        0 <= i < order.len() && order[i] < g.len() && 0 <= k < g[order[i] as int].len()
            implies order.take(i).contains(#[trigger] g[order[i] as int][k]) || reaches(
        g,
        g[order[i] as int][k],
        order[i],
    ) by {
        assert(settled(g, out, i, g[out.order[i] as int][k]));
    }
    if !has_cycle(g) {
        assert forall|i: int, k: int|
            0 <= i < order.len() && order[i] < g.len() && 0 <= k < g[order[i] as int].len()
                implies order.take(i).contains(#[trigger] g[order[i] as int][k]) by {
            let w = g[order[i] as int][k];
            if !order.take(i).contains(w) {
                assert(edge(g, order[i], w));
            }
        }
    }
}

/// Along a path, the order of a topological arrangement only goes down: the
/// end of a path that starts at place `i` stands at `i` or before it, and
/// before it where the path has an edge.
proof fn lemma_path_descends(g: Graph, order: Seq<usize>, p: Seq<usize>, i: int) -> (j: int)
    requires
        is_topological(g, order),
        is_path(g, p),
        0 <= i < order.len(),
        order[i] == p[0],
    ensures
        0 <= j <= i,
        order[j] == p[p.len() - 1],
        p.len() > 1 ==> j < i,
    decreases p.len(),
{
    if p.len() == 1 {
        i
    } else {
        assert(edge(g, p[0], p[0int + 1]));
        let k = choose|k: int| 0 <= k < g[p[0] as int].len() && g[p[0] as int][k] == p[1];
        assert(order.take(i).contains(g[order[i] as int][k]));
        let next = choose|j: int| 0 <= j < order.take(i).len() && order.take(i)[j] == p[1];
        assert(order[next] == p[1]);
        let rest = p.drop_first();
        assert forall|i: int| #![trigger rest[i]] 0 <= i < rest.len() - 1 implies edge(
            g,
            rest[i],
            rest[i + 1],
        ) by {
            assert(rest[i] == p[i + 1]);
            assert(rest[i + 1] == p[i + 1 + 1]);
        }
        lemma_path_descends(g, order, rest, next)
    }
}

/// No edge of a topologically arranged node leads back to that node.
proof fn lemma_not_on_cycle(g: Graph, order: Seq<usize>, i: int, w: usize)
    requires
        is_topological(g, order),
        0 <= i < order.len(),
        edge(g, order[i], w),
    ensures
        !reaches(g, w, order[i]),
    decreases i,
{
    let u = order[i];
    if reaches(g, w, u) {
        let k = choose|k: int| 0 <= k < g[u as int].len() && g[u as int][k] == w;
        assert(order.take(i).contains(g[order[i] as int][k]));
        let at = choose|j: int| 0 <= j < order.take(i).len() && order.take(i)[j] == w;
        assert(order[at] == w);
        let p = choose|p: Seq<usize>| path_between(g, p, w, u);
        let back = lemma_path_descends(g, order, p, at);
        lemma_not_on_cycle(g, order, back, w);
    }
}

/// The order of a finished walk is topological exactly if no node that the
/// roots reach lies on a cycle.
pub proof fn lemma_finish_order_cycle(g: Graph, roots: Seq<usize>)
    requires
        in_bounds(g),
        all_nodes(g, roots),
    ensures
        is_topological(g, finish_order(g, roots)) <==> !cycle_reached(g, roots),
{
    let order = finish_order(g, roots);
    lemma_finish_order(g, roots);
    if is_topological(g, order) && cycle_reached(g, roots) {
        let u = choose|u: usize| reaches_from_any(g, roots, u) && on_cycle(g, u);
        let w = choose|w: usize| edge(g, u, w) && reaches(g, w, u);
        assert(order.contains(u));
        let i = choose|i: int| 0 <= i < order.len() && order[i] == u;
        lemma_not_on_cycle(g, order, i, w);
    }
    if !is_topological(g, order) {
        let (i, k) = choose|i: int, k: int|
            0 <= i < order.len() && order[i] < g.len() && 0 <= k < g[order[i] as int].len()
                && !order.take(i).contains(#[trigger] g[order[i] as int][k]);
        let w = g[order[i] as int][k];
        assert(edge(g, order[i], w));
        assert(reaches(g, w, order[i]));
        assert(order.contains(order[i]));
        assert(reaches_from_any(g, roots, order[i]) && on_cycle(g, order[i]));
    }
}

/// A graph whose nodes can all be arranged topologically has no cycle.
pub proof fn lemma_topological_acyclic(g: Graph, order: Seq<usize>)
    requires
        is_topological(g, order),
        forall|u: usize| u < g.len() ==> order.contains(u),
    ensures
        !has_cycle(g),
{
    if has_cycle(g) {
        let (u, w) = choose|u: usize, w: usize| edge(g, u, w) && reaches(g, w, u);
        assert(order.contains(u));
        let i = choose|i: int| 0 <= i < order.len() && order[i] == u;
        lemma_not_on_cycle(g, order, i, w);
    }
}

/// The successor at place `k` of the node at place `i` of `order` does not
/// stand before that node.
pub open spec fn misplaced(g: Graph, order: Seq<usize>, i: int, k: int) -> bool {
    &&& 0 <= i < order.len()
    &&& order[i] < g.len()
    &&& 0 <= k < g[order[i] as int].len()
    &&& !order.take(i).contains(g[order[i] as int][k])
}

/// Visits `v`, entering every node that can be reached from it and was not
/// entered before, and appends each to `order` when the walk leaves it.
pub fn walk_from(adj: &Vec<Vec<usize>>, v: usize, seen: &mut Vec<bool>, order: &mut Vec<usize>)
    ensures
        state(final(seen)@, final(order)@) == visit(
            graph_of(adj),
            v,
            state(old(seen)@, old(order)@),
        ),
    decreases unmarked(old(seen)@),
{
    let ghost g = graph_of(adj);
    let ghost start = state(seen@, order@);
    if v < adj.len() && v < seen.len() && !seen[v] {
        seen.set(v, true);
        let ghost marked = state(seen@, order@);
        proof {
            lemma_mark_one(start.seen, v as int);
        }
        let succs = &adj[v];
        let mut i: usize = 0;
        assert(succs@.skip(0) =~= succs@);
        while i < succs.len()
            invariant
                i <= succs.len(),
                g == graph_of(adj),
                visit_all(g, succs@.skip(i as int), state(seen@, order@))
                    == visit_all(g, succs@, marked),
                unmarked(seen@) < unmarked(start.seen),
                start.seen == old(seen)@,
            decreases succs.len() - i,
        {
            let ghost cur = state(seen@, order@);
            proof {
                lemma_visit_all_step(g, succs@.skip(i as int), cur);
                lemma_visit_continues(g, succs@[i as int], cur);
                assert(succs@.skip(i as int).drop_first() =~= succs@.skip(i + 1));
            }
            walk_from(adj, succs[i], seen, order);
            i += 1;
        }
        assert(succs@.skip(i as int) =~= Seq::<usize>::empty());
        order.push(v);
    }
}

/// Visits the nodes of `roots` one after the other, starting from a state in
/// which nothing was visited, and returns the nodes in the order in which the
/// walk left them.
pub fn walk_order(adj: &Vec<Vec<usize>>, roots: &Vec<usize>) -> (order: Vec<usize>)
    ensures
        order@ == visit_all(graph_of(adj), roots@, unvisited(adj@.len())).order,
{
    let ghost g = graph_of(adj);
    let mut seen: Vec<bool> = Vec::new();
    let mut n: usize = 0;
    while n < adj.len()
        invariant
            n <= adj.len(),
            seen@ =~= Seq::new(n as nat, |u: int| false),
        decreases adj.len() - n,
    {
        seen.push(false);
        n += 1;
    }
    let mut order: Vec<usize> = Vec::new();
    let mut i: usize = 0;
    assert(roots@.skip(0) =~= roots@);
    while i < roots.len()
        invariant
            i <= roots.len(),
            g == graph_of(adj),
            visit_all(g, roots@.skip(i as int), state(seen@, order@))
                == visit_all(g, roots@, unvisited(adj@.len())),
        decreases roots.len() - i,
    {
        let ghost cur = state(seen@, order@);
        proof {
            lemma_visit_all_step(g, roots@.skip(i as int), cur);
            assert(roots@.skip(i as int).drop_first() =~= roots@.skip(i + 1));
        }
        walk_from(adj, roots[i], &mut seen, &mut order);
        i += 1;
    }
    assert(roots@.skip(i as int) =~= Seq::<usize>::empty());
    order
}

/// Looks for a successor that does not stand before its node in `order`:
/// the first such node of the order and its first such successor, as places
/// in `order` and in the node's successor list.
pub fn first_misplaced(adj: &Vec<Vec<usize>>, order: &Vec<usize>) -> (found: Option<(usize, usize)>)
    requires
        all_nodes(graph_of(adj), order@),
        in_bounds(graph_of(adj)),
    ensures
        found is None <==> is_topological(graph_of(adj), order@),
        found matches Some((i, k)) ==> {
            &&& misplaced(graph_of(adj), order@, i as int, k as int)
            &&& forall|a: int, b: int|
                misplaced(graph_of(adj), order@, a, b) ==> i < a || (i == a && k <= b)
        },
{
    let ghost g = graph_of(adj);
    let mut placed: Vec<bool> = Vec::new();
    let mut n: usize = 0;
    while n < adj.len()
        invariant
            n <= adj.len(),
            placed@ =~= Seq::new(n as nat, |u: int| false),
        decreases adj.len() - n,
    {
        placed.push(false);
        n += 1;
    }
    let mut i: usize = 0;
    while i < order.len()
        invariant
            i <= order.len(),
            g == graph_of(adj),
            all_nodes(g, order@),
            in_bounds(g),
            placed@.len() == adj@.len(),
            forall|x: usize| x < placed@.len() ==> (#[trigger] placed@[x as int] <==> order@.take(i as int).contains(x)),
            forall|a: int, b: int| misplaced(g, order@, a, b) ==> i <= a,
        decreases order.len() - i,
    {
        let u = order[i];
        let succs = &adj[u];
        let mut k: usize = 0;
        while k < succs.len()
            invariant
                k <= succs.len(),
                i < order.len(),
                u == order@[i as int],
                u < adj@.len(),
                succs@ == g[u as int],
                g == graph_of(adj),
                in_bounds(g),
                placed@.len() == adj@.len(),
                forall|x: usize| x < placed@.len() ==> (#[trigger] placed@[x as int] <==> order@.take(i as int).contains(x)),
                forall|a: int, b: int| misplaced(g, order@, a, b) ==> i < a || (i == a && k <= b),
            decreases succs.len() - k,
        {
            let w = succs[k];
            assert(g[u as int][k as int] < g.len());
            if !placed[w] {
                assert(misplaced(g, order@, i as int, k as int));
                return Some((i, k));
            }
            k += 1;
        }
        placed.set(u, true);
        proof {
            let before = order@.take(i as int);
            let after = order@.take(i + 1);
            assert(after =~= before.push(u));
            assert forall|x: usize| x < placed@.len() implies (#[trigger] placed@[x as int]
                <==> after.contains(x)) by {
                if before.contains(x) {
                    let j = choose|j: int| 0 <= j < before.len() && before[j] == x;
                    assert(after[j] == x);
                }
                if x == u {
                    assert(after[i as int] == u);
                }
                if after.contains(x) {
                    let j = choose|j: int| 0 <= j < after.len() && after[j] == x;
                    if j < i {
                        assert(before[j] == x);
                    }
                }
            }
        }
        i += 1;
    }
    proof {
        assert forall|a: int, b: int|
            0 <= a < order@.len() && order@[a] < g.len() && 0 <= b < g[order@[a] as int].len()
                implies order@.take(a).contains(#[trigger] g[order@[a] as int][b]) by {
            if !order@.take(a).contains(g[order@[a] as int][b]) {
                assert(misplaced(g, order@, a, b));
            }
        }
    }
    None
}

} // verus!
