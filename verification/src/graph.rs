//! The migration graph: registered migrations as a directed graph whose
//! nodes are `SchemaId`s, with a forward edge for every migration and a
//! reverse edge for every reversible one; and planning over it.
//!
//! Edge `2 * i` is migration `i` walked forward and edge `2 * i + 1` is it
//! walked in reverse. A path is written as its sequence of edges.
use vstd::prelude::*;
use crate::errors::ErrorCode;
use crate::migration::{contract_node, schema_id_text, Migration, SchemaId, SchemaIdView};
use crate::compat::{opt_f64_eq, opt_f64_equal, opt_str_equal};
use crate::document::{DocView, Document};
use crate::schema::{constraint_eq, fields_view, Constraint, ConstraintView, Field, FieldView, Schema};
use crate::text::{push_str, str_eq};
use crate::migration::{check_spec, run_outcome, CheckView, MigrationError, Transform, ValidationPolicy};
use crate::validate::{rendered, renders_floats};

verus! {

/// The node a migration starts from.
pub open spec fn source_node<T: Transform>(m: Migration<T>) -> SchemaIdView {
    contract_node(m.source_spec().contract_spec())
}

/// The node a migration leads to.
pub open spec fn target_node<T: Transform>(m: Migration<T>) -> SchemaIdView {
    contract_node(m.target_spec().contract_spec())
}

/// Edge `e` exists: a forward edge, or the reverse edge of a reversible
/// migration.
pub open spec fn edge_valid<T: Transform>(ms: Seq<Migration<T>>, e: int) -> bool {
    0 <= e < 2 * ms.len() && (e % 2 == 0 || ms[e / 2].reversible_spec())
}

/// Where edge `e` starts.
pub open spec fn edge_src<T: Transform>(ms: Seq<Migration<T>>, e: int) -> SchemaIdView {
    if e % 2 == 0 {
        source_node(ms[e / 2])
    } else {
        target_node(ms[e / 2])
    }
}

/// Where edge `e` leads.
pub open spec fn edge_dst<T: Transform>(ms: Seq<Migration<T>>, e: int) -> SchemaIdView {
    if e % 2 == 0 {
        target_node(ms[e / 2])
    } else {
        source_node(ms[e / 2])
    }
}

/// The node reached after the first `k` edges of `p`, starting at `from`.
pub open spec fn node_at<T: Transform>(ms: Seq<Migration<T>>, from: SchemaIdView, p: Seq<int>, k: int) -> SchemaIdView {
    if k == 0 {
        from
    } else {
        edge_dst(ms, p[k - 1])
    }
}

/// `p` is a chain of existing edges starting at `from`.
pub open spec fn is_walk<T: Transform>(ms: Seq<Migration<T>>, from: SchemaIdView, p: Seq<int>) -> bool {
    forall|k: int|
        0 <= k < p.len() ==> edge_valid(ms, #[trigger] p[k]) && edge_src(ms, p[k]) == node_at(ms, from, p, k)
}

/// `p` continues a search standing at `cur` towards `to`, where `visited`
/// holds the nodes already on the way: at least one edge, ending at `to`,
/// and every node in between is new, distinct, and not `to`.
pub open spec fn is_cont<T: Transform>(
    ms: Seq<Migration<T>>,
    cur: SchemaIdView,
    to: SchemaIdView,
    visited: Seq<SchemaIdView>,
    p: Seq<int>,
) -> bool {
    &&& p.len() >= 1
    &&& is_walk(ms, cur, p)
    &&& node_at(ms, cur, p, p.len() as int) == to
    &&& forall|k: int|
        1 <= k < p.len() ==> #[trigger] node_at(ms, cur, p, k) != to && !visited.contains(node_at(ms, cur, p, k))
    &&& forall|a: int, b: int|
        1 <= a < b < p.len() ==> #[trigger] node_at(ms, cur, p, a) != #[trigger] node_at(ms, cur, p, b)
}

/// `p` is a simple path from `from` to `to`: no node repeats, except that
/// a path from a node back to itself ends where it starts. The empty path
/// leads from a node to itself.
pub open spec fn is_path<T: Transform>(ms: Seq<Migration<T>>, from: SchemaIdView, to: SchemaIdView, p: Seq<int>) -> bool {
    (p.len() == 0 && from == to) || is_cont(ms, from, to, seq![from], p)
}

/// Lexicographic order of edge sequences.
pub open spec fn lex_lt(a: Seq<int>, b: Seq<int>) -> bool
    decreases a.len(),
{
    if a.len() == 0 {
        b.len() > 0
    } else if b.len() == 0 {
        false
    } else if a[0] < b[0] {
        true
    } else if a[0] > b[0] {
        false
    } else {
        lex_lt(a.drop_first(), b.drop_first())
    }
}

/// Strictly increasing in lexicographic order.
pub open spec fn lex_sorted(s: Seq<Seq<int>>) -> bool {
    forall|i: int, j: int| 0 <= i < j < s.len() ==> lex_lt(#[trigger] s[i], #[trigger] s[j])
}

/// `p` has length `n`, where there is a bound.
pub open spec fn fits(p: Seq<int>, bound: Option<nat>) -> bool {
    match bound {
        Some(n) => p.len() == n,
        None => true,
    }
}

/// `cs` lists, in lexicographic order, exactly the continuations from `cur`
/// that fit `bound`.
pub open spec fn conts_exact<T: Transform>(
    ms: Seq<Migration<T>>,
    cur: SchemaIdView,
    to: SchemaIdView,
    visited: Seq<SchemaIdView>,
    bound: Option<nat>,
    cs: Seq<Seq<int>>,
) -> bool {
    &&& forall|i: int| 0 <= i < cs.len() ==> is_cont(ms, cur, to, visited, #[trigger] cs[i]) && fits(cs[i], bound)
    &&& lex_sorted(cs)
    &&& forall|p: Seq<int>| #[trigger] is_cont(ms, cur, to, visited, p) && fits(p, bound) ==> cs.contains(p)
}

/// The number of nodes (counted over the endpoint list `edge_src(0..k)`)
/// not in `visited`.
pub open spec fn unvisited<T: Transform>(ms: Seq<Migration<T>>, visited: Seq<SchemaIdView>, k: int) -> nat
    decreases k,
{
    if k <= 0 {
        0
    } else if visited.contains(edge_src(ms, k - 1)) {
        unvisited(ms, visited, k - 1)
    } else {
        unvisited(ms, visited, k - 1) + 1
    }
}

/// The values of a list of nodes.
pub open spec fn id_views(v: Seq<SchemaId>) -> Seq<SchemaIdView> {
    v.map_values(|x: SchemaId| x@)
}

pub proof fn lemma_unvisited_mono<T: Transform>(ms: Seq<Migration<T>>, visited: Seq<SchemaIdView>, x: SchemaIdView, k: int)
    ensures
        unvisited(ms, visited.push(x), k) <= unvisited(ms, visited, k),
        (exists|j: int| 0 <= j < k && edge_src(ms, j) == x) && !visited.contains(x) ==> unvisited(
            ms,
            visited.push(x),
            k,
        ) < unvisited(ms, visited, k),
    decreases k,
{
    if k > 0 {
        lemma_unvisited_mono(ms, visited, x, k - 1);
        let v2 = visited.push(x);
        assert(v2.contains(x)) by {
            assert(v2[visited.len() as int] == x);
        }
        assert forall|y: SchemaIdView| visited.contains(y) implies v2.contains(y) by {
            let i = choose|i: int| 0 <= i < visited.len() && visited[i] == y;
            assert(v2[i] == y);
        }
        if (exists|j: int| 0 <= j < k && edge_src(ms, j) == x) && !visited.contains(x) {
            let j = choose|j: int| 0 <= j < k && edge_src(ms, j) == x;
            if j < k - 1 {
                assert(exists|j: int| 0 <= j < k - 1 && edge_src(ms, j) == x);
            }
        }
    }
}

/// Every end of an edge is one of the listed endpoints.
pub proof fn lemma_dst_is_endpoint<T: Transform>(ms: Seq<Migration<T>>, e: int)
    requires
        0 <= e < 2 * ms.len(),
    ensures
        exists|j: int| 0 <= j < 2 * ms.len() && edge_src(ms, j) == edge_dst(ms, e),
{
    if e % 2 == 0 {
        assert(edge_src(ms, e + 1) == edge_dst(ms, e));
    } else {
        assert(edge_src(ms, e - 1) == edge_dst(ms, e));
    }
}

/// The nodes along `seq![e] + q` from `cur` are `cur` followed by the nodes
/// along `q` from the end of `e`.
pub proof fn lemma_node_at_cons<T: Transform>(ms: Seq<Migration<T>>, cur: SchemaIdView, e: int, q: Seq<int>)
    ensures
        forall|k: int|
            0 <= k <= q.len() ==> #[trigger] node_at(ms, cur, seq![e] + q, k + 1) == node_at(
                ms,
                edge_dst(ms, e),
                q,
                k,
            ),
{
    let p = seq![e] + q;
    assert forall|k: int| 0 <= k <= q.len() implies #[trigger] node_at(ms, cur, p, k + 1) == node_at(
        ms,
        edge_dst(ms, e),
        q,
        k,
    ) by {
        if k > 0 {
            assert(p[k] == q[k - 1]);
        } else {
            assert(p[0] == e);
        }
    }
}

/// A continuation splits into its first edge and a continuation from where
/// that edge leads, with that node counted as visited.
pub proof fn lemma_cont_split<T: Transform>(
    ms: Seq<Migration<T>>,
    cur: SchemaIdView,
    to: SchemaIdView,
    visited: Seq<SchemaIdView>,
    e: int,
    q: Seq<int>,
)
    ensures
        is_cont(ms, cur, to, visited, seq![e] + q) <==> (edge_valid(ms, e) && edge_src(ms, e) == cur && ((
        q.len() == 0 && edge_dst(ms, e) == to) || (q.len() > 0 && edge_dst(ms, e) != to && !visited.contains(
            edge_dst(ms, e),
        ) && is_cont(ms, edge_dst(ms, e), to, visited.push(edge_dst(ms, e)), q)))),
{
    let p = seq![e] + q;
    let n = edge_dst(ms, e);
    let v2 = visited.push(n);
    lemma_node_at_cons(ms, cur, e, q);
    assert(p[0] == e);
    assert(p.len() == q.len() + 1);
    assert(node_at(ms, cur, p, 0) == cur);
    assert(node_at(ms, cur, p, 1) == n) by {
        assert(node_at(ms, cur, p, 0int + 1) == node_at(ms, n, q, 0));
    }
    assert(node_at(ms, cur, p, p.len() as int) == node_at(ms, n, q, q.len() as int)) by {
        assert(node_at(ms, cur, p, q.len() as int + 1) == node_at(ms, n, q, q.len() as int));
    }
    assert(v2.contains(n)) by {
        assert(v2[visited.len() as int] == n);
    }
    assert forall|y: SchemaIdView| v2.contains(y) <==> (visited.contains(y) || y == n) by {
        if v2.contains(y) {
            let i = choose|i: int| 0 <= i < v2.len() && v2[i] == y;
            if i < visited.len() {
                assert(visited[i] == y);
            }
        }
        if visited.contains(y) {
            let i = choose|i: int| 0 <= i < visited.len() && visited[i] == y;
            assert(v2[i] == y);
        }
    }
    if is_cont(ms, cur, to, visited, p) {
        assert(edge_valid(ms, p[0]));
        if q.len() > 0 {
            assert(node_at(ms, cur, p, 1) != to && !visited.contains(node_at(ms, cur, p, 1)));
            assert forall|k: int| 0 <= k < q.len() implies edge_valid(ms, #[trigger] q[k]) && edge_src(ms, q[k])
                == node_at(ms, n, q, k) by {
                assert(p[k + 1] == q[k]);
                assert(edge_valid(ms, p[k + 1]));
                assert(node_at(ms, cur, p, k + 1) == node_at(ms, n, q, k));
            }
            assert forall|k: int| 1 <= k < q.len() implies #[trigger] node_at(ms, n, q, k) != to && !v2.contains(
                node_at(ms, n, q, k),
            ) by {
                assert(node_at(ms, cur, p, k + 1) == node_at(ms, n, q, k));
                assert(node_at(ms, cur, p, k + 1) != to);
                assert(node_at(ms, cur, p, 1) != node_at(ms, cur, p, k + 1));
            }
            assert forall|a: int, b: int| 1 <= a < b < q.len() implies #[trigger] node_at(ms, n, q, a)
                != #[trigger] node_at(ms, n, q, b) by {
                assert(node_at(ms, cur, p, a + 1) == node_at(ms, n, q, a));
                assert(node_at(ms, cur, p, b + 1) == node_at(ms, n, q, b));
                assert(node_at(ms, cur, p, a + 1) != node_at(ms, cur, p, b + 1));
            }
        }
    }
    if edge_valid(ms, e) && edge_src(ms, e) == cur && ((q.len() == 0 && n == to) || (q.len() > 0 && n != to
        && !visited.contains(n) && is_cont(ms, n, to, v2, q))) {
        assert forall|k: int| 0 <= k < p.len() implies edge_valid(ms, #[trigger] p[k]) && edge_src(ms, p[k])
            == node_at(ms, cur, p, k) by {
            if k > 0 {
                assert(p[k] == q[k - 1]);
                assert(node_at(ms, cur, p, (k - 1) + 1) == node_at(ms, n, q, k - 1));
            }
        }
        assert forall|k: int| 1 <= k < p.len() implies #[trigger] node_at(ms, cur, p, k) != to && !visited.contains(
            node_at(ms, cur, p, k),
        ) by {
            assert(node_at(ms, cur, p, (k - 1) + 1) == node_at(ms, n, q, k - 1));
        }
        assert forall|a: int, b: int| 1 <= a < b < p.len() implies #[trigger] node_at(ms, cur, p, a)
            != #[trigger] node_at(ms, cur, p, b) by {
            assert(node_at(ms, cur, p, (a - 1) + 1) == node_at(ms, n, q, a - 1));
            assert(node_at(ms, cur, p, (b - 1) + 1) == node_at(ms, n, q, b - 1));
        }
    }
}

/// Order by the first edge, then by what follows.
pub proof fn lemma_lex_cons(x: int, a: Seq<int>, y: int, b: Seq<int>)
    ensures
        x < y ==> lex_lt(seq![x] + a, seq![y] + b),
        x == y ==> (lex_lt(seq![x] + a, seq![y] + b) == lex_lt(a, b)),
{
    let s = seq![x] + a;
    let t = seq![y] + b;
    assert(s[0] == x && t[0] == y);
    assert(s.drop_first() =~= a);
    assert(t.drop_first() =~= b);
}

/// A non-empty sequence is its first element followed by the rest.
pub proof fn lemma_split_first(p: Seq<int>)
    requires
        p.len() > 0,
    ensures
        p == seq![p[0]] + p.drop_first(),
{
    assert(p =~= seq![p[0]] + p.drop_first());
}

/// The bound left for what follows a first edge.
pub open spec fn bound_rest(bound: Option<nat>) -> Option<nat> {
    match bound {
        Some(n) => Some((n - 1) as nat),
        None => None,
    }
}

/// `cs` lists, in lexicographic order, exactly the continuations from `cur`
/// that fit `bound` and whose first edge is among `oe[..j]`.
#[verifier::opaque]
pub open spec fn conts_upto<T: Transform>(
    ms: Seq<Migration<T>>,
    cur: SchemaIdView,
    to: SchemaIdView,
    vis: Seq<SchemaIdView>,
    bound: Option<nat>,
    oe: Seq<int>,
    j: int,
    cs: Seq<Seq<int>>,
) -> bool {
    &&& forall|i: int|
        0 <= i < cs.len() ==> is_cont(ms, cur, to, vis, #[trigger] cs[i]) && fits(cs[i], bound) && exists|k: int|
            0 <= k < j && cs[i][0] == #[trigger] oe[k]
    &&& lex_sorted(cs)
    &&& forall|p: Seq<int>|
        #[trigger] is_cont(ms, cur, to, vis, p) && fits(p, bound) && (exists|k: int| 0 <= k < j && p[0] == #[trigger] oe[k])
            ==> cs.contains(p)
}

/// `added` lists, in lexicographic order, exactly the continuations from
/// `cur` that fit `bound` and start with edge `e`.
pub open spec fn conts_via<T: Transform>(
    ms: Seq<Migration<T>>,
    cur: SchemaIdView,
    to: SchemaIdView,
    vis: Seq<SchemaIdView>,
    bound: Option<nat>,
    e: int,
    added: Seq<Seq<int>>,
) -> bool {
    &&& forall|i: int| 0 <= i < added.len() ==> is_cont(ms, cur, to, vis, #[trigger] added[i]) && fits(added[i], bound) && added[i][0] == e
    &&& lex_sorted(added)
    &&& forall|p: Seq<int>| #[trigger] is_cont(ms, cur, to, vis, p) && fits(p, bound) && p[0] == e ==> added.contains(p)
}

pub proof fn lemma_conts_upto_start<T: Transform>(
    ms: Seq<Migration<T>>,
    cur: SchemaIdView,
    to: SchemaIdView,
    vis: Seq<SchemaIdView>,
    bound: Option<nat>,
    oe: Seq<int>,
)
    ensures
        conts_upto(ms, cur, to, vis, bound, oe, 0, Seq::empty()),
{
    reveal(conts_upto);
}

/// Appending the continuations through the next edge of `oe`.
pub proof fn lemma_conts_upto_step<T: Transform>(
    ms: Seq<Migration<T>>,
    cur: SchemaIdView,
    to: SchemaIdView,
    vis: Seq<SchemaIdView>,
    bound: Option<nat>,
    oe: Seq<int>,
    j: int,
    cs: Seq<Seq<int>>,
    added: Seq<Seq<int>>,
)
    requires
        0 <= j < oe.len(),
        forall|a: int, b: int| 0 <= a < b < oe.len() ==> #[trigger] oe[a] < #[trigger] oe[b],
        conts_upto(ms, cur, to, vis, bound, oe, j, cs),
        conts_via(ms, cur, to, vis, bound, oe[j], added),
    ensures
        conts_upto(ms, cur, to, vis, bound, oe, j + 1, cs + added),
{
    reveal(conts_upto);
    let ns = cs + added;
    assert forall|i: int| 0 <= i < ns.len() implies is_cont(ms, cur, to, vis, #[trigger] ns[i]) && fits(ns[i], bound)
        && exists|k: int| 0 <= k < j + 1 && ns[i][0] == #[trigger] oe[k] by {
        if i < cs.len() {
            assert(ns[i] == cs[i]);
        } else {
            assert(ns[i] == added[i - cs.len()]);
            assert(ns[i][0] == oe[j]);
        }
    }
    assert forall|a: int, b: int| 0 <= a < b < ns.len() implies lex_lt(#[trigger] ns[a], #[trigger] ns[b]) by {
        if b < cs.len() {
            assert(ns[a] == cs[a] && ns[b] == cs[b]);
        } else if a >= cs.len() {
            assert(ns[a] == added[a - cs.len()] && ns[b] == added[b - cs.len()]);
        } else {
            assert(ns[a] == cs[a] && ns[b] == added[b - cs.len()]);
            let k = choose|k: int| 0 <= k < j && cs[a][0] == #[trigger] oe[k];
            assert(oe[k] < oe[j]);
            lemma_split_first(ns[a]);
            lemma_split_first(ns[b]);
            lemma_lex_cons(ns[a][0], ns[a].drop_first(), ns[b][0], ns[b].drop_first());
        }
    }
    assert forall|p: Seq<int>|
        #[trigger] is_cont(ms, cur, to, vis, p) && fits(p, bound) && (exists|k: int| 0 <= k < j + 1 && p[0] == #[trigger] oe[k])
        implies ns.contains(p) by {
        let k = choose|k: int| 0 <= k < j + 1 && p[0] == #[trigger] oe[k];
        if k < j {
            let i = choose|i: int| 0 <= i < cs.len() && cs[i] == p;
            assert(ns[i] == p);
        } else {
            let i = choose|i: int| 0 <= i < added.len() && added[i] == p;
            assert(ns[cs.len() + i] == p);
        }
    }
}

/// Once every edge leaving `cur` has been gone through, the list is exact.
pub proof fn lemma_conts_upto_done<T: Transform>(
    ms: Seq<Migration<T>>,
    cur: SchemaIdView,
    to: SchemaIdView,
    vis: Seq<SchemaIdView>,
    bound: Option<nat>,
    oe: Seq<int>,
    cs: Seq<Seq<int>>,
)
    requires
        conts_upto(ms, cur, to, vis, bound, oe, oe.len() as int, cs),
        forall|e: int| edge_valid(ms, e) && edge_src(ms, e) == cur ==> exists|k: int| 0 <= k < oe.len() && #[trigger] oe[k] == e,
    ensures
        conts_exact(ms, cur, to, vis, bound, cs),
{
    reveal(conts_upto);
    assert forall|p: Seq<int>| #[trigger] is_cont(ms, cur, to, vis, p) && fits(p, bound) implies cs.contains(p) by {
        assert(edge_valid(ms, p[0]) && edge_src(ms, p[0]) == node_at(ms, cur, p, 0));
        let k = choose|k: int| 0 <= k < oe.len() && #[trigger] oe[k] == p[0];
    }
}

/// An edge into `to` gives the one-edge continuation, where it fits.
pub proof fn lemma_via_target<T: Transform>(
    ms: Seq<Migration<T>>,
    cur: SchemaIdView,
    to: SchemaIdView,
    vis: Seq<SchemaIdView>,
    bound: Option<nat>,
    e: int,
)
    requires
        edge_valid(ms, e),
        edge_src(ms, e) == cur,
        edge_dst(ms, e) == to,
    ensures
        conts_via(ms, cur, to, vis, bound, e, if fits(seq![e], bound) {
            seq![seq![e]]
        } else {
            Seq::empty()
        }),
{
    lemma_cont_split(ms, cur, to, vis, e, Seq::empty());
    assert(seq![e] + Seq::<int>::empty() =~= seq![e]);
    assert forall|p: Seq<int>| #[trigger] is_cont(ms, cur, to, vis, p) && p[0] == e implies p == seq![e] by {
        lemma_split_first(p);
        lemma_cont_split(ms, cur, to, vis, e, p.drop_first());
        assert(p =~= seq![e]);
    }
    if fits(seq![e], bound) {
        assert(seq![seq![e]][0] == seq![e]);
    }
}

/// No continuation starts with an edge that leads to a node already
/// visited, other than `to`; none that fits starts with one that leads on
/// when the bound leaves room for one edge only.
pub proof fn lemma_via_none<T: Transform>(
    ms: Seq<Migration<T>>,
    cur: SchemaIdView,
    to: SchemaIdView,
    vis: Seq<SchemaIdView>,
    bound: Option<nat>,
    e: int,
)
    requires
        edge_dst(ms, e) != to,
        vis.contains(edge_dst(ms, e)) || (bound matches Some(n) && n <= 1),
    ensures
        conts_via(ms, cur, to, vis, bound, e, Seq::empty()),
{
    assert forall|p: Seq<int>| #[trigger] is_cont(ms, cur, to, vis, p) && fits(p, bound) implies p[0] != e by {
        lemma_split_first(p);
        lemma_cont_split(ms, cur, to, vis, p[0], p.drop_first());
    }
}

/// The continuations through an edge to a new node are that edge followed
/// by the continuations from the new node.
pub proof fn lemma_via_step<T: Transform>(
    ms: Seq<Migration<T>>,
    cur: SchemaIdView,
    to: SchemaIdView,
    vis: Seq<SchemaIdView>,
    bound: Option<nat>,
    e: int,
    sub: Seq<Seq<int>>,
)
    requires
        edge_valid(ms, e),
        edge_src(ms, e) == cur,
        edge_dst(ms, e) != to,
        !vis.contains(edge_dst(ms, e)),
        bound matches Some(n) ==> n >= 2,
        conts_exact(ms, edge_dst(ms, e), to, vis.push(edge_dst(ms, e)), bound_rest(bound), sub),
    ensures
        conts_via(ms, cur, to, vis, bound, e, Seq::new(sub.len(), |i: int| seq![e] + sub[i])),
{
    let n = edge_dst(ms, e);
    let added = Seq::new(sub.len(), |i: int| seq![e] + sub[i]);
    assert forall|i: int| 0 <= i < added.len() implies is_cont(ms, cur, to, vis, #[trigger] added[i]) && fits(
        added[i],
        bound,
    ) && added[i][0] == e by {
        lemma_cont_split(ms, cur, to, vis, e, sub[i]);
        assert(is_cont(ms, n, to, vis.push(n), sub[i]));
    }
    assert forall|a: int, b: int| 0 <= a < b < added.len() implies lex_lt(#[trigger] added[a], #[trigger] added[b]) by {
        lemma_lex_cons(e, sub[a], e, sub[b]);
    }
    assert forall|p: Seq<int>| #[trigger] is_cont(ms, cur, to, vis, p) && fits(p, bound) && p[0] == e implies added.contains(
        p,
    ) by {
        lemma_split_first(p);
        let q = p.drop_first();
        lemma_cont_split(ms, cur, to, vis, e, q);
        assert(is_cont(ms, n, to, vis.push(n), q));
        assert(fits(q, bound_rest(bound)));
        let i = choose|i: int| 0 <= i < sub.len() && sub[i] == q;
        assert(added[i] == p);
    }
}

/// `p` is a walk from `from` that ends at `n`.
pub open spec fn walk_to<T: Transform>(ms: Seq<Migration<T>>, from: SchemaIdView, p: Seq<int>, n: SchemaIdView) -> bool {
    is_walk(ms, from, p) && node_at(ms, from, p, p.len() as int) == n
}

/// `n` is reached from `from` in at most `d` edges.
pub open spec fn within<T: Transform>(ms: Seq<Migration<T>>, from: SchemaIdView, n: SchemaIdView, d: int) -> bool {
    exists|p: Seq<int>| #[trigger] walk_to(ms, from, p, n) && p.len() <= d
}

pub proof fn lemma_walk_push<T: Transform>(ms: Seq<Migration<T>>, from: SchemaIdView, p: Seq<int>, m: SchemaIdView, e: int)
    requires
        walk_to(ms, from, p, m),
        edge_valid(ms, e),
        edge_src(ms, e) == m,
    ensures
        walk_to(ms, from, p.push(e), edge_dst(ms, e)),
{
    let q = p.push(e);
    assert forall|k: int| 0 <= k < q.len() implies edge_valid(ms, #[trigger] q[k]) && edge_src(ms, q[k]) == node_at(
        ms,
        from,
        q,
        k,
    ) by {
        if k < p.len() {
            assert(q[k] == p[k]);
            if k > 0 {
                assert(q[k - 1] == p[k - 1]);
            }
        } else {
            if k > 0 {
                assert(q[k - 1] == p[k - 1]);
            }
        }
    }
}

pub proof fn lemma_walk_drop_last<T: Transform>(ms: Seq<Migration<T>>, from: SchemaIdView, p: Seq<int>, n: SchemaIdView)
    requires
        walk_to(ms, from, p, n),
        p.len() >= 1,
    ensures
        walk_to(ms, from, p.drop_last(), edge_src(ms, p.last())),
        edge_valid(ms, p.last()),
        edge_dst(ms, p.last()) == n,
{
    let q = p.drop_last();
    assert(edge_valid(ms, p[p.len() - 1]) && edge_src(ms, p[p.len() - 1]) == node_at(ms, from, p, p.len() - 1));
    assert forall|k: int| 0 <= k < q.len() implies edge_valid(ms, #[trigger] q[k]) && edge_src(ms, q[k]) == node_at(
        ms,
        from,
        q,
        k,
    ) by {
        assert(q[k] == p[k]);
        assert(edge_valid(ms, p[k]) && edge_src(ms, p[k]) == node_at(ms, from, p, k));
        if k > 0 {
            assert(q[k - 1] == p[k - 1]);
        }
    }
    if q.len() > 0 {
        assert(q[q.len() - 1] == p[p.len() - 2]);
    }
}

/// One round of the breadth-first search: `vis` holds the nodes within `d`
/// edges, `front` those at distance exactly `d`, and `to` is not within
/// `d`. If every edge out of the front leads to a node of `vis + nf`, never
/// to `to`, and `nf` holds exactly fresh nodes at distance `d + 1`, then the
/// same holds one step further.
pub proof fn lemma_bfs_round<T: Transform>(
    ms: Seq<Migration<T>>,
    from: SchemaIdView,
    to: SchemaIdView,
    d: int,
    vis: Seq<SchemaIdView>,
    front: Seq<SchemaIdView>,
    nf: Seq<SchemaIdView>,
)
    requires
        d >= 0,
        forall|n: SchemaIdView| #![trigger vis.contains(n)] #![trigger within(ms, from, n, d)] vis.contains(n) <==> within(ms, from, n, d),
        forall|n: SchemaIdView|
            #![trigger front.contains(n)]
            front.contains(n) <==> within(ms, from, n, d) && !within(ms, from, n, d - 1),
        !within(ms, from, to, d),
        forall|n: SchemaIdView| #[trigger] nf.contains(n) ==> within(ms, from, n, d + 1) && !within(ms, from, n, d),
        forall|n: SchemaIdView, e: int|
            #[trigger] front.contains(n) && edge_valid(ms, e) && #[trigger] edge_src(ms, e) == n ==> (vis + nf).contains(
                edge_dst(ms, e),
            ) && edge_dst(ms, e) != to,
    ensures
        forall|n: SchemaIdView|
            #![trigger (vis + nf).contains(n)]
            #![trigger within(ms, from, n, d + 1)]
            (vis + nf).contains(n) <==> within(ms, from, n, d + 1),
        forall|n: SchemaIdView|
            #![trigger nf.contains(n)]
            nf.contains(n) <==> within(ms, from, n, d + 1) && !within(ms, from, n, d),
        !within(ms, from, to, d + 1),
{
    let all = vis + nf;
    assert forall|n: SchemaIdView| all.contains(n) <==> vis.contains(n) || nf.contains(n) by {
        if all.contains(n) {
            let i = choose|i: int| 0 <= i < all.len() && all[i] == n;
            if i < vis.len() {
                assert(vis[i] == n);
            } else {
                assert(nf[i - vis.len()] == n);
            }
        }
        if vis.contains(n) {
            let i = choose|i: int| 0 <= i < vis.len() && vis[i] == n;
            assert(all[i] == n);
        }
        if nf.contains(n) {
            let i = choose|i: int| 0 <= i < nf.len() && nf[i] == n;
            assert(all[vis.len() + i] == n);
        }
    }
    // A node within `d + 1` but not within `d` is one edge past the front.
    assert forall|n: SchemaIdView| #[trigger] within(ms, from, n, d + 1) && !within(ms, from, n, d) implies exists|
        m: SchemaIdView,
        e: int,
    | #[trigger] front.contains(m) && edge_valid(ms, e) && #[trigger] edge_src(ms, e) == m && edge_dst(ms, e) == n by {
        let p = choose|p: Seq<int>| #[trigger] walk_to(ms, from, p, n) && p.len() <= d + 1;
        if p.len() <= d {
            assert(within(ms, from, n, d));
        }
        assert(p.len() == d + 1);
        lemma_walk_drop_last(ms, from, p, n);
        let m = edge_src(ms, p.last());
        let q = p.drop_last();
        assert(walk_to(ms, from, q, m) && q.len() <= d);
        if within(ms, from, m, d - 1) {
            let w = choose|w: Seq<int>| #[trigger] walk_to(ms, from, w, m) && w.len() <= d - 1;
            lemma_walk_push(ms, from, w, m, p.last());
            assert(walk_to(ms, from, w.push(p.last()), n) && w.push(p.last()).len() <= d);
            assert(within(ms, from, n, d));
        }
        assert(front.contains(m));
    }
    assert forall|n: SchemaIdView| all.contains(n) <==> within(ms, from, n, d + 1) by {
        if vis.contains(n) {
            let p = choose|p: Seq<int>| #[trigger] walk_to(ms, from, p, n) && p.len() <= d;
            assert(walk_to(ms, from, p, n) && p.len() <= d + 1);
        }
        if within(ms, from, n, d + 1) && !within(ms, from, n, d) {
            let (m, e) = choose|m: SchemaIdView, e: int|
                #[trigger] front.contains(m) && edge_valid(ms, e) && #[trigger] edge_src(ms, e) == m && edge_dst(ms, e) == n;
        }
    }
    assert forall|n: SchemaIdView| nf.contains(n) <==> within(ms, from, n, d + 1) && !within(ms, from, n, d) by {
        if within(ms, from, n, d + 1) && !within(ms, from, n, d) {
            assert(all.contains(n));
            assert(!vis.contains(n));
        }
    }
    if within(ms, from, to, d + 1) {
        let (m, e) = choose|m: SchemaIdView, e: int|
            #[trigger] front.contains(m) && edge_valid(ms, e) && #[trigger] edge_src(ms, e) == m && edge_dst(ms, e) == to;
    }
}

/// When no node is at distance exactly `d` (and `d >= 1`), nothing beyond
/// distance `d - 1` is reachable: every node a walk passes is within `d - 1`.
pub proof fn lemma_bfs_exhausted<T: Transform>(ms: Seq<Migration<T>>, from: SchemaIdView, d: int, p: Seq<int>, k: int)
    requires
        d >= 1,
        is_walk(ms, from, p),
        0 <= k <= p.len(),
        forall|n: SchemaIdView| #[trigger] within(ms, from, n, d) ==> within(ms, from, n, d - 1),
    ensures
        within(ms, from, node_at(ms, from, p, k), d - 1),
    decreases k,
{
    if k == 0 {
        assert(walk_to(ms, from, Seq::<int>::empty(), from));
    } else {
        lemma_bfs_exhausted(ms, from, d, p, k - 1);
        let m = node_at(ms, from, p, k - 1);
        let w = choose|w: Seq<int>| #[trigger] walk_to(ms, from, w, m) && w.len() <= d - 1;
        assert(edge_valid(ms, p[k - 1]) && edge_src(ms, p[k - 1]) == m);
        lemma_walk_push(ms, from, w, m, p[k - 1]);
        assert(walk_to(ms, from, w.push(p[k - 1]), node_at(ms, from, p, k)));
        assert(within(ms, from, node_at(ms, from, p, k), d));
    }
}

/// Visiting a fresh node one edge past a node within `depth`.
pub proof fn lemma_bfs_visit<T: Transform>(
    ms: Seq<Migration<T>>,
    from: SchemaIdView,
    to: SchemaIdView,
    depth: int,
    vis0: Seq<SchemaIdView>,
    before: Seq<SchemaIdView>,
    nfb: Seq<SchemaIdView>,
    m: SchemaIdView,
    w: Seq<int>,
    e: int,
)
    requires
        before == vis0 + nfb,
        !before.contains(edge_dst(ms, e)),
        edge_valid(ms, e),
        edge_src(ms, e) == m,
        walk_to(ms, from, w, m),
        w.len() <= depth,
        forall|n: SchemaIdView|
            #![trigger vis0.contains(n)]
            #![trigger within(ms, from, n, depth)]
            vis0.contains(n) <==> within(ms, from, n, depth),
        forall|x: SchemaIdView| #[trigger] nfb.contains(x) ==> within(ms, from, x, depth + 1) && !within(ms, from, x, depth),
    ensures
        before.push(edge_dst(ms, e)) == vis0 + nfb.push(edge_dst(ms, e)),
        forall|x: SchemaIdView|
            #[trigger] nfb.push(edge_dst(ms, e)).contains(x) ==> within(ms, from, x, depth + 1) && !within(ms, from, x, depth),
        forall|y: SchemaIdView| before.contains(y) ==> #[trigger] before.push(edge_dst(ms, e)).contains(y),
        before.push(edge_dst(ms, e)).contains(edge_dst(ms, e)),
        unvisited(ms, before.push(edge_dst(ms, e)), 2 * ms.len() as int) < unvisited(ms, before, 2 * ms.len() as int),
{
    let n = edge_dst(ms, e);
    let after = before.push(n);
    let nfa = nfb.push(n);
    assert(after =~= vis0 + nfa);
    lemma_walk_push(ms, from, w, m, e);
    assert(walk_to(ms, from, w.push(e), n) && w.push(e).len() <= depth + 1);
    assert(!vis0.contains(n)) by {
        if vis0.contains(n) {
            let i = choose|i: int| 0 <= i < vis0.len() && vis0[i] == n;
            assert(before[i] == n);
        }
    }
    assert forall|x: SchemaIdView| #[trigger] nfa.contains(x) implies within(ms, from, x, depth + 1) && !within(
        ms,
        from,
        x,
        depth,
    ) by {
        if x != n {
            let i = choose|i: int| 0 <= i < nfa.len() && nfa[i] == x;
            assert(nfa[nfb.len() as int] == n);
            assert(i < nfb.len());
            assert(nfb[i] == x);
            assert(nfb.contains(x));
        } else {
            assert(!within(ms, from, n, depth));
            assert(within(ms, from, n, depth + 1));
        }
    }
    assert forall|y: SchemaIdView| before.contains(y) implies #[trigger] after.contains(y) by {
        let i = choose|i: int| 0 <= i < before.len() && before[i] == y;
        assert(after[i] == y);
    }
    assert(after[after.len() - 1] == n);
    lemma_dst_is_endpoint(ms, e);
    lemma_unvisited_mono(ms, before, n, 2 * ms.len() as int);
}

/// The number of reverse hops along `p`.
pub open spec fn rev_count(p: Seq<int>) -> nat
    decreases p.len(),
{
    if p.len() == 0 {
        0
    } else {
        rev_count(p.drop_last()) + if p.last() % 2 == 1 {
            1nat
        } else {
            0nat
        }
    }
}

/// The number of steps walked in reverse.
pub open spec fn rev_steps<T: Transform>(s: Seq<MigrationStep<'_, T>>) -> nat
    decreases s.len(),
{
    if s.len() == 0 {
        0
    } else {
        rev_steps(s.drop_last()) + if s.last().reverse {
            1nat
        } else {
            0nat
        }
    }
}

/// A simple path with no simple path shorter than it.
pub open spec fn shortest_path<T: Transform>(ms: Seq<Migration<T>>, from: SchemaIdView, to: SchemaIdView, p: Seq<int>) -> bool {
    is_path(ms, from, to, p) && forall|q: Seq<int>| #[trigger] is_path(ms, from, to, q) ==> p.len() <= q.len()
}

/// A shortest path with no more reverse hops than any other shortest path.
pub open spec fn preferred_path<T: Transform>(ms: Seq<Migration<T>>, from: SchemaIdView, to: SchemaIdView, p: Seq<int>) -> bool {
    shortest_path(ms, from, to, p) && forall|q: Seq<int>| #[trigger] shortest_path(ms, from, to, q) ==> rev_count(p)
        <= rev_count(q)
}

pub proof fn lemma_rev_steps<T: Transform>(ms: Seq<Migration<T>>, s: Seq<MigrationStep<'_, T>>, p: Seq<int>)
    requires
        steps_walk(ms, s, p),
    ensures
        rev_steps(s) == rev_count(p),
    decreases p.len(),
{
    if p.len() > 0 {
        assert(steps_walk(ms, s.drop_last(), p.drop_last())) by {
            assert forall|k: int| 0 <= k < p.len() - 1 implies step_is(ms, #[trigger] s.drop_last()[k], p.drop_last()[k]) by {
                assert(step_is(ms, s[k], p[k]));
            }
        }
        lemma_rev_steps(ms, s.drop_last(), p.drop_last());
        assert(step_is(ms, s[p.len() - 1], p[p.len() - 1]));
    }
}

pub proof fn lemma_walk_take<T: Transform>(ms: Seq<Migration<T>>, from: SchemaIdView, p: Seq<int>, k: int)
    requires
        is_walk(ms, from, p),
        0 <= k <= p.len(),
    ensures
        walk_to(ms, from, p.take(k), node_at(ms, from, p, k)),
{
    let q = p.take(k);
    assert forall|i: int| 0 <= i < q.len() implies edge_valid(ms, #[trigger] q[i]) && edge_src(ms, q[i]) == node_at(
        ms,
        from,
        q,
        i,
    ) by {
        assert(q[i] == p[i]);
        assert(edge_valid(ms, p[i]) && edge_src(ms, p[i]) == node_at(ms, from, p, i));
        if i > 0 {
            assert(q[i - 1] == p[i - 1]);
        }
    }
    if k > 0 {
        assert(q[k - 1] == p[k - 1]);
    }
}

pub proof fn lemma_walk_skip<T: Transform>(ms: Seq<Migration<T>>, from: SchemaIdView, p: Seq<int>, k: int)
    requires
        is_walk(ms, from, p),
        0 <= k <= p.len(),
    ensures
        walk_to(ms, node_at(ms, from, p, k), p.skip(k), node_at(ms, from, p, p.len() as int)),
{
    let m = node_at(ms, from, p, k);
    let q = p.skip(k);
    assert forall|i: int| 0 <= i < q.len() implies edge_valid(ms, #[trigger] q[i]) && edge_src(ms, q[i]) == node_at(
        ms,
        m,
        q,
        i,
    ) by {
        assert(q[i] == p[k + i]);
        assert(edge_valid(ms, p[k + i]) && edge_src(ms, p[k + i]) == node_at(ms, from, p, k + i));
        if i > 0 {
            assert(q[i - 1] == p[k + i - 1]);
        }
    }
    if q.len() > 0 {
        assert(q[q.len() - 1] == p[p.len() - 1]);
    }
}

pub proof fn lemma_walk_concat<T: Transform>(
    ms: Seq<Migration<T>>,
    from: SchemaIdView,
    a: Seq<int>,
    m: SchemaIdView,
    b: Seq<int>,
    n: SchemaIdView,
)
    requires
        walk_to(ms, from, a, m),
        walk_to(ms, m, b, n),
    ensures
        walk_to(ms, from, a + b, n),
{
    let c = a + b;
    assert forall|i: int| 0 <= i < c.len() implies edge_valid(ms, #[trigger] c[i]) && edge_src(ms, c[i]) == node_at(
        ms,
        from,
        c,
        i,
    ) by {
        if i < a.len() {
            assert(c[i] == a[i]);
            assert(edge_valid(ms, a[i]) && edge_src(ms, a[i]) == node_at(ms, from, a, i));
            if i > 0 {
                assert(c[i - 1] == a[i - 1]);
            }
        } else {
            assert(c[i] == b[i - a.len()]);
            assert(edge_valid(ms, b[i - a.len()]) && edge_src(ms, b[i - a.len()]) == node_at(ms, m, b, i - a.len()));
            if i > a.len() {
                assert(c[i - 1] == b[i - a.len() - 1]);
            } else if i > 0 {
                assert(c[i - 1] == a[i - 1]);
            }
        }
    }
    if b.len() > 0 {
        assert(c[c.len() - 1] == b[b.len() - 1]);
    } else if a.len() > 0 {
        assert(c[c.len() - 1] == a[a.len() - 1]);
    } else {
        assert(c.len() == 0);
    }
}

/// A walk to `to` with no shorter walk is a simple path.
pub proof fn lemma_min_walk_is_path<T: Transform>(ms: Seq<Migration<T>>, from: SchemaIdView, to: SchemaIdView, p: Seq<int>)
    requires
        from != to,
        walk_to(ms, from, p, to),
        !within(ms, from, to, p.len() - 1),
    ensures
        is_cont(ms, from, to, seq![from], p),
{
    assert(p.len() >= 1);
    assert forall|k: int| 1 <= k < p.len() implies #[trigger] node_at(ms, from, p, k) != to && !seq![from].contains(
        node_at(ms, from, p, k),
    ) by {
        if node_at(ms, from, p, k) == to {
            lemma_walk_take(ms, from, p, k);
            assert(walk_to(ms, from, p.take(k), to) && p.take(k).len() <= p.len() - 1);
        }
        if seq![from].contains(node_at(ms, from, p, k)) {
            assert(seq![from][0] == from);
            assert(node_at(ms, from, p, k) == from);
            lemma_walk_skip(ms, from, p, k);
            assert(walk_to(ms, from, p.skip(k), to) && p.skip(k).len() <= p.len() - 1);
        }
    }
    assert forall|a: int, b: int| 1 <= a < b < p.len() implies #[trigger] node_at(ms, from, p, a) != #[trigger] node_at(
        ms,
        from,
        p,
        b,
    ) by {
        if node_at(ms, from, p, a) == node_at(ms, from, p, b) {
            lemma_walk_take(ms, from, p, a);
            lemma_walk_skip(ms, from, p, b);
            lemma_walk_concat(ms, from, p.take(a), node_at(ms, from, p, a), p.skip(b), to);
            assert(walk_to(ms, from, p.take(a) + p.skip(b), to) && (p.take(a) + p.skip(b)).len() <= p.len() - 1);
        }
    }
}

/// With `l` the length of a shortest walk to `to`, the shortest simple
/// paths are the simple paths of length `l`, and there is one.
pub proof fn lemma_shortest_is_length<T: Transform>(ms: Seq<Migration<T>>, from: SchemaIdView, to: SchemaIdView, l: int, w: Seq<int>)
    requires
        from != to,
        walk_to(ms, from, w, to),
        w.len() == l,
        !within(ms, from, to, l - 1),
    ensures
        is_path(ms, from, to, w),
        forall|q: Seq<int>| #[trigger] is_path(ms, from, to, q) ==> q.len() >= l,
        forall|q: Seq<int>| #[trigger] shortest_path(ms, from, to, q) <==> is_cont(ms, from, to, seq![from], q) && q.len() == l,
{
    lemma_min_walk_is_path(ms, from, to, w);
    assert forall|q: Seq<int>| #[trigger] is_path(ms, from, to, q) implies q.len() >= l by {
        assert(walk_to(ms, from, q, to));
    }
    assert forall|q: Seq<int>| #[trigger] shortest_path(ms, from, to, q) <==> is_cont(ms, from, to, seq![from], q)
        && q.len() == l by {
        if shortest_path(ms, from, to, q) {
            assert(is_path(ms, from, to, w));
            assert(q.len() <= w.len());
            assert(is_path(ms, from, to, q));
        }
        if is_cont(ms, from, to, seq![from], q) && q.len() == l {
            assert(is_path(ms, from, to, q));
            assert forall|x: Seq<int>| #[trigger] is_path(ms, from, to, x) implies q.len() <= x.len() by {
                assert(walk_to(ms, from, x, to));
            }
        }
    }
}

/// Among the shortest paths `cs` (all of them, in edge order), those at
/// indices `kept`, whose reverse hops equal the least number `min`, are
/// exactly the preferred paths, in edge order.
pub proof fn lemma_preferred_choice<T: Transform>(
    ms: Seq<Migration<T>>,
    from: SchemaIdView,
    to: SchemaIdView,
    l: int,
    w: Seq<int>,
    cs: Seq<Seq<int>>,
    min: nat,
    at: int,
    kept: Seq<int>,
)
    requires
        from != to,
        walk_to(ms, from, w, to),
        w.len() == l,
        !within(ms, from, to, l - 1),
        conts_exact(ms, from, to, seq![from], Some(l as nat), cs),
        0 <= at < cs.len(),
        rev_count(cs[at]) == min,
        forall|k: int| 0 <= k < cs.len() ==> min <= rev_count(#[trigger] cs[k]),
        forall|a: int| 0 <= a < kept.len() ==> 0 <= #[trigger] kept[a] < cs.len(),
        forall|a: int, b: int| 0 <= a < b < kept.len() ==> #[trigger] kept[a] < #[trigger] kept[b],
        forall|a: int| 0 <= a < kept.len() ==> rev_count(cs[#[trigger] kept[a]]) == min,
        forall|k: int| 0 <= k < cs.len() && rev_count(#[trigger] cs[k]) == min ==> exists|a: int| 0 <= a < kept.len() && #[trigger] kept[a] == k,
    ensures
        kept.len() >= 1,
        forall|a: int| 0 <= a < kept.len() ==> preferred_path(ms, from, to, cs[#[trigger] kept[a]]),
        forall|a: int, b: int| 0 <= a < b < kept.len() ==> lex_lt(cs[#[trigger] kept[a]], cs[#[trigger] kept[b]]),
        forall|q: Seq<int>| #[trigger] preferred_path(ms, from, to, q) ==> exists|a: int| 0 <= a < kept.len() && cs[#[trigger] kept[a]] == q,
{
    lemma_shortest_is_length(ms, from, to, l, w);
    assert forall|k: int| 0 <= k < cs.len() implies #[trigger] shortest_path(ms, from, to, cs[k]) by {}
    assert forall|q: Seq<int>| #[trigger] shortest_path(ms, from, to, q) implies exists|k: int|
        0 <= k < cs.len() && cs[k] == q by {
        assert(is_cont(ms, from, to, seq![from], q) && fits(q, Some(l as nat)));
    }
    assert forall|q: Seq<int>| #[trigger] preferred_path(ms, from, to, q) <==> shortest_path(ms, from, to, q)
        && rev_count(q) == min by {
        if shortest_path(ms, from, to, q) && rev_count(q) == min {
            assert forall|x: Seq<int>| #[trigger] shortest_path(ms, from, to, x) implies rev_count(q) <= rev_count(x) by {
                let k = choose|k: int| 0 <= k < cs.len() && cs[k] == x;
            }
        }
        if preferred_path(ms, from, to, q) {
            assert(shortest_path(ms, from, to, cs[at]));
            let k = choose|k: int| 0 <= k < cs.len() && cs[k] == q;
        }
    }
    assert forall|a: int| 0 <= a < kept.len() implies preferred_path(ms, from, to, cs[#[trigger] kept[a]]) by {
        assert(shortest_path(ms, from, to, cs[kept[a]]));
    }
    assert forall|q: Seq<int>| #[trigger] preferred_path(ms, from, to, q) implies exists|a: int|
        0 <= a < kept.len() && cs[#[trigger] kept[a]] == q by {
        let k = choose|k: int| 0 <= k < cs.len() && cs[k] == q;
        let a = choose|a: int| 0 <= a < kept.len() && #[trigger] kept[a] == k;
    }
    let a0 = choose|a: int| 0 <= a < kept.len() && #[trigger] kept[a] == at;
}

/// One hop of a plan: a migration, walked forward or in reverse.
pub struct MigrationStep<'g, T> {
    pub migration: &'g Migration<T>,
    pub reverse: bool,
}

impl<'g, T> Clone for MigrationStep<'g, T> {
    fn clone(&self) -> (r: Self)
        ensures
            r == *self,
    {
        *self
    }
}

impl<'g, T> Copy for MigrationStep<'g, T> {
}

/// Step `s` walks edge `e` of the migrations `ms`.
pub open spec fn step_is<T: Transform>(ms: Seq<Migration<T>>, s: MigrationStep<'_, T>, e: int) -> bool {
    &&& 0 <= e < 2 * ms.len()
    &&& *s.migration == ms[e / 2]
    &&& s.reverse == (e % 2 == 1)
}

/// The steps `steps` walk the edges `p`, one for one.
pub open spec fn steps_walk<T: Transform>(ms: Seq<Migration<T>>, steps: Seq<MigrationStep<'_, T>>, p: Seq<int>) -> bool {
    &&& steps.len() == p.len()
    &&& forall|k: int| 0 <= k < p.len() ==> step_is(ms, #[trigger] steps[k], p[k])
}

/// An ordered sequence of migration hops from one `SchemaId` to another,
/// together with the edges it walks.
pub struct MigrationPlan<'g, T> {
    steps: Vec<MigrationStep<'g, T>>,
    edges: Ghost<Seq<int>>,
}

impl<'g, T: Transform> Clone for MigrationPlan<'g, T> {
    fn clone(&self) -> (r: Self)
        ensures
            r.steps_spec() == self.steps_spec(),
            r.edges() == self.edges(),
    {
        MigrationPlan { steps: copy_steps(&self.steps), edges: Ghost(self.edges@) }
    }
}

impl<'g, T: Transform> MigrationPlan<'g, T> {
    /// The edges this plan walks.
    pub closed spec fn edges(&self) -> Seq<int> {
        self.edges@
    }

    pub closed spec fn steps_spec(&self) -> Seq<MigrationStep<'g, T>> {
        self.steps@
    }

    /// The plan walks its edges in the migrations `ms`.
    pub open spec fn walks(&self, ms: Seq<Migration<T>>) -> bool {
        steps_walk(ms, self.steps_spec(), self.edges())
    }

    pub fn steps(&self) -> (r: &[MigrationStep<'g, T>])
        ensures
            r@ == self.steps_spec(),
    {
        self.steps.as_slice()
    }

    pub fn len(&self) -> (r: usize)
        ensures
            r == self.steps_spec().len(),
    {
        self.steps.len()
    }

    pub fn is_empty(&self) -> (r: bool)
        ensures
            r == (self.steps_spec().len() == 0),
    {
        self.steps.len() == 0
    }

    /// How many steps are walked in reverse.
    pub(crate) fn reverse_count(&self) -> (r: usize)
        ensures
            r == rev_steps(self.steps_spec()),
    {
        let mut n: usize = 0;
        let mut i: usize = 0;
        while i < self.steps.len()
            invariant
                i <= self.steps@.len(),
                n == rev_steps(self.steps@.take(i as int)),
                n <= i,
            decreases self.steps@.len() - i,
        {
            proof {
                assert(self.steps@.take(i as int + 1).drop_last() =~= self.steps@.take(i as int));
            }
            if self.steps[i].reverse {
                n = n + 1;
            }
            i = i + 1;
        }
        proof {
            assert(self.steps@.take(self.steps@.len() as int) =~= self.steps@);
        }
        n
    }
}

/// A copy of the steps of a path.
fn copy_steps<'g, T: Transform>(path: &Vec<MigrationStep<'g, T>>) -> (r: Vec<MigrationStep<'g, T>>)
    ensures
        r@ == path@,
{
    let mut out: Vec<MigrationStep<'g, T>> = Vec::new();
    let mut i: usize = 0;
    while i < path.len()
        invariant
            i <= path@.len(),
            out@ == path@.take(i as int),
        decreases path@.len() - i,
    {
        out.push(path[i]);
        proof {
            assert(path@.take(i as int + 1) =~= path@.take(i as int).push(path@[i as int]));
        }
        i = i + 1;
    }
    proof {
        assert(path@.take(path@.len() as int) =~= path@);
    }
    out
}

/// `x` is in the list of nodes `v`.
fn contains_id(v: &Vec<SchemaId>, x: &SchemaId) -> (r: bool)
    ensures
        r == id_views(v@).contains(x@),
{
    let mut i: usize = 0;
    while i < v.len()
        invariant
            i <= v@.len(),
            forall|j: int| 0 <= j < i ==> v@[j]@ != x@,
        decreases v@.len() - i,
    {
        if v[i].same(x) {
            proof {
                assert(id_views(v@)[i as int] == x@);
            }
            return true;
        }
        i = i + 1;
    }
    proof {
        if id_views(v@).contains(x@) {
            let j = choose|j: int| 0 <= j < id_views(v@).len() && id_views(v@)[j] == x@;
            assert(v@[j]@ == x@);
        }
    }
    false
}

/// A collection of registered migrations, queryable as a directed graph.
pub struct MigrationGraph<T> {
    migrations: Vec<Migration<T>>,
    /// The first schema seen at each node and the migration that brought
    /// it: two migrations may not bring differently structured schemas
    /// under one node.
    schema_by_id: Vec<(SchemaId, Vec<Field>, String)>,
}

impl<T: Transform> MigrationGraph<T> {
    pub closed spec fn migrations_spec(&self) -> Seq<Migration<T>> {
        self.migrations@
    }

    /// The recorded schemas: node, fields, and the id of the migration that
    /// brought them.
    pub closed spec fn records_spec(&self) -> Seq<(SchemaIdView, Seq<FieldView>, Seq<char>)> {
        records_view(self.schema_by_id@)
    }

    /// No node is recorded twice.
    pub open spec fn wf(&self) -> bool {
        records_distinct(self.records_spec())
    }

    /// Every edge leaving `node`, in edge order: the node it leads to, the
    /// migration's index, and whether it is walked in reverse.
    fn edges_from(&self, node: &SchemaId) -> (r: Vec<(SchemaId, usize, bool)>)
        ensures
            forall|k: int|
                0 <= k < r@.len() ==> {
                    let e = 2 * (#[trigger] r@[k]).1 + if r@[k].2 {
                        1int
                    } else {
                        0int
                    };
                    &&& edge_valid(self.migrations@, e)
                    &&& edge_src(self.migrations@, e) == node@
                    &&& r@[k].0@ == edge_dst(self.migrations@, e)
                },
            forall|a: int, b: int|
                0 <= a < b < r@.len() ==> edge_of(#[trigger] r@[a]) < edge_of(#[trigger] r@[b]),
            forall|e: int|
                edge_valid(self.migrations@, e) && edge_src(self.migrations@, e) == node@ ==> exists|k: int|
                    0 <= k < r@.len() && edge_of(#[trigger] r@[k]) == e,
    {
        let ghost ms = self.migrations@;
        let mut out: Vec<(SchemaId, usize, bool)> = Vec::new();
        let mut i: usize = 0;
        while i < self.migrations.len()
            invariant
                i <= ms.len(),
                ms == self.migrations@,
                forall|k: int|
                    0 <= k < out@.len() ==> {
                        let e = edge_of(#[trigger] out@[k]);
                        &&& e == 2 * out@[k].1 + if out@[k].2 {
                            1int
                        } else {
                            0int
                        }
                        &&& edge_valid(ms, e)
                        &&& e < 2 * i
                        &&& edge_src(ms, e) == node@
                        &&& out@[k].0@ == edge_dst(ms, e)
                    },
                forall|a: int, b: int| 0 <= a < b < out@.len() ==> edge_of(#[trigger] out@[a]) < edge_of(#[trigger] out@[b]),
                forall|e: int|
                    0 <= e < 2 * i && edge_valid(ms, e) && edge_src(ms, e) == node@ ==> exists|k: int|
                        0 <= k < out@.len() && edge_of(#[trigger] out@[k]) == e,
            decreases ms.len() - i,
        {
            let migration = &self.migrations[i];
            let src = SchemaId::from(migration.source().contract());
            let tgt = SchemaId::from(migration.target().contract());
            let ghost before = out@;
            if src.same(node) {
                out.push((tgt.clone(), i, false));
                proof {
                    assert(edge_of(out@[out@.len() - 1]) == 2 * i);
                    assert(forall|k: int| 0 <= k < before.len() ==> out@[k] == before[k]);
                }
            }
            let ghost mid = out@;
            if migration.is_reversible() && tgt.same(node) {
                out.push((src.clone(), i, true));
                proof {
                    assert(edge_of(out@[out@.len() - 1]) == 2 * i + 1);
                    assert(forall|k: int| 0 <= k < mid.len() ==> out@[k] == mid[k]);
                }
            }
            proof {
                assert forall|e: int|
                    0 <= e < 2 * (i + 1) && edge_valid(ms, e) && edge_src(ms, e) == node@ implies exists|k: int|
                    0 <= k < out@.len() && edge_of(#[trigger] out@[k]) == e by {
                    if e < 2 * i {
                        let k = choose|k: int| 0 <= k < before.len() && edge_of(#[trigger] before[k]) == e;
                        assert(out@[k] == before[k]);
                    } else if e == 2 * i {
                        assert(edge_of(out@[mid.len() - 1]) == e);
                    } else {
                        assert(edge_of(out@[out@.len() - 1]) == e);
                    }
                }
            }
            i = i + 1;
        }
        out
    }
}

impl<T: Transform> MigrationGraph<T> {
    /// The step that walks edge `2 * index + (reverse ? 1 : 0)`.
    fn step_of<'g>(&'g self, index: usize, reverse: bool) -> (r: MigrationStep<'g, T>)
        requires
            index < self.migrations@.len(),
        ensures
            step_is(self.migrations@, r, 2 * index + if reverse {
                1int
            } else {
                0int
            }),
    {
        MigrationStep { migration: &self.migrations[index], reverse }
    }

    /// Enumerates, below `prefix`, every continuation from `current`
    /// towards `to` whose inner nodes are not in `visited`, in edge order,
    /// appending one plan for each to `results`; gives back the
    /// continuations.
    #[verifier::rlimit(40)]
    fn dfs_all<'g>(
        &'g self,
        current: &SchemaId,
        to: &SchemaId,
        visited: &mut Vec<SchemaId>,
        path: &mut Vec<MigrationStep<'g, T>>,
        results: &mut Vec<MigrationPlan<'g, T>>,
        Ghost(prefix): Ghost<Seq<int>>,
    ) -> (cs: Ghost<Seq<Seq<int>>>)
        requires
            steps_walk(self.migrations@, old(path)@, prefix),
        ensures
            final(visited)@ == old(visited)@,
            final(path)@ == old(path)@,
            final(results)@.len() == old(results)@.len() + cs@.len(),
            forall|i: int| 0 <= i < old(results)@.len() ==> final(results)@[i] == old(results)@[i],
            forall|i: int|
                0 <= i < cs@.len() ==> (#[trigger] final(results)@[old(results)@.len() + i]).edges() == prefix
                    + cs@[i] && final(results)@[old(results)@.len() + i].walks(self.migrations@),
            conts_exact(self.migrations@, current@, to@, id_views(old(visited)@), None, cs@),
        decreases unvisited(self.migrations@, id_views(old(visited)@), 2 * self.migrations@.len() as int),
    {
        let ghost ms = self.migrations@;
        let ghost vis0 = id_views(visited@);
        let ghost v0 = visited@;
        let ghost path0 = path@;
        let ghost r0 = results@;
        let out = self.edges_from(current);
        let ghost oe = out@.map_values(|x: (SchemaId, usize, bool)| edge_of(x));
        let ghost mut cs: Seq<Seq<int>> = Seq::empty();
        proof {
            lemma_conts_upto_start(ms, current@, to@, vis0, None, oe);
            assert forall|a: int, b: int| 0 <= a < b < oe.len() implies #[trigger] oe[a] < #[trigger] oe[b] by {
                assert(edge_of(out@[a]) < edge_of(out@[b]));
            }
        }
        let mut j: usize = 0;
        while j < out.len()
            invariant
                j <= out@.len(),
                ms == self.migrations@,
                oe.len() == out@.len(),
                forall|k: int|
                    0 <= k < out@.len() ==> {
                        let e = #[trigger] oe[k];
                        &&& e == edge_of(out@[k])
                        &&& edge_valid(ms, e)
                        &&& edge_src(ms, e) == current@
                        &&& out@[k].0@ == edge_dst(ms, e)
                    },
                forall|a: int, b: int| 0 <= a < b < oe.len() ==> #[trigger] oe[a] < #[trigger] oe[b],
                visited@ == v0,
                v0 == old(visited)@,
                vis0 == id_views(v0),
                path@ == path0,
                steps_walk(ms, path0, prefix),
                results@.len() == r0.len() + cs.len(),
                forall|i: int| 0 <= i < r0.len() ==> results@[i] == r0[i],
                forall|i: int|
                    0 <= i < cs.len() ==> (#[trigger] results@[r0.len() + i]).edges() == prefix + cs[i]
                        && results@[r0.len() + i].walks(ms),
                conts_upto(ms, current@, to@, vis0, None, oe, j as int, cs),
            decreases out@.len() - j,
        {
            let next = &out[j].0;
            let index = out[j].1;
            let reverse = out[j].2;
            let ghost e = oe[j as int];
            let ghost n = next@;
            let ghost cs_before = cs;
            if next.same(to) {
                let step = self.step_of(index, reverse);
                path.push(step);
                let steps = copy_steps(path);
                results.push(MigrationPlan { steps, edges: Ghost(prefix.push(e)) });
                path.pop();
                proof {
                    lemma_via_target(ms, current@, to@, vis0, None, e);
                    lemma_conts_upto_step(ms, current@, to@, vis0, None, oe, j as int, cs, seq![seq![e]]);
                    cs = cs.push(seq![e]);
                    assert(cs_before + seq![seq![e]] =~= cs);
                    assert(path@ =~= path0);
                    assert(steps_walk(ms, steps@, prefix.push(e)));
                    assert(prefix.push(e) =~= prefix + seq![e]);
                }
            } else if contains_id(visited, next) {
                proof {
                    lemma_via_none(ms, current@, to@, vis0, None, e);
                    lemma_conts_upto_step(ms, current@, to@, vis0, None, oe, j as int, cs, Seq::empty());
                    assert(cs + Seq::<Seq<int>>::empty() =~= cs);
                }
            } else {
                let step = self.step_of(index, reverse);
                path.push(step);
                visited.push(next.clone());
                proof {
                    assert(id_views(visited@) =~= vis0.push(n));
                    lemma_dst_is_endpoint(ms, e);
                    lemma_unvisited_mono(ms, vis0, n, 2 * ms.len() as int);
                }
                let sub = self.dfs_all(next, to, visited, path, results, Ghost(prefix.push(e)));
                visited.pop();
                path.pop();
                proof {
                    assert(visited@ =~= v0);
                    assert(path@ =~= path0);
                    let sub_cs = sub@;
                    let added = Seq::new(sub_cs.len(), |i: int| seq![e] + sub_cs[i]);
                    lemma_via_step(ms, current@, to@, vis0, None, e, sub_cs);
                    lemma_conts_upto_step(ms, current@, to@, vis0, None, oe, j as int, cs, added);
                    cs = cs + added;
                    assert forall|i: int| 0 <= i < cs.len() implies (#[trigger] results@[r0.len() + i]).edges()
                        == prefix + cs[i] && results@[r0.len() + i].walks(ms) by {
                        if i >= cs_before.len() {
                            let i2 = i - cs_before.len();
                            assert(results@[(r0.len() + cs_before.len()) + i2].edges() == prefix.push(e) + sub_cs[i2]);
                            assert(prefix.push(e) + sub_cs[i2] =~= prefix + (seq![e] + sub_cs[i2]));
                            assert(cs[i] == added[i2]);
                        }
                    }
                }
            }
            j = j + 1;
        }
        proof {
            assert forall|e: int| edge_valid(ms, e) && edge_src(ms, e) == current@ implies exists|k: int|
                0 <= k < oe.len() && #[trigger] oe[k] == e by {
                let k = choose|k: int| 0 <= k < out@.len() && edge_of(#[trigger] out@[k]) == e;
                assert(oe[k] == e);
            }
            lemma_conts_upto_done(ms, current@, to@, vis0, None, oe, cs);
        }
        Ghost(cs)
    }
}

impl<T: Transform> MigrationGraph<T> {
    /// Every simple path from `from` to `to`, in edge order: no node repeats
    /// on a path, which bounds the search even where reverse edges make
    /// cycles. When `from == to`, the empty path comes first, followed by
    /// the cycles back to `from`.
    ///
    /// Enumerating every simple path is combinatorial on a densely
    /// reversible graph; `plan` does not use this.
    #[verifier::rlimit(40)]
    pub fn available_paths(&self, from: &SchemaId, to: &SchemaId) -> (r: Vec<MigrationPlan<'_, T>>)
        ensures
            forall|i: int|
                0 <= i < r@.len() ==> (#[trigger] r@[i]).walks(self.migrations_spec()) && is_path(
                    self.migrations_spec(),
                    from@,
                    to@,
                    r@[i].edges(),
                ),
            forall|i: int, j: int| 0 <= i < j < r@.len() ==> lex_lt((#[trigger] r@[i]).edges(), (#[trigger] r@[j]).edges()),
            forall|p: Seq<int>|
                is_path(self.migrations_spec(), from@, to@, p) ==> exists|i: int|
                    0 <= i < r@.len() && (#[trigger] r@[i]).edges() == p,
    {
        let ghost ms = self.migrations@;
        let mut results: Vec<MigrationPlan<'_, T>> = Vec::new();
        if from.same(to) {
            results.push(MigrationPlan { steps: Vec::new(), edges: Ghost(Seq::empty()) });
        }
        let ghost base = results@;
        let mut visited: Vec<SchemaId> = Vec::new();
        visited.push(from.clone());
        let mut path: Vec<MigrationStep<'_, T>> = Vec::new();
        proof {
            assert(id_views(visited@) =~= seq![from@]);
            assert(steps_walk(ms, path@, Seq::empty()));
        }
        let cs = self.dfs_all(from, to, &mut visited, &mut path, &mut results, Ghost(Seq::empty()));
        proof {
            let cs = cs@;
            assert forall|i: int| 0 <= i < cs.len() implies (#[trigger] results@[base.len() + i]).edges() == cs[i] by {
                assert(Seq::<int>::empty() + cs[i] =~= cs[i]);
            }
            assert forall|i: int| 0 <= i < results@.len() implies (#[trigger] results@[i]).walks(ms) && is_path(
                ms,
                from@,
                to@,
                results@[i].edges(),
            ) by {
                if i >= base.len() {
                    assert(results@[base.len() + (i - base.len())].edges() == cs[i - base.len()]);
                } else {
                    assert(results@[i].edges() =~= Seq::<int>::empty());
                }
            }
            assert forall|i: int, j: int| 0 <= i < j < results@.len() implies lex_lt(
                (#[trigger] results@[i]).edges(),
                (#[trigger] results@[j]).edges(),
            ) by {
                assert(results@[base.len() + (j - base.len())].edges() == cs[j - base.len()]);
                if i >= base.len() {
                    assert(results@[base.len() + (i - base.len())].edges() == cs[i - base.len()]);
                } else {
                    assert(results@[i].edges() =~= Seq::<int>::empty());
                    assert(is_cont(ms, from@, to@, seq![from@], cs[j - base.len()]));
                }
            }
            assert forall|p: Seq<int>| is_path(ms, from@, to@, p) implies exists|i: int|
                0 <= i < results@.len() && (#[trigger] results@[i]).edges() == p by {
                if is_cont(ms, from@, to@, seq![from@], p) {
                    let i = choose|i: int| 0 <= i < cs.len() && cs[i] == p;
                    assert(results@[base.len() + i].edges() == p);
                } else {
                    assert(results@[0].edges() =~= p);
                }
            }
        }
        results
    }
}

impl<T: Transform> MigrationGraph<T> {
    /// As `dfs_all`, but keeps only the continuations of exactly
    /// `remaining` edges, and goes no deeper than that.
    #[verifier::rlimit(40)]
    fn dfs_bounded<'g>(
        &'g self,
        current: &SchemaId,
        to: &SchemaId,
        remaining: usize,
        visited: &mut Vec<SchemaId>,
        path: &mut Vec<MigrationStep<'g, T>>,
        results: &mut Vec<MigrationPlan<'g, T>>,
        Ghost(prefix): Ghost<Seq<int>>,
    ) -> (cs: Ghost<Seq<Seq<int>>>)
        requires
            steps_walk(self.migrations@, old(path)@, prefix),
            !id_views(old(visited)@).contains(to@),
        ensures
            final(visited)@ == old(visited)@,
            final(path)@ == old(path)@,
            final(results)@.len() == old(results)@.len() + cs@.len(),
            forall|i: int| 0 <= i < old(results)@.len() ==> final(results)@[i] == old(results)@[i],
            forall|i: int|
                0 <= i < cs@.len() ==> (#[trigger] final(results)@[old(results)@.len() + i]).edges() == prefix
                    + cs@[i] && final(results)@[old(results)@.len() + i].walks(self.migrations@),
            conts_exact(self.migrations@, current@, to@, id_views(old(visited)@), Some(remaining as nat), cs@),
        decreases unvisited(self.migrations@, id_views(old(visited)@), 2 * self.migrations@.len() as int),
    {
        let ghost ms = self.migrations@;
        let ghost vis0 = id_views(visited@);
        let ghost v0 = visited@;
        let ghost path0 = path@;
        let ghost r0 = results@;
        let ghost bound = Some(remaining as nat);
        let out = self.edges_from(current);
        let ghost oe = out@.map_values(|x: (SchemaId, usize, bool)| edge_of(x));
        let ghost mut cs: Seq<Seq<int>> = Seq::empty();
        proof {
            lemma_conts_upto_start(ms, current@, to@, vis0, bound, oe);
            assert forall|a: int, b: int| 0 <= a < b < oe.len() implies #[trigger] oe[a] < #[trigger] oe[b] by {
                assert(edge_of(out@[a]) < edge_of(out@[b]));
            }
        }
        let mut j: usize = 0;
        while j < out.len()
            invariant
                j <= out@.len(),
                ms == self.migrations@,
                bound == Some(remaining as nat),
                oe.len() == out@.len(),
                forall|k: int|
                    0 <= k < out@.len() ==> {
                        let e = #[trigger] oe[k];
                        &&& e == edge_of(out@[k])
                        &&& edge_valid(ms, e)
                        &&& edge_src(ms, e) == current@
                        &&& out@[k].0@ == edge_dst(ms, e)
                    },
                forall|a: int, b: int| 0 <= a < b < oe.len() ==> #[trigger] oe[a] < #[trigger] oe[b],
                visited@ == v0,
                v0 == old(visited)@,
                vis0 == id_views(v0),
                !vis0.contains(to@),
                path@ == path0,
                steps_walk(ms, path0, prefix),
                results@.len() == r0.len() + cs.len(),
                forall|i: int| 0 <= i < r0.len() ==> results@[i] == r0[i],
                forall|i: int|
                    0 <= i < cs.len() ==> (#[trigger] results@[r0.len() + i]).edges() == prefix + cs[i]
                        && results@[r0.len() + i].walks(ms),
                conts_upto(ms, current@, to@, vis0, bound, oe, j as int, cs),
            decreases out@.len() - j,
        {
            let next = &out[j].0;
            let index = out[j].1;
            let reverse = out[j].2;
            let ghost e = oe[j as int];
            let ghost n = next@;
            let ghost cs_before = cs;
            if contains_id(visited, next) {
                proof {
                    lemma_via_none(ms, current@, to@, vis0, bound, e);
                    lemma_conts_upto_step(ms, current@, to@, vis0, bound, oe, j as int, cs, Seq::empty());
                    assert(cs + Seq::<Seq<int>>::empty() =~= cs);
                }
            } else if next.same(to) {
                proof {
                    lemma_via_target(ms, current@, to@, vis0, bound, e);
                }
                if remaining == 1 {
                    let step = self.step_of(index, reverse);
                    path.push(step);
                    let steps = copy_steps(path);
                    results.push(MigrationPlan { steps, edges: Ghost(prefix.push(e)) });
                    path.pop();
                    proof {
                        lemma_conts_upto_step(ms, current@, to@, vis0, bound, oe, j as int, cs, seq![seq![e]]);
                        cs = cs.push(seq![e]);
                        assert(cs_before + seq![seq![e]] =~= cs);
                        assert(path@ =~= path0);
                        assert(steps_walk(ms, steps@, prefix.push(e)));
                        assert(prefix.push(e) =~= prefix + seq![e]);
                    }
                } else {
                    proof {
                        lemma_conts_upto_step(ms, current@, to@, vis0, bound, oe, j as int, cs, Seq::empty());
                        assert(cs + Seq::<Seq<int>>::empty() =~= cs);
                    }
                }
            } else if remaining > 1 {
                let step = self.step_of(index, reverse);
                path.push(step);
                visited.push(next.clone());
                proof {
                    assert(id_views(visited@) =~= vis0.push(n));
                    assert(!vis0.push(n).contains(to@)) by {
                        if vis0.push(n).contains(to@) {
                            let i = choose|i: int| 0 <= i < vis0.push(n).len() && vis0.push(n)[i] == to@;
                            if i < vis0.len() {
                                assert(vis0[i] == to@);
                            }
                        }
                    }
                    lemma_dst_is_endpoint(ms, e);
                    lemma_unvisited_mono(ms, vis0, n, 2 * ms.len() as int);
                }
                let sub = self.dfs_bounded(next, to, remaining - 1, visited, path, results, Ghost(prefix.push(e)));
                visited.pop();
                path.pop();
                proof {
                    assert(visited@ =~= v0);
                    assert(path@ =~= path0);
                    let sub_cs = sub@;
                    let added = Seq::new(sub_cs.len(), |i: int| seq![e] + sub_cs[i]);
                    assert(bound_rest(bound) == Some((remaining - 1) as nat));
                    lemma_via_step(ms, current@, to@, vis0, bound, e, sub_cs);
                    lemma_conts_upto_step(ms, current@, to@, vis0, bound, oe, j as int, cs, added);
                    cs = cs + added;
                    assert forall|i: int| 0 <= i < cs.len() implies (#[trigger] results@[r0.len() + i]).edges()
                        == prefix + cs[i] && results@[r0.len() + i].walks(ms) by {
                        if i >= cs_before.len() {
                            let i2 = i - cs_before.len();
                            assert(results@[(r0.len() + cs_before.len()) + i2].edges() == prefix.push(e) + sub_cs[i2]);
                            assert(prefix.push(e) + sub_cs[i2] =~= prefix + (seq![e] + sub_cs[i2]));
                            assert(cs[i] == added[i2]);
                        }
                    }
                }
            } else {
                proof {
                    lemma_via_none(ms, current@, to@, vis0, bound, e);
                    lemma_conts_upto_step(ms, current@, to@, vis0, bound, oe, j as int, cs, Seq::empty());
                    assert(cs + Seq::<Seq<int>>::empty() =~= cs);
                }
            }
            j = j + 1;
        }
        proof {
            assert forall|e: int| edge_valid(ms, e) && edge_src(ms, e) == current@ implies exists|k: int|
                0 <= k < oe.len() && #[trigger] oe[k] == e by {
                let k = choose|k: int| 0 <= k < out@.len() && edge_of(#[trigger] out@[k]) == e;
                assert(oe[k] == e);
            }
            lemma_conts_upto_done(ms, current@, to@, vis0, bound, oe, cs);
        }
        Ghost(cs)
    }
}

impl<T: Transform> MigrationGraph<T> {
    /// The length of a shortest walk from `from` to `to`, by breadth-first
    /// search; `None` when `to` cannot be reached.
    #[verifier::rlimit(50)]
    fn bfs_shortest_length(&self, from: &SchemaId, to: &SchemaId) -> (r: Option<usize>)
        requires
            from@ != to@,
        ensures
            match r {
                Some(l) => l >= 1 && (exists|p: Seq<int>| #[trigger] walk_to(self.migrations@, from@, p, to@) && p.len() == l)
                    && !within(self.migrations@, from@, to@, l - 1),
                None => forall|p: Seq<int>| !(#[trigger] walk_to(self.migrations@, from@, p, to@)),
            },
    {
        let ghost ms = self.migrations@;
        let ghost nn = 2 * ms.len() as int;
        let mut visited: Vec<SchemaId> = Vec::new();
        visited.push(from.clone());
        let mut frontier: Vec<SchemaId> = Vec::new();
        frontier.push(from.clone());
        let mut depth: usize = 0;
        proof {
            assert(walk_to(ms, from@, Seq::<int>::empty(), from@));
            assert forall|n: SchemaIdView| #![trigger id_views(visited@).contains(n)] #![trigger within(ms, from@, n, 0)]
                id_views(visited@).contains(n) <==> within(ms, from@, n, 0) by {
                assert(id_views(visited@) =~= seq![from@]);
                if within(ms, from@, n, 0) {
                    let p = choose|p: Seq<int>| #[trigger] walk_to(ms, from@, p, n) && p.len() <= 0;
                    assert(id_views(visited@)[0] == from@);
                }
            }
            assert forall|n: SchemaIdView| #![trigger id_views(frontier@).contains(n)]
                id_views(frontier@).contains(n) <==> within(ms, from@, n, 0) && !within(ms, from@, n, -1) by {
                assert(id_views(frontier@) =~= seq![from@]);
                if within(ms, from@, n, 0) {
                    let p = choose|p: Seq<int>| #[trigger] walk_to(ms, from@, p, n) && p.len() <= 0;
                    assert(id_views(frontier@)[0] == from@);
                }
            }
        }
        while frontier.len() > 0
            invariant
                ms == self.migrations@,
                nn == 2 * ms.len(),
                from@ != to@,
                forall|n: SchemaIdView|
                    #![trigger id_views(visited@).contains(n)]
                    #![trigger within(ms, from@, n, depth as int)]
                    id_views(visited@).contains(n) <==> within(ms, from@, n, depth as int),
                forall|n: SchemaIdView|
                    #![trigger id_views(frontier@).contains(n)]
                    id_views(frontier@).contains(n) <==> within(ms, from@, n, depth as int) && !within(
                        ms,
                        from@,
                        n,
                        depth - 1,
                    ),
                !within(ms, from@, to@, depth as int),
                frontier@.len() > 0 ==> depth < visited@.len(),
            decreases unvisited(ms, id_views(visited@), nn) + frontier@.len(),
        {
            let ghost vis0 = id_views(visited@);
            let ghost v_start = visited@;
            let ghost front = id_views(frontier@);
            let mut next_frontier: Vec<SchemaId> = Vec::new();
            let mut fi: usize = 0;
            while fi < frontier.len()
                invariant
                    ms == self.migrations@,
                    nn == 2 * ms.len(),
                    fi <= frontier@.len(),
                    front == id_views(frontier@),
                    frontier@.len() > 0,
                    depth < v_start.len(),
                    id_views(visited@) == vis0 + id_views(next_frontier@),
                    vis0 == id_views(v_start),
                    forall|n: SchemaIdView|
                        #![trigger vis0.contains(n)]
                        #![trigger within(ms, from@, n, depth as int)]
                        vis0.contains(n) <==> within(ms, from@, n, depth as int),
                    forall|n: SchemaIdView|
                        #![trigger front.contains(n)]
                        front.contains(n) <==> within(ms, from@, n, depth as int) && !within(ms, from@, n, depth - 1),
                    !within(ms, from@, to@, depth as int),
                    forall|n: SchemaIdView|
                        #[trigger] id_views(next_frontier@).contains(n) ==> within(ms, from@, n, depth + 1) && !within(
                            ms,
                            from@,
                            n,
                            depth as int,
                        ),
                    forall|k: int, e: int|
                        0 <= k < fi && edge_valid(ms, e) && #[trigger] edge_src(ms, e) == #[trigger] front[k] ==> id_views(
                            visited@,
                        ).contains(edge_dst(ms, e)) && edge_dst(ms, e) != to@,
                    unvisited(ms, id_views(visited@), nn) + next_frontier@.len() <= unvisited(ms, vis0, nn),
                decreases frontier@.len() - fi,
            {
                let node = &frontier[fi];
                let ghost m = node@;
                proof {
                    assert(front[fi as int] == m);
                    assert(front.contains(m));
                }
                let out = self.edges_from(node);
                let mut j: usize = 0;
                while j < out.len()
                    invariant
                        ms == self.migrations@,
                        nn == 2 * ms.len(),
                        fi < frontier@.len(),
                        front == id_views(frontier@),
                        front[fi as int] == m,
                        front.contains(m),
                        depth < v_start.len(),
                        id_views(visited@) == vis0 + id_views(next_frontier@),
                        vis0 == id_views(v_start),
                        forall|n: SchemaIdView|
                            #![trigger vis0.contains(n)]
                            #![trigger within(ms, from@, n, depth as int)]
                            vis0.contains(n) <==> within(ms, from@, n, depth as int),
                        forall|n: SchemaIdView|
                            #![trigger front.contains(n)]
                            front.contains(n) <==> within(ms, from@, n, depth as int) && !within(ms, from@, n, depth - 1),
                        !within(ms, from@, to@, depth as int),
                        forall|n: SchemaIdView|
                            #[trigger] id_views(next_frontier@).contains(n) ==> within(ms, from@, n, depth + 1) && !within(
                                ms,
                                from@,
                                n,
                                depth as int,
                            ),
                        forall|k: int, e: int|
                            0 <= k < fi && edge_valid(ms, e) && #[trigger] edge_src(ms, e) == #[trigger] front[k] ==> id_views(
                                visited@,
                            ).contains(edge_dst(ms, e)) && edge_dst(ms, e) != to@,
                        forall|k: int|
                            0 <= k < j ==> id_views(visited@).contains(#[trigger] out@[k].0@) && out@[k].0@ != to@,
                        j <= out@.len(),
                        forall|k: int|
                            0 <= k < out@.len() ==> {
                                let e = edge_of(#[trigger] out@[k]);
                                &&& edge_valid(ms, e)
                                &&& edge_src(ms, e) == m
                                &&& out@[k].0@ == edge_dst(ms, e)
                            },
                        forall|e: int|
                            edge_valid(ms, e) && edge_src(ms, e) == m ==> exists|k: int|
                                0 <= k < out@.len() && edge_of(#[trigger] out@[k]) == e,
                        unvisited(ms, id_views(visited@), nn) + next_frontier@.len() <= unvisited(ms, vis0, nn),
                    decreases out@.len() - j,
                {
                    let next = &out[j].0;
                    let ghost e = edge_of(out@[j as int]);
                    let ghost w = choose|w: Seq<int>| #[trigger] walk_to(ms, from@, w, m) && w.len() <= depth;
                    proof {
                        assert(within(ms, from@, m, depth as int));
                        if w.len() < depth {
                            assert(walk_to(ms, from@, w, m) && w.len() <= depth - 1);
                        }
                        lemma_walk_push(ms, from@, w, m, e);
                    }
                    if next.same(to) {
                        let vl = visited.len();
                        proof {
                            assert(walk_to(ms, from@, w.push(e), to@) && w.push(e).len() == depth + 1);
                            assert(id_views(visited@).len() == visited@.len());
                            assert(vis0.len() == v_start.len());
                            assert(depth < vl);
                        }
                        return Some(depth + 1);
                    }
                    let ghost before = visited@;
                    let ghost nf_before = next_frontier@;
                    if !contains_id(&visited, next) {
                        visited.push(next.clone());
                        next_frontier.push(next.clone());
                        proof {
                            assert(id_views(visited@) =~= id_views(before).push(edge_dst(ms, e)));
                            assert(id_views(next_frontier@) =~= id_views(nf_before).push(edge_dst(ms, e)));
                            assert(id_views(before) =~= vis0 + id_views(nf_before));
                            lemma_bfs_visit(ms, from@, to@, depth as int, vis0, id_views(before), id_views(nf_before), m, w, e);
                        }
                    }
                    j = j + 1;
                }
                proof {
                    assert forall|k: int, e: int|
                        0 <= k < fi + 1 && edge_valid(ms, e) && #[trigger] edge_src(ms, e) == #[trigger] front[k] implies id_views(
                        visited@,
                    ).contains(edge_dst(ms, e)) && edge_dst(ms, e) != to@ by {
                        if k == fi {
                            let kk = choose|kk: int| 0 <= kk < out@.len() && edge_of(#[trigger] out@[kk]) == e;
                        }
                    }
                }
                fi = fi + 1;
            }
            proof {
                let nf = id_views(next_frontier@);
                assert(id_views(visited@) =~= vis0 + nf);
                assert forall|n: SchemaIdView, e: int|
                    #[trigger] front.contains(n) && edge_valid(ms, e) && #[trigger] edge_src(ms, e) == n implies (vis0
                    + nf).contains(edge_dst(ms, e)) && edge_dst(ms, e) != to@ by {
                    let k = choose|k: int| 0 <= k < front.len() && front[k] == n;
                }
                lemma_bfs_round(ms, from@, to@, depth as int, vis0, front, nf);
            }
            let vl = visited.len();
            proof {
                assert(depth < vl);
            }
            depth = depth + 1;
            frontier = next_frontier;
        }
        proof {
            assert forall|p: Seq<int>| !(#[trigger] walk_to(ms, from@, p, to@)) by {
                if walk_to(ms, from@, p, to@) {
                    assert(walk_to(ms, from@, Seq::<int>::empty(), from@));
                    if depth == 0 {
                        assert(!id_views(frontier@).contains(from@));
                    }
                    assert forall|n: SchemaIdView| #[trigger] within(ms, from@, n, depth as int) implies within(
                        ms,
                        from@,
                        n,
                        depth - 1,
                    ) by {
                        assert(!id_views(frontier@).contains(n));
                    }
                    lemma_bfs_exhausted(ms, from@, depth as int, p, p.len() as int);
                    let w = choose|w: Seq<int>| #[trigger] walk_to(ms, from@, w, to@) && w.len() <= depth - 1;
                    assert(walk_to(ms, from@, w, to@) && w.len() <= depth);
                }
            }
        }
        None
    }
}

/// Failures of `MigrationGraph::plan`: no path at all, or several equally
/// preferred ones, handed back as candidates.
pub enum PlanningError<'g, T> {
    MissingMigration { from: SchemaId, to: SchemaId },
    AmbiguousMigration { from: SchemaId, to: SchemaId, candidates: Vec<MigrationPlan<'g, T>> },
}

impl<'g, T> ErrorCode for PlanningError<'g, T> {
    open spec fn code_spec(&self) -> Seq<char> {
        match self {
            PlanningError::MissingMigration { .. } => "migrate.plan.missing"@,
            PlanningError::AmbiguousMigration { .. } => "migrate.plan.ambiguous"@,
        }
    }

    fn code(&self) -> (r: &'static str) {
        match self {
            PlanningError::MissingMigration { .. } => "migrate.plan.missing",
            PlanningError::AmbiguousMigration { .. } => "migrate.plan.ambiguous",
        }
    }
}

impl<'g, T> PlanningError<'g, T> {
    pub open spec fn message_spec(&self) -> Seq<char> {
        match self {
            PlanningError::MissingMigration { from, to } => "no migration path from "@ + schema_id_text(from@)
                + " to "@ + schema_id_text(to@),
            PlanningError::AmbiguousMigration { from, to, .. } => "ambiguous migration path from "@ + schema_id_text(
                from@,
            ) + " to "@ + schema_id_text(to@) + ": multiple equally short paths found"@,
        }
    }

    /// The human-readable message of this error.
    pub fn message(&self) -> (r: String)
        ensures
            r@ == self.message_spec(),
    {
        let mut r = String::new();
        match self {
            PlanningError::MissingMigration { from, to } => {
                push_str(&mut r, "no migration path from ");
                let a = from.to_string();
                push_str(&mut r, a.as_str());
                push_str(&mut r, " to ");
                let b = to.to_string();
                push_str(&mut r, b.as_str());
            },
            PlanningError::AmbiguousMigration { from, to, .. } => {
                push_str(&mut r, "ambiguous migration path from ");
                let a = from.to_string();
                push_str(&mut r, a.as_str());
                push_str(&mut r, " to ");
                let b = to.to_string();
                push_str(&mut r, b.as_str());
                push_str(&mut r, ": multiple equally short paths found");
            },
        }
        proof {
            assert(r@ =~= self.message_spec());
        }
        r
    }
}

/// What `plan` gives when a path exists: the unique preferred path, or
/// every preferred path, in edge order, as the candidates of an
/// `AmbiguousMigration`.
pub open spec fn planned<'g, T: Transform>(
    ms: Seq<Migration<T>>,
    from: SchemaIdView,
    to: SchemaIdView,
    r: Result<MigrationPlan<'g, T>, PlanningError<'g, T>>,
) -> bool {
    match r {
        Ok(p) => p.walks(ms) && preferred_path(ms, from, to, p.edges()) && forall|q: Seq<int>| #[trigger]
            preferred_path(ms, from, to, q) ==> q == p.edges(),
        Err(PlanningError::AmbiguousMigration { from: f, to: t, candidates }) => {
            &&& f@ == from
            &&& t@ == to
            &&& candidates@.len() >= 2
            &&& forall|i: int|
                0 <= i < candidates@.len() ==> (#[trigger] candidates@[i]).walks(ms) && preferred_path(
                    ms,
                    from,
                    to,
                    candidates@[i].edges(),
                )
            &&& forall|i: int, j: int|
                0 <= i < j < candidates@.len() ==> lex_lt((#[trigger] candidates@[i]).edges(), (#[trigger] candidates@[j]).edges())
            &&& forall|q: Seq<int>| #[trigger]
                preferred_path(ms, from, to, q) ==> exists|i: int| 0 <= i < candidates@.len() && (#[trigger] candidates@[i]).edges() == q
        },
        Err(PlanningError::MissingMigration { .. }) => false,
    }
}

impl<T: Transform> MigrationGraph<T> {
    /// The shortest migration path from `from` to `to`.
    ///
    /// `from == to` gives the empty plan at once. Otherwise a breadth-first
    /// search finds the shortest length, and a search bounded by it lists
    /// the simple paths of that length. Among them the ones with the fewest
    /// reverse hops are preferred; one such path is the plan, several are
    /// `AmbiguousMigration` with all of them as candidates, in edge order;
    /// no path at all is `MissingMigration`.
    pub fn plan(&self, from: &SchemaId, to: &SchemaId) -> (r: Result<MigrationPlan<'_, T>, PlanningError<'_, T>>)
        ensures
            from@ == to@ ==> (r matches Ok(p) && p.edges() == Seq::<int>::empty() && p.walks(self.migrations_spec())),
            from@ != to@ && !(exists|q: Seq<int>| #[trigger] is_path(self.migrations_spec(), from@, to@, q)) ==> (
            r matches Err(PlanningError::MissingMigration { from: f, to: t }) && f@ == from@ && t@ == to@),
            from@ != to@ && (exists|q: Seq<int>| #[trigger] is_path(self.migrations_spec(), from@, to@, q))
                ==> planned(self.migrations_spec(), from@, to@, r),
    {
        let ghost ms = self.migrations@;
        if from.same(to) {
            let p = MigrationPlan { steps: Vec::new(), edges: Ghost(Seq::empty()) };
            proof {
                assert(steps_walk(ms, p.steps@, Seq::empty()));
            }
            return Ok(p);
        }
        let shortest_len = match self.bfs_shortest_length(from, to) {
            Some(l) => l,
            None => {
                proof {
                    assert forall|q: Seq<int>| !(#[trigger] is_path(ms, from@, to@, q)) by {
                        if is_path(ms, from@, to@, q) {
                            assert(walk_to(ms, from@, q, to@));
                        }
                    }
                }
                return Err(PlanningError::MissingMigration { from: from.clone(), to: to.clone() });
            },
        };
        let ghost l = shortest_len as int;
        let ghost w = choose|p: Seq<int>| #[trigger] walk_to(ms, from@, p, to@) && p.len() == l;
        proof {
            lemma_shortest_is_length(ms, from@, to@, l, w);
            assert(is_path(ms, from@, to@, w));
        }
        let mut results: Vec<MigrationPlan<'_, T>> = Vec::new();
        let mut visited: Vec<SchemaId> = Vec::new();
        visited.push(from.clone());
        let mut path: Vec<MigrationStep<'_, T>> = Vec::new();
        proof {
            assert(id_views(visited@) =~= seq![from@]);
            assert(steps_walk(ms, path@, Seq::empty()));
            assert(!seq![from@].contains(to@)) by {
                assert(seq![from@][0] == from@);
            }
        }
        let cs = self.dfs_bounded(from, to, shortest_len, &mut visited, &mut path, &mut results, Ghost(Seq::empty()));
        proof {
            assert forall|i: int| 0 <= i < cs@.len() implies (#[trigger] results@[i]).edges() == cs@[i] && results@[i].walks(ms) by {
                assert(results@[0 + i].edges() == Seq::<int>::empty() + cs@[i]);
                assert(Seq::<int>::empty() + cs@[i] =~= cs@[i]);
            }
            assert(is_path(self.migrations_spec(), from@, to@, w));
            assert(is_cont(ms, from@, to@, seq![from@], w) && fits(w, Some(l as nat)));
            assert(cs@.contains(w));
        }
        self.choose_plan(from, to, results, cs, Ghost(l), Ghost(w))
    }

    /// Picks among the shortest paths `results` (all of them, in edge
    /// order) the ones with the fewest reverse hops.
    fn choose_plan<'g>(
        &'g self,
        from: &SchemaId,
        to: &SchemaId,
        results: Vec<MigrationPlan<'g, T>>,
        Ghost(cs): Ghost<Seq<Seq<int>>>,
        Ghost(l): Ghost<int>,
        Ghost(w): Ghost<Seq<int>>,
    ) -> (r: Result<MigrationPlan<'g, T>, PlanningError<'g, T>>)
        requires
            from@ != to@,
            walk_to(self.migrations@, from@, w, to@),
            w.len() == l,
            !within(self.migrations@, from@, to@, l - 1),
            conts_exact(self.migrations@, from@, to@, seq![from@], Some(l as nat), cs),
            cs.contains(w),
            results@.len() == cs.len(),
            forall|i: int| 0 <= i < cs.len() ==> (#[trigger] results@[i]).edges() == cs[i] && results@[i].walks(self.migrations@),
        ensures
            planned(self.migrations@, from@, to@, r),
    {
        let ghost ms = self.migrations@;
        proof {
            assert forall|k: int| 0 <= k < cs.len() implies rev_steps((#[trigger] results@[k]).steps_spec()) == rev_count(cs[k]) by {
                assert(results@[k].edges() == cs[k]);
                lemma_rev_steps(ms, results@[k].steps_spec(), results@[k].edges());
            }
        }
        // The fewest reverse hops among the shortest paths.
        let mut min_reverse: usize = results[0].reverse_count();
        let ghost mut at: int = 0;
        let mut i: usize = 1;
        while i < results.len()
            invariant
                1 <= i <= results@.len(),
                results@.len() == cs.len(),
                0 <= at < i,
                min_reverse == rev_count(cs[at]),
                forall|k: int| 0 <= k < i ==> min_reverse <= rev_count(#[trigger] cs[k]),
                forall|k: int| 0 <= k < cs.len() ==> rev_steps((#[trigger] results@[k]).steps_spec()) == rev_count(cs[k]),
            decreases results@.len() - i,
        {
            let c = results[i].reverse_count();
            if c < min_reverse {
                min_reverse = c;
                proof {
                    at = i as int;
                }
            }
            i = i + 1;
        }
        // Keep the shortest paths with that many reverse hops, in order.
        let mut best: Vec<MigrationPlan<'g, T>> = Vec::new();
        let ghost mut kept: Seq<int> = Seq::empty();
        let mut i: usize = 0;
        while i < results.len()
            invariant
                i <= results@.len(),
                results@.len() == cs.len(),
                best@.len() == kept.len(),
                forall|a: int| 0 <= a < kept.len() ==> 0 <= #[trigger] kept[a] < i,
                forall|a: int, b: int| 0 <= a < b < kept.len() ==> #[trigger] kept[a] < #[trigger] kept[b],
                forall|a: int|
                    0 <= a < kept.len() ==> (#[trigger] best@[a]).steps_spec() == results@[kept[a]].steps_spec()
                        && best@[a].edges() == results@[kept[a]].edges(),
                forall|k: int|
                    0 <= k < i && rev_count(#[trigger] cs[k]) == min_reverse ==> exists|a: int|
                        0 <= a < kept.len() && #[trigger] kept[a] == k,
                forall|a: int| 0 <= a < kept.len() ==> rev_count(cs[#[trigger] kept[a]]) == min_reverse,
                forall|k: int| 0 <= k < cs.len() ==> rev_steps((#[trigger] results@[k]).steps_spec()) == rev_count(cs[k]),
                0 <= at < cs.len(),
                min_reverse == rev_count(cs[at]),
                forall|k: int| 0 <= k < cs.len() ==> min_reverse <= rev_count(#[trigger] cs[k]),
            decreases results@.len() - i,
        {
            let c = results[i].reverse_count();
            let ghost kept_before = kept;
            if c == min_reverse {
                best.push(results[i].clone());
                proof {
                    kept = kept.push(i as int);
                    assert(kept[kept.len() - 1] == i);
                    assert forall|a: int| 0 <= a < kept_before.len() implies kept[a] == kept_before[a] by {}
                }
            }
            proof {
                assert forall|k: int|
                    0 <= k < i + 1 && rev_count(#[trigger] cs[k]) == min_reverse implies exists|a: int|
                    0 <= a < kept.len() && #[trigger] kept[a] == k by {
                    if k < i {
                        let a = choose|a: int| 0 <= a < kept_before.len() && #[trigger] kept_before[a] == k;
                        assert(kept[a] == k);
                    } else {
                        assert(kept[kept.len() - 1] == k);
                    }
                }
            }
            i = i + 1;
        }
        proof {
            let rs = results@;
            lemma_preferred_choice(ms, from@, to@, l, w, cs, min_reverse as nat, at, kept);
            assert forall|a: int| 0 <= a < best@.len() implies (#[trigger] best@[a]).edges() == cs[kept[a]] && best@[a].walks(ms) by {
                assert(rs[kept[a]].edges() == cs[kept[a]]);
            }
            assert forall|a: int| 0 <= a < best@.len() implies (#[trigger] best@[a]).walks(ms) && preferred_path(
                ms,
                from@,
                to@,
                best@[a].edges(),
            ) by {
                assert(best@[a].edges() == cs[kept[a]]);
            }
            assert forall|a: int, b: int| 0 <= a < b < best@.len() implies lex_lt(
                (#[trigger] best@[a]).edges(),
                (#[trigger] best@[b]).edges(),
            ) by {
                assert(best@[a].edges() == cs[kept[a]]);
                assert(best@[b].edges() == cs[kept[b]]);
            }
            assert forall|q: Seq<int>| #[trigger] preferred_path(ms, from@, to@, q) implies exists|a: int|
                0 <= a < best@.len() && (#[trigger] best@[a]).edges() == q by {
                let a = choose|a: int| 0 <= a < kept.len() && cs[#[trigger] kept[a]] == q;
                assert(best@[a].edges() == cs[kept[a]]);
            }
        }
        if best.len() == 1 {
            let ghost bs = best@;
            let p = best.pop().unwrap();
            proof {
                assert(p == bs[0]);
                assert forall|q: Seq<int>| #[trigger] preferred_path(ms, from@, to@, q) implies q == p.edges() by {
                    let a = choose|a: int| 0 <= a < bs.len() && (#[trigger] bs[a]).edges() == q;
                }
            }
            Ok(p)
        } else {
            Err(PlanningError::AmbiguousMigration { from: from.clone(), to: to.clone(), candidates: best })
        }
    }
}

/// Two constraints are equal, `Range` bounds compared as doubles.
pub open spec fn constraint_same(a: ConstraintView, b: ConstraintView) -> bool {
    match (a, b) {
        (ConstraintView::Range { min: a1, max: a2 }, ConstraintView::Range { min: b1, max: b2 }) => opt_f64_eq(a1, b1)
            && opt_f64_eq(a2, b2),
        (ConstraintView::Length { min: a1, max: a2 }, ConstraintView::Length { min: b1, max: b2 }) => a1 == b1 && a2
            == b2,
        (ConstraintView::Pattern { grammar: g }, ConstraintView::Pattern { grammar: h }) => g == h,
        (ConstraintView::NonEmpty, ConstraintView::NonEmpty) => true,
        (
            ConstraintView::Custom { name: n1, description: d1 },
            ConstraintView::Custom { name: n2, description: d2 },
        ) => n1 == n2 && d1 == d2,
        _ => false,
    }
}

/// Two fields are equal: name, type, requiredness, constraints (in order)
/// and description.
pub open spec fn field_same(a: FieldView, b: FieldView) -> bool {
    &&& a.name == b.name
    &&& a.ty == b.ty
    &&& a.required == b.required
    &&& a.constraints.len() == b.constraints.len()
    &&& forall|k: int| 0 <= k < a.constraints.len() ==> constraint_same(#[trigger] a.constraints[k], b.constraints[k])
    &&& a.description == b.description
}

/// Two field lists are equal, field by field.
pub open spec fn fields_same(a: Seq<FieldView>, b: Seq<FieldView>) -> bool {
    a.len() == b.len() && forall|k: int| 0 <= k < a.len() ==> field_same(#[trigger] a[k], b[k])
}

pub open spec fn records_view(v: Seq<(SchemaId, Vec<Field>, String)>) -> Seq<(SchemaIdView, Seq<FieldView>, Seq<char>)> {
    v.map_values(|r: (SchemaId, Vec<Field>, String)| (r.0@, fields_view(r.1@), r.2@))
}

pub open spec fn records_distinct(recs: Seq<(SchemaIdView, Seq<FieldView>, Seq<char>)>) -> bool {
    forall|i: int, j: int| 0 <= i < j < recs.len() ==> (#[trigger] recs[i]).0 != (#[trigger] recs[j]).0
}

/// Registering a schema with node `n` and fields `fs` for migration `mid`:
/// the node's first schema is recorded; a later one must have equal fields,
/// else the id of the migration that recorded the first is the error.
pub open spec fn record_outcome(
    recs: Seq<(SchemaIdView, Seq<FieldView>, Seq<char>)>,
    n: SchemaIdView,
    fs: Seq<FieldView>,
    mid: Seq<char>,
) -> Result<Seq<(SchemaIdView, Seq<FieldView>, Seq<char>)>, Seq<char>> {
    if exists|i: int| 0 <= i < recs.len() && (#[trigger] recs[i]).0 == n {
        let i = choose|i: int| 0 <= i < recs.len() && (#[trigger] recs[i]).0 == n;
        if fields_same(recs[i].1, fs) {
            Ok(recs)
        } else {
            Err(recs[i].2)
        }
    } else {
        Ok(recs.push((n, fs, mid)))
    }
}

fn constraint_equal(a: &Constraint, b: &Constraint) -> (r: bool)
    ensures
        r == constraint_same(a@, b@),
{
    match (a, b) {
        (Constraint::Range { min: a1, max: a2 }, Constraint::Range { min: b1, max: b2 }) => opt_f64_equal(*a1, *b1)
            && opt_f64_equal(*a2, *b2),
        (Constraint::Length { min: a1, max: a2 }, Constraint::Length { min: b1, max: b2 }) => *a1 == *b1 && *a2 == *b2,
        (Constraint::Pattern { grammar: g }, Constraint::Pattern { grammar: h }) => str_eq(g.as_str(), h.as_str()),
        (Constraint::NonEmpty, Constraint::NonEmpty) => true,
        (Constraint::Custom { name: n1, description: d1 }, Constraint::Custom { name: n2, description: d2 }) => str_eq(
            n1.as_str(),
            n2.as_str(),
        ) && str_eq(d1.as_str(), d2.as_str()),
        _ => false,
    }
}

fn field_equal(a: &Field, b: &Field) -> (r: bool)
    ensures
        r == field_same(a@, b@),
{
    if !str_eq(a.name(), b.name()) || !(*a.ty() == *b.ty()) || a.is_required() != b.is_required() {
        return false;
    }
    let ac = a.constraints();
    let bc = b.constraints();
    if ac.len() != bc.len() {
        return false;
    }
    let mut k: usize = 0;
    while k < ac.len()
        invariant
            k <= ac@.len(),
            ac@.len() == bc@.len(),
            ac@.map_values(|c: Constraint| c@) == a@.constraints,
            bc@.map_values(|c: Constraint| c@) == b@.constraints,
            forall|j: int| 0 <= j < k ==> constraint_same(#[trigger] a@.constraints[j], b@.constraints[j]),
        decreases ac@.len() - k,
    {
        if !constraint_equal(&ac[k], &bc[k]) {
            proof {
                assert(a@.constraints[k as int] == ac@[k as int]@);
                assert(b@.constraints[k as int] == bc@[k as int]@);
            }
            return false;
        }
        proof {
            assert(a@.constraints[k as int] == ac@[k as int]@);
            assert(b@.constraints[k as int] == bc@[k as int]@);
        }
        k = k + 1;
    }
    opt_str_equal(a.description_text(), b.description_text())
}

fn fields_equal(a: &[Field], b: &[Field]) -> (r: bool)
    ensures
        r == fields_same(fields_view(a@), fields_view(b@)),
{
    if a.len() != b.len() {
        return false;
    }
    let mut k: usize = 0;
    while k < a.len()
        invariant
            k <= a@.len(),
            a@.len() == b@.len(),
            forall|j: int| 0 <= j < k ==> field_same(#[trigger] fields_view(a@)[j], fields_view(b@)[j]),
        decreases a@.len() - k,
    {
        proof {
            assert(fields_view(a@)[k as int] == a@[k as int]@);
            assert(fields_view(b@)[k as int] == b@[k as int]@);
        }
        if !field_equal(&a[k], &b[k]) {
            return false;
        }
        k = k + 1;
    }
    true
}

/// A copy of a list of fields.
fn copy_fields(fs: &[Field]) -> (r: Vec<Field>)
    ensures
        fields_view(r@) == fields_view(fs@),
{
    let mut v: Vec<Field> = Vec::new();
    let mut i: usize = 0;
    while i < fs.len()
        invariant
            i <= fs@.len(),
            fields_view(v@) == fields_view(fs@).take(i as int),
        decreases fs@.len() - i,
    {
        let ghost before = v@;
        let f = fs[i].clone();
        v.push(f);
        proof {
            assert(v@ == before.push(f));
            assert(fields_view(v@) =~= fields_view(before).push(f@));
            assert(fields_view(fs@).take(i as int + 1) =~= fields_view(fs@).take(i as int).push(fs@[i as int]@));
        }
        i = i + 1;
    }
    proof {
        assert(fields_view(fs@).take(fs@.len() as int) =~= fields_view(fs@));
    }
    v
}

impl<T: Transform> MigrationGraph<T> {
    pub fn new() -> (r: MigrationGraph<T>)
        ensures
            r.migrations_spec() == Seq::<Migration<T>>::empty(),
            r.records_spec() == Seq::<(SchemaIdView, Seq<FieldView>, Seq<char>)>::empty(),
            r.wf(),
    {
        let r = MigrationGraph { migrations: Vec::new(), schema_by_id: Vec::new() };
        proof {
            assert(r.records_spec() =~= Seq::<(SchemaIdView, Seq<FieldView>, Seq<char>)>::empty());
        }
        r
    }

    pub fn migrations(&self) -> (r: &[Migration<T>])
        ensures
            r@ == self.migrations_spec(),
    {
        self.migrations.as_slice()
    }

    /// Records `schema` for migration `migration_id`, or refuses it when
    /// its node already holds a schema with different fields.
    fn check_and_record(&mut self, schema: &Schema, migration_id: &str) -> (r: Result<(), MigrationError>)
        requires
            old(self).wf(),
        ensures
            final(self).wf(),
            final(self).migrations_spec() == old(self).migrations_spec(),
            match record_outcome(
                old(self).records_spec(),
                contract_node(schema.contract_spec()),
                schema.fields_spec(),
                migration_id@,
            ) {
                Ok(recs) => r is Ok && final(self).records_spec() == recs,
                Err(c) => r matches Err(
                    MigrationError::SchemaIdConflict { schema_id, migration_id: m, conflicting_migration_id },
                ) && schema_id@ == schema_id_text(contract_node(schema.contract_spec())) && m@ == migration_id@
                    && conflicting_migration_id@ == c && final(self).records_spec() == old(self).records_spec(),
            },
    {
        let ghost recs = self.records_spec();
        let id = SchemaId::from(schema.contract());
        let ghost n = id@;
        let mut i: usize = 0;
        while i < self.schema_by_id.len()
            invariant
                i <= self.schema_by_id@.len(),
                recs == records_view(self.schema_by_id@),
                recs == old(self).records_spec(),
                records_distinct(recs),
                self.migrations@ == old(self).migrations@,
                self.schema_by_id@ == old(self).schema_by_id@,
                n == id@,
                n == contract_node(schema.contract_spec()),
                forall|j: int| 0 <= j < i ==> (#[trigger] recs[j]).0 != n,
            decreases self.schema_by_id@.len() - i,
        {
            if self.schema_by_id[i].0.same(&id) {
                proof {
                    assert(recs[i as int].0 == n);
                    let k = choose|k: int| 0 <= k < recs.len() && (#[trigger] recs[k]).0 == n;
                    assert(k == i) by {
                        if k < i {
                        } else if k > i {
                            assert((recs[i as int]).0 != (recs[k]).0);
                        }
                    }
                    assert(recs[i as int].1 == fields_view(self.schema_by_id@[i as int].1@));
                }
                let same = fields_equal(self.schema_by_id[i].1.as_slice(), schema.fields());
                proof {
                    assert(same == fields_same(recs[i as int].1, schema.fields_spec()));
                    assert(record_outcome(recs, n, schema.fields_spec(), migration_id@) == if same {
                        Ok(recs)
                    } else {
                        Err(recs[i as int].2)
                    });
                }
                if !same {
                    let schema_id = id.to_string();
                    let conflicting_migration_id = self.schema_by_id[i].2.clone();
                    proof {
                        assert(conflicting_migration_id@ == recs[i as int].2);
                    }
                    return Err(
                        MigrationError::SchemaIdConflict {
                            schema_id,
                            migration_id: migration_id.to_string(),
                            conflicting_migration_id,
                        },
                    );
                }
                return Ok(());
            }
            i = i + 1;
        }
        let fields = copy_fields(schema.fields());
        self.schema_by_id.push((id, fields, migration_id.to_string()));
        proof {
            assert(self.records_spec() =~= recs.push((n, schema.fields_spec(), migration_id@)));
            assert(!(exists|k: int| 0 <= k < recs.len() && (#[trigger] recs[k]).0 == n));
        }
        Ok(())
    }

    /// Registers `migration`, first checking that its source and target
    /// schemas do not conflict with schemas already recorded at the same
    /// nodes. The source is checked (and recorded) first.
    pub fn register(&mut self, migration: Migration<T>) -> (r: Result<(), MigrationError>)
        requires
            old(self).wf(),
        ensures
            final(self).wf(),
            match record_outcome(
                old(self).records_spec(),
                source_node(migration),
                migration.source_spec().fields_spec(),
                migration.id_spec(),
            ) {
                Err(c) => r matches Err(
                    MigrationError::SchemaIdConflict { schema_id, migration_id, conflicting_migration_id },
                ) && schema_id@ == schema_id_text(source_node(migration)) && migration_id@ == migration.id_spec()
                    && conflicting_migration_id@ == c && final(self).records_spec() == old(self).records_spec()
                    && final(self).migrations_spec() == old(self).migrations_spec(),
                Ok(recs) => match record_outcome(
                    recs,
                    target_node(migration),
                    migration.target_spec().fields_spec(),
                    migration.id_spec(),
                ) {
                    Err(c) => r matches Err(
                        MigrationError::SchemaIdConflict { schema_id, migration_id, conflicting_migration_id },
                    ) && schema_id@ == schema_id_text(target_node(migration)) && migration_id@ == migration.id_spec()
                        && conflicting_migration_id@ == c && final(self).records_spec() == recs
                        && final(self).migrations_spec() == old(self).migrations_spec(),
                    Ok(recs2) => r is Ok && final(self).records_spec() == recs2 && final(self).migrations_spec()
                        == old(self).migrations_spec().push(migration),
                },
            },
    {
        match self.check_and_record(migration.source(), migration.id()) {
            Err(e) => {
                return Err(e);
            },
            Ok(()) => {},
        }
        match self.check_and_record(migration.target(), migration.id()) {
            Err(e) => {
                return Err(e);
            },
            Ok(()) => {},
        }
        self.migrations.push(migration);
        Ok(())
    }
}

impl<T: Transform> Default for MigrationGraph<T> {
    fn default() -> (r: Self)
        ensures
            r.migrations_spec() == Seq::<Migration<T>>::empty(),
            r.records_spec() == Seq::<(SchemaIdView, Seq<FieldView>, Seq<char>)>::empty(),
            r.wf(),
    {
        MigrationGraph::new()
    }
}

/// The fields a step's output must satisfy: the target's forward, the
/// source's in reverse.
pub open spec fn step_output_fields<T: Transform>(s: MigrationStep<'_, T>) -> Seq<FieldView> {
    if s.reverse {
        s.migration.source_spec().fields_spec()
    } else {
        s.migration.target_spec().fields_spec()
    }
}

/// What running step `s` on a document with value `doc` may give: `apply`
/// forward, `apply_reverse` in reverse.
#[verifier::opaque]
pub open spec fn step_outcome<T: Transform>(
    s: MigrationStep<'_, T>,
    doc: DocView,
    rf: spec_fn(u64) -> Seq<char>,
    x: Result<Document, MigrationError>,
) -> bool {
    let m = *s.migration;
    if s.reverse {
        &&& !m.reversible_spec() ==> (x matches Err(MigrationError::NotReversible { migration_id }) && migration_id@
            == m.id_spec())
        &&& m.reversible_spec() ==> run_outcome(
            x,
            m.id_spec(),
            "reverse"@,
            m.target_spec().fields_spec(),
            m.source_spec().fields_spec(),
            false,
            doc,
            rf,
            |d: DocView, t: Result<DocView, Seq<char>>| m.reverse_transforms(d, t),
        )
    } else {
        run_outcome(
            x,
            m.id_spec(),
            "forward"@,
            m.source_spec().fields_spec(),
            m.target_spec().fields_spec(),
            m.policy_spec() == ValidationPolicy::PostOnly,
            doc,
            rf,
            |d: DocView, t: Result<DocView, Seq<char>>| m.forward_transforms(d, t),
        )
    }
}

/// What running the steps from index `k` on a document with value `doc`
/// may give: each step runs on the output of the one before, and the first
/// error is the result.
pub open spec fn chain_outcome<T: Transform>(
    steps: Seq<MigrationStep<'_, T>>,
    k: int,
    doc: DocView,
    rf: spec_fn(u64) -> Seq<char>,
    r: Result<Document, MigrationError>,
) -> bool
    decreases steps.len() - k,
{
    if k < 0 || k >= steps.len() {
        r matches Ok(d) && d@ == doc
    } else {
        exists|x: Result<Document, MigrationError>|
            #[trigger] step_outcome(steps[k], doc, rf, x) && match x {
                Ok(d) => chain_outcome(steps, k + 1, d@, rf, r),
                Err(e) => r == Err::<Document, MigrationError>(e),
            }
    }
}

impl<'g, T: Transform> MigrationPlan<'g, T> {
    /// Threads `doc` through every hop in turn, each with its own pre- and
    /// post-validation; the first failing hop's error is the result. What
    /// comes out of a non-empty plan satisfies the last hop's output
    /// schema; an empty plan gives `doc` back.
    #[verifier::rlimit(90)]
    pub fn execute<R: Fn(u64) -> String>(&self, doc: &Document, render: &R) -> (r: Result<Document, MigrationError>)
        requires
            renders_floats(*render),
        ensures
            chain_outcome(self.steps_spec(), 0, doc@, |x: u64| rendered(*render, x), r),
            r matches Ok(d) ==> (self.steps_spec().len() == 0 ==> d@ == doc@) && (self.steps_spec().len() > 0
                ==> check_spec(
                step_output_fields(self.steps_spec().last()),
                d@,
                |x: u64| rendered(*render, x),
            ) is Passed),
    {
        let ghost rf = |x: u64| rendered(*render, x);
        let ghost steps = self.steps@;
        let mut current = doc.copy();
        let mut i: usize = 0;
        while i < self.steps.len()
            invariant
                i <= steps.len(),
                steps == self.steps@,
                renders_floats(*render),
                rf == (|x: u64| rendered(*render, x)),
                forall|rr: Result<Document, MigrationError>|
                    #[trigger] chain_outcome(steps, i as int, current@, rf, rr) ==> chain_outcome(steps, 0, doc@, rf, rr),
                i == 0 ==> current@ == doc@,
                i > 0 ==> check_spec(step_output_fields(steps[i - 1]), current@, rf) is Passed,
            decreases steps.len() - i,
        {
            let step = self.steps[i];
            let ghost before = current@;
            let x = if step.reverse {
                step.migration.apply_reverse(&current, render)
            } else {
                step.migration.apply(&current, render)
            };
            proof {
                assert(step_outcome(steps[i as int], before, rf, x)) by {
                    reveal(step_outcome);
                }
            }
            match x {
                Ok(d) => {
                    proof {
                        assert forall|rr: Result<Document, MigrationError>|
                            #[trigger] chain_outcome(steps, i + 1, d@, rf, rr) implies chain_outcome(steps, 0, doc@, rf, rr) by {
                            assert(chain_outcome(steps, i as int, before, rf, rr));
                        }
                    }
                    current = d;
                },
                Err(e) => {
                    proof {
                        assert(chain_outcome(steps, i as int, before, rf, Err::<Document, MigrationError>(e)));
                    }
                    return Err(e);
                },
            }
            i = i + 1;
        }
        proof {
            assert(chain_outcome(steps, i as int, current@, rf, Ok::<Document, MigrationError>(current)));
        }
        Ok(current)
    }
}

/// The line of a plan's text for step `s`:
/// `from --id--> to`, with ` (reverse)` after the id for a reverse step,
/// the contracts written in full.
pub open spec fn step_line<T: Transform>(s: MigrationStep<'_, T>) -> Seq<char> {
    let m = *s.migration;
    if s.reverse {
        m.target_spec().contract_spec().text() + " --"@ + m.id_spec() + " (reverse)"@ + "--> "@
            + m.source_spec().contract_spec().text() + "\n"@
    } else {
        m.source_spec().contract_spec().text() + " --"@ + m.id_spec() + "--> "@ + m.target_spec().contract_spec().text()
            + "\n"@
    }
}

/// The lines of the steps, in order.
pub open spec fn step_lines<T: Transform>(steps: Seq<MigrationStep<'_, T>>) -> Seq<char>
    decreases steps.len(),
{
    if steps.len() == 0 {
        Seq::empty()
    } else {
        step_lines(steps.drop_last()) + step_line(steps.last())
    }
}

/// The text of a plan, as it is shown to users.
pub open spec fn plan_text<T: Transform>(steps: Seq<MigrationStep<'_, T>>) -> Seq<char> {
    if steps.len() == 0 {
        "(no migration needed)\n"@
    } else {
        step_lines(steps)
    }
}

impl<'g, T: Transform> MigrationPlan<'g, T> {
    /// One line per hop, `from --id--> to` (` (reverse)` after the id of a
    /// reverse hop), or `(no migration needed)` for the empty plan.
    pub fn to_string(&self) -> (r: String)
        ensures
            r@ == plan_text(self.steps_spec()),
    {
        if self.steps.len() == 0 {
            return "(no migration needed)\n".to_string();
        }
        let mut r = String::new();
        let mut i: usize = 0;
        while i < self.steps.len()
            invariant
                i <= self.steps@.len(),
                r@ == step_lines(self.steps@.take(i as int)),
            decreases self.steps@.len() - i,
        {
            let step = self.steps[i];
            let m = step.migration;
            let (a, b) = if step.reverse {
                (m.target().contract(), m.source().contract())
            } else {
                (m.source().contract(), m.target().contract())
            };
            let ghost before = r@;
            let x = a.to_string();
            push_str(&mut r, x.as_str());
            push_str(&mut r, " --");
            push_str(&mut r, m.id());
            if step.reverse {
                push_str(&mut r, " (reverse)");
            }
            push_str(&mut r, "--> ");
            let y = b.to_string();
            push_str(&mut r, y.as_str());
            push_str(&mut r, "\n");
            proof {
                assert(r@ =~= before + step_line(self.steps@[i as int]));
                assert(self.steps@.take(i as int + 1).drop_last() =~= self.steps@.take(i as int));
            }
            i = i + 1;
        }
        proof {
            assert(self.steps@.take(self.steps@.len() as int) =~= self.steps@);
        }
        r
    }
}

/// A reversible migration between two different nodes gives a one-hop
/// path back from its target to its source, walking it in reverse.
pub proof fn law_reversible_migration_walks_back<T: Transform>(ms: Seq<Migration<T>>, i: int)
    requires
        0 <= i < ms.len(),
        ms[i].reversible_spec(),
        source_node(ms[i]) != target_node(ms[i]),
    ensures
        is_path(ms, target_node(ms[i]), source_node(ms[i]), seq![2 * i + 1]),
{
    let e = 2 * i + 1;
    assert(e / 2 == i);
    assert(e % 2 == 1);
    lemma_cont_split(ms, target_node(ms[i]), source_node(ms[i]), seq![target_node(ms[i])], e, Seq::empty());
    assert(seq![e] + Seq::<int>::empty() =~= seq![e]);
}

/// Whatever `plan` picks (the unique preferred path, or each candidate of
/// an ambiguous plan) is a simple path, so `available_paths` lists it.
pub proof fn law_planned_path_is_available<T: Transform>(ms: Seq<Migration<T>>, from: SchemaIdView, to: SchemaIdView, p: Seq<int>)
    requires
        preferred_path(ms, from, to, p),
    ensures
        is_path(ms, from, to, p),
{
}

/// A path planned between two different nodes is no longer than any simple
/// path between them, and has no more reverse hops than any simple path of
/// the same length.
pub proof fn law_planned_path_is_shortest<T: Transform>(
    ms: Seq<Migration<T>>,
    from: SchemaIdView,
    to: SchemaIdView,
    p: Seq<int>,
    q: Seq<int>,
)
    requires
        preferred_path(ms, from, to, p),
        is_path(ms, from, to, q),
    ensures
        p.len() <= q.len(),
        p.len() == q.len() ==> rev_count(p) <= rev_count(q),
{
    if p.len() == q.len() {
        assert forall|x: Seq<int>| #[trigger] is_path(ms, from, to, x) implies q.len() <= x.len() by {
            assert(p.len() <= x.len());
        }
        assert(shortest_path(ms, from, to, q));
    }
}

/// The edge an entry of `edges_from` stands for.
pub open spec fn edge_of(x: (SchemaId, usize, bool)) -> int {
    2 * x.1 + if x.2 {
        1int
    } else {
        0int
    }
}

/// Law: two field lists count as the same schema exactly when they have
/// the same number of fields and, position by position, the same name, the
/// same type, the same required flag, the same description and the same
/// constraints in order, each equal as `==` compares constraints (range
/// bounds as doubles).
pub proof fn law_fields_same(a: Seq<FieldView>, b: Seq<FieldView>)
    ensures
        fields_same(a, b) <==> {
            &&& a.len() == b.len()
            &&& forall|k: int|
                0 <= k < a.len() ==> {
                    &&& (#[trigger] a[k]).name == b[k].name
                    &&& a[k].ty == b[k].ty
                    &&& a[k].required == b[k].required
                    &&& a[k].description == b[k].description
                    &&& a[k].constraints.len() == b[k].constraints.len()
                    &&& forall|j: int|
                        0 <= j < a[k].constraints.len() ==> constraint_eq(
                            #[trigger] a[k].constraints[j],
                            b[k].constraints[j],
                        )
                }
        },
{
    assert forall|x: ConstraintView, y: ConstraintView| constraint_same(x, y) == constraint_eq(x, y) by {}
}

/// Law: once a node is recorded, registering there a schema whose fields
/// differ from the recorded ones in number, or in the type of some field,
/// is refused, naming the migration that recorded the node; the records
/// stay as they were (see `register`).
pub proof fn law_conflicting_schema_refused(
    recs: Seq<(SchemaIdView, Seq<FieldView>, Seq<char>)>,
    n: SchemaIdView,
    fs: Seq<FieldView>,
    mid: Seq<char>,
    i: int,
    k: int,
)
    requires
        records_distinct(recs),
        0 <= i < recs.len(),
        recs[i].0 == n,
        0 <= k < fs.len(),
        recs[i].1.len() != fs.len() || recs[i].1[k].ty != fs[k].ty,
    ensures
        record_outcome(recs, n, fs, mid) == Err::<Seq<(SchemaIdView, Seq<FieldView>, Seq<char>)>, Seq<char>>(
            recs[i].2,
        ),
{
    assert(recs[i].0 == n);
    let j = choose|j: int| 0 <= j < recs.len() && (#[trigger] recs[j]).0 == n;
    if j != i {
        if j < i {
            assert(recs[j].0 != recs[i].0);
        } else {
            assert(recs[i].0 != recs[j].0);
        }
    }
    law_fields_same(recs[i].1, fs);
}

} // verus!
