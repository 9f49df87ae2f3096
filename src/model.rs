//! The mathematical model of a graph description.
//!
//! A graph is a finite set of node identifiers and a sequence of connections.
//! A connection `(consumer, producer)` says that `consumer` takes a value that
//! `producer` makes. The description walks the graph depth first from every
//! node whose output nobody takes, in ascending order of identifier.
use vstd::prelude::*;

verus! {

/// Every node that a connection names belongs to the graph.
pub open spec fn connections_within(nodes: Set<u64>, conns: Seq<(u64, u64)>) -> bool {
    forall|j: int|
        0 <= j < conns.len() ==> nodes.contains(#[trigger] conns[j].0) && nodes.contains(
            conns[j].1,
        )
}

/// The nodes that `n` takes values from, in the order of the connections.
pub open spec fn producers(conns: Seq<(u64, u64)>, n: u64) -> Seq<u64> {
    conns.filter_map(
        |c: (u64, u64)|
            if c.0 == n {
                Some(c.1)
            } else {
                None
            },
    )
}

/// No connection takes a value from `n`: the walk starts at `n`.
pub open spec fn is_leaf(conns: Seq<(u64, u64)>, n: u64) -> bool {
    forall|j: int| 0 <= j < conns.len() ==> #[trigger] conns[j].1 != n
}

/// Strictly increasing.
pub open spec fn ascending(q: Seq<u64>) -> bool {
    forall|i: int, j: int| 0 <= i < j < q.len() ==> q[i] < q[j]
}

/// The identifiers of `nodes` in ascending order.
pub open spec fn ascending_ids(nodes: Set<u64>) -> Seq<u64> {
    choose|q: Seq<u64>| ascending(q) && q.to_set() == nodes
}

pub open spec fn open_token() -> Seq<char> {
    seq!['(', 'n', 'o', 'd', 'e', ' ']
}

pub open spec fn close_token() -> Seq<char> {
    seq![')', ' ']
}

pub open spec fn seen_token() -> Seq<char> {
    seq!['.', '.', '.']
}

/// The text of node `n` and the set of printed nodes after it, given the
/// nodes printed before. `fuel` bounds the depth; it never runs out when it
/// is at least the number of nodes not yet printed.
pub open spec fn node_text(conns: Seq<(u64, u64)>, n: u64, printed: Set<u64>, fuel: nat) -> (
    Seq<char>,
    Set<u64>,
)
    decreases fuel, 0nat,
{
    if printed.contains(n) {
        (seen_token(), printed)
    } else if fuel == 0 {
        (Seq::empty(), printed)
    } else {
        let inner = list_text(conns, producers(conns, n), 0, printed.insert(n), (fuel - 1) as nat);
        (open_token() + inner.0 + close_token(), inner.1)
    }
}

/// The texts of `list[i..]`, one after the other.
pub open spec fn list_text(
    conns: Seq<(u64, u64)>,
    list: Seq<u64>,
    i: nat,
    printed: Set<u64>,
    fuel: nat,
) -> (Seq<char>, Set<u64>)
    decreases fuel, list.len() - i + 1,
{
    if i >= list.len() {
        (Seq::empty(), printed)
    } else {
        let head = node_text(conns, list[i as int], printed, fuel);
        let tail = list_text(conns, list, i + 1, head.1, fuel);
        (head.0 + tail.0, tail.1)
    }
}

/// The texts of the leaves among `roots[i..]`, one after the other.
pub open spec fn roots_text(
    conns: Seq<(u64, u64)>,
    roots: Seq<u64>,
    i: nat,
    printed: Set<u64>,
    fuel: nat,
) -> (Seq<char>, Set<u64>)
    decreases roots.len() - i,
{
    if i >= roots.len() {
        (Seq::empty(), printed)
    } else if is_leaf(conns, roots[i as int]) {
        let head = node_text(conns, roots[i as int], printed, fuel);
        let tail = roots_text(conns, roots, i + 1, head.1, fuel);
        (head.0 + tail.0, tail.1)
    } else {
        roots_text(conns, roots, i + 1, printed, fuel)
    }
}

/// The description of the graph.
pub open spec fn description(nodes: Set<u64>, conns: Seq<(u64, u64)>) -> Seq<char> {
    roots_text(conns, ascending_ids(nodes), 0, Set::empty(), nodes.len()).0
}

/// The description depends on the graph alone: two lists of node identifiers
/// that name the same nodes, in any order and with any repetition, give the
/// same description for the same connections.
pub proof fn lemma_description_determined(a: Seq<u64>, b: Seq<u64>, conns: Seq<(u64, u64)>)
    requires
        a.to_set() == b.to_set(),
    ensures
        description(a.to_set(), conns) == description(b.to_set(), conns),
{
}

/// Every producer named by `conns` belongs to `nodes`.
pub proof fn lemma_producers_within(conns: Seq<(u64, u64)>, n: u64, nodes: Set<u64>, u: int)
    requires
        connections_within(nodes, conns),
        0 <= u < producers(conns, n).len(),
    ensures
        nodes.contains(producers(conns, n)[u]),
    decreases conns.len(),
{
    let rest = conns.drop_last();
    assert(connections_within(nodes, rest)) by {
        assert forall|j: int| 0 <= j < rest.len() implies nodes.contains(#[trigger] rest[j].0)
            && nodes.contains(rest[j].1) by {
            assert(rest[j] == conns[j]);
        }
    }
    if u < producers(rest, n).len() {
        lemma_producers_within(rest, n, nodes, u);
    } else {
        assert(conns[conns.len() - 1] == conns.last());
    }
}

/// Every finite set of identifiers has an ascending enumeration.
pub proof fn lemma_ascending_exists(s: Set<u64>)
    requires
        s.finite(),
    ensures
        ascending(ascending_ids(s)),
        ascending_ids(s).to_set() == s,
    decreases s.len(),
{
    if s.len() == 0 {
        let q = Seq::<u64>::empty();
        assert forall|x: u64| !s.contains(x) by {
            if s.contains(x) {
                assert(s.remove(x).len() == s.len() - 1);
            }
        }
        assert(q.to_set() =~= s);
        assert(ascending(q) && q.to_set() == s);
    } else {
        let leq = |a: u64, b: u64| a <= b;
        assert(vstd::relations::total_ordering(leq));
        s.find_unique_maximal_ensures(leq);
        let m = s.find_unique_maximal(leq);
        let r = s.remove(m);
        lemma_ascending_exists(r);
        let p = ascending_ids(r);
        let q = p.push(m);
        assert forall|k: int| 0 <= k < p.len() implies p[k] < m by {
            assert(p.to_set().contains(p[k]));
            assert(r.contains(p[k]));
            assert(leq(p[k], m) || leq(m, p[k]));
        }
        assert forall|x: u64| q.to_set().contains(x) <==> s.contains(x) by {
            if q.to_set().contains(x) {
                let t = choose|t: int| 0 <= t < q.len() && q[t] == x;
                if t < p.len() {
                    assert(p[t] == x);
                    assert(p.to_set().contains(x));
                }
            }
            if s.contains(x) {
                if x == m {
                    assert(q[p.len() as int] == x);
                } else {
                    assert(r.contains(x));
                    assert(p.to_set().contains(x));
                    let t = choose|t: int| 0 <= t < p.len() && p[t] == x;
                    assert(q[t] == x);
                }
            }
        }
        assert(q.to_set() =~= s);
        assert(ascending(q) && q.to_set() == s);
    }
}

/// Node text does not depend on the depth bound once it covers the nodes
/// not yet printed; the walk stays within `nodes` and only adds to `printed`.
pub proof fn lemma_node_fuel(
    conns: Seq<(u64, u64)>,
    nodes: Set<u64>,
    n: u64,
    printed: Set<u64>,
    f1: nat,
    f2: nat,
)
    requires
        nodes.finite(),
        connections_within(nodes, conns),
        printed.subset_of(nodes),
        nodes.contains(n),
        f1 + printed.len() >= nodes.len(),
        f2 + printed.len() >= nodes.len(),
    ensures
        node_text(conns, n, printed, f1) == node_text(conns, n, printed, f2),
        printed.subset_of(node_text(conns, n, printed, f1).1),
        node_text(conns, n, printed, f1).1.subset_of(nodes),
    decreases f1, 0nat,
{
    if !printed.contains(n) {
        vstd::set_lib::lemma_len_subset(printed, nodes.remove(n));
        let marked = printed.insert(n);
        let list = producers(conns, n);
        assert forall|u: int| 0 <= u < list.len() implies nodes.contains(#[trigger] list[u]) by {
            lemma_producers_within(conns, n, nodes, u);
        }
        lemma_list_fuel(conns, nodes, list, 0, marked, (f1 - 1) as nat, (f2 - 1) as nat);
    }
}

/// The counterpart of `lemma_node_fuel` for a list of nodes.
pub proof fn lemma_list_fuel(
    conns: Seq<(u64, u64)>,
    nodes: Set<u64>,
    list: Seq<u64>,
    i: nat,
    printed: Set<u64>,
    f1: nat,
    f2: nat,
)
    requires
        nodes.finite(),
        connections_within(nodes, conns),
        printed.subset_of(nodes),
        forall|u: int| 0 <= u < list.len() ==> nodes.contains(#[trigger] list[u]),
        f1 + printed.len() >= nodes.len(),
        f2 + printed.len() >= nodes.len(),
    ensures
        list_text(conns, list, i, printed, f1) == list_text(conns, list, i, printed, f2),
        printed.subset_of(list_text(conns, list, i, printed, f1).1),
        list_text(conns, list, i, printed, f1).1.subset_of(nodes),
    decreases f1, list.len() - i + 1,
{
    if i < list.len() {
        lemma_node_fuel(conns, nodes, list[i as int], printed, f1, f2);
        let head = node_text(conns, list[i as int], printed, f1);
        vstd::set_lib::lemma_len_subset(printed, head.1);
        vstd::set_lib::lemma_len_subset(head.1, nodes);
        lemma_list_fuel(conns, nodes, list, i + 1, head.1, f1, f2);
    }
}

/// The counterpart of `lemma_node_fuel` for the walk over the roots.
pub proof fn lemma_roots_fuel(
    conns: Seq<(u64, u64)>,
    nodes: Set<u64>,
    roots: Seq<u64>,
    i: nat,
    printed: Set<u64>,
    f1: nat,
    f2: nat,
)
    requires
        nodes.finite(),
        connections_within(nodes, conns),
        printed.subset_of(nodes),
        forall|u: int| 0 <= u < roots.len() ==> nodes.contains(#[trigger] roots[u]),
        f1 >= nodes.len(),
        f2 >= nodes.len(),
    ensures
        roots_text(conns, roots, i, printed, f1) == roots_text(conns, roots, i, printed, f2),
    decreases roots.len() - i,
{
    if i < roots.len() {
        if is_leaf(conns, roots[i as int]) {
            lemma_node_fuel(conns, nodes, roots[i as int], printed, f1, f2);
            let head = node_text(conns, roots[i as int], printed, f1);
            lemma_roots_fuel(conns, nodes, roots, i + 1, head.1, f1, f2);
        } else {
            lemma_roots_fuel(conns, nodes, roots, i + 1, printed, f1, f2);
        }
    }
}

/// The walk ends within as many levels of nesting as there are nodes: any
/// larger bound on the depth gives the same description, cycles included.
pub proof fn lemma_walk_ends(nodes: Set<u64>, conns: Seq<(u64, u64)>, depth: nat)
    requires
        nodes.finite(),
        connections_within(nodes, conns),
        depth >= nodes.len(),
    ensures
        roots_text(conns, ascending_ids(nodes), 0, Set::empty(), depth).0 == description(
            nodes,
            conns,
        ),
{
    lemma_ascending_exists(nodes);
    let roots = ascending_ids(nodes);
    assert forall|u: int| 0 <= u < roots.len() implies nodes.contains(#[trigger] roots[u]) by {
        assert(roots.to_set().contains(roots[u]));
    }
    lemma_roots_fuel(conns, nodes, roots, 0, Set::empty(), depth, nodes.len());
}

/// Two strictly increasing sequences with the same elements are equal.
pub proof fn lemma_ascending_unique(a: Seq<u64>, b: Seq<u64>)
    requires
        ascending(a),
        ascending(b),
        a.to_set() == b.to_set(),
    ensures
        a == b,
    decreases a.len(),
{
    if a.len() == 0 || b.len() == 0 {
        if b.len() > 0 {
            assert(b.to_set().contains(b[0]));
        }
        if a.len() > 0 {
            assert(a.to_set().contains(a[0]));
        }
        assert(a =~= b);
    } else {
        assert(b.to_set().contains(b[0]));
        assert(a.to_set().contains(b[0]));
        let i = choose|i: int| 0 <= i < a.len() && a[i] == b[0];
        assert(a.to_set().contains(a[0]));
        assert(b.to_set().contains(a[0]));
        let j = choose|j: int| 0 <= j < b.len() && b[j] == a[0];
        assert(a[0] <= a[i]);
        assert(b[0] <= b[j]);
        let a1 = a.drop_first();
        let b1 = b.drop_first();
        assert forall|x: u64| a1.to_set().contains(x) <==> b1.to_set().contains(x) by {
            if a1.to_set().contains(x) {
                let t = choose|t: int| 0 <= t < a1.len() && a1[t] == x;
                assert(a[t + 1] == x);
                assert(b.to_set().contains(x));
                let u = choose|u: int| 0 <= u < b.len() && b[u] == x;
                assert(u != 0);
                assert(b1[u - 1] == x);
            }
            if b1.to_set().contains(x) {
                let t = choose|t: int| 0 <= t < b1.len() && b1[t] == x;
                assert(b[t + 1] == x);
                assert(a.to_set().contains(x));
                let u = choose|u: int| 0 <= u < a.len() && a[u] == x;
                assert(u != 0);
                assert(a1[u - 1] == x);
            }
        }
        assert(a1.to_set() =~= b1.to_set());
        lemma_ascending_unique(a1, b1);
        assert(a[0] == b[0]);
        assert forall|k: int| 0 < k < a.len() implies a[k] == b[k] by {
            assert(a[k] == a1[k - 1]);
            assert(b[k] == b1[k - 1]);
        }
        assert(a =~= b);
    }
}

} // verus!
