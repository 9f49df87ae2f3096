//! The renderer: builds a table of the nodes and walks it depth first.
use vstd::prelude::*;
use vstd::string::StringExecFns;

use crate::model::{
    ascending, ascending_ids, connections_within, description, is_leaf, lemma_ascending_unique, lemma_producers_within,
    list_text, node_text, producers, roots_text,
};

verus! {

/// The distinct identifiers of `node_ids`, in ascending order.
fn ascending_from(node_ids: &Vec<u64>) -> (ids: Vec<u64>)
    ensures
        ascending(ids@),
        ids@.to_set() == node_ids@.to_set(),
{
    let mut ids: Vec<u64> = Vec::new();
    let mut i: usize = 0;
    while i < node_ids.len()
        invariant
            i <= node_ids.len(),
            ascending(ids@),
            forall|x: u64| ids@.contains(x) <==> node_ids@.subrange(0, i as int).contains(x),
        decreases node_ids.len() - i,
    {
        let x = node_ids[i];
        let mut k: usize = 0;
        while k < ids.len() && ids[k] < x
            invariant
                k <= ids.len(),
                i < node_ids.len(),
                x == node_ids@[i as int],
                ascending(ids@),
                forall|y: u64| ids@.contains(y) <==> node_ids@.subrange(0, i as int).contains(y),
                forall|t: int| 0 <= t < k ==> ids@[t] < x,
            decreases ids.len() - k,
        {
            k = k + 1;
        }
        let ghost before = ids@;
        if k < ids.len() && ids[k] == x {
            assert(ids@.contains(x));
            assert forall|y: u64| ids@.contains(y) <==> (before.contains(y) || y == x) by {}
        } else {
            ids.insert(k, x);
            assert forall|a: int, b: int| 0 <= a < b < ids@.len() implies ids@[a] < ids@[b] by {
                if b < k {
                } else if b == k {
                } else if a < k {
                    assert(before[a] < before[k as int]);
                } else if a == k {
                    assert(x <= before[b - 1]);
                } else {
                }
            }
            assert forall|y: u64| ids@.contains(y) <==> (before.contains(y) || y == x) by {
                if ids@.contains(y) {
                    let t = choose|t: int| 0 <= t < ids@.len() && ids@[t] == y;
                    if t < k {
                        assert(before[t] == y);
                    } else if t > k {
                        assert(before[t - 1] == y);
                    }
                }
                if before.contains(y) {
                    let t = choose|t: int| 0 <= t < before.len() && before[t] == y;
                    if t < k {
                        assert(ids@[t] == y);
                    } else {
                        assert(ids@[t + 1] == y);
                    }
                }
                if y == x {
                    assert(ids@[k as int] == y);
                }
            }
        }
        proof {
            let pre = node_ids@.subrange(0, i as int);
            let post = node_ids@.subrange(0, i + 1);
            assert(post =~= pre.push(x));
            assert forall|y: u64| post.contains(y) <==> (pre.contains(y) || y == x) by {
                if post.contains(y) {
                    let t = choose|t: int| 0 <= t < post.len() && post[t] == y;
                    if t < i {
                        assert(pre[t] == y);
                    }
                }
                if pre.contains(y) {
                    let t = choose|t: int| 0 <= t < pre.len() && pre[t] == y;
                    assert(post[t] == y);
                }
                if y == x {
                    assert(post[i as int] == y);
                }
            }
            assert forall|y: u64| ids@.contains(y) <==> post.contains(y) by {
                assert(before.contains(y) <==> pre.contains(y));
            }
        }
        i = i + 1;
    }
    assert(node_ids@.subrange(0, i as int) =~= node_ids@);
    assert(ids@.to_set() =~= node_ids@.to_set());
    ids
}

/// The position of `x` in `ids`.
fn index_of(ids: &Vec<u64>, x: u64) -> (k: usize)
    requires
        ids@.contains(x),
    ensures
        k < ids.len(),
        ids[k as int] == x,
{
    let mut k: usize = 0;
    while k < ids.len()
        invariant
            k <= ids.len(),
            ids@.contains(x),
            forall|t: int| 0 <= t < k ==> ids@[t] != x,
        decreases ids.len() - k,
    {
        if ids[k] == x {
            return k;
        }
        k = k + 1;
    }
    k
}

/// The nodes that `n` takes values from, in the order of the connections.
fn producers_of(conns: &Vec<(u64, u64)>, n: u64) -> (r: Vec<u64>)
    ensures
        r@ == producers(conns@, n),
{
    let mut r: Vec<u64> = Vec::new();
    let mut j: usize = 0;
    while j < conns.len()
        invariant
            j <= conns.len(),
            r@ == producers(conns@.subrange(0, j as int), n),
        decreases conns.len() - j,
    {
        let c = conns[j];
        assert(conns@.subrange(0, j + 1).drop_last() =~= conns@.subrange(0, j as int));
        if c.0 == n {
            r.push(c.1);
        }
        j = j + 1;
    }
    assert(conns@.subrange(0, j as int) =~= conns@);
    r
}

/// Whether no connection takes a value from `n`.
fn leaf_of(conns: &Vec<(u64, u64)>, n: u64) -> (r: bool)
    ensures
        r == is_leaf(conns@, n),
{
    let mut j: usize = 0;
    while j < conns.len()
        invariant
            j <= conns.len(),
            forall|t: int| 0 <= t < j ==> #[trigger] conns@[t].1 != n,
        decreases conns.len() - j,
    {
        if conns[j].1 == n {
            return false;
        }
        j = j + 1;
    }
    true
}

/// The table that the walk reads: the nodes in ascending order and, for each,
/// the nodes it takes values from.
spec fn table_ok(ids: Seq<u64>, ins: Seq<Vec<u64>>, conns: Seq<(u64, u64)>) -> bool {
    &&& ascending(ids)
    &&& ins.len() == ids.len()
    &&& forall|k: int| 0 <= k < ids.len() ==> #[trigger] ins[k]@ == producers(conns, ids[k])
    &&& forall|k: int, t: int|
        0 <= k < ids.len() && 0 <= t < ins[k]@.len() ==> ids.contains(#[trigger] ins[k]@[t])
}

/// `flags` marks exactly the nodes of `printed`, and `printed` holds only nodes.
spec fn flags_match(ids: Seq<u64>, flags: Seq<bool>, printed: Set<u64>) -> bool {
    &&& flags.len() == ids.len()
    &&& forall|k: int| 0 <= k < ids.len() ==> (#[trigger] flags[k] <==> printed.contains(ids[k]))
    &&& forall|x: u64| printed.contains(x) ==> ids.contains(x)
}

/// The printed set is a finite part of the nodes.
proof fn lemma_printed_finite(ids: Seq<u64>, flags: Seq<bool>, printed: Set<u64>)
    requires
        flags_match(ids, flags, printed),
    ensures
        printed.finite(),
        printed.len() <= ids.to_set().len(),
{
    vstd::seq_lib::seq_to_set_is_finite(ids);
    vstd::set_lib::lemma_len_subset(printed, ids.to_set());
}

/// Appends the text of node `ids[k]` to `out` and marks the nodes it prints.
fn print_node(
    out: &mut String,
    k: usize,
    ids: &Vec<u64>,
    ins: &Vec<Vec<u64>>,
    printed: &mut Vec<bool>,
    Ghost(conns): Ghost<Seq<(u64, u64)>>,
    Ghost(before): Ghost<Set<u64>>,
    Ghost(fuel): Ghost<nat>,
)
    requires
        table_ok(ids@, ins@, conns),
        k < ids.len(),
        flags_match(ids@, old(printed)@, before),
        fuel + before.len() >= ids@.to_set().len(),
    ensures
        final(out)@ == old(out)@ + node_text(conns, ids[k as int], before, fuel).0,
        flags_match(ids@, final(printed)@, node_text(conns, ids[k as int], before, fuel).1),
        before.subset_of(node_text(conns, ids[k as int], before, fuel).1),
    decreases fuel,
{
    let n = ids[k];
    proof {
        lemma_printed_finite(ids@, printed@, before);
    }
    if printed[k] {
        proof {
            reveal_strlit("...");
        }
        out.append("...");
        return;
    }
    proof {
        let all = ids@.to_set();
        vstd::seq_lib::seq_to_set_is_finite(ids@);
        assert(all.contains(n));
        vstd::set_lib::lemma_len_subset(before, all.remove(n));
    }
    let ghost start = out@;
    let ghost marked = before.insert(n);
    printed.set(k, true);
    assert forall|t: int| 0 <= t < ids.len() implies (#[trigger] printed@[t] <==> marked.contains(
        ids@[t],
    )) by {
        if t != k {
            if t < k {
                assert(ids@[t] < ids@[k as int]);
            } else {
                assert(ids@[k as int] < ids@[t]);
            }
        }
    }
    proof {
        reveal_strlit("(node ");
    }
    out.append("(node ");
    let list = &ins[k];
    let ghost inner_fuel = (fuel - 1) as nat;
    let ghost after_open = out@;
    let ghost mut cur = marked;
    let mut i: usize = 0;
    while i < list.len()
        invariant
            table_ok(ids@, ins@, conns),
            k < ids.len(),
            n == ids@[k as int],
            list@ == ins@[k as int]@,
            list@ == producers(conns, n),
            i <= list.len(),
            fuel >= 1,
            inner_fuel == fuel - 1,
            flags_match(ids@, printed@, cur),
            marked.subset_of(cur),
            inner_fuel + cur.len() >= ids@.to_set().len(),
            out@ + list_text(conns, list@, i as nat, cur, inner_fuel).0 == after_open + list_text(
                conns,
                list@,
                0,
                marked,
                inner_fuel,
            ).0,
            list_text(conns, list@, i as nat, cur, inner_fuel).1 == list_text(
                conns,
                list@,
                0,
                marked,
                inner_fuel,
            ).1,
        decreases list.len() - i,
    {
        let ghost at = cur;
        let ghost step_out = out@;
        assert(ids@.contains(list@[i as int]));
        let j = index_of(ids, list[i]);
        print_node(out, j, ids, ins, printed, Ghost(conns), Ghost(at), Ghost(inner_fuel));
        proof {
            let head = node_text(conns, list@[i as int], at, inner_fuel);
            cur = head.1;
            lemma_printed_finite(ids@, printed@, cur);
            vstd::set_lib::lemma_len_subset(at, cur);
            let tail = list_text(conns, list@, (i + 1) as nat, cur, inner_fuel);
            assert(list_text(conns, list@, i as nat, at, inner_fuel).0 == head.0 + tail.0);
            assert(out@ == step_out + head.0);
            assert(out@ + tail.0 =~= step_out + (head.0 + tail.0));
        }
        i = i + 1;
    }
    proof {
        reveal_strlit(") ");
    }
    out.append(") ");
    proof {
        let inner = list_text(conns, producers(conns, n), 0, marked, inner_fuel);
        assert(out@ =~= start + (crate::model::open_token() + inner.0 + crate::model::close_token()));
    }
}

/// The description of the graph with nodes `node_ids` and connections
/// `(consumer, producer)`: the text of every node whose output no connection
/// takes, in ascending order of identifier. A node's text is `(node `, then
/// the texts of the nodes it takes values from in the order of the
/// connections, then `) `; a node met a second time in one call is `...`.
/// Nodes that no such walk reaches are left out.
pub fn render(node_ids: &Vec<u64>, connections: &Vec<(u64, u64)>) -> (r: String)
    requires
        connections_within(node_ids@.to_set(), connections@),
    ensures
        r@ == description(node_ids@.to_set(), connections@),
{
    let ghost conns = connections@;
    let ids = ascending_from(node_ids);
    let ghost all = ids@.to_set();
    proof {
        let q = ascending_ids(all);
        assert(ascending(q) && q.to_set() == all);
        lemma_ascending_unique(q, ids@);
    }
    let mut ins: Vec<Vec<u64>> = Vec::new();
    let mut leaf: Vec<bool> = Vec::new();
    let mut printed: Vec<bool> = Vec::new();
    let mut k: usize = 0;
    while k < ids.len()
        invariant
            k <= ids.len(),
            ascending(ids@),
            all == ids@.to_set(),
            conns == connections@,
            connections_within(all, conns),
            ins.len() == k,
            leaf.len() == k,
            printed.len() == k,
            forall|t: int| 0 <= t < k ==> #[trigger] ins@[t]@ == producers(conns, ids@[t]),
            forall|t: int, u: int|
                0 <= t < k && 0 <= u < ins@[t]@.len() ==> ids@.contains(#[trigger] ins@[t]@[u]),
            forall|t: int| 0 <= t < k ==> #[trigger] leaf@[t] == is_leaf(conns, ids@[t]),
            forall|t: int| 0 <= t < k ==> !(#[trigger] printed@[t]),
        decreases ids.len() - k,
    {
        let p = producers_of(connections, ids[k]);
        assert forall|u: int| 0 <= u < p@.len() implies ids@.contains(#[trigger] p@[u]) by {
            lemma_producers_within(conns, ids@[k as int], all, u);
            assert(all.contains(p@[u]));
        }
        ins.push(p);
        leaf.push(leaf_of(connections, ids[k]));
        printed.push(false);
        k = k + 1;
    }
    let mut out = String::new();
    let ghost fuel = all.len();
    let ghost mut cur = Set::<u64>::empty();
    let mut k: usize = 0;
    while k < ids.len()
        invariant
            k <= ids.len(),
            table_ok(ids@, ins@, conns),
            all == ids@.to_set(),
            fuel == all.len(),
            leaf.len() == ids.len(),
            forall|t: int| 0 <= t < ids.len() ==> #[trigger] leaf@[t] == is_leaf(conns, ids@[t]),
            flags_match(ids@, printed@, cur),
            out@ + roots_text(conns, ids@, k as nat, cur, fuel).0 == roots_text(
                conns,
                ids@,
                0,
                Set::empty(),
                fuel,
            ).0,
        decreases ids.len() - k,
    {
        if leaf[k] {
            let ghost at = cur;
            let ghost step_out = out@;
            print_node(&mut out, k, &ids, &ins, &mut printed, Ghost(conns), Ghost(at), Ghost(fuel));
            proof {
                let head = node_text(conns, ids@[k as int], at, fuel);
                cur = head.1;
                let tail = roots_text(conns, ids@, (k + 1) as nat, cur, fuel);
                assert(out@ + tail.0 =~= step_out + (head.0 + tail.0));
            }
        }
        k = k + 1;
    }
    out
}

} // verus!
