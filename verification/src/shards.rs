//! The board graph in shards: each shard holds the nodes whose board falls
//! to it, as the bytes of a graph of its own.

use vstd::prelude::*;
use crate::board::Board;
use crate::board_list::{
    graph_bytes, graph_of, lemma_graph_round_trip, lemma_nodes_bytes_push, node_view, node_views,
    nodes_bytes, read_graph, storable, write_node, NodeView,
};
use crate::board_map::BoardMap;
use crate::boardgraph::{successors, Edges, Gigapan};
use crate::leb::{leb128, write_unsigned, LebError};
use crate::shape::Shape;

verus! {

/// The shard that a board falls to: the boards are dealt out by their
/// masks.
pub open spec fn shard_of(board: Board, shard_count: usize) -> int {
    board.0 as int % shard_count as int
}

/// The nodes among the first `upto` of the graph that fall to shard `k`, in
/// the order of the graph.
pub open spec fn shard_nodes(graph: &Gigapan, shard_count: usize, k: int, upto: nat) -> Seq<NodeView>
    decreases upto,
{
    if upto == 0 {
        Seq::empty()
    } else if shard_of(graph.keys()[upto - 1], shard_count) == k {
        shard_nodes(graph, shard_count, k, (upto - 1) as nat).push(
            node_view((graph.keys()[upto - 1], graph.values()[upto - 1])),
        )
    } else {
        shard_nodes(graph, shard_count, k, (upto - 1) as nat)
    }
}

/// The bytes of one shard of the graph.
pub fn write_shard(gigapan: &Gigapan, shard_count: usize, k: usize) -> (r: Vec<u8>)
    requires
        gigapan.wf(),
        shard_count > 0,
    ensures
        r@ == graph_bytes(shard_nodes(gigapan, shard_count, k as int, gigapan.keys().len())),
{
    let len = gigapan.len();
    let mut count: u64 = 0;
    let mut i: usize = 0;
    while i < len
        invariant
            i <= len,
            len == gigapan.keys().len(),
            gigapan.wf(),
            shard_count > 0,
            count == shard_nodes(gigapan, shard_count, k as int, i as nat).len(),
            count <= i,
        decreases len - i,
    {
        if (gigapan.key_at(i).0 % (shard_count as u64)) as usize == k {
            count = count + 1;
        }
        i = i + 1;
    }
    let mut out: Vec<u8> = Vec::new();
    write_unsigned(&mut out, count);
    let ghost start = out@;
    let mut i: usize = 0;
    assert(out@ =~= start + nodes_bytes(shard_nodes(gigapan, shard_count, k as int, 0)));
    while i < len
        invariant
            i <= len,
            len == gigapan.keys().len(),
            gigapan.wf(),
            shard_count > 0,
            out@ == start + nodes_bytes(shard_nodes(gigapan, shard_count, k as int, i as nat)),
        decreases len - i,
    {
        let board = gigapan.key_at(i);
        if (board.0 % (shard_count as u64)) as usize == k {
            let ghost before = shard_nodes(gigapan, shard_count, k as int, i as nat);
            let ghost node = node_view((gigapan.keys()[i as int], gigapan.values()[i as int]));
            write_node(&mut out, board, gigapan.value_at(i));
            proof {
                lemma_nodes_bytes_push(before, node);
                assert(out@ =~= start + nodes_bytes(before.push(node)));
            }
        }
        i = i + 1;
    }
    assert(Seq::<u8>::empty() + leb128(count) =~= leb128(count));
    out
}

/// The graph as the bytes of its shards, `shard_count` of them.
pub fn write_pan(gigapan: &Gigapan, shard_count: usize) -> (r: Vec<Vec<u8>>)
    requires
        gigapan.wf(),
        shard_count > 0,
    ensures
        r@.len() == shard_count,
        forall|k: int|
            0 <= k < shard_count ==> (#[trigger] r@[k])@ == graph_bytes(
                shard_nodes(gigapan, shard_count, k, gigapan.keys().len()),
            ),
{
    let mut shards: Vec<Vec<u8>> = Vec::new();
    let mut k: usize = 0;
    while k < shard_count
        invariant
            k <= shard_count,
            gigapan.wf(),
            shard_count > 0,
            shards@.len() == k,
            forall|j: int|
                0 <= j < k ==> (#[trigger] shards@[j])@ == graph_bytes(
                    shard_nodes(gigapan, shard_count, j, gigapan.keys().len()),
                ),
        decreases shard_count - k,
    {
        shards.push(write_shard(gigapan, shard_count, k));
        k = k + 1;
    }
    shards
}

/// Whether each of the first `upto` shards can be read.
pub open spec fn shards_readable(shards: Seq<Vec<u8>>, upto: int) -> bool {
    forall|k: int| 0 <= k < upto ==> graph_of((#[trigger] shards[k])@) is Ok
}

/// The nodes of the first `upto` shards, one shard after the other.
pub open spec fn shards_nodes(shards: Seq<Vec<u8>>, upto: nat) -> Seq<NodeView>
    decreases upto,
{
    if upto == 0 {
        Seq::empty()
    } else {
        shards_nodes(shards, (upto - 1) as nat) + graph_of(shards[upto - 1]@)->Ok_0
    }
}

/// Whether the graph holds the nodes of `nodes`: a board is in it that some
/// node has, with the lists of the last node that has it.
pub open spec fn holds_nodes(graph: &Gigapan, nodes: Seq<NodeView>) -> bool {
    &&& forall|b: Board| #[trigger]
        graph.has(b) <==> exists|i: int| 0 <= i < nodes.len() && (#[trigger] nodes[i]).board == b
    &&& forall|i: int|
        0 <= i < nodes.len() && (forall|j: int| i < j < nodes.len() ==> (#[trigger] nodes[j]).board
            != nodes[i].board) ==> node_view(
            ((#[trigger] nodes[i]).board, graph.value_of(nodes[i].board)),
        ).lists == nodes[i].lists
}

/// Puts the nodes into the graph, each board with its lists; a board that
/// comes again takes the lists that come with it last.
pub fn merge_nodes(gigapan: &mut Gigapan, nodes: Vec<(Board, Edges)>)
    requires
        old(gigapan).wf(),
    ensures
        final(gigapan).wf(),
        forall|b: Board| #[trigger]
            final(gigapan).has(b) <==> old(gigapan).has(b) || exists|i: int|
                0 <= i < nodes@.len() && (#[trigger] nodes@[i]).0 == b,
        forall|b: Board|
            old(gigapan).has(b) && !(exists|i: int|
                0 <= i < nodes@.len() && (#[trigger] nodes@[i]).0 == b) ==> (
            #[trigger] final(gigapan).value_of(b)) == old(gigapan).value_of(b),
        forall|i: int|
            0 <= i < nodes@.len() && (forall|j: int|
                i < j < nodes@.len() ==> (#[trigger] nodes@[j]).0 != nodes@[i].0)
                ==> final(gigapan).value_of((#[trigger] nodes@[i]).0) == nodes@[i].1,
{
    let mut nodes = nodes;
    let ghost all = nodes@;
    let _ = nodes.len();
    let ghost before = *gigapan;
    let mut rest: Vec<(Board, Edges)> = Vec::new();
    // The nodes are taken from the end and put back in their order, so
    // that each can be moved into the graph.
    while nodes.len() > 0
        invariant
            nodes@.len() + rest@.len() == all.len(),
            forall|i: int| 0 <= i < nodes@.len() ==> nodes@[i] == all[i],
            forall|i: int| 0 <= i < rest@.len() ==> rest@[i] == all[all.len() - 1 - i],
        decreases nodes@.len(),
    {
        let node = nodes.pop().unwrap();
        rest.push(node);
    }
    let mut done: usize = 0;
    while rest.len() > 0
        invariant
            gigapan.wf(),
            done + rest@.len() == all.len(),
            forall|i: int| 0 <= i < rest@.len() ==> rest@[i] == all[all.len() - 1 - i],
            forall|b: Board| #[trigger]
                gigapan.has(b) <==> before.has(b) || exists|i: int|
                    0 <= i < done && (#[trigger] all[i]).0 == b,
            all.len() <= usize::MAX,
            forall|b: Board|
                before.has(b) && !(exists|i: int| 0 <= i < done && (#[trigger] all[i]).0 == b) ==> (
                #[trigger] gigapan.value_of(b)) == before.value_of(b),
            forall|i: int|
                0 <= i < done && (forall|j: int| i < j < done ==> (#[trigger] all[j]).0 != all[i].0)
                    ==> gigapan.value_of((#[trigger] all[i]).0) == all[i].1,
        decreases rest@.len(),
    {
        let node = rest.pop().unwrap();
        let ghost mid = *gigapan;
        assert(node == all[done as int]);
        proof {
            gigapan.lemma_wf();
        }
        let board = node.0;
        gigapan.insert(board, node.1);
        proof {
            gigapan.lemma_wf();
            mid.lemma_wf();
            assert forall|b: Board| #[trigger] gigapan.has(b) <==> mid.has(b) || b == board by {
                if mid.has(board) {
                } else {
                    let old_keys = mid.keys();
                    assert(gigapan.keys()[old_keys.len() as int] == board);
                    if old_keys.contains(b) {
                        let p = choose|p: int| 0 <= p < old_keys.len() && old_keys[p] == b;
                        assert(gigapan.keys()[p] == b);
                    }
                    if gigapan.keys().contains(b) && b != board {
                        let p = choose|p: int|
                            0 <= p < gigapan.keys().len() && gigapan.keys()[p] == b;
                        assert(old_keys[p] == b);
                    }
                }
            }
            assert forall|b: Board| b != board && mid.has(b) implies gigapan.value_of(b)
                == mid.value_of(b) by {
                let p = mid.position_of(b);
                assert(0 <= p < mid.keys().len() && mid.keys()[p] == b);
                assert(gigapan.keys()[p] == b);
                assert(gigapan.position_of(b) == p);
            }
            assert(gigapan.value_of(board) == node.1) by {
                if mid.has(board) {
                    let p = mid.position_of(board);
                    assert(0 <= p < mid.keys().len() && mid.keys()[p] == board);
                    assert(gigapan.position_of(board) == p);
                } else {
                    assert(gigapan.keys()[mid.keys().len() as int] == board);
                    assert(gigapan.position_of(board) == mid.keys().len());
                }
            }
            assert forall|b: Board| #[trigger]
                gigapan.has(b) <==> before.has(b) || exists|i: int|
                    0 <= i < done + 1 && (#[trigger] all[i]).0 == b by {
                if exists|i: int| 0 <= i < done && (#[trigger] all[i]).0 == b {
                    let i = choose|i: int| 0 <= i < done && (#[trigger] all[i]).0 == b;
                    assert(0 <= i < done + 1 && all[i].0 == b);
                }
                if b == board {
                    assert(all[done as int].0 == b);
                }
                if exists|i: int| 0 <= i < done + 1 && (#[trigger] all[i]).0 == b {
                    let i = choose|i: int| 0 <= i < done + 1 && (#[trigger] all[i]).0 == b;
                    if i < done {
                    }
                }
            }
            assert forall|b: Board|
                before.has(b) && !(exists|i: int|
                    0 <= i < done + 1 && (#[trigger] all[i]).0 == b) implies (
            #[trigger] gigapan.value_of(b)) == before.value_of(b) by {
                assert(all[done as int].0 == board);
                assert(b != board);
                assert(!(exists|i: int| 0 <= i < done && (#[trigger] all[i]).0 == b)) by {
                    if exists|i: int| 0 <= i < done && (#[trigger] all[i]).0 == b {
                        let i = choose|i: int| 0 <= i < done && (#[trigger] all[i]).0 == b;
                        assert(0 <= i < done + 1 && all[i].0 == b);
                    }
                }
                assert(mid.value_of(b) == before.value_of(b));
                assert(mid.has(b));
            }
            assert forall|i: int|
                0 <= i < done + 1 && (forall|j: int|
                    i < j < done + 1 ==> (#[trigger] all[j]).0 != all[i].0) implies gigapan.value_of(
                (#[trigger] all[i]).0,
            ) == all[i].1 by {
                if i < done {
                    assert(all[done as int].0 != all[i].0);
                    assert(forall|j: int| i < j < done ==> (#[trigger] all[j]).0 != all[i].0);
                    assert(mid.value_of(all[i].0) == all[i].1);
                    assert(mid.has(all[i].0));
                }
            }
        }
        done = done + 1;
    }
}


/// The graph that the shards stand for: every shard is read, and the nodes
/// are put together, those of later shards over those of earlier ones. The
/// first shard that cannot be read fails the whole read.
pub fn read_gigapan(shards: &[Vec<u8>]) -> (r: Result<Gigapan, LebError>)
    ensures
        match r {
            Ok(graph) => graph.wf() && shards_readable(shards@, shards@.len() as int)
                && holds_nodes(&graph, shards_nodes(shards@, shards@.len())),
            Err(e) => exists|k: int|
                0 <= k < shards@.len() && shards_readable(shards@, k) && graph_of(
                    (#[trigger] shards@[k])@,
                ) == Err::<Seq<NodeView>, LebError>(e),
        },
{
    let mut gigapan: Gigapan = BoardMap::new();
    let mut k: usize = 0;
    proof {
        assert forall|b: Board| !gigapan.has(b) by {
            if gigapan.has(b) {
                let j = choose|j: int| 0 <= j < gigapan.keys().len() && gigapan.keys()[j] == b;
            }
        }
    }
    while k < shards.len()
        invariant
            k <= shards@.len(),
            gigapan.wf(),
            shards_readable(shards@, k as int),
            holds_nodes(&gigapan, shards_nodes(shards@, k as nat)),
        decreases shards@.len() - k,
    {
        let nodes = match read_graph(shards[k].as_slice()) {
            Ok(nodes) => nodes,
            Err(e) => {
                return Err(e);
            },
        };
        let ghost before = gigapan;
        let ghost so_far = shards_nodes(shards@, k as nat);
        let ghost added = node_views(nodes@);
        let ghost all = shards_nodes(shards@, (k + 1) as nat);
        let ghost list = nodes@;
        merge_nodes(&mut gigapan, nodes);
        proof {
            assert(all == so_far + added);
            assert forall|b: Board| #[trigger]
                gigapan.has(b) <==> exists|i: int| 0 <= i < all.len() && (#[trigger] all[i]).board == b by {
                if exists|i: int| 0 <= i < so_far.len() && (#[trigger] so_far[i]).board == b {
                    let i = choose|i: int| 0 <= i < so_far.len() && (#[trigger] so_far[i]).board == b;
                    assert(all[i].board == b);
                }
                if exists|i: int| 0 <= i < list.len() && (#[trigger] list[i]).0 == b {
                    let i = choose|i: int| 0 <= i < list.len() && (#[trigger] list[i]).0 == b;
                    assert(all[so_far.len() + i] == added[i]);
                    assert(all[so_far.len() + i].board == b);
                }
                if exists|i: int| 0 <= i < all.len() && (#[trigger] all[i]).board == b {
                    let i = choose|i: int| 0 <= i < all.len() && (#[trigger] all[i]).board == b;
                    if i < so_far.len() {
                        assert(so_far[i].board == b);
                        assert(before.has(b));
                    } else {
                        assert(added[i - so_far.len()] == all[i]);
                        assert(list[i - so_far.len()].0 == b);
                    }
                }
            }
            assert forall|i: int|
                0 <= i < all.len() && (forall|j: int|
                    i < j < all.len() ==> (#[trigger] all[j]).board != all[i].board) implies node_view(
                ((#[trigger] all[i]).board, gigapan.value_of(all[i].board)),
            ).lists == all[i].lists by {
                let b = all[i].board;
                if i < so_far.len() {
                    assert(so_far[i] == all[i]);
                    assert forall|j: int| i < j < so_far.len() implies (#[trigger] so_far[j]).board
                        != so_far[i].board by {
                        assert(all[j] == so_far[j]);
                    }
                    assert(before.has(b));
                    assert(!(exists|x: int| 0 <= x < list.len() && (#[trigger] list[x]).0 == b)) by {
                        if exists|x: int| 0 <= x < list.len() && (#[trigger] list[x]).0 == b {
                            let x = choose|x: int| 0 <= x < list.len() && (#[trigger] list[x]).0 == b;
                            assert(all[so_far.len() + x] == added[x]);
                            assert(all[so_far.len() + x].board == b);
                        }
                    }
                    assert(gigapan.value_of(b) == before.value_of(b));
                } else {
                    let x = i - so_far.len();
                    assert(added[x] == all[i]);
                    assert forall|j: int| x < j < list.len() implies (#[trigger] list[j]).0
                        != list[x].0 by {
                        assert(all[so_far.len() + j] == added[j]);
                        assert(all[so_far.len() + j].board != all[i].board);
                    }
                    assert(gigapan.value_of(list[x].0) == list[x].1);
                }
            }
        }
        k = k + 1;
    }
    Ok(gigapan)
}


/// The node of the graph at position `p`.
pub open spec fn node_at(graph: &Gigapan, p: int) -> NodeView {
    node_view((graph.keys()[p], graph.values()[p]))
}

/// Whether no two nodes have the same board.
pub open spec fn boards_differ(nodes: Seq<NodeView>) -> bool {
    forall|i: int, j: int|
        0 <= i < nodes.len() && 0 <= j < nodes.len() && i != j ==> (#[trigger] nodes[i]).board != (
        #[trigger] nodes[j]).board
}

/// Whether `node` is one of the first `upto` nodes of the graph, and falls
/// to one of the shards from `lo` up to `hi`.
pub open spec fn from_graph(
    graph: &Gigapan,
    shard_count: usize,
    lo: int,
    hi: int,
    upto: int,
    node: NodeView,
) -> bool {
    exists|p: int|
        0 <= p < upto && lo <= shard_of(graph.keys()[p], shard_count) < hi && node
            == #[trigger] node_at(graph, p)
}

/// What a shard holds: each of its nodes is a node of the graph that falls
/// to it, each such node among the first `upto` is in it, and no board
/// comes twice.
pub proof fn lemma_shard_nodes(graph: &Gigapan, shard_count: usize, k: int, upto: nat)
    requires
        graph.wf(),
        upto <= graph.keys().len(),
    ensures
        shard_nodes(graph, shard_count, k, upto).len() <= upto,
        forall|j: int|
            0 <= j < shard_nodes(graph, shard_count, k, upto).len() ==> from_graph(
                graph,
                shard_count,
                k,
                k + 1,
                upto as int,
                #[trigger] shard_nodes(graph, shard_count, k, upto)[j],
            ),
        forall|p: int|
            0 <= p < upto && shard_of(graph.keys()[p], shard_count) == k ==> shard_nodes(
                graph,
                shard_count,
                k,
                upto,
            ).contains(#[trigger] node_at(graph, p)),
        boards_differ(shard_nodes(graph, shard_count, k, upto)),
    decreases upto,
{
    graph.lemma_wf();
    let nodes = shard_nodes(graph, shard_count, k, upto);
    if upto > 0 {
        let before = shard_nodes(graph, shard_count, k, (upto - 1) as nat);
        lemma_shard_nodes(graph, shard_count, k, (upto - 1) as nat);
        assert forall|j: int| 0 <= j < nodes.len() implies from_graph(
            graph,
            shard_count,
            k,
            k + 1,
            upto as int,
            #[trigger] nodes[j],
        ) by {
            if j < before.len() {
                assert(nodes[j] == before[j]);
                assert(from_graph(graph, shard_count, k, k + 1, upto - 1, before[j]));
                let p = choose|p: int|
                    0 <= p < upto - 1 && k <= shard_of(graph.keys()[p], shard_count) < k + 1
                        && before[j] == #[trigger] node_at(graph, p);
                assert(nodes[j] == node_at(graph, p));
            } else {
                assert(nodes[j] == node_at(graph, upto - 1));
            }
        }
        assert forall|p: int|
            0 <= p < upto && shard_of(graph.keys()[p], shard_count) == k implies nodes.contains(
            #[trigger] node_at(graph, p),
        ) by {
            if p < upto - 1 {
                assert(before.contains(node_at(graph, p)));
                let j = choose|j: int| 0 <= j < before.len() && before[j] == node_at(graph, p);
                assert(nodes[j] == before[j]);
            } else {
                assert(nodes[before.len() as int] == node_at(graph, p));
            }
        }
        assert forall|i: int, j: int|
            0 <= i < nodes.len() && 0 <= j < nodes.len() && i != j implies (#[trigger] nodes[i]).board
            != (#[trigger] nodes[j]).board by {
            if i < before.len() && j < before.len() {
                assert(nodes[i] == before[i] && nodes[j] == before[j]);
            } else {
                let early = if i < before.len() {
                    i
                } else {
                    j
                };
                assert(nodes[early] == before[early]);
                assert(from_graph(graph, shard_count, k, k + 1, upto - 1, before[early]));
                let p = choose|p: int|
                    0 <= p < upto - 1 && k <= shard_of(graph.keys()[p], shard_count) < k + 1
                        && before[early] == #[trigger] node_at(graph, p);
                assert(graph.keys()[p] != graph.keys()[upto - 1]);
            }
        }
    }
}

/// What the shards hold together: each node of the first `upto` shards is
/// a node of the graph, each node of the graph that falls to one of them
/// is among them, and no board comes twice.
pub proof fn lemma_shards_nodes(graph: &Gigapan, shard_count: usize, shards: Seq<Vec<u8>>, upto: nat)
    requires
        graph.wf(),
        shard_count > 0,
        upto <= shards.len(),
        forall|k: int|
            0 <= k < shards.len() ==> graph_of((#[trigger] shards[k])@) == Ok::<
                Seq<NodeView>,
                LebError,
            >(shard_nodes(graph, shard_count, k, graph.keys().len())),
    ensures
        forall|i: int|
            0 <= i < shards_nodes(shards, upto).len() ==> from_graph(
                graph,
                shard_count,
                0,
                upto as int,
                graph.keys().len() as int,
                #[trigger] shards_nodes(shards, upto)[i],
            ),
        forall|p: int|
            0 <= p < graph.keys().len() && 0 <= shard_of(graph.keys()[p], shard_count) < upto
                ==> shards_nodes(shards, upto).contains(#[trigger] node_at(graph, p)),
        boards_differ(shards_nodes(shards, upto)),
    decreases upto,
{
    graph.lemma_wf();
    let all = shards_nodes(shards, upto);
    let len = graph.keys().len() as int;
    if upto > 0 {
        let k = upto - 1;
        let before = shards_nodes(shards, (upto - 1) as nat);
        let added = shard_nodes(graph, shard_count, k, len as nat);
        lemma_shards_nodes(graph, shard_count, shards, (upto - 1) as nat);
        lemma_shard_nodes(graph, shard_count, k, len as nat);
        assert(graph_of(shards[k]@) == Ok::<Seq<NodeView>, LebError>(added));
        assert(all == before + added);
        lemma_joined(graph, shard_count, before, added, k, len);
    }
}

/// The nodes of the shards before shard `k` and those of shard `k`, put
/// together, are nodes of the graph, hold each node that falls to these
/// shards, and hold no board twice.
proof fn lemma_joined(
    graph: &Gigapan,
    shard_count: usize,
    before: Seq<NodeView>,
    added: Seq<NodeView>,
    k: int,
    len: int,
)
    requires
        graph.wf(),
        len == graph.keys().len(),
        k >= 0,
        forall|i: int|
            0 <= i < before.len() ==> from_graph(graph, shard_count, 0, k, len, #[trigger] before[i]),
        forall|p: int|
            0 <= p < len && 0 <= shard_of(graph.keys()[p], shard_count) < k ==> before.contains(
                #[trigger] node_at(graph, p),
            ),
        boards_differ(before),
        forall|j: int|
            0 <= j < added.len() ==> from_graph(graph, shard_count, k, k + 1, len, #[trigger] added[j]),
        forall|p: int|
            0 <= p < len && shard_of(graph.keys()[p], shard_count) == k ==> added.contains(
                #[trigger] node_at(graph, p),
            ),
        boards_differ(added),
    ensures
        forall|i: int|
            0 <= i < (before + added).len() ==> from_graph(
                graph,
                shard_count,
                0,
                k + 1,
                len,
                #[trigger] (before + added)[i],
            ),
        forall|p: int|
            0 <= p < len && 0 <= shard_of(graph.keys()[p], shard_count) < k + 1 ==> (before
                + added).contains(#[trigger] node_at(graph, p)),
        boards_differ(before + added),
{
    graph.lemma_wf();
    let all = before + added;
    assert forall|i: int| 0 <= i < all.len() implies from_graph(
        graph,
        shard_count,
        0,
        k + 1,
        len,
        #[trigger] all[i],
    ) by {
        if i < before.len() {
            assert(all[i] == before[i]);
            assert(from_graph(graph, shard_count, 0, k, len, before[i]));
            let p = choose|p: int|
                0 <= p < len && 0 <= shard_of(graph.keys()[p], shard_count) < k && before[i]
                    == #[trigger] node_at(graph, p);
            assert(all[i] == node_at(graph, p));
        } else {
            let j = i - before.len();
            assert(all[i] == added[j]);
            assert(from_graph(graph, shard_count, k, k + 1, len, added[j]));
            let p = choose|p: int|
                0 <= p < len && k <= shard_of(graph.keys()[p], shard_count) < k + 1 && added[j]
                    == #[trigger] node_at(graph, p);
            assert(all[i] == node_at(graph, p));
        }
    }
    assert forall|p: int|
        0 <= p < len && 0 <= shard_of(graph.keys()[p], shard_count) < k + 1 implies all.contains(
        #[trigger] node_at(graph, p),
    ) by {
        if shard_of(graph.keys()[p], shard_count) < k {
            assert(before.contains(node_at(graph, p)));
            let i = choose|i: int| 0 <= i < before.len() && before[i] == node_at(graph, p);
            assert(all[i] == before[i]);
        } else {
            assert(added.contains(node_at(graph, p)));
            let j = choose|j: int| 0 <= j < added.len() && added[j] == node_at(graph, p);
            assert(all[before.len() + j] == added[j]);
        }
    }
    assert forall|i: int, j: int|
        0 <= i < all.len() && 0 <= j < all.len() && i != j implies (#[trigger] all[i]).board != (
    #[trigger] all[j]).board by {
        if i < before.len() && j < before.len() {
            assert(all[i] == before[i] && all[j] == before[j]);
        } else if i >= before.len() && j >= before.len() {
            assert(all[i] == added[i - before.len()] && all[j] == added[j - before.len()]);
        } else {
            let lo = if i < before.len() {
                i
            } else {
                j
            };
            let hi = if i < before.len() {
                j
            } else {
                i
            };
            assert(all[lo] == before[lo]);
            assert(all[hi] == added[hi - before.len()]);
            assert(from_graph(graph, shard_count, 0, k, len, before[lo]));
            assert(from_graph(graph, shard_count, k, k + 1, len, added[hi - before.len()]));
            let p = choose|p: int|
                0 <= p < len && 0 <= shard_of(graph.keys()[p], shard_count) < k && before[lo]
                    == #[trigger] node_at(graph, p);
            let q = choose|q: int|
                0 <= q < len && k <= shard_of(graph.keys()[q], shard_count) < k + 1 && added[hi
                    - before.len()] == #[trigger] node_at(graph, q);
            assert(graph.keys()[p] != graph.keys()[q]);
        }
    }
}

/// Reading the shards that were written gives the graph back: every shard
/// can be read, and what is read holds the same boards, each with the same
/// boards that it leads to.
pub proof fn lemma_pan_round_trip(
    graph: &Gigapan,
    shard_count: usize,
    shards: Seq<Vec<u8>>,
    back: &Gigapan,
)
    requires
        graph.wf(),
        shard_count > 0,
        shards.len() == shard_count,
        forall|k: int|
            0 <= k < shard_count ==> (#[trigger] shards[k])@ == graph_bytes(
                shard_nodes(graph, shard_count, k, graph.keys().len()),
            ),
        shards_readable(shards, shards.len() as int) ==> holds_nodes(
            back,
            shards_nodes(shards, shards.len()),
        ),
    ensures
        shards_readable(shards, shards.len() as int),
        forall|b: Board| #[trigger] back.has(b) <==> graph.has(b),
        forall|b: Board, s: Shape| #[trigger] successors(back, b, s) == successors(graph, b, s),
{
    broadcast use vstd::std_specs::vec::axiom_spec_len;

    graph.lemma_wf();
    let len = graph.keys().len();
    assert forall|k: int| 0 <= k < shards.len() implies graph_of((#[trigger] shards[k])@) == Ok::<
        Seq<NodeView>,
        LebError,
    >(shard_nodes(graph, shard_count, k, len)) by {
        let nodes = shard_nodes(graph, shard_count, k, len);
        lemma_shard_nodes(graph, shard_count, k, len);
        assert(storable(nodes)) by {
            assert forall|i: int| 0 <= i < nodes.len() implies (#[trigger] nodes[i]).lists.len() == 7
                && forall|x: int| 0 <= x < 7 ==> (#[trigger] nodes[i].lists[x]).len() <= u64::MAX by {
                assert(from_graph(graph, shard_count, k, k + 1, len as int, nodes[i]));
                let p = choose|p: int|
                    0 <= p < len && k <= shard_of(graph.keys()[p], shard_count) < k + 1 && nodes[i]
                        == #[trigger] node_at(graph, p);
                assert forall|x: int| 0 <= x < 7 implies (#[trigger] nodes[i].lists[x]).len()
                    <= u64::MAX by {
                    let list = graph.values()[p]@[x];
                    assert(nodes[i].lists[x] == list@);
                    assert(list@.len() == vstd::std_specs::vec::spec_vec_len(&list));
                }
            }
            lemma_keys_fit(graph);
        }
        lemma_graph_round_trip(nodes, Seq::empty());
        assert(graph_bytes(nodes) + Seq::<u8>::empty() =~= graph_bytes(nodes));
    }
    lemma_shards_nodes(graph, shard_count, shards, shards.len());
    let all = shards_nodes(shards, shards.len());
    assert forall|b: Board| #[trigger] back.has(b) <==> graph.has(b) by {
        if back.has(b) {
            let i = choose|i: int| 0 <= i < all.len() && (#[trigger] all[i]).board == b;
            assert(from_graph(graph, shard_count, 0, shards.len() as int, len as int, all[i]));
            let p = choose|p: int|
                0 <= p < len && 0 <= shard_of(graph.keys()[p], shard_count) < shards.len() && all[i]
                    == #[trigger] node_at(graph, p);
            assert(graph.keys()[p] == b);
        }
        if graph.has(b) {
            let p = graph.position_of(b);
            assert(0 <= p < len && graph.keys()[p] == b);
            assert(all.contains(node_at(graph, p)));
            let i = choose|i: int| 0 <= i < all.len() && all[i] == node_at(graph, p);
            assert(all[i].board == b);
        }
    }
    assert forall|b: Board, s: Shape| #[trigger]
        successors(back, b, s) == successors(graph, b, s) by {
        crate::shape::lemma_shape_index(s);
        if graph.has(b) {
            let p = graph.position_of(b);
            assert(0 <= p < len && graph.keys()[p] == b);
            assert(all.contains(node_at(graph, p)));
            let i = choose|i: int| 0 <= i < all.len() && all[i] == node_at(graph, p);
            assert(all[i].board == b);
            assert forall|j: int| i < j < all.len() implies (#[trigger] all[j]).board != all[i].board by {
            }
            let lists = node_view((all[i].board, back.value_of(all[i].board))).lists;
            assert(lists == all[i].lists);
            let k = s.spec_index() as int;
            assert(lists[k] == back.value_of(b)@[k]@);
            assert(all[i].lists[k] == graph.values()[p]@[k]@);
        }
    }
}

/// A graph holds no more boards than fit a count of 64 bits.
proof fn lemma_keys_fit(graph: &Gigapan)
    requires
        graph.wf(),
    ensures
        graph.keys().len() <= u64::MAX,
{
    graph.lemma_len_fits();
}

} // verus!
