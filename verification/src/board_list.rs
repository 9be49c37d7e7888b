//! The board graph as bytes: every number in unsigned LEB128, the boards
//! that a board leads to as their wrapping difference to that board.

use vstd::prelude::*;
use crate::board::Board;
use crate::boardgraph::Edges;
use crate::leb::{
    leb128, leb_rest, leb_result, lemma_read_after_write, read_unsigned, write_unsigned, LebError,
};

verus! {

/// A node of the graph as it is stored: a board, and for each of the seven
/// shapes the boards it leads to.
pub struct NodeView {
    pub board: Board,
    pub lists: Seq<Seq<Board>>,
}

/// `child - parent`, wrapping around at 64 bits.
pub open spec fn wrap_sub(child: u64, parent: u64) -> u64 {
    if child >= parent {
        (child - parent) as u64
    } else {
        (child + 0x1_0000_0000_0000_0000 - parent) as u64
    }
}

/// `parent + delta`, wrapping around at 64 bits.
pub open spec fn wrap_add(parent: u64, delta: u64) -> u64 {
    if parent + delta < 0x1_0000_0000_0000_0000 {
        (parent + delta) as u64
    } else {
        (parent + delta - 0x1_0000_0000_0000_0000) as u64
    }
}

/// The node that a pair of a board and its lists stands for.
pub open spec fn node_view(node: (Board, Edges)) -> NodeView {
    NodeView { board: node.0, lists: Seq::new(7, |k: int| node.1@[k]@) }
}

/// The nodes that a list of pairs stands for.
pub open spec fn node_views(nodes: Seq<(Board, Edges)>) -> Seq<NodeView> {
    nodes.map_values(|node: (Board, Edges)| node_view(node))
}

/// The bytes of the boards of one list, each as its difference to `parent`.
pub open spec fn children_bytes(children: Seq<Board>, parent: u64) -> Seq<u8>
    decreases children.len(),
{
    if children.len() == 0 {
        Seq::empty()
    } else {
        leb128(wrap_sub(children[0].0, parent)) + children_bytes(children.skip(1), parent)
    }
}

/// The bytes of one list: its length, then its boards.
pub open spec fn list_bytes(children: Seq<Board>, parent: u64) -> Seq<u8> {
    leb128(children.len() as u64) + children_bytes(children, parent)
}

/// The bytes of the lists of one node.
pub open spec fn lists_bytes(lists: Seq<Seq<Board>>, parent: u64) -> Seq<u8>
    decreases lists.len(),
{
    if lists.len() == 0 {
        Seq::empty()
    } else {
        list_bytes(lists[0], parent) + lists_bytes(lists.skip(1), parent)
    }
}

/// The bytes of one node: its board, then its lists.
pub open spec fn node_bytes(node: NodeView) -> Seq<u8> {
    leb128(node.board.0) + lists_bytes(node.lists, node.board.0)
}

/// The bytes of the nodes one after the other.
pub open spec fn nodes_bytes(nodes: Seq<NodeView>) -> Seq<u8>
    decreases nodes.len(),
{
    if nodes.len() == 0 {
        Seq::empty()
    } else {
        node_bytes(nodes[0]) + nodes_bytes(nodes.skip(1))
    }
}

/// The bytes of a graph: the number of its nodes, then the nodes.
pub open spec fn graph_bytes(nodes: Seq<NodeView>) -> Seq<u8> {
    leb128(nodes.len() as u64) + nodes_bytes(nodes)
}

/// Reads `remaining` boards of one list after those of `acc`.
pub open spec fn read_children(input: Seq<u8>, remaining: nat, parent: u64, acc: Seq<Board>) -> Result<
    (Seq<Board>, Seq<u8>),
    LebError,
>
    decreases remaining,
{
    if remaining == 0 {
        Ok((acc, input))
    } else {
        match leb_result(input) {
            Ok(delta) => read_children(
                leb_rest(input),
                (remaining - 1) as nat,
                parent,
                acc.push(Board(wrap_add(parent, delta))),
            ),
            Err(e) => Err(e),
        }
    }
}

/// Reads one list: its length, then its boards.
pub open spec fn read_list(input: Seq<u8>, parent: u64) -> Result<(Seq<Board>, Seq<u8>), LebError> {
    match leb_result(input) {
        Ok(len) => read_children(leb_rest(input), len as nat, parent, Seq::empty()),
        Err(e) => Err(e),
    }
}

/// Reads `remaining` lists of one node after those of `acc`.
pub open spec fn read_lists(input: Seq<u8>, remaining: nat, parent: u64, acc: Seq<Seq<Board>>) -> Result<
    (Seq<Seq<Board>>, Seq<u8>),
    LebError,
>
    decreases remaining,
{
    if remaining == 0 {
        Ok((acc, input))
    } else {
        match read_list(input, parent) {
            Ok(pair) => read_lists(pair.1, (remaining - 1) as nat, parent, acc.push(pair.0)),
            Err(e) => Err(e),
        }
    }
}

/// Reads one node: its board, then its seven lists.
pub open spec fn read_node(input: Seq<u8>) -> Result<(NodeView, Seq<u8>), LebError> {
    match leb_result(input) {
        Ok(board) => match read_lists(leb_rest(input), 7, board, Seq::empty()) {
            Ok(pair) => Ok((NodeView { board: Board(board), lists: pair.0 }, pair.1)),
            Err(e) => Err(e),
        },
        Err(e) => Err(e),
    }
}

/// Reads `remaining` nodes after those of `acc`.
pub open spec fn read_nodes(input: Seq<u8>, remaining: nat, acc: Seq<NodeView>) -> Result<
    (Seq<NodeView>, Seq<u8>),
    LebError,
>
    decreases remaining,
{
    if remaining == 0 {
        Ok((acc, input))
    } else {
        match read_node(input) {
            Ok(pair) => read_nodes(pair.1, (remaining - 1) as nat, acc.push(pair.0)),
            Err(e) => Err(e),
        }
    }
}

/// The graph that bytes stand for: the number of nodes, then that many
/// nodes; what follows them is not looked at. The first number that cannot
/// be read gives the error.
pub open spec fn graph_of(input: Seq<u8>) -> Result<Seq<NodeView>, LebError> {
    match leb_result(input) {
        Ok(len) => match read_nodes(leb_rest(input), len as nat, Seq::empty()) {
            Ok(pair) => Ok(pair.0),
            Err(e) => Err(e),
        },
        Err(e) => Err(e),
    }
}

/// The difference undoes itself.
pub proof fn lemma_wrap(child: u64, parent: u64)
    ensures
        wrap_add(parent, wrap_sub(child, parent)) == child,
{
}

/// Reading the bytes of the boards of a list gives the boards back.
pub proof fn lemma_read_children(children: Seq<Board>, parent: u64, acc: Seq<Board>, tail: Seq<u8>)
    ensures
        read_children(children_bytes(children, parent) + tail, children.len(), parent, acc) == Ok::<
            (Seq<Board>, Seq<u8>),
            LebError,
        >((acc + children, tail)),
    decreases children.len(),
{
    if children.len() == 0 {
        assert(children_bytes(children, parent) + tail =~= tail);
        assert(acc + children =~= acc);
    } else {
        let first = leb128(wrap_sub(children[0].0, parent));
        let rest = children_bytes(children.skip(1), parent);
        assert(children_bytes(children, parent) + tail =~= first + (rest + tail));
        lemma_read_after_write(wrap_sub(children[0].0, parent), rest + tail);
        lemma_wrap(children[0].0, parent);
        lemma_read_children(children.skip(1), parent, acc.push(children[0]), tail);
        assert(acc.push(children[0]) + children.skip(1) =~= acc + children);
    }
}

/// Reading the bytes of the lists of a node gives the lists back.
pub proof fn lemma_read_lists(lists: Seq<Seq<Board>>, parent: u64, acc: Seq<Seq<Board>>, tail: Seq<u8>)
    requires
        forall|k: int| 0 <= k < lists.len() ==> (#[trigger] lists[k]).len() <= u64::MAX,
    ensures
        read_lists(lists_bytes(lists, parent) + tail, lists.len(), parent, acc) == Ok::<
            (Seq<Seq<Board>>, Seq<u8>),
            LebError,
        >((acc + lists, tail)),
    decreases lists.len(),
{
    if lists.len() == 0 {
        assert(lists_bytes(lists, parent) + tail =~= tail);
        assert(acc + lists =~= acc);
    } else {
        let first = lists[0];
        let head = leb128(first.len() as u64);
        let body = children_bytes(first, parent);
        let rest = lists_bytes(lists.skip(1), parent);
        assert(lists_bytes(lists, parent) + tail =~= head + (body + (rest + tail)));
        lemma_read_after_write(first.len() as u64, body + (rest + tail));
        lemma_read_children(first, parent, Seq::empty(), rest + tail);
        assert(Seq::<Board>::empty() + first =~= first);
        assert forall|k: int| 0 <= k < lists.skip(1).len() implies (#[trigger] lists.skip(1)[k]).len()
            <= u64::MAX by {
            assert(lists.skip(1)[k] == lists[k + 1]);
        }
        lemma_read_lists(lists.skip(1), parent, acc.push(first), tail);
        assert(acc.push(first) + lists.skip(1) =~= acc + lists);
    }
}

/// Whether a graph can be stored: each node has its seven lists, and the
/// lengths fit into 64 bits.
pub open spec fn storable(nodes: Seq<NodeView>) -> bool {
    &&& nodes.len() <= u64::MAX
    &&& forall|i: int|
        0 <= i < nodes.len() ==> (#[trigger] nodes[i]).lists.len() == 7 && forall|k: int|
            0 <= k < 7 ==> (#[trigger] nodes[i].lists[k]).len() <= u64::MAX
}

/// Reading the bytes of nodes gives the nodes back.
pub proof fn lemma_read_nodes(nodes: Seq<NodeView>, acc: Seq<NodeView>, tail: Seq<u8>)
    requires
        storable(nodes),
    ensures
        read_nodes(nodes_bytes(nodes) + tail, nodes.len(), acc) == Ok::<
            (Seq<NodeView>, Seq<u8>),
            LebError,
        >((acc + nodes, tail)),
    decreases nodes.len(),
{
    if nodes.len() == 0 {
        assert(nodes_bytes(nodes) + tail =~= tail);
        assert(acc + nodes =~= acc);
    } else {
        let node = nodes[0];
        let head = leb128(node.board.0);
        let body = lists_bytes(node.lists, node.board.0);
        let rest = nodes_bytes(nodes.skip(1));
        assert(nodes_bytes(nodes) + tail =~= head + (body + (rest + tail)));
        lemma_read_after_write(node.board.0, body + (rest + tail));
        lemma_read_lists(node.lists, node.board.0, Seq::empty(), rest + tail);
        assert(Seq::<Seq<Board>>::empty() + node.lists =~= node.lists);
        assert(storable(nodes.skip(1))) by {
            assert forall|i: int| 0 <= i < nodes.skip(1).len() implies (#[trigger] nodes.skip(
                1,
            )[i]).lists.len() == 7 && forall|k: int|
                0 <= k < 7 ==> (#[trigger] nodes.skip(1)[i].lists[k]).len() <= u64::MAX by {
                assert(nodes.skip(1)[i] == nodes[i + 1]);
            }
        }
        lemma_read_nodes(nodes.skip(1), acc.push(node), tail);
        assert(acc.push(node) + nodes.skip(1) =~= acc + nodes);
    }
}

/// Reading what was written gives the graph back: the same boards with the
/// same lists, whatever bytes follow.
pub proof fn lemma_graph_round_trip(nodes: Seq<NodeView>, tail: Seq<u8>)
    requires
        storable(nodes),
    ensures
        graph_of(graph_bytes(nodes) + tail) == Ok::<Seq<NodeView>, LebError>(nodes),
{
    let body = nodes_bytes(nodes);
    assert(graph_bytes(nodes) + tail =~= leb128(nodes.len() as u64) + (body + tail));
    lemma_read_after_write(nodes.len() as u64, body + tail);
    lemma_read_nodes(nodes, Seq::empty(), tail);
    assert(Seq::<NodeView>::empty() + nodes =~= nodes);
}


/// The bytes of a longer list are those of the shorter and of the board
/// added.
pub proof fn lemma_children_bytes_push(children: Seq<Board>, parent: u64, child: Board)
    ensures
        children_bytes(children.push(child), parent) == children_bytes(children, parent) + leb128(
            wrap_sub(child.0, parent),
        ),
    decreases children.len(),
{
    let longer = children.push(child);
    if children.len() == 0 {
        assert(longer.skip(1) =~= Seq::<Board>::empty());
        assert(longer[0] == child);
        assert(children_bytes(longer.skip(1), parent) =~= Seq::<u8>::empty());
        assert(children_bytes(longer, parent) =~= leb128(wrap_sub(child.0, parent)));
        assert(children_bytes(children, parent) + leb128(wrap_sub(child.0, parent)) =~= leb128(
            wrap_sub(child.0, parent),
        ));
    } else {
        assert(longer.skip(1) =~= children.skip(1).push(child));
        lemma_children_bytes_push(children.skip(1), parent, child);
        assert(children_bytes(longer, parent) =~= children_bytes(children, parent) + leb128(
            wrap_sub(child.0, parent),
        ));
    }
}

/// The bytes of more lists are those of the lists before and of the list
/// added.
pub proof fn lemma_lists_bytes_push(lists: Seq<Seq<Board>>, parent: u64, list: Seq<Board>)
    ensures
        lists_bytes(lists.push(list), parent) == lists_bytes(lists, parent) + list_bytes(
            list,
            parent,
        ),
    decreases lists.len(),
{
    let longer = lists.push(list);
    if lists.len() == 0 {
        assert(longer.skip(1) =~= Seq::<Seq<Board>>::empty());
        assert(longer[0] == list);
        assert(lists_bytes(longer.skip(1), parent) =~= Seq::<u8>::empty());
        assert(lists_bytes(longer, parent) =~= list_bytes(list, parent));
        assert(lists_bytes(lists, parent) + list_bytes(list, parent) =~= list_bytes(list, parent));
    } else {
        assert(longer.skip(1) =~= lists.skip(1).push(list));
        lemma_lists_bytes_push(lists.skip(1), parent, list);
        assert(lists_bytes(longer, parent) =~= lists_bytes(lists, parent) + list_bytes(list, parent));
    }
}

/// The bytes of more nodes are those of the nodes before and of the node
/// added.
pub proof fn lemma_nodes_bytes_push(nodes: Seq<NodeView>, node: NodeView)
    ensures
        nodes_bytes(nodes.push(node)) == nodes_bytes(nodes) + node_bytes(node),
    decreases nodes.len(),
{
    let longer = nodes.push(node);
    if nodes.len() == 0 {
        assert(longer.skip(1) =~= Seq::<NodeView>::empty());
        assert(longer[0] == node);
        assert(nodes_bytes(longer.skip(1)) =~= Seq::<u8>::empty());
        assert(nodes_bytes(longer) =~= node_bytes(node));
        assert(nodes_bytes(nodes) + node_bytes(node) =~= node_bytes(node));
    } else {
        assert(longer.skip(1) =~= nodes.skip(1).push(node));
        lemma_nodes_bytes_push(nodes.skip(1), node);
        assert(nodes_bytes(longer) =~= nodes_bytes(nodes) + node_bytes(node));
    }
}

/// Appends one list: its length, then each board as its wrapping
/// difference to `parent`.
pub fn write_list(out: &mut Vec<u8>, children: &Vec<Board>, parent: u64)
    ensures
        final(out)@ == old(out)@ + list_bytes(children@, parent),
{
    write_unsigned(out, children.len() as u64);
    let ghost start = out@;
    let mut i: usize = 0;
    assert(out@ =~= start + children_bytes(children@.take(0), parent));
    while i < children.len()
        invariant
            i <= children.len(),
            out@ == start + children_bytes(children@.take(i as int), parent),
        decreases children.len() - i,
    {
        let child = children[i];
        write_unsigned(out, child.0.wrapping_sub(parent));
        proof {
            assert(children@.take(i + 1) =~= children@.take(i as int).push(child));
            lemma_children_bytes_push(children@.take(i as int), parent, child);
            assert(child.0.wrapping_sub(parent) == wrap_sub(child.0, parent));
            assert(out@ =~= start + children_bytes(children@.take(i + 1), parent));
        }
        i = i + 1;
    }
    assert(children@.take(children@.len() as int) =~= children@);
    assert(out@ =~= old(out)@ + list_bytes(children@, parent));
}

/// Appends one node: its board, then its seven lists.
pub fn write_node(out: &mut Vec<u8>, board: Board, edges: &Edges)
    ensures
        final(out)@ == old(out)@ + node_bytes(node_view((board, *edges))),
{
    let parent = board.0;
    write_unsigned(out, parent);
    let ghost start = out@;
    let ghost node = (board, *edges);
    let ghost lists = node_view(node).lists;
    let mut k: usize = 0;
    assert(out@ =~= start + lists_bytes(lists.take(0), parent));
    while k < 7
        invariant
            k <= 7,
            node == (board, *edges),
            lists == node_view(node).lists,
            out@ == start + lists_bytes(lists.take(k as int), parent),
        decreases 7 - k,
    {
        write_list(out, &edges[k], parent);
        proof {
            assert(lists.take(k + 1) =~= lists.take(k as int).push(lists[k as int]));
            lemma_lists_bytes_push(lists.take(k as int), parent, lists[k as int]);
            assert(out@ =~= start + lists_bytes(lists.take(k + 1), parent));
        }
        k = k + 1;
    }
    assert(lists.take(7) =~= lists);
    assert(out@ =~= old(out)@ + node_bytes(node_view(node)));
}

/// The graph as bytes: the number of nodes, then for each node its board
/// and its seven lists, each list as its length and the wrapping
/// differences of its boards to the node's board.
pub fn write_graph(nodes: &[(Board, Edges)]) -> (r: Vec<u8>)
    ensures
        r@ == graph_bytes(node_views(nodes@)),
{
    let mut out: Vec<u8> = Vec::new();
    write_unsigned(&mut out, nodes.len() as u64);
    let ghost start = out@;
    let ghost views = node_views(nodes@);
    let mut i: usize = 0;
    assert(out@ =~= start + nodes_bytes(views.take(0)));
    while i < nodes.len()
        invariant
            i <= nodes.len(),
            views == node_views(nodes@),
            out@ == start + nodes_bytes(views.take(i as int)),
        decreases nodes.len() - i,
    {
        write_node(&mut out, nodes[i].0, &nodes[i].1);
        proof {
            assert(views.take(i + 1) =~= views.take(i as int).push(views[i as int]));
            lemma_nodes_bytes_push(views.take(i as int), views[i as int]);
            assert(out@ =~= start + nodes_bytes(views.take(i + 1)));
        }
        i = i + 1;
    }
    assert(views.take(views.len() as int) =~= views);
    assert(Seq::<u8>::empty() + leb128(nodes@.len() as u64) =~= leb128(nodes@.len() as u64));
    out
}

/// Reads one list from the front of `input`, and gives it with the bytes
/// after it.
pub fn read_list_from<'a>(input: &'a [u8], parent: u64) -> (r: Result<(Vec<Board>, &'a [u8]), LebError>)
    ensures
        match r {
            Ok(pair) => read_list(input@, parent) == Ok::<(Seq<Board>, Seq<u8>), LebError>(
                (pair.0@, pair.1@),
            ),
            Err(e) => read_list(input@, parent) == Err::<(Seq<Board>, Seq<u8>), LebError>(e),
        },
{
    let (len, after) = read_unsigned(input);
    let len = match len {
        Ok(len) => len,
        Err(e) => {
            return Err(e);
        },
    };
    let mut rest = after;
    let mut boards: Vec<Board> = Vec::new();
    let mut i: u64 = 0;
    while i < len
        invariant
            i <= len,
            leb_result(input@) == Ok::<u64, LebError>(len),
            after@ == leb_rest(input@),
            read_children(rest@, (len - i) as nat, parent, boards@) == read_children(
                after@,
                len as nat,
                parent,
                Seq::empty(),
            ),
        decreases len - i,
    {
        let (delta, next) = read_unsigned(rest);
        match delta {
            Ok(delta) => {
                let child = parent.wrapping_add(delta);
                assert(child == wrap_add(parent, delta));
                boards.push(Board(child));
                rest = next;
            },
            Err(e) => {
                return Err(e);
            },
        }
        i = i + 1;
    }
    Ok((boards, rest))
}

/// Reads one node from the front of `input`, and gives it with the bytes
/// after it.
pub fn read_node_from<'a>(input: &'a [u8]) -> (r: Result<((Board, Edges), &'a [u8]), LebError>)
    ensures
        match r {
            Ok(pair) => read_node(input@) == Ok::<(NodeView, Seq<u8>), LebError>(
                (node_view(pair.0), pair.1@),
            ),
            Err(e) => read_node(input@) == Err::<(NodeView, Seq<u8>), LebError>(e),
        },
{
    reveal_with_fuel(read_lists, 8);
    let (board, rest) = read_unsigned(input);
    let current = match board {
        Ok(board) => board,
        Err(e) => {
            return Err(e);
        },
    };
    let (l0, rest) = match read_list_from(rest, current) {
        Ok(pair) => pair,
        Err(e) => {
            return Err(e);
        },
    };
    let (l1, rest) = match read_list_from(rest, current) {
        Ok(pair) => pair,
        Err(e) => {
            return Err(e);
        },
    };
    let (l2, rest) = match read_list_from(rest, current) {
        Ok(pair) => pair,
        Err(e) => {
            return Err(e);
        },
    };
    let (l3, rest) = match read_list_from(rest, current) {
        Ok(pair) => pair,
        Err(e) => {
            return Err(e);
        },
    };
    let (l4, rest) = match read_list_from(rest, current) {
        Ok(pair) => pair,
        Err(e) => {
            return Err(e);
        },
    };
    let (l5, rest) = match read_list_from(rest, current) {
        Ok(pair) => pair,
        Err(e) => {
            return Err(e);
        },
    };
    let (l6, rest) = match read_list_from(rest, current) {
        Ok(pair) => pair,
        Err(e) => {
            return Err(e);
        },
    };
    let ghost lists = seq![l0@, l1@, l2@, l3@, l4@, l5@, l6@];
    let pieces: Edges = [l0, l1, l2, l3, l4, l5, l6];
    let node = (Board(current), pieces);
    proof {
        assert(node_view(node).lists =~= lists);
        assert(Seq::<Seq<Board>>::empty().push(lists[0]).push(lists[1]).push(lists[2]).push(
            lists[3],
        ).push(lists[4]).push(lists[5]).push(lists[6]) =~= lists);
    }
    Ok((node, rest))
}

/// The graph that bytes stand for; the first number that cannot be read
/// fails the whole read. Bytes after the last node are not looked at.
pub fn read_graph(bytes: &[u8]) -> (r: Result<Vec<(Board, Edges)>, LebError>)
    ensures
        match r {
            Ok(nodes) => graph_of(bytes@) == Ok::<Seq<NodeView>, LebError>(node_views(nodes@)),
            Err(e) => graph_of(bytes@) == Err::<Seq<NodeView>, LebError>(e),
        },
{
    let (len, after) = read_unsigned(bytes);
    let len = match len {
        Ok(len) => len,
        Err(e) => {
            return Err(e);
        },
    };
    let mut rest = after;
    let mut gigavec: Vec<(Board, Edges)> = Vec::new();
    let mut i: u64 = 0;
    assert(node_views(gigavec@) =~= Seq::<NodeView>::empty());
    while i < len
        invariant
            i <= len,
            leb_result(bytes@) == Ok::<u64, LebError>(len),
            after@ == leb_rest(bytes@),
            read_nodes(rest@, (len - i) as nat, node_views(gigavec@)) == read_nodes(
                after@,
                len as nat,
                Seq::empty(),
            ),
        decreases len - i,
    {
        match read_node_from(rest) {
            Ok((node, next)) => {
                let ghost before = node_views(gigavec@);
                gigavec.push(node);
                assert(node_views(gigavec@) =~= before.push(node_view(node)));
                rest = next;
            },
            Err(e) => {
                return Err(e);
            },
        }
        i = i + 1;
    }
    Ok(gigavec)
}

/// The bytes of the boards of a sorted list, each as its difference to the
/// board before it, the first to `previous`.
pub open spec fn steps_bytes(boards: Seq<Board>, previous: u64) -> Seq<u8>
    decreases boards.len(),
{
    if boards.len() == 0 {
        Seq::empty()
    } else {
        leb128((boards[0].0 - previous) as u64) + steps_bytes(boards.skip(1), boards[0].0)
    }
}

/// The bytes of a sorted list of boards: its length, then its boards.
pub open spec fn boards_bytes(boards: Seq<Board>) -> Seq<u8> {
    leb128(boards.len() as u64) + steps_bytes(boards, 0)
}

/// Whether each board is no smaller than the one before it, the first no
/// smaller than `previous`.
pub open spec fn ascending(boards: Seq<Board>, previous: u64) -> bool
    decreases boards.len(),
{
    boards.len() == 0 || (previous <= boards[0].0 && ascending(boards.skip(1), boards[0].0))
}

/// Reads `remaining` boards of a sorted list after those of `acc`, the last
/// of which is `current`. A sum that does not fit into 64 bits is an
/// overflow.
pub open spec fn read_steps(input: Seq<u8>, remaining: nat, current: u64, acc: Seq<Board>) -> Result<
    Seq<Board>,
    LebError,
>
    decreases remaining,
{
    if remaining == 0 {
        Ok(acc)
    } else {
        match leb_result(input) {
            Ok(diff) => if current + diff > u64::MAX {
                Err(LebError::Overflow)
            } else {
                read_steps(
                    leb_rest(input),
                    (remaining - 1) as nat,
                    (current + diff) as u64,
                    acc.push(Board((current + diff) as u64)),
                )
            },
            Err(e) => Err(e),
        }
    }
}

/// The sorted list of boards that bytes stand for.
pub open spec fn boards_of(input: Seq<u8>) -> Result<Seq<Board>, LebError> {
    match leb_result(input) {
        Ok(len) => read_steps(leb_rest(input), len as nat, 0, Seq::empty()),
        Err(e) => Err(e),
    }
}

/// The bytes of a longer sorted list are those of the shorter and of the
/// step to the board added.
pub proof fn lemma_steps_bytes_push(boards: Seq<Board>, previous: u64, board: Board)
    ensures
        steps_bytes(boards.push(board), previous) == steps_bytes(boards, previous) + leb128(
            (board.0 - if boards.len() == 0 {
                previous
            } else {
                boards.last().0
            }) as u64,
        ),
    decreases boards.len(),
{
    let longer = boards.push(board);
    let step = leb128(
        (board.0 - if boards.len() == 0 {
            previous
        } else {
            boards.last().0
        }) as u64,
    );
    if boards.len() == 0 {
        assert(longer.skip(1) =~= Seq::<Board>::empty());
        assert(longer[0] == board);
        assert(steps_bytes(longer.skip(1), board.0) =~= Seq::<u8>::empty());
        assert(steps_bytes(longer, previous) =~= step);
        assert(steps_bytes(boards, previous) + step =~= step);
    } else {
        assert(longer.skip(1) =~= boards.skip(1).push(board));
        lemma_steps_bytes_push(boards.skip(1), boards[0].0, board);
        if boards.len() > 1 {
            assert(boards.skip(1).last() == boards.last());
        }
        assert(steps_bytes(longer, previous) =~= steps_bytes(boards, previous) + step);
    }
}

/// A sorted list of boards as bytes: its length, then each board as its
/// difference to the board before it.
pub fn write(boards: &[Board]) -> (r: Vec<u8>)
    requires
        ascending(boards@, 0),
    ensures
        r@ == boards_bytes(boards@),
{
    let mut out: Vec<u8> = Vec::new();
    write_unsigned(&mut out, boards.len() as u64);
    let ghost start = out@;
    let mut current: u64 = 0;
    let mut i: usize = 0;
    assert(out@ =~= start + steps_bytes(boards@.take(0), 0));
    assert(boards@.skip(0) =~= boards@);
    while i < boards.len()
        invariant
            i <= boards.len(),
            out@ == start + steps_bytes(boards@.take(i as int), 0),
            current == (if i == 0 {
                0
            } else {
                boards@[i - 1].0
            }),
            ascending(boards@.skip(i as int), current),
        decreases boards.len() - i,
    {
        let board = boards[i];
        proof {
            assert(boards@.skip(i as int)[0] == board);
            assert(boards@.skip(i as int).skip(1) =~= boards@.skip(i + 1));
        }
        let diff = board.0 - current;
        current = board.0;
        write_unsigned(&mut out, diff);
        proof {
            let shorter = boards@.take(i as int);
            assert(boards@.take(i + 1) =~= shorter.push(board));
            lemma_steps_bytes_push(shorter, 0, board);
            if i > 0 {
                assert(shorter.last() == boards@[i - 1]);
            }
            assert(out@ =~= start + steps_bytes(boards@.take(i + 1), 0));
        }
        i = i + 1;
    }
    assert(boards@.take(boards@.len() as int) =~= boards@);
    assert(Seq::<u8>::empty() + leb128(boards@.len() as u64) =~= leb128(boards@.len() as u64));
    out
}

/// The sorted list of boards that bytes stand for; the first number that
/// cannot be read, or a board that does not fit into 64 bits, fails the
/// read.
pub fn read(bytes: &[u8]) -> (r: Result<Vec<Board>, LebError>)
    ensures
        match r {
            Ok(boards) => boards_of(bytes@) == Ok::<Seq<Board>, LebError>(boards@),
            Err(e) => boards_of(bytes@) == Err::<Seq<Board>, LebError>(e),
        },
{
    let (len, after) = read_unsigned(bytes);
    let len = match len {
        Ok(len) => len,
        Err(e) => {
            return Err(e);
        },
    };
    let mut rest = after;
    let mut boards: Vec<Board> = Vec::new();
    let mut current: u64 = 0;
    let mut i: u64 = 0;
    while i < len
        invariant
            i <= len,
            leb_result(bytes@) == Ok::<u64, LebError>(len),
            after@ == leb_rest(bytes@),
            read_steps(rest@, (len - i) as nat, current, boards@) == read_steps(
                after@,
                len as nat,
                0,
                Seq::empty(),
            ),
        decreases len - i,
    {
        let (diff, next) = read_unsigned(rest);
        match diff {
            Ok(diff) => match current.checked_add(diff) {
                Some(sum) => {
                    current = sum;
                    boards.push(Board(current));
                    rest = next;
                },
                None => {
                    return Err(LebError::Overflow);
                },
            },
            Err(e) => {
                return Err(e);
            },
        }
        i = i + 1;
    }
    Ok(boards)
}

/// Reading the bytes of the steps of a sorted list gives the boards back.
pub proof fn lemma_read_steps(boards: Seq<Board>, previous: u64, acc: Seq<Board>, tail: Seq<u8>)
    requires
        ascending(boards, previous),
    ensures
        read_steps(steps_bytes(boards, previous) + tail, boards.len(), previous, acc) == Ok::<
            Seq<Board>,
            LebError,
        >(acc + boards),
    decreases boards.len(),
{
    if boards.len() == 0 {
        assert(acc + boards =~= acc);
    } else {
        let diff = (boards[0].0 - previous) as u64;
        let rest = steps_bytes(boards.skip(1), boards[0].0);
        assert(steps_bytes(boards, previous) + tail =~= leb128(diff) + (rest + tail));
        lemma_read_after_write(diff, rest + tail);
        lemma_read_steps(boards.skip(1), boards[0].0, acc.push(boards[0]), tail);
        assert(acc.push(boards[0]) + boards.skip(1) =~= acc + boards);
    }
}

/// Reading what was written gives the sorted list back.
pub proof fn lemma_boards_round_trip(boards: Seq<Board>, tail: Seq<u8>)
    requires
        ascending(boards, 0),
        boards.len() <= u64::MAX,
    ensures
        boards_of(boards_bytes(boards) + tail) == Ok::<Seq<Board>, LebError>(boards),
{
    let body = steps_bytes(boards, 0);
    assert(boards_bytes(boards) + tail =~= leb128(boards.len() as u64) + (body + tail));
    lemma_read_after_write(boards.len() as u64, body + tail);
    lemma_read_steps(boards, 0, Seq::empty(), tail);
    assert(Seq::<Board>::empty() + boards =~= boards);
}

} // verus!
