//! Building the board graph: eleven stages forward from the empty board,
//! one for each number of pieces, and one sweep back from the full board.

use vstd::prelude::*;
use crate::board::{ones, Board, FULL_MASK};
use crate::board_map::BoardMap;
use crate::board_set::BoardSet;
use crate::boardgraph::{no_edges, successors, Gigapan};
use crate::shape::{lemma_shape_index, Shape};

verus! {

/// One stage while the graph is built: for each board with so many pieces,
/// the boards it is reached from, each with the shape that was placed.
pub type PredStage = BoardMap<Vec<(Board, Shape)>>;

/// Why the graph could not be built.
#[derive(Clone, Copy, Debug, PartialEq, Eq)]
pub enum BuildError {
    /// A placement does not add four cells inside the field.
    BadPlacement,
    /// The last stage is not the full board alone.
    NotCleared,
}

/// The boards that `board` is reached from in `stage`, each with the shape
/// that was placed; none for a board that the stage does not hold.
pub open spec fn preds_of(stage: &PredStage, board: Board) -> Seq<(Board, Shape)> {
    if stage.has(board) {
        stage.value_of(board)@
    } else {
        Seq::empty()
    }
}

/// Whether a placement is sound: it adds four cells, and stays inside the
/// forty cells of the field.
pub open spec fn valid_placement(board: Board, new_board: Board) -> bool {
    ones(new_board.0) == ones(board.0) + 4 && new_board.0 <= FULL_MASK
}

/// Whether every board of the stage has four cells more than each board it
/// is reached from, and lies inside the field.
pub open spec fn adds_four(stage: &PredStage) -> bool {
    forall|b: Board, pred: (Board, Shape)| #[trigger]
        preds_of(stage, b).contains(pred) ==> valid_placement(pred.0, b)
}

/// Whether placing a piece on a board gives a sound board; see
/// [`valid_placement`].
pub fn is_valid_placement(board: Board, new_board: Board) -> (r: bool)
    ensures
        r == valid_placement(board, new_board),
{
    new_board.count() == board.count() + 4 && new_board.0 <= FULL_MASK
}

/// Whether `pred` occurs in `preds`.
pub fn contains_pred(preds: &Vec<(Board, Shape)>, pred: (Board, Shape)) -> (r: bool)
    ensures
        r == preds@.contains(pred),
{
    let mut i: usize = 0;
    while i < preds.len()
        invariant
            i <= preds.len(),
            forall|j: int| 0 <= j < i ==> preds@[j] != pred,
        decreases preds.len() - i,
    {
        if preds[i].0 == pred.0 && preds[i].1 == pred.1 {
            return true;
        }
        i = i + 1;
    }
    false
}

/// Records in `stage` that `new_board` is reached from `board` by `shape`,
/// unless that is recorded already.
pub fn record_pred(stage: &mut PredStage, new_board: Board, board: Board, shape: Shape)
    requires
        old(stage).wf(),
    ensures
        final(stage).wf(),
        forall|b: Board| #[trigger]
            final(stage).has(b) <==> old(stage).has(b) || b == new_board,
        forall|b: Board, pred: (Board, Shape)| #[trigger]
            preds_of(final(stage), b).contains(pred) <==> preds_of(old(stage), b).contains(pred) || (
            b == new_board && pred == (board, shape)),
{
    proof {
        stage.lemma_wf();
    }
    let ghost before = *stage;
    match stage.position(new_board) {
        Some(i) => {
            let preds = stage.value_at_mut(i);
            let ghost list = preds@;
            if !contains_pred(preds, (board, shape)) {
                preds.push((board, shape));
            }
            proof {
                stage.lemma_wf();
                let after = stage.value_of(new_board)@;
                assert(stage.position_of(new_board) == i);
                assert forall|pred: (Board, Shape)|
                    after.contains(pred) <==> list.contains(pred) || pred == (board, shape) by {
                    if after != list {
                        assert(after == list.push((board, shape)));
                        assert(after[list.len() as int] == (board, shape));
                        if list.contains(pred) {
                            let j = choose|j: int| 0 <= j < list.len() && list[j] == pred;
                            assert(after[j] == pred);
                        }
                        if after.contains(pred) && pred != (board, shape) {
                            let j = choose|j: int| 0 <= j < after.len() && after[j] == pred;
                            assert(list[j] == pred);
                        }
                    }
                }
                assert forall|b: Board, pred: (Board, Shape)| #[trigger]
                    preds_of(stage, b).contains(pred) <==> preds_of(&before, b).contains(pred) || (b
                        == new_board && pred == (board, shape)) by {
                    if b != new_board && stage.has(b) {
                        let p = stage.position_of(b);
                        assert(0 <= p < stage.keys().len() && stage.keys()[p] == b);
                        assert(p != i);
                    }
                }
            }
        },
        None => {
            let mut preds: Vec<(Board, Shape)> = Vec::new();
            preds.push((board, shape));
            let ghost old_keys = stage.keys();
            stage.push(new_board, preds);
            proof {
                stage.lemma_wf();
                assert(stage.keys()[old_keys.len() as int] == new_board);
                assert(stage.position_of(new_board) == old_keys.len());
                assert forall|b: Board| #[trigger] stage.has(b) <==> before.has(b) || b == new_board by {
                    if old_keys.contains(b) {
                        let p = choose|p: int| 0 <= p < old_keys.len() && old_keys[p] == b;
                        assert(stage.keys()[p] == b);
                    }
                    if stage.keys().contains(b) && b != new_board {
                        let p = choose|p: int| 0 <= p < stage.keys().len() && stage.keys()[p] == b;
                        assert(old_keys[p] == b);
                    }
                }
                assert forall|b: Board, pred: (Board, Shape)| #[trigger]
                    preds_of(stage, b).contains(pred) <==> preds_of(&before, b).contains(pred) || (b
                        == new_board && pred == (board, shape)) by {
                    if b == new_board {
                        assert(stage.value_of(b)@ =~= seq![(board, shape)]);
                        assert(seq![(board, shape)][0] == (board, shape));
                    } else if stage.has(b) {
                        let p = stage.position_of(b);
                        assert(0 <= p < stage.keys().len() && stage.keys()[p] == b);
                        assert(old_keys[p] == b);
                        assert(before.position_of(b) == p);
                    }
                }
            }
        },
    }
}

/// Whether one of the first `upto` placements is a live one that is not
/// sound.
pub open spec fn has_bad_placement(board: Board, placements: Seq<(Board, bool)>, upto: int) -> bool {
    exists|k: int| 0 <= k < upto && (#[trigger] placements[k]).1 && !valid_placement(
        board,
        placements[k].0,
    )
}

/// Records what placing `shape` on `board` leads to. Each placement is a
/// board and whether it is alive: a dead one is left out. Nothing is
/// recorded where a live placement is not sound.
pub fn record_placements(
    stage: &mut PredStage,
    board: Board,
    shape: Shape,
    placements: &[(Board, bool)],
) -> (r: Result<(), BuildError>)
    requires
        old(stage).wf(),
    ensures
        final(stage).wf(),
        r is Err <==> has_bad_placement(board, placements@, placements@.len() as int),
        r matches Err(e) ==> e == BuildError::BadPlacement && *final(stage) == *old(stage),
        r is Ok ==> forall|b: Board| #[trigger]
            final(stage).has(b) <==> old(stage).has(b) || placements@.contains((b, true)),
        r is Ok ==> forall|b: Board, pred: (Board, Shape)| #[trigger]
            preds_of(final(stage), b).contains(pred) <==> preds_of(old(stage), b).contains(pred) || (
            pred == (board, shape) && placements@.contains((b, true))),
        r is Ok && adds_four(old(stage)) ==> adds_four(final(stage)),
{
    let mut k: usize = 0;
    while k < placements.len()
        invariant
            k <= placements.len(),
            stage.wf(),
            *stage == *old(stage),
            !has_bad_placement(board, placements@, k as int),
        decreases placements.len() - k,
    {
        if placements[k].1 && !is_valid_placement(board, placements[k].0) {
            return Err(BuildError::BadPlacement);
        }
        k = k + 1;
    }
    let ghost before = *stage;
    let mut k: usize = 0;
    while k < placements.len()
        invariant
            k <= placements.len(),
            stage.wf(),
            !has_bad_placement(board, placements@, placements@.len() as int),
            forall|b: Board| #[trigger]
                stage.has(b) <==> before.has(b) || placements@.take(k as int).contains((b, true)),
            forall|b: Board, pred: (Board, Shape)| #[trigger]
                preds_of(stage, b).contains(pred) <==> preds_of(&before, b).contains(pred) || (pred
                    == (board, shape) && placements@.take(k as int).contains((b, true))),
        decreases placements.len() - k,
    {
        let ghost shorter = placements@.take(k as int);
        let ghost longer = placements@.take(k + 1);
        let ghost mid = *stage;
        proof {
            assert(longer =~= shorter.push(placements@[k as int]));
        }
        if placements[k].1 {
            record_pred(stage, placements[k].0, board, shape);
        }
        proof {
            assert forall|b: Board| longer.contains((b, true)) <==> shorter.contains((b, true)) || (
            placements@[k as int] == (b, true)) by {
                if shorter.contains((b, true)) {
                    let j = choose|j: int| 0 <= j < shorter.len() && shorter[j] == (b, true);
                    assert(longer[j] == (b, true));
                }
                if longer.contains((b, true)) {
                    let j = choose|j: int| 0 <= j < longer.len() && longer[j] == (b, true);
                    if j < k {
                        assert(shorter[j] == (b, true));
                    }
                }
                assert(longer[k as int] == placements@[k as int]);
            }
            assert forall|b: Board| #[trigger]
                stage.has(b) <==> before.has(b) || longer.contains((b, true)) by {
                assert(mid.has(b) <==> before.has(b) || shorter.contains((b, true)));
            }
            assert forall|b: Board, pred: (Board, Shape)| #[trigger]
                preds_of(stage, b).contains(pred) <==> preds_of(&before, b).contains(pred) || (pred
                    == (board, shape) && longer.contains((b, true))) by {
                assert(preds_of(&mid, b).contains(pred) <==> preds_of(&before, b).contains(pred)
                    || (pred == (board, shape) && shorter.contains((b, true))));
            }
        }
        k = k + 1;
    }
    proof {
        assert(placements@.take(placements@.len() as int) =~= placements@);
        if adds_four(&before) {
            assert forall|b: Board, pred: (Board, Shape)| #[trigger]
                preds_of(stage, b).contains(pred) implies valid_placement(pred.0, b) by {
                if !preds_of(&before, b).contains(pred) {
                    let j = choose|j: int|
                        0 <= j < placements@.len() && placements@[j] == (b, true);
                    assert(placements@[j].1);
                }
            }
        }
    }
    Ok(())
}


/// Whether the graph holds an edge that starts at `board`.
pub open spec fn has_edge(graph: &Gigapan, board: Board) -> bool {
    exists|k: int| 0 <= k < 7 && (#[trigger] successors(graph, board, Shape::at(k))).len() > 0
}

/// Whether every board that the graph holds has an edge.
pub open spec fn all_have_edges(graph: &Gigapan) -> bool {
    forall|b: Board| #[trigger] graph.has(b) ==> has_edge(graph, b)
}

/// Adds the edge from `parent` to `child` by `shape` at the end of its
/// list.
pub fn add_edge(graph: &mut Gigapan, parent: Board, shape: Shape, child: Board)
    requires
        old(graph).wf(),
    ensures
        final(graph).wf(),
        forall|b: Board| #[trigger] final(graph).has(b) <==> old(graph).has(b) || b == parent,
        forall|b: Board, s: Shape| #[trigger]
            successors(final(graph), b, s) == (if b == parent && s == shape {
                successors(old(graph), b, s).push(child)
            } else {
                successors(old(graph), b, s)
            }),
        all_have_edges(old(graph)) ==> all_have_edges(final(graph)),
{
    proof {
        graph.lemma_wf();
        lemma_shape_index(shape);
    }
    let ghost before = *graph;
    let idx = shape.index();
    match graph.position(parent) {
        Some(i) => {
            let edges = graph.value_at_mut(i);
            let ghost lists = edges@;
            edges[idx].push(child);
            proof {
                graph.lemma_wf();
                assert(graph.position_of(parent) == i);
                assert forall|b: Board, s: Shape| #[trigger]
                    successors(graph, b, s) == (if b == parent && s == shape {
                        successors(&before, b, s).push(child)
                    } else {
                        successors(&before, b, s)
                    }) by {
                    lemma_shape_index(s);
                    if b != parent && graph.has(b) {
                        let p = graph.position_of(b);
                        assert(0 <= p < graph.keys().len() && graph.keys()[p] == b);
                        assert(p != i);
                    }
                }
            }
        },
        None => {
            let mut edges = no_edges();
            edges[idx].push(child);
            let ghost old_keys = graph.keys();
            graph.push(parent, edges);
            proof {
                graph.lemma_wf();
                assert(graph.keys()[old_keys.len() as int] == parent);
                assert(graph.position_of(parent) == old_keys.len());
                assert forall|b: Board| #[trigger] graph.has(b) <==> before.has(b) || b == parent by {
                    if old_keys.contains(b) {
                        let p = choose|p: int| 0 <= p < old_keys.len() && old_keys[p] == b;
                        assert(graph.keys()[p] == b);
                    }
                    if graph.keys().contains(b) && b != parent {
                        let p = choose|p: int| 0 <= p < graph.keys().len() && graph.keys()[p] == b;
                        assert(old_keys[p] == b);
                    }
                }
                assert forall|b: Board, s: Shape| #[trigger]
                    successors(graph, b, s) == (if b == parent && s == shape {
                        successors(&before, b, s).push(child)
                    } else {
                        successors(&before, b, s)
                    }) by {
                    lemma_shape_index(s);
                    if b == parent {
                        if s == shape {
                            assert(successors(graph, b, s) =~= Seq::<Board>::empty().push(child));
                        } else {
                            assert(successors(graph, b, s) =~= Seq::<Board>::empty());
                        }
                    } else if graph.has(b) {
                        let p = graph.position_of(b);
                        assert(0 <= p < graph.keys().len() && graph.keys()[p] == b);
                        assert(old_keys[p] == b);
                        assert(before.position_of(b) == p);
                    }
                }
            }
        },
    }
    proof {
        if all_have_edges(&before) {
            assert forall|b: Board| #[trigger] graph.has(b) implies has_edge(graph, b) by {
                if b == parent {
                    assert(successors(graph, parent, shape).len() > 0);
                    assert(Shape::at(shape.spec_index() as int) == shape);
                    assert(successors(graph, b, Shape::at(shape.spec_index() as int)).len() > 0);
                } else {
                    assert(graph.has(b) <==> before.has(b) || b == parent);
                    assert(before.has(b));
                    assert(has_edge(&before, b));
                    let k = choose|k: int|
                        0 <= k < 7 && (#[trigger] successors(&before, b, Shape::at(k))).len() > 0;
                    assert(successors(graph, b, Shape::at(k)).len() > 0);
                }
            }
        }
    }
}

/// Whether the stage holds the full board and no other.
pub open spec fn full_alone(stage: &PredStage) -> bool {
    stage.keys() == seq![Board(FULL_MASK)]
}

/// The boards with `i` pieces from which the full board is reached: the
/// full board itself for ten pieces, where the last stage holds it alone;
/// for fewer pieces the boards that a board of the next stage is reached
/// from.
pub open spec fn alive(stages: Seq<PredStage>, i: int) -> Set<Board>
    decreases 10 - i,
{
    if i >= 10 {
        if full_alone(&stages[10]) {
            set![Board(FULL_MASK)]
        } else {
            Set::empty()
        }
    } else {
        Set::new(
            |p: Board|
                exists|b: Board, s: Shape|
                    alive(stages, i + 1).contains(b) && #[trigger] preds_of(&stages[i + 1], b).contains(
                        (p, s),
                    ),
        )
    }
}

/// Whether the sweep back, from the last stage down to stage `from`, finds
/// the edge from `p` to `b` by `s`: `b` is a board of some stage from which
/// the full board is reached, and that stage holds that `b` is reached
/// from `p` by `s`.
pub open spec fn swept(stages: Seq<PredStage>, from: int, p: Board, s: Shape, b: Board) -> bool
    decreases 11 - from,
{
    if from > 10 || from < 0 {
        false
    } else {
        (alive(stages, from).contains(b) && preds_of(&stages[from], b).contains((p, s))) || swept(
            stages,
            from + 1,
            p,
            s,
            b,
        )
    }
}

/// Adds to the graph, for each board that `board` is reached from, the
/// edge from there to `board`; and adds those boards to the work list,
/// each unless it was seen.
pub fn sweep_board(
    graph: &mut Gigapan,
    next_work: &mut Vec<Board>,
    seen: &mut BoardSet,
    preds: &Vec<(Board, Shape)>,
    board: Board,
)
    requires
        old(graph).wf(),
        old(seen)@ == old(next_work)@.to_set(),
    ensures
        final(graph).wf(),
        final(seen)@ == final(next_work)@.to_set(),
        forall|p: Board, s: Shape, b: Board|
            (#[trigger] successors(final(graph), p, s).contains(b)) <==> successors(
                old(graph),
                p,
                s,
            ).contains(b) || (b == board && preds@.contains((p, s))),
        forall|p: Board|
            (#[trigger] final(next_work)@.contains(p)) <==> old(next_work)@.contains(p) || exists|
                y: int,
            |
                0 <= y < preds@.len() && (#[trigger] preds@[y]).0 == p,
        all_have_edges(old(graph)) ==> all_have_edges(final(graph)),
{
    let mut k: usize = 0;
    while k < preds.len()
        invariant
            k <= preds.len(),
            graph.wf(),
            seen@ == next_work@.to_set(),
            forall|p: Board, s: Shape, b: Board|
                (#[trigger] successors(graph, p, s).contains(b)) <==> successors(
                    old(graph),
                    p,
                    s,
                ).contains(b) || (b == board && preds@.take(k as int).contains((p, s))),
            forall|p: Board|
                (#[trigger] next_work@.contains(p)) <==> old(next_work)@.contains(p) || exists|
                    y: int,
                |
                    0 <= y < k && (#[trigger] preds@[y]).0 == p,
            all_have_edges(old(graph)) ==> all_have_edges(graph),
        decreases preds.len() - k,
    {
        let parent = preds[k].0;
        let shape = preds[k].1;
        let ghost mid = *graph;
        let ghost work_mid = next_work@;
        let ghost shorter = preds@.take(k as int);
        let ghost longer = preds@.take(k + 1);
        add_edge(graph, parent, shape, board);
        if seen.insert(parent) {
            next_work.push(parent);
        }
        proof {
            assert(longer =~= shorter.push(preds@[k as int]));
            assert(longer[k as int] == (parent, shape));
            assert forall|p: Board, s: Shape, b: Board|
                (#[trigger] successors(graph, p, s).contains(b)) <==> successors(
                    old(graph),
                    p,
                    s,
                ).contains(b) || (b == board && longer.contains((p, s))) by {
                let was = successors(&mid, p, s);
                let now = successors(graph, p, s);
                assert(was.contains(b) <==> successors(old(graph), p, s).contains(b) || (b == board
                    && shorter.contains((p, s))));
                if shorter.contains((p, s)) {
                    let j = choose|j: int| 0 <= j < shorter.len() && shorter[j] == (p, s);
                    assert(longer[j] == (p, s));
                }
                if longer.contains((p, s)) && (p, s) != (parent, shape) {
                    let j = choose|j: int| 0 <= j < longer.len() && longer[j] == (p, s);
                    assert(shorter[j] == (p, s));
                }
                if p == parent && s == shape {
                    assert(now == was.push(board));
                    assert(now[was.len() as int] == board);
                    if was.contains(b) {
                        let j = choose|j: int| 0 <= j < was.len() && was[j] == b;
                        assert(now[j] == b);
                    }
                    if now.contains(b) && b != board {
                        let j = choose|j: int| 0 <= j < now.len() && now[j] == b;
                        assert(was[j] == b);
                    }
                }
            }
            assert forall|p: Board|
                (#[trigger] next_work@.contains(p)) <==> old(next_work)@.contains(p) || exists|
                    y: int,
                |
                    0 <= y < k + 1 && (#[trigger] preds@[y]).0 == p by {
                assert(work_mid.contains(p) <==> old(next_work)@.contains(p) || exists|y: int|
                    0 <= y < k && (#[trigger] preds@[y]).0 == p);
                if exists|y: int| 0 <= y < k && (#[trigger] preds@[y]).0 == p {
                    let y = choose|y: int| 0 <= y < k && (#[trigger] preds@[y]).0 == p;
                    assert(0 <= y < k + 1 && preds@[y].0 == p);
                }
                if next_work@ != work_mid {
                    assert(next_work@ == work_mid.push(parent));
                    assert(next_work@[work_mid.len() as int] == parent);
                    if work_mid.contains(p) {
                        let j = choose|j: int| 0 <= j < work_mid.len() && work_mid[j] == p;
                        assert(next_work@[j] == p);
                    }
                    if next_work@.contains(p) && p != parent {
                        let j = choose|j: int| 0 <= j < next_work@.len() && next_work@[j] == p;
                        assert(work_mid[j] == p);
                    }
                } else {
                    assert(work_mid.to_set().contains(parent));
                }
                if p == parent {
                    assert(preds@[k as int].0 == p);
                }
                if exists|y: int| 0 <= y < k + 1 && (#[trigger] preds@[y]).0 == p {
                    let y = choose|y: int| 0 <= y < k + 1 && (#[trigger] preds@[y]).0 == p;
                    if y < k {
                    } else {
                        assert(p == parent);
                    }
                }
            }
            assert(seen@ =~= next_work@.to_set());
        }
        k = k + 1;
    }
    assert(preds@.take(preds@.len() as int) =~= preds@);
}


/// One stage of the sweep back: for each board of `work`, the edges to it
/// are added to the graph. Gives the boards that those edges start at,
/// each once, in the order in which they are met.
pub fn sweep_stage(graph: &mut Gigapan, stage: &PredStage, work: &Vec<Board>) -> (next_work: Vec<
    Board,
>)
    requires
        old(graph).wf(),
        stage.wf(),
    ensures
        final(graph).wf(),
        forall|p: Board, s: Shape, b: Board|
            (#[trigger] successors(final(graph), p, s).contains(b)) <==> successors(
                old(graph),
                p,
                s,
            ).contains(b) || (work@.contains(b) && preds_of(stage, b).contains((p, s))),
        forall|p: Board|
            (#[trigger] next_work@.contains(p)) <==> exists|b: Board, s: Shape|
                work@.contains(b) && #[trigger] preds_of(stage, b).contains((p, s)),
        all_have_edges(old(graph)) ==> all_have_edges(final(graph)),
{
    let mut next_work: Vec<Board> = Vec::new();
    let mut seen = BoardSet::new();
    let mut w: usize = 0;
    assert(seen@ =~= next_work@.to_set());
    while w < work.len()
        invariant
            w <= work.len(),
            graph.wf(),
            stage.wf(),
            seen@ == next_work@.to_set(),
            forall|p: Board, s: Shape, b: Board|
                (#[trigger] successors(graph, p, s).contains(b)) <==> successors(
                    old(graph),
                    p,
                    s,
                ).contains(b) || (work@.take(w as int).contains(b) && preds_of(stage, b).contains(
                    (p, s),
                )),
            forall|p: Board|
                (#[trigger] next_work@.contains(p)) <==> exists|b: Board, s: Shape|
                    work@.take(w as int).contains(b) && #[trigger] preds_of(stage, b).contains(
                        (p, s),
                    ),
            all_have_edges(old(graph)) ==> all_have_edges(graph),
        decreases work.len() - w,
    {
        let board = work[w];
        let ghost mid = *graph;
        let ghost work_mid = next_work@;
        let ghost shorter = work@.take(w as int);
        let ghost longer = work@.take(w + 1);
        let ghost preds = preds_of(stage, board);
        match stage.get(board) {
            Some(list) => {
                sweep_board(graph, &mut next_work, &mut seen, list, board);
            },
            None => {},
        }
        proof {
            assert(longer =~= shorter.push(board));
            assert(longer[w as int] == board);
            assert forall|b: Board| longer.contains(b) <==> shorter.contains(b) || b == board by {
                if shorter.contains(b) {
                    let j = choose|j: int| 0 <= j < shorter.len() && shorter[j] == b;
                    assert(longer[j] == b);
                }
                if longer.contains(b) && b != board {
                    let j = choose|j: int| 0 <= j < longer.len() && longer[j] == b;
                    assert(shorter[j] == b);
                }
            }
            assert forall|p: Board, s: Shape, b: Board|
                (#[trigger] successors(graph, p, s).contains(b)) <==> successors(
                    old(graph),
                    p,
                    s,
                ).contains(b) || (longer.contains(b) && preds_of(stage, b).contains((p, s))) by {
                assert(successors(&mid, p, s).contains(b) <==> successors(old(graph), p, s).contains(
                    b,
                ) || (shorter.contains(b) && preds_of(stage, b).contains((p, s))));
            }
            assert forall|p: Board|
                (#[trigger] next_work@.contains(p)) <==> exists|b: Board, s: Shape|
                    longer.contains(b) && #[trigger] preds_of(stage, b).contains((p, s)) by {
                assert(work_mid.contains(p) <==> exists|b: Board, s: Shape|
                    shorter.contains(b) && #[trigger] preds_of(stage, b).contains((p, s)));
                if work_mid.contains(p) {
                    let (b, s) = choose|b: Board, s: Shape|
                        shorter.contains(b) && #[trigger] preds_of(stage, b).contains((p, s));
                    assert(longer.contains(b) && preds_of(stage, b).contains((p, s)));
                }
                if next_work@.contains(p) && !work_mid.contains(p) {
                    let y = choose|y: int| 0 <= y < preds.len() && (#[trigger] preds[y]).0 == p;
                    assert(preds.contains((p, preds[y].1)));
                    assert(longer.contains(board) && preds_of(stage, board).contains(
                        (p, preds[y].1),
                    ));
                }
                if exists|b: Board, s: Shape|
                    longer.contains(b) && #[trigger] preds_of(stage, b).contains((p, s)) {
                    let (b, s) = choose|b: Board, s: Shape|
                        longer.contains(b) && #[trigger] preds_of(stage, b).contains((p, s));
                    if shorter.contains(b) {
                        assert(work_mid.contains(p));
                    } else {
                        assert(b == board);
                        let y = choose|y: int| 0 <= y < preds.len() && preds[y] == (p, s);
                        assert(preds[y].0 == p);
                    }
                }
            }
        }
        w = w + 1;
    }
    assert(work@.take(work@.len() as int) =~= work@);
    next_work
}

/// Every edge that the sweep back finds joins boards four cells apart,
/// where the stages hold only such steps.
pub proof fn lemma_swept_adds_four(stages: Seq<PredStage>, from: int, p: Board, s: Shape, b: Board)
    requires
        stages.len() == 11,
        forall|j: int| 0 <= j < 11 ==> adds_four(#[trigger] &stages[j]),
        swept(stages, from, p, s, b),
    ensures
        valid_placement(p, b),
    decreases 11 - from,
{
    if from > 10 || from < 0 {
    } else if alive(stages, from).contains(b) && preds_of(&stages[from], b).contains((p, s)) {
        assert(adds_four(&stages[from]));
    } else {
        lemma_swept_adds_four(stages, from + 1, p, s, b);
    }
}

/// The sweep back over the eleven stages: from the full board, stage by
/// stage towards the empty board, the steps that the stages hold are turned
/// round into the edges of the graph. Only boards from which the full
/// board is reached come into it. It fails where the last stage is not the
/// full board alone.
pub fn sweep_back(stages: &Vec<PredStage>) -> (r: Result<Gigapan, BuildError>)
    requires
        stages@.len() == 11,
        forall|j: int| 0 <= j < 11 ==> (#[trigger] stages@[j]).wf(),
    ensures
        match r {
            Ok(graph) => {
                &&& full_alone(&stages@[10])
                &&& graph.wf()
                &&& all_have_edges(&graph)
                &&& forall|p: Board, s: Shape, b: Board|
                    (#[trigger] successors(&graph, p, s).contains(b)) <==> swept(stages@, 0, p, s, b)
                &&& (forall|j: int| 0 <= j < 11 ==> adds_four(#[trigger] &stages@[j])) ==> forall|
                    p: Board,
                    s: Shape,
                    b: Board,
                |
                    (#[trigger] successors(&graph, p, s).contains(b)) ==> valid_placement(p, b)
            },
            Err(e) => e == BuildError::NotCleared && !full_alone(&stages@[10]),
        },
{
    let last = &stages[10];
    proof {
        last.lemma_wf();
    }
    if last.len() != 1 {
        return Err(BuildError::NotCleared);
    }
    if last.key_at(0) != Board::full() {
        return Err(BuildError::NotCleared);
    }
    assert(last.keys() =~= seq![Board(FULL_MASK)]);
    let mut graph: Gigapan = BoardMap::new();
    let mut work: Vec<Board> = Vec::new();
    work.push(Board::full());
    let mut i: usize = 11;
    proof {
        assert(work@ =~= seq![Board(FULL_MASK)]);
        assert(work@[0] == Board(FULL_MASK));
        assert forall|b: Board| work@.contains(b) <==> alive(stages@, 10).contains(b) by {
            if work@.contains(b) {
                let j = choose|j: int| 0 <= j < work@.len() && work@[j] == b;
            }
        }
        assert forall|b: Board| #[trigger] graph.has(b) implies has_edge(&graph, b) by {
            if graph.has(b) {
                let j = choose|j: int| 0 <= j < graph.keys().len() && graph.keys()[j] == b;
            }
        }
    }
    while i > 0
        invariant
            i <= 11,
            stages@.len() == 11,
            forall|j: int| 0 <= j < 11 ==> (#[trigger] stages@[j]).wf(),
            graph.wf(),
            all_have_edges(&graph),
            forall|b: Board| #[trigger] work@.contains(b) <==> alive(stages@, i - 1).contains(b),
            forall|p: Board, s: Shape, b: Board|
                (#[trigger] successors(&graph, p, s).contains(b)) <==> swept(
                    stages@,
                    i as int,
                    p,
                    s,
                    b,
                ),
        decreases i,
    {
        i = i - 1;
        let ghost before = graph;
        assert(stages@[i as int].wf());
        let next_work = sweep_stage(&mut graph, &stages[i], &work);
        proof {
            assert forall|p: Board, s: Shape, b: Board|
                (#[trigger] successors(&graph, p, s).contains(b)) <==> swept(
                    stages@,
                    i as int,
                    p,
                    s,
                    b,
                ) by {
                assert(successors(&before, p, s).contains(b) <==> swept(stages@, i + 1, p, s, b));
                assert(work@.contains(b) <==> alive(stages@, i as int).contains(b));
            }
            assert forall|p: Board| #[trigger]
                next_work@.contains(p) <==> alive(stages@, i - 1).contains(p) by {
                if next_work@.contains(p) {
                    let (b, s) = choose|b: Board, s: Shape|
                        work@.contains(b) && #[trigger] preds_of(&stages@[i as int], b).contains(
                            (p, s),
                        );
                    assert(alive(stages@, i as int).contains(b));
                }
                if alive(stages@, i - 1).contains(p) {
                    let (b, s) = choose|b: Board, s: Shape|
                        alive(stages@, i as int).contains(b) && #[trigger] preds_of(
                            &stages@[i as int],
                            b,
                        ).contains((p, s));
                    assert(work@.contains(b));
                }
            }
        }
        work = next_work;
    }
    proof {
        if forall|j: int| 0 <= j < 11 ==> adds_four(#[trigger] &stages@[j]) {
            assert forall|p: Board, s: Shape, b: Board|
                (#[trigger] successors(&graph, p, s).contains(b)) implies valid_placement(p, b) by {
                lemma_swept_adds_four(stages@, 0, p, s, b);
            }
        }
    }
    Ok(graph)
}


/// Whether the placement oracle has given `b` as a live board for placing
/// `s` on `p`.
pub open spec fn placed_by<F: Fn(Board, Shape) -> Vec<(Board, bool)>>(
    place: &F,
    p: Board,
    s: Shape,
    b: Board,
) -> bool {
    exists|list: Vec<(Board, bool)>| #[trigger] place.ensures((p, s), list) && list@.contains((b, true))
}

/// Whether every step that the stage holds was given by the oracle.
pub open spec fn records<F: Fn(Board, Shape) -> Vec<(Board, bool)>>(stage: &PredStage, place: &F) -> bool {
    forall|b: Board, pred: (Board, Shape)| #[trigger]
        preds_of(stage, b).contains(pred) ==> placed_by(place, pred.0, pred.1, b)
}

/// Whether the oracle gives one answer for each board and shape.
pub open spec fn settled<F: Fn(Board, Shape) -> Vec<(Board, bool)>>(place: &F) -> bool {
    forall|b: Board, s: Shape, one: Vec<(Board, bool)>, two: Vec<(Board, bool)>|
        #[trigger] place.ensures((b, s), one) && #[trigger] place.ensures((b, s), two) ==> one@
            == two@
}

/// Whether the oracle gives a live placement on `p` that is not sound.
pub open spec fn bad_from<F: Fn(Board, Shape) -> Vec<(Board, bool)>>(place: &F, p: Board) -> bool {
    exists|s: Shape, b: Board| #[trigger] placed_by(place, p, s, b) && !valid_placement(p, b)
}

/// Whether the work is done for the pair of `p` and `s`, when the boards
/// before position `i` are done, and of the board at `i` the shapes before
/// `k`.
pub open spec fn pair_done(keys: Seq<Board>, i: int, k: int, p: Board, s: Shape) -> bool {
    keys.take(i).contains(p) || (0 <= i < keys.len() && p == keys[i] && s.spec_index() < k)
}

/// Whether `next` holds exactly the live placements of the pairs that are
/// done.
pub open spec fn grown_upto<F: Fn(Board, Shape) -> Vec<(Board, bool)>>(
    keys: Seq<Board>,
    i: int,
    k: int,
    next: &PredStage,
    place: &F,
) -> bool {
    forall|b: Board, pred: (Board, Shape)| #[trigger]
        preds_of(next, b).contains(pred) <==> pair_done(keys, i, k, pred.0, pred.1) && placed_by(
            place,
            pred.0,
            pred.1,
            b,
        )
}

/// Whether the stage holds the boards that are reached from some board,
/// and no others.
pub open spec fn keyed(stage: &PredStage) -> bool {
    forall|b: Board| #[trigger]
        stage.has(b) <==> exists|pred: (Board, Shape)| #[trigger] preds_of(stage, b).contains(pred)
}

/// Whether every live placement of the pairs that are done is sound.
pub open spec fn good_upto<F: Fn(Board, Shape) -> Vec<(Board, bool)>>(
    keys: Seq<Board>,
    i: int,
    k: int,
    place: &F,
) -> bool {
    forall|p: Board, s: Shape, b: Board|
        pair_done(keys, i, k, p, s) && #[trigger] placed_by(place, p, s, b) ==> valid_placement(p, b)
}

/// Whether `next` is the stage after `prev`: it holds exactly the live
/// placements that the oracle gives on the boards of `prev`.
pub open spec fn grown_from<F: Fn(Board, Shape) -> Vec<(Board, bool)>>(
    prev: &PredStage,
    next: &PredStage,
    place: &F,
) -> bool {
    &&& keyed(next)
    &&& forall|b: Board, pred: (Board, Shape)| #[trigger]
        preds_of(next, b).contains(pred) <==> prev.has(pred.0) && placed_by(
            place,
            pred.0,
            pred.1,
            b,
        )
}

/// One more pair is done when the answer of the oracle for it is recorded.
pub proof fn lemma_grow_step<F: Fn(Board, Shape) -> Vec<(Board, bool)>>(
    keys: Seq<Board>,
    i: int,
    k: int,
    before: &PredStage,
    after: &PredStage,
    place: &F,
    list: Vec<(Board, bool)>,
)
    requires
        settled(place),
        0 <= i < keys.len(),
        0 <= k < 7,
        place.ensures((keys[i], Shape::at(k)), list),
        grown_upto(keys, i, k, before, place),
        keyed(before),
        good_upto(keys, i, k, place),
        !has_bad_placement(keys[i], list@, list@.len() as int),
        forall|b: Board| #[trigger] after.has(b) <==> before.has(b) || list@.contains((b, true)),
        forall|b: Board, pred: (Board, Shape)| #[trigger]
            preds_of(after, b).contains(pred) <==> preds_of(before, b).contains(pred) || (pred == (
                keys[i],
                Shape::at(k),
            ) && list@.contains((b, true))),
    ensures
        grown_upto(keys, i, k + 1, after, place),
        keyed(after),
        good_upto(keys, i, k + 1, place),
{
    let board = keys[i];
    let shape = Shape::at(k);
    crate::shape::lemma_shape_at(k);
    assert forall|b: Board| placed_by(place, board, shape, b) <==> list@.contains((b, true)) by {
        if placed_by(place, board, shape, b) {
            let other = choose|other: Vec<(Board, bool)>| #[trigger]
                place.ensures((board, shape), other) && other@.contains((b, true));
            assert(other@ == list@);
        }
    }
    assert forall|b: Board, pred: (Board, Shape)| #[trigger]
        preds_of(after, b).contains(pred) <==> pair_done(keys, i, k + 1, pred.0, pred.1) && placed_by(
            place,
            pred.0,
            pred.1,
            b,
        ) by {
        lemma_shape_index(pred.1);
        assert(preds_of(before, b).contains(pred) <==> pair_done(keys, i, k, pred.0, pred.1)
            && placed_by(place, pred.0, pred.1, b));
        assert(placed_by(place, board, shape, b) <==> list@.contains((b, true)));
    }
    assert forall|b: Board| #[trigger]
        after.has(b) <==> exists|pred: (Board, Shape)| #[trigger] preds_of(after, b).contains(pred) by {
        if before.has(b) {
            let pred = choose|pred: (Board, Shape)| #[trigger] preds_of(before, b).contains(pred);
            assert(preds_of(after, b).contains(pred));
        }
        if list@.contains((b, true)) {
            assert(preds_of(after, b).contains((board, shape)));
        }
        if exists|pred: (Board, Shape)| #[trigger] preds_of(after, b).contains(pred) {
            let pred = choose|pred: (Board, Shape)| #[trigger] preds_of(after, b).contains(pred);
            if preds_of(before, b).contains(pred) {
                assert(before.has(b));
            }
        }
    }
    assert forall|p: Board, s: Shape, b: Board|
        pair_done(keys, i, k + 1, p, s) && #[trigger] placed_by(place, p, s, b) implies valid_placement(
        p,
        b,
    ) by {
        lemma_shape_index(s);
        if !pair_done(keys, i, k, p, s) {
            assert(p == board && s == shape);
            assert(list@.contains((b, true)));
            let j = choose|j: int| 0 <= j < list@.len() && list@[j] == (b, true);
            assert(list@[j].1);
        }
    }
}

/// When all shapes of a board are done, the board is done.
pub proof fn lemma_grow_board<F: Fn(Board, Shape) -> Vec<(Board, bool)>>(
    keys: Seq<Board>,
    i: int,
    next: &PredStage,
    place: &F,
)
    requires
        0 <= i < keys.len(),
        grown_upto(keys, i, 7, next, place),
        good_upto(keys, i, 7, place),
    ensures
        grown_upto(keys, i + 1, 0, next, place),
        good_upto(keys, i + 1, 0, place),
{
    let shorter = keys.take(i);
    let longer = keys.take(i + 1);
    assert(longer =~= shorter.push(keys[i]));
    assert(longer[i] == keys[i]);
    assert forall|p: Board, s: Shape| pair_done(keys, i, 7, p, s) <==> pair_done(keys, i + 1, 0, p, s) by {
        lemma_shape_index(s);
        if shorter.contains(p) {
            let x = choose|x: int| 0 <= x < shorter.len() && shorter[x] == p;
            assert(longer[x] == p);
        }
        if longer.contains(p) && p != keys[i] {
            let x = choose|x: int| 0 <= x < longer.len() && longer[x] == p;
            assert(shorter[x] == p);
        }
    }
    assert forall|b: Board, pred: (Board, Shape)| #[trigger]
        preds_of(next, b).contains(pred) <==> pair_done(keys, i + 1, 0, pred.0, pred.1) && placed_by(
            place,
            pred.0,
            pred.1,
            b,
        ) by {
        assert(pair_done(keys, i, 7, pred.0, pred.1) <==> pair_done(keys, i + 1, 0, pred.0, pred.1));
    }
    assert forall|p: Board, s: Shape, b: Board|
        pair_done(keys, i + 1, 0, p, s) && #[trigger] placed_by(place, p, s, b) implies valid_placement(
        p,
        b,
    ) by {
        assert(pair_done(keys, i, 7, p, s) <==> pair_done(keys, i + 1, 0, p, s));
    }
}

/// The next stage: the oracle is asked for each board of `prev` and each
/// shape, and its live placements are recorded. It fails at the first live
/// placement that is not sound. Where the oracle gives one answer for each
/// board and shape, the stage holds exactly the live placements on the
/// boards of `prev`.
pub fn grow_stage<F: Fn(Board, Shape) -> Vec<(Board, bool)>>(prev: &PredStage, place: &F) -> (r: Result<
    PredStage,
    BuildError,
>)
    requires
        prev.wf(),
        forall|b: Board, s: Shape| place.requires((b, s)),
    ensures
        match r {
            Ok(next) => next.wf() && adds_four(&next) && records(&next, place),
            Err(e) => e == BuildError::BadPlacement && exists|p: Board| #[trigger]
                prev.has(p) && bad_from(place, p),
        },
        settled(place) ==> match r {
            Ok(next) => grown_from(prev, &next, place) && forall|p: Board| #[trigger]
                prev.has(p) ==> !bad_from(place, p),
            Err(e) => exists|p: Board| #[trigger] prev.has(p) && bad_from(place, p),
        },
{
    let mut next: PredStage = BoardMap::new();
    let mut i: usize = 0;
    let ghost keys = prev.keys();
    proof {
        assert forall|b: Board, pred: (Board, Shape)| !(#[trigger] preds_of(&next, b).contains(pred)) by {
            if next.has(b) {
                let j = choose|j: int| 0 <= j < next.keys().len() && next.keys()[j] == b;
            }
        }
        assert forall|b: Board| !next.has(b) by {
            if next.has(b) {
                let j = choose|j: int| 0 <= j < next.keys().len() && next.keys()[j] == b;
            }
        }
        assert(keys.take(0) =~= Seq::<Board>::empty());
    }
    while i < prev.len()
        invariant
            i <= prev.keys().len(),
            keys == prev.keys(),
            prev.wf(),
            next.wf(),
            forall|b: Board, s: Shape| place.requires((b, s)),
            adds_four(&next),
            records(&next, place),
            settled(place) ==> grown_upto(keys, i as int, 0, &next, place) && keyed(&next)
                && good_upto(keys, i as int, 0, place),
        decreases prev.keys().len() - i,
    {
        let board = prev.key_at(i);
        let mut k: usize = 0;
        while k < 7
            invariant
                k <= 7,
                i < keys.len(),
                keys == prev.keys(),
                board == keys[i as int],
                prev.wf(),
                next.wf(),
                forall|b: Board, s: Shape| place.requires((b, s)),
                adds_four(&next),
                records(&next, place),
                settled(place) ==> grown_upto(keys, i as int, k as int, &next, place) && keyed(&next)
                    && good_upto(keys, i as int, k as int, place),
            decreases 7 - k,
        {
            let shape = Shape::from_index(k).unwrap();
            let list = place(board, shape);
            let ghost before = next;
            match record_placements(&mut next, board, shape, list.as_slice()) {
                Ok(()) => {},
                Err(e) => {
                    proof {
                        let j = choose|j: int|
                            0 <= j < list@.len() && (#[trigger] list@[j]).1 && !valid_placement(
                                board,
                                list@[j].0,
                            );
                        assert(list@.contains((list@[j].0, true)));
                        assert(placed_by(place, board, shape, list@[j].0));
                        assert(bad_from(place, board));
                        assert(prev.has(board));
                    }
                    return Err(e);
                },
            }
            proof {
                assert forall|b: Board, pred: (Board, Shape)| #[trigger]
                    preds_of(&next, b).contains(pred) implies placed_by(
                    place,
                    pred.0,
                    pred.1,
                    b,
                ) by {
                    if !preds_of(&before, b).contains(pred) {
                        assert(place.ensures((board, shape), list));
                        assert(list@.contains((b, true)));
                    }
                }
                if settled(place) {
                    lemma_grow_step(keys, i as int, k as int, &before, &next, place, list);
                }
            }
            k = k + 1;
        }
        proof {
            if settled(place) {
                lemma_grow_board(keys, i as int, &next, place);
            }
        }
        i = i + 1;
    }
    proof {
        if settled(place) {
            assert(keys.take(keys.len() as int) =~= keys);
            assert forall|b: Board, pred: (Board, Shape)| #[trigger]
                preds_of(&next, b).contains(pred) <==> prev.has(pred.0) && placed_by(
                    place,
                    pred.0,
                    pred.1,
                    b,
                ) by {
                assert(pair_done(keys, keys.len() as int, 0, pred.0, pred.1) <==> prev.has(pred.0));
            }
            assert forall|p: Board| #[trigger] prev.has(p) implies !bad_from(place, p) by {
                if bad_from(place, p) {
                    let (s, b) = choose|s: Shape, b: Board| #[trigger]
                        placed_by(place, p, s, b) && !valid_placement(p, b);
                    assert(pair_done(keys, keys.len() as int, 0, p, s));
                }
            }
        }
    }
    Ok(next)
}

/// The boards with `k` pieces that the oracle leads to from the empty
/// board by live placements.
pub open spec fn reached<F: Fn(Board, Shape) -> Vec<(Board, bool)>>(place: &F, k: nat) -> Set<Board>
    decreases k,
{
    if k == 0 {
        set![Board(0)]
    } else {
        Set::new(
            |b: Board|
                exists|p: Board, s: Shape|
                    reached(place, (k - 1) as nat).contains(p) && #[trigger] placed_by(
                        place,
                        p,
                        s,
                        b,
                    ),
        )
    }
}

/// Whether every live placement on a board with fewer than `upto` pieces
/// that is reached is sound.
pub open spec fn good_reached<F: Fn(Board, Shape) -> Vec<(Board, bool)>>(place: &F, upto: nat) -> bool {
    forall|k: nat, p: Board|
        k < upto && #[trigger] reached(place, k).contains(p) ==> !bad_from(place, p)
}

/// The boards with `i` pieces that are reached and from which the oracle
/// leads on to the full board: the full board itself for ten pieces, where
/// it alone is reached with ten pieces.
pub open spec fn clears<F: Fn(Board, Shape) -> Vec<(Board, bool)>>(place: &F, i: int) -> Set<Board>
    decreases 10 - i,
{
    if i >= 10 {
        if reached(place, 10) == set![Board(FULL_MASK)] {
            set![Board(FULL_MASK)]
        } else {
            Set::empty()
        }
    } else {
        Set::new(
            |p: Board|
                exists|b: Board, s: Shape|
                    clears(place, i + 1).contains(b) && i >= 0 && reached(place, i as nat).contains(p)
                        && #[trigger] placed_by(place, p, s, b),
        )
    }
}

/// Whether the graph of the oracle holds the edge from `p` to `b` by `s`,
/// for a board `b` of `from` pieces or more: `p` is reached, placing `s` on
/// it gives `b` alive, and the full board is reached from `b`.
pub open spec fn edge_of<F: Fn(Board, Shape) -> Vec<(Board, bool)>>(
    place: &F,
    from: int,
    p: Board,
    s: Shape,
    b: Board,
) -> bool
    decreases 11 - from,
{
    if from > 10 || from < 0 {
        false
    } else {
        (from >= 1 && clears(place, from).contains(b) && reached(place, (from - 1) as nat).contains(p)
            && placed_by(place, p, s, b)) || edge_of(place, from + 1, p, s, b)
    }
}

/// Whether a stage is stage `k` of the oracle: it holds the boards reached
/// with `k` pieces, each with the live placements that lead to it.
pub open spec fn stage_is<F: Fn(Board, Shape) -> Vec<(Board, bool)>>(
    stage: &PredStage,
    place: &F,
    k: nat,
) -> bool {
    &&& forall|b: Board| #[trigger] stage.has(b) <==> reached(place, k).contains(b)
    &&& forall|b: Board, pred: (Board, Shape)| #[trigger]
        preds_of(stage, b).contains(pred) <==> k >= 1 && reached(place, (k - 1) as nat).contains(
            pred.0,
        ) && placed_by(place, pred.0, pred.1, b)
}

/// The stage grown from stage `k` of the oracle is its stage `k + 1`.
pub proof fn lemma_next_stage<F: Fn(Board, Shape) -> Vec<(Board, bool)>>(
    prev: &PredStage,
    next: &PredStage,
    place: &F,
    k: nat,
)
    requires
        stage_is(prev, place, k),
        grown_from(prev, next, place),
    ensures
        stage_is(next, place, k + 1),
{
    assert forall|b: Board, pred: (Board, Shape)| #[trigger]
        preds_of(next, b).contains(pred) <==> reached(place, k).contains(pred.0) && placed_by(
            place,
            pred.0,
            pred.1,
            b,
        ) by {
        assert(prev.has(pred.0) <==> reached(place, k).contains(pred.0));
    }
    assert forall|b: Board| #[trigger] next.has(b) <==> reached(place, k + 1).contains(b) by {
        if next.has(b) {
            let pred = choose|pred: (Board, Shape)| #[trigger] preds_of(next, b).contains(pred);
            assert(reached(place, k).contains(pred.0) && placed_by(place, pred.0, pred.1, b));
        }
        if reached(place, k + 1).contains(b) {
            let (p, s) = choose|p: Board, s: Shape|
                reached(place, k).contains(p) && #[trigger] placed_by(place, p, s, b);
            assert(preds_of(next, b).contains((p, s)));
        }
    }
}

/// Over the stages of the oracle, the sweep back marks the boards from
/// which the oracle leads on to the full board.
pub proof fn lemma_alive_clears<F: Fn(Board, Shape) -> Vec<(Board, bool)>>(
    stages: Seq<PredStage>,
    place: &F,
    i: int,
)
    requires
        stages.len() == 11,
        forall|j: int| 0 <= j < 11 ==> (#[trigger] stages[j]).wf() && stage_is(&stages[j], place, j as nat),
        0 <= i <= 10,
    ensures
        alive(stages, i) == clears(place, i),
        full_alone(&stages[10]) <==> reached(place, 10) == set![Board(FULL_MASK)],
    decreases 10 - i,
{
    let last = &stages[10];
    let full = Board(FULL_MASK);
    last.lemma_wf();
    assert(stage_is(last, place, 10));
    if full_alone(last) {
        assert(last.keys()[0] == full);
        assert forall|b: Board| reached(place, 10).contains(b) <==> set![full].contains(b) by {
            if last.has(b) {
                let j = choose|j: int| 0 <= j < last.keys().len() && last.keys()[j] == b;
            }
        }
        assert(reached(place, 10) =~= set![full]);
    }
    if reached(place, 10) == set![full] {
        assert(last.has(full));
        assert forall|j: int| 0 <= j < last.keys().len() implies last.keys()[j] == full by {
            assert(last.has(last.keys()[j]));
            assert(reached(place, 10).contains(last.keys()[j]));
        }
        if last.keys().len() >= 2 {
            assert(last.keys()[0] == last.keys()[1]);
        }
        assert(last.keys().len() >= 1) by {
            let j = choose|j: int| 0 <= j < last.keys().len() && last.keys()[j] == full;
        }
        assert(last.keys() =~= seq![full]);
    }
    if i < 10 {
        lemma_alive_clears(stages, place, i + 1);
        assert(stage_is(&stages[i + 1], place, (i + 1) as nat));
        assert forall|p: Board| alive(stages, i).contains(p) <==> clears(place, i).contains(p) by {
            if alive(stages, i).contains(p) {
                let (b, s) = choose|b: Board, s: Shape|
                    alive(stages, i + 1).contains(b) && #[trigger] preds_of(
                        &stages[i + 1],
                        b,
                    ).contains((p, s));
                assert(placed_by(place, p, s, b));
            }
            if clears(place, i).contains(p) {
                let (b, s) = choose|b: Board, s: Shape|
                    clears(place, i + 1).contains(b) && i >= 0 && reached(place, i as nat).contains(p)
                        && #[trigger] placed_by(place, p, s, b);
                assert(preds_of(&stages[i + 1], b).contains((p, s)));
            }
        }
        assert(alive(stages, i) =~= clears(place, i));
    }
}

/// Over the stages of the oracle, the sweep back finds the edges of the
/// graph of the oracle.
pub proof fn lemma_swept_edges<F: Fn(Board, Shape) -> Vec<(Board, bool)>>(
    stages: Seq<PredStage>,
    place: &F,
    from: int,
    p: Board,
    s: Shape,
    b: Board,
)
    requires
        stages.len() == 11,
        forall|j: int| 0 <= j < 11 ==> (#[trigger] stages[j]).wf() && stage_is(&stages[j], place, j as nat),
        from >= 0,
    ensures
        swept(stages, from, p, s, b) <==> edge_of(place, from, p, s, b),
    decreases 11 - from,
{
    if from <= 10 {
        lemma_swept_edges(stages, place, from + 1, p, s, b);
        lemma_alive_clears(stages, place, from);
        assert(stage_is(&stages[from], place, from as nat));
    }
}

/// Builds the board graph. Stage 0 holds the empty board; each of the ten
/// stages after it is grown from the one before by asking `place` for the
/// boards that each shape leads to, each with whether it is alive. The
/// sweep back from the full board then gives the graph. In the graph every
/// edge adds four cells inside the field and was given as alive by the
/// oracle, and every board has an edge. Where the oracle gives one answer
/// for each board and shape, the graph holds exactly the edges that lie on
/// a way from the empty board to the full board; it fails where a live
/// placement on a board that is reached is not sound, or where the full
/// board is not the one board reached with ten pieces.
pub fn compute_gigapan<F: Fn(Board, Shape) -> Vec<(Board, bool)>>(place: F) -> (r: Result<
    Gigapan,
    BuildError,
>)
    requires
        forall|b: Board, s: Shape| place.requires((b, s)),
    ensures
        r matches Ok(graph) ==> {
            &&& graph.wf()
            &&& all_have_edges(&graph)
            &&& forall|p: Board, s: Shape, b: Board|
                (#[trigger] successors(&graph, p, s).contains(b)) ==> valid_placement(p, b)
                    && placed_by(&place, p, s, b)
        },
        r == Err::<Gigapan, BuildError>(BuildError::BadPlacement) ==> exists|p: Board| #[trigger]
            bad_from(&place, p),
        settled(&place) ==> match r {
            Ok(graph) => {
                &&& good_reached(&place, 10)
                &&& reached(&place, 10) == set![Board(FULL_MASK)]
                &&& forall|p: Board, s: Shape, b: Board|
                    (#[trigger] successors(&graph, p, s).contains(b)) <==> edge_of(&place, 0, p, s, b)
            },
            Err(BuildError::BadPlacement) => !good_reached(&place, 10),
            Err(BuildError::NotCleared) => good_reached(&place, 10) && reached(&place, 10)
                != set![Board(FULL_MASK)],
        },
{
    let mut stages: Vec<PredStage> = Vec::new();
    let mut first: PredStage = BoardMap::new();
    first.push(Board::empty(), Vec::new());
    proof {
        first.lemma_wf();
        assert(first.keys()[0] == Board(0));
        assert(first.position_of(Board(0)) == 0);
        assert forall|b: Board, pred: (Board, Shape)| !(#[trigger] preds_of(&first, b).contains(pred)) by {
            if first.has(b) {
                let j = choose|j: int| 0 <= j < first.keys().len() && first.keys()[j] == b;
                assert(b == Board(0));
                assert(first.value_of(b)@ =~= Seq::<(Board, Shape)>::empty());
            }
        }
        assert forall|b: Board| #[trigger] first.has(b) <==> reached(&place, 0).contains(b) by {
            if first.has(b) {
                let j = choose|j: int| 0 <= j < first.keys().len() && first.keys()[j] == b;
            }
        }
    }
    stages.push(first);
    let mut iter: usize = 1;
    while iter <= 10
        invariant
            1 <= iter <= 11,
            stages@.len() == iter,
            forall|b: Board, s: Shape| place.requires((b, s)),
            forall|j: int|
                0 <= j < stages@.len() ==> (#[trigger] stages@[j]).wf() && adds_four(&stages@[j])
                    && records(&stages@[j], &place),
            settled(&place) ==> good_reached(&place, (iter - 1) as nat) && forall|j: int|
                0 <= j < stages@.len() ==> stage_is(#[trigger] &stages@[j], &place, j as nat),
        decreases 11 - iter,
    {
        assert(stages@[iter - 1].wf());
        let ghost before = stages@;
        let next = match grow_stage(&stages[iter - 1], &place) {
            Ok(next) => next,
            Err(e) => {
                proof {
                    let prev = &stages@[iter - 1];
                    let p = choose|p: Board| #[trigger] prev.has(p) && bad_from(&place, p);
                    assert(bad_from(&place, p));
                    if settled(&place) {
                        assert(stage_is(prev, &place, (iter - 1) as nat));
                        assert(reached(&place, (iter - 1) as nat).contains(p));
                    }
                }
                return Err(e);
            },
        };
        proof {
            if settled(&place) {
                let prev = &stages@[iter - 1];
                assert(stage_is(prev, &place, (iter - 1) as nat));
                lemma_next_stage(prev, &next, &place, (iter - 1) as nat);
                assert forall|k: nat, p: Board|
                    k < iter && #[trigger] reached(&place, k).contains(p) implies !bad_from(
                    &place,
                    p,
                ) by {
                    if k == iter - 1 {
                        assert(prev.has(p));
                    }
                }
            }
        }
        stages.push(next);
        proof {
            if settled(&place) {
                assert forall|j: int| 0 <= j < stages@.len() implies stage_is(
                    #[trigger] &stages@[j],
                    &place,
                    j as nat,
                ) by {
                    if j < before.len() {
                        assert(stages@[j] == before[j]);
                        assert(stage_is(&before[j], &place, j as nat));
                    }
                }
            }
        }
        iter = iter + 1;
    }
    proof {
        if settled(&place) {
            assert forall|j: int| 0 <= j < 11 implies (#[trigger] stages@[j]).wf() && stage_is(
                &stages@[j],
                &place,
                j as nat,
            ) by {
                assert(stage_is(&stages@[j], &place, j as nat));
            }
            lemma_alive_clears(stages@, &place, 10);
        }
    }
    let graph = match sweep_back(&stages) {
        Ok(graph) => graph,
        Err(e) => {
            return Err(e);
        },
    };
    proof {
        assert forall|j: int| 0 <= j < 11 implies adds_four(#[trigger] &stages@[j]) by {
            assert(stages@[j].wf());
        }
        assert forall|p: Board, s: Shape, b: Board|
            (#[trigger] successors(&graph, p, s).contains(b)) implies valid_placement(p, b)
            && placed_by(&place, p, s, b) by {
            lemma_swept_records(stages@, &place, 0, p, s, b);
        }
        if settled(&place) {
            assert forall|p: Board, s: Shape, b: Board|
                (#[trigger] successors(&graph, p, s).contains(b)) <==> edge_of(&place, 0, p, s, b) by {
                lemma_swept_edges(stages@, &place, 0, p, s, b);
            }
        }
    }
    Ok(graph)
}

/// Every edge that the sweep back finds was given by the oracle, where the
/// stages hold only such steps.
pub proof fn lemma_swept_records<F: Fn(Board, Shape) -> Vec<(Board, bool)>>(
    stages: Seq<PredStage>,
    place: &F,
    from: int,
    p: Board,
    s: Shape,
    b: Board,
)
    requires
        stages.len() == 11,
        forall|j: int| 0 <= j < 11 ==> records(#[trigger] &stages[j], place),
        swept(stages, from, p, s, b),
    ensures
        placed_by(place, p, s, b),
    decreases 11 - from,
{
    if from > 10 || from < 0 {
    } else if alive(stages, from).contains(b) && preds_of(&stages[from], b).contains((p, s)) {
        assert(records(&stages[from], place));
    } else {
        lemma_swept_records(stages, place, from + 1, p, s, b);
    }
}

} // verus!
