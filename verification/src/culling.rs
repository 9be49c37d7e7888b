//! The culling pass: the boards that lie on some way from the start board to
//! the one board that the whole queue leads to.

use vstd::prelude::*;
use crate::bag_laws::lemma_take_contains;
use crate::board::Board;
use crate::board_map::BoardMap;
use crate::board_set::BoardSet;
use crate::boardgraph::{successors, FrozenGigapan};
use crate::queue::{after, contains_state, Bag, QueueState};
use crate::shape::Shape;

verus! {

/// What one stage of the scan holds for a board: the states of the queue in
/// which the board can be reached, and the boards it was reached from.
pub struct StageEntry {
    pub queues: Vec<QueueState>,
    pub preds: Vec<Board>,
}

/// One stage of the scan: the boards reached after so many pieces.
pub type ScanStage = BoardMap<StageEntry>;

/// What a stage holds for a board, as sets.
pub struct StageSets {
    pub states: Set<QueueState>,
    pub preds: Set<Board>,
}

/// A stage as a map from its boards to what it holds for them.
pub type StageView = Map<Board, StageSets>;

/// One step of the scan: board `to` is reached from board `from` with the
/// queue in one of `states`.
pub struct Event {
    pub to: Board,
    pub states: Set<QueueState>,
    pub from: Board,
}

/// The sets of an entry.
pub open spec fn entry_sets(entry: StageEntry) -> StageSets {
    StageSets { states: entry.queues@.to_set(), preds: entry.preds@.to_set() }
}

/// A stage as a map.
pub open spec fn stage_view(stage: &ScanStage) -> StageView {
    Map::new(|b: Board| stage.has(b), |b: Board| entry_sets(stage.value_of(b)))
}

/// The stage that a set of steps leads to: a board is in it that some step
/// reaches, with the states and the boards before it of all the steps that
/// reach it.
pub open spec fn summarize(events: Set<Event>) -> StageView {
    Map::new(
        |b: Board| exists|e: Event| events.contains(e) && e.to == b,
        |b: Board|
            StageSets {
                states: Set::new(
                    |t: QueueState|
                        exists|e: Event| events.contains(e) && e.to == b && e.states.contains(t),
                ),
                preds: Set::new(
                    |p: Board| exists|e: Event| events.contains(e) && e.to == b && e.from == p,
                ),
            },
    )
}

/// The stage `m` after one more step.
pub open spec fn add_event(m: StageView, e: Event) -> StageView {
    if m.contains_key(e.to) {
        m.insert(
            e.to,
            StageSets {
                states: m[e.to].states.union(e.states),
                preds: m[e.to].preds.insert(e.from),
            },
        )
    } else {
        m.insert(e.to, StageSets { states: e.states, preds: set![e.from] })
    }
}

/// The states that the states of `states` can go to when `shape` comes up.
pub open spec fn moved(
    bag: &Bag,
    states: Set<QueueState>,
    shape: Shape,
    is_first: bool,
    can_hold: bool,
) -> Set<QueueState> {
    Set::new(
        |t: QueueState|
            exists|q: QueueState|
                states.contains(q) && #[trigger] after(bag, q, shape, is_first, can_hold).contains(t),
    )
}

/// Whether a set of states holds one at least.
pub open spec fn nonempty(states: Set<QueueState>) -> bool {
    exists|t: QueueState| states.contains(t)
}

/// Whether `e` is a step of the scan for the shape at `j`: the queue can
/// move on in some state when that shape comes up, and the graph leads from
/// the one board to the other by it.
pub open spec fn is_step(
    graph: &FrozenGigapan,
    prev: StageView,
    bag: &Bag,
    is_first: bool,
    use_hold: bool,
    e: Event,
    j: int,
) -> bool {
    &&& e.states == moved(bag, prev[e.from].states, Shape::at(j), is_first, use_hold)
    &&& nonempty(e.states)
    &&& successors(graph, e.from, Shape::at(j)).contains(e.to)
}

/// Whether `e` is a step of the scan for one of the first `upto` shapes.
pub open spec fn is_step_below(
    graph: &FrozenGigapan,
    prev: StageView,
    bag: &Bag,
    is_first: bool,
    use_hold: bool,
    e: Event,
    upto: nat,
) -> bool
    decreases upto,
{
    upto > 0 && (is_step_below(graph, prev, bag, is_first, use_hold, e, (upto - 1) as nat)
        || is_step(graph, prev, bag, is_first, use_hold, e, upto - 1))
}

/// The steps that lead from the stage `prev` to the next one.
pub open spec fn step_events(
    graph: &FrozenGigapan,
    prev: StageView,
    bag: &Bag,
    is_first: bool,
    use_hold: bool,
) -> Set<Event> {
    Set::new(
        |e: Event|
            prev.contains_key(e.from) && is_step_below(graph, prev, bag, is_first, use_hold, e, 7),
    )
}

/// The stage after `k` pieces were placed. At first there is the start
/// board alone, with the states in which the first piece is held; each
/// further stage holds the boards that the graph leads to from a board of
/// the stage before by a shape with which the queue can move on.
pub open spec fn stage(
    graph: &FrozenGigapan,
    start: Board,
    bags: Seq<(u8, Bag)>,
    use_hold: bool,
    k: nat,
) -> StageView
    decreases k,
{
    if k == 0 {
        map![start => StageSets { states: bags[0].1.spec_init_hold().to_set(), preds: Set::empty() }]
    } else {
        summarize(
            step_events(
                graph,
                stage(graph, start, bags, use_hold, (k - 1) as nat),
                &bags[k as int].1,
                bags[k as int].0 == 0,
                use_hold,
            ),
        )
    }
}

/// The boards of the last stage, and the boards they were reached from.
pub open spec fn mark_last(last: StageView) -> Set<Board> {
    Set::new(
        |b: Board|
            last.contains_key(b) || exists|c: Board|
                last.contains_key(c) && (#[trigger] last[c]).preds.contains(b),
    )
}

/// The boards marked so far, and the boards from which a marked board of
/// `stage` was reached.
pub open spec fn mark_step(marked: Set<Board>, stage: StageView) -> Set<Board> {
    Set::new(
        |b: Board|
            marked.contains(b) || exists|c: Board|
                stage.contains_key(c) && marked.contains(c) && (#[trigger] stage[c]).preds.contains(b),
    )
}

/// The boards that are marked when the sweep back has come to stage `k`.
pub open spec fn marked_from(
    graph: &FrozenGigapan,
    start: Board,
    bags: Seq<(u8, Bag)>,
    use_hold: bool,
    k: nat,
) -> Set<Board>
    decreases bags.len() - k,
{
    if k + 1 >= bags.len() {
        mark_last(stage(graph, start, bags, use_hold, k))
    } else {
        mark_step(
            marked_from(graph, start, bags, use_hold, k + 1),
            stage(graph, start, bags, use_hold, k),
        )
    }
}

/// The culled set: the boards on some way from the start board to a board
/// of the last stage.
pub open spec fn culled_boards(
    graph: &FrozenGigapan,
    start: Board,
    bags: Seq<(u8, Bag)>,
    use_hold: bool,
) -> Set<Board> {
    marked_from(graph, start, bags, use_hold, 0)
}

/// Whether the whole queue leads to one board and no other.
pub open spec fn ends_in_one_board(
    graph: &FrozenGigapan,
    start: Board,
    bags: Seq<(u8, Bag)>,
    use_hold: bool,
) -> bool {
    exists|b: Board|
        stage(graph, start, bags, use_hold, (bags.len() - 1) as nat).dom() == set![b]
}

/// One more step changes the stage as `add_event` says.
pub proof fn lemma_summarize_insert(events: Set<Event>, e: Event)
    ensures
        summarize(events.insert(e)) == add_event(summarize(events), e),
{
    let before = summarize(events);
    let l = summarize(events.insert(e));
    let r = add_event(before, e);
    assert(events.insert(e).contains(e));
    assert forall|b: Board| l.contains_key(b) <==> r.contains_key(b) by {
        if l.contains_key(b) {
            let w = choose|w: Event| events.insert(e).contains(w) && w.to == b;
            if w != e {
                assert(events.contains(w));
            }
        }
        if r.contains_key(b) && b != e.to {
            let w = choose|w: Event| events.contains(w) && w.to == b;
            assert(events.insert(e).contains(w));
        }
    }
    assert forall|b: Board| l.contains_key(b) implies l[b] == r[b] by {
        if b == e.to {
            assert forall|t: QueueState| l[b].states.contains(t) <==> r[b].states.contains(t) by {
                if l[b].states.contains(t) {
                    let w = choose|w: Event|
                        events.insert(e).contains(w) && w.to == b && w.states.contains(t);
                    if w != e {
                        assert(events.contains(w));
                        assert(before.contains_key(b));
                    }
                }
                if r[b].states.contains(t) && !e.states.contains(t) {
                    let w = choose|w: Event| events.contains(w) && w.to == b && w.states.contains(t);
                    assert(events.insert(e).contains(w));
                }
            }
            assert forall|p: Board| l[b].preds.contains(p) <==> r[b].preds.contains(p) by {
                if l[b].preds.contains(p) {
                    let w = choose|w: Event|
                        events.insert(e).contains(w) && w.to == b && w.from == p;
                    if w != e {
                        assert(events.contains(w));
                        assert(before.contains_key(b));
                    }
                }
                if r[b].preds.contains(p) && p != e.from {
                    let w = choose|w: Event| events.contains(w) && w.to == b && w.from == p;
                    assert(events.insert(e).contains(w));
                }
            }
            assert(l[b].states =~= r[b].states);
            assert(l[b].preds =~= r[b].preds);
        } else {
            assert forall|t: QueueState| l[b].states.contains(t) <==> r[b].states.contains(t) by {
                if l[b].states.contains(t) {
                    let w = choose|w: Event|
                        events.insert(e).contains(w) && w.to == b && w.states.contains(t);
                    assert(events.contains(w));
                }
                if r[b].states.contains(t) {
                    let w = choose|w: Event| events.contains(w) && w.to == b && w.states.contains(t);
                    assert(events.insert(e).contains(w));
                }
            }
            assert forall|p: Board| l[b].preds.contains(p) <==> r[b].preds.contains(p) by {
                if l[b].preds.contains(p) {
                    let w = choose|w: Event|
                        events.insert(e).contains(w) && w.to == b && w.from == p;
                    assert(events.contains(w));
                }
                if r[b].preds.contains(p) {
                    let w = choose|w: Event| events.contains(w) && w.to == b && w.from == p;
                    assert(events.insert(e).contains(w));
                }
            }
            assert(l[b].states =~= r[b].states);
            assert(l[b].preds =~= r[b].preds);
        }
    }
    assert(l =~= r);
}

/// Whether `board` occurs in `boards`.
pub fn contains_board(boards: &Vec<Board>, board: Board) -> (r: bool)
    ensures
        r == boards@.contains(board),
{
    let mut i: usize = 0;
    while i < boards.len()
        invariant
            i <= boards.len(),
            forall|j: int| 0 <= j < i ==> boards@[j] != board,
        decreases boards.len() - i,
    {
        if boards[i] == board {
            return true;
        }
        i = i + 1;
    }
    false
}

/// Adds to `entry` the states of `new_queues` and the board `old_board`,
/// each unless it is there already.
pub fn absorb(entry: &mut StageEntry, new_queues: &Vec<QueueState>, old_board: Board)
    ensures
        entry_sets(*final(entry)).states == entry_sets(*old(entry)).states.union(
            new_queues@.to_set(),
        ),
        entry_sets(*final(entry)).preds == entry_sets(*old(entry)).preds.insert(old_board),
{
    let ghost start = entry.queues@;
    let mut i: usize = 0;
    while i < new_queues.len()
        invariant
            i <= new_queues.len(),
            entry.preds@ == old(entry).preds@,
            entry.queues@.to_set() == start.to_set().union(new_queues@.take(i as int).to_set()),
        decreases new_queues.len() - i,
    {
        let queue = new_queues[i];
        let ghost before = entry.queues@;
        if !contains_state(&entry.queues, queue) {
            entry.queues.push(queue);
        }
        proof {
            let done = new_queues@.take(i as int);
            let more = new_queues@.take(i + 1);
            assert(more =~= done.push(queue));
            assert forall|t: QueueState|
                entry.queues@.to_set().contains(t) <==> start.to_set().union(
                    more.to_set(),
                ).contains(t) by {
                assert(before.to_set().contains(t) <==> start.to_set().contains(t)
                    || done.to_set().contains(t));
                if more.contains(t) && t != queue {
                    let j = choose|j: int| 0 <= j < more.len() && more[j] == t;
                    assert(done[j] == t);
                }
                if done.contains(t) {
                    let j = choose|j: int| 0 <= j < done.len() && done[j] == t;
                    assert(more[j] == t);
                }
                assert(more[i as int] == queue);
                if entry.queues@ != before {
                    assert(entry.queues@ == before.push(queue));
                    assert(entry.queues@[before.len() as int] == queue);
                    if before.contains(t) {
                        let j = choose|j: int| 0 <= j < before.len() && before[j] == t;
                        assert(entry.queues@[j] == t);
                    }
                    if entry.queues@.contains(t) && t != queue {
                        let j = choose|j: int| 0 <= j < entry.queues@.len() && entry.queues@[j] == t;
                        assert(before[j] == t);
                    }
                }
            }
            assert(entry.queues@.to_set() =~= start.to_set().union(more.to_set()));
        }
        i = i + 1;
    }
    assert(new_queues@.take(new_queues@.len() as int) =~= new_queues@);
    let ghost preds = entry.preds@;
    if !contains_board(&entry.preds, old_board) {
        entry.preds.push(old_board);
    }
    proof {
        assert forall|p: Board|
            entry.preds@.to_set().contains(p) <==> preds.to_set().insert(old_board).contains(p) by {
            if entry.preds@ != preds {
                assert(entry.preds@ == preds.push(old_board));
                assert(entry.preds@[preds.len() as int] == old_board);
                if preds.contains(p) {
                    let j = choose|j: int| 0 <= j < preds.len() && preds[j] == p;
                    assert(entry.preds@[j] == p);
                }
                if entry.preds@.contains(p) && p != old_board {
                    let j = choose|j: int| 0 <= j < entry.preds@.len() && entry.preds@[j] == p;
                    assert(preds[j] == p);
                }
            }
        }
        assert(entry.preds@.to_set() =~= preds.to_set().insert(old_board));
    }
}


/// Records one step in the stage `next`: board `new_board` is reached from
/// `old_board` with the queue in one of `new_queues`.
pub fn merge_one(
    next: &mut ScanStage,
    new_board: Board,
    new_queues: &Vec<QueueState>,
    old_board: Board,
)
    requires
        old(next).wf(),
    ensures
        final(next).wf(),
        stage_view(final(next)) == add_event(
            stage_view(old(next)),
            Event { to: new_board, states: new_queues@.to_set(), from: old_board },
        ),
{
    let ghost e = Event { to: new_board, states: new_queues@.to_set(), from: old_board };
    let ghost before = stage_view(next);
    proof {
        next.lemma_wf();
    }
    match next.position(new_board) {
        Some(i) => {
            let slot = next.value_at_mut(i);
            absorb(slot, new_queues, old_board);
            proof {
                next.lemma_wf();
                let l = stage_view(next);
                let r = add_event(before, e);
                assert forall|b: Board| l.contains_key(b) implies l[b] == r[b] by {
                    let p = next.position_of(b);
                    assert(0 <= p < next.keys().len() && next.keys()[p] == b);
                    if b != new_board {
                        assert(p != i);
                    }
                }
                assert(l =~= r);
            }
        },
        None => {
            let mut entry = StageEntry { queues: Vec::new(), preds: Vec::new() };
            absorb(&mut entry, new_queues, old_board);
            let ghost old_keys = next.keys();
            next.push(new_board, entry);
            proof {
                next.lemma_wf();
                let l = stage_view(next);
                let r = add_event(before, e);
                assert(Seq::<QueueState>::empty().to_set() =~= Set::<QueueState>::empty());
                assert(Seq::<Board>::empty().to_set() =~= Set::<Board>::empty());
                assert(Set::<QueueState>::empty().union(new_queues@.to_set()) =~= new_queues@.to_set());
                assert(Set::<Board>::empty().insert(old_board) =~= set![old_board]);
                assert(next.keys()[old_keys.len() as int] == new_board);
                assert forall|b: Board| l.contains_key(b) <==> r.contains_key(b) by {
                    if old_keys.contains(b) {
                        let p = choose|p: int| 0 <= p < old_keys.len() && old_keys[p] == b;
                        assert(next.keys()[p] == b);
                    }
                    if next.keys().contains(b) && b != new_board {
                        let p = choose|p: int| 0 <= p < next.keys().len() && next.keys()[p] == b;
                        assert(old_keys[p] == b);
                    }
                }
                assert forall|b: Board| l.contains_key(b) implies l[b] == r[b] by {
                    let p = next.position_of(b);
                    assert(0 <= p < next.keys().len() && next.keys()[p] == b);
                    if b != new_board {
                        assert(old_keys[p] == b);
                        assert(old(next).position_of(b) == p);
                    } else {
                        assert(p == old_keys.len());
                    }
                }
                assert(l =~= r);
            }
        },
    }
}

/// The steps from `old_board` to the first `upto` boards of `list` with the
/// queue in one of `states`.
pub open spec fn steps_to(list: Seq<Board>, states: Set<QueueState>, old_board: Board, upto: int) -> Set<
    Event,
> {
    Set::new(
        |e: Event| e.from == old_board && e.states == states && list.take(upto).contains(e.to),
    )
}

/// Records, for each board of `new_boards`, that it is reached from
/// `old_board` with the queue in one of `new_queues`.
pub fn feed(
    next: &mut ScanStage,
    new_boards: &Vec<Board>,
    new_queues: &Vec<QueueState>,
    old_board: Board,
    events: Ghost<Set<Event>>,
)
    requires
        old(next).wf(),
        stage_view(old(next)) == summarize(events@),
    ensures
        final(next).wf(),
        stage_view(final(next)) == summarize(
            events@.union(
                steps_to(new_boards@, new_queues@.to_set(), old_board, new_boards@.len() as int),
            ),
        ),
{
    let ghost states = new_queues@.to_set();
    let mut m: usize = 0;
    assert(events@.union(steps_to(new_boards@, states, old_board, 0)) =~= events@);
    while m < new_boards.len()
        invariant
            m <= new_boards.len(),
            next.wf(),
            states == new_queues@.to_set(),
            stage_view(next) == summarize(
                events@.union(steps_to(new_boards@, states, old_board, m as int)),
            ),
        decreases new_boards.len() - m,
    {
        let new_board = new_boards[m];
        merge_one(next, new_board, new_queues, old_board);
        proof {
            let e = Event { to: new_board, states, from: old_board };
            let before = events@.union(steps_to(new_boards@, states, old_board, m as int));
            let now = events@.union(steps_to(new_boards@, states, old_board, m + 1));
            lemma_summarize_insert(before, e);
            let shorter = new_boards@.take(m as int);
            let longer = new_boards@.take(m + 1);
            assert(longer =~= shorter.push(new_board));
            assert(longer[m as int] == new_board);
            assert forall|x: Event| before.insert(e).contains(x) <==> now.contains(x) by {
                if shorter.contains(x.to) {
                    let j = choose|j: int| 0 <= j < shorter.len() && shorter[j] == x.to;
                    assert(longer[j] == x.to);
                }
                if longer.contains(x.to) && x.to != new_board {
                    let j = choose|j: int| 0 <= j < longer.len() && longer[j] == x.to;
                    assert(shorter[j] == x.to);
                }
            }
            assert(before.insert(e) =~= now);
        }
        m = m + 1;
    }
}

/// The steps of the scan that start at one of the first `upto` boards of
/// `keys`.
pub open spec fn steps_from_first(
    graph: &FrozenGigapan,
    prev: StageView,
    bag: &Bag,
    is_first: bool,
    use_hold: bool,
    keys: Seq<Board>,
    upto: int,
) -> Set<Event> {
    Set::new(
        |e: Event|
            keys.take(upto).contains(e.from) && is_step_below(
                graph,
                prev,
                bag,
                is_first,
                use_hold,
                e,
                7,
            ),
    )
}

/// The steps of the scan that start at `old_board` for one of the first
/// `upto` shapes.
pub open spec fn steps_of_board(
    graph: &FrozenGigapan,
    prev: StageView,
    bag: &Bag,
    is_first: bool,
    use_hold: bool,
    old_board: Board,
    upto: nat,
) -> Set<Event> {
    Set::new(
        |e: Event|
            e.from == old_board && is_step_below(graph, prev, bag, is_first, use_hold, e, upto),
    )
}

/// The next stage of the scan: every board that the graph leads to from a
/// board of `prev` by a shape with which the queue can move on.
pub fn scan_step(
    gigapan: &FrozenGigapan,
    prev: &ScanStage,
    bag: &Bag,
    is_first: bool,
    use_hold: bool,
) -> (next: ScanStage)
    requires
        gigapan.wf(),
        prev.wf(),
    ensures
        next.wf(),
        stage_view(&next) == summarize(
            step_events(gigapan, stage_view(prev), bag, is_first, use_hold),
        ),
{
    let ghost view = stage_view(prev);
    let ghost keys = prev.keys();
    let mut next: ScanStage = BoardMap::new();
    let ghost mut events: Set<Event> = Set::empty();
    proof {
        prev.lemma_wf();
        assert(stage_view(&next) =~= summarize(events));
        assert(events =~= steps_from_first(gigapan, view, bag, is_first, use_hold, keys, 0));
    }
    let mut i: usize = 0;
    while i < prev.len()
        invariant
            i <= prev.keys().len(),
            gigapan.wf(),
            prev.wf(),
            next.wf(),
            view == stage_view(prev),
            keys == prev.keys(),
            stage_view(&next) == summarize(events),
            events == steps_from_first(gigapan, view, bag, is_first, use_hold, keys, i as int),
        decreases prev.keys().len() - i,
    {
        let old_board = prev.key_at(i);
        let entry = prev.value_at(i);
        let ghost base = events;
        proof {
            prev.lemma_wf();
            assert(prev.position_of(old_board) == i);
            assert(prev.has(old_board));
            assert(view[old_board] == entry_sets(*entry));
            assert(base.union(
                steps_of_board(gigapan, view, bag, is_first, use_hold, old_board, 0),
            ) =~= base);
        }
        let edges = gigapan.get(old_board);
        let mut j: usize = 0;
        while j < 7
            invariant
                j <= 7,
                gigapan.wf(),
                next.wf(),
                match edges {
                    Some(lists) => gigapan.has(old_board) && *lists == gigapan.value_of(old_board),
                    None => !gigapan.has(old_board),
                },
                view[old_board] == entry_sets(*entry),
                stage_view(&next) == summarize(events),
                events == base.union(
                    steps_of_board(gigapan, view, bag, is_first, use_hold, old_board, j as nat),
                ),
            decreases 7 - j,
        {
            let shape = Shape::from_index(j).unwrap();
            let new_queues = bag.take(&entry.queues, shape, is_first, use_hold);
            let ghost states = new_queues@.to_set();
            let ghost list = successors(gigapan, old_board, shape);
            let ghost before = events;
            proof {
                crate::shape::lemma_shape_at(j as int);
                assert forall|t: QueueState|
                    states.contains(t) <==> moved(
                        bag,
                        view[old_board].states,
                        shape,
                        is_first,
                        use_hold,
                    ).contains(t) by {
                    lemma_take_contains(bag, entry.queues@, shape, is_first, use_hold, t);
                    if states.contains(t) {
                        let x = choose|x: int|
                            0 <= x < entry.queues@.len() && #[trigger] after(
                                bag,
                                entry.queues@[x],
                                shape,
                                is_first,
                                use_hold,
                            ).contains(t);
                        assert(entry.queues@.contains(entry.queues@[x]));
                    }
                    if moved(bag, view[old_board].states, shape, is_first, use_hold).contains(t) {
                        let q = choose|q: QueueState|
                            view[old_board].states.contains(q) && #[trigger] after(
                                bag,
                                q,
                                shape,
                                is_first,
                                use_hold,
                            ).contains(t);
                        let x = choose|x: int| 0 <= x < entry.queues@.len() && entry.queues@[x] == q;
                        assert(after(bag, entry.queues@[x], shape, is_first, use_hold).contains(t));
                    }
                }
                assert(states =~= moved(bag, view[old_board].states, shape, is_first, use_hold));
            }
            if new_queues.len() > 0 {
                proof {
                    assert(states.contains(new_queues@[0]));
                }
                match edges {
                    Some(lists) => {
                        feed(&mut next, &lists[j], &new_queues, old_board, Ghost(events));
                        proof {
                            events = events.union(
                                steps_to(list, states, old_board, list.len() as int),
                            );
                        }
                    },
                    None => {},
                }
            }
            proof {
                let target = base.union(
                    steps_of_board(
                        gigapan,
                        view,
                        bag,
                        is_first,
                        use_hold,
                        old_board,
                        (j + 1) as nat,
                    ),
                );
                assert(list.take(list.len() as int) =~= list);
                assert forall|e: Event| events.contains(e) <==> target.contains(e) by {
                    if new_queues@.len() == 0 {
                        if nonempty(states) {
                            let t = choose|t: QueueState| states.contains(t);
                            let x = choose|x: int| 0 <= x < new_queues@.len() && new_queues@[x] == t;
                        }
                    }
                }
                assert(events =~= target);
            }
            j = j + 1;
        }
        proof {
            let target = steps_from_first(gigapan, view, bag, is_first, use_hold, keys, i + 1);
            let shorter = keys.take(i as int);
            let longer = keys.take(i + 1);
            assert(longer =~= shorter.push(old_board));
            assert(longer[i as int] == old_board);
            assert forall|e: Event| events.contains(e) <==> target.contains(e) by {
                if shorter.contains(e.from) {
                    let x = choose|x: int| 0 <= x < shorter.len() && shorter[x] == e.from;
                    assert(longer[x] == e.from);
                }
                if longer.contains(e.from) && e.from != old_board {
                    let x = choose|x: int| 0 <= x < longer.len() && longer[x] == e.from;
                    assert(shorter[x] == e.from);
                }
            }
            assert(events =~= target);
        }
        i = i + 1;
    }
    proof {
        assert(keys.take(keys.len() as int) =~= keys);
        assert(events =~= step_events(gigapan, view, bag, is_first, use_hold));
    }
    next
}


/// Adds every board of `boards` to `culled`.
pub fn insert_all(culled: &mut BoardSet, boards: &Vec<Board>)
    ensures
        final(culled)@ == old(culled)@.union(boards@.to_set()),
{
    let mut i: usize = 0;
    assert(old(culled)@.union(boards@.take(0).to_set()) =~= old(culled)@);
    while i < boards.len()
        invariant
            i <= boards.len(),
            culled@ == old(culled)@.union(boards@.take(i as int).to_set()),
        decreases boards.len() - i,
    {
        let board = boards[i];
        culled.insert(board);
        proof {
            let shorter = boards@.take(i as int);
            let longer = boards@.take(i + 1);
            assert(longer =~= shorter.push(board));
            assert(longer[i as int] == board);
            assert forall|b: Board|
                culled@.contains(b) <==> old(culled)@.union(longer.to_set()).contains(b) by {
                if shorter.contains(b) {
                    let x = choose|x: int| 0 <= x < shorter.len() && shorter[x] == b;
                    assert(longer[x] == b);
                }
                if longer.contains(b) && b != board {
                    let x = choose|x: int| 0 <= x < longer.len() && longer[x] == b;
                    assert(shorter[x] == b);
                }
            }
            assert(culled@ =~= old(culled)@.union(longer.to_set()));
        }
        i = i + 1;
    }
    assert(boards@.take(boards@.len() as int) =~= boards@);
}

/// Marks every board of the last stage, and every board that one of them
/// was reached from.
pub fn mark_last_stage(last: &ScanStage, culled: &mut BoardSet)
    requires
        last.wf(),
    ensures
        final(culled)@ == old(culled)@.union(mark_last(stage_view(last))),
{
    let ghost view = stage_view(last);
    let ghost keys = last.keys();
    let ghost values = last.values();
    let ghost start = culled@;
    let mut i: usize = 0;
    proof {
        last.lemma_wf();
    }
    while i < last.len()
        invariant
            i <= last.keys().len(),
            last.wf(),
            keys == last.keys(),
            values == last.values(),
            forall|b: Board|
                #[trigger] culled@.contains(b) <==> start.contains(b) || (exists|x: int|
                    0 <= x < i && #[trigger] keys[x] == b) || (exists|x: int|
                    0 <= x < i && (#[trigger] values[x]).preds@.contains(b)),
        decreases last.keys().len() - i,
    {
        let board = last.key_at(i);
        let entry = last.value_at(i);
        let ghost before = culled@;
        culled.insert(board);
        insert_all(culled, &entry.preds);
        proof {
            assert forall|b: Board|
                #[trigger] culled@.contains(b) <==> start.contains(b) || (exists|x: int|
                    0 <= x < i + 1 && #[trigger] keys[x] == b) || (exists|x: int|
                    0 <= x < i + 1 && (#[trigger] values[x]).preds@.contains(b)) by {
                if culled@.contains(b) {
                    if before.contains(b) {
                        if exists|x: int| 0 <= x < i && #[trigger] keys[x] == b {
                            let x = choose|x: int| 0 <= x < i && #[trigger] keys[x] == b;
                            assert(0 <= x < i + 1 && keys[x] == b);
                        } else if exists|x: int|
                            0 <= x < i && (#[trigger] values[x]).preds@.contains(b) {
                            let x = choose|x: int|
                                0 <= x < i && (#[trigger] values[x]).preds@.contains(b);
                            assert(0 <= x < i + 1 && values[x].preds@.contains(b));
                        }
                    } else if b == board {
                        assert(keys[i as int] == b);
                    } else {
                        assert(values[i as int].preds@.contains(b));
                    }
                }
                if exists|x: int| 0 <= x < i + 1 && #[trigger] keys[x] == b {
                    let x = choose|x: int| 0 <= x < i + 1 && #[trigger] keys[x] == b;
                    if x < i {
                        assert(before.contains(b));
                    }
                }
                if exists|x: int| 0 <= x < i + 1 && (#[trigger] values[x]).preds@.contains(b) {
                    let x = choose|x: int|
                        0 <= x < i + 1 && (#[trigger] values[x]).preds@.contains(b);
                    if x < i {
                        assert(before.contains(b));
                    }
                }
            }
        }
        i = i + 1;
    }
    proof {
        let target = start.union(mark_last(view));
        assert forall|b: Board| #[trigger] culled@.contains(b) <==> target.contains(b) by {
            if exists|x: int| 0 <= x < i && #[trigger] keys[x] == b {
                let x = choose|x: int| 0 <= x < i && #[trigger] keys[x] == b;
                assert(last.has(keys[x]));
            }
            if exists|x: int| 0 <= x < i && (#[trigger] values[x]).preds@.contains(b) {
                let x = choose|x: int| 0 <= x < i && (#[trigger] values[x]).preds@.contains(b);
                assert(last.has(keys[x]));
                assert(last.position_of(keys[x]) == x);
                assert(view.contains_key(keys[x]));
                assert(view[keys[x]].preds.contains(b));
            }
            if mark_last(view).contains(b) {
                if view.contains_key(b) {
                    let x = last.position_of(b);
                    assert(0 <= x < keys.len() && keys[x] == b);
                } else {
                    let c = choose|c: Board|
                        view.contains_key(c) && (#[trigger] view[c]).preds.contains(b);
                    let x = last.position_of(c);
                    assert(0 <= x < keys.len() && keys[x] == c);
                    assert(values[x].preds@.contains(b));
                }
            }
        }
        assert(culled@ =~= target);
    }
}

/// Marks every board that a marked board of `stage` was reached from.
pub fn mark_stage(stage: &ScanStage, culled: &mut BoardSet)
    requires
        stage.wf(),
    ensures
        final(culled)@ == mark_step(old(culled)@, stage_view(stage)),
{
    let ghost view = stage_view(stage);
    let ghost keys = stage.keys();
    let ghost values = stage.values();
    let ghost marked = culled@;
    let mut add: Vec<Board> = Vec::new();
    let mut i: usize = 0;
    proof {
        stage.lemma_wf();
    }
    while i < stage.len()
        invariant
            i <= stage.keys().len(),
            stage.wf(),
            keys == stage.keys(),
            values == stage.values(),
            culled@ == marked,
            forall|b: Board|
                add@.contains(b) <==> exists|x: int|
                    0 <= x < i && marked.contains(keys[x]) && (#[trigger] values[x]).preds@.contains(
                        b,
                    ),
        decreases stage.keys().len() - i,
    {
        let board = stage.key_at(i);
        let entry = stage.value_at(i);
        let ghost before = add@;
        if culled.contains(board) {
            let mut j: usize = 0;
            while j < entry.preds.len()
                invariant
                    j <= entry.preds.len(),
                    add@ == before + entry.preds@.take(j as int),
                decreases entry.preds.len() - j,
            {
                add.push(entry.preds[j]);
                assert(entry.preds@.take(j + 1) =~= entry.preds@.take(j as int).push(
                    entry.preds@[j as int],
                ));
                assert(add@ =~= before + entry.preds@.take(j + 1));
                j = j + 1;
            }
            assert(entry.preds@.take(entry.preds@.len() as int) =~= entry.preds@);
        }
        proof {
            assert forall|b: Board|
                add@.contains(b) <==> exists|x: int|
                    0 <= x < i + 1 && marked.contains(keys[x]) && (#[trigger] values[x]).preds@.contains(
                        b,
                    ) by {
                if add@.contains(b) {
                    let y = choose|y: int| 0 <= y < add@.len() && add@[y] == b;
                    if y < before.len() {
                        assert(before[y] == b);
                        assert(before.contains(b));
                        let x = choose|x: int|
                            0 <= x < i && marked.contains(keys[x]) && (#[trigger] values[x]).preds@.contains(
                                b,
                            );
                        assert(0 <= x < i + 1);
                    } else {
                        assert(marked.contains(board));
                        assert(entry.preds@[y - before.len()] == b);
                        assert(values[i as int].preds@.contains(b));
                    }
                }
                if exists|x: int|
                    0 <= x < i + 1 && marked.contains(keys[x]) && (#[trigger] values[x]).preds@.contains(
                        b,
                    ) {
                    let x = choose|x: int|
                        0 <= x < i + 1 && marked.contains(keys[x]) && (#[trigger] values[x]).preds@.contains(
                            b,
                        );
                    if x < i {
                        assert(before.contains(b));
                        let y = choose|y: int| 0 <= y < before.len() && before[y] == b;
                        assert(add@[y] == b);
                    } else {
                        let y = choose|y: int| 0 <= y < entry.preds@.len() && entry.preds@[y] == b;
                        assert(add@[before.len() + y] == b);
                    }
                }
            }
        }
        i = i + 1;
    }
    insert_all(culled, &add);
    proof {
        let target = mark_step(marked, view);
        assert forall|b: Board| culled@.contains(b) <==> target.contains(b) by {
            if add@.contains(b) {
                let x = choose|x: int|
                    0 <= x < i && marked.contains(keys[x]) && (#[trigger] values[x]).preds@.contains(b);
                assert(stage.has(keys[x]));
                assert(stage.position_of(keys[x]) == x);
                assert(view.contains_key(keys[x]) && view[keys[x]].preds.contains(b));
            }
            if target.contains(b) && !marked.contains(b) {
                let c = choose|c: Board|
                    view.contains_key(c) && marked.contains(c) && (#[trigger] view[c]).preds.contains(
                        b,
                    );
                let x = stage.position_of(c);
                assert(0 <= x < keys.len() && keys[x] == c);
                assert(values[x].preds@.contains(b));
            }
        }
        assert(culled@ =~= target);
    }
}

/// The culled set of a queue: the boards that lie on some way from `start`
/// to the one board that the whole queue leads to. It scans forward stage
/// by stage, one stage for each entry of `counted_bags` after the first,
/// and then sweeps back over the stages. `None` where the last stage does
/// not hold exactly one board.
pub fn get_culled_boards(
    gigapan: &FrozenGigapan,
    start: Board,
    counted_bags: &[(u8, Bag)],
    use_hold: bool,
) -> (r: Option<BoardSet>)
    requires
        gigapan.wf(),
        counted_bags@.len() > 0,
    ensures
        match r {
            Some(culled) => ends_in_one_board(gigapan, start, counted_bags@, use_hold) && culled@
                == culled_boards(gigapan, start, counted_bags@, use_hold),
            None => !ends_in_one_board(gigapan, start, counted_bags@, use_hold),
        },
{
    let ghost bags = counted_bags@;
    let mut stages: Vec<ScanStage> = Vec::new();
    let mut prev: ScanStage = BoardMap::new();
    let first_queues = counted_bags[0].1.init_hold();
    prev.push(start, StageEntry { queues: first_queues, preds: Vec::new() });
    proof {
        prev.lemma_wf();
        let l = stage_view(&prev);
        let r = stage(gigapan, start, bags, use_hold, 0);
        assert(prev.keys()[0] == start);
        assert(prev.position_of(start) == 0);
        assert(Seq::<Board>::empty().to_set() =~= Set::<Board>::empty());
        assert forall|b: Board| l.contains_key(b) <==> r.contains_key(b) by {
            if prev.has(b) {
                let x = choose|x: int| 0 <= x < prev.keys().len() && prev.keys()[x] == b;
            }
        }
        assert(l =~= r);
    }
    let mut k: usize = 1;
    while k < counted_bags.len()
        invariant
            1 <= k <= counted_bags@.len(),
            bags == counted_bags@,
            gigapan.wf(),
            prev.wf(),
            stage_view(&prev) == stage(gigapan, start, bags, use_hold, (k - 1) as nat),
            stages@.len() == k - 1,
            forall|i: int|
                0 <= i < stages@.len() ==> (#[trigger] stages@[i]).wf() && stage_view(&stages@[i])
                    == stage(gigapan, start, bags, use_hold, i as nat),
        decreases counted_bags@.len() - k,
    {
        let entry = &counted_bags[k];
        let next = scan_step(gigapan, &prev, &entry.1, entry.0 == 0, use_hold);
        stages.push(prev);
        prev = next;
        k = k + 1;
    }
    let ghost last = (bags.len() - 1) as nat;
    proof {
        prev.lemma_wf();
        let view = stage_view(&prev);
        if prev.keys().len() == 1 {
            let b = prev.keys()[0];
            assert forall|c: Board| view.dom().contains(c) <==> set![b].contains(c) by {
                if prev.has(c) {
                    let x = choose|x: int| 0 <= x < prev.keys().len() && prev.keys()[x] == c;
                }
            }
            assert(view.dom() =~= set![b]);
        } else if prev.keys().len() == 0 {
            assert forall|b: Board| view.dom() != set![b] by {
                assert(set![b].contains(b));
                if prev.has(b) {
                    let x = choose|x: int| 0 <= x < prev.keys().len() && prev.keys()[x] == b;
                }
            }
        } else {
            assert forall|b: Board| view.dom() != set![b] by {
                assert(prev.has(prev.keys()[0]));
                assert(prev.has(prev.keys()[1]));
                assert(view.dom().contains(prev.keys()[0]));
                assert(view.dom().contains(prev.keys()[1]));
                assert(prev.keys()[0] != prev.keys()[1]);
            }
        }
    }
    if prev.len() != 1 {
        return None;
    }
    let mut culled = BoardSet::new();
    mark_last_stage(&prev, &mut culled);
    assert(culled@ =~= marked_from(gigapan, start, bags, use_hold, last));
    let mut idx: usize = stages.len();
    while idx > 0
        invariant
            idx <= stages@.len(),
            stages@.len() + 1 == bags.len(),
            culled@ == marked_from(gigapan, start, bags, use_hold, idx as nat),
            forall|i: int|
                0 <= i < stages@.len() ==> (#[trigger] stages@[i]).wf() && stage_view(&stages@[i])
                    == stage(gigapan, start, bags, use_hold, i as nat),
        decreases idx,
    {
        idx = idx - 1;
        assert(stages@[idx as int].wf());
        mark_stage(&stages[idx], &mut culled);
    }
    Some(culled)
}

} // verus!
