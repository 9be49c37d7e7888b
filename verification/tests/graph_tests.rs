use gigapan::board::Board;
use gigapan::board_list::{read, read_graph, write_graph};
use gigapan::board_map::BoardMap;
use gigapan::boardgraph::{no_edges, Gigapan};
use gigapan::builder::{
    compute_gigapan, is_valid_placement, record_placements, sweep_back, BuildError, PredStage,
};
use gigapan::field::board_from_cells;
use gigapan::leb::LebError;
use gigapan::shape::Shape;
use gigapan::shards::{read_gigapan, write_pan};

const FULL: u64 = 0xFF_FFFF_FFFF;

fn column(n: u32) -> u64 {
    let mut mask = 0u64;
    for row in 0..4 {
        mask |= 1u64 << (10 * row + n);
    }
    mask
}

fn columns(n: u32) -> u64 {
    (0..n).fold(0, |mask, c| mask | column(c))
}

/// On a board whose first `n` columns are filled, an I piece fills the
/// next column; an O piece is offered too, on a board that is dead.
fn place_columns(board: Board, shape: Shape) -> Vec<(Board, bool)> {
    let mut n = 0;
    while n < 10 && board.0 == columns(n) | board.0 && board.0 != columns(n) {
        n += 1;
    }
    if n == 10 || board.0 != columns(n) {
        return Vec::new();
    }
    match shape {
        Shape::I => vec![(Board(columns(n + 1)), true), (Board(columns(n + 1)), true)],
        Shape::O => vec![(Board(board.0 | (0b11 << n) | (0b11 << (n + 10))), false)],
        _ => Vec::new(),
    }
}

#[test]
fn leb_bytes_match_examples() {
    assert_eq!(gigapan::board_list::write(&[]), vec![0]);
    assert_eq!(gigapan::board_list::write(&[Board(2)]), vec![1, 2]);
    assert_eq!(gigapan::board_list::write(&[Board(127), Board(255)]), vec![2, 127, 128, 1]);
    assert_eq!(gigapan::board_list::write(&[Board(624485)]), vec![1, 0xE5, 0x8E, 0x26]);
    assert_eq!(
        gigapan::board_list::write(&[Board(u64::MAX)]),
        vec![1, 255, 255, 255, 255, 255, 255, 255, 255, 255, 1]
    );
}

#[test]
fn board_list_round_trip() {
    let boards = vec![Board(0), Board(5), Board(5), Board(300), Board(FULL), Board(u64::MAX)];
    let bytes = gigapan::board_list::write(&boards);
    assert_eq!(read(&bytes), Ok(boards));
    assert_eq!(read(&[2, 5, 1]), Ok(vec![Board(5), Board(6)]));
    assert_eq!(read(&[2, 5, 1, 99]), Ok(vec![Board(5), Board(6)]));
}

#[test]
fn board_list_read_errors() {
    assert_eq!(read(&[]), Err(LebError::Truncated));
    assert_eq!(read(&[2, 5]), Err(LebError::Truncated));
    assert_eq!(read(&[1, 0x80]), Err(LebError::Truncated));
    let too_long = [1, 255, 255, 255, 255, 255, 255, 255, 255, 255, 2];
    assert_eq!(read(&too_long), Err(LebError::Overflow));
    let unfinished = [1, 255, 255, 255, 255, 255, 255, 255, 255, 255, 0x82];
    assert_eq!(read(&unfinished), Err(LebError::Truncated));
    let sum = [2, 255, 255, 255, 255, 255, 255, 255, 255, 255, 1, 1];
    assert_eq!(read(&sum), Err(LebError::Overflow));
}

#[test]
fn graph_bytes_use_wrapping_differences() {
    let mut edges = no_edges();
    edges[0].push(Board(12));
    edges[0].push(Board(8));
    edges[6].push(Board(10));
    let nodes = vec![(Board(10), edges)];
    let bytes = write_graph(&nodes);
    let mut expected = vec![1, 10, 2, 2];
    expected.extend_from_slice(&[254, 255, 255, 255, 255, 255, 255, 255, 255, 1]);
    expected.extend_from_slice(&[0, 0, 0, 0, 0, 1, 0]);
    assert_eq!(bytes, expected);
    assert_eq!(read_graph(&bytes), Ok(nodes));
}

#[test]
fn graph_round_trip() {
    let mut nodes = Vec::new();
    for i in 0..5u64 {
        let mut edges = no_edges();
        for k in 0..7 {
            for j in 0..(i + k as u64) % 4 {
                edges[k].push(Board(i * 1000 + j * 77 + k as u64));
            }
        }
        nodes.push((Board(i * 900), edges));
    }
    let bytes = write_graph(&nodes);
    assert_eq!(read_graph(&bytes), Ok(nodes));
    assert_eq!(read_graph(&[0]), Ok(vec![]));
    assert_eq!(read_graph(&[1, 4]), Err(LebError::Truncated));
    assert_eq!(read_graph(&[1, 4, 1]), Err(LebError::Truncated));
}

#[test]
fn shards_round_trip() {
    let mut graph: Gigapan = BoardMap::new();
    for i in 0..23u64 {
        let mut edges = no_edges();
        edges[(i % 7) as usize].push(Board(i + 100));
        edges[((i + 3) % 7) as usize].push(Board(i));
        graph.insert(Board(i * 3), edges);
    }
    let shards = write_pan(&graph, 10);
    assert_eq!(shards.len(), 10);
    let back = read_gigapan(&shards).unwrap();
    assert_eq!(back.len(), graph.len());
    for i in 0..graph.len() {
        let board = graph.key_at(i);
        assert_eq!(back.get(board), Some(graph.value_at(i)));
    }
    let mut broken = shards.clone();
    broken[4].pop();
    assert_eq!(read_gigapan(&broken).err(), Some(LebError::Truncated));
    assert_eq!(read_gigapan(&[]).unwrap().len(), 0);
}

#[test]
fn later_shards_go_over_earlier_ones() {
    let mut first = no_edges();
    first[0].push(Board(1));
    let mut second = no_edges();
    second[1].push(Board(2));
    let a = write_graph(&[(Board(7), first)]);
    let b = write_graph(&[(Board(7), second.clone()), (Board(9), no_edges())]);
    let graph = read_gigapan(&[a, b]).unwrap();
    assert_eq!(graph.len(), 2);
    assert_eq!(graph.get(Board(7)), Some(&second));
}

#[test]
fn placements_must_add_four_cells() {
    assert!(is_valid_placement(Board(0), Board(0xF)));
    assert!(!is_valid_placement(Board(0), Board(0x7)));
    assert!(!is_valid_placement(Board(0xF), Board(0xF)));
    assert!(!is_valid_placement(Board(0), Board(0xF << 40)));
    let mut stage: PredStage = BoardMap::new();
    let bad = record_placements(&mut stage, Board(0), Shape::I, &[(Board(0xF), true), (Board(1), true)]);
    assert_eq!(bad, Err(BuildError::BadPlacement));
    assert_eq!(stage.len(), 0);
    let ok = record_placements(
        &mut stage,
        Board(0),
        Shape::I,
        &[(Board(0xF), true), (Board(1), false), (Board(0xF), true), (Board(0xF0), true)],
    );
    assert_eq!(ok, Ok(()));
    assert_eq!(stage.len(), 2);
    assert_eq!(stage.get(Board(0xF)), Some(&vec![(Board(0), Shape::I)]));
    let ok = record_placements(&mut stage, Board(0), Shape::O, &[(Board(0xF), true)]);
    assert_eq!(ok, Ok(()));
    assert_eq!(stage.get(Board(0xF)), Some(&vec![(Board(0), Shape::I), (Board(0), Shape::O)]));
}

#[test]
fn graph_is_built_from_placements() {
    let graph = compute_gigapan(place_columns).unwrap();
    assert_eq!(graph.len(), 10);
    for n in 0..10 {
        let edges = graph.get(Board(columns(n))).unwrap();
        assert_eq!(edges[Shape::I as usize], vec![Board(columns(n + 1))]);
        for k in 1..7 {
            assert!(edges[k].is_empty());
        }
    }
    assert!(graph.get(Board(FULL)).is_none());
    assert_eq!(columns(10), FULL);
    for i in 0..graph.len() {
        let board = graph.key_at(i);
        for list in graph.value_at(i).iter() {
            for next in list {
                assert_eq!(next.count(), board.count() + 4);
                assert!(place_columns(board, Shape::I).contains(&(*next, true)));
            }
        }
    }
}

#[test]
fn graph_needs_the_full_board() {
    let none = compute_gigapan(|_board: Board, _shape: Shape| Vec::new());
    assert_eq!(none.err(), Some(BuildError::NotCleared));
    let bad = compute_gigapan(|board: Board, _shape: Shape| vec![(Board(board.0 | 1), true)]);
    assert_eq!(bad.err(), Some(BuildError::BadPlacement));
    let mut stages: Vec<PredStage> = Vec::new();
    for _ in 0..11 {
        stages.push(BoardMap::new());
    }
    assert_eq!(sweep_back(&stages).err(), Some(BuildError::NotCleared));
    stages[10].insert(Board(FULL), vec![(Board(columns(9)), Shape::I)]);
    stages[9].insert(Board(columns(9)), vec![(Board(columns(8)), Shape::J)]);
    stages[9].insert(Board(5), vec![(Board(columns(8)), Shape::T)]);
    let graph = sweep_back(&stages).unwrap();
    assert_eq!(graph.len(), 2);
    assert_eq!(graph.get(Board(columns(9))).unwrap()[0], vec![Board(FULL)]);
    assert_eq!(graph.get(Board(columns(8))).unwrap()[1], vec![Board(columns(9))]);
    assert!(graph.get(Board(columns(8))).unwrap()[5].is_empty());
    stages[10].insert(Board(3), Vec::new());
    assert_eq!(sweep_back(&stages).err(), Some(BuildError::NotCleared));
}

#[test]
fn field_becomes_a_board() {
    let mut cells = vec![0u8; 240];
    assert_eq!(board_from_cells(&cells), Some(Board(0)));
    cells[0] = 3;
    cells[39] = 8;
    cells[11] = 1;
    assert_eq!(board_from_cells(&cells), Some(Board(1 | (1 << 11) | (1 << 39))));
    cells[40] = 1;
    assert_eq!(board_from_cells(&cells), None);
    cells[40] = 0;
    cells[239] = 2;
    assert_eq!(board_from_cells(&cells), None);
    assert_eq!(board_from_cells(&[0u8; 239]), None);
    assert_eq!(board_from_cells(&[]), None);
}
