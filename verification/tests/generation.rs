use dice_wars::board::{Board, BoardGenSettings};
use dice_wars::hex::Hex;

#[test]
fn generated_board_is_consistent() {
    // end to end: two players on a radius-10 disk
    let settings = BoardGenSettings { player_count: 2, board_size: 10 };
    let (board, tiles) = Board::generate(&settings);
    let (turn, scores) = board.scores();
    assert_eq!(turn, 0);
    assert_eq!(scores.len(), 2);
    // the order is a permutation of the two player ids
    let ids: Vec<usize> = scores.iter().map(|s| s.0).collect();
    assert!(ids.contains(&0) && ids.contains(&1));
    // every territory has an owner among the players
    let n = board.territory_count();
    assert_eq!(n, tiles.len());
    for t in 0..n {
        assert!(board.owner(t) == 0 || board.owner(t) == 1);
    }
    // the per-player counts add up to the whole board
    let total: u32 = scores.iter().map(|s| s.1).sum();
    assert_eq!(total as usize, n);
}

#[test]
fn generated_adjacency_is_symmetric_and_irreflexive() {
    let settings = BoardGenSettings { player_count: 3, board_size: 10 };
    let (board, _tiles) = Board::generate(&settings);
    let n = board.territory_count();
    for i in 0..n {
        let conn = board.connections(i);
        for &k in conn.iter() {
            assert!(k != i, "territory {} connects to itself", i);
            assert!(k < n);
            assert!(
                board.connections(k).contains(&i),
                "connection {} -> {} has no reverse",
                i,
                k
            );
        }
        // each neighbour is listed once
        for a in 0..conn.len() {
            for b in (a + 1)..conn.len() {
                assert_ne!(conn[a], conn[b]);
            }
        }
        // the graph is connected: every territory after the first borders
        // an earlier one
        if i > 0 {
            assert!(conn.iter().any(|&k| k < i));
        }
    }
}

#[test]
fn generated_forces_respect_the_cap() {
    let settings = BoardGenSettings { player_count: 2, board_size: 10 };
    let (mut board, _tiles) = Board::generate(&settings);
    let n = board.territory_count();
    for t in 0..n {
        assert!(1 <= board.dice(t) && board.dice(t) <= 8);
    }
    // and the cap still holds after a round of reinforcement
    for _ in 0..4 {
        if board.scores().1.len() > 0 {
            board.finish_turn();
        }
    }
    for t in 0..n {
        assert!(board.dice(t) <= 8);
    }
}

#[test]
fn generated_cells_form_a_partition() {
    let settings = BoardGenSettings { player_count: 2, board_size: 10 };
    let (board, tiles) = Board::generate(&settings);
    assert_eq!(board.territory_count(), tiles.len());
    assert!(tiles.len() <= 25);
    let mut seen: Vec<(i32, i32)> = Vec::new();
    for cells in tiles.iter() {
        // a discarded territory leaves nothing behind; kept ones have cells
        assert!(!cells.is_empty());
        for c in cells.iter() {
            // valid cube coordinates inside the disk
            assert_eq!(c.q + c.r + c.s, 0);
            let dist = c.q.abs().max(c.r.abs()).max(c.s.abs());
            assert!(dist < 10);
            // claimed by one territory only
            assert!(!seen.contains(&(c.q, c.r)), "cell claimed twice");
            seen.push((c.q, c.r));
        }
    }
}

#[test]
fn generation_survives_a_degenerate_board_size() {
    // a radius-1 disk cannot fit the growth budget: the first territory is
    // kept as far as it grew (the origin alone), so one territory comes out
    let settings = BoardGenSettings { player_count: 2, board_size: 1 };
    let (board, tiles) = Board::generate(&settings);
    assert_eq!(board.territory_count(), tiles.len());
    assert_eq!(tiles.len(), 1);
    assert_eq!(tiles[0], vec![Hex::new(0, 0, 0)]);
    let (turn, scores) = board.scores();
    assert_eq!(turn, 0);
    assert_eq!(scores.len(), 2);
}

#[test]
fn generated_ownership_is_balanced() {
    // the round-robin deal leaves the per-player counts within one
    let settings = BoardGenSettings { player_count: 3, board_size: 10 };
    let (board, _tiles) = Board::generate(&settings);
    let counts: Vec<u32> = board.scores().1.iter().map(|s| s.1).collect();
    let lo = *counts.iter().min().unwrap();
    let hi = *counts.iter().max().unwrap();
    assert!(hi <= lo + 1);
}

#[test]
fn generated_forces_match_the_pool() {
    // each player's starting force is one die per territory plus a pool of
    // 2 * territories / players, spent to the cap of 8
    let settings = BoardGenSettings { player_count: 2, board_size: 10 };
    let (board, _tiles) = Board::generate(&settings);
    let n = board.territory_count();
    let pool = (2 * n / 2) as u32;
    for player in 0..2 {
        let mut count: u32 = 0;
        let mut force: u32 = 0;
        for t in 0..n {
            if board.owner(t) == player {
                count += 1;
                force += board.dice(t);
            }
        }
        assert_eq!(force, count + pool.min(7 * count));
    }
}

#[test]
fn generation_with_one_player() {
    let settings = BoardGenSettings { player_count: 1, board_size: 8 };
    let (board, _tiles) = Board::generate(&settings);
    let (_, scores) = board.scores();
    assert_eq!(scores.len(), 1);
    assert_eq!(scores[0].0, 0);
    for t in 0..board.territory_count() {
        assert_eq!(board.owner(t), 0);
    }
}

#[test]
fn hex_arithmetic() {
    let h = Hex::new(2, -3, 1);
    assert_eq!((h.q, h.r, h.s), (2, -3, 1));
    let dirs = Hex::orthogonal();
    assert_eq!(dirs.len(), 6);
    for d in dirs.iter() {
        assert_eq!(d.q + d.r + d.s, 0);
        // offsets are unit steps
        assert_eq!(d.q.abs().max(d.r.abs()).max(d.s.abs()), 1);
        // each offset has its opposite among the six
        assert!(dirs.iter().any(|e| e.q == -d.q && e.r == -d.r && e.s == -d.s));
    }
    let sum = h.plus(&dirs[0]);
    assert_eq!((sum.q, sum.r, sum.s), (3, -4, 1));
    assert_eq!(h.dist_from_origin(), 3);
    assert_eq!(Hex::new(0, 0, 0).dist_from_origin(), 0);
}
