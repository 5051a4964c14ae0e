use dice_wars::board::{Board, Territory};

#[test]
fn finish_turn_eliminates_player_without_territories() {
    // player 1 stands at order index 0, before the turn pointer (1):
    // it owns nothing, so it is struck out and the pointer pulls back
    // one step before advancing and wrapping.
    let ts = vec![
        Territory::new(0, 1, vec![1]),
        Territory::new(0, 1, vec![0]),
    ];
    let mut b = Board::from_parts(2, 1, vec![1, 0], ts).expect("valid board");
    b.finish_turn();
    let (turn, scores) = b.scores();
    assert_eq!(scores, vec![(0, 2)]);
    assert_eq!(turn, 0);
}

#[test]
fn finish_turn_reinforces_current_player_by_its_score() {
    // player 0 owns both territories, both below the cap: the full
    // reinforcement of 2 lands somewhere on them
    let ts = vec![
        Territory::new(0, 1, vec![1]),
        Territory::new(0, 1, vec![0]),
    ];
    let mut b = Board::from_parts(2, 1, vec![1, 0], ts).expect("valid board");
    b.finish_turn();
    assert_eq!(b.dice(0) + b.dice(1), 4);
    assert!(b.dice(0) <= 8 && b.dice(1) <= 8);
}

#[test]
fn finish_turn_respects_the_cap() {
    // the single owned territory is already at 8: the pool is discarded
    let ts = vec![Territory::new(0, 8, vec![])];
    let mut b = Board::from_parts(1, 0, vec![0], ts).expect("valid board");
    b.finish_turn();
    assert_eq!(b.dice(0), 8);
    let (turn, scores) = b.scores();
    assert_eq!(scores, vec![(0, 1)]);
    assert_eq!(turn, 0);
}

#[test]
fn finish_turn_advances_and_wraps() {
    let ts = vec![
        Territory::new(0, 1, vec![1]),
        Territory::new(1, 1, vec![0]),
    ];
    let mut b = Board::from_parts(2, 0, vec![0, 1], ts).expect("valid board");
    b.finish_turn();
    assert_eq!(b.scores().0, 1);
    b.finish_turn();
    assert_eq!(b.scores().0, 0);
}

#[test]
fn queries_are_idempotent() {
    let ts = vec![
        Territory::new(0, 2, vec![1]),
        Territory::new(1, 3, vec![0]),
    ];
    let b = Board::from_parts(2, 0, vec![1, 0], ts).expect("valid board");
    assert_eq!(b.scores(), b.scores());
    assert_eq!(b.owner(0), b.owner(0));
    assert_eq!(b.owner(1), b.owner(1));
    assert_eq!(b.current_player(), b.current_player());
}

#[test]
fn from_parts_rejects_invalid_parts() {
    let ok_ts = || vec![Territory::new(0, 1, vec![1]), Territory::new(1, 1, vec![0])];
    // turn pointer out of range
    assert!(Board::from_parts(2, 2, vec![0, 1], ok_ts()).is_none());
    // non-zero turn pointer on an empty order
    assert!(Board::from_parts(2, 1, vec![], ok_ts()).is_none());
    // duplicate player id in the order
    assert!(Board::from_parts(2, 0, vec![0, 0], ok_ts()).is_none());
    // player id out of range
    assert!(Board::from_parts(2, 0, vec![0, 2], ok_ts()).is_none());
    // owner out of range
    let bad_owner = vec![Territory::new(2, 1, vec![])];
    assert!(Board::from_parts(2, 0, vec![0, 1], bad_owner).is_none());
    // force count above the cap
    let bad_dice = vec![Territory::new(0, 9, vec![])];
    assert!(Board::from_parts(2, 0, vec![0, 1], bad_dice).is_none());
    // connection to itself
    let self_conn = vec![Territory::new(0, 1, vec![0])];
    assert!(Board::from_parts(2, 0, vec![0, 1], self_conn).is_none());
    // connection out of range
    let bad_conn = vec![Territory::new(0, 1, vec![5])];
    assert!(Board::from_parts(2, 0, vec![0, 1], bad_conn).is_none());
    // and the valid shape is accepted
    assert!(Board::from_parts(2, 0, vec![0, 1], ok_ts()).is_some());
}

#[test]
fn eliminating_the_current_player_does_not_skip_the_next() {
    // three players in order [2, 0, 1] with the pointer on player 2, who
    // owns nothing: after its removal the pointer must land on player 0,
    // the next survivor, not skip to player 1
    let ts = vec![
        Territory::new(0, 1, vec![1]),
        Territory::new(1, 1, vec![0]),
    ];
    let mut b = Board::from_parts(3, 0, vec![2, 0, 1], ts).expect("valid board");
    b.finish_turn();
    let (turn, scores) = b.scores();
    assert_eq!(scores, vec![(0, 1), (1, 1)]);
    assert_eq!(turn, 0);
}

#[test]
fn current_player_follows_the_order() {
    let ts = vec![
        Territory::new(0, 1, vec![1]),
        Territory::new(1, 1, vec![0]),
    ];
    let b = Board::from_parts(2, 1, vec![1, 0], ts).expect("valid board");
    assert_eq!(b.current_player(), 0);
}
