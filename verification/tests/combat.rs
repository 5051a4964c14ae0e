use dice_wars::board::{Board, Territory};

fn two_territory_board(owner0: usize, dice0: u32, owner1: usize, dice1: u32) -> Board {
    let ts = vec![
        Territory::new(owner0, dice0, vec![1]),
        Territory::new(owner1, dice1, vec![0]),
    ];
    Board::from_parts(2, 0, vec![0, 1], ts).expect("valid board")
}

#[test]
fn attacker_victory_with_fixed_rolls() {
    // rolls [5,5,5] against [1,1]: the attacker's 15 beats 2
    let mut b = two_territory_board(0, 3, 1, 2);
    b.make_move_with_rolls(0, 1, &vec![5, 5, 5], &vec![1, 1]);
    assert_eq!(b.owner(1), 0);
    assert_eq!(b.dice(1), 2);
    assert_eq!(b.dice(0), 1);
    assert_eq!(b.owner(0), 0);
}

#[test]
fn tie_goes_to_the_defender() {
    // 2 + 2 against 4: equal totals, so the defender holds
    let mut b = two_territory_board(0, 2, 1, 1);
    b.make_move_with_rolls(0, 1, &vec![2, 2], &vec![4]);
    assert_eq!(b.owner(1), 1);
    assert_eq!(b.dice(1), 1);
    assert_eq!(b.dice(0), 1);
}

#[test]
fn defender_victory_leaves_defender_unchanged() {
    let mut b = two_territory_board(0, 2, 1, 1);
    b.make_move_with_rolls(0, 1, &vec![1, 1], &vec![5]);
    assert_eq!(b.owner(1), 1);
    assert_eq!(b.dice(1), 1);
    assert_eq!(b.dice(0), 1);
}

#[test]
fn random_move_has_one_of_two_outcomes() {
    let mut b = two_territory_board(0, 3, 1, 2);
    b.make_move(0, 1);
    let attacker_won = b.owner(1) == 0 && b.dice(1) == 2 && b.dice(0) == 1;
    let defender_won = b.owner(1) == 1 && b.dice(1) == 2 && b.dice(0) == 1;
    assert!(attacker_won || defender_won);
}

#[test]
fn available_moves_one_die_is_empty() {
    // one die cannot attack, adjacency and enmity notwithstanding
    let b = two_territory_board(0, 1, 1, 3);
    assert_eq!(b.available_moves(0), Vec::<usize>::new());
}

#[test]
fn available_moves_not_in_turn_is_empty() {
    // territory 1 belongs to player 1, but it is player 0's turn
    let b = two_territory_board(0, 2, 1, 3);
    assert_eq!(b.available_moves(1), Vec::<usize>::new());
}

#[test]
fn available_moves_lists_only_enemy_neighbours() {
    let ts = vec![
        Territory::new(0, 3, vec![1, 2]),
        Territory::new(0, 1, vec![0, 2]),
        Territory::new(1, 2, vec![0, 1]),
    ];
    let b = Board::from_parts(2, 0, vec![0, 1], ts).expect("valid board");
    assert_eq!(b.available_moves(0), vec![2]);
}
