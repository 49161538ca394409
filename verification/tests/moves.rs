use mancala_solver::mancala::interactive::make_moves;
use mancala_solver::mancala::MancalaGameState;
use mancala_solver::mancala::MancalaMove;

#[test]
fn moves_are_read_in_either_case() {
    assert_eq!(MancalaMove::from_string("A"), Some(MancalaMove::A));
    assert_eq!(MancalaMove::from_string("b"), Some(MancalaMove::B));
    assert_eq!(MancalaMove::from_string("C"), Some(MancalaMove::C));
    assert_eq!(MancalaMove::from_string("d"), Some(MancalaMove::D));
    assert_eq!(MancalaMove::from_string("e"), Some(MancalaMove::E));
    assert_eq!(MancalaMove::from_string("F"), Some(MancalaMove::F));
}

#[test]
fn other_input_is_no_move() {
    assert_eq!(MancalaMove::from_string(""), None);
    assert_eq!(MancalaMove::from_string("G"), None);
    assert_eq!(MancalaMove::from_string("AB"), None);
    assert_eq!(MancalaMove::from_string(" A"), None);
    assert_eq!(MancalaMove::from_string("undo"), None);
    assert_eq!(MancalaMove::from_string("1"), None);
}

#[test]
fn moves_give_their_letter() {
    assert_eq!(MancalaMove::A.to_str(), "A");
    assert_eq!(MancalaMove::B.to_str(), "B");
    assert_eq!(MancalaMove::C.to_str(), "C");
    assert_eq!(MancalaMove::D.to_str(), "D");
    assert_eq!(MancalaMove::E.to_str(), "E");
    assert_eq!(MancalaMove::F.to_str(), "F");
}

#[test]
fn cells_of_either_side_name_the_same_moves() {
    assert_eq!(MancalaMove::from_index(&0), Some(MancalaMove::A));
    assert_eq!(MancalaMove::from_index(&5), Some(MancalaMove::F));
    assert_eq!(MancalaMove::from_index(&6), None);
    assert_eq!(MancalaMove::from_index(&7), Some(MancalaMove::A));
    assert_eq!(MancalaMove::from_index(&9), Some(MancalaMove::C));
    assert_eq!(MancalaMove::from_index(&12), Some(MancalaMove::F));
    assert_eq!(MancalaMove::from_index(&13), None);
    assert_eq!(MancalaMove::from_index(&404), Some(MancalaMove::F));
}

#[test]
fn moves_give_their_place() {
    let all = [
        MancalaMove::A,
        MancalaMove::B,
        MancalaMove::C,
        MancalaMove::D,
        MancalaMove::E,
        MancalaMove::F,
    ];
    for (place, mancala_move) in all.iter().enumerate() {
        assert_eq!(mancala_move.to_index(), place);
        assert_eq!(MancalaMove::from_index(&place), Some(*mancala_move));
        assert_eq!(MancalaMove::from_string(mancala_move.to_str()), Some(*mancala_move));
    }
}

#[test]
fn moves_are_replayed_for_the_player_to_move() {
    let start = MancalaGameState::default();
    assert_eq!(make_moves(start, &vec![]), start);
    // C keeps the turn, so F is the first player's move too; A is then the
    // second player's
    let played = make_moves(start, &vec![MancalaMove::C, MancalaMove::F, MancalaMove::A]);
    let mut expected = start;
    expected.make_move(2, 6, 13);
    assert!(expected.turn);
    expected.make_move(5, 6, 13);
    assert!(!expected.turn);
    expected.make_move(7, 13, 6);
    assert_eq!(played, expected);
    assert_eq!(played.pits.iter().sum::<u32>(), 48);
}
