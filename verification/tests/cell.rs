use numberplace::normal_game::cell::{create_cells, Cell, Position};
use numberplace::normal_game::setting::BlockSize;
use numberplace::normal_game::setting::GameSetting;

fn setting() -> GameSetting {
    GameSetting::new(BlockSize {
        height: 2,
        width: 3,
    })
}

#[test]
fn answer_candidate_is_generated_each_time() {
    let mut candidate1 = setting().answer_candidate();
    let candidate2 = setting().answer_candidate();
    candidate1.remove(0);
    assert_ne!(candidate1, candidate2);
}

#[test]
fn returns_36_cells() {
    assert_eq!(create_cells(&setting()).len(), 36)
}

#[test]
fn first_cell_position_is_0_0() {
    assert_eq!(create_cells(&setting())[0].pos(), Position::new(0, 0));
}

#[test]
fn second_cell_position_is_1_0() {
    assert_eq!(create_cells(&setting())[1].pos(), Position::new(1, 0));
}

#[test]
fn last_cell_position_is_5_5() {
    assert_eq!(create_cells(&setting())[35].pos(), Position::new(5, 5));
}

fn setting_3_3() -> GameSetting {
    GameSetting::new(BlockSize {
        height: 3,
        width: 3,
    })
}

#[test]
fn returns_81_cells() {
    assert_eq!(create_cells(&setting_3_3()).len(), 81)
}

#[test]
fn last_cell_position_is_8_8() {
    assert_eq!(create_cells(&setting_3_3())[80].pos(), Position::new(8, 8));
}

#[test]
fn test_assert_eq() {
    assert_eq!(Position::new(1, 2), Position::new(1, 2));
}

#[test]
fn test_move_right() {
    assert_eq!(Position::new(1, 2).move_x(3), Position::new(4, 2))
}

#[test]
fn test_move_left() {
    assert_eq!(Position::new(1, 2).move_x(-1), Position::new(0, 2))
}

#[test]
fn test_move_y() {
    assert_eq!(Position::new(1, 2).move_y(3), Position::new(1, 5))
}

#[test]
fn cell_can_remove_answer_candidate() {
    let mut cell = Cell::new(Position::new(1, 1), setting().answer_candidate());
    assert_eq!(*cell.answer_candidate(), vec![1, 2, 3, 4, 5, 6]);
    cell.remove_answer_candidate(4);
    assert_eq!(*cell.answer_candidate(), vec![1, 2, 3, 5, 6]);
    cell.remove_answer_candidate(4);
    assert_eq!(*cell.answer_candidate(), vec![1, 2, 3, 5, 6]);
}

#[test]
fn test_remove_all_candidate() {
    let mut cell = Cell::new(Position::new(1, 1), setting().answer_candidate());
    assert_eq!(*cell.answer_candidate(), vec![1, 2, 3, 4, 5, 6]);
    cell.remove_answer_candidate(1);
    cell.remove_answer_candidate(2);
    cell.remove_answer_candidate(3);
    cell.remove_answer_candidate(4);
    cell.remove_answer_candidate(5);
    cell.remove_answer_candidate(6);
    assert_eq!(*cell.answer_candidate(), Vec::<u8>::new());
}

#[test]
fn test_get_lonely() {
    let mut cell = Cell::new(Position::new(1, 1), setting().answer_candidate());
    cell.remove_answer_candidate(1);
    cell.remove_answer_candidate(2);
    cell.remove_answer_candidate(4);
    cell.remove_answer_candidate(5);
    cell.remove_answer_candidate(6);
    assert_eq!(cell.get_lonely(), Some(3));
}

#[test]
fn clear_candidate() {
    let mut cell = Cell::new(Position::new(1, 1), setting().answer_candidate());
    assert_eq!(*cell.answer_candidate(), vec![1, 2, 3, 4, 5, 6]);
    cell.set_answer(4);
    assert_eq!(*cell.answer_candidate(), Vec::<u8>::new());
}

#[test]
fn has_answer_candidate_returns_true_when_candidate_not_exists() {
    let mut cell = Cell::new(Position::new(1, 1), setting().answer_candidate());
    cell.remove_answer_candidate(1);
    cell.remove_answer_candidate(3);
    cell.remove_answer_candidate(5);
    assert_eq!(cell.has_answer_candidate(3), false);
}

#[test]
fn has_answer_candidate_returns_true_when_candidate_exists() {
    let mut cell = Cell::new(Position::new(1, 1), setting().answer_candidate());
    cell.remove_answer_candidate(1);
    cell.remove_answer_candidate(3);
    cell.remove_answer_candidate(5);
    assert_eq!(cell.has_answer_candidate(2), true);
}

#[test]
fn return_answer_if_answered() {
    let mut cell = Cell::new(Position::new(1, 1), setting().answer_candidate());
    cell.set_answer(1);
    assert_eq!(cell.answer(), Some(1));
}

#[test]
fn returns_6_when_cell_has_6_answer_candidate() {
    let cell = Cell::new(Position::new(1, 1), setting().answer_candidate());
    assert_eq!(cell.answer_candidate_count(), 6);
}

#[test]
fn returns_true_when_cell_doesnt_have_answer_candidate() {
    let mut cell = Cell::new(Position::new(1, 1), setting().answer_candidate());
    cell.remove_answer_candidate(1);
    cell.remove_answer_candidate(2);
    cell.remove_answer_candidate(3);
    cell.remove_answer_candidate(4);
    cell.remove_answer_candidate(5);
    cell.remove_answer_candidate(6);
    assert_eq!(cell.answer_candidate_count(), 0);
}

#[test]
fn it_will_become_none_after_deletion() {
    let mut cell = Cell::new(Position::new(1, 1), setting().answer_candidate());
    cell.set_answer(3);
    cell.remove_answer();
    assert_eq!(cell.answer(), None);
}

#[test]
fn it_return_the_removed_answer() {
    let mut cell = Cell::new(Position::new(1, 1), setting().answer_candidate());
    cell.set_answer(3);
    let removed_answer = cell.remove_answer();
    assert_eq!(removed_answer, Some(3));
}

#[test]
fn it_return_none_when_no_answer() {
    let mut cell = Cell::new(Position::new(1, 1), setting().answer_candidate());
    let removed_answer = cell.remove_answer();
    assert_eq!(removed_answer, None);
}

#[test]
fn it_restore_answer_candidate() {
    let mut cell = Cell::new(Position::new(1, 1), setting().answer_candidate());
    cell.remove_answer_candidate(1);
    cell.remove_answer_candidate(2);
    cell.remove_answer_candidate(3);
    cell.restore_answer_candidate(&vec![2, 4, 6]);
    assert_eq!(*cell.answer_candidate(), vec![2, 4, 6]);
}
