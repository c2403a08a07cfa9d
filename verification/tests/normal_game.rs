use numberplace::normal_game::cell;
use numberplace::normal_game::cell::Position;
use numberplace::normal_game::setting::BlockSize;
use numberplace::normal_game::setting::GameSetting;
use numberplace::normal_game::NormalGame;

fn setting() -> GameSetting {
    GameSetting::new(BlockSize {
        height: 2,
        width: 3,
    })
}

fn setting_3_3() -> GameSetting {
    GameSetting::new(BlockSize {
        height: 3,
        width: 3,
    })
}

#[test]
fn normal_game_it_answer_candidate_is_1_to_6() {
    assert_eq!(setting().answer_candidate(), vec![1, 2, 3, 4, 5, 6]);
}

#[test]
fn it_has_36_cells() {
    let game = NormalGame::new(setting());
    assert_eq!(game.cells.len(), 36);
}

#[test]
fn it_has_18_groups() {
    let game = NormalGame::new(setting());
    assert_eq!(game.groups.len(), 18);
}

#[test]
fn it_answer_candidate_is_1_to_9() {
    assert_eq!(
        setting_3_3().answer_candidate(),
        vec![1, 2, 3, 4, 5, 6, 7, 8, 9]
    );
}

#[test]
fn it_has_81_cells() {
    let game = NormalGame::new(setting_3_3());
    assert_eq!(game.cells.len(), 81);
}

#[test]
fn it_has_27_groups() {
    let game = NormalGame::new(setting_3_3());
    assert_eq!(game.groups.len(), 27);
}

const GAME_STRING: &str =
    " 7     6 |6   1   3|  54 87  |  8   4  | 1  3  5 |  9   1  |  35 12  |7   2   8| 5     9 ";

fn game() -> NormalGame {
    let mut game = NormalGame::new(setting_3_3());
    game.load(GAME_STRING);
    game
}

#[test]
fn has_81_cells() {
    assert_eq!(game().cells.len(), 81);
}

#[test]
fn none_0_0() {
    assert_eq!(
        game()
            .cells
            .iter()
            .find(|c| c.pos() == cell::Position::new(0, 0))
            .unwrap()
            .answer(),
        None
    );
}

#[test]
fn some_1_0() {
    assert_eq!(
        game()
            .cells
            .iter()
            .find(|c| c.pos() == cell::Position::new(1, 0))
            .unwrap()
            .answer(),
        Some(7)
    );
}

#[test]
fn some_2_0() {
    assert_eq!(
        game()
            .cells
            .iter()
            .find(|c| c.pos() == cell::Position::new(2, 0))
            .unwrap()
            .answer(),
        None
    );
}

#[test]
fn some_7_0() {
    assert_eq!(
        game()
            .cells
            .iter()
            .find(|c| c.pos() == cell::Position::new(7, 0))
            .unwrap()
            .answer(),
        Some(6)
    );
}

#[test]
fn test_to_string() {
    assert_eq!(game().to_string(), GAME_STRING.to_string());
}

#[test]
fn test_load_9_9_2() {
    let mut game = NormalGame::new(setting_3_3());
    game.load("4       1| 5   1 4 |  8 476  | 79|  3 7 2|      59|  681 9| 4 9   7|2       5");
    assert_eq!(
        game.to_string(),
        "4       1| 5   1 4 |  8 476  | 79      |  3 7 2  |      59 |  681 9  | 4 9   7 |2       5"
    )
}

#[test]
fn test_load_12x12() {
    let mut game = NormalGame::new(GameSetting::new(BlockSize {
        height: 3,
        width: 4,
    }));
    game.load(
        " , , ,6, , , , ,8| , , , ,12,10,5,11| , ,10,4, ,9,7, ,1,11|10, ,3, , , , , , ,7, ,12| ,5, , , ,12,10, , , ,9| ,7,8, ,9, , ,2, ,5,10| ,1,7, ,8, , ,6, ,3,4,| ,10, , , ,5,1, , , ,2|11, ,4, , , , , , ,12, ,7| , ,9,10, ,8,4, ,3,6,| , , , ,2,1,6,9,| , , ,11, , , , ,9",
    );
    assert_eq!(game.to_string_with_comma(), " , , ,6, , , , ,8, , , | , , , ,12,10,5,11, , , , | , ,10,4, ,9,7, ,1,11, , |10, ,3, , , , , , ,7, ,12| ,5, , , ,12,10, , , ,9, | ,7,8, ,9, , ,2, ,5,10, | ,1,7, ,8, , ,6, ,3,4, | ,10, , , ,5,1, , , ,2, |11, ,4, , , , , , ,12, ,7| , ,9,10, ,8,4, ,3,6, , | , , , ,2,1,6,9, , , , | , , ,11, , , , ,9, , , ")
}

#[test]
fn normal_game_test() {
    let mut game = NormalGame::new(setting());
    game.set_answer(Position::new(0, 0), 2);
    assert_eq!(game.cells()[0].answer(), Some(2));
}

#[test]
fn remove_unanswerd_candidate_from_groups() {
    let mut game = NormalGame::new(setting());
    game.set_answer(Position::new(0, 0), 2);
    assert_eq!(game.cells()[1].has_answer_candidate(2), false);
}
