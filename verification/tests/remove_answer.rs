use numberplace::normal_game::cell::Position;
use numberplace::normal_game::setting::BlockSize;
use numberplace::normal_game::setting::GameSetting;
use numberplace::normal_game::NormalGame;

fn setting() -> GameSetting {
    GameSetting::new(BlockSize {
        height: 2,
        width: 2,
    })
}

fn pos(x: u8, y: u8) -> Position {
    Position::new(x, y)
}

fn to_positions(game: &NormalGame, gi: usize) -> Vec<Position> {
    game.groups()[gi]
        .cells()
        .iter()
        .map(|i| game.cells()[*i].pos())
        .collect()
}

#[test]
fn it_find_the_groups_that_contains_the_specified_positions_cell() {
    let game = NormalGame::new(setting());
    let groups = game.find_groups(Position::new(0, 0));
    assert_eq!(groups.len(), 3);
    assert_eq!(
        to_positions(&game, groups[0]),
        [pos(0, 0), pos(1, 0), pos(2, 0), pos(3, 0)]
    );
    assert_eq!(
        to_positions(&game, groups[1]),
        [pos(0, 0), pos(0, 1), pos(0, 2), pos(0, 3)]
    );
    assert_eq!(
        to_positions(&game, groups[2]),
        [pos(0, 0), pos(1, 0), pos(0, 1), pos(1, 1)]
    );
}

#[test]
fn it_find_answer_candidate_that_all_groups_hold() {
    let mut game = NormalGame::new(setting());
    let groups = game.find_groups(pos(0, 0));
    game.groups[groups[0]].remove_answer_candidate(&mut game.cells, 1);
    game.groups[groups[1]].remove_answer_candidate(&mut game.cells, 1);
    game.groups[groups[2]].remove_answer_candidate(&mut game.cells, 1);
    game.groups[groups[2]].remove_answer_candidate(&mut game.cells, 3);
    let answer_candidate = game.find_answer_candidate_that_all_groups_hold(&groups);
    assert_eq!(answer_candidate, [2, 4]);
}

fn setting_3_3() -> GameSetting {
    GameSetting::new(BlockSize {
        height: 3,
        width: 3,
    })
}

fn to_answer_candidate_vec(game: &NormalGame) -> Vec<Vec<u8>> {
    let groups = game.find_groups(pos(1, 0));
    vec![
        game.groups()[groups[0]].answer_candidate().clone(),
        game.groups()[groups[1]].answer_candidate().clone(),
        game.groups()[groups[2]].answer_candidate().clone(),
    ]
}

#[test]
fn remove_answer_test() {
    let mut game = NormalGame::new(setting_3_3());
    game.load("5 2 9 1|   1   8|3    6  2| 4    7|6       1|  5    9|9  7    4| 6   3|  7 2 5 3");
    assert_eq!(
        to_answer_candidate_vec(&game),
        [
            vec![3, 4, 6, 7, 8],
            vec![1, 2, 3, 5, 7, 8, 9],
            vec![1, 4, 6, 7, 8, 9]
        ]
    );
    game.set_answer(pos(1, 0), 8);
    assert_eq!(
        to_answer_candidate_vec(&game),
        [
            vec![3, 4, 6, 7],
            vec![1, 2, 3, 5, 7, 9],
            vec![1, 4, 6, 7, 9]
        ]
    );
    let removed_answer = game.remove_answer(pos(1, 0));
    assert_eq!(
        to_answer_candidate_vec(&game),
        [
            vec![3, 4, 6, 7, 8],
            vec![1, 2, 3, 5, 7, 9, 8],
            vec![1, 4, 6, 7, 9, 8]
        ]
    );
    assert_eq!(removed_answer, Some(8));
    assert!(game.cells()[game.find_cell(pos(1, 0)).unwrap()]
        .answer_candidate()
        .iter()
        .any(|c| *c == 8));
}

#[test]
fn test2() {
    let mut game = NormalGame::new(setting_3_3());
    game.load("5 2 9 1|   1   8|3    6  2| 4    7|6       1|  5    9|9  7    4| 6   3|  7 2 5 3");
    assert_eq!(
        to_answer_candidate_vec(&game),
        [
            vec![3, 4, 6, 7, 8],
            vec![1, 2, 3, 5, 7, 8, 9],
            vec![1, 4, 6, 7, 8, 9]
        ]
    );
    game.set_answer(pos(1, 0), 9);
    assert_eq!(
        to_answer_candidate_vec(&game),
        [
            vec![3, 4, 6, 7, 8],
            vec![1, 2, 3, 5, 7, 8],
            vec![1, 4, 6, 7, 8]
        ]
    );
    let removed_answer = game.remove_answer(pos(1, 0));
    assert_eq!(removed_answer, Some(9));
    assert_eq!(
        to_answer_candidate_vec(&game),
        [
            vec![3, 4, 6, 7, 8],
            vec![1, 2, 3, 5, 7, 8, 9],
            vec![1, 4, 6, 7, 8, 9]
        ]
    );
    assert_eq!(
        *game.cells()[game.find_cell(pos(1, 0)).unwrap()].answer_candidate(),
        vec![7, 8]
    );
}
