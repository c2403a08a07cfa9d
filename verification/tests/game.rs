use numberplace::game::setting::GameSetting;
use numberplace::game::Game;

#[test]
fn game_it_answer_candidate_is_1_to_6() {
    let game = Game::new(GameSetting {
        block_height: 2,
        block_width: 3,
    });
    assert_eq!(game.answer_candidate, vec![1, 2, 3, 4, 5, 6])
}
