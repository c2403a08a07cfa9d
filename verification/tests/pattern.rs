use numberplace::normal_game::setting::BlockSize;
use numberplace::pattern::AnswerPattern;

#[test]
fn it_returns_pattern_string_by_blocksize() {
    let pattern = AnswerPattern::create_solved_string_from_pattern(
        &BlockSize {
            height: 2,
            width: 3,
        },
        &vec![1, 2, 3, 4, 5, 6],
    );
    assert_eq!(
        pattern.unwrap(),
        "1,2,3,4,5,6|4,5,6,1,2,3|2,3,1,5,6,4|5,6,4,2,3,1|3,1,2,6,4,5|6,4,5,3,1,2"
    );
}

#[test]
fn it_returns_none_string_by_unexpected_blocksize() {
    let maybe_none = AnswerPattern::create_solved_string_from_pattern(
        &BlockSize {
            height: 1,
            width: 1,
        },
        &vec![1],
    );
    assert_eq!(maybe_none, None);
}

#[test]
fn pattern_with_two_digit_symbols() {
    let pattern = AnswerPattern::create_solved_string_from_pattern(
        &BlockSize {
            height: 3,
            width: 4,
        },
        &vec![1, 2, 3, 4, 5, 6, 7, 8, 9, 10, 11, 12],
    )
    .unwrap();
    let first_row = pattern.split('|').next().unwrap().to_string();
    assert_eq!(first_row, "1,2,3,4,5,6,7,8,9,10,11,12");
}
