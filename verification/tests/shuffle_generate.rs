use numberplace::normal_game::cell::Position;
use numberplace::normal_game::setting::BlockSize;
use numberplace::normal_game::setting::GameSetting;
use numberplace::normal_game::NormalGame;
use numberplace::random::CycleIndexSource;
use numberplace::random::RandomIndexSource;
use numberplace::solver::Solver;

fn solved_grid(height: u8, width: u8) -> NormalGame {
    let game = NormalGame::new(GameSetting::new(BlockSize { height, width }));
    Solver::new(&game).solve().unwrap()
}

/// Every row, column and block of a grid rendered by `to_string_with_comma`
/// holds each symbol exactly once.
fn assert_valid_solved(game: &NormalGame) {
    let setting = game.setting();
    let side = setting.side_size() as usize;
    let h = setting.block_height() as usize;
    let w = setting.block_width() as usize;
    let text = game.to_string_with_comma();
    let rows: Vec<Vec<u8>> = text
        .split('|')
        .map(|row| {
            row.split(',')
                .map(|tok| tok.parse::<u8>().expect("an unanswered cell in a solved grid"))
                .collect()
        })
        .collect();
    assert_eq!(rows.len(), side);
    for y in 0..side {
        assert_eq!(rows[y].len(), side);
    }
    let expect: Vec<bool> = vec![true; side];
    for y in 0..side {
        let mut seen = vec![false; side + 1];
        for x in 0..side {
            seen[rows[y][x] as usize] = true;
        }
        assert_eq!(&seen[1..], &expect[..], "row {} misses a symbol", y);
    }
    for x in 0..side {
        let mut seen = vec![false; side + 1];
        for y in 0..side {
            seen[rows[y][x] as usize] = true;
        }
        assert_eq!(&seen[1..], &expect[..], "column {} misses a symbol", x);
    }
    for ty in 0..(side / h) {
        for tx in 0..(side / w) {
            let mut seen = vec![false; side + 1];
            for dy in 0..h {
                for dx in 0..w {
                    seen[rows[ty * h + dy][tx * w + dx] as usize] = true;
                }
            }
            assert_eq!(&seen[1..], &expect[..], "a block misses a symbol");
        }
    }
}

#[test]
fn shuffle_keeps_validity_over_many_random_trials() {
    let mut src = RandomIndexSource::new();
    for &(h, w) in &[(1u8, 2u8), (2, 2), (2, 3), (3, 3)] {
        let solved = solved_grid(h, w);
        for _ in 0..250 {
            let shuffled = solved.shuffle(&mut src);
            assert_valid_solved(&shuffled);
        }
    }
}

#[test]
fn shuffle_with_a_deterministic_source_is_reproducible() {
    let solved = solved_grid(2, 2);
    let mut src1 = CycleIndexSource::new(vec![1, 0, 2, 1, 3, 0, 2]);
    let mut src2 = CycleIndexSource::new(vec![1, 0, 2, 1, 3, 0, 2]);
    let a = solved.shuffle(&mut src1);
    let b = solved.shuffle(&mut src2);
    assert!(a == b);
    assert_valid_solved(&a);
}

#[test]
fn generate_returns_a_puzzle_whose_solution_is_the_returned_key() {
    let mut src = RandomIndexSource::new();
    for &(h, w) in &[(1u8, 2u8), (2, 2), (2, 3), (3, 2)] {
        let (puzzle, solved) =
            NormalGame::generate(BlockSize { height: h, width: w }, &mut src).unwrap();
        assert_valid_solved(&solved);
        let independent = Solver::new(&puzzle).solve().unwrap();
        assert!(independent == solved);
    }
}

#[test]
fn generate_6x6_only_keeps_answers_of_the_key() {
    let mut src = RandomIndexSource::new();
    let (puzzle, solved) = NormalGame::generate(
        BlockSize {
            height: 2,
            width: 3,
        },
        &mut src,
    )
    .unwrap();
    assert_valid_solved(&solved);
    let independent = Solver::new(&puzzle).solve().unwrap();
    assert!(independent == solved);
    // the puzzle only keeps answers of the key, and digs at least one hole
    let mut holes = 0;
    for (pc, sc) in puzzle.cells().iter().zip(solved.cells().iter()) {
        match pc.answer() {
            Some(v) => assert_eq!(Some(v), sc.answer()),
            None => holes += 1,
        }
    }
    assert!(holes > 0);
}

#[test]
fn generate_numberplace_test() {
    let (puzzle, solved) = numberplace::generate_numberplace(BlockSize {
        height: 2,
        width: 2,
    })
    .unwrap();
    assert_valid_solved(&solved);
    let independent = Solver::new(&puzzle).solve().unwrap();
    assert!(independent == solved);
}

#[test]
fn assign_then_unassign_restores_the_intersection() {
    let mut game = NormalGame::new(GameSetting::new(BlockSize {
        height: 2,
        width: 2,
    }));
    game.load("12|34");
    let pos = Position::new(3, 3);
    game.set_answer(pos, 2);
    let removed = game.remove_answer(pos);
    assert_eq!(removed, Some(2));
    let idx = game.find_cell(pos).unwrap();
    assert_eq!(game.cells()[idx].answer(), None);
    // the candidates are exactly the symbols remaining in its row, its
    // column and its block alike
    let groups = game.find_groups(pos);
    let expected: Vec<u8> = (1..=4)
        .filter(|v| {
            groups
                .iter()
                .all(|gi| game.groups()[*gi].answer_candidate().contains(v))
        })
        .collect();
    assert_eq!(*game.cells()[idx].answer_candidate(), expected);
}
