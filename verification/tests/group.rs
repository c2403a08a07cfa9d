use numberplace::normal_game::cell;
use numberplace::normal_game::cell::Position;
use numberplace::normal_game::group::{
    create_block_groups, create_block_start_positions, create_groups, create_horizontal_groups,
    create_vertical_groups,
};
use numberplace::normal_game::setting::BlockSize;
use numberplace::normal_game::setting::GameSetting;

fn setting() -> GameSetting {
    GameSetting::new(BlockSize {
        height: 2,
        width: 3,
    })
}

#[test]
fn test_create_vertical_groups() {
    let cells = cell::create_cells(&setting());
    let vg = create_vertical_groups(&cells, &setting());
    assert_eq!(vg.len(), 6);
    assert_eq!(vg[0].cells().len(), 6);
    assert_eq!(cells[vg[0].cells()[0]].pos(), cell::Position::new(0, 0));
    assert_eq!(cells[vg[0].cells()[5]].pos(), cell::Position::new(0, 5));
    assert_eq!(cells[vg[5].cells()[0]].pos(), cell::Position::new(5, 0));
    assert_eq!(cells[vg[5].cells()[5]].pos(), cell::Position::new(5, 5));
}

#[test]
fn test_create_horizontal_groups() {
    let cells = cell::create_cells(&setting());
    let hg = create_horizontal_groups(&cells, &setting());
    assert_eq!(hg.len(), 6);
    assert_eq!(hg[0].cells().len(), 6);
    assert_eq!(cells[hg[0].cells()[0]].pos(), cell::Position::new(0, 0));
    assert_eq!(cells[hg[0].cells()[5]].pos(), cell::Position::new(5, 0));
    assert_eq!(cells[hg[5].cells()[0]].pos(), cell::Position::new(0, 5));
    assert_eq!(cells[hg[5].cells()[5]].pos(), cell::Position::new(5, 5));
}

#[test]
fn test_create_block_start_positions() {
    let block_start_positions = create_block_start_positions(&setting());
    assert_eq!(
        block_start_positions,
        vec![
            cell::Position::new(0, 0),
            cell::Position::new(3, 0),
            cell::Position::new(0, 2),
            cell::Position::new(3, 2),
            cell::Position::new(0, 4),
            cell::Position::new(3, 4)
        ]
    )
}

#[test]
fn block_group_count() {
    let cells = cell::create_cells(&setting());
    let groups = create_block_groups(&cells, &setting());
    assert_eq!(groups.len(), 6);
}

#[test]
fn block_group_cell_count() {
    let cells = cell::create_cells(&setting());
    let groups = create_block_groups(&cells, &setting());
    assert!(groups.iter().all(|g| g.cells().len() == 6));
}

#[test]
fn first_block_group_cells() {
    let cells = cell::create_cells(&setting());
    let groups = create_block_groups(&cells, &setting());
    assert_eq!(
        groups[0]
            .cells()
            .iter()
            .map(|i| cells[*i].pos())
            .collect::<Vec<cell::Position>>(),
        vec![
            cell::Position::new(0, 0),
            cell::Position::new(1, 0),
            cell::Position::new(2, 0),
            cell::Position::new(0, 1),
            cell::Position::new(1, 1),
            cell::Position::new(2, 1),
        ]
    );
}

#[test]
fn last_block_group_cells() {
    let cells = cell::create_cells(&setting());
    let groups = create_block_groups(&cells, &setting());
    assert_eq!(
        groups[5]
            .cells()
            .iter()
            .map(|i| cells[*i].pos())
            .collect::<Vec<cell::Position>>(),
        vec![
            cell::Position::new(3, 4),
            cell::Position::new(4, 4),
            cell::Position::new(5, 4),
            cell::Position::new(3, 5),
            cell::Position::new(4, 5),
            cell::Position::new(5, 5),
        ]
    );
}

#[test]
fn get_lonely_returns_lonely() {
    let mut cells = cell::create_cells(&setting());
    let g = create_horizontal_groups(&cells, &setting());
    for (i, idx) in g[0].cells().clone().iter().enumerate() {
        if i == 2 {
            continue;
        };
        cells[*idx].remove_answer_candidate(3);
    }
    for (i, idx) in g[0].cells().clone().iter().enumerate() {
        if i == 4 {
            continue;
        };
        cells[*idx].remove_answer_candidate(5);
    }
    assert_eq!(
        g[0].get_lonely(&cells),
        vec![(Position::new(2, 0), 3), (Position::new(4, 0), 5)]
    );
}

#[test]
fn duplicated() {
    let mut cells = cell::create_cells(&setting());
    let g = create_horizontal_groups(&cells, &setting());
    let members = g[0].cells().clone();
    cells[members[0]].set_answer(1);
    cells[members[1]].set_answer(1);
    cells[members[2]].set_answer(3);
    cells[members[3]].set_answer(4);
    cells[members[4]].set_answer(5);
    cells[members[5]].set_answer(6);
    assert!(g[0].is_duplicate_answer(&cells));
}

#[test]
fn not_duplicated() {
    let mut cells = cell::create_cells(&setting());
    let g = create_horizontal_groups(&cells, &setting());
    let members = g[0].cells().clone();
    cells[members[0]].set_answer(1);
    cells[members[1]].set_answer(2);
    cells[members[2]].set_answer(3);
    cells[members[3]].set_answer(4);
    cells[members[4]].set_answer(5);
    cells[members[5]].set_answer(6);
    assert!(!g[0].is_duplicate_answer(&cells));
}

#[test]
fn all_groups_of_a_fresh_grid() {
    let cells = cell::create_cells(&setting());
    let groups = create_groups(&cells, &setting());
    assert_eq!(groups.len(), 18);
    assert!(groups.iter().all(|g| g.cells().len() == 6));
    // every cell stands in exactly one row, one column and one block group
    for i in 0..cells.len() {
        let row_hits = groups[0..6]
            .iter()
            .filter(|g| g.cells().contains(&i))
            .count();
        let col_hits = groups[6..12]
            .iter()
            .filter(|g| g.cells().contains(&i))
            .count();
        let block_hits = groups[12..18]
            .iter()
            .filter(|g| g.cells().contains(&i))
            .count();
        assert_eq!((row_hits, col_hits, block_hits), (1, 1, 1));
    }
}
