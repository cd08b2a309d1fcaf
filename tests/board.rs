use minesweeper::{BoardError, Minesweeper, OpenResult};

fn count_mines(ms: &Minesweeper) -> usize {
    let mut n = 0;
    for y in 0..ms.height() {
        for x in 0..ms.width() {
            if ms.is_mine((x, y)) {
                n += 1;
            }
        }
    }
    n
}

#[test]
fn test() {
    let mut ms = Minesweeper::new(10, 10, 15);
    ms.open((5, 5));
    ms.toggle_flag((6, 6));

    println!("{}", ms.render());
}

#[test]
fn new_places_exactly_the_requested_mines() {
    let ms = Minesweeper::new(10, 10, 15);
    assert_eq!(ms.mine_count(), 15);
    assert_eq!(count_mines(&ms), 15);
    let full = Minesweeper::new(3, 2, 6);
    assert_eq!(count_mines(&full), 6);
    let none = Minesweeper::new(4, 4, 0);
    assert_eq!(count_mines(&none), 0);
}

#[test]
fn seeded_board_has_five_mines_in_bounds() {
    let ms = Minesweeper::from_draws(10, 10, &vec![17, 42, 3, 90, 55]);
    assert_eq!(ms.mine_count(), 5);
    assert_eq!(count_mines(&ms), 5);
}

#[test]
fn draws_take_from_the_deck() {
    // Deck 0,1,2,3: the first draw takes key 0 and key 3 moves into its place.
    let ms = Minesweeper::from_draws(2, 2, &vec![0, 0]);
    assert!(ms.is_mine((0, 0)));
    assert!(ms.is_mine((1, 1)));
    assert!(!ms.is_mine((1, 0)));
    assert!(!ms.is_mine((0, 1)));
    let ms = Minesweeper::from_draws(10, 10, &vec![10]);
    assert!(ms.is_mine((0, 1)));
    assert_eq!(ms.mine_count(), 1);
}

#[test]
fn open_far_from_mines_gives_zero() {
    let mut ms = Minesweeper::from_draws(10, 10, &vec![99]);
    assert_eq!(ms.open((0, 0)), Some(OpenResult::NoMine(0)));
    let mut empty = Minesweeper::from_draws(10, 10, &vec![]);
    assert_eq!(empty.open((4, 4)), Some(OpenResult::NoMine(0)));
    assert!(empty.is_open((4, 4)));
}

#[test]
fn open_next_to_one_mine_gives_one() {
    let mut ms = Minesweeper::from_draws(10, 10, &vec![10]);
    assert_eq!(ms.open((0, 0)), Some(OpenResult::NoMine(1)));
    assert!(ms.is_open((0, 0)));
}

#[test]
fn open_a_mine() {
    let mut ms = Minesweeper::from_draws(10, 10, &vec![10]);
    assert_eq!(ms.open((0, 1)), Some(OpenResult::Mine));
    assert!(ms.is_open((0, 1)));
}

#[test]
fn open_counts_all_eight_neighbours() {
    // These draws take every key of a 3 by 3 grid but the centre's.
    let mut ms = Minesweeper::from_draws(3, 3, &vec![0, 0, 0, 0, 0, 1, 1, 1]);
    assert!(!ms.is_mine((1, 1)));
    assert_eq!(ms.neighbouring_mines((1, 1)), 8);
    assert_eq!(ms.open((1, 1)), Some(OpenResult::NoMine(8)));
}

#[test]
fn open_flagged_cell_is_rejected() {
    let mut ms = Minesweeper::from_draws(10, 10, &vec![]);
    ms.toggle_flag((3, 3));
    assert_eq!(ms.open((3, 3)), None);
    assert!(!ms.is_open((3, 3)));
    assert!(ms.is_flagged((3, 3)));
}

#[test]
fn open_twice_is_idempotent() {
    let mut ms = Minesweeper::from_draws(4, 4, &vec![5]);
    assert_eq!(ms.open((0, 0)), Some(OpenResult::NoMine(1)));
    assert_eq!(ms.open((0, 0)), Some(OpenResult::NoMine(1)));
    assert!(ms.is_open((0, 0)));
}

#[test]
fn flag_on_open_cell_does_nothing() {
    let mut ms = Minesweeper::from_draws(5, 5, &vec![]);
    ms.open((2, 2));
    ms.toggle_flag((2, 2));
    assert!(!ms.is_flagged((2, 2)));
    assert!(ms.is_open((2, 2)));
}

#[test]
fn toggle_twice_restores_flags() {
    let mut ms = Minesweeper::from_draws(5, 5, &vec![]);
    ms.toggle_flag((1, 4));
    assert!(ms.is_flagged((1, 4)));
    ms.toggle_flag((1, 4));
    assert!(!ms.is_flagged((1, 4)));
    ms.toggle_flag((0, 0));
    ms.toggle_flag((3, 2));
    ms.toggle_flag((3, 2));
    assert!(ms.is_flagged((0, 0)));
    assert!(!ms.is_flagged((3, 2)));
}

#[test]
fn open_and_flagged_stay_apart() {
    let mut ms = Minesweeper::from_draws(4, 3, &vec![7, 2]);
    let cells = [(0, 0), (1, 1), (2, 2), (1, 1), (3, 0), (0, 0), (2, 1)];
    for (i, &p) in cells.iter().enumerate() {
        if i % 2 == 0 {
            ms.toggle_flag(p);
        } else {
            ms.open(p);
        }
        for y in 0..3 {
            for x in 0..4 {
                assert!(!(ms.is_open((x, y)) && ms.is_flagged((x, y))));
            }
        }
    }
}

#[test]
fn neighbours_are_clipped_at_edges() {
    let ms = Minesweeper::from_draws(10, 10, &vec![]);
    assert_eq!(ms.iter_neighbours((0, 0)), vec![(0, 1), (1, 0), (1, 1)]);
    assert_eq!(ms.iter_neighbours((5, 0)).len(), 5);
    assert_eq!(ms.iter_neighbours((9, 9)), vec![(8, 8), (8, 9), (9, 8)]);
    assert_eq!(
        ms.iter_neighbours((4, 4)),
        vec![(3, 3), (3, 4), (3, 5), (4, 3), (4, 5), (5, 3), (5, 4), (5, 5)]
    );
    let line = Minesweeper::from_draws(1, 1, &vec![]);
    assert!(line.iter_neighbours((0, 0)).is_empty());
}

#[test]
fn neighbouring_mines_in_a_corner() {
    // Keys 1, 10 and 11 on a 10 by 10 grid: all three cells around (0,0).
    let ms = Minesweeper::from_draws(10, 10, &vec![1, 10, 11]);
    assert_eq!(ms.neighbouring_mines((0, 0)), 3);
    assert_eq!(ms.neighbouring_mines((9, 9)), 0);
    assert_eq!(ms.neighbouring_mines((2, 1)), 2);
}

#[test]
fn render_shows_every_cell_state() {
    let mut ms = Minesweeper::from_draws(3, 2, &vec![1]);
    assert_eq!(ms.render(), "🟪 🟪 🟪 \n🟪 🟪 🟪 \n");
    ms.open((0, 0));
    ms.toggle_flag((2, 1));
    assert_eq!(ms.render(), "1  🟪 🟪 \n🟪 🟪 🚩 \n");
    ms.open((1, 0));
    assert_eq!(ms.render(), "1  💣 🟪 \n🟪 🟪 🚩 \n");
}

#[test]
fn try_new_rejects_bad_configurations() {
    assert_eq!(Minesweeper::try_new(0, 5, 1).err(), Some(BoardError::InvalidConfiguration));
    assert_eq!(Minesweeper::try_new(5, 0, 0).err(), Some(BoardError::InvalidConfiguration));
    assert_eq!(Minesweeper::try_new(5, 5, 26).err(), Some(BoardError::InvalidConfiguration));
    assert_eq!(
        Minesweeper::try_new(usize::MAX, 2, 0).err(),
        Some(BoardError::InvalidConfiguration)
    );
    let ms = Minesweeper::try_new(5, 5, 25).unwrap();
    assert_eq!(ms.mine_count(), 25);
    assert_eq!(ms.width(), 5);
    assert_eq!(ms.height(), 5);
}
