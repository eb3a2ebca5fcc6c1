use word_search::coordinate::Coordinate;
use word_search::direction::Direction;
use word_search::generator::{
    add_words_to_puzzle, generate_puzzle, place_word, remove_empty_spots, try_place_word_from,
    word_fits,
};
use word_search::grid::generate_empty_puzzle;

/// Scans the whole grid for the word along every direction, the way a
/// puzzle solver would.
fn find_word(puzzle: &Vec<Vec<char>>, word: &str) -> bool {
    let letters: Vec<char> = word.chars().collect();
    if letters.is_empty() {
        return true;
    }
    let height = puzzle.len() as i32;
    let width = if puzzle.is_empty() { 0 } else { puzzle[0].len() as i32 };
    let deltas: [(i32, i32); 8] = [
        (-1, 0),
        (1, 0),
        (0, -1),
        (0, 1),
        (-1, -1),
        (-1, 1),
        (1, -1),
        (1, 1),
    ];
    for row in 0..height {
        for column in 0..width {
            for (dr, dc) in deltas.iter() {
                let mut all_match = true;
                for (k, letter) in letters.iter().enumerate() {
                    let r = row + dr * k as i32;
                    let c = column + dc * k as i32;
                    if r < 0 || r >= height || c < 0 || c >= width {
                        all_match = false;
                        break;
                    }
                    if puzzle[r as usize][c as usize] != *letter {
                        all_match = false;
                        break;
                    }
                }
                if all_match {
                    return true;
                }
            }
        }
    }
    false
}

#[test]
fn it_knows_the_next_direction() {
    assert_eq!(Direction::Up.get_next_direction(), Direction::Down);
    assert_eq!(Direction::DownRight.get_next_direction(), Direction::Up);
}

#[test]
fn it_can_create_directions_from_numbers() {
    assert_eq!(Direction::from_number(1), Some(Direction::Up));
    assert_eq!(Direction::from_number(2), Some(Direction::Down));
    assert_eq!(Direction::from_number(8), Some(Direction::DownRight));
    assert_eq!(Direction::from_number(9), None);
}

#[test]
fn it_can_get_the_next_coordinate() {
    assert_eq!(
        Coordinate::new(1, 3),
        Coordinate::new(1, 2).get_next_coordinate(&Direction::Right)
    );
    assert_eq!(
        Coordinate::new(3, 3),
        Coordinate::new(2, 2).get_next_coordinate(&Direction::DownRight)
    );
}

#[test]
fn it_can_get_the_next_coordinate_for_the_size() {
    assert_eq!(
        Coordinate::new(0, 1),
        Coordinate::new(0, 0).get_next_coordinate_for_size(2, 2)
    );
    assert_eq!(
        Coordinate::new(1, 0),
        Coordinate::new(0, 1).get_next_coordinate_for_size(2, 2)
    );
    assert_eq!(
        Coordinate::new(1, 1),
        Coordinate::new(1, 0).get_next_coordinate_for_size(2, 2)
    );
    assert_eq!(
        Coordinate::new(0, 0),
        Coordinate::new(1, 1).get_next_coordinate_for_size(2, 2)
    );
}

#[test]
fn it_knows_if_a_coordinate_is_valid() {
    assert!(Coordinate::new(0, 0).valid(2, 2));
    assert!(Coordinate::new(1, 1).valid(2, 2));
    assert!(!Coordinate::new(2, 2).valid(2, 2));
    assert!(!Coordinate::new(-1, 0).valid(2, 2));
    assert!(!Coordinate::new(0, -1).valid(2, 2));
}

#[test]
fn it_can_generate_an_empty_puzzle() {
    let puzzle = generate_empty_puzzle(10, 10);
    assert_eq!(puzzle.len(), 10);
    assert_eq!(puzzle[0].len(), 10);

    for row in puzzle.iter() {
        for cell in row.iter() {
            assert_eq!(' ', *cell);
        }
    }
}

#[test]
fn it_knows_if_a_word_fits() {
    let puzzle = generate_empty_puzzle(10, 10);
    assert!(word_fits(&puzzle, &Coordinate::new(0, 0), &Direction::Right, 5));
    assert!(word_fits(&puzzle, &Coordinate::new(0, 0), &Direction::Right, 10));
    assert!(!word_fits(&puzzle, &Coordinate::new(0, 0), &Direction::Right, 11));

    assert!(word_fits(&puzzle, &Coordinate::new(0, 0), &Direction::DownRight, 1));
    assert!(word_fits(&puzzle, &Coordinate::new(0, 0), &Direction::DownRight, 10));
    assert!(word_fits(&puzzle, &Coordinate::new(0, 0), &Direction::Down, 10));

    assert!(word_fits(&puzzle, &Coordinate::new(0, 0), &Direction::DownLeft, 1));
    assert!(!word_fits(&puzzle, &Coordinate::new(0, 0), &Direction::DownLeft, 2));

    assert!(word_fits(&puzzle, &Coordinate::new(0, 0), &Direction::Left, 1));
    assert!(!word_fits(&puzzle, &Coordinate::new(0, 0), &Direction::Left, 2));

    assert!(!word_fits(&puzzle, &Coordinate::new(0, 0), &Direction::UpLeft, 2));
    assert!(!word_fits(&puzzle, &Coordinate::new(0, 0), &Direction::Up, 2));
    assert!(!word_fits(&puzzle, &Coordinate::new(0, 0), &Direction::UpRight, 2));
}

#[test]
fn empty_grids_have_the_requested_shape() {
    let no_rows = generate_empty_puzzle(7, 0);
    assert_eq!(no_rows.len(), 0);

    let no_columns = generate_empty_puzzle(0, 4);
    assert_eq!(no_columns.len(), 4);
    for row in no_columns.iter() {
        assert_eq!(row.len(), 0);
    }
}

#[test]
fn advancing_eight_times_returns_to_the_start() {
    let directions = [
        Direction::Up,
        Direction::Down,
        Direction::Left,
        Direction::Right,
        Direction::UpLeft,
        Direction::UpRight,
        Direction::DownLeft,
        Direction::DownRight,
    ];
    for start in directions.iter() {
        let mut current = *start;
        for _ in 0..8 {
            current = current.get_next_direction();
        }
        assert_eq!(current, *start);
    }
}

#[test]
fn an_empty_word_fits_anywhere() {
    let puzzle = generate_empty_puzzle(3, 3);
    assert!(word_fits(&puzzle, &Coordinate::new(0, 0), &Direction::Up, 0));
    assert!(word_fits(&puzzle, &Coordinate::new(-5, -5), &Direction::UpLeft, 0));
    assert!(word_fits(&puzzle, &Coordinate::new(99, 99), &Direction::Right, 0));
}

#[test]
fn a_blocked_cell_stops_a_word_even_when_the_letter_matches() {
    let mut puzzle = generate_empty_puzzle(10, 10);
    place_word(&mut puzzle, &Coordinate::new(0, 0), &Direction::Right, "AB");
    assert!(!word_fits(&puzzle, &Coordinate::new(0, 0), &Direction::Right, 2));
    assert!(!word_fits(&puzzle, &Coordinate::new(0, 0), &Direction::Down, 2));
    assert!(word_fits(&puzzle, &Coordinate::new(1, 0), &Direction::Right, 2));
}

#[test]
fn placing_then_scanning_reproduces_the_word() {
    let mut puzzle = generate_empty_puzzle(10, 10);
    place_word(&mut puzzle, &Coordinate::new(2, 3), &Direction::Right, "HELLO");
    assert_eq!(puzzle[2][3], 'H');
    assert_eq!(puzzle[2][4], 'E');
    assert_eq!(puzzle[2][5], 'L');
    assert_eq!(puzzle[2][6], 'L');
    assert_eq!(puzzle[2][7], 'O');

    place_word(&mut puzzle, &Coordinate::new(9, 9), &Direction::UpLeft, "WORD");
    assert_eq!(puzzle[9][9], 'W');
    assert_eq!(puzzle[8][8], 'O');
    assert_eq!(puzzle[7][7], 'R');
    assert_eq!(puzzle[6][6], 'D');
}

#[test]
fn filling_covers_every_blank_and_keeps_placed_letters() {
    let mut puzzle = generate_empty_puzzle(6, 6);
    place_word(&mut puzzle, &Coordinate::new(1, 0), &Direction::Right, "STONE");
    remove_empty_spots(&mut puzzle);
    for row in puzzle.iter() {
        for cell in row.iter() {
            assert!(*cell != ' ');
            assert!('A' <= *cell && *cell <= 'Z');
        }
    }
    assert_eq!(puzzle[1][0], 'S');
    assert_eq!(puzzle[1][1], 'T');
    assert_eq!(puzzle[1][2], 'O');
    assert_eq!(puzzle[1][3], 'N');
    assert_eq!(puzzle[1][4], 'E');
}

#[test]
fn placed_words_are_spelled_in_the_finished_puzzle() {
    let words = vec!["cat", "dog", "bird"];
    let (puzzle, not_placed) = generate_puzzle(12, 12, &words);
    assert_eq!(puzzle.len(), 12);
    for row in puzzle.iter() {
        assert_eq!(row.len(), 12);
        for cell in row.iter() {
            assert!(*cell != ' ');
        }
    }
    for word in words.iter() {
        if !not_placed.contains(word) {
            assert!(find_word(&puzzle, &word.to_uppercase()));
        }
    }
}

#[test]
fn too_long_words_are_reported_as_not_placed() {
    let words = vec!["oversized"];
    let (puzzle, not_placed) = generate_puzzle(3, 3, &words);
    assert_eq!(not_placed, vec!["oversized"]);
    assert_eq!(puzzle.len(), 3);
    for row in puzzle.iter() {
        for cell in row.iter() {
            assert!('A' <= *cell && *cell <= 'Z');
        }
    }
}

#[test]
fn words_that_fill_the_whole_grid_are_placed() {
    let mut puzzle = generate_empty_puzzle(1, 1);
    let not_placed = add_words_to_puzzle(&mut puzzle, &vec!["a"]);
    assert!(not_placed.is_empty());
    assert_eq!(puzzle[0][0], 'A');

    let not_placed_again = add_words_to_puzzle(&mut puzzle, &vec!["b"]);
    assert_eq!(not_placed_again, vec!["b"]);
    assert_eq!(puzzle[0][0], 'A');
}

#[test]
fn a_word_that_fits_a_fresh_grid_is_always_placed() {
    let (puzzle, not_placed) = generate_puzzle(4, 4, &vec!["word"]);
    assert!(not_placed.is_empty());
    assert!(find_word(&puzzle, "WORD"));
}

#[test]
fn an_empty_word_is_always_placed() {
    let (_, not_placed) = generate_puzzle(3, 3, &vec![""]);
    assert!(not_placed.is_empty());
}

#[test]
fn the_not_placed_list_keeps_the_original_order_and_casing() {
    let words = vec!["Enormous-Word-One", "unplaceableword", "xy"];
    let (_, not_placed) = generate_puzzle(2, 2, &words);
    assert_eq!(not_placed, vec!["Enormous-Word-One", "unplaceableword"]);
}

#[test]
fn the_same_start_gives_the_same_placement() {
    let mut first = generate_empty_puzzle(10, 10);
    let mut second = generate_empty_puzzle(10, 10);
    let start = Coordinate::new(4, 7);
    let placed_first = try_place_word_from(&mut first, "MIRROR", start, Direction::UpRight);
    let placed_second = try_place_word_from(&mut second, "MIRROR", start, Direction::UpRight);
    assert_eq!(placed_first, placed_second);
    assert_eq!(first, second);
    assert!(placed_first);
}

#[test]
fn the_sweep_wraps_to_find_the_only_free_spot() {
    let mut puzzle = generate_empty_puzzle(3, 3);
    for column in 0..3i16 {
        place_word(
            &mut puzzle,
            &Coordinate::new(0, column),
            &Direction::Down,
            if column == 0 { "XX" } else { "XXX" },
        );
    }
    // Every cell is taken but (2, 0), so the sweep must wrap to find it.
    let placed = try_place_word_from(&mut puzzle, "Q", Coordinate::new(0, 0), Direction::Up);
    assert!(placed);
    assert_eq!(puzzle[2][0], 'Q');
}

#[test]
fn lowercase_words_are_placed_uppercased() {
    let mut puzzle = generate_empty_puzzle(4, 4);
    let not_placed = add_words_to_puzzle(&mut puzzle, &vec!["maze"]);
    assert!(not_placed.is_empty());
    assert!(find_word(&puzzle, "MAZE"));
    assert!(!find_word(&puzzle, "maze"));
}
