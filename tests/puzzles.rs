use aoc_grid::basin::flood;
use aoc_grid::bingo::Board;
use aoc_grid::caves::CaveSystem;
use aoc_grid::grid::Grid;
use aoc_grid::octopus::step;

fn puzzle_lines(v: &[&str]) -> Vec<String> {
    v.iter().map(|s| s.to_string()).collect()
}

#[test]
fn octopus_pass_flashes_the_nines() {
    let mut g: Grid<u8> =
        Grid::parse_grid(&puzzle_lines(&["11111", "19991", "19191", "19991", "11111"]), "").unwrap();
    assert_eq!(step(&mut g), 9);
    let want: Grid<u8> =
        Grid::parse_grid(&puzzle_lines(&["34543", "40004", "50005", "40004", "34543"]), "").unwrap();
    for y in 0..5 {
        for x in 0..5 {
            assert_eq!(g.get(x, y), want.get(x, y));
        }
    }
    assert_eq!(step(&mut g), 0);
    let want2: Grid<u8> =
        Grid::parse_grid(&puzzle_lines(&["45654", "51115", "61116", "51115", "45654"]), "").unwrap();
    for y in 0..5 {
        for x in 0..5 {
            assert_eq!(g.get(x, y), want2.get(x, y));
        }
    }
}

#[test]
fn octopus_pass_is_deterministic() {
    let rows = puzzle_lines(&["5483143223", "2745854711", "5264556173", "6141336146", "6357385478",
        "4167524645", "2176841721", "6882881134", "4846848554", "5283751526"]);
    let mut a: Grid<u8> = Grid::parse_grid(&rows, "").unwrap();
    let mut b: Grid<u8> = Grid::parse_grid(&rows, "").unwrap();
    let mut total = 0;
    for _ in 0..10 {
        let fa = step(&mut a);
        let fb = step(&mut b);
        assert_eq!(fa, fb);
        total += fa;
        for y in 0..10 {
            for x in 0..10 {
                assert_eq!(a.get(x, y), b.get(x, y));
            }
        }
    }
    assert_eq!(total, 204);
}

#[test]
fn cave_paths_small_example() {
    let g = CaveSystem::parse_system(&puzzle_lines(&["start-A", "start-b", "A-c", "A-b", "b-d", "A-end", "b-end"])).unwrap();
    assert_eq!(g.paths(0), Some(10));
    assert_eq!(g.paths(1), Some(36));
}

#[test]
fn cave_single_passage_has_one_path() {
    let g = CaveSystem::parse_system(&puzzle_lines(&["start-end"])).unwrap();
    for q in 0..4 {
        assert_eq!(g.paths(q), Some(1));
    }
}

#[test]
fn cave_two_big_caves_give_two_paths() {
    let g = CaveSystem::parse_system(&puzzle_lines(&["start-A", "start-B", "A-end", "B-end"])).unwrap();
    assert_eq!(g.paths(0), Some(2));
    assert!(g.paths(1).unwrap() >= 2);
}

#[test]
fn cave_no_route_and_bad_line() {
    let g = CaveSystem::parse_system(&puzzle_lines(&["start-a", "b-end"])).unwrap();
    assert_eq!(g.paths(0), Some(0));
    assert_eq!(CaveSystem::parse_system(&puzzle_lines(&["start-a-b"])).err(), Some("Not a pair"));
    assert!(CaveSystem::parse_system(&puzzle_lines(&["start"])).is_err());
}

#[test]
fn cave_quota_never_loses_paths() {
    let g = CaveSystem::parse_system(&puzzle_lines(&["dc-end", "HN-start", "start-kj", "dc-start", "dc-HN",
        "LN-dc", "HN-end", "kj-sa", "kj-HN", "kj-dc"])).unwrap();
    assert_eq!(g.paths(0), Some(19));
    assert_eq!(g.paths(1), Some(103));
}

#[test]
fn basins_of_the_heightmap() {
    let h: Grid<u32> = Grid::parse_grid(&puzzle_lines(&["2199943210", "3987894921", "9856789892",
        "8767896789", "9899965678"]), "").unwrap();
    let mut v = vec![vec![false; 10]; 5];
    assert_eq!(flood(&h, &mut v, 1, 0), 3);
    assert_eq!(flood(&h, &mut v, 9, 0), 9);
    assert_eq!(flood(&h, &mut v, 2, 2), 14);
    assert_eq!(flood(&h, &mut v, 6, 4), 9);
    assert_eq!(flood(&h, &mut v, 0, 0), 0);
}

#[test]
fn basin_size_does_not_depend_on_seed() {
    let h: Grid<u32> = Grid::parse_grid(&puzzle_lines(&["99999", "91219", "93139", "99999"]), "").unwrap();
    for (x, y) in [(1, 1), (2, 1), (3, 2), (2, 2)] {
        let mut v = vec![vec![false; 5]; 4];
        assert_eq!(flood(&h, &mut v, x, y), 6);
    }
    let mut v = vec![vec![false; 5]; 4];
    assert_eq!(flood(&h, &mut v, 0, 0), 0);
}

#[test]
fn bingo_first_winner_scores() {
    let board = puzzle_lines(&["", "14 21 17 24  4", "10 16 15  9 19", "18  8 23 26 20", "22 11 13  6  5", " 2  0 12  3  7"]);
    let mut b = Board::parse_board(&board).unwrap();
    let draws = [7, 4, 9, 5, 11, 17, 23, 2, 0, 14, 21];
    for n in draws {
        assert_eq!(b.mark(n), None);
        assert!(b.is_playing());
    }
    assert_eq!(b.mark(24), Some(4512));
    assert!(!b.is_playing());
    b.reset();
    assert!(b.is_playing());
    assert_eq!(b.mark(24), None);
}

#[test]
fn bingo_column_and_bad_boards() {
    let board = puzzle_lines(&["1 2 3 4 5", "6 7 8 9 10", "11 12 13 14 15", "16 17 18 19 20", "21 22 23 24 25"]);
    let mut b = Board::parse_board(&board).unwrap();
    for n in [2, 7, 12, 17] {
        assert_eq!(b.mark(n), None);
    }
    assert_eq!(b.mark(22), Some((325 - 2 - 7 - 12 - 17 - 22) * 22));
    assert!(Board::parse_board(&puzzle_lines(&["1 x"])).is_none());
    let many = puzzle_lines(&["1 2 3 4 5 6 7 8 9 10 11 12 13 14 15 16 17 18 19 20 21 22 23 24 25 26"]);
    assert!(Board::parse_board(&many).is_none());
}

fn example_boards() -> Vec<Board> {
    let text = ["", "22 13 17 11  0", " 8  2 23  4 24", "21  9 14 16  7", " 6 10  3 18  5", " 1 12 20 15 19",
        "", " 3 15  0  2 22", " 9 18 13 17  5", "19  8  7 25 23", "20 11 10 24  4", "14 21 16 12  6",
        "", "14 21 17 24  4", "10 16 15  9 19", "18  8 23 26 20", "22 11 13  6  5", " 2  0 12  3  7"];
    let all = puzzle_lines(&text);
    all.chunks(6).map(|c| Board::parse_board(&c.to_vec()).unwrap()).collect()
}

#[test]
fn bingo_first_and_last_winners() {
    let draws = vec![7, 4, 9, 5, 11, 17, 23, 2, 0, 14, 21, 24, 10, 16, 13, 6, 15, 25, 12, 22, 18, 20, 8, 19, 3, 26, 1];
    let mut boards = example_boards();
    assert_eq!(aoc_grid::bingo::first_winner(&mut boards, &draws), Some(4512));
    boards.iter_mut().for_each(Board::reset);
    assert_eq!(aoc_grid::bingo::last_winner(&mut boards, &draws), Some(1924));
    let mut none = example_boards();
    assert_eq!(aoc_grid::bingo::first_winner(&mut none, &vec![99, 98]), None);
}

#[test]
fn octopus_first_full_flash() {
    let rows = puzzle_lines(&["5483143223", "2745854711", "5264556173", "6141336146", "6357385478",
        "4167524645", "2176841721", "6882881134", "4846848554", "5283751526"]);
    let mut g: Grid<u8> = Grid::parse_grid(&rows, "").unwrap();
    assert_eq!(aoc_grid::octopus::first_full_flash(&mut g, 1000), Some(195));
    let mut h: Grid<u8> = Grid::parse_grid(&rows, "").unwrap();
    assert_eq!(aoc_grid::octopus::first_full_flash(&mut h, 100), None);
}
