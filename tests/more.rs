use aoc_grid::basin::{basin_sizes, largest_three_product, low_points, risk_level};
use aoc_grid::grid::{Coord, Grid};
use aoc_grid::origami::{FoldLine, Origami};
use aoc_grid::vents::{Line, Pos, Vents};
use aoc_grid::caves::CaveSystem;
use aoc_grid::polymer::Polymer;
use aoc_grid::segments::Signal;

fn text_lines(v: &[&str]) -> Vec<String> {
    v.iter().map(|s| s.to_string()).collect()
}

#[test]
fn vent_lines_parse_and_overlap() {
    let text = ["0,9 -> 5,9", "8,0 -> 0,8", "9,4 -> 3,4", "2,2 -> 2,1", "7,0 -> 7,4", "6,4 -> 2,0",
        "0,9 -> 2,9", "3,4 -> 1,4", "0,0 -> 8,8", "5,5 -> 8,2"];
    let parsed: Vec<Line> = text.iter().map(|s| Line::try_from(s).unwrap()).collect();
    assert_eq!(parsed[0], Line { start: Pos { x: 0, y: 9 }, end: Pos { x: 5, y: 9 } });
    let mut straight = Vents::new();
    for l in parsed.iter().filter(|l| l.is_horz_vert()) {
        l.mark(&mut straight);
    }
    assert_eq!(straight.overlaps(), 5);
    let mut all = Vents::new();
    for l in &parsed {
        l.mark(&mut all);
    }
    assert_eq!(all.overlaps(), 12);
}

#[test]
fn vent_parse_errors_and_flags() {
    assert!(Line::try_from("1,2 -> 3").is_err());
    assert!(Line::try_from("1,2 - 3,4").is_err());
    assert!(Pos::try_from("1,b").is_err());
    assert_eq!(Pos::try_from("-3,4"), Ok(Pos { x: -3, y: 4 }));
    assert!(Line { start: Pos { x: 1, y: 1 }, end: Pos { x: 1, y: 5 } }.is_horz_vert());
    assert!(!Line { start: Pos { x: 1, y: 1 }, end: Pos { x: 3, y: 3 } }.is_horz_vert());
    let mut v = Vents::new();
    assert!(v.has_room());
    Line { start: Pos { x: 4, y: 4 }, end: Pos { x: 4, y: 4 } }.mark(&mut v);
    assert_eq!(v.overlaps(), 0);
    Line { start: Pos { x: 0, y: 0 }, end: Pos { x: 2, y: 0 } }.mark(&mut v);
    Line { start: Pos { x: 2, y: 0 }, end: Pos { x: 2, y: 2 } }.mark(&mut v);
    assert_eq!(v.overlaps(), 1);
    assert!(v.has_room());
}

#[test]
fn origami_folds() {
    let text = ["6,10", "0,14", "9,10", "0,3", "10,4", "4,11", "6,0", "6,12", "4,1", "0,13", "10,12", "3,4",
        "3,0", "8,4", "1,10", "2,14", "8,10", "9,0", "", "fold along y=7", "fold along x=5"];
    let mut o = Origami::parse_origami(&text_lines(&text)).unwrap();
    assert_eq!(o.dot_list().len(), 18);
    assert!(o.next_fits());
    assert_eq!(o.fold_one(), Some(17));
    o.fold();
    assert_eq!(o.dot_list().len(), 16);
    assert_eq!(o.fold_one(), None);
    let rows = o.render();
    assert_eq!(rows.len(), 5);
    assert_eq!(rows[0], vec![true, true, true, true, true]);
    assert_eq!(rows[1], vec![true, false, false, false, true]);
    assert_eq!(rows[4], vec![true, true, true, true, true]);
}

#[test]
fn origami_parse_details() {
    assert_eq!(FoldLine::from_str("fold along x=5"), Ok(FoldLine::FoldX(5)));
    assert_eq!(FoldLine::from_str("fold along y=7"), Ok(FoldLine::FoldY(7)));
    assert!(FoldLine::from_str("fold along z=7").is_err());
    assert!(FoldLine::from_str("fold along x").is_err());
    assert!(Origami::parse_origami(&text_lines(&["1,2", "", "fold along q=1"])).is_err());
    assert!(Origami::parse_origami(&text_lines(&["1;2"])).is_err());
    let o = Origami::parse_origami(&text_lines(&["1,2", "1,2", "3,0"])).unwrap();
    assert_eq!(o.dot_list(), vec![Coord { x: 1, y: 2 }, Coord { x: 3, y: 0 }]);
}

#[test]
fn height_map_risk_and_basins() {
    let h: Grid<u32> = Grid::parse_grid(&text_lines(&["2199943210", "3987894921", "9856789892",
        "8767896789", "9899965678"]), "").unwrap();
    let lows = low_points(&h).unwrap();
    assert_eq!(lows, vec![(1, 0, 1), (9, 0, 0), (2, 2, 5), (6, 4, 5)]);
    assert_eq!(risk_level(&lows), 15);
    let sizes = basin_sizes(&h, &lows);
    assert_eq!(sizes, vec![3, 9, 14, 9]);
    assert_eq!(largest_three_product(&sizes), Some(1134));
}

#[test]
fn height_map_edge_cases() {
    let one: Grid<u32> = Grid::parse_grid(&text_lines(&["5"]), "").unwrap();
    assert_eq!(low_points(&one), Err("no min"));
    assert_eq!(largest_three_product(&vec![]), Some(1));
    assert_eq!(largest_three_product(&vec![2, 0, 7, 3]), Some(42));
    assert_eq!(largest_three_product(&vec![5, 0]), Some(0));
    assert_eq!(largest_three_product(&vec![usize::MAX, usize::MAX, 2]), None);
}

#[test]
fn cave_readiness() {
    let g = CaveSystem::parse_system(&text_lines(&["start-A", "A-end"])).unwrap();
    assert!(g.paths_ready());
    let joined = CaveSystem::parse_system(&text_lines(&["start-A", "A-B", "B-end"])).unwrap();
    assert!(!joined.paths_ready());
    let no_start = CaveSystem::parse_system(&text_lines(&["a-end"])).unwrap();
    assert!(!no_start.paths_ready());
}

#[test]
fn polymer_counts_after_steps() {
    let text = ["NNCB", "", "CH -> B", "HH -> N", "CB -> H", "NH -> C", "HB -> C", "HC -> B", "HN -> C",
        "NN -> C", "BH -> H", "NC -> B", "NB -> B", "BN -> B", "BB -> N", "BC -> B", "CC -> N", "CN -> C"];
    let p = Polymer::parse_polymer(&text_lines(&text)).unwrap();
    assert_eq!(p.template_len(), 4);
    assert_eq!(p.dynamic_count(0).spread(), Some(1));
    assert_eq!(p.dynamic_count(10).spread(), Some(1588));
    assert_eq!(p.dynamic_count(40).spread(), Some(2188189693529));
    let table = p.counts_table(1);
    assert_eq!(table.len(), 16);
}

#[test]
fn polymer_parse_errors_and_overrides() {
    assert_eq!(Polymer::parse_polymer(&vec![]).err(), Some("error no template"));
    assert_eq!(Polymer::parse_polymer(&text_lines(&["AB", "", "AB -> "])).err(), Some("bad rule"));
    assert_eq!(Polymer::parse_polymer(&text_lines(&["AB", "", "ABC -> D"])).err(), Some("bad rule"));
    let p = Polymer::parse_polymer(&text_lines(&["AB", "", "AB -> C", "AB -> A"])).unwrap();
    assert_eq!(p.counts_table(0).len(), 1);
    assert_eq!(p.dynamic_count(1).spread(), Some(1));
}

#[test]
fn seven_segment_deduction() {
    let s = Signal::from_str("acedgfb cdfbe gcdfa fbcad dab cefabd cdfgeb eafb cagedb ab | cdfeb fcadb cdfeb cdbaf").unwrap();
    assert_eq!(s.deduce(), Ok(5353));
    assert_eq!(s.unique_outputs(), 0);
    let t = Signal::from_str("be cfbegad cbdgef fgaecd cgeb fdcge agebfd fecdb fabcd edb | fdgacbe cefdb cefbgd gcbe").unwrap();
    assert_eq!(t.deduce(), Ok(8394));
    assert_eq!(t.unique_outputs(), 2);
    assert!(Signal::from_str("ab cd").is_err());
    assert!(Signal::from_str("xy ab | ab").is_err());
    let missing = Signal::from_str("ab abc | ab").unwrap();
    assert!(missing.deduce().is_err());
}

#[test]
fn polymer_exact_counts() {
    let text = ["NNCB", "", "CH -> B", "HH -> N", "CB -> H", "NH -> C", "HB -> C", "HC -> B", "HN -> C",
        "NN -> C", "BH -> H", "NC -> B", "NB -> B", "BN -> B", "BB -> N", "BC -> B", "CC -> N", "CN -> C"];
    let p = Polymer::parse_polymer(&text_lines(&text)).unwrap();
    let ten = p.dynamic_count(10);
    assert_eq!((ten.get('B'), ten.get('C'), ten.get('H'), ten.get('N')), (1749, 298, 161, 865));
    assert_eq!(ten.kinds(), 4);
    assert_eq!(ten.get('Z'), 0);
    let zero = p.dynamic_count(0);
    assert_eq!((zero.get('N'), zero.get('C'), zero.get('B')), (2, 1, 1));
    assert_eq!(zero.kinds(), 3);
}
