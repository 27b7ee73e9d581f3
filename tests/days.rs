use aoc_grid::crabs::{l1, not_l2};
use aoc_grid::depth::count_increases;
use aoc_grid::dive::{aimed_product, parse_command, plain_product, Command};
use aoc_grid::lanternfish::step;
use aoc_grid::syntax::{lookup, parse_score, Score};

#[test]
fn depth_readings_increase_seven_times() {
    let d = vec![199, 200, 208, 210, 200, 207, 240, 269, 260, 263];
    assert_eq!(count_increases(&d, 1), 7);
    assert_eq!(count_increases(&d, 3), 5);
    assert_eq!(count_increases(&vec![], 1), 0);
    assert_eq!(count_increases(&vec![5], 1), 0);
}

#[test]
fn submarine_commands_plain_and_aimed() {
    let text = ["forward 5", "down 5", "forward 8", "up 3", "down 8", "forward 2"];
    let cmds: Vec<Command> = text.iter().map(|s| parse_command(s).unwrap()).collect();
    assert_eq!(cmds[0], Command::Forward(5));
    assert_eq!(cmds[3], Command::Up(3));
    assert_eq!(plain_product(&cmds), Some(150));
    assert_eq!(aimed_product(&cmds), Some(900));
}

#[test]
fn submarine_command_errors() {
    assert!(parse_command("sideways 3").is_err());
    assert!(parse_command("forward").is_err());
    assert!(parse_command("forward x").is_err());
    assert!(parse_command("forward 1 2").is_err());
    assert_eq!(parse_command("down -4"), Ok(Command::Down(-4)));
    assert_eq!(parse_command("up 2147483647"), Ok(Command::Up(2147483647)));
    assert!(parse_command("up 2147483648").is_err());
}

#[test]
fn lanternfish_day() {
    let mut ages = [0u64, 1, 1, 2, 1, 0, 0, 0, 0];
    step(&mut ages);
    assert_eq!(ages, [1, 1, 2, 1, 0, 0, 0, 0, 0]);
    step(&mut ages);
    assert_eq!(ages, [1, 2, 1, 0, 0, 0, 1, 0, 1]);
}

#[test]
fn crab_fuel() {
    let xs = vec![16, 1, 2, 0, 4, 2, 7, 1, 2, 14];
    assert_eq!(l1(2, &xs), 37);
    assert_eq!(l1(1, &xs), 41);
    assert_eq!(not_l2(5, &xs), 168);
    assert_eq!(not_l2(2, &xs), 206);
    assert_eq!(l1(0, &vec![i32::MIN, i32::MAX]), 4294967295);
}

#[test]
fn lookup_takes_first_match() {
    let t = [('a', 1), ('b', 2), ('a', 3)];
    assert_eq!(lookup(&t, 'a'), Ok(1));
    assert_eq!(lookup(&t, 'b'), Ok(2));
    assert_eq!(lookup(&t, 'z'), Err("bad lookup"));
}

#[test]
fn bracket_scores() {
    assert_eq!(parse_score("{([(<{}[<>[]}>{[]{[(<()>"), Ok(Score::ErrorScore(1197)));
    assert_eq!(parse_score("[[<[([]))<([[{}[[()]]]"), Ok(Score::ErrorScore(3)));
    assert_eq!(parse_score("<{([([[(<>()){}]>(<<{{"), Ok(Score::ErrorScore(25137)));
    assert_eq!(parse_score("[({(<(())[]>[[{[]{<()<>>"), Ok(Score::CompleteScore(288957)));
    assert_eq!(parse_score("<{([{{}}[<[[[<>{}]]]>[]]"), Ok(Score::CompleteScore(294)));
    assert_eq!(parse_score(""), Ok(Score::CompleteScore(0)));
    assert_eq!(parse_score(")"), Ok(Score::ErrorScore(3)));
    assert_eq!(parse_score("(a)"), Err("invalid character"));
}

#[test]
fn bracket_completion_out_of_range() {
    let line: String = std::iter::repeat('<').take(40).collect();
    assert_eq!(parse_score(&line), Err("completion score out of range"));
}

#[test]
fn middle_completion_score() {
    let scores = vec![288957, 5566, 1480781, 995444, 294];
    assert_eq!(aoc_grid::syntax::middle_score(&scores), Some(288957));
    assert_eq!(aoc_grid::syntax::middle_score(&vec![]), None);
    assert_eq!(aoc_grid::syntax::middle_score(&vec![4, 1]), Some(4));
}

#[test]
fn diagnostic_rates_and_ratings() {
    let report: Vec<String> = ["00100", "11110", "10110", "10111", "10101", "01111", "00111", "11100", "10000",
        "11001", "00010", "01010"].iter().map(|s| s.to_string()).collect();
    assert_eq!(aoc_grid::diagnostic::power_rates(&report), Ok((22, 9)));
    assert_eq!(aoc_grid::diagnostic::rating(&report, true), Some(30));
    assert_eq!(aoc_grid::diagnostic::rating(&report, false), Some(2));
}

#[test]
fn diagnostic_bad_reports() {
    let bad: Vec<String> = vec!["01x".to_string()];
    assert!(aoc_grid::diagnostic::power_rates(&bad).is_err());
    assert_eq!(aoc_grid::diagnostic::rating(&bad, true), None);
    assert_eq!(aoc_grid::diagnostic::rating(&vec![], true), None);
    let ragged: Vec<String> = vec!["01".to_string(), "1".to_string()];
    assert_eq!(aoc_grid::diagnostic::rating(&ragged, true), None);
    assert_eq!(aoc_grid::diagnostic::power_rates(&ragged), Ok((0, 1)));
    let same: Vec<String> = vec!["101".to_string(), "101".to_string()];
    assert_eq!(aoc_grid::diagnostic::rating(&same, false), Some(5));
}

#[test]
fn crab_median_mean_and_cheapest() {
    let xs = vec![16, 1, 2, 0, 4, 2, 7, 1, 2, 14];
    assert_eq!(aoc_grid::crabs::median_and_mean(&xs), (2, 4));
    assert_eq!(aoc_grid::crabs::cheapest_stepped(&xs, 2, 6), 168);
    assert_eq!(aoc_grid::crabs::cheapest_stepped(&xs, 2, 3), 206);
    assert_eq!(aoc_grid::crabs::median_and_mean(&vec![-7, -2]), (-2, -4));
}

#[test]
fn lanternfish_timers_and_totals() {
    let mut ages = aoc_grid::lanternfish::count_timers("3,4,3,1,2").unwrap();
    assert_eq!(ages, [0, 1, 1, 2, 1, 0, 0, 0, 0]);
    assert!(aoc_grid::lanternfish::count_timers("3,9").is_none());
    assert!(aoc_grid::lanternfish::count_timers("3,,4").is_none());
    for _ in 0..18 {
        aoc_grid::lanternfish::step(&mut ages);
    }
    assert_eq!(aoc_grid::lanternfish::total(&ages), 26);
    for _ in 18..80 {
        aoc_grid::lanternfish::step(&mut ages);
    }
    assert_eq!(aoc_grid::lanternfish::total(&ages), 5934);
}

#[test]
fn crab_search_range() {
    assert_eq!(aoc_grid::crabs::search_range(2, 4), Some((2, 6)));
    assert_eq!(aoc_grid::crabs::search_range(5, 4), Some((4, 6)));
    assert_eq!(aoc_grid::crabs::search_range(1, i32::MAX), None);
}
