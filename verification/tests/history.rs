use lotto_picker::error::LottoError;
use lotto_picker::history::{numbers_of_runs, parse_history, parse_line, parse_number, LineLayout};

fn lines(text: &[&str]) -> Vec<String> {
    text.iter().map(|s| s.to_string()).collect()
}

#[test]
fn number_of_a_digit_run() {
    assert_eq!(parse_number("0"), Some(0));
    assert_eq!(parse_number("007"), Some(7));
    assert_eq!(parse_number("123"), Some(123));
    assert_eq!(parse_number("4294967295"), Some(u32::MAX));
}

#[test]
fn number_that_is_none() {
    assert_eq!(parse_number(""), None);
    assert_eq!(parse_number("4294967296"), None);
    assert_eq!(parse_number("99999999999999999999999"), None);
    assert_eq!(parse_number("12a"), None);
    assert_eq!(parse_number("-1"), None);
    assert_eq!(parse_number("\u{0663}"), None);
}

#[test]
fn line_of_five_numbers() {
    assert_eq!(parse_line("5, 12-33 44;60", 5), Ok(vec![5, 12, 33, 44, 60]));
    assert_eq!(parse_line("  01 02 03  ", 3), Ok(vec![1, 2, 3]));
    assert_eq!(parse_line("a1b22c333", 3), Ok(vec![1, 22, 333]));
    assert_eq!(parse_line("no numbers", 0), Ok(vec![]));
    assert_eq!(parse_line("\u{0663} 4 \u{0669}", 1), Ok(vec![4]));
}

#[test]
fn line_with_wrong_count_is_malformed() {
    assert_eq!(parse_line("5, 12-33 44;60", 6), Err(LottoError::MalformedLine));
    assert_eq!(parse_line("5, 12-33 44;60", 4), Err(LottoError::MalformedLine));
    assert_eq!(parse_line("", 1), Err(LottoError::MalformedLine));
}

#[test]
fn line_with_too_large_a_number_is_malformed() {
    assert_eq!(parse_line("1 2 99999999999", 3), Err(LottoError::MalformedLine));
}

#[test]
fn runs_become_numbers() {
    assert_eq!(numbers_of_runs(&lines(&["10", "20"]), 2), Ok(vec![10, 20]));
    assert_eq!(numbers_of_runs(&lines(&["10", "x"]), 2), Err(LottoError::MalformedLine));
}

#[test]
fn second_line_of_each_group_of_five() {
    let text = lines(&[
        "Sat 1 Jan 2022",
        "1 2 3",
        "Jackpot 100",
        "x",
        "",
        "Wed 5 Jan 2022",
        "4 5 6",
        "Jackpot 7",
        "y",
        "",
        "Sat 8 Jan 2022",
        "1 5 9",
    ]);
    let h = parse_history(&text, &LineLayout { group: 5, position: 2, numbers: 3 }).unwrap();
    assert_eq!(h.draws, vec![vec![1, 2, 3], vec![4, 5, 6], vec![1, 5, 9]]);
    assert_eq!(h.observations, vec![1, 2, 3, 4, 5, 6, 1, 5, 9]);
}

#[test]
fn second_line_of_each_pair() {
    let text = lines(&["date 11", "7 8", "date 12", "9 10", "date 13"]);
    let h = parse_history(&text, &LineLayout { group: 2, position: 2, numbers: 2 }).unwrap();
    assert_eq!(h.draws, vec![vec![7, 8], vec![9, 10]]);
    assert_eq!(h.observations, vec![7, 8, 9, 10]);
}

#[test]
fn every_line_is_a_draw() {
    let text = lines(&["1 2", "3 4"]);
    let h = parse_history(&text, &LineLayout { group: 1, position: 1, numbers: 2 }).unwrap();
    assert_eq!(h.observations, vec![1, 2, 3, 4]);
}

#[test]
fn no_lines_give_no_draws() {
    let h = parse_history(&Vec::new(), &LineLayout { group: 5, position: 2, numbers: 5 }).unwrap();
    assert!(h.draws.is_empty());
    assert!(h.observations.is_empty());
}

#[test]
fn malformed_data_line_fails_the_history() {
    let text = lines(&["h", "1 2 3", "h", "1 2"]);
    let r = parse_history(&text, &LineLayout { group: 2, position: 2, numbers: 3 });
    assert!(matches!(r, Err(LottoError::MalformedLine)));
}

#[test]
fn layout_outside_its_group_is_refused() {
    let text = lines(&["1 2 3"]);
    for (group, position) in [(0, 0), (0, 1), (5, 0), (5, 6)] {
        let r = parse_history(&text, &LineLayout { group, position, numbers: 3 });
        assert!(matches!(r, Err(LottoError::InvalidRange)));
    }
}
