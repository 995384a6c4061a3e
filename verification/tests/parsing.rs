use hifzr::hifz::{detect_available_ayahs, parse_verses_spec};

fn parse_ok(s: &str) -> Vec<u32> {
    parse_verses_spec(s).expect("selection should parse")
}

#[test]
fn parses_ranges_and_singles_sorted_deduped() {
    assert_eq!(parse_ok("1-3,5,7-8"), vec![1, 2, 3, 5, 7, 8]);
}

#[test]
fn parses_longer_mix() {
    assert_eq!(parse_ok("1-5,7,10-12"), vec![1, 2, 3, 4, 5, 7, 10, 11, 12]);
}

#[test]
fn inverted_range_fails_with_token() {
    let e = parse_verses_spec("5-2").unwrap_err();
    assert_eq!(e.token, "5-2");
}

#[test]
fn bad_number_fails_with_token() {
    let e = parse_verses_spec("1,abc,3").unwrap_err();
    assert_eq!(e.token, "abc");
}

#[test]
fn whitespace_around_tokens_is_ignored() {
    assert_eq!(parse_ok(" 1 ,  2-3 "), vec![1, 2, 3]);
}

#[test]
fn empty_tokens_are_ignored() {
    assert_eq!(parse_ok(""), Vec::<u32>::new());
    assert_eq!(parse_ok("1,,2,"), vec![1, 2]);
}

#[test]
fn duplicates_are_merged() {
    assert_eq!(parse_ok("2,1-3,2"), vec![1, 2, 3]);
}

#[test]
fn overflowing_number_fails() {
    assert!(parse_verses_spec("99999999999").is_err());
}

#[test]
fn detects_numeric_audio_files_sorted() {
    let names = vec![
        "010.mp3".to_string(),
        "001.mp3".to_string(),
        "003.mp3".to_string(),
    ];
    assert_eq!(detect_available_ayahs(&names), vec![1, 3, 10]);
}

#[test]
fn detection_skips_foreign_files() {
    let names = vec![
        "001.mp3".to_string(),
        "notes.txt".to_string(),
        "abc.mp3".to_string(),
        ".silence_1000ms.mp3".to_string(),
        "hifz_ayah.m3u".to_string(),
        "002.mp3".to_string(),
    ];
    assert_eq!(detect_available_ayahs(&names), vec![1, 2]);
}

#[test]
fn detection_dedupes_equal_numbers() {
    let names = vec!["001.mp3".to_string(), "1.mp3".to_string()];
    assert_eq!(detect_available_ayahs(&names), vec![1]);
}
