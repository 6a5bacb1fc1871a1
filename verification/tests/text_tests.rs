use raycaster::text::{decimal_string, parse_usize, split_words, trim_white};

fn chars(s: &str) -> Vec<char> {
    s.chars().collect()
}

#[test]
fn usize_parsing_follows_std() {
    for s in ["0", "7", "+12", "0042", "18446744073709551615", "", "+", "-1", "1a", " 1", "++1",
        "18446744073709551616"]
    {
        assert_eq!(parse_usize(&chars(s)), s.parse::<usize>().ok(), "input {:?}", s);
    }
}

#[test]
fn words_and_trimming_follow_std() {
    for s in ["", "  ", "a", " a b  c ", "x\u{3000}y\u{85}z", "\tone\ntwo"] {
        let ours: Vec<&str> = split_words(s);
        let std_words: Vec<&str> = s.split_whitespace().collect();
        assert_eq!(ours, std_words, "input {:?}", s);
        assert_eq!(trim_white(s), s.trim(), "input {:?}", s);
    }
}

#[test]
fn decimal_notation() {
    assert_eq!(decimal_string(0), "0");
    assert_eq!(decimal_string(20), "20");
    assert_eq!(decimal_string(1234567), "1234567");
}
