use word_shield::text::{
    byte_len_within, chars_of, dictionary_from_text, lines_of, parse_i32_text, push_i32,
    push_repeated, push_text, push_u64, split_text,
};

#[test]
fn i32_text_matches_display() {
    for v in [0, 7, 10, -5, 120, -2147483648, 2147483647, 1000000] {
        let mut s = String::new();
        push_i32(&mut s, v);
        assert_eq!(s, v.to_string());
    }
}

#[test]
fn u64_text_matches_display() {
    let mut s = String::from("t=");
    push_u64(&mut s, 18446744073709551615);
    assert_eq!(s, "t=18446744073709551615");
}

#[test]
fn parse_i32_like_std() {
    for t in [
        "", "+", "-", "0", "+5", "-5", "12a", "2147483647", "2147483648", "-2147483648",
        "-2147483649", "007", " 1", "+-1", "99999999999999999999",
    ] {
        assert_eq!(parse_i32_text(t), t.parse::<i32>().ok(), "input {:?}", t);
    }
}

#[test]
fn lines_like_std() {
    for t in ["", "a", "a\n", "a\n\n", "a\r\nb\r", "\n", "x\r\n\r\ny", "one\ntwo\nthree"] {
        let ours = lines_of(t);
        let std: Vec<String> = t.lines().map(|l| l.to_string()).collect();
        assert_eq!(ours, std, "input {:?}", t);
    }
}

#[test]
fn split_like_std() {
    for t in ["", ";", "a;b;c;d", ";;x", "no separator"] {
        let ours = split_text(t, ';');
        let std: Vec<String> = t.split(';').map(|l| l.to_string()).collect();
        assert_eq!(ours, std, "input {:?}", t);
    }
}

#[test]
fn dictionary_splits_on_crlf_and_drops_empty() {
    let d = dictionary_from_text("cat\r\ndog\r\n\r\nbird\r\n");
    assert_eq!(d, vec!["cat", "dog", "bird"]);
    let d = dictionary_from_text("a\nb\r\r\nc");
    assert_eq!(d, vec!["a\nb\r", "c"]);
    assert!(dictionary_from_text("").is_empty());
}

#[test]
fn byte_length_counts_utf8_bytes() {
    assert_eq!(byte_len_within("åsa", 100), Some(4));
    assert_eq!(byte_len_within("abc", 3), Some(3));
    assert_eq!(byte_len_within("abcd", 3), None);
    assert_eq!(byte_len_within("😀", 10), Some(4));
}

#[test]
fn repeat_and_append() {
    let mut s = String::from(">");
    push_repeated(&mut s, '-', 4);
    push_text(&mut s, "ok");
    assert_eq!(s, ">----ok");
    assert_eq!(chars_of("hé").len(), 2);
}
