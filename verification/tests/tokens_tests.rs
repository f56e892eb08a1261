use procon::tokens::{chars_of, parse_usize};

#[test]
fn test_read_vec2() {
    let source = "1 2 3 4 5 6";
    let mut tokens = source.split_whitespace();
    let mut a: Vec<Vec<usize>> = Vec::new();
    for _ in 0..2 {
        let mut row: Vec<usize> = Vec::new();
        for _ in 0..3 {
            row.push(parse_usize(tokens.next().unwrap()).unwrap());
        }
        a.push(row);
    }

    assert_eq!(a.len(), 2);
    assert_eq!(a, vec![vec![1, 2, 3], vec![4, 5, 6]]);
}

#[test]
fn test_read_chars() {
    let source = "Hello!";
    let a = chars_of(source);

    assert_eq!(a, vec!['H', 'e', 'l', 'l', 'o', '!']);
}

#[test]
fn parse_usize_reads_decimal_tokens() {
    assert_eq!(parse_usize("0"), Some(0));
    assert_eq!(parse_usize("42"), Some(42));
    assert_eq!(parse_usize("007"), Some(7));
    assert_eq!(parse_usize(&usize::MAX.to_string()), Some(usize::MAX));
}

#[test]
fn parse_usize_rejects_what_is_not_a_number() {
    assert_eq!(parse_usize(""), None);
    assert_eq!(parse_usize("12x"), None);
    assert_eq!(parse_usize("-3"), None);
    assert_eq!(parse_usize("4.5"), None);
    assert_eq!(parse_usize("drei"), None);
    // One more digit than the largest value the type can hold.
    let too_big = format!("{}0", usize::MAX);
    assert_eq!(parse_usize(&too_big), None);
}

#[test]
fn chars_of_handles_empty_and_wide_characters() {
    assert_eq!(chars_of(""), Vec::<char>::new());
    assert_eq!(chars_of("a\u{00e9}\u{4e16}"), vec!['a', '\u{00e9}', '\u{4e16}']);
}
