use graph_metrics::ingest::{is_space_char, parse_edge_line, parse_number, LineError};

fn word(s: &str) -> Vec<char> {
    s.chars().collect()
}

#[test]
fn line_of_two_numbers_is_an_edge() {
    assert_eq!(parse_edge_line("1 2"), Ok(Some((1, 2))));
    assert_eq!(parse_edge_line("  17\t-4  "), Ok(Some((17, -4))));
    assert_eq!(parse_edge_line("+3 003\r"), Ok(Some((3, 3))));
    assert_eq!(parse_edge_line("-2147483648 2147483647"), Ok(Some((i32::MIN, i32::MAX))));
    assert_eq!(parse_edge_line("5\u{a0}6"), Ok(Some((5, 6))));
    assert_eq!(parse_edge_line("5\u{3000}\u{2003}6\u{85}"), Ok(Some((5, 6))));
}

#[test]
fn line_with_another_number_of_words_is_skipped() {
    assert_eq!(parse_edge_line(""), Ok(None));
    assert_eq!(parse_edge_line("   \t "), Ok(None));
    assert_eq!(parse_edge_line("12"), Ok(None));
    assert_eq!(parse_edge_line("1 2 3"), Ok(None));
    assert_eq!(parse_edge_line("1 2 3 4"), Ok(None));
}

#[test]
fn line_with_a_word_that_is_no_number_cannot_be_read() {
    assert_eq!(parse_edge_line("a b"), Err(LineError::BadNumber));
    assert_eq!(parse_edge_line("# nodes"), Err(LineError::BadNumber));
    assert_eq!(parse_edge_line("1 2 x"), Err(LineError::BadNumber));
    assert_eq!(parse_edge_line("x"), Err(LineError::BadNumber));
    assert_eq!(parse_edge_line("1 2.5"), Err(LineError::BadNumber));
    assert_eq!(parse_edge_line("1 2147483648"), Err(LineError::BadNumber));
    assert_eq!(parse_edge_line("-2147483649 1"), Err(LineError::BadNumber));
    assert_eq!(parse_edge_line("1,2"), Err(LineError::BadNumber));
    assert_eq!(parse_edge_line("1 - 2"), Err(LineError::BadNumber));
    assert_eq!(parse_edge_line("1\u{200b}2 3"), Err(LineError::BadNumber));
}

#[test]
fn numbers_are_read_as_the_standard_library_reads_them() {
    let samples = [
        "", "0", "-0", "+0", "7", "-7", "+7", "0007", "-", "+", "--1", "+-1", "-+1", "1-", "12a",
        "a12", " 1", "1 ", "2147483647", "2147483648", "-2147483648", "-2147483649",
        "99999999999999999999999999", "-99999999999999999999999999", "00000000000000000000001",
        "1_000", "0x10", "١٢", "１２", "1e3", "４",
    ];
    for s in samples {
        assert_eq!(parse_number(&word(s)), s.parse::<i32>().ok(), "{:?}", s);
    }
    assert_eq!(parse_number(&word("2147483647")), Some(i32::MAX));
    assert_eq!(parse_number(&word("-2147483648")), Some(i32::MIN));
    assert_eq!(parse_number(&word("2147483648")), None);
}

#[test]
fn white_space_is_what_the_standard_library_takes_for_it() {
    for u in 0..0x11_0000u32 {
        if let Some(c) = char::from_u32(u) {
            assert_eq!(is_space_char(c), c.is_whitespace(), "{:x}", u);
        }
    }
}

#[test]
fn lines_split_as_the_standard_library_splits_them() {
    let lines = [
        "1 2", " 1  2 ", "1\t2\n", "10 20 30", "", " ", "1", "-1 +2", "1\u{2028}2", "a", "1 b",
        "\u{1680}4\u{205f}5\u{202f}",
    ];
    for line in lines {
        let mut numbers = Vec::new();
        let mut bad = false;
        for w in line.split_whitespace() {
            match w.parse::<i32>() {
                Ok(v) => numbers.push(v),
                Err(_) => bad = true,
            }
        }
        let expected = if bad {
            Err(LineError::BadNumber)
        } else if numbers.len() == 2 {
            Ok(Some((numbers[0], numbers[1])))
        } else {
            Ok(None)
        };
        assert_eq!(parse_edge_line(line), expected, "{:?}", line);
    }
}
