use hostsync::table::{find_whitespace, is_space, parse_lines, read_line, serialize, trimmed, TableLine};

fn line(address: &str, hostname: &str) -> TableLine {
    TableLine { address: address.to_string(), hostname: hostname.to_string() }
}

fn chars(text: &str) -> Vec<char> {
    text.chars().collect()
}

#[test]
fn whitespace_is_what_the_standard_library_says() {
    for code in 0u32..0x3100 {
        if let Some(c) = char::from_u32(code) {
            assert_eq!(is_space(c), c.is_whitespace(), "U+{:04X}", code);
        }
    }
    assert!(!is_space('#'));
    assert!(!is_space('\u{feff}'));
}

#[test]
fn trimmed_drops_whitespace_at_both_ends_only() {
    assert_eq!(trimmed(&chars("  \t a b \r")), &chars("a b")[..]);
    assert_eq!(trimmed(&chars("\u{a0}x\u{3000}")), &chars("x")[..]);
    assert_eq!(trimmed(&chars(" \t ")), &chars("")[..]);
    assert_eq!(trimmed(&chars("")), &chars("")[..]);
    let same = chars("same");
    assert_eq!(trimmed(&same), &same[..]);
}

#[test]
fn find_whitespace_gives_the_first_one_or_the_length() {
    assert_eq!(find_whitespace(&chars("a b c")), 1);
    assert_eq!(find_whitespace(&chars(" x")), 0);
    assert_eq!(find_whitespace(&chars("ab\tc d")), 2);
    assert_eq!(find_whitespace(&chars("abc")), 3);
    assert_eq!(find_whitespace(&chars("")), 0);
}

#[test]
fn read_line_splits_at_the_first_whitespace() {
    assert_eq!(read_line(&chars("10.0.0.5 printer")), Some(line("10.0.0.5", "printer")));
    assert_eq!(read_line(&chars("  10.0.0.5 printer  \r")), Some(line("10.0.0.5", "printer")));
    assert_eq!(read_line(&chars("10.0.0.5  a b")), Some(line("10.0.0.5", " a b")));
    assert_eq!(read_line(&chars("not-an-ip somehost")), Some(line("not-an-ip", "somehost")));
    assert_eq!(read_line(&chars("10.0.0.5\tprinter")), Some(line("10.0.0.5", "printer")));
    assert_eq!(read_line(&chars("10.0.0.5\t printer x")), Some(line("10.0.0.5", " printer x")));
}

#[test]
fn read_line_skips_comments_blanks_and_lines_without_whitespace() {
    assert_eq!(read_line(&chars("# managed by tool")), None);
    assert_eq!(read_line(&chars("   #10.0.0.5 printer")), None);
    assert_eq!(read_line(&chars("")), None);
    assert_eq!(read_line(&chars("   \t")), None);
    assert_eq!(read_line(&chars("10.0.0.5")), None);
    assert_eq!(read_line(&chars("10.0.0.5 ")), None);
}

#[test]
fn comment_and_blank_lines_are_dropped() {
    let data = b"# managed by tool\n\n127.0.0.1 localhost\n   \n10.0.0.5 printer\n";
    let lines = parse_lines(data);
    assert_eq!(lines, vec![line("127.0.0.1", "localhost"), line("10.0.0.5", "printer")]);
    let text = serialize(&lines);
    assert_eq!(text, "127.0.0.1 localhost\n10.0.0.5 printer");
    assert!(!text.contains('#'));
    assert!(!text.contains("\n\n"));
}

#[test]
fn parse_keeps_file_order_and_duplicates() {
    let lines = parse_lines(b"10.0.0.2 b\n10.0.0.1 a\n10.0.0.2 b");
    assert_eq!(lines, vec![line("10.0.0.2", "b"), line("10.0.0.1", "a"), line("10.0.0.2", "b")]);
}

#[test]
fn parse_of_nothing_is_nothing() {
    assert!(parse_lines(b"").is_empty());
    assert!(parse_lines(b"\n\n\n").is_empty());
    assert!(parse_lines(b"nospace").is_empty());
}

#[test]
fn parse_handles_carriage_returns_as_whitespace() {
    assert_eq!(parse_lines(b"10.0.0.1 a\r\n10.0.0.2 b\r\n"), vec![line("10.0.0.1", "a"), line("10.0.0.2", "b")]);
}

#[test]
fn invalid_bytes_are_replaced_not_rejected() {
    let lines = parse_lines(b"10.0.0.1 h\xffst\n");
    assert_eq!(lines, vec![line("10.0.0.1", "h\u{fffd}st")]);
}

#[test]
fn valid_multibyte_text_is_decoded() {
    let lines = parse_lines("10.0.0.1 caf\u{e9}\u{a0}\n".as_bytes());
    assert_eq!(lines, vec![line("10.0.0.1", "caf\u{e9}")]);
}

#[test]
fn address_token_is_taken_as_it_stands() {
    assert_eq!(parse_lines(b"not-an-ip somehost"), vec![line("not-an-ip", "somehost")]);
}

#[test]
fn serialize_joins_lines_with_newlines() {
    assert_eq!(serialize(&vec![]), "");
    assert_eq!(serialize(&vec![line("10.0.0.5", "printer")]), "10.0.0.5 printer");
    assert_eq!(
        serialize(&vec![line("10.0.0.5", "printer"), line("fe80::1", "printer"), line("::1", "a b")]),
        "10.0.0.5 printer\nfe80::1 printer\n::1 a b"
    );
}

#[test]
fn written_table_reads_back_and_writes_the_same() {
    let lines = vec![
        line("127.0.0.1", "localhost"),
        line("ff02::1", "ip6-allnodes"),
        line("10.0.0.5", " two  words"),
        line("fe80::1", "caf\u{e9}"),
    ];
    let text = serialize(&lines);
    let back = parse_lines(text.as_bytes());
    assert_eq!(back, lines);
    assert_eq!(serialize(&back), text);
    assert_eq!(serialize(&back).as_bytes(), text.as_bytes());
}

#[test]
fn reading_and_writing_settles_after_one_round() {
    let data = b"# c\n 10.0.0.1   a \n\nbad\n10.0.0.2 b\n";
    let once = serialize(&parse_lines(data));
    assert_eq!(once, "10.0.0.1   a\n10.0.0.2 b");
    let twice = serialize(&parse_lines(once.as_bytes()));
    assert_eq!(twice, once);
}
