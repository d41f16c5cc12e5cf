use rough::yaml::Parser;

fn split(s: &str) -> (String, String) {
    Parser::parse(s)
}

#[test]
fn round_trip_front_matter_and_body() {
    let (head, body) = split("---\nkey: v\n---\nbody\n");
    assert_eq!(head, "key: v\n");
    assert_eq!(body, "body\n");
}

#[test]
fn no_leading_delimiter_means_no_front_matter() {
    let (head, body) = split("hello\nworld\n");
    assert_eq!(head, "");
    assert_eq!(body, "hello\nworld\n");
}

#[test]
fn missing_final_newline_is_normalized() {
    let (head, body) = split("hello\nworld");
    assert_eq!(head, "");
    assert_eq!(body, "hello\nworld\n");
}

#[test]
fn delimiter_after_content_is_plain_body() {
    let (head, body) = split("para\n---\nmore\n");
    assert_eq!(head, "");
    assert_eq!(body, "para\n---\nmore\n");
}

#[test]
fn unterminated_head_swallows_the_rest() {
    let (head, body) = split("---\nkey: v\n");
    assert_eq!(head, "key: v\n");
    assert_eq!(body, "");
}

#[test]
fn blank_lines_before_front_matter_are_skipped() {
    let (head, body) = split("\n  \t\n---\nk: v\n---\nx\n");
    assert_eq!(head, "k: v\n");
    assert_eq!(body, "x\n");
}

#[test]
fn delimiter_lines_may_carry_whitespace() {
    let (head, body) = split("  ---  \nk: v\n\t---\t\nbody\n");
    assert_eq!(head, "k: v\n");
    assert_eq!(body, "body\n");
}

#[test]
fn carriage_returns_are_normalized() {
    let (head, body) = split("---\r\nkey: v\r\n---\r\nbody\r\n");
    assert_eq!(head, "key: v\n");
    assert_eq!(body, "body\n");
}

#[test]
fn empty_input_splits_to_empty_parts() {
    let (head, body) = split("");
    assert_eq!(head, "");
    assert_eq!(body, "");
}

#[test]
fn lone_delimiter_opens_an_empty_head() {
    let (head, body) = split("---\n");
    assert_eq!(head, "");
    assert_eq!(body, "");
}

#[test]
fn four_dashes_are_not_a_delimiter() {
    let (head, body) = split("----\nx\n");
    assert_eq!(head, "");
    assert_eq!(body, "----\nx\n");
}

#[test]
fn blank_line_inside_head_is_kept() {
    let (head, body) = split("---\n\nk: v\n---\nx\n");
    assert_eq!(head, "\nk: v\n");
    assert_eq!(body, "x\n");
}

#[test]
fn push_line_walks_the_states() {
    let mut p = Parser::new();
    p.push_line("---");
    assert_eq!(p.head().as_str(), "");
    p.push_line("k: v");
    assert_eq!(p.head().as_str(), "k: v\n");
    assert_eq!(p.body().as_str(), "");
    p.push_line("---");
    p.push_line("tail");
    assert_eq!(p.head().as_str(), "k: v\n");
    assert_eq!(p.body().as_str(), "tail\n");
}

#[test]
fn unicode_whitespace_trims_on_delimiter_lines() {
    let (head, body) = split("---\u{a0}\nk: v\n---\u{a0}\nx\n");
    assert_eq!(head, "k: v\n");
    assert_eq!(body, "x\n");
}

#[test]
fn no_break_space_line_is_blank_before_front_matter() {
    let (head, body) = split("\u{a0}\n---\nk: v\n---\nx\n");
    assert_eq!(head, "k: v\n");
    assert_eq!(body, "x\n");
}

#[test]
fn bare_final_carriage_return_is_kept() {
    let (head, body) = split("x\r");
    assert_eq!(head, "");
    assert_eq!(body, "x\r\n");
}
