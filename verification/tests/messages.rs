use script_parser::{parse, parse_message_script, Error, Message, NumError};

fn message(name: &str, location: u32, pages: &[&[&str]]) -> Message {
    Message {
        name: name.to_string(),
        location,
        pages: pages
            .iter()
            .map(|page| page.iter().map(|line| line.to_string()).collect())
            .collect(),
    }
}

#[test]
fn page_break_and_end_marker_split_pages() {
    let messages =
        parse_message_script("MSG1:: @ 8\n.string \"Hello\\p\"\n.string \"World$\"\n").unwrap();
    assert_eq!(messages, vec![message("MSG1", 8, &[&["Hello"], &["World"]])]);
}

#[test]
fn line_breaks_add_lines_to_a_page() {
    let text = "MSG1:: @ 8\n.string \"one\\n\"\n.string \"two\\l\"\n.string \"three\\p\"\n.string \"four$\"\n";
    let messages = parse_message_script(text).unwrap();
    assert_eq!(messages, vec![message("MSG1", 8, &[&["one", "two", "three"], &["four"]])]);
}

#[test]
fn text_without_marker_adds_nothing() {
    let messages =
        parse_message_script("MSG1:: @ 8\n.string \"lost\"\n.string \"kept$\"\n").unwrap();
    assert_eq!(messages, vec![message("MSG1", 8, &[&["kept"]])]);
}

#[test]
fn page_break_and_line_break_in_one_text_both_apply() {
    let messages =
        parse_message_script("MSG1:: @ 8\n.string \"a\\pb\\n\"\n.string \"c$\"\n").unwrap();
    assert_eq!(messages, vec![message("MSG1", 8, &[&["ab\\n"], &["a\\pb", "c"]])]);
}

#[test]
fn both_line_breaks_in_one_text_give_two_lines() {
    let messages =
        parse_message_script("MSG1:: @ 8\n.string \"a\\nb\\l\"\n.string \"c$\"\n").unwrap();
    assert_eq!(messages, vec![message("MSG1", 8, &[&["ab\\l", "a\\nb", "c"]])]);
}

#[test]
fn end_marker_wins_over_the_other_markers() {
    let messages = parse_message_script("MSG1:: @ 8\n.string \"a\\p$b\\n$\"\nnext").unwrap_err();
    assert_eq!(messages, Error::ScriptName(2));
    let messages = parse_message_script("MSG1:: @ 8\n.string \"a\\p$b\\n$\"\n").unwrap();
    assert_eq!(messages, vec![message("MSG1", 8, &[&["a\\pb\\n"]])]);
}

#[test]
fn only_the_first_quoted_text_counts() {
    let messages =
        parse_message_script("MSG1:: @ 8\n.string \"one$\" \"two\" trailing\n").unwrap();
    assert_eq!(messages, vec![message("MSG1", 8, &[&["one"]])]);
}

#[test]
fn unclosed_quote_runs_to_the_trimmed_end() {
    let messages = parse_message_script("MSG1:: @ 8\n.string \"open $  \n").unwrap();
    assert_eq!(messages, vec![message("MSG1", 8, &[&["open "]])]);
}

#[test]
fn text_starts_behind_the_first_word() {
    let messages =
        parse_message_script("MSG1:: @ 8\n.string \"Hello .string$\"\n").unwrap();
    assert_eq!(messages, vec![message("MSG1", 8, &[&["Hello .string"]])]);
}

#[test]
fn removed_markers_do_not_overlap() {
    let messages = parse_message_script("MSG1:: @ 8\n.string \"\\\\pp\\p\"\n.string \"$$a$\"\n")
        .unwrap();
    assert_eq!(messages, vec![message("MSG1", 8, &[&["\\p"], &["a"]])]);
}

#[test]
fn several_messages_are_read_in_order() {
    let text = "\nMSG1:: @ 8\n.string \"a$\"\n\nMSG2:: @ 9\n.string \"b\\p\"\n.string \"c$\"\n";
    let messages = parse_message_script(text).unwrap();
    assert_eq!(
        messages,
        vec![message("MSG1", 8, &[&["a"]]), message("MSG2", 9, &[&["b"], &["c"]])]
    );
}

#[test]
fn message_parser_does_not_pass_over_short_or_at_lines() {
    assert_eq!(parse_message_script("abc\nMSG1:: @ 8\n.string \"a$\"\n"), Err(Error::ScriptName(0)));
    assert_eq!(parse_message_script("\n@ note\n"), Err(Error::ScriptName(1)));
    assert_eq!(parse_message_script(":\n"), Err(Error::ScriptName(0)));
    assert_eq!(parse("abc\n@ note\n:\n"), Ok(vec![]));
}

#[test]
fn bare_colons_are_a_label_with_an_empty_name() {
    let messages = parse_message_script(":: @ 1\nx \"a$\"\n").unwrap();
    assert_eq!(messages, vec![message("", 1, &[&["a"]])]);
}

#[test]
fn message_label_errors_carry_the_line() {
    assert_eq!(parse_message_script("\nMSG1 @ 8\n"), Err(Error::ScriptName(1)));
    assert_eq!(parse_message_script("\n\nMSG1:: at 8\n"), Err(Error::ScriptName(2)));
    assert_eq!(parse_message_script("MSG1:: @\n"), Err(Error::ScriptLocation(0)));
    assert_eq!(
        parse_message_script("\nMSG1:: @ zz\n"),
        Err(Error::MalformedLocation(NumError::InvalidDigit, 1))
    );
}

#[test]
fn blank_line_inside_a_message_has_no_command() {
    assert_eq!(
        parse_message_script("MSG1:: @ 8\n.string \"a\\p\"\n\n.string \"b$\"\n"),
        Err(Error::NoCommand(2))
    );
}

#[test]
fn line_without_quote_has_no_arguments() {
    assert_eq!(
        parse_message_script("MSG1:: @ 8\n.string Hello$\n"),
        Err(Error::NoArguments(1))
    );
    assert_eq!(parse_message_script("MSG1:: @ 8\n.string\n"), Err(Error::NoArguments(1)));
}

#[test]
fn unterminated_message_is_end_of_file() {
    assert_eq!(parse_message_script("MSG1:: @ 8\n"), Err(Error::EndOfFile("message")));
    assert_eq!(
        parse_message_script("MSG1:: @ 8\n.string \"Hello\\p\"\n.string \"World\\n\"\n"),
        Err(Error::EndOfFile("message"))
    );
}

#[test]
fn reparsing_gives_equal_messages() {
    let text = "MSG1:: @ 8\n.string \"Hello\\p\"\n.string \"World$\"\n";
    assert_eq!(parse_message_script(text), parse_message_script(text));
    let text = "MSG1:: @ 8\n.string \"Hello\\p\"\n";
    assert_eq!(parse_message_script(text), parse_message_script(text));
}
