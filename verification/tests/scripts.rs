use script_parser::{parse, Command, Error, NumError, Script};

fn command(name: &str, arguments: &[&str]) -> Command {
    Command {
        command: name.to_string(),
        arguments: arguments.iter().map(|a| a.to_string()).collect(),
    }
}

fn script(name: &str, location: u32, commands: Vec<Command>) -> Script {
    Script { name: name.to_string(), location, commands }
}

#[test]
fn alias_replaces_bare_argument() {
    let scripts = parse(".set FOO 0x5\nABCD:: @ 10\nmsgbox FOO\nend\n").unwrap();
    assert_eq!(scripts, vec![script("ABCD", 16, vec![command("msgbox", &["0x5"])])]);
}

#[test]
fn empty_source_has_no_scripts() {
    assert_eq!(parse(""), Ok(vec![]));
    assert_eq!(parse("\n\n   \n"), Ok(vec![]));
}

#[test]
fn alias_replaces_whole_arguments_only() {
    let scripts = parse(".set FOO 1\nABCD:: @ 0\ncmd FOO, FOOD, x FOO ,  FOO  \nend").unwrap();
    assert_eq!(scripts[0].commands, vec![command("cmd", &["1", "FOOD", "x FOO", "1"])]);
}

#[test]
fn later_alias_replaces_earlier_one() {
    let scripts = parse(".set A 1\n.set A 2\nABCD:: @ 0\ncmd A\nend\n").unwrap();
    assert_eq!(scripts[0].commands, vec![command("cmd", &["2"])]);
}

#[test]
fn alias_is_not_expanded_twice() {
    let scripts = parse(".set A B\n.set B C\nABCD:: @ 0\ncmd A, B\nend\n").unwrap();
    assert_eq!(scripts[0].commands, vec![command("cmd", &["B", "C"])]);
}

#[test]
fn alias_defined_after_its_use_is_not_applied() {
    let scripts =
        parse("ABCD:: @ 0\ncmd A\nend\n.set A 1\nEFGH:: @ 1\ncmd A\nend\n").unwrap();
    assert_eq!(
        scripts,
        vec![
            script("ABCD", 0, vec![command("cmd", &["A"])]),
            script("EFGH", 1, vec![command("cmd", &["1"])]),
        ]
    );
}

#[test]
fn set_inside_a_block_is_a_command() {
    let scripts = parse("ABCD:: @ 0\n.set A 1\ncmd A\nend\n").unwrap();
    assert_eq!(
        scripts[0].commands,
        vec![command(".set", &["A 1"]), command("cmd", &["A"])]
    );
}

#[test]
fn set_without_name_is_an_error() {
    assert_eq!(parse("\n.set\n"), Err(Error::SetName(1)));
}

#[test]
fn set_without_value_is_an_error() {
    assert_eq!(parse("\n\n.set FOO\n"), Err(Error::SetVariable(2)));
}

#[test]
fn short_or_at_lines_are_passed_over_by_the_script_parser() {
    let scripts = parse("abc\n@ comment line here\n@@@@::\nABCD:: @ 1f\nend\n").unwrap();
    assert_eq!(scripts, vec![script("ABCD", 31, vec![])]);
}

#[test]
fn label_without_colons_is_a_name_error() {
    assert_eq!(parse("\n\nABCD @ 10\nend\n"), Err(Error::ScriptName(2)));
    assert_eq!(parse("ABCD: @ 10\nend\n"), Err(Error::ScriptName(0)));
}

#[test]
fn label_without_at_is_a_name_error() {
    assert_eq!(parse("ABCD::\nend\n"), Err(Error::ScriptName(0)));
    assert_eq!(parse("\nABCD:: 10\nend\n"), Err(Error::ScriptName(1)));
    assert_eq!(parse("\nABCD:: @@ 10\nend\n"), Err(Error::ScriptName(1)));
}

#[test]
fn label_without_address_is_a_location_error() {
    assert_eq!(parse("\n\n\nABCD:: @\nend\n"), Err(Error::ScriptLocation(3)));
}

#[test]
fn malformed_location_reports_reason_and_line() {
    assert_eq!(
        parse("\nABCD:: @ 1G\nend\n"),
        Err(Error::MalformedLocation(NumError::InvalidDigit, 1))
    );
    assert_eq!(
        parse("ABCD:: @ 100000000\nend\n"),
        Err(Error::MalformedLocation(NumError::PosOverflow, 0))
    );
    assert_eq!(
        parse("ABCD:: @ 0x10\nend\n"),
        Err(Error::MalformedLocation(NumError::InvalidDigit, 0))
    );
    assert_eq!(
        parse("ABCD:: @ +\nend\n"),
        Err(Error::MalformedLocation(NumError::InvalidDigit, 0))
    );
}

#[test]
fn location_is_read_in_base_sixteen() {
    let scripts = parse("ABCD:: @ fFfFfFfF\nend\nEFGH:: @ +0a extra words\nend\n").unwrap();
    assert_eq!(scripts[0].location, u32::MAX);
    assert_eq!(scripts[1].location, 10);
}

#[test]
fn name_is_the_label_without_its_colons() {
    let scripts = parse("  \tScript_1::   @   8160000\n\n").unwrap();
    assert_eq!(scripts, vec![script("Script_1", 0x8160000, vec![])]);
    let scripts = parse("ab::::  @ 0\n\n").unwrap();
    assert_eq!(scripts[0].name, "ab::");
}

#[test]
fn each_terminator_ends_a_block() {
    for terminator in ["end", "return", "step_end", ".endm", "", "  end  ", "\t"] {
        let text = format!("ABCD:: @ 0\nlock\n{}\nEFGH:: @ 1\nend", terminator);
        let scripts = parse(&text).unwrap();
        assert_eq!(
            scripts,
            vec![script("ABCD", 0, vec![command("lock", &[""])]), script("EFGH", 1, vec![])]
        );
    }
}

#[test]
fn terminator_must_stand_alone() {
    let scripts = parse("ABCD:: @ 0\nend now\nendgame\nend\n").unwrap();
    assert_eq!(
        scripts[0].commands,
        vec![command("end", &["now"]), command("endgame", &[""])]
    );
}

#[test]
fn byte_marks_end_a_block_without_a_command() {
    let scripts = parse("ABCD:: @ 0\nlock\n.byte 1, 2, 3\nEFGH:: @ 1\nfaceplayer\n  .2byte 7\n")
        .unwrap();
    assert_eq!(
        scripts,
        vec![
            script("ABCD", 0, vec![command("lock", &[""])]),
            script("EFGH", 1, vec![command("faceplayer", &[""])]),
        ]
    );
}

#[test]
fn byte_mark_must_be_the_whole_first_word() {
    let scripts = parse("ABCD:: @ 0\n.bytes 1\n.4byte 2\nend\n").unwrap();
    assert_eq!(
        scripts[0].commands,
        vec![command(".bytes", &["1"]), command(".4byte", &["2"])]
    );
}

#[test]
fn unterminated_block_is_end_of_file() {
    assert_eq!(parse("ABCD:: @ 0"), Err(Error::EndOfFile("script")));
    assert_eq!(parse("ABCD:: @ 0\nlock\nfaceplayer"), Err(Error::EndOfFile("script")));
    assert_eq!(
        parse("ABCD:: @ 0\nlock\nend\nEFGH:: @ 4\nmsgbox A\n"),
        Err(Error::EndOfFile("script"))
    );
}

#[test]
fn arguments_are_cut_at_commas_and_trimmed() {
    let scripts = parse("ABCD:: @ 0\n\tmsgbox  Text_1 ,MSGBOX_NPC,, last \nend\n").unwrap();
    assert_eq!(
        scripts[0].commands,
        vec![command("msgbox", &["Text_1", "MSGBOX_NPC", "", "last"])]
    );
}

#[test]
fn arguments_start_behind_the_first_word() {
    let scripts = parse("ABCD:: @ 0\ncall callback\nend\n").unwrap();
    assert_eq!(scripts[0].commands, vec![command("call", &["callback"])]);
}

#[test]
fn first_error_aborts_the_whole_parse() {
    assert_eq!(
        parse("ABCD:: @ 0\nend\nEFGH:: 1\nend\nIJKL\n"),
        Err(Error::ScriptName(2))
    );
}

#[test]
fn carriage_returns_before_line_feeds_are_dropped() {
    let scripts = parse(".set FOO 7\r\nABCD:: @ 10\r\nmsgbox FOO\r\nend\r\n").unwrap();
    assert_eq!(scripts, vec![script("ABCD", 16, vec![command("msgbox", &["7"])])]);
}

#[test]
fn reparsing_gives_equal_scripts() {
    let text = ".set FOO 0x5\nABCD:: @ 10\nmsgbox FOO\nend\nEFGH:: @ 2\n";
    assert_eq!(parse(text), parse(text));
    let text = ".set FOO 0x5\nABCD:: @ 10\nmsgbox FOO\nend\n";
    assert_eq!(parse(text), parse(text));
}

#[test]
fn default_script_is_empty() {
    assert_eq!(Script::default(), script("", 0, vec![]));
}

#[test]
fn errors_tell_their_line() {
    assert_eq!(Error::SetName(4).line(), Some(4));
    assert_eq!(Error::MalformedLocation(NumError::Empty, 9).line(), Some(9));
    assert_eq!(Error::NoArguments(0).line(), Some(0));
    assert_eq!(Error::EndOfFile("script").line(), None);
    assert_eq!(parse("\n\nABCD:: @\n").unwrap_err().line(), Some(2));
}
