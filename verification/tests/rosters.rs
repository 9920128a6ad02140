use script_parser::trainer::party::{step, State};
use script_parser::{parse_parties, NumError, TrainerError, TrainerPokemon};

fn pokemon(
    ivs: u8,
    level: u8,
    species: &str,
    moves: Option<&[&str]>,
    item: Option<&str>,
) -> TrainerPokemon {
    TrainerPokemon {
        ivs,
        level,
        species: species.to_string(),
        moves: moves.map(|m| m.iter().map(|s| s.to_string()).collect()),
        item: item.map(|s| s.to_string()),
    }
}

fn chars(s: &str) -> Vec<char> {
    s.chars().collect()
}

#[test]
fn fields_make_one_record_under_the_trainer_name() {
    let roster = parse_parties(
        "A B C D TRAINERXX\n{\n.iv = 31;\n.lvl = 50;\n.species = SPECIES_PIKACHU;\n},\n};\n",
    )
    .unwrap();
    assert_eq!(
        roster.get("TRAINER"),
        Some(&vec![pokemon(31, 50, "SPECIES_PIKACHU", None, None)])
    );
    assert_eq!(roster.get("TRAINERXX"), None);
}

#[test]
fn source_in_the_usual_layout() {
    let text = "\
static const struct TrainerMonItemCustomMoves sParty_Brock[] = {
    {
        .iv = 0,
        .lvl = 12,
        .species = SPECIES_GEODUDE,
        .heldItem = ITEM_NONE,
        .moves = {MOVE_TACKLE, MOVE_DEFENSE_CURL, MOVE_NONE, MOVE_NONE},
    },
    {
        .iv = 0,
        .lvl = 14,
        .species = SPECIES_ONIX,
    }
};

static const struct TrainerMonNoItemDefaultMoves sParty_Misty[] = {
    {
        .iv = 255,
        .lvl = 18,
        .species = SPECIES_STARYU,
    },
};
";
    let roster = parse_parties(text).unwrap();
    assert_eq!(
        roster.get("sParty_Brock"),
        Some(&vec![
            pokemon(
                0,
                12,
                "SPECIES_GEODUDE",
                Some(&["MOVE_TACKLE", "MOVE_DEFENSE_CURL", "MOVE_NONE", "MOVE_NONE"]),
                Some("ITEM_NONE"),
            ),
            pokemon(0, 14, "SPECIES_ONIX", None, None),
        ])
    );
    assert_eq!(
        roster.get("sParty_Misty"),
        Some(&vec![pokemon(255, 18, "SPECIES_STARYU", None, None)])
    );
    assert_eq!(roster.get("sParty_Surge"), None);
}

#[test]
fn empty_source_gives_an_empty_roster() {
    let roster = parse_parties("").unwrap();
    assert_eq!(roster.get(""), None);
    assert_eq!(roster.get("TRAINER"), None);
}

#[test]
fn line_with_fewer_than_five_words_declares_nothing() {
    let roster = parse_parties("A B C D\n};\nA B C D NAMEXX\n};\n").unwrap();
    assert_eq!(roster.get("NAME"), Some(&vec![]));
}

#[test]
fn short_fifth_word_gives_an_empty_name() {
    let roster = parse_parties("A B C D X\n};\n").unwrap();
    assert_eq!(roster.get(""), Some(&vec![]));
}

#[test]
fn line_that_opens_a_creature_is_not_read() {
    let roster = parse_parties("A B C D NAMEXX\n.iv = 9;\n.lvl = 3;\n}\n};\n").unwrap();
    assert_eq!(roster.get("NAME"), Some(&vec![pokemon(0, 3, "", None, None)]));
    let roster = parse_parties("A B C D NAMEXX\nnot a field at all\n}\n};\n").unwrap();
    assert_eq!(roster.get("NAME"), Some(&vec![pokemon(0, 0, "", None, None)]));
}

#[test]
fn later_party_of_a_name_replaces_the_earlier_one() {
    let text = "A B C D NAMEXX\n{\n.lvl = 1;\n},\n};\nA B C D NAMEYY\n{\n.lvl = 2;\n},\n};\n";
    let roster = parse_parties(text).unwrap();
    assert_eq!(roster.get("NAME"), Some(&vec![pokemon(0, 2, "", None, None)]));
}

#[test]
fn unfinished_party_is_left_out() {
    let text = "A B C D ONEXX\n{\n.lvl = 1;\n},\n};\nA B C D TWOXX\n{\n.lvl = 2;\n},\n";
    let roster = parse_parties(text).unwrap();
    assert_eq!(roster.get("ONE"), Some(&vec![pokemon(0, 1, "", None, None)]));
    assert_eq!(roster.get("TWO"), None);
}

#[test]
fn field_line_without_equals_is_a_field_error() {
    assert_eq!(
        parse_parties("A B C D NAMEXX\n{\n  .iv 31;\n").unwrap_err(),
        TrainerError::FieldParse(2, "  .iv 31;".to_string())
    );
}

#[test]
fn blank_line_inside_a_creature_is_a_field_error() {
    assert_eq!(
        parse_parties("A B C D NAMEXX\n{\n.iv = 1;\n\n},\n};\n").unwrap_err(),
        TrainerError::FieldParse(3, "".to_string())
    );
}

#[test]
fn field_line_without_value_is_a_field_error() {
    assert_eq!(
        parse_parties("A B C D NAMEXX\n{\n.iv =  \n").unwrap_err(),
        TrainerError::FieldParse(2, ".iv =  ".to_string())
    );
}

#[test]
fn number_fields_must_fit_eight_bits() {
    assert_eq!(
        parse_parties("A B C D NAMEXX\n{\n.iv = 256;\n").unwrap_err(),
        TrainerError::NumParse(2, "ivs", NumError::PosOverflow)
    );
    assert_eq!(
        parse_parties("A B C D NAMEXX\n{\n.lvl = 5a;\n").unwrap_err(),
        TrainerError::NumParse(2, "level", NumError::InvalidDigit)
    );
    assert_eq!(
        parse_parties("A B C D NAMEXX\n{\n.lvl = ;\n").unwrap_err(),
        TrainerError::NumParse(2, "level", NumError::Empty)
    );
    assert_eq!(
        parse_parties("A B C D NAMEXX\n{\n.iv = -1;\n").unwrap_err(),
        TrainerError::NumParse(2, "ivs", NumError::InvalidDigit)
    );
}

#[test]
fn moves_need_braces_in_order() {
    assert_eq!(
        parse_parties("A B C D NAMEXX\n{\n.moves = MOVE_A, MOVE_B};\n").unwrap_err(),
        TrainerError::BracketParse(2, "moves")
    );
    assert_eq!(
        parse_parties("A B C D NAMEXX\n{\n.moves = {MOVE_A, MOVE_B;\n").unwrap_err(),
        TrainerError::BracketParse(2, "moves")
    );
    assert_eq!(
        parse_parties("A B C D NAMEXX\n{\n.moves = }MOVE_A{;\n").unwrap_err(),
        TrainerError::BracketParse(2, "moves")
    );
}

#[test]
fn moves_are_cut_at_commas_and_trimmed() {
    let roster =
        parse_parties("A B C D NAMEXX\n{\n.moves = x { MOVE_A ,MOVE_B,, } y },\n}\n};\n").unwrap();
    assert_eq!(
        roster.get("NAME"),
        Some(&vec![pokemon(0, 0, "", Some(&["MOVE_A", "MOVE_B", "", ""]), None)])
    );
    let roster = parse_parties("A B C D NAMEXX\n{\n.moves = {},\n}\n};\n").unwrap();
    assert_eq!(roster.get("NAME"), Some(&vec![pokemon(0, 0, "", Some(&[""]), None)]));
}

#[test]
fn unknown_field_is_an_error() {
    assert_eq!(
        parse_parties("A B C D NAMEXX\n{\n .ability = 2;\n").unwrap_err(),
        TrainerError::UnknownField(2, ".ability".to_string())
    );
}

#[test]
fn value_is_cut_at_the_first_equals_and_loses_its_last_character() {
    let roster =
        parse_parties("A B C D NAMEXX\n{\n.species = A = B;;\n.heldItem = X\n}\n};\n").unwrap();
    assert_eq!(roster.get("NAME"), Some(&vec![pokemon(0, 0, "A = B;", None, Some(""))]));
}

#[test]
fn step_goes_through_the_three_states() {
    let (state, entry) = step(State::File, 0, &chars("   ")).unwrap();
    assert_eq!((state, entry), (State::File, None));
    let (state, entry) = step(State::File, 1, &chars("a b c d nameXX = {")).unwrap();
    assert_eq!(entry, None);
    assert_eq!(state, State::Party { trainer: "name".to_string(), party: vec![] });
    let (state, entry) = step(state, 2, &chars("{")).unwrap();
    assert_eq!(entry, None);
    assert_eq!(
        state,
        State::Pokemon {
            trainer: "name".to_string(),
            party: vec![],
            current: TrainerPokemon::default(),
        }
    );
    let (state, _) = step(state, 3, &chars(".lvl = 7,")).unwrap();
    let (state, entry) = step(state, 4, &chars(" }, ")).unwrap();
    assert_eq!(entry, None);
    assert_eq!(
        state,
        State::Party {
            trainer: "name".to_string(),
            party: vec![pokemon(0, 7, "", None, None)],
        }
    );
    let (state, entry) = step(state, 5, &chars("};")).unwrap();
    assert_eq!(state, State::File);
    assert_eq!(entry, Some(("name".to_string(), vec![pokemon(0, 7, "", None, None)])));
}

#[test]
fn trainer_line_is_split_at_ascii_white_space_only() {
    let (state, _) = step(State::File, 0, &chars("a\u{a0}b c d e fXX g")).unwrap();
    assert_eq!(state, State::Party { trainer: "f".to_string(), party: vec![] });
}

#[test]
fn reparsing_gives_equal_rosters() {
    let text = "A B C D TRAINERXX\n{\n.iv = 31;\n},\n};\n";
    let first = parse_parties(text).unwrap();
    let second = parse_parties(text).unwrap();
    assert_eq!(first.get("TRAINER"), second.get("TRAINER"));
    let text = "A B C D TRAINERXX\n{\n.iv = 310;\n},\n};\n";
    assert_eq!(parse_parties(text).unwrap_err(), parse_parties(text).unwrap_err());
}
