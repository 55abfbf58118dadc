use text_adventure::{parse_command, parse_command_target, split_words, Direction, ParsedCommand};

fn parse(s: &str) -> Result<ParsedCommand, String> {
    parse_command(s.to_string())
}

fn is_move(r: &Result<ParsedCommand, String>, d: Direction) -> bool {
    matches!(r, Ok(ParsedCommand::Move(x)) if *x == d)
}

#[test]
fn drop_at_is_incomplete() {
    match parse("drop at") {
        Err(m) => assert_eq!(m, "drop at... what?"),
        other => panic!("unexpected {:?}", other),
    }
}

#[test]
fn look_alone_looks_at_the_room() {
    assert!(matches!(parse("look"), Ok(ParsedCommand::Look(None))));
    assert!(matches!(parse("l"), Ok(ParsedCommand::Look(None))));
}

#[test]
fn empty_input_is_look() {
    assert!(matches!(parse(""), Ok(ParsedCommand::Look(None))));
    assert!(matches!(parse("   \t "), Ok(ParsedCommand::Look(None))));
}

#[test]
fn go_north_is_north() {
    assert!(is_move(&parse("go north"), Direction::North));
    assert!(is_move(&parse("north"), Direction::North));
    assert!(is_move(&parse("n"), Direction::North));
    assert!(is_move(&parse("go west"), Direction::West));
    assert!(is_move(&parse("e"), Direction::East));
    assert!(is_move(&parse("south"), Direction::South));
}

#[test]
fn go_without_direction_asks() {
    match parse("go") {
        Ok(ParsedCommand::Message(m)) => assert_eq!(m, "Where do you want to go?"),
        other => panic!("unexpected {:?}", other),
    }
}

#[test]
fn go_unknown_direction_is_refused() {
    match parse("go sideways") {
        Err(m) => assert_eq!(m, "You don't know how to go \"sideways\""),
        other => panic!("unexpected {:?}", other),
    }
}

#[test]
fn look_at_multi_word_target() {
    match parse("look at the  old   sign") {
        Ok(ParsedCommand::Look(Some(t))) => assert_eq!(t, "the old sign"),
        other => panic!("unexpected {:?}", other),
    }
    match parse("talk to Mira") {
        Ok(ParsedCommand::Talk(Some(t))) => assert_eq!(t, "Mira"),
        other => panic!("unexpected {:?}", other),
    }
}

#[test]
fn talk_up_is_incomplete() {
    match parse("talk up") {
        Err(m) => assert_eq!(m, "talk up... what?"),
        other => panic!("unexpected {:?}", other),
    }
}

#[test]
fn drop_without_target_is_flavor() {
    match parse("drop") {
        Ok(ParsedCommand::Message(m)) => assert_eq!(m, "You stop drop and roll."),
        other => panic!("unexpected {:?}", other),
    }
    match parse("drop gold coin") {
        Ok(ParsedCommand::Drop(t)) => assert_eq!(t, "gold coin"),
        other => panic!("unexpected {:?}", other),
    }
}

#[test]
fn take_without_target_is_refused() {
    match parse("pick") {
        Err(m) => assert_eq!(m, "You pick your nose. Gross."),
        other => panic!("unexpected {:?}", other),
    }
    match parse("grab") {
        Err(m) => assert_eq!(m, "This relationship is on the rocks, all you do is take take take."),
        other => panic!("unexpected {:?}", other),
    }
    match parse("pick up key") {
        Ok(ParsedCommand::Take(t)) => assert_eq!(t, "key"),
        other => panic!("unexpected {:?}", other),
    }
}

#[test]
fn fixed_commands() {
    assert!(matches!(parse("inv"), Ok(ParsedCommand::Inventory)));
    assert!(matches!(parse("items"), Ok(ParsedCommand::Inventory)));
    assert!(matches!(parse("help"), Ok(ParsedCommand::Help(None))));
    assert!(matches!(parse("debug"), Ok(ParsedCommand::Debug)));
    assert!(matches!(parse("exit"), Ok(ParsedCommand::Quit)));
    assert!(matches!(parse("q"), Ok(ParsedCommand::Quit)));
    assert!(matches!(parse("restart"), Ok(ParsedCommand::Restart)));
}

#[test]
fn unknown_verb_echoes_input() {
    match parse("dance wildly") {
        Ok(ParsedCommand::Message(m)) => {
            assert_eq!(m, "You don't know how to \"dance\". Type \"help\" for help.")
        }
        other => panic!("unexpected {:?}", other),
    }
}

#[test]
fn split_words_on_whitespace() {
    let w = split_words("  look\tat \n sign ");
    assert_eq!(w, vec!["look".to_string(), "at".to_string(), "sign".to_string()]);
    assert!(split_words("").is_empty());
    assert_eq!(split_words("a\u{3000}b"), vec!["a".to_string(), "b".to_string()]);
}

#[test]
fn target_after_preposition() {
    let words = split_words("look in the box");
    assert_eq!(parse_command_target("look", &words, 1), Ok(Some("the box".to_string())));
    assert_eq!(parse_command_target("look", &words, 4), Ok(None));
    let words = split_words("look at");
    assert_eq!(parse_command_target("look", &words, 1), Err("look at... what?".to_string()));
}
