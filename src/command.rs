use vstd::prelude::*;
use vstd::string::*;

use crate::coord::Direction;
use crate::text::{opt_chars, push_char, str_eq, strs};

verus! {

/// The characters with the Unicode White_Space property, which is what
/// `char::is_whitespace` tests: tab through carriage return, space, next
/// line, no-break space, ogham space mark, the spaces from en quad to hair
/// space, line and paragraph separators, narrow no-break space, medium
/// mathematical space and ideographic space.
pub open spec fn white_space(c: char) -> bool {
    let u = c as u32;
    (0x9 <= u && u <= 0xD) || u == 0x20 || u == 0x85 || u == 0xA0 || u == 0x1680 || (0x2000 <= u
        && u <= 0x200A) || u == 0x2028 || u == 0x2029 || u == 0x202F || u == 0x205F || u == 0x3000
}

/// Whether `c` is whitespace.
pub fn is_whitespace(c: char) -> (r: bool)
    ensures
        r == white_space(c),
{
    let u = c as u32;
    (0x9 <= u && u <= 0xD) || u == 0x20 || u == 0x85 || u == 0xA0 || u == 0x1680 || (0x2000 <= u
        && u <= 0x200A) || u == 0x2028 || u == 0x2029 || u == 0x202F || u == 0x205F || u == 0x3000
}

/// The result of formatting a string with `{:?}`.
pub uninterp spec fn quoted_of(s: Seq<char>) -> Seq<char>;

/// Relies on `<str as Debug>::fmt`: the quoted, escaped form of `s`, which
/// depends on its characters alone.
#[verifier::external_body]
pub(crate) fn debug_quoted(s: &str) -> (r: String)
    ensures
        r@ == quoted_of(s@),
{
    format!("{:?}", s)
}

/// The maximal runs of non-whitespace characters of `s`, in order.
pub open spec fn words(s: Seq<char>) -> Seq<Seq<char>>
    decreases s.len(),
{
    if s.len() == 0 {
        Seq::empty()
    } else {
        let w = words(s.drop_last());
        let c = s.last();
        if white_space(c) {
            w
        } else if s.len() >= 2 && !white_space(s[s.len() - 2]) {
            w.update(w.len() - 1, w.last().push(c))
        } else {
            w.push(seq![c])
        }
    }
}

/// Splits `s` into its words, as `str::split_whitespace` does.
pub fn split_words(s: &str) -> (r: Vec<String>)
    ensures
        strs(r@) == words(s@),
{
    let n = s.unicode_len();
    let mut r: Vec<String> = Vec::new();
    let mut cur = String::new();
    let mut in_word = false;
    let mut i: usize = 0;
    while i < n
        invariant
            n == s@.len(),
            i <= n,
            in_word <==> (i > 0 && !white_space(s@[i - 1])),
            in_word ==> words(s@.take(i as int)) == strs(r@).push(cur@),
            !in_word ==> words(s@.take(i as int)) == strs(r@),
        decreases n - i,
    {
        let c = s.get_char(i);
        let ghost t = s@.take(i as int + 1);
        assert(t.drop_last() =~= s@.take(i as int));
        assert(t.last() == c);
        if is_whitespace(c) {
            if in_word {
                let ghost before = r@;
                r.push(cur);
                assert(strs(r@) =~= strs(before).push(cur@));
                cur = String::new();
            }
            in_word = false;
        } else {
            if in_word {
                let ghost w = strs(r@).push(cur@);
                push_char(&mut cur, c);
                assert(strs(r@).push(cur@) =~= w.update(w.len() - 1, w.last().push(c)));
            } else {
                cur = String::new();
                push_char(&mut cur, c);
                assert(cur@ =~= seq![c]);
            }
            in_word = true;
        }
        i += 1;
    }
    assert(s@.take(n as int) =~= s@);
    if in_word {
        let ghost before = r@;
        r.push(cur);
        assert(strs(r@) =~= strs(before).push(cur@));
    }
    r
}

/// A command, as the interpreter hands it to the game.
#[derive(Debug)]
pub enum ParsedCommand {
    Look(Option<String>),
    Talk(Option<String>),
    Message(String),
    Inventory,
    Help(Option<String>),
    Move(Direction),
    Drop(String),
    Take(String),
    Quit,
    Debug,
    Restart,
}

/// The value of a command, with every string as its characters.
pub enum CommandView {
    Look(Option<Seq<char>>),
    Talk(Option<Seq<char>>),
    Message(Seq<char>),
    Inventory,
    Help(Option<Seq<char>>),
    Move(Direction),
    Drop(Seq<char>),
    Take(Seq<char>),
    Quit,
    Debug,
    Restart,
}

impl View for ParsedCommand {
    type V = CommandView;

    open spec fn view(&self) -> CommandView {
        match self {
            ParsedCommand::Look(t) => CommandView::Look(opt_chars(*t)),
            ParsedCommand::Talk(t) => CommandView::Talk(opt_chars(*t)),
            ParsedCommand::Message(m) => CommandView::Message(m@),
            ParsedCommand::Inventory => CommandView::Inventory,
            ParsedCommand::Help(t) => CommandView::Help(opt_chars(*t)),
            ParsedCommand::Move(d) => CommandView::Move(*d),
            ParsedCommand::Drop(t) => CommandView::Drop(t@),
            ParsedCommand::Take(t) => CommandView::Take(t@),
            ParsedCommand::Quit => CommandView::Quit,
            ParsedCommand::Debug => CommandView::Debug,
            ParsedCommand::Restart => CommandView::Restart,
        }
    }
}

/// The view of a parse result.
pub open spec fn parsed_view(r: Result<ParsedCommand, String>) -> Result<CommandView, Seq<char>> {
    match r {
        Ok(c) => Ok(c@),
        Err(e) => Err(e@),
    }
}

/// The view of a target parse result.
pub open spec fn target_view(r: Result<Option<String>, String>) -> Result<Option<Seq<char>>, Seq<char>> {
    match r {
        Ok(t) => Ok(opt_chars(t)),
        Err(e) => Err(e@),
    }
}

/// A bare preposition that may stand between a verb and its object.
pub open spec fn is_preposition(w: Seq<char>) -> bool {
    w == "at"@ || w == "to"@ || w == "in"@ || w == "up"@
}

/// The words of `ws` joined by single spaces.
pub open spec fn join(ws: Seq<Seq<char>>) -> Seq<char>
    decreases ws.len(),
{
    if ws.len() == 0 {
        Seq::empty()
    } else if ws.len() == 1 {
        ws[0]
    } else {
        join(ws.drop_last()) + seq![' '] + ws.last()
    }
}

/// The target that follows `command`: the remaining words joined by spaces,
/// a leading bare preposition dropped; a preposition with nothing after it
/// is an incomplete command.
pub open spec fn target_of(command: Seq<char>, rest: Seq<Seq<char>>) -> Result<Option<Seq<char>>, Seq<char>> {
    if rest.len() == 0 {
        Ok(None)
    } else if is_preposition(rest[0]) {
        if rest.len() == 1 {
            Err(command + seq![' '] + rest[0] + "... what?"@)
        } else {
            Ok(Some(join(rest.drop_first())))
        }
    } else {
        Ok(Some(join(rest)))
    }
}

/// The command that a line with the words `ws` stands for.
pub open spec fn command_of(ws: Seq<Seq<char>>) -> Result<CommandView, Seq<char>> {
    if ws.len() == 0 {
        Ok(CommandView::Look(None))
    } else {
        let c = ws[0];
        let t = target_of(c, ws.drop_first());
        if c == "look"@ || c == "l"@ {
            match t {
                Ok(x) => Ok(CommandView::Look(x)),
                Err(e) => Err(e),
            }
        } else if c == "talk"@ || c == "t"@ {
            match t {
                Ok(x) => Ok(CommandView::Talk(x)),
                Err(e) => Err(e),
            }
        } else if c == "north"@ || c == "n"@ {
            Ok(CommandView::Move(Direction::North))
        } else if c == "east"@ || c == "e"@ {
            Ok(CommandView::Move(Direction::East))
        } else if c == "south"@ || c == "s"@ {
            Ok(CommandView::Move(Direction::South))
        } else if c == "west"@ || c == "w"@ {
            Ok(CommandView::Move(Direction::West))
        } else if c == "inventory"@ || c == "inv"@ || c == "i"@ || c == "items"@ {
            Ok(CommandView::Inventory)
        } else if c == "go"@ {
            match t {
                Ok(Some(x)) => if x == "north"@ {
                    Ok(CommandView::Move(Direction::North))
                } else if x == "east"@ {
                    Ok(CommandView::Move(Direction::East))
                } else if x == "south"@ {
                    Ok(CommandView::Move(Direction::South))
                } else if x == "west"@ {
                    Ok(CommandView::Move(Direction::West))
                } else {
                    Err("You don't know how to go "@ + quoted_of(x))
                },
                Ok(None) => Ok(CommandView::Message("Where do you want to go?"@)),
                Err(e) => Err(e),
            }
        } else if c == "help"@ || c == "h"@ {
            match t {
                Ok(x) => Ok(CommandView::Help(x)),
                Err(e) => Err(e),
            }
        } else if c == "debug"@ {
            Ok(CommandView::Debug)
        } else if c == "drop"@ {
            match t {
                Ok(Some(x)) => Ok(CommandView::Drop(x)),
                Ok(None) => Ok(CommandView::Message("You stop drop and roll."@)),
                Err(e) => Err(e),
            }
        } else if c == "pick"@ || c == "pickup"@ || c == "take"@ || c == "grab"@ {
            match t {
                Ok(Some(x)) => Ok(CommandView::Take(x)),
                Ok(None) => if c == "pick"@ {
                    Err("You pick your nose. Gross."@)
                } else {
                    Err("This relationship is on the rocks, all you do is take take take."@)
                },
                Err(e) => Err(e),
            }
        } else if c == "quit"@ || c == "q"@ || c == "exit"@ {
            Ok(CommandView::Quit)
        } else if c == "restart"@ {
            Ok(CommandView::Restart)
        } else {
            Ok(
                CommandView::Message(
                    "You don't know how to "@ + quoted_of(c) + ". Type \"help\" for help."@,
                ),
            )
        }
    }
}

/// Whether `w` is one of the bare prepositions.
fn preposition(w: &str) -> (r: bool)
    ensures
        r == is_preposition(w@),
{
    str_eq(w, "at") || str_eq(w, "to") || str_eq(w, "in") || str_eq(w, "up")
}

/// The words `words[from..]` joined by single spaces.
fn join_words(words: &Vec<String>, from: usize) -> (r: String)
    requires
        from <= words@.len(),
    ensures
        r@ == join(strs(words@).subrange(from as int, words@.len() as int)),
{
    let mut r = String::new();
    let mut i: usize = from;
    assert(strs(words@).subrange(from as int, from as int) =~= Seq::<Seq<char>>::empty());
    while i < words.len()
        invariant
            from <= i <= words@.len(),
            r@ == join(strs(words@).subrange(from as int, i as int)),
        decreases words@.len() - i,
    {
        let ghost prev = strs(words@).subrange(from as int, i as int);
        let ghost next = strs(words@).subrange(from as int, i + 1);
        assert(next.drop_last() =~= prev);
        assert(next.last() == words@[i as int]@);
        if i > from {
            push_char(&mut r, ' ');
            assert(r@ =~= join(prev) + seq![' ']);
        } else {
            assert(r@ =~= Seq::<char>::empty());
        }
        r.append(words[i].as_str());
        proof {
            if i > from {
                assert(r@ =~= join(next));
            } else {
                assert(next.len() == 1);
                assert(r@ =~= join(next));
            }
        }
        i += 1;
    }
    r
}

/// The target that follows `command` in `words[from..]`: the words joined by
/// single spaces, a leading bare preposition (`at`, `to`, `in`, `up`)
/// dropped; a bare preposition with nothing after it is refused with a
/// message that echoes it.
pub fn parse_command_target(command: &str, words: &Vec<String>, from: usize) -> (r: Result<
    Option<String>,
    String,
>)
    requires
        from <= words@.len(),
    ensures
        target_view(r) == target_of(command@, strs(words@).subrange(from as int, words@.len() as int)),
{
    let ghost rest = strs(words@).subrange(from as int, words@.len() as int);
    if from == words.len() {
        return Ok(None);
    }
    let word = words[from].as_str();
    assert(rest[0] == word@);
    if preposition(word) {
        if from + 1 == words.len() {
            let mut e = String::from_str(command);
            push_char(&mut e, ' ');
            assert(e@ =~= command@ + seq![' ']);
            e.append(word);
            e.append("... what?");
            assert(rest.len() == 1);
            return Err(e);
        }
        assert(rest.drop_first() =~= strs(words@).subrange(from + 1, words@.len() as int));
        Ok(Some(join_words(words, from + 1)))
    } else {
        Ok(Some(join_words(words, from)))
    }
}

/// Interprets one line of input.
pub fn parse_command(input: String) -> (r: Result<ParsedCommand, String>)
    ensures
        parsed_view(r) == command_of(words(input@)),
{
    let words = split_words(input.as_str());
    if words.len() == 0 {
        return Ok(ParsedCommand::Look(None));
    }
    let ghost ws = strs(words@);
    assert(ws.drop_first() =~= strs(words@).subrange(1, words@.len() as int));
    let c = words[0].as_str();
    assert(ws[0] == c@);
    if str_eq(c, "look") || str_eq(c, "l") {
        match parse_command_target(c, &words, 1) {
            Ok(x) => Ok(ParsedCommand::Look(x)),
            Err(e) => Err(e),
        }
    } else if str_eq(c, "talk") || str_eq(c, "t") {
        match parse_command_target(c, &words, 1) {
            Ok(x) => Ok(ParsedCommand::Talk(x)),
            Err(e) => Err(e),
        }
    } else if str_eq(c, "north") || str_eq(c, "n") {
        Ok(ParsedCommand::Move(Direction::North))
    } else if str_eq(c, "east") || str_eq(c, "e") {
        Ok(ParsedCommand::Move(Direction::East))
    } else if str_eq(c, "south") || str_eq(c, "s") {
        Ok(ParsedCommand::Move(Direction::South))
    } else if str_eq(c, "west") || str_eq(c, "w") {
        Ok(ParsedCommand::Move(Direction::West))
    } else if str_eq(c, "inventory") || str_eq(c, "inv") || str_eq(c, "i") || str_eq(c, "items") {
        Ok(ParsedCommand::Inventory)
    } else if str_eq(c, "go") {
        match parse_command_target(c, &words, 1) {
            Ok(Some(x)) => {
                if str_eq(x.as_str(), "north") {
                    Ok(ParsedCommand::Move(Direction::North))
                } else if str_eq(x.as_str(), "east") {
                    Ok(ParsedCommand::Move(Direction::East))
                } else if str_eq(x.as_str(), "south") {
                    Ok(ParsedCommand::Move(Direction::South))
                } else if str_eq(x.as_str(), "west") {
                    Ok(ParsedCommand::Move(Direction::West))
                } else {
                    let mut e = String::from_str("You don't know how to go ");
                    let q = debug_quoted(x.as_str());
                    e.append(q.as_str());
                    Err(e)
                }
            },
            Ok(None) => Ok(ParsedCommand::Message(String::from_str("Where do you want to go?"))),
            Err(e) => Err(e),
        }
    } else if str_eq(c, "help") || str_eq(c, "h") {
        match parse_command_target(c, &words, 1) {
            Ok(x) => Ok(ParsedCommand::Help(x)),
            Err(e) => Err(e),
        }
    } else if str_eq(c, "debug") {
        Ok(ParsedCommand::Debug)
    } else if str_eq(c, "drop") {
        match parse_command_target(c, &words, 1) {
            Ok(Some(x)) => Ok(ParsedCommand::Drop(x)),
            Ok(None) => Ok(ParsedCommand::Message(String::from_str("You stop drop and roll."))),
            Err(e) => Err(e),
        }
    } else if str_eq(c, "pick") || str_eq(c, "pickup") || str_eq(c, "take") || str_eq(c, "grab") {
        match parse_command_target(c, &words, 1) {
            Ok(Some(x)) => Ok(ParsedCommand::Take(x)),
            Ok(None) => if str_eq(c, "pick") {
                Err(String::from_str("You pick your nose. Gross."))
            } else {
                Err(
                    String::from_str(
                        "This relationship is on the rocks, all you do is take take take.",
                    ),
                )
            },
            Err(e) => Err(e),
        }
    } else if str_eq(c, "quit") || str_eq(c, "q") || str_eq(c, "exit") {
        Ok(ParsedCommand::Quit)
    } else if str_eq(c, "restart") {
        Ok(ParsedCommand::Restart)
    } else {
        let mut m = String::from_str("You don't know how to ");
        let q = debug_quoted(c);
        m.append(q.as_str());
        m.append(". Type \"help\" for help.");
        Ok(ParsedCommand::Message(m))
    }
}

} // verus!
