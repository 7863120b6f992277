//! From a line of input to a command.

use crate::command::{is_bare, writable, written, written_all, Command, CommandView};
use crate::lexer::{
    char_at, ends_input, ends_word, followed_by, lemma_quote_stop, lemma_quote_stop_at,
    lemma_scan_past_end, lemma_word_stop, lemma_word_stop_at, literal_error, quote_stop, scan,
    starts_word, word_stop, Lexer,
};
use crate::text::{same_text, texts};
use vstd::prelude::*;

verus! {

/// The command or the error of a parse, over character sequences.
pub open spec fn parse_view(r: Result<Command, String>) -> Result<CommandView, Seq<char>> {
    match r {
        Ok(command) => Ok(command@),
        Err(e) => Err(e@),
    }
}

/// The key and the value of a command of three tokens.
pub open spec fn parsed_pair(tokens: Seq<Seq<char>>) -> Result<(Seq<char>, Seq<char>), Seq<char>> {
    if tokens.len() < 2 {
        Err("not input key"@)
    } else if tokens.len() < 3 {
        Err("not input value"@)
    } else if tokens.len() > 3 {
        Err("Invalid arguments"@)
    } else {
        Ok((tokens[1], tokens[2]))
    }
}

/// A `set` command: the name, a key and a value.
pub open spec fn parsed_set(tokens: Seq<Seq<char>>) -> Result<CommandView, Seq<char>> {
    match parsed_pair(tokens) {
        Ok((key, value)) => Ok(CommandView::Put { key, value }),
        Err(e) => Err(e),
    }
}

/// A `setnx` command: the name, a key and a value.
pub open spec fn parsed_setnx(tokens: Seq<Seq<char>>) -> Result<CommandView, Seq<char>> {
    match parsed_pair(tokens) {
        Ok((key, value)) => Ok(CommandView::SetNX { key, value }),
        Err(e) => Err(e),
    }
}

/// A `get` command: the name and one key.
pub open spec fn parsed_get(tokens: Seq<Seq<char>>) -> Result<CommandView, Seq<char>> {
    if tokens.len() < 2 {
        Err("not input key"@)
    } else if tokens.len() > 2 {
        Err("Invalid arguments"@)
    } else {
        Ok(CommandView::Get { key: tokens[1] })
    }
}

/// A `del` command: the name and at least one key.
pub open spec fn parsed_del(tokens: Seq<Seq<char>>) -> Result<CommandView, Seq<char>> {
    if tokens.len() < 2 {
        Err("ERR wrong number of arguments for 'del' command"@)
    } else {
        Ok(CommandView::Del { keys: tokens.subrange(1, tokens.len() as int) })
    }
}

/// The command that a run of tokens stands for. The first token names it;
/// the commands without arguments take whatever follows their name.
pub open spec fn parsed(tokens: Seq<Seq<char>>) -> Result<CommandView, Seq<char>> {
    if tokens.len() == 0 {
        Err("not input command name"@)
    } else if tokens[0] == "set"@ {
        parsed_set(tokens)
    } else if tokens[0] == "get"@ {
        parsed_get(tokens)
    } else if tokens[0] == "setnx"@ {
        parsed_setnx(tokens)
    } else if tokens[0] == "del"@ {
        parsed_del(tokens)
    } else if tokens[0] == "shutdown"@ {
        Ok(CommandView::Shutdown)
    } else if tokens[0] == "multi"@ {
        Ok(CommandView::Multi)
    } else if tokens[0] == "exec"@ {
        Ok(CommandView::Exec)
    } else if tokens[0] == "abort"@ {
        Ok(CommandView::Abort)
    } else {
        Err("unknown command"@)
    }
}

/// The command that a line stands for.
pub open spec fn parsed_line(input: Seq<char>) -> Result<CommandView, Seq<char>> {
    match scan(input, 0) {
        Some(tokens) => parsed(tokens),
        None => Err(literal_error()),
    }
}

/// Parses one line into a command.
pub fn parse(input: &str) -> (r: Result<Command, String>)
    ensures
        parse_view(r) == parsed_line(input@),
{
    match split_input(input) {
        Ok(tokens) => parse_to_commnad(tokens),
        Err(e) => Err(e),
    }
}

/// Turns the tokens of a line into a command.
pub fn parse_to_commnad(input: Vec<String>) -> (r: Result<Command, String>)
    ensures
        parse_view(r) == parsed(texts(input@)),
{
    if input.len() == 0 {
        return Err("not input command name".to_owned());
    }
    let name = input[0].as_str();
    assert(texts(input@)[0] == name@);
    if same_text(name, "set") {
        parse_set_command(input)
    } else if same_text(name, "get") {
        parse_get_command(input)
    } else if same_text(name, "setnx") {
        parse_setnx_command(input)
    } else if same_text(name, "del") {
        parse_del_command(input)
    } else if same_text(name, "shutdown") {
        Ok(Command::Shutdown)
    } else if same_text(name, "multi") {
        Ok(Command::Multi)
    } else if same_text(name, "exec") {
        Ok(Command::Exec)
    } else if same_text(name, "abort") {
        Ok(Command::Abort)
    } else {
        Err("unknown command".to_owned())
    }
}

/// Turns the tokens of a `get` into the command.
pub fn parse_get_command(input: Vec<String>) -> (r: Result<Command, String>)
    ensures
        parse_view(r) == parsed_get(texts(input@)),
{
    if input.len() < 2 {
        return Err("not input key".to_owned());
    }
    let key = input[1].clone();
    if input.len() > 2 {
        return Err("Invalid arguments".to_owned());
    }
    Ok(Command::Get { key })
}

/// Takes the key and the value from the tokens of a `set` or a `setnx`.
pub fn parse_set_command_common(input: Vec<String>) -> (r: Result<(String, String), String>)
    ensures
        match r {
            Ok((key, value)) => parsed_pair(texts(input@)) == Ok::<_, Seq<char>>((key@, value@)),
            Err(e) => parsed_pair(texts(input@)) == Err::<(Seq<char>, Seq<char>), _>(e@),
        },
{
    if input.len() < 2 {
        return Err("not input key".to_owned());
    }
    let key = input[1].clone();
    if input.len() < 3 {
        return Err("not input value".to_owned());
    }
    let value = input[2].clone();
    if input.len() > 3 {
        return Err("Invalid arguments".to_owned());
    }
    Ok((key, value))
}

/// Turns the tokens of a `setnx` into the command.
pub fn parse_setnx_command(input: Vec<String>) -> (r: Result<Command, String>)
    ensures
        parse_view(r) == parsed_setnx(texts(input@)),
{
    match parse_set_command_common(input) {
        Ok((key, value)) => Ok(Command::SetNX { key, value }),
        Err(e) => Err(e),
    }
}

/// Turns the tokens of a `set` into the command.
pub fn parse_set_command(input: Vec<String>) -> (r: Result<Command, String>)
    ensures
        parse_view(r) == parsed_set(texts(input@)),
{
    match parse_set_command_common(input) {
        Ok((key, value)) => Ok(Command::Put { key, value }),
        Err(e) => Err(e),
    }
}

/// Turns the tokens of a `del` into the command.
pub fn parse_del_command(input: Vec<String>) -> (r: Result<Command, String>)
    ensures
        parse_view(r) == parsed_del(texts(input@)),
{
    if input.len() < 2 {
        return Err("ERR wrong number of arguments for 'del' command".to_owned());
    }
    let mut keys: Vec<String> = Vec::new();
    let mut i: usize = 1;
    while i < input.len()
        invariant
            1 <= i <= input.len(),
            texts(keys@) == texts(input@).subrange(1, i as int),
        decreases input.len() - i,
    {
        let ghost before = texts(keys@);
        keys.push(input[i].clone());
        proof {
            let key = input@[i as int]@;
            assert(texts(keys@) == before.push(key));
            assert(texts(input@).subrange(1, i + 1) == before.push(key));
        }
        i += 1;
    }
    Ok(Command::Del { keys })
}

/// The tokens read so far, followed by those that are still to be read.
pub open spec fn then_scanned(done: Seq<Seq<char>>, rest: Option<Seq<Seq<char>>>) -> Option<
    Seq<Seq<char>>,
> {
    match rest {
        Some(tokens) => Some(done + tokens),
        None => None,
    }
}

/// Splits a line into its tokens.
pub fn split_input(input: &str) -> (r: Result<Vec<String>, String>)
    ensures
        match r {
            Ok(tokens) => scan(input@, 0) == Some(texts(tokens@)),
            Err(e) => scan(input@, 0) is None && e@ == literal_error(),
        },
{
    let mut lexer = Lexer::new(input.to_owned());
    let mut tokens: Vec<String> = Vec::new();
    lexer.read_char();
    assert(then_scanned(texts(tokens@), scan(input@, 0)) == scan(input@, 0)) by {
        assert(texts(tokens@) == Seq::<Seq<char>>::empty());
        if scan(input@, 0) is Some {
            assert(Seq::<Seq<char>>::empty() + scan(input@, 0)->0 == scan(input@, 0)->0);
        }
    }
    while !lexer.is_end()
        invariant
            lexer.input() == input@,
            0 <= lexer.index() <= input@.len(),
            scan(input@, 0) == then_scanned(texts(tokens@), scan(input@, lexer.index())),
        decreases input@.len() - lexer.index(),
    {
        let ghost here = lexer.index();
        let ghost done = texts(tokens@);
        if lexer.current_ch() == '"' {
            proof {
                lemma_quote_stop(input@, here + 1);
            }
            match lexer.read_string_literal() {
                Ok(literal) => {
                    tokens.push(literal);
                    proof {
                        let close = quote_stop(input@, here + 1);
                        assert(texts(tokens@) == done.push(literal@));
                        lemma_then_scanned(done, literal@, scan(input@, close + 1));
                    }
                },
                Err(e) => {
                    return Err(e);
                },
            }
        }
        if is_letter(lexer.current_ch()) {
            proof {
                lemma_word_stop(input@, here);
            }
            let word = lexer.read_identifier();
            tokens.push(word);
            proof {
                let stop = word_stop(input@, here);
                assert(texts(tokens@) == done.push(word@));
                lemma_then_scanned(done, word@, scan(input@, stop + 1));
                if stop >= input@.len() {
                    lemma_scan_past_end(input@, stop);
                    lemma_scan_past_end(input@, stop + 1);
                }
            }
        }
        lexer.read_char();
    }
    assert(texts(tokens@) + Seq::<Seq<char>>::empty() == texts(tokens@));
    Ok(tokens)
}

/// Reading one token and then the rest is reading the token first.
pub proof fn lemma_then_scanned(
    done: Seq<Seq<char>>,
    token: Seq<char>,
    rest: Option<Seq<Seq<char>>>,
)
    ensures
        then_scanned(done, crate::lexer::followed_by(token, rest)) == then_scanned(
            done.push(token),
            rest,
        ),
{
    if rest is Some {
        assert(done + (seq![token] + rest->0) == done.push(token) + rest->0);
    }
}

/// Whether a word may start with the character.
pub fn is_letter(ch: char) -> (r: bool)
    ensures
        r == starts_word(ch),
{
    'a' <= ch && ch <= 'z' || 'A' <= ch && ch <= 'Z' || '0' <= ch && ch <= '9' || ch == '|' || ch
        == '-' || ch == '+'
}

/// A word that stands in the input, before a blank or the end, is scanned as
/// one token.
pub proof fn lemma_scan_word(input: Seq<char>, i: int, word: Seq<char>)
    requires
        0 <= i,
        i + word.len() <= input.len(),
        input.subrange(i, i + word.len()) == word,
        is_bare(word),
        i + word.len() == input.len() || input[i + word.len()] == ' ',
    ensures
        scan(input, i) == followed_by(word, scan(input, i + word.len() + 1)),
{
    let stop = i + word.len();
    assert forall|j: int| i <= j < stop implies !ends_word(char_at(input, j)) by {
        assert(input[j] == word[j - i]);
    }
    assert(input[i] == word[0]);
    lemma_word_stop_at(input, i, stop);
}

/// A token without double quotes that stands between two of them in the
/// input is scanned as one token.
pub proof fn lemma_scan_literal(input: Seq<char>, i: int, token: Seq<char>)
    requires
        0 <= i,
        i + token.len() + 2 <= input.len(),
        input[i] == '"',
        input.subrange(i + 1, i + 1 + token.len()) == token,
        input[i + 1 + token.len()] == '"',
        !token.contains('"'),
    ensures
        scan(input, i) == followed_by(token, scan(input, i + token.len() + 2)),
{
    let stop = i + 1 + token.len();
    assert forall|j: int| i + 1 <= j < stop implies input[j] != '"' by {
        assert(input[j] == token[j - (i + 1)]);
    }
    lemma_quote_stop_at(input, i + 1, stop);
}

/// Written tokens, one after the other, are a blank, the first one as it is
/// written, and the others written one after the other.
proof fn lemma_written_all_front(tokens: Seq<Seq<char>>)
    requires
        tokens.len() > 0,
    ensures
        written_all(tokens) == seq![' '] + written(tokens[0]) + written_all(tokens.drop_first()),
    decreases tokens.len(),
{
    let rest = tokens.drop_first();
    if tokens.len() == 1 {
        assert(tokens.drop_last() == Seq::<Seq<char>>::empty());
        assert(rest == Seq::<Seq<char>>::empty());
        assert(written_all(rest) == Seq::<char>::empty());
        assert(written_all(tokens.drop_last()) == Seq::<char>::empty());
        assert(written_all(tokens) == seq![' '] + written(tokens[0]) + written_all(rest));
    } else {
        lemma_written_all_front(tokens.drop_last());
        assert(tokens.drop_last().drop_first() == rest.drop_last());
        assert(tokens.drop_last()[0] == tokens[0]);
        assert(rest.last() == tokens.last());
        assert(written_all(rest) == written_all(rest.drop_last()) + seq![' '] + written(
            rest.last(),
        ));
        assert(written_all(tokens) == seq![' '] + written(tokens[0]) + written_all(rest));
    }
}

/// Tokens that are written after `before` are scanned, from the end of
/// `before` on, as the tokens that were written.
pub proof fn lemma_scan_written(before: Seq<char>, tokens: Seq<Seq<char>>)
    requires
        forall|i: int| 0 <= i < tokens.len() ==> writable(#[trigger] tokens[i]),
    ensures
        scan(before + written_all(tokens), before.len() as int) == Some(tokens),
    decreases tokens.len(),
{
    let input = before + written_all(tokens);
    let at = before.len() as int;
    if tokens.len() == 0 {
        assert(written_all(tokens) == Seq::<char>::empty());
        lemma_scan_past_end(input, at);
    } else {
        let token = tokens[0];
        let rest = tokens.drop_first();
        lemma_written_all_front(tokens);
        assert(writable(token));
        assert forall|i: int| 0 <= i < rest.len() implies writable(#[trigger] rest[i]) by {
            assert(rest[i] == tokens[i + 1]);
        }
        let next = before + seq![' '] + written(token);
        assert(input == next + written_all(rest));
        lemma_scan_written(next, rest);
        assert(input[at] == ' ');
        assert(scan(input, at) == scan(input, at + 1));
        if rest.len() > 0 {
            lemma_written_all_front(rest);
            assert(input[next.len() as int] == ' ');
            assert(scan(input, next.len() as int) == scan(input, next.len() as int + 1));
        } else {
            assert(written_all(rest) == Seq::<char>::empty());
            lemma_scan_past_end(input, next.len() as int + 1);
        }
        if is_bare(token) {
            assert(input.subrange(at + 1, at + 1 + token.len()) == token);
            lemma_scan_word(input, at + 1, token);
        } else {
            assert(input.subrange(at + 2, at + 2 + token.len()) == token);
            lemma_scan_literal(input, at + 1, token);
        }
        assert(seq![token] + rest == tokens);
    }
}

/// Every token that is scanned can be written.
pub proof fn lemma_scanned_writable(input: Seq<char>, i: int)
    requires
        0 <= i,
        scan(input, i) is Some,
    ensures
        forall|k: int|
            0 <= k < scan(input, i)->0.len() ==> writable(#[trigger] scan(input, i)->0[k]),
    decreases input.len() + 1 - i,
{
    let c = char_at(input, i);
    let tokens = scan(input, i)->0;
    if ends_input(c) {
    } else if c == '"' {
        let close = quote_stop(input, i + 1);
        lemma_quote_stop(input, i + 1);
        let token = input.subrange(i + 1, close);
        lemma_scanned_writable(input, close + 1);
        let rest = scan(input, close + 1)->0;
        assert(!token.contains('"')) by {
            if token.contains('"') {
                let j = choose|j: int| 0 <= j < token.len() && token[j] == '"';
                assert(input[i + 1 + j] == '"');
            }
        }
        assert forall|k: int| 0 <= k < tokens.len() implies writable(#[trigger] tokens[k]) by {
            if k > 0 {
                assert(tokens[k] == rest[k - 1]);
            }
        }
    } else if starts_word(c) {
        let stop = word_stop(input, i);
        lemma_word_stop(input, i);
        let token = input.subrange(i, stop);
        lemma_scanned_writable(input, stop + 1);
        let rest = scan(input, stop + 1)->0;
        assert(is_bare(token)) by {
            assert(token[0] == input[i]);
            assert forall|j: int| 0 <= j < token.len() implies !ends_word(
                #[trigger] token[j],
            ) by {
                assert(token[j] == input[i + j]);
            }
        }
        assert forall|k: int| 0 <= k < tokens.len() implies writable(#[trigger] tokens[k]) by {
            if k > 0 {
                assert(tokens[k] == rest[k - 1]);
            }
        }
    } else {
        lemma_scanned_writable(input, i + 1);
    }
}

/// The names of the commands are words, and any two of them differ in their
/// length or in their first character.
proof fn lemma_names()
    ensures
        is_bare("set"@),
        is_bare("get"@),
        is_bare("setnx"@),
        is_bare("del"@),
        is_bare("shutdown"@),
        is_bare("multi"@),
        is_bare("exec"@),
        is_bare("abort"@),
        "get"@ != "set"@,
        "setnx"@ != "set"@,
        "setnx"@ != "get"@,
        "del"@ != "set"@,
        "del"@ != "get"@,
        "del"@ != "setnx"@,
        "shutdown"@.len() == 8,
        "multi"@.len() == 5,
        "exec"@.len() == 4,
        "abort"@.len() == 5,
        "set"@.len() == 3,
        "get"@.len() == 3,
        "del"@.len() == 3,
        "setnx"@.len() == 5,
        "multi"@[0] == 'm',
        "abort"@[0] == 'a',
        "setnx"@[0] == 's',
{
    reveal_strlit("set");
    reveal_strlit("get");
    reveal_strlit("setnx");
    reveal_strlit("del");
    reveal_strlit("shutdown");
    reveal_strlit("multi");
    reveal_strlit("exec");
    reveal_strlit("abort");
    assert("set"@[0] == 's');
    assert("get"@[0] == 'g');
    assert("del"@[0] == 'd');
}

/// A command whose line can be read back is what its name and its
/// arguments parse as.
pub proof fn lemma_parsed_arguments(command: CommandView)
    requires
        command is Del ==> command.arguments().len() > 0,
    ensures
        parsed(seq![command.name()] + command.arguments()) == Ok::<CommandView, Seq<char>>(
            command,
        ),
{
    lemma_names();
    let tokens = seq![command.name()] + command.arguments();
    assert(tokens[0] == command.name());
    match command {
        CommandView::Del { keys } => {
            assert(tokens.subrange(1, tokens.len() as int) == keys);
        },
        _ => {},
    }
}

/// The log reads back: the line of a command parses as the command, where
/// each argument can be written and a `del` names a key.
pub proof fn lemma_line_parses(command: CommandView)
    requires
        command.writable(),
    ensures
        parsed_line(command.line()) == Ok::<CommandView, Seq<char>>(command),
{
    lemma_names();
    let name = command.name();
    let arguments = command.arguments();
    let input = command.line();
    lemma_scan_written(name, arguments);
    assert(input.subrange(0, name.len() as int) == name);
    if arguments.len() > 0 {
        lemma_written_all_front(arguments);
        assert(input[name.len() as int] == ' ');
        assert(scan(input, name.len() as int) == scan(input, name.len() as int + 1));
    } else {
        assert(written_all(arguments) == Seq::<char>::empty());
        lemma_scan_past_end(input, name.len() as int + 1);
    }
    lemma_scan_word(input, 0, name);
    lemma_parsed_arguments(command);
}

/// What a line parses as is a command whose own line can be read back: so
/// the line that is logged for a command stands for that command.
pub proof fn lemma_parsed_writable(input: Seq<char>)
    requires
        parsed_line(input) is Ok,
    ensures
        parsed_line(input)->Ok_0.writable(),
        parsed_line(parsed_line(input)->Ok_0.line()) == parsed_line(input),
{
    let tokens = scan(input, 0)->0;
    let command = parsed_line(input)->Ok_0;
    lemma_scanned_writable(input, 0);
    assert forall|i: int| 0 <= i < command.arguments().len() implies writable(
        #[trigger] command.arguments()[i],
    ) by {
        assert(command.arguments()[i] == tokens[i + 1]);
    }
    lemma_line_parses(command);
}

} // verus!
