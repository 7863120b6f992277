//! The commands of the store, and the line that stands for each in the log.

use crate::lexer::{ends_word, starts_word};
use crate::parser::is_letter;
use crate::text::{chars_of, texts};
use vstd::prelude::*;
use vstd::string::StringExecFns;

verus! {

/// A command as it is carried out: the keys and values are the tokens of the
/// line that asked for it.
#[derive(PartialEq, PartialOrd, Debug, Clone)]
pub enum Command {
    Put { key: String, value: String },
    SetNX { key: String, value: String },
    Get { key: String },
    Del { keys: Vec<String> },
    Multi,
    Exec,
    Abort,
    Shutdown,
}

/// A command over character sequences: what a `Command` says.
pub enum CommandView {
    Put { key: Seq<char>, value: Seq<char> },
    SetNX { key: Seq<char>, value: Seq<char> },
    Get { key: Seq<char> },
    Del { keys: Seq<Seq<char>> },
    Multi,
    Exec,
    Abort,
    Shutdown,
}

impl View for Command {
    type V = CommandView;

    open spec fn view(&self) -> CommandView {
        match self {
            Command::Put { key, value } => CommandView::Put { key: key@, value: value@ },
            Command::SetNX { key, value } => CommandView::SetNX { key: key@, value: value@ },
            Command::Get { key } => CommandView::Get { key: key@ },
            Command::Del { keys } => CommandView::Del { keys: texts(keys@) },
            Command::Multi => CommandView::Multi,
            Command::Exec => CommandView::Exec,
            Command::Abort => CommandView::Abort,
            Command::Shutdown => CommandView::Shutdown,
        }
    }
}

impl CommandView {
    /// The word that names the command.
    pub open spec fn name(self) -> Seq<char> {
        match self {
            CommandView::Put { .. } => "set"@,
            CommandView::SetNX { .. } => "setnx"@,
            CommandView::Get { .. } => "get"@,
            CommandView::Del { .. } => "del"@,
            CommandView::Multi => "multi"@,
            CommandView::Exec => "exec"@,
            CommandView::Abort => "abort"@,
            CommandView::Shutdown => "shutdown"@,
        }
    }

    /// The arguments of the command, in the order in which they are written.
    pub open spec fn arguments(self) -> Seq<Seq<char>> {
        match self {
            CommandView::Put { key, value } => seq![key, value],
            CommandView::SetNX { key, value } => seq![key, value],
            CommandView::Get { key } => seq![key],
            CommandView::Del { keys } => keys,
            _ => Seq::empty(),
        }
    }

    /// Whether the line of the command can be read back: each argument can,
    /// and a `del` names a key.
    pub open spec fn writable(self) -> bool {
        &&& forall|i: int|
            0 <= i < self.arguments().len() ==> writable(#[trigger] self.arguments()[i])
        &&& self is Del ==> self.arguments().len() > 0
    }

    /// The line that stands for the command: its name, then each argument
    /// after one blank.
    pub open spec fn line(self) -> Seq<char> {
        self.name() + written_all(self.arguments())
    }
}

/// Whether a token can be written as a word: it starts as a word does and
/// holds no character that ends one.
pub open spec fn is_bare(token: Seq<char>) -> bool {
    &&& token.len() > 0
    &&& starts_word(token[0])
    &&& forall|i: int| 0 <= i < token.len() ==> !ends_word(#[trigger] token[i])
}

/// A token as it is written in a line: as it stands where it is a word,
/// between double quotes where it is not.
pub open spec fn written(token: Seq<char>) -> Seq<char> {
    if is_bare(token) {
        token
    } else {
        seq!['"'] + token + seq!['"']
    }
}

/// Whether a token can be written so that it is read back: as a word, or
/// between double quotes because it holds none.
pub open spec fn writable(token: Seq<char>) -> bool {
    is_bare(token) || !token.contains('"')
}

/// The tokens as they are written one after the other, a blank before each.
pub open spec fn written_all(tokens: Seq<Seq<char>>) -> Seq<char>
    decreases tokens.len(),
{
    if tokens.len() == 0 {
        Seq::empty()
    } else {
        written_all(tokens.drop_last()) + seq![' '] + written(tokens.last())
    }
}

/// Writing one more token adds a blank and the token as it is written.
pub proof fn lemma_written_push(tokens: Seq<Seq<char>>, token: Seq<char>)
    ensures
        written_all(tokens.push(token)) == written_all(tokens) + seq![' '] + written(token),
{
    assert(tokens.push(token).drop_last() == tokens);
}

/// Whether the token can be written as a word.
fn bare(token: &str) -> (r: bool)
    ensures
        r == is_bare(token@),
{
    let chars = chars_of(token);
    if chars.len() == 0 {
        return false;
    }
    if !is_letter(chars[0]) {
        return false;
    }
    let mut i: usize = 0;
    while i < chars.len()
        invariant
            i <= chars.len(),
            chars@ == token@,
            forall|j: int| 0 <= j < i ==> !ends_word(#[trigger] chars@[j]),
        decreases chars.len() - i,
    {
        let c = chars[i];
        if c == ' ' || c == '\n' || c == '\0' {
            return false;
        }
        i += 1;
    }
    true
}

/// Adds a blank and the token to the line.
fn write_token(line: &mut String, token: &str)
    ensures
        final(line)@ == old(line)@ + seq![' '] + written(token@),
{
    line.push(' ');
    if bare(token) {
        line.append(token);
    } else {
        line.push('"');
        line.append(token);
        line.push('"');
    }
    assert(line@ =~= old(line)@ + seq![' '] + written(token@));
}

impl Command {
    /// The line that stands for the command in the log.
    pub fn to_string(&self) -> (line: String)
        ensures
            line@ == self@.line(),
    {
        match self {
            Command::Put { key, value } => {
                let mut line = "set".to_owned();
                write_pair(&mut line, key.as_str(), value.as_str());
                line
            },
            Command::SetNX { key, value } => {
                let mut line = "setnx".to_owned();
                write_pair(&mut line, key.as_str(), value.as_str());
                line
            },
            Command::Get { key } => {
                let mut line = "get".to_owned();
                write_token(&mut line, key.as_str());
                proof {
                    let none = Seq::<Seq<char>>::empty();
                    lemma_written_push(none, key@);
                    assert(none.push(key@) == seq![key@]);
                    assert(line@ =~= "get"@ + written_all(seq![key@]));
                }
                line
            },
            Command::Del { keys } => {
                let mut line = "del".to_owned();
                let mut i: usize = 0;
                while i < keys.len()
                    invariant
                        i <= keys.len(),
                        line@ == "del"@ + written_all(texts(keys@).take(i as int)),
                    decreases keys.len() - i,
                {
                    write_token(&mut line, keys[i].as_str());
                    proof {
                        let before = texts(keys@).take(i as int);
                        let now = texts(keys@).take(i + 1);
                        lemma_written_push(before, keys@[i as int]@);
                        assert(now == before.push(keys@[i as int]@));
                        assert(line@ =~= "del"@ + written_all(now));
                    }
                    i += 1;
                }
                assert(texts(keys@).take(i as int) == texts(keys@));
                line
            },
            Command::Multi => "multi".to_owned(),
            Command::Exec => "exec".to_owned(),
            Command::Abort => "abort".to_owned(),
            Command::Shutdown => "shutdown".to_owned(),
        }
    }
}

/// Adds a key and a value to the line.
fn write_pair(line: &mut String, key: &str, value: &str)
    ensures
        final(line)@ == old(line)@ + written_all(seq![key@, value@]),
{
    write_token(line, key);
    write_token(line, value);
    proof {
        let none = Seq::<Seq<char>>::empty();
        lemma_written_push(none, key@);
        lemma_written_push(none.push(key@), value@);
        assert(none.push(key@).push(value@) == seq![key@, value@]);
        assert(line@ =~= old(line)@ + written_all(seq![key@, value@]));
    }
}

} // verus!
