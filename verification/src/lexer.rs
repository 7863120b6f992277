//! A cursor over the characters of one input line, and the grammar of the
//! tokens that it reads.
//!
//! A line is a run of tokens. A token is either a word, which starts with a
//! word character and runs up to the next blank or line end, or a literal,
//! which stands between two double quotes and may hold blanks. Characters
//! that start neither are skipped.

use crate::text::{chars_of, string_of};
use vstd::prelude::*;

verus! {

/// The character at `i`, or NUL where `i` lies outside the input.
pub open spec fn char_at(input: Seq<char>, i: int) -> char {
    if 0 <= i < input.len() {
        input[i]
    } else {
        '\0'
    }
}

/// Characters at which reading of a line stops.
pub open spec fn ends_input(c: char) -> bool {
    c == '\n' || c == '\0'
}

/// Characters at which a word stops.
pub open spec fn ends_word(c: char) -> bool {
    c == ' ' || ends_input(c)
}

/// Characters with which a word may start: ASCII letters and digits, and
/// `|`, `-`, `+`.
pub open spec fn starts_word(c: char) -> bool {
    ||| 'a' <= c <= 'z'
    ||| 'A' <= c <= 'Z'
    ||| '0' <= c <= '9'
    ||| c == '|'
    ||| c == '-'
    ||| c == '+'
}

/// The first position at or after `from` that holds a character that ends a
/// word. The end of the input counts as one.
pub open spec fn word_stop(input: Seq<char>, from: int) -> int
    decreases input.len() - from,
{
    if ends_word(char_at(input, from)) {
        from
    } else {
        word_stop(input, from + 1)
    }
}

/// The first position at or after `from` that holds a double quote, or the
/// length of the input if there is none.
pub open spec fn quote_stop(input: Seq<char>, from: int) -> int
    decreases input.len() - from,
{
    if from < 0 || from >= input.len() || input[from] == '"' {
        from
    } else {
        quote_stop(input, from + 1)
    }
}

/// The word that starts at `from`: empty before the input's first character.
pub open spec fn word_at(input: Seq<char>, from: int) -> Seq<char> {
    if from < 0 {
        Seq::empty()
    } else {
        input.subrange(from, word_stop(input, from))
    }
}

/// `token` followed by the tokens of `rest`, if there are any.
pub open spec fn followed_by(token: Seq<char>, rest: Option<Seq<Seq<char>>>) -> Option<
    Seq<Seq<char>>,
> {
    match rest {
        Some(tokens) => Some(seq![token] + tokens),
        None => None,
    }
}

/// The tokens of `input` from position `i` on, or `None` where a literal is
/// opened and never closed.
pub open spec fn scan(input: Seq<char>, i: int) -> Option<Seq<Seq<char>>>
    decreases input.len() + 1 - i,
{
    let c = char_at(input, i);
    if ends_input(c) {
        Some(Seq::empty())
    } else if c == '"' {
        let close = quote_stop(input, i + 1);
        if close >= input.len() {
            None
        } else {
            proof {
                lemma_quote_stop(input, i + 1);
            }
            followed_by(input.subrange(i + 1, close), scan(input, close + 1))
        }
    } else if starts_word(c) {
        let stop = word_stop(input, i);
        proof {
            lemma_word_stop(input, i);
        }
        followed_by(input.subrange(i, stop), scan(input, stop + 1))
    } else {
        scan(input, i + 1)
    }
}

/// A word stops between its start and the end of the input, at a character
/// that ends words, and holds none before.
pub proof fn lemma_word_stop(input: Seq<char>, from: int)
    requires
        0 <= from <= input.len(),
    ensures
        from <= word_stop(input, from) <= input.len(),
        ends_word(char_at(input, word_stop(input, from))),
        forall|j: int| from <= j < word_stop(input, from) ==> !ends_word(#[trigger] input[j]),
    decreases input.len() - from,
{
    if !ends_word(char_at(input, from)) {
        lemma_word_stop(input, from + 1);
    }
}

/// A literal stops between its start and the end of the input, at a double
/// quote if within the input, and holds no double quote before.
pub proof fn lemma_quote_stop(input: Seq<char>, from: int)
    requires
        0 <= from <= input.len(),
    ensures
        from <= quote_stop(input, from) <= input.len(),
        quote_stop(input, from) < input.len() ==> input[quote_stop(input, from)] == '"',
        forall|j: int| from <= j < quote_stop(input, from) ==> #[trigger] input[j] != '"',
    decreases input.len() - from,
{
    if from < input.len() && input[from] != '"' {
        lemma_quote_stop(input, from + 1);
    }
}

/// A word stops at the first character that ends one.
pub proof fn lemma_word_stop_at(input: Seq<char>, from: int, stop: int)
    requires
        0 <= from <= stop,
        forall|j: int| from <= j < stop ==> !ends_word(char_at(input, j)),
        ends_word(char_at(input, stop)),
    ensures
        word_stop(input, from) == stop,
    decreases stop - from,
{
    if from < stop {
        lemma_word_stop_at(input, from + 1, stop);
    }
}

/// A literal stops at the first double quote.
pub proof fn lemma_quote_stop_at(input: Seq<char>, from: int, stop: int)
    requires
        0 <= from <= stop < input.len(),
        forall|j: int| from <= j < stop ==> input[j] != '"',
        input[stop] == '"',
    ensures
        quote_stop(input, from) == stop,
    decreases stop - from,
{
    if from < stop {
        lemma_quote_stop_at(input, from + 1, stop);
    }
}

/// Nothing is left to scan past the end of the input.
pub proof fn lemma_scan_past_end(input: Seq<char>, i: int)
    requires
        i >= input.len(),
    ensures
        scan(input, i) == Some(Seq::<Seq<char>>::empty()),
{
}

/// The message of the one error that reading a literal can give.
pub open spec fn literal_error() -> Seq<char> {
    "failed to read string literal"@
}

/// A cursor over the characters of a line. Before the first `read_char` it
/// stands in front of the input; it never moves past the input's end.
#[derive(Debug)]
pub struct Lexer {
    input: Vec<char>,
    cursor: Option<usize>,
}

impl Clone for Lexer {
    fn clone(&self) -> (lexer: Lexer)
        ensures
            lexer.input() == self.input(),
            lexer.index() == self.index(),
    {
        proof {
            use_type_invariant(self);
        }
        let input = self.input.clone();
        assert(input@ == self.input@);
        Lexer { input, cursor: self.cursor }
    }
}

impl Lexer {
    #[verifier::type_invariant]
    spec fn within_input(self) -> bool {
        self.cursor matches Some(i) ==> i <= self.input.len()
    }

    /// The characters of the line.
    pub closed spec fn input(&self) -> Seq<char> {
        self.input@
    }

    /// The position of the current character: -1 before the first read, the
    /// input's length once the input is used up.
    pub closed spec fn index(&self) -> int {
        match self.cursor {
            None => -1,
            Some(i) => i as int,
        }
    }

    /// The position after `index`, held at the end of the input.
    pub open spec fn next_index(&self) -> int {
        if self.index() < self.input().len() {
            self.index() + 1
        } else {
            self.index()
        }
    }

    /// A cursor in front of the first character of `input`.
    pub fn new(input: String) -> (lexer: Lexer)
        ensures
            lexer.input() == input@,
            lexer.index() == -1,
    {
        Lexer { input: chars_of(input.as_str()), cursor: None }
    }

    /// The current character: NUL in front of the input and after its end.
    pub fn current_ch(&self) -> (c: char)
        ensures
            c == char_at(self.input(), self.index()),
    {
        match self.cursor {
            None => '\0',
            Some(i) => self.get_char(i),
        }
    }

    /// The character at `position`, or NUL past the end.
    fn get_char(&self, position: usize) -> (c: char)
        ensures
            c == char_at(self.input(), position as int),
    {
        if position < self.input.len() {
            self.input[position]
        } else {
            '\0'
        }
    }

    /// Moves to the next character.
    pub fn read_char(&mut self)
        ensures
            final(self).input() == old(self).input(),
            final(self).index() == old(self).next_index(),
            0 <= final(self).index() <= final(self).input().len(),
    {
        proof {
            use_type_invariant(&*self);
        }
        let next: usize = match self.cursor {
            None => 0,
            Some(i) => if i < self.input.len() {
                i + 1
            } else {
                i
            },
        };
        self.cursor = Some(next);
    }

    /// Reads the literal whose opening quote is the current character, and
    /// stops on its closing quote. Fails where the current character is no
    /// double quote, and where the input ends before the literal does.
    pub fn read_string_literal(&mut self) -> (r: Result<String, String>)
        ensures
            final(self).input() == old(self).input(),
            match r {
                Ok(s) => {
                    let close = quote_stop(old(self).input(), old(self).index() + 1);
                    &&& char_at(old(self).input(), old(self).index()) == '"'
                    &&& close < old(self).input().len()
                    &&& s@ == old(self).input().subrange(old(self).index() + 1, close)
                    &&& final(self).index() == close
                },
                Err(e) => {
                    &&& e@ == literal_error()
                    &&& if char_at(old(self).input(), old(self).index()) == '"' {
                        &&& quote_stop(old(self).input(), old(self).index() + 1) >= old(
                            self,
                        ).input().len()
                        &&& final(self).index() == old(self).input().len()
                    } else {
                        final(self).index() == old(self).index()
                    }
                },
            },
    {
        if self.current_ch() != '"' {
            return Err("failed to read string literal".to_owned());
        }
        self.read_char();
        proof {
            use_type_invariant(&*self);
        }
        let start: usize = match self.cursor {
            Some(i) => i,
            None => 0,
        };
        let ghost input = self.input@;
        loop
            invariant
                self.input@ == input,
                input == old(self).input(),
                char_at(input, old(self).index()) == '"',
                start == old(self).index() + 1,
                self.cursor is Some,
                start <= self.cursor->0 <= input.len(),
                quote_stop(input, start as int) == quote_stop(input, self.index()),
            decreases input.len() - self.index(),
        {
            proof {
                use_type_invariant(&*self);
            }
            let here: usize = match self.cursor {
                Some(i) => i,
                None => 0,
            };
            if here >= self.input.len() {
                return Err("failed to read string literal".to_owned());
            }
            if self.input[here] == '"' {
                return Ok(string_of(&self.input, start, here));
            }
            self.read_char();
        }
    }

    /// Reads the word that starts at the current character, and stops on
    /// the character that ends it.
    pub fn read_identifier(&mut self) -> (word: String)
        ensures
            final(self).input() == old(self).input(),
            final(self).index() == word_stop(old(self).input(), old(self).index()),
            word@ == word_at(old(self).input(), old(self).index()),
    {
        proof {
            use_type_invariant(&*self);
        }
        let start: usize = match self.cursor {
            Some(i) => i,
            None => {
                return String::new();
            },
        };
        let ghost input = self.input@;
        while !self.at_word_end()
            invariant
                self.input@ == input,
                input == old(self).input(),
                start == old(self).index(),
                self.cursor is Some,
                start <= self.cursor->0 <= input.len(),
                word_stop(input, start as int) == word_stop(input, self.index()),
            decreases input.len() - self.index(),
        {
            self.read_char();
        }
        proof {
            use_type_invariant(&*self);
        }
        let stop: usize = match self.cursor {
            Some(i) => i,
            None => start,
        };
        string_of(&self.input, start, stop)
    }

    /// Whether the current character ends the line.
    pub fn is_end(&self) -> (r: bool)
        ensures
            r == ends_input(char_at(self.input(), self.index())),
    {
        let c = self.current_ch();
        c == '\n' || c == '\0'
    }

    /// Whether the current character ends a word.
    fn at_word_end(&self) -> (r: bool)
        ensures
            r == ends_word(char_at(self.input(), self.index())),
    {
        self.current_ch() == ' ' || self.is_end()
    }
}

} // verus!
