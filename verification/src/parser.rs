//! The tokenizer: from code points to instructions.

use crate::command::{
    Command, COMMA, HEART, HUG, PLEADING, POINT_LEFT, POINT_RIGHT, SELECTOR, SPARKLES,
    SPARKLING_HEART, STOP,
};
use vstd::prelude::*;
use vstd::std_specs::iter::IteratorSpec;

verus! {

/// Why a source text is not a program.
#[derive(Debug, Clone, Copy, PartialEq, Eq, Structural)]
pub enum ParserError {
    /// U+1F449 was not followed by U+1F448.
    InvalidFingers,
    /// U+2764 was not followed by U+FE0F.
    IncompleteHeart,
}

impl ParserError {
    /// The words for this error.
    pub open spec fn wording(self) -> Seq<char> {
        match self {
            ParserError::InvalidFingers => "missing matching \u{1f448}"@,
            ParserError::IncompleteHeart => "incomplete \u{2764}\u{fe0f}"@,
        }
    }

    /// The words for this error.
    pub fn describe(&self) -> (text: &'static str)
        ensures
            text@ == self.wording(),
    {
        match self {
            ParserError::InvalidFingers => "missing matching \u{1f448}",
            ParserError::IncompleteHeart => "incomplete \u{2764}\u{fe0f}",
        }
    }
}

/// The instruction that `c` spells on its own, if any.
pub open spec fn single(c: char) -> Option<Command> {
    if c == SPARKLING_HEART {
        Some(Command::Right)
    } else if c == PLEADING {
        Some(Command::Sub)
    } else if c == COMMA {
        Some(Command::Input)
    } else if c == STOP {
        Some(Command::Output)
    } else if c == HUG {
        Some(Command::Loop)
    } else if c == SPARKLES {
        Some(Command::Pool)
    } else {
        None
    }
}

/// What one scan yields: the token, if the text held one, and the text left
/// behind it.
pub struct Scan {
    /// The instruction or the error, or `None` at the end of the text.
    pub token: Option<Result<Command, ParserError>>,
    /// The code points behind what was consumed.
    pub rest: Seq<char>,
}

/// The token of a two-code-point lexeme whose first code point was just read:
/// `done` if `second` comes next, `fail` otherwise. Whatever comes next is
/// consumed.
pub open spec fn pair(s: Seq<char>, second: char, done: Command, fail: ParserError) -> Scan {
    if s.len() >= 2 && s[1] == second {
        Scan { token: Some(Ok(done)), rest: s.skip(2) }
    } else if s.len() >= 2 {
        Scan { token: Some(Err(fail)), rest: s.skip(2) }
    } else {
        Scan { token: Some(Err(fail)), rest: s.skip(1) }
    }
}

/// The first token of `s` and the text behind it. Code points that begin no
/// lexeme are passed over.
pub open spec fn scan(s: Seq<char>) -> Scan
    decreases s.len(),
{
    if s.len() == 0 {
        Scan { token: None, rest: s }
    } else if s[0] == HEART {
        pair(s, SELECTOR, Command::Left, ParserError::IncompleteHeart)
    } else if s[0] == POINT_RIGHT {
        pair(s, POINT_LEFT, Command::Add, ParserError::InvalidFingers)
    } else if single(s[0]) is Some {
        Scan { token: Some(Ok(single(s[0])->0)), rest: s.skip(1) }
    } else {
        scan(s.skip(1))
    }
}

/// `r` with `c` put in front of the program, where there is one.
pub open spec fn prepend(c: Command, r: Result<Seq<Command>, ParserError>) -> Result<
    Seq<Command>,
    ParserError,
> {
    match r {
        Ok(program) => Ok(seq![c] + program),
        Err(e) => Err(e),
    }
}

/// The program that `s` spells, or the first error in it.
pub open spec fn parse(s: Seq<char>) -> Result<Seq<Command>, ParserError>
    decreases s.len(),
{
    if s.len() == 0 {
        Ok(Seq::empty())
    } else if s[0] == HEART {
        if s.len() >= 2 && s[1] == SELECTOR {
            prepend(Command::Left, parse(s.skip(2)))
        } else {
            Err(ParserError::IncompleteHeart)
        }
    } else if s[0] == POINT_RIGHT {
        if s.len() >= 2 && s[1] == POINT_LEFT {
            prepend(Command::Add, parse(s.skip(2)))
        } else {
            Err(ParserError::InvalidFingers)
        }
    } else if single(s[0]) is Some {
        prepend(single(s[0])->0, parse(s.skip(1)))
    } else {
        parse(s.skip(1))
    }
}

/// A scan that yields a token consumes at least one code point; one that
/// yields none leaves nothing behind.
pub proof fn lemma_scan_consumes(s: Seq<char>)
    ensures
        scan(s).token is Some ==> scan(s).rest.len() < s.len(),
        scan(s).token is None ==> scan(s).rest.len() == 0,
    decreases s.len(),
{
    if s.len() > 0 && s[0] != HEART && s[0] != POINT_RIGHT && single(s[0]) is None {
        lemma_scan_consumes(s.skip(1));
    }
}

/// Parsing is scanning token by token: the program is the first token
/// followed by the program of the rest, and the first bad token is the error.
pub proof fn lemma_parse_by_scan(s: Seq<char>)
    ensures
        parse(s) == match scan(s).token {
            None => Ok(Seq::empty()),
            Some(Err(e)) => Err(e),
            Some(Ok(c)) => prepend(c, parse(scan(s).rest)),
        },
    decreases s.len(),
{
    if s.len() > 0 && s[0] != HEART && s[0] != POINT_RIGHT && single(s[0]) is None {
        lemma_parse_by_scan(s.skip(1));
    }
}

/// A streaming tokenizer: the source text and a cursor into it.
pub struct Parser {
    source: Vec<char>,
    cursor: usize,
}

impl View for Parser {
    type V = Seq<char>;

    /// The code points not yet consumed.
    closed spec fn view(&self) -> Seq<char> {
        self.source@.skip(self.cursor as int)
    }
}

impl Parser {
    #[verifier::type_invariant]
    spec fn inv(&self) -> bool {
        self.cursor <= self.source.len()
    }

    /// A tokenizer at the start of `source`.
    pub fn new(source: &str) -> (parser: Parser)
        ensures
            parser@ == source@,
    {
        let mut chars: Vec<char> = Vec::new();
        let mut it = source.chars();
        loop
            invariant
                chars@ + it.remaining() == source@,
                it.decrease() is Some,
            ensures
                chars@ == source@,
            decreases it.decrease()->0,
        {
            match it.next() {
                Some(c) => {
                    assert(chars@.push(c) + it.remaining() =~= source@);
                    chars.push(c);
                },
                None => {
                    assert(chars@ =~= source@);
                    break ;
                },
            }
        }
        Parser { source: chars, cursor: 0 }
    }

    /// Reads the second code point of a two-code-point lexeme, whatever it
    /// is: `done` if it is `second`, else `fail`.
    fn pair(&mut self, second: char, done: Command, fail: ParserError) -> (token: Result<
        Command,
        ParserError,
    >)
        requires
            old(self).cursor >= 1,
        ensures
            final(self).source == old(self).source,
            final(self).cursor >= 1,
            Some(token) == self::pair(
                old(self).source@.skip(old(self).cursor - 1),
                second,
                done,
                fail,
            ).token,
            final(self)@ == self::pair(
                old(self).source@.skip(old(self).cursor - 1),
                second,
                done,
                fail,
            ).rest,
    {
        proof {
            use_type_invariant(&*self);
        }
        let ghost s = self.source@.skip(self.cursor - 1);
        if self.cursor < self.source.len() {
            let c = self.source[self.cursor];
            assert(s[1] == c);
            self.cursor += 1;
            assert(self@ =~= s.skip(2));
            if c == second {
                Ok(done)
            } else {
                Err(fail)
            }
        } else {
            assert(self@ =~= s.skip(1));
            Err(fail)
        }
    }

    /// The next token, or `None` once the source is exhausted. After an
    /// error the cursor stands behind the code point that did not fit.
    pub fn next(&mut self) -> (token: Option<Result<Command, ParserError>>)
        ensures
            token == scan(old(self)@).token,
            final(self)@ == scan(old(self)@).rest,
    {
        proof {
            use_type_invariant(&*self);
        }
        let ghost start = self@;
        loop
            invariant
                self.cursor <= self.source.len(),
                start == old(self)@,
                scan(self@) == scan(start),
            decreases self.source.len() - self.cursor,
        {
            if self.cursor >= self.source.len() {
                assert(self@.len() == 0);
                return None;
            }
            let ghost s = self@;
            let c = self.source[self.cursor];
            assert(s[0] == c);
            self.cursor += 1;
            assert(self@ =~= s.skip(1));
            if c == HEART {
                assert(self.source@.skip(self.cursor - 1) =~= s);
                return Some(self.pair(SELECTOR, Command::Left, ParserError::IncompleteHeart));
            } else if c == POINT_RIGHT {
                assert(self.source@.skip(self.cursor - 1) =~= s);
                return Some(self.pair(POINT_LEFT, Command::Add, ParserError::InvalidFingers));
            } else if c == SPARKLING_HEART {
                return Some(Ok(Command::Right));
            } else if c == PLEADING {
                return Some(Ok(Command::Sub));
            } else if c == COMMA {
                return Some(Ok(Command::Input));
            } else if c == STOP {
                return Some(Ok(Command::Output));
            } else if c == HUG {
                return Some(Ok(Command::Loop));
            } else if c == SPARKLES {
                return Some(Ok(Command::Pool));
            }
        }
    }

    /// The whole program, or the first error met on the way to it.
    pub fn collect(self) -> (r: Result<Vec<Command>, ParserError>)
        ensures
            match parse(self@) {
                Ok(program) => r is Ok && r->Ok_0@ == program,
                Err(e) => r == Err::<Vec<Command>, ParserError>(e),
            },
    {
        let mut parser = self;
        let mut program: Vec<Command> = Vec::new();
        loop
            invariant
                parse(self@) == match parse(parser@) {
                    Ok(tail) => Ok(program@ + tail),
                    Err(e) => Err(e),
                },
            decreases parser@.len(),
        {
            proof {
                lemma_scan_consumes(parser@);
                lemma_parse_by_scan(parser@);
            }
            let ghost before = parser@;
            match parser.next() {
                None => {
                    assert(program@ + Seq::<Command>::empty() =~= program@);
                    return Ok(program);
                },
                Some(Err(e)) => {
                    return Err(e);
                },
                Some(Ok(c)) => {
                    proof {
                        match parse(parser@) {
                            Ok(tail) => {
                                assert(program@.push(c) + tail =~= program@ + (seq![c] + tail));
                            },
                            Err(_) => {},
                        }
                    }
                    program.push(c);
                },
            }
        }
    }
}

} // verus!
