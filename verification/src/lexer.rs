//! Lexing: mapping source bytes to commands.
//!
//! Each of the eight recognized bytes maps to one command; every other byte
//! is commentary and is dropped silently, so lexing is total over the input
//! alphabet.

use vstd::prelude::*;

verus! {

/// Enumerations corresponding to the characters stored within the source.
/// They are not meant to be used within the execution process, only parsing.
#[allow(non_camel_case_types)]
#[derive(Clone, Copy, PartialEq, Eq, Structural, Debug)]
pub enum Commands {
    PTR_LEFT,
    PRT_RIGHT,
    INCR,
    DECR,
    OUTP,
    INPT,
    IF_ZERO,
    JMP_NZERO,
}

impl Commands {
    /// True of every command that neither opens nor closes a loop block.
    pub open spec fn not_block_spec(self) -> bool {
        self != Commands::IF_ZERO && self != Commands::JMP_NZERO
    }

    /// Checks whether the command should not begin/close a new code block.
    pub fn not_block(&self) -> (r: bool)
        ensures
            r == self.not_block_spec(),
    {
        *self != Commands::IF_ZERO && *self != Commands::JMP_NZERO
    }

    /// The command denoted by one source byte, or `None` for a comment byte.
    pub open spec fn command_of_byte(b: u8) -> Option<Commands> {
        if b == 60 {
            Some(Commands::PTR_LEFT)
        } else if b == 62 {
            Some(Commands::PRT_RIGHT)
        } else if b == 43 {
            Some(Commands::INCR)
        } else if b == 45 {
            Some(Commands::DECR)
        } else if b == 46 {
            Some(Commands::OUTP)
        } else if b == 44 {
            Some(Commands::INPT)
        } else if b == 91 {
            Some(Commands::IF_ZERO)
        } else if b == 93 {
            Some(Commands::JMP_NZERO)
        } else {
            None
        }
    }

    /// Maps one source byte to its command; `None` marks a comment byte.
    pub fn try_from_byte(b: u8) -> (r: Option<Commands>)
        ensures
            r == Commands::command_of_byte(b),
    {
        if b == 60 {
            Some(Commands::PTR_LEFT)
        } else if b == 62 {
            Some(Commands::PRT_RIGHT)
        } else if b == 43 {
            Some(Commands::INCR)
        } else if b == 45 {
            Some(Commands::DECR)
        } else if b == 46 {
            Some(Commands::OUTP)
        } else if b == 44 {
            Some(Commands::INPT)
        } else if b == 91 {
            Some(Commands::IF_ZERO)
        } else if b == 93 {
            Some(Commands::JMP_NZERO)
        } else {
            None
        }
    }

    /// The source byte that denotes this command.
    pub fn as_byte(&self) -> (r: u8)
        ensures
            Commands::command_of_byte(r) == Some(*self),
    {
        match self {
            Commands::PTR_LEFT => 60,
            Commands::PRT_RIGHT => 62,
            Commands::INCR => 43,
            Commands::DECR => 45,
            Commands::OUTP => 46,
            Commands::INPT => 44,
            Commands::IF_ZERO => 91,
            Commands::JMP_NZERO => 93,
        }
    }
}

/// The command sequence that lexing a byte sequence yields: recognized bytes
/// in source order, comment bytes dropped.
pub open spec fn lex_spec(src: Seq<u8>) -> Seq<Commands>
    decreases src.len(),
{
    if src.len() == 0 {
        Seq::empty()
    } else {
        lex_spec(src.drop_last()) + match Commands::command_of_byte(src.last()) {
            Some(c) => seq![c],
            None => Seq::empty(),
        }
    }
}

/// Lexes source text: each recognized byte becomes its command, in source
/// order; all other bytes are skipped as commentary.
pub fn lex(src: &[u8]) -> (r: Vec<Commands>)
    ensures
        r@ == lex_spec(src@),
{
    let mut r: Vec<Commands> = Vec::new();
    let mut i: usize = 0;
    while i < src.len()
        invariant
            i <= src.len(),
            r@ == lex_spec(src@.take(i as int)),
        decreases src.len() - i,
    {
        proof {
            assert(src@.take(i + 1).drop_last() =~= src@.take(i as int));
            assert(src@.take(i + 1).last() == src@[i as int]);
        }
        match Commands::try_from_byte(src[i]) {
            Some(c) => {
                r.push(c);
                proof {
                    assert(r@ =~= lex_spec(src@.take(i + 1)));
                }
            },
            None => {
                proof {
                    assert(r@ =~= lex_spec(src@.take(i + 1)));
                }
            },
        }
        i = i + 1;
    }
    proof {
        assert(src@.take(src@.len() as int) =~= src@);
    }
    r
}

} // verus!
