//! Parse errors and their ghost model.

use vstd::prelude::*;
use vstd::string::StringExecFns;

use crate::lexer::push_char;

verus! {

/// An error from parsing: a stray character at a source position, input that
/// ended too early, or a structural fault described by a static message.
#[derive(Debug)]
pub enum JSONError {
    UnexpectedCharacter(char, usize, usize),
    UnexpectedEndOfInput,
    ParseError(&'static str),
}

/// The ghost model of a [`JSONError`].
pub enum SpecErr {
    UnexpectedCharacter(char, int, int),
    UnexpectedEndOfInput,
    ParseError(Seq<char>),
}

impl JSONError {
    /// The mathematical error this value stands for.
    pub open spec fn model(self) -> SpecErr {
        match self {
            JSONError::UnexpectedCharacter(c, l, p) => SpecErr::UnexpectedCharacter(
                c,
                l as int,
                p as int,
            ),
            JSONError::UnexpectedEndOfInput => SpecErr::UnexpectedEndOfInput,
            JSONError::ParseError(m) => SpecErr::ParseError(m@),
        }
    }
}

/// The decimal digit `d` (below ten), as a character.
pub open spec fn digit_char(d: nat) -> char {
    if d == 0 {
        '0'
    } else if d == 1 {
        '1'
    } else if d == 2 {
        '2'
    } else if d == 3 {
        '3'
    } else if d == 4 {
        '4'
    } else if d == 5 {
        '5'
    } else if d == 6 {
        '6'
    } else if d == 7 {
        '7'
    } else if d == 8 {
        '8'
    } else {
        '9'
    }
}

/// The decimal writing of `n`, most significant digit first.
pub open spec fn dec_rep(n: nat) -> Seq<char>
    decreases n,
{
    if n < 10 {
        seq![digit_char(n)]
    } else {
        dec_rep(n / 10).push(digit_char(n % 10))
    }
}

/// The diagnostic text of an error: the offending character with its line
/// and position, a plain end-of-input notice, or the structural rule that
/// was broken.
pub open spec fn spec_message(e: SpecErr) -> Seq<char> {
    match e {
        SpecErr::UnexpectedCharacter(c, l, p) => "Unexpected character '"@ + seq![c]
            + "' at line "@ + dec_rep(l as nat) + " position "@ + dec_rep(p as nat),
        SpecErr::UnexpectedEndOfInput => "Unexpected end of input"@,
        SpecErr::ParseError(m) => "Parse error: "@ + m,
    }
}

/// Append the decimal writing of `n`.
fn push_decimal(out: &mut String, n: usize)
    ensures
        final(out)@ == old(out)@ + dec_rep(n as nat),
    decreases n,
{
    if n >= 10 {
        push_decimal(out, n / 10);
    }
    let d = n % 10;
    let c = if d == 0 {
        '0'
    } else if d == 1 {
        '1'
    } else if d == 2 {
        '2'
    } else if d == 3 {
        '3'
    } else if d == 4 {
        '4'
    } else if d == 5 {
        '5'
    } else if d == 6 {
        '6'
    } else if d == 7 {
        '7'
    } else if d == 8 {
        '8'
    } else {
        '9'
    };
    push_char(out, c);
    proof {
        if n < 10 {
            assert(old(out)@.push(c) =~= old(out)@ + dec_rep(n as nat));
        } else {
            assert((old(out)@ + dec_rep((n / 10) as nat)).push(c) =~= old(out)@ + dec_rep(
                n as nat,
            ));
        }
    }
}

impl JSONError {
    /// The diagnostic text of this error, exactly as `spec_message` says.
    pub fn message(&self) -> (r: String)
        ensures
            r@ == spec_message(self.model()),
    {
        match self {
            JSONError::UnexpectedCharacter(c, l, p) => {
                let mut out = String::from_str("Unexpected character '");
                push_char(&mut out, *c);
                out.append("' at line ");
                push_decimal(&mut out, *l);
                out.append(" position ");
                push_decimal(&mut out, *p);
                proof {
                    assert(out@ =~= spec_message(self.model()));
                }
                out
            },
            JSONError::UnexpectedEndOfInput => String::from_str("Unexpected end of input"),
            JSONError::ParseError(m) => {
                let mut out = String::from_str("Parse error: ");
                out.append(m);
                out
            },
        }
    }
}

} // verus!
