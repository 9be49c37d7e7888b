//! The notation for queues: runs of shape letters, bags in square brackets,
//! and how many pieces are drawn from a bag.

use vstd::prelude::*;
use crate::combinatoric::{
    drawable, invert_shapes, unordered_bag, BagSpec, CombinatoricQueue,
};
use crate::queue::MAX_SLOTS;
use crate::shape::Shape;

verus! {

/// The error for a queue that cannot be read: a bracket without its
/// partner, a `^` outside brackets, or a number of draws that is missing,
/// zero, or more than the bag has slots.
#[derive(Debug, PartialEq, Eq)]
pub struct InvalidTokenError;

/// What one character of the notation stands for.
#[derive(Clone, Copy, Debug, PartialEq, Eq)]
pub enum Token {
    /// A shape letter.
    Piece(Shape),
    /// `^`: the bag holds the shapes that are not listed.
    Invert,
    /// `[`.
    Open,
    /// `]`.
    Close,
    /// `p`: a number of draws follows.
    Draws,
    /// `!`: all pieces of the bag are drawn.
    All,
    /// A digit from `0` to `9`, with its value.
    Digit(u8),
    /// Any other character that counts as a numeral.
    Numeral,
    /// Any other character.
    Other,
}

/// Whether `char::is_numeric` holds of a character.
pub uninterp spec fn char_is_numeric(c: char) -> bool;

/// Calls `char::is_numeric`, which says whether the character is in one of
/// the general categories for numbers.
#[verifier::external_body]
fn is_numeric(c: char) -> (r: bool)
    ensures
        r == char_is_numeric(c),
{
    c.is_numeric()
}

/// What a character other than `*` stands for.
pub open spec fn token_of(c: char) -> Token {
    match Shape::spec_from_name(c) {
        Some(shape) => Token::Piece(shape),
        None => if c == '^' {
            Token::Invert
        } else if c == '[' {
            Token::Open
        } else if c == ']' {
            Token::Close
        } else if c == 'p' {
            Token::Draws
        } else if c == '!' {
            Token::All
        } else if '0' <= c <= '9' {
            Token::Digit((c as u32 - 48) as u8)
        } else if char_is_numeric(c) {
            Token::Numeral
        } else {
            Token::Other
        },
    }
}

/// What `*` stands for: the bag of all seven shapes.
pub open spec fn star_tokens() -> Seq<Token> {
    seq![
        Token::Open,
        Token::Piece(Shape::I),
        Token::Piece(Shape::J),
        Token::Piece(Shape::L),
        Token::Piece(Shape::O),
        Token::Piece(Shape::S),
        Token::Piece(Shape::T),
        Token::Piece(Shape::Z),
        Token::Close,
    ]
}

/// What a text stands for, character by character.
pub open spec fn tokens_of(text: Seq<char>) -> Seq<Token>
    decreases text.len(),
{
    if text.len() == 0 {
        Seq::empty()
    } else if text.last() == '*' {
        tokens_of(text.drop_last()) + star_tokens()
    } else {
        tokens_of(text.drop_last()).push(token_of(text.last()))
    }
}

/// Where the reader stands: the bags read so far, whether a bracket is
/// open, the shapes collected for the bag or run at hand, whether that bag
/// is inverted; and, while a number of draws is read, its value so far,
/// whether a digit was seen, and whether only digits were seen.
pub struct ParseState {
    pub bags: Seq<BagSpec>,
    pub open: bool,
    pub current: Seq<Shape>,
    pub inverted: bool,
    pub counting: bool,
    pub value: nat,
    pub any: bool,
    pub clean: bool,
}

/// The state before the first token.
pub open spec fn start_state() -> ParseState {
    ParseState {
        bags: Seq::empty(),
        open: false,
        current: Seq::empty(),
        inverted: false,
        counting: false,
        value: 0,
        any: false,
        clean: true,
    }
}

/// The state after the bag at hand was closed with `count` draws; `None`
/// where such a bag cannot be drawn from.
pub open spec fn close_bag(st: ParseState, count: Option<u8>) -> Option<ParseState> {
    let bag = unordered_bag(st.current, count, st.inverted);
    if drawable(bag) {
        Some(
            ParseState {
                bags: st.bags.push(bag),
                open: false,
                current: Seq::empty(),
                inverted: false,
                counting: false,
                value: 0,
                any: false,
                clean: true,
            },
        )
    } else {
        None
    }
}

/// The state after the number of draws was read to its end; `None` where
/// it is no number from 1 to 255.
pub open spec fn close_counted(st: ParseState) -> Option<ParseState> {
    if st.any && st.clean && 0 < st.value <= 255 {
        close_bag(st, Some(st.value as u8))
    } else {
        None
    }
}

/// The bags that the tokens from `i` on lead to, read from state `st`;
/// `None` where the reader fails.
pub open spec fn parse_from(tokens: Seq<Token>, i: int, st: ParseState) -> Option<Seq<BagSpec>>
    decreases
            tokens.len() - i,
            (if st.counting {
                1nat
            } else {
                0nat
            }),
{
    if st.counting {
        if 0 <= i < tokens.len() && tokens[i] is Digit {
            parse_from(
                tokens,
                i + 1,
                ParseState { value: (st.value * 10 + tokens[i]->Digit_0) as nat, any: true, ..st },
            )
        } else if 0 <= i < tokens.len() && tokens[i] is Numeral {
            parse_from(tokens, i + 1, ParseState { any: true, clean: false, ..st })
        } else {
            match close_counted(st) {
                Some(next) => parse_from(tokens, i, next),
                None => None,
            }
        }
    } else if i < 0 || i >= tokens.len() {
        if st.open {
            None
        } else {
            Some(st.bags)
        }
    } else {
        match tokens[i] {
            Token::Piece(shape) => {
                let current = st.current.push(shape);
                if !st.open && !(i + 1 < tokens.len() && tokens[i + 1] is Piece) {
                    parse_from(
                        tokens,
                        i + 1,
                        ParseState {
                            bags: st.bags.push(BagSpec { shapes: current, count: 0, ordered: true }),
                            current: Seq::empty(),
                            ..st
                        },
                    )
                } else {
                    parse_from(tokens, i + 1, ParseState { current, ..st })
                }
            },
            Token::Invert => if st.open {
                parse_from(tokens, i + 1, ParseState { inverted: true, ..st })
            } else {
                None
            },
            Token::Open => if st.open {
                None
            } else {
                parse_from(tokens, i + 1, ParseState { open: true, ..st })
            },
            Token::Close => if !st.open {
                None
            } else if i + 1 < tokens.len() && tokens[i + 1] is Draws {
                parse_from(
                    tokens,
                    i + 2,
                    ParseState { open: false, counting: true, value: 0, any: false, clean: true, ..st },
                )
            } else if i + 1 < tokens.len() && tokens[i + 1] is All {
                match close_bag(st, None) {
                    Some(next) => parse_from(tokens, i + 1, next),
                    None => None,
                }
            } else {
                match close_bag(st, Some(1u8)) {
                    Some(next) => parse_from(tokens, i + 1, next),
                    None => None,
                }
            },
            _ => parse_from(tokens, i + 1, st),
        }
    }
}

/// The bags that a list of tokens stands for; `None` where it stands for no
/// queue.
pub open spec fn spec_parse(tokens: Seq<Token>) -> Option<Seq<BagSpec>> {
    parse_from(tokens, 0, start_state())
}

/// What a character other than `*` stands for.
pub fn classify(c: char) -> (r: Token)
    ensures
        r == token_of(c),
{
    match Shape::from_name(c) {
        Some(shape) => Token::Piece(shape),
        None => if c == '^' {
            Token::Invert
        } else if c == '[' {
            Token::Open
        } else if c == ']' {
            Token::Close
        } else if c == 'p' {
            Token::Draws
        } else if c == '!' {
            Token::All
        } else if '0' <= c && c <= '9' {
            Token::Digit((c as u32 - 48) as u8)
        } else if is_numeric(c) {
            Token::Numeral
        } else {
            Token::Other
        },
    }
}

/// What a text stands for, character by character; `*` stands for the bag
/// of all seven shapes.
pub fn tokenize(text: &str) -> (r: Vec<Token>)
    ensures
        r@ == tokens_of(text@),
{
    let mut tokens: Vec<Token> = Vec::new();
    let len = text.unicode_len();
    let mut i: usize = 0;
    assert(text@.take(0) =~= Seq::<char>::empty());
    while i < len
        invariant
            i <= len,
            len == text@.len(),
            tokens@ == tokens_of(text@.take(i as int)),
        decreases len - i,
    {
        let c = text.get_char(i);
        proof {
            assert(text@.take(i + 1).drop_last() =~= text@.take(i as int));
            assert(text@.take(i + 1).last() == c);
        }
        if c == '*' {
            let ghost before = tokens@;
            tokens.push(Token::Open);
            tokens.push(Token::Piece(Shape::I));
            tokens.push(Token::Piece(Shape::J));
            tokens.push(Token::Piece(Shape::L));
            tokens.push(Token::Piece(Shape::O));
            tokens.push(Token::Piece(Shape::S));
            tokens.push(Token::Piece(Shape::T));
            tokens.push(Token::Piece(Shape::Z));
            tokens.push(Token::Close);
            assert(tokens@ =~= before + star_tokens());
        } else {
            tokens.push(classify(c));
        }
        i = i + 1;
    }
    assert(text@.take(len as int) =~= text@);
    tokens
}

/// Reads a queue from its tokens. A run of shape letters outside brackets
/// is a run of pieces in that order. Brackets enclose a bag, from which one
/// piece is drawn, or all of them where `!` follows, or as many as the
/// number after `p` says. Everything else is passed over.
pub fn parse_tokens(tokens: &[Token]) -> (r: Result<CombinatoricQueue, InvalidTokenError>)
    ensures
        match r {
            Ok(queue) => queue.wf() && spec_parse(tokens@) == Some(queue@),
            Err(_) => spec_parse(tokens@) is None,
        },
{
    let mut queue = CombinatoricQueue::new();
    let mut open_bracket = false;
    let mut current_bag: Vec<Shape> = Vec::new();
    let mut inverted = false;
    let mut counting = false;
    let mut value: u32 = 0;
    let mut any = false;
    let mut clean = true;
    let ghost mut st = start_state();
    let mut i: usize = 0;
    loop
        invariant
            i <= tokens@.len(),
            queue.wf(),
            st.bags == queue@,
            st.open == open_bracket,
            st.current == current_bag@,
            st.inverted == inverted,
            st.counting == counting,
            counting ==> st.any == any && st.clean == clean && value == (if st.value > 255 {
                256
            } else {
                st.value
            }),
            counting ==> !open_bracket,
            parse_from(tokens@, i as int, st) == spec_parse(tokens@),
        decreases
                tokens@.len() - i,
                (if counting {
                    1nat
                } else {
                    0nat
                }),
    {
        if counting {
            if i < tokens.len() {
                match tokens[i] {
                    Token::Digit(d) => {
                        value = if value * 10 + (d as u32) > 255 {
                            256
                        } else {
                            value * 10 + (d as u32)
                        };
                        any = true;
                        proof {
                            st = ParseState { value: (st.value * 10 + d) as nat, any: true, ..st };
                        }
                        i = i + 1;
                        continue ;
                    },
                    Token::Numeral => {
                        any = true;
                        clean = false;
                        proof {
                            st = ParseState { any: true, clean: false, ..st };
                        }
                        i = i + 1;
                        continue ;
                    },
                    _ => {},
                }
            }
            if !(any && clean && 0 < value && value <= 255) {
                return Err(InvalidTokenError);
            }
            let count = value as u8;
            let shapes = if inverted {
                invert_shapes(&current_bag)
            } else {
                current_bag
            };
            assert(unordered_bag(st.current, Some(count), st.inverted) == unordered_bag(
                shapes@,
                Some(count),
                false,
            ));
            if !(count as usize <= shapes.len() && shapes.len() <= MAX_SLOTS) {
                return Err(InvalidTokenError);
            }
            queue.add_bag(shapes, Some(count), false);
            current_bag = Vec::new();
            inverted = false;
            counting = false;
            value = 0;
            any = false;
            clean = true;
            proof {
                st = close_counted(st)->0;
                assert(st.bags =~= queue@);
            }
            continue ;
        }
        if i >= tokens.len() {
            if open_bracket {
                return Err(InvalidTokenError);
            }
            return Ok(queue);
        }
        match tokens[i] {
            Token::Piece(shape) => {
                current_bag.push(shape);
                let run_ends = !open_bracket && !(i + 1 < tokens.len() && matches!(
                    tokens[i + 1],
                    Token::Piece(_)
                ));
                if run_ends {
                    let ghost run = current_bag@;
                    queue.add_shapes(current_bag);
                    current_bag = Vec::new();
                    proof {
                        st = ParseState {
                            bags: st.bags.push(BagSpec { shapes: run, count: 0, ordered: true }),
                            current: Seq::empty(),
                            ..st
                        };
                    }
                } else {
                    proof {
                        st = ParseState { current: current_bag@, ..st };
                    }
                }
            },
            Token::Invert => {
                if !open_bracket {
                    return Err(InvalidTokenError);
                }
                inverted = true;
                proof {
                    st = ParseState { inverted: true, ..st };
                }
            },
            Token::Open => {
                if open_bracket {
                    return Err(InvalidTokenError);
                }
                open_bracket = true;
                proof {
                    st = ParseState { open: true, ..st };
                }
            },
            Token::Close => {
                if !open_bracket {
                    return Err(InvalidTokenError);
                }
                open_bracket = false;
                if i + 1 < tokens.len() && matches!(tokens[i + 1], Token::Draws) {
                    counting = true;
                    value = 0;
                    any = false;
                    clean = true;
                    proof {
                        st = ParseState {
                            open: false,
                            counting: true,
                            value: 0,
                            any: false,
                            clean: true,
                            ..st
                        };
                    }
                    i = i + 2;
                    continue ;
                }
                let all = i + 1 < tokens.len() && matches!(tokens[i + 1], Token::All);
                let shapes = if inverted {
                    invert_shapes(&current_bag)
                } else {
                    current_bag
                };
                assert(unordered_bag(
                    st.current,
                    if all {
                        None
                    } else {
                        Some(1u8)
                    },
                    st.inverted,
                ).shapes == shapes@);
                if !(0 < shapes.len() && shapes.len() <= MAX_SLOTS) {
                    return Err(InvalidTokenError);
                }
                let count: u8 = if all {
                    shapes.len() as u8
                } else {
                    1
                };
                queue.add_bag(shapes, Some(count), false);
                current_bag = Vec::new();
                inverted = false;
                proof {
                    st = close_bag(
                        st,
                        if all {
                            None
                        } else {
                            Some(1u8)
                        },
                    )->0;
                    assert(st.bags =~= queue@);
                }
            },
            _ => {},
        }
        i = i + 1;
    }
}

impl CombinatoricQueue {
    /// Reads a queue from its notation.
    pub fn from_str(s: &str) -> (r: Result<CombinatoricQueue, InvalidTokenError>)
        ensures
            match r {
                Ok(queue) => queue.wf() && spec_parse(tokens_of(s@)) == Some(queue@),
                Err(_) => spec_parse(tokens_of(s@)) is None,
            },
    {
        let tokens = tokenize(s);
        parse_tokens(tokens.as_slice())
    }
}

} // verus!
