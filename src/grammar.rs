use vstd::prelude::*;

verus! {

/// The byte of the assignment operator `=`.
pub const ASSIGN_LEXEME: u8 = 0x3d;

/// The byte of `(`.
pub const LPAREN: u8 = 0x28;

/// The byte of `)`.
pub const RPAREN: u8 = 0x29;

/// The byte of `{`.
pub const LBRACE: u8 = 0x7b;

/// The byte of `}`.
pub const RBRACE: u8 = 0x7d;

/// The byte of `,`.
pub const COMMA: u8 = 0x2c;

/// The byte that opens and closes a string literal.
pub const QUOTE: u8 = 0x22;

/// True for the bytes that may start an identifier: ASCII letters and `_`.
pub open spec fn ident_start(b: u8) -> bool {
    (0x61 <= b <= 0x7a) || (0x41 <= b <= 0x5a) || b == 0x5f
}

/// True for the ASCII decimal digits.
pub open spec fn is_digit(b: u8) -> bool {
    0x30 <= b <= 0x39
}

/// True for the bytes that may continue an identifier: letters, digits and `_`.
pub open spec fn ident_continue(b: u8) -> bool {
    ident_start(b) || is_digit(b)
}

/// True for the bytes skipped between tokens: space, tab, newline, carriage return.
pub open spec fn is_space(b: u8) -> bool {
    b == 0x20 || b == 0x09 || b == 0x0a || b == 0x0d
}

/// `fn`, as bytes.
pub open spec fn kw_fn() -> Seq<u8> {
    seq![0x66u8, 0x6e]
}

/// `main`, as bytes.
pub open spec fn kw_main() -> Seq<u8> {
    seq![0x6du8, 0x61, 0x69, 0x6e]
}

/// `log`, as bytes.
pub open spec fn kw_log() -> Seq<u8> {
    seq![0x6cu8, 0x6f, 0x67]
}

/// `for`, as bytes.
pub open spec fn kw_for() -> Seq<u8> {
    seq![0x66u8, 0x6f, 0x72]
}

/// `to`, as bytes.
pub open spec fn kw_to() -> Seq<u8> {
    seq![0x74u8, 0x6f]
}

} // verus!
