//! The ways in which a payload can be invalid.

use vstd::prelude::*;
use vstd::string::*;

verus! {

/// The character of a decimal digit.
pub open spec fn digit_char(d: nat) -> char {
    if d == 0 {
        '0'
    } else if d == 1 {
        '1'
    } else if d == 2 {
        '2'
    } else if d == 3 {
        '3'
    } else if d == 4 {
        '4'
    } else if d == 5 {
        '5'
    } else if d == 6 {
        '6'
    } else if d == 7 {
        '7'
    } else if d == 8 {
        '8'
    } else {
        '9'
    }
}

/// The decimal numeral of `n`, without leading zeros.
pub open spec fn decimal(n: nat) -> Seq<char>
    decreases n,
{
    if n < 10 {
        seq![digit_char(n)]
    } else {
        decimal(n / 10).push(digit_char(n % 10))
    }
}

/// The one-character string of a decimal digit.
fn digit_str(d: usize) -> (s: &'static str)
    requires
        d < 10,
    ensures
        s@ == seq![digit_char(d as nat)],
{
    proof {
        reveal_strlit("0");
        reveal_strlit("1");
        reveal_strlit("2");
        reveal_strlit("3");
        reveal_strlit("4");
        reveal_strlit("5");
        reveal_strlit("6");
        reveal_strlit("7");
        reveal_strlit("8");
        reveal_strlit("9");
    }
    let s = if d == 0 {
        "0"
    } else if d == 1 {
        "1"
    } else if d == 2 {
        "2"
    } else if d == 3 {
        "3"
    } else if d == 4 {
        "4"
    } else if d == 5 {
        "5"
    } else if d == 6 {
        "6"
    } else if d == 7 {
        "7"
    } else if d == 8 {
        "8"
    } else {
        "9"
    };
    assert(s@ =~= seq![digit_char(d as nat)]);
    s
}

/// Appends the decimal numeral of `n`.
fn push_decimal(out: &mut String, n: usize)
    ensures
        final(out)@ == old(out)@ + decimal(n as nat),
    decreases n,
{
    if n >= 10 {
        push_decimal(out, n / 10);
    }
    out.append(digit_str(n % 10));
    assert(out@ =~= old(out)@ + decimal(n as nat));
}

/// A structural fault in a payload.
#[derive(Debug, Clone, Copy, PartialEq, Eq, Structural)]
pub enum Malformed {
    /// Fewer than four bytes are present, so there is no token count.
    MissingLength,
    /// The declared token count, times four, does not fit the platform's
    /// size type.
    LengthOverflow,
    /// The token bytes present are not what the declared count asks for.
    SizeMismatch { expected: usize, actual: usize },
    /// The body ends in the middle of a value.
    BodyTruncated,
    /// A value of the body runs over more than 32 bits.
    BodyOverflow,
    /// The value at `position` of the body leads to a rank that the header
    /// has no token for.
    RankOutOfRange { position: usize },
    /// The secondary compression stage did not accept the payload.
    Compression,
}

impl Malformed {
    /// The fault in words, with the counts that it holds.
    pub open spec fn message(self) -> Seq<char> {
        match self {
            Malformed::MissingLength => "header too short: missing length prefix"@,
            Malformed::LengthOverflow => "header length overflow"@,
            Malformed::SizeMismatch { expected, actual } => "header size mismatch: expected "@
                + decimal(expected as nat) + " bytes for tokens, got "@ + decimal(actual as nat),
            Malformed::BodyTruncated => "malformed body: incomplete varint at end of stream"@,
            Malformed::BodyOverflow => "malformed body: varint overflow while decoding u32"@,
            Malformed::RankOutOfRange { position } => "rank out of range at body position "@
                + decimal(position as nat),
            Malformed::Compression => "secondary compression stage rejected the payload"@,
        }
    }

    /// The fault in words.
    pub fn to_string(&self) -> (text: String)
        ensures
            text@ == self.message(),
    {
        match *self {
            Malformed::MissingLength => String::from_str("header too short: missing length prefix"),
            Malformed::LengthOverflow => String::from_str("header length overflow"),
            Malformed::SizeMismatch { expected, actual } => {
                let mut text = String::from_str("header size mismatch: expected ");
                push_decimal(&mut text, expected);
                text.append(" bytes for tokens, got ");
                push_decimal(&mut text, actual);
                text
            },
            Malformed::BodyTruncated => String::from_str(
                "malformed body: incomplete varint at end of stream",
            ),
            Malformed::BodyOverflow => String::from_str(
                "malformed body: varint overflow while decoding u32",
            ),
            Malformed::RankOutOfRange { position } => {
                let mut text = String::from_str("rank out of range at body position ");
                push_decimal(&mut text, position);
                text
            },
            Malformed::Compression => String::from_str(
                "secondary compression stage rejected the payload",
            ),
        }
    }
}

/// Why decoding failed. Every variant means that the input itself is
/// invalid; none is worth a retry.
#[derive(Debug, Clone, Copy, PartialEq, Eq, Structural)]
pub enum CodecError {
    /// A byte stream ended while a value was still being continued.
    Truncated,
    /// A value would need more than 32 bits.
    Overflow,
    /// The payload's structure is inconsistent.
    Malformed(Malformed),
}

impl CodecError {
    /// The error in words.
    pub open spec fn message(self) -> Seq<char> {
        match self {
            CodecError::Truncated => "incomplete varint at end of stream"@,
            CodecError::Overflow => "varint overflow while decoding u32"@,
            CodecError::Malformed(fault) => fault.message(),
        }
    }

    /// The error in words.
    pub fn to_string(&self) -> (text: String)
        ensures
            text@ == self.message(),
    {
        match *self {
            CodecError::Truncated => String::from_str("incomplete varint at end of stream"),
            CodecError::Overflow => String::from_str("varint overflow while decoding u32"),
            CodecError::Malformed(fault) => fault.to_string(),
        }
    }
}

} // verus!
