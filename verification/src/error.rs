//! Errors of the library.
use crate::text;
use vstd::prelude::*;
use vstd::string::*;

verus! {

/// Why a file cannot be decoded.
#[derive(Debug, PartialEq, Eq)]
pub enum DecodeError {
    /// The named input has no DSS header.
    NotDss(String),
    /// The named input has no DS2 header.
    NotDs2(String),
    /// The first byte of a file that no decoder takes.
    UnsupportedFormat(u8),
    /// The input ends inside the named part.
    Truncated(String),
    /// An encrypted DS2 file cannot be decrypted.
    EncryptedDs2(String),
}

/// A [`DecodeError`] with its text as characters.
pub enum Fault {
    NotDss(Seq<char>),
    NotDs2(Seq<char>),
    UnsupportedFormat(u8),
    Truncated(Seq<char>),
    EncryptedDs2(Seq<char>),
}

impl View for DecodeError {
    type V = Fault;

    open spec fn view(&self) -> Fault {
        match self {
            DecodeError::NotDss(name) => Fault::NotDss(name@),
            DecodeError::NotDs2(name) => Fault::NotDs2(name@),
            DecodeError::UnsupportedFormat(byte) => Fault::UnsupportedFormat(*byte),
            DecodeError::Truncated(part) => Fault::Truncated(part@),
            DecodeError::EncryptedDs2(text) => Fault::EncryptedDs2(text@),
        }
    }
}

/// The text of an error.
pub open spec fn message_of(fault: Fault) -> Seq<char> {
    match fault {
        Fault::NotDss(name) => "not a DSS file: "@ + name,
        Fault::NotDs2(name) => "not a DS2 file: "@ + name,
        Fault::UnsupportedFormat(byte) => "unsupported format: "@ + text::decimal_of(byte as nat),
        Fault::Truncated(part) => "truncated file: "@ + part,
        Fault::EncryptedDs2(text) => "encrypted DS2: "@ + text,
    }
}

impl DecodeError {
    /// The error as text.
    pub fn message(&self) -> (r: String)
        ensures
            r@ == message_of(self@),
    {
        match self {
            DecodeError::NotDss(name) => "not a DSS file: ".to_string().concat(name.as_str()),
            DecodeError::NotDs2(name) => "not a DS2 file: ".to_string().concat(name.as_str()),
            DecodeError::UnsupportedFormat(byte) => {
                let number: String = text::decimal(*byte as usize);
                "unsupported format: ".to_string().concat(number.as_str())
            },
            DecodeError::Truncated(part) => "truncated file: ".to_string().concat(part.as_str()),
            DecodeError::EncryptedDs2(text) => "encrypted DS2: ".to_string().concat(
                text.as_str(),
            ),
        }
    }
}

proof fn lemma_same_end(prefix: Seq<char>, a: Seq<char>, b: Seq<char>)
    requires
        prefix + a == prefix + b,
    ensures
        a == b,
{
    let n = prefix.len() as int;
    assert((prefix + a).skip(n) =~= a);
    assert((prefix + b).skip(n) =~= b);
}

/// A message tells one error from another: errors with the same message are equal.
pub proof fn law_messages_tell_errors_apart(a: Fault, b: Fault)
    requires
        message_of(a) == message_of(b),
    ensures
        a == b,
{
    reveal_strlit("not a DSS file: ");
    reveal_strlit("not a DS2 file: ");
    reveal_strlit("unsupported format: ");
    reveal_strlit("truncated file: ");
    reveal_strlit("encrypted DS2: ");
    let m = message_of(a);
    assert(m[0] == message_of(b)[0]);
    assert(m[8] == message_of(b)[8]);
    match (a, b) {
        (Fault::NotDss(x), Fault::NotDss(y)) => lemma_same_end("not a DSS file: "@, x, y),
        (Fault::NotDs2(x), Fault::NotDs2(y)) => lemma_same_end("not a DS2 file: "@, x, y),
        (Fault::Truncated(x), Fault::Truncated(y)) => lemma_same_end("truncated file: "@, x, y),
        (Fault::EncryptedDs2(x), Fault::EncryptedDs2(y)) => lemma_same_end(
            "encrypted DS2: "@,
            x,
            y,
        ),
        (Fault::UnsupportedFormat(x), Fault::UnsupportedFormat(y)) => {
            lemma_same_end(
                "unsupported format: "@,
                text::decimal_of(x as nat),
                text::decimal_of(y as nat),
            );
            text::law_decimals_stand_for_their_number(x as nat);
            text::law_decimals_stand_for_their_number(y as nat);
        },
        _ => {},
    }
}

/// A message ends in the detail of its error: the name, the part or the text that it holds,
/// or its byte in decimal.
pub proof fn law_messages_end_in_the_detail(detail: Seq<char>, byte: u8)
    ensures
        message_of(Fault::NotDss(detail)).skip(16) == detail,
        message_of(Fault::NotDs2(detail)).skip(16) == detail,
        message_of(Fault::Truncated(detail)).skip(16) == detail,
        message_of(Fault::EncryptedDs2(detail)).skip(15) == detail,
        text::number_in(message_of(Fault::UnsupportedFormat(byte)).skip(20), 10) == byte,
{
    reveal_strlit("not a DSS file: ");
    reveal_strlit("not a DS2 file: ");
    reveal_strlit("unsupported format: ");
    reveal_strlit("truncated file: ");
    reveal_strlit("encrypted DS2: ");
    let number = text::decimal_of(byte as nat);
    text::law_decimals_stand_for_their_number(byte as nat);
    assert(message_of(Fault::NotDss(detail)).skip(16) =~= detail);
    assert(message_of(Fault::NotDs2(detail)).skip(16) =~= detail);
    assert(message_of(Fault::Truncated(detail)).skip(16) =~= detail);
    assert(message_of(Fault::EncryptedDs2(detail)).skip(15) =~= detail);
    assert(message_of(Fault::UnsupportedFormat(byte)).skip(20) =~= number);
}

} // verus!
