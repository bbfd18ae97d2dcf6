//! The two field encodings of the snapshot format: a number on a line of its own,
//! and a length-prefixed string.
use vstd::prelude::*;
use vstd::utf8::*;
use crate::decimal::{dec_digits, push_decimal, lemma_dec_digits};
use crate::values::{push_bytes, lemma_ascii_valid};
use crate::snapshot::{text_at, read_text, lemma_text_at, lemma_digit_field};
use crate::resp::utf8_text;

verus! {

/// The decimal rendering of an integer, with a leading `-` when it is negative.
pub open spec fn signed_digits(n: int) -> Seq<u8> {
    if n < 0 {
        seq![45u8] + dec_digits((-n) as nat)
    } else {
        dec_digits(n as nat)
    }
}

/// A number on a line of its own.
pub open spec fn size_line(n: int) -> Seq<u8> {
    signed_digits(n) + seq![10u8]
}

/// A length-prefixed field: the decimal byte length, a carriage return, the bytes,
/// and a line feed.
pub open spec fn prefixed(b: Seq<u8>) -> Seq<u8> {
    dec_digits(b.len()) + seq![13u8] + b + seq![10u8]
}

/// Why a field could not be read back.
#[derive(Debug, PartialEq, Eq, Structural)]
pub enum RdbError {
    /// The text is not one whole length-prefixed field.
    InvalidField,
}

/// The content of the whole field at the start of `b`, if it takes all of `b`.
pub open spec fn whole_field(b: Seq<u8>) -> Option<Seq<char>> {
    match text_at(b, 0) {
        Some((c, p)) => if p == b.len() {
            Some(c)
        } else {
            None
        },
        None => None,
    }
}

/// The content of a text that is exactly one length-prefixed field, given with its
/// final line feed or without it (as a snapshot line split at line feeds gives it).
pub open spec fn field_content(t: Seq<char>) -> Option<Seq<char>> {
    let b = encode_utf8(t);
    if whole_field(b) is Some {
        whole_field(b)
    } else {
        whole_field(b.push(10u8))
    }
}

/// A value with a byte rendering in the snapshot format.
pub trait RdbEncoding {
    /// The bytes that render this value.
    spec fn rdb_bytes(&self) -> Seq<u8>;

    /// The text that this value stands for, if it can be read.
    spec fn rdb_text(&self) -> Option<Seq<char>>;

    /// Renders this value.
    fn serialize(&self) -> (r: Vec<u8>)
        ensures
            r@ == self.rdb_bytes(),
    ;

    /// Reads this value back as text.
    fn deserialize(&self) -> (r: Result<String, RdbError>)
        ensures
            match self.rdb_text() {
                Some(t) => r matches Ok(s) && s@ == t,
                None => r == Err::<String, RdbError>(RdbError::InvalidField),
            },
    ;
}

/// A number field.
pub struct RdbSize(i128);

/// A string field.
pub struct RdbString(String);

impl RdbSize {
    pub fn new(v: i128) -> (r: Self)
        ensures
            r.value() == v,
    {
        RdbSize(v)
    }

    /// The number held.
    pub closed spec fn value(&self) -> i128 {
        self.0
    }
}

impl RdbString {
    pub fn new(v: String) -> (r: Self)
        ensures
            r.text() == v@,
    {
        RdbString(v)
    }

    /// The text held.
    pub closed spec fn text(&self) -> Seq<char> {
        self.0@
    }
}

impl RdbEncoding for RdbSize {
    open spec fn rdb_bytes(&self) -> Seq<u8> {
        size_line(self.value() as int)
    }

    open spec fn rdb_text(&self) -> Option<Seq<char>> {
        Some(decode_utf8(signed_digits(self.value() as int)))
    }

    fn deserialize(&self) -> (r: Result<String, RdbError>) {
        let mut out: Vec<u8> = Vec::new();
        let v = self.0;
        if v < 0 {
            out.push(45);
            let m: u128 = ((-(v + 1)) as u128) + 1;
            push_decimal(&mut out, m);
            proof {
                lemma_dec_digits(m as nat);
            }
        } else {
            push_decimal(&mut out, v as u128);
            proof {
                lemma_dec_digits(v as nat);
            }
        }
        assert(out@ =~= signed_digits(v as int));
        proof {
            assert forall|i: int| 0 <= i < out@.len() implies out@[i] <= 0x7f by {
                if v < 0 && i > 0 {
                    assert(out@[i] == dec_digits((-(v as int)) as nat)[i - 1]);
                }
            }
            lemma_ascii_valid(out@);
        }
        match utf8_text(out) {
            Some(s) => Ok(s),
            None => Err(RdbError::InvalidField),
        }
    }

    fn serialize(&self) -> (r: Vec<u8>) {
        let mut out: Vec<u8> = Vec::new();
        let v = self.0;
        if v < 0 {
            out.push(45);
            let m: u128 = ((-(v + 1)) as u128) + 1;
            push_decimal(&mut out, m);
        } else {
            push_decimal(&mut out, v as u128);
        }
        out.push(10);
        assert(out@ =~= size_line(v as int));
        out
    }
}

impl RdbEncoding for RdbString {
    open spec fn rdb_bytes(&self) -> Seq<u8> {
        prefixed(encode_utf8(self.text()))
    }

    open spec fn rdb_text(&self) -> Option<Seq<char>> {
        field_content(self.text())
    }

    fn deserialize(&self) -> (r: Result<String, RdbError>) {
        let b = self.0.as_str().as_bytes();
        if let Some(t) = read_whole_field(b) {
            return Ok(t);
        }
        let mut line: Vec<u8> = Vec::new();
        push_bytes(&mut line, b);
        line.push(10);
        match read_whole_field(line.as_slice()) {
            Some(t) => Ok(t),
            None => Err(RdbError::InvalidField),
        }
    }

    fn serialize(&self) -> (r: Vec<u8>) {
        let b = self.0.as_str().as_bytes();
        let mut out: Vec<u8> = Vec::new();
        push_decimal(&mut out, b.len() as u128);
        out.push(13);
        push_bytes(&mut out, b);
        out.push(10);
        assert(out@ =~= prefixed(encode_utf8(self.text())));
        out
    }
}

/// The content of the field that takes all of `b`.
fn read_whole_field(b: &[u8]) -> (r: Option<String>)
    ensures
        match whole_field(b@) {
            Some(c) => r matches Some(s) && s@ == c,
            None => r is None,
        },
{
    match read_text(b, 0) {
        Some((t, p)) => if p == b.len() {
            Some(t)
        } else {
            None
        },
        None => None,
    }
}

/// Reading back the text of a rendered string field gives the string.
pub proof fn string_field_round_trip(x: RdbString, y: RdbString)
    requires
        encode_utf8(y.text()) == x.rdb_bytes(),
    ensures
        y.rdb_text() == Some(x.text()),
{
    let s = x.rdb_bytes();
    assert(s.subrange(0, s.len() as int) =~= s);
    lemma_text_at(s, 0, x.text());
}

/// A rendered string field without its final line feed (a snapshot line) also
/// reads back as the string.
pub proof fn string_line_round_trip(x: RdbString, y: RdbString)
    requires
        encode_utf8(y.text()) == x.rdb_bytes().drop_last(),
    ensures
        y.rdb_text() == Some(x.text()),
{
    let s = x.rdb_bytes();
    let d = s.drop_last();
    let b = encode_utf8(x.text());
    let digits = dec_digits(b.len());
    assert(s.subrange(0, s.len() as int) =~= s);
    lemma_text_at(s, 0, x.text());
    assert(d.push(10u8) =~= s);
    lemma_dec_digits(b.len());
    assert(d.subrange(0, digits.len() as int) =~= digits);
    assert(d[digits.len() as int] == 13u8);
    lemma_digit_field(d, 0, b.len(), 13);
    assert(whole_field(d) is None);
}

} // verus!
