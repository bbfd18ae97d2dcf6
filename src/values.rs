//! The protocol's data model and its rendering on the wire.
use vstd::prelude::*;
use vstd::utf8::*;
use vstd::std_specs::iter::IteratorSpec;
use crate::decimal::{dec_digits, push_decimal, lemma_dec_digits};

verus! {

/// One unit of protocol data.
#[derive(Debug)]
pub enum Value {
    SimpleString(String),
    BulkString(String),
    Array(Vec<Value>),
    Null,
}

/// The mathematical content of a `Value`: its texts as character sequences.
pub enum ValueModel {
    Simple(Seq<char>),
    Bulk(Seq<char>),
    Array(Seq<ValueModel>),
    Null,
}

impl View for Value {
    type V = ValueModel;

    open spec fn view(&self) -> ValueModel
        decreases self,
    {
        match self {
            Value::SimpleString(s) => ValueModel::Simple(s@),
            Value::BulkString(s) => ValueModel::Bulk(s@),
            Value::Array(items) => ValueModel::Array(
                Seq::new(items.len() as nat, |i: int| if 0 <= i < items.len() { items@[i]@ } else { ValueModel::Null }),
            ),
            Value::Null => ValueModel::Null,
        }
    }
}

/// The contents of a sequence of values.
pub open spec fn values_model(vs: Seq<Value>) -> Seq<ValueModel> {
    vs.map_values(|v: Value| v@)
}

/// The two bytes that end a line on the wire.
pub open spec fn crlf() -> Seq<u8> {
    seq![13u8, 10u8]
}

/// The wire rendering of a value.
pub open spec fn wire_bytes(v: ValueModel) -> Seq<u8>
    decreases v,
{
    match v {
        ValueModel::Simple(s) => seq![43u8] + encode_utf8(s) + crlf(),
        ValueModel::Bulk(s) => seq![36u8] + dec_digits(s.len()) + crlf() + encode_utf8(s) + crlf(),
        ValueModel::Array(items) => seq![42u8] + dec_digits(items.len()) + crlf() + wire_bytes_seq(items),
        ValueModel::Null => seq![36u8, 45u8, 49u8, 13u8, 10u8],
    }
}

/// The wire renderings of `items`, one after the other.
pub open spec fn wire_bytes_seq(items: Seq<ValueModel>) -> Seq<u8>
    decreases items,
{
    if items.len() == 0 {
        Seq::empty()
    } else {
        wire_bytes(items[0]) + wire_bytes_seq(items.subrange(1, items.len() as int))
    }
}

/// Rendering one more value appends its rendering.
pub proof fn lemma_wire_bytes_seq_push(items: Seq<ValueModel>, v: ValueModel)
    ensures
        wire_bytes_seq(items.push(v)) == wire_bytes_seq(items) + wire_bytes(v),
    decreases items.len(),
{
    if items.len() == 0 {
        assert(items.push(v).subrange(1, 1) =~= Seq::<ValueModel>::empty());
        assert(wire_bytes_seq(Seq::<ValueModel>::empty()) =~= Seq::<u8>::empty());
        assert(items.push(v)[0] == v);
        assert(wire_bytes_seq(items.push(v)) =~= wire_bytes(v));
    } else {
        let rest = items.subrange(1, items.len() as int);
        lemma_wire_bytes_seq_push(rest, v);
        assert(items.push(v).subrange(1, items.len() + 1int) =~= rest.push(v));
        assert(wire_bytes_seq(items.push(v)) =~= wire_bytes_seq(items) + wire_bytes(v));
    }
}

/// A text has at least as many bytes as characters.
pub proof fn lemma_encode_utf8_len(c: Seq<char>)
    ensures
        encode_utf8(c).len() >= c.len(),
    decreases c.len(),
{
    if c.len() > 0 {
        lemma_encode_utf8_len(c.drop_first());
    }
}

/// Bytes below 128 are valid UTF-8.
pub proof fn lemma_ascii_valid(b: Seq<u8>)
    requires
        forall|i: int| 0 <= i < b.len() ==> b[i] <= 0x7f,
    ensures
        valid_utf8(b),
    decreases b.len(),
{
    if b.len() > 0 {
        let x = b[0];
        assert((x & 0x7F) <= 0x7F) by (bit_vector);
        assert(pop_first_scalar(b) =~= b.subrange(1, b.len() as int));
        lemma_ascii_valid(b.subrange(1, b.len() as int));
    }
}

/// A decimal rendering is valid UTF-8.
proof fn lemma_digits_valid(n: nat)
    ensures
        valid_utf8(dec_digits(n)),
{
    lemma_dec_digits(n);
    lemma_ascii_valid(dec_digits(n));
}

/// The rendering of every value is valid UTF-8.
pub proof fn lemma_wire_bytes_valid(v: ValueModel)
    ensures
        valid_utf8(wire_bytes(v)),
    decreases v,
{
    broadcast use valid_utf8_concat, encode_utf8_valid_utf8;

    lemma_ascii_valid(seq![43u8]);
    lemma_ascii_valid(seq![36u8]);
    lemma_ascii_valid(seq![42u8]);
    lemma_ascii_valid(crlf());
    match v {
        ValueModel::Simple(s) => {
            encode_utf8_valid_utf8(s);
            valid_utf8_concat(seq![43u8], encode_utf8(s));
            valid_utf8_concat(seq![43u8] + encode_utf8(s), crlf());
        },
        ValueModel::Bulk(s) => {
            lemma_digits_valid(s.len());
            encode_utf8_valid_utf8(s);
            let a = seq![36u8] + dec_digits(s.len());
            valid_utf8_concat(seq![36u8], dec_digits(s.len()));
            valid_utf8_concat(a, crlf());
            valid_utf8_concat(a + crlf(), encode_utf8(s));
            valid_utf8_concat(a + crlf() + encode_utf8(s), crlf());
        },
        ValueModel::Array(items) => {
            lemma_digits_valid(items.len());
            lemma_wire_bytes_seq_valid(items);
            let a = seq![42u8] + dec_digits(items.len());
            valid_utf8_concat(seq![42u8], dec_digits(items.len()));
            valid_utf8_concat(a, crlf());
            valid_utf8_concat(a + crlf(), wire_bytes_seq(items));
        },
        ValueModel::Null => {
            lemma_ascii_valid(seq![36u8, 45u8, 49u8, 13u8, 10u8]);
        },
    }
}

/// The renderings of values one after the other are valid UTF-8.
pub proof fn lemma_wire_bytes_seq_valid(items: Seq<ValueModel>)
    ensures
        valid_utf8(wire_bytes_seq(items)),
    decreases items,
{
    broadcast use valid_utf8_concat;

    if items.len() > 0 {
        lemma_wire_bytes_valid(items[0]);
        lemma_wire_bytes_seq_valid(items.subrange(1, items.len() as int));
    } else {
        lemma_ascii_valid(Seq::<u8>::empty());
    }
}

/// The number of characters of `s`.
pub fn char_count(s: &str) -> (n: usize)
    ensures
        n == s@.len(),
{
    let nb = s.as_bytes().len();
    proof {
        lemma_encode_utf8_len(s@);
    }
    broadcast use vstd::string::axiom_spec_iter, vstd::string::next_postcondition;

    let mut it = s.chars();
    let mut n: usize = 0;
    loop
        invariant
            n + it.remaining().len() == s@.len(),
            it.decrease() is Some,
            s@.len() <= nb,
        decreases it.decrease()->0,
    {
        match it.next() {
            Some(_) => {
                n = n + 1;
            },
            None => {
                return n;
            },
        }
    }
}

impl Value {
    /// Appends the wire rendering of this value to `out`.
    pub fn encode_into(&self, out: &mut Vec<u8>)
        ensures
            final(out)@ == old(out)@ + wire_bytes(self@),
        decreases self@,
    {
        match self {
            Value::SimpleString(s) => {
                out.push(43);
                push_bytes(out, s.as_str().as_bytes());
                out.push(13);
                out.push(10);
                assert(final(out)@ =~= old(out)@ + wire_bytes(self@));
            },
            Value::BulkString(s) => {
                out.push(36);
                let n = char_count(s.as_str());
                push_decimal(out, n as u128);
                out.push(13);
                out.push(10);
                push_bytes(out, s.as_str().as_bytes());
                out.push(13);
                out.push(10);
                assert(final(out)@ =~= old(out)@ + wire_bytes(self@));
            },
            Value::Array(items) => {
                out.push(42);
                push_decimal(out, items.len() as u128);
                out.push(13);
                out.push(10);
                let ghost head = out@;
                let ghost ms = self@->Array_0;
                assert(ms.take(0) =~= Seq::<ValueModel>::empty());
                assert(out@ =~= head + wire_bytes_seq(ms.take(0)));
                let mut i: usize = 0;
                while i < items.len()
                    invariant
                        0 <= i <= items.len(),
                        *self is Array,
                        ms == self@->Array_0,
                        ms.len() == items.len(),
                        forall|j: int| 0 <= j < items.len() ==> ms[j] == (#[trigger] items@[j])@,
                        out@ == head + wire_bytes_seq(ms.take(i as int)),
                    decreases items.len() - i,
                {
                    proof {
                        assert(*self is Array);
                        assert(self@ is Array);
                        assert(decreases_to!(self@ => self@->Array_0));
                        assert(decreases_to!(ms => ms[i as int]));
                    }
                    items[i].encode_into(out);
                    proof {
                        lemma_wire_bytes_seq_push(ms.take(i as int), ms[i as int]);
                        assert(ms.take(i as int).push(ms[i as int]) =~= ms.take(i + 1));
                    }
                    i = i + 1;
                    assert(out@ =~= head + wire_bytes_seq(ms.take(i as int)));
                }
                assert(ms.take(i as int) =~= ms);
                assert(final(out)@ =~= old(out)@ + wire_bytes(self@));
            },
            Value::Null => {
                out.push(36);
                out.push(45);
                out.push(49);
                out.push(13);
                out.push(10);
            },
        }
    }

    /// The wire rendering of this value, as text.
    pub fn serialize(self) -> (r: String)
        ensures
            encode_utf8(r@) == wire_bytes(self@),
    {
        let bytes = self.encode();
        proof {
            lemma_wire_bytes_valid(self@);
        }
        match crate::resp::utf8_text(bytes) {
            Some(s) => {
                proof {
                    decode_utf8_encode_utf8(wire_bytes(self@));
                }
                s
            },
            None => String::new(),
        }
    }

    /// The wire rendering of this value.
    pub fn encode(&self) -> (r: Vec<u8>)
        ensures
            r@ == wire_bytes(self@),
    {
        let mut out: Vec<u8> = Vec::new();
        self.encode_into(&mut out);
        out
    }
}

/// Appends the bytes of `b` to `out`.
pub fn push_bytes(out: &mut Vec<u8>, b: &[u8])
    ensures
        final(out)@ == old(out)@ + b@,
{
    let mut i: usize = 0;
    while i < b.len()
        invariant
            0 <= i <= b@.len(),
            out@ == old(out)@ + b@.take(i as int),
        decreases b@.len() - i,
    {
        out.push(b[i]);
        i = i + 1;
        assert(out@ =~= old(out)@ + b@.take(i as int));
    }
    assert(b@.take(i as int) =~= b@);
}

} // verus!
