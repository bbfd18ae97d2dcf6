//! Decoding of wire frames into values.
use vstd::prelude::*;
use vstd::utf8::*;
use vstd::slice::{slice_subrange, slice_to_vec};
use crate::decimal::{all_digits, digits_value, parse_decimal, dec_digits, lemma_dec_digits};
use crate::values::{Value, ValueModel, crlf, wire_bytes, wire_bytes_seq};

verus! {

/// True when `s` holds a CRLF starting at index `i`.
pub open spec fn crlf_at(s: Seq<u8>, i: int) -> bool {
    0 <= i && i + 1 < s.len() && s[i] == 13 && s[i + 1] == 10
}

/// The index of the first CRLF in `s` that starts at or after `i`.
pub open spec fn find_crlf(s: Seq<u8>, i: int) -> Option<int>
    decreases s.len() - i,
{
    if i < 0 || i + 1 >= s.len() {
        None
    } else if crlf_at(s, i) {
        Some(i)
    } else {
        find_crlf(s, i + 1)
    }
}

/// The number a header line gives: `-1`, or a nonempty digit string.
pub open spec fn header_number(line: Seq<u8>) -> Option<int> {
    if line =~= seq![45u8, 49u8] {
        Some(-1)
    } else if line.len() > 0 && all_digits(line) {
        Some(digits_value(line) as int)
    } else {
        None
    }
}

/// The value at the start of `s` and the number of bytes it takes, if `s` starts
/// with a complete and well-formed frame.
pub open spec fn decode_spec(s: Seq<u8>) -> Option<(ValueModel, int)>
    decreases s.len(), 0int, 0int,
{
    if s.len() == 0 {
        None
    } else {
        match find_crlf(s, 1) {
            None => None,
            Some(e) => if e < 1 || e + 2 > s.len() {
                None
            } else {
                let line = s.subrange(1, e);
                if s[0] == 43 {
                    if valid_utf8(line) {
                        Some((ValueModel::Simple(decode_utf8(line)), e + 2))
                    } else {
                        None
                    }
                } else if s[0] == 36 {
                    match header_number(line) {
                        None => None,
                        Some(n) => if n == -1 {
                            Some((ValueModel::Null, e + 2))
                        } else if e + 4 + n <= s.len() && crlf_at(s, e + 2 + n) && valid_utf8(
                            s.subrange(e + 2, e + 2 + n),
                        ) {
                            Some((ValueModel::Bulk(decode_utf8(s.subrange(e + 2, e + 2 + n))), e + 4 + n))
                        } else {
                            None
                        },
                    }
                } else if s[0] == 42 {
                    match header_number(line) {
                        None => None,
                        Some(n) => if 0 <= n <= s.len() - (e + 2) {
                            match decode_items_spec(s.subrange(e + 2, s.len() as int), n) {
                                Some((items, m)) => Some((ValueModel::Array(items), e + 2 + m)),
                                None => None,
                            }
                        } else {
                            None
                        },
                    }
                } else {
                    None
                }
            },
        }
    }
}

/// The `n` values that follow one another at the start of `s`, and the number of
/// bytes they take.
pub open spec fn decode_items_spec(s: Seq<u8>, n: int) -> Option<(Seq<ValueModel>, int)>
    decreases s.len(), 1int, n,
{
    if n <= 0 {
        Some((Seq::empty(), 0))
    } else {
        match decode_spec(s) {
            None => None,
            Some((v, k)) => if 0 < k <= s.len() {
                match decode_items_spec(s.subrange(k, s.len() as int), n - 1) {
                    Some((rest, m)) => Some((seq![v] + rest, k + m)),
                    None => None,
                }
            } else {
                None
            },
        }
    }
}

/// Relies on `String::from_utf8`: it succeeds exactly on valid UTF-8, and then the
/// string holds the characters that the bytes encode.
#[verifier::external_body]
pub(crate) fn utf8_text(bytes: Vec<u8>) -> (r: Option<String>)
    ensures
        r is Some <==> valid_utf8(bytes@),
        r matches Some(s) ==> s@ == decode_utf8(bytes@),
{
    String::from_utf8(bytes).ok()
}

/// The text of `buf[start..end]`, if those bytes are valid UTF-8.
pub fn text_of(buf: &[u8], start: usize, end: usize) -> (r: Option<String>)
    requires
        start <= end <= buf@.len(),
    ensures
        r is Some <==> valid_utf8(buf@.subrange(start as int, end as int)),
        r matches Some(s) ==> s@ == decode_utf8(buf@.subrange(start as int, end as int)),
{
    let part = slice_to_vec(slice_subrange(buf, start, end));
    utf8_text(part)
}

/// The index of the first CRLF in `buf` at or after `start`.
pub fn read_until_crlf(buf: &[u8], start: usize) -> (r: Option<usize>)
    ensures
        match r {
            Some(i) => find_crlf(buf@, start as int) == Some(i as int),
            None => find_crlf(buf@, start as int) is None,
        },
        r matches Some(i) ==> start <= i && i + 1 < buf@.len(),
{
    if buf.len() < 2 {
        return None;
    }
    let mut i: usize = start;
    while i < buf.len() - 1
        invariant
            start <= i,
            find_crlf(buf@, start as int) == find_crlf(buf@, i as int),
            buf@.len() >= 2,
        decreases buf@.len() - i,
    {
        if buf[i] == 13 && buf[i + 1] == 10 {
            return Some(i);
        }
        i = i + 1;
    }
    None
}

/// Decodes the frame at the start of `buf`: the value and the number of bytes it
/// takes, or `None` when no complete well-formed frame starts there.
pub fn parse_resp(buf: &[u8]) -> (r: Option<(Value, usize)>)
    ensures
        match r {
            Some((v, n)) => decode_spec(buf@) == Some((v@, n as int)),
            None => decode_spec(buf@) is None,
        },
{
    assert(buf@.subrange(0, buf@.len() as int) =~= buf@);
    parse_at(buf, 0)
}

/// What `parse_at` promises of the frame at `pos`.
pub open spec fn parsed_at(buf: Seq<u8>, pos: int, r: Option<(Value, usize)>) -> bool {
    match r {
        Some((v, n)) => decode_spec(buf.subrange(pos, buf.len() as int)) == Some((v@, n as int)),
        None => decode_spec(buf.subrange(pos, buf.len() as int)) is None,
    }
}

/// Decodes the frame that starts at `pos` in `buf`.
pub fn parse_at(buf: &[u8], pos: usize) -> (r: Option<(Value, usize)>)
    requires
        pos <= buf@.len(),
    ensures
        parsed_at(buf@, pos as int, r),
    decreases buf@.len() - pos, 1int,
{
    let ghost s = buf@.subrange(pos as int, buf@.len() as int);
    let len = buf.len();
    if pos >= len {
        return None;
    }
    let e = match read_until_crlf(buf, pos + 1) {
        Some(e) => e,
        None => {
            proof { lemma_find_crlf_shift(buf@, pos as int, 1); }
            return None;
        },
    };
    proof { lemma_find_crlf_shift(buf@, pos as int, 1); }
    assert(s.subrange(1, e - pos) =~= buf@.subrange(pos + 1, e as int));
    let tag = buf[pos];
    if tag == 43 {
        parse_simple_string(buf, pos, e)
    } else if tag == 36 {
        parse_bulk_string(buf, pos, e)
    } else if tag == 42 {
        parse_array(buf, pos, e)
    } else {
        None
    }
}

/// Finding a CRLF in a suffix of `s` is finding it in `s`, shifted.
pub proof fn lemma_find_crlf_shift(s: Seq<u8>, pos: int, i: int)
    requires
        0 <= pos <= s.len(),
        0 <= i,
    ensures
        find_crlf(s.subrange(pos, s.len() as int), i) == (match find_crlf(s, pos + i) {
            Some(j) => Some(j - pos),
            None => None::<int>,
        }),
    decreases s.len() - pos - i,
{
    let t = s.subrange(pos, s.len() as int);
    if i + 1 < t.len() {
        assert(crlf_at(t, i) == crlf_at(s, pos + i));
        lemma_find_crlf_shift(s, pos, i + 1);
    }
}

/// Reads the header number of the line `buf[pos + 1..e]`, with counts bounded by
/// the length of `buf`.
fn read_header(buf: &[u8], pos: usize, e: usize) -> (r: Option<i128>)
    requires
        pos < e <= buf@.len(),
    ensures
        match r {
            Some(n) => header_number(buf@.subrange(pos + 1, e as int)) == Some(n as int)
                && -1 <= n <= buf@.len(),
            None => match header_number(buf@.subrange(pos + 1, e as int)) {
                Some(n) => n > buf@.len(),
                None => true,
            },
        },
{
    if !header_is_valid(buf, pos, e) {
        return None;
    }
    if is_null_length(buf, pos, e) {
        return Some(-1);
    }
    let limit = buf.len() as u64;
    match parse_decimal(buf, pos + 1, e, limit) {
        Some(n) => Some(n as i128),
        None => None,
    }
}

/// True when the line `buf[pos + 1..e]` is `-1`.
fn is_null_length(buf: &[u8], pos: usize, e: usize) -> (r: bool)
    requires
        pos < e <= buf@.len(),
    ensures
        r == (buf@.subrange(pos + 1, e as int) =~= seq![45u8, 49u8]),
{
    let ghost line = buf@.subrange(pos + 1, e as int);
    let r = e - pos == 3 && buf[pos + 1] == 45 && buf[pos + 2] == 49;
    proof {
        if line =~= seq![45u8, 49u8] {
            assert(line[0] == buf@[pos + 1] && line[1] == buf@[pos + 2]);
        }
    }
    r
}

/// Decodes a simple string whose line ends at `e`.
pub fn parse_simple_string(buf: &[u8], pos: usize, e: usize) -> (r: Option<(Value, usize)>)
    requires
        pos < e,
        e + 1 < buf@.len(),
        buf@[pos as int] == 43,
        find_crlf(buf@.subrange(pos as int, buf@.len() as int), 1) == Some(e - pos),
    ensures
        parsed_at(buf@, pos as int, r),
{
    let ghost s = buf@.subrange(pos as int, buf@.len() as int);
    let len = buf.len();
    assert(s.subrange(1, e - pos) =~= buf@.subrange(pos + 1, e as int));
    match text_of(buf, pos + 1, e) {
        Some(t) => Some((Value::SimpleString(t), e - pos + 2)),
        None => None,
    }
}

/// Decodes a bulk string (or the null marker) whose header line ends at `e`.
pub fn parse_bulk_string(buf: &[u8], pos: usize, e: usize) -> (r: Option<(Value, usize)>)
    requires
        pos < e,
        e + 1 < buf@.len(),
        buf@[pos as int] == 36,
        find_crlf(buf@.subrange(pos as int, buf@.len() as int), 1) == Some(e - pos),
    ensures
        parsed_at(buf@, pos as int, r),
{
    let ghost s = buf@.subrange(pos as int, buf@.len() as int);
    let len = buf.len();
    assert(s.subrange(1, e - pos) =~= buf@.subrange(pos + 1, e as int));
    let n = match read_header(buf, pos, e) {
        Some(n) => n,
        None => return None,
    };
    if n == -1 {
        return Some((Value::Null, e - pos + 2));
    }
    let n = n as usize;
    if n > buf.len() - e - 2 || n + 4 > buf.len() - e || buf[e + 2 + n] != 13 || buf[e + 3 + n] != 10 {
        return None;
    }
    assert(s.subrange(e - pos + 2, e - pos + 2 + n) =~= buf@.subrange(e + 2, e + 2 + n));
    match text_of(buf, e + 2, e + 2 + n) {
        Some(t) => Some((Value::BulkString(t), e - pos + 4 + n)),
        None => None,
    }
}

/// Decodes an array whose count line ends at `e`, element by element.
pub fn parse_array(buf: &[u8], pos: usize, e: usize) -> (r: Option<(Value, usize)>)
    requires
        pos < e,
        e + 1 < buf@.len(),
        buf@[pos as int] == 42,
        find_crlf(buf@.subrange(pos as int, buf@.len() as int), 1) == Some(e - pos),
    ensures
        parsed_at(buf@, pos as int, r),
    decreases buf@.len() - pos, 0int,
{
    let ghost s = buf@.subrange(pos as int, buf@.len() as int);
    let len = buf.len();
    assert(s.subrange(1, e - pos) =~= buf@.subrange(pos + 1, e as int));
    let n = match read_header(buf, pos, e) {
        Some(n) => n,
        None => return None,
    };
    if n < 0 || n as usize > buf.len() - (e + 2) {
        return None;
    }
    let count = n as usize;
    let start = e + 2;
    let ghost body = s.subrange(e - pos + 2, s.len() as int);
    assert(body =~= buf@.subrange(start as int, buf@.len() as int));
    let mut items: Vec<Value> = Vec::new();
    let mut off: usize = start;
    let mut i: usize = 0;
    while i < count
        invariant
            start <= off <= buf@.len(),
            i <= count,
            pos < start,
            body == buf@.subrange(start as int, buf@.len() as int),
            s == buf@.subrange(pos as int, buf@.len() as int),
            s[0] == 42,
            find_crlf(s, 1) == Some(e - pos),
            header_number(s.subrange(1, e - pos)) == Some(count as int),
            count <= s.len() - (e - pos + 2),
            start == e + 2,
            body == s.subrange(e - pos + 2, s.len() as int),
            decode_items_spec(body, count as int) == (match decode_items_spec(
                buf@.subrange(off as int, buf@.len() as int),
                count - i,
            ) {
                Some((rest, m)) => Some((items@.map_values(|v: Value| v@) + rest, (off - start) + m)),
                None => None::<(Seq<ValueModel>, int)>,
            }),
        decreases count - i,
    {
        let ghost tail = buf@.subrange(off as int, buf@.len() as int);
        match parse_at(buf, off) {
            Some((v, k)) => {
                if k == 0 || k > buf.len() - off {
                    assert(decode_items_spec(tail, count - i) is None);
                    return None;
                }
                assert(tail.subrange(k as int, tail.len() as int) =~= buf@.subrange(off + k, buf@.len() as int));
                let ghost vm = v@;
                let ghost before = items@.map_values(|v: Value| v@);
                items.push(v);
                assert(items@.map_values(|v: Value| v@) =~= before.push(vm));
                proof {
                    match decode_items_spec(buf@.subrange(off + k, buf@.len() as int), count - i - 1) {
                        Some((rest, m)) => {
                            assert(before + (seq![vm] + rest) =~= before.push(vm) + rest);
                        },
                        None => {},
                    }
                }
                off = off + k;
                i = i + 1;
            },
            None => {
                assert(decode_items_spec(tail, count - i) is None);
                return None;
            },
        }
    }
    assert(decode_items_spec(buf@.subrange(off as int, buf@.len() as int), 0) == Some((Seq::<ValueModel>::empty(), 0int)));
    assert(items@.map_values(|v: Value| v@) + Seq::<ValueModel>::empty() =~= items@.map_values(|v: Value| v@));
    let ghost done = items@.map_values(|v: Value| v@);
    let arr = Value::Array(items);
    assert(arr@ == ValueModel::Array(done)) by {
        assert(arr@->Array_0 =~= done);
    }
    Some((arr, off - pos))
}

/// True when the rendering of `v` reads back as `v`: no simple string's text
/// holds a CRLF, and every bulk string's text takes one byte per character.
pub open spec fn wire_safe(v: ValueModel) -> bool
    decreases v,
{
    match v {
        ValueModel::Simple(s) => forall|i: int| !crlf_at(encode_utf8(s), i),
        ValueModel::Bulk(s) => encode_utf8(s).len() == s.len(),
        ValueModel::Array(items) => forall|i: int| 0 <= i < items.len() ==> wire_safe(#[trigger] items[i]),
        ValueModel::Null => true,
    }
}

/// The first CRLF at or after `i` is at `j` when there is one at `j` and none in between.
pub proof fn lemma_find_crlf_first(s: Seq<u8>, i: int, j: int)
    requires
        0 <= i <= j,
        crlf_at(s, j),
        forall|k: int| i <= k < j ==> !crlf_at(s, k),
    ensures
        find_crlf(s, i) == Some(j),
    decreases j - i,
{
    if i < j {
        lemma_find_crlf_first(s, i + 1, j);
    }
}

/// A digit string followed by CRLF: the header line ends right after the digits.
proof fn lemma_digits_line(s: Seq<u8>, d: Seq<u8>)
    requires
        d.len() >= 1,
        all_digits(d),
        s.len() >= d.len() + 3int,
        s.subrange(1, d.len() + 1int) == d,
        s[d.len() + 1int] == 13,
        s[d.len() + 2int] == 10,
    ensures
        find_crlf(s, 1) == Some(d.len() + 1int),
        header_number(s.subrange(1, d.len() + 1int)) == Some(digits_value(d) as int),
{
    assert forall|k: int| 1 <= k < d.len() + 1int implies !crlf_at(s, k) by {
        assert(s[k] == d[k - 1]);
    }
    lemma_find_crlf_first(s, 1, d.len() + 1int);
    assert(!(d =~= seq![45u8, 49u8])) by {
        if d =~= seq![45u8, 49u8] {
            assert(d[0] == 45);
        }
    }
}

/// Decoding the rendering of a safe value, whatever follows it, gives the value back
/// and consumes exactly its rendering.
pub proof fn lemma_decode_wire_bytes(v: ValueModel, rest: Seq<u8>)
    requires
        wire_safe(v),
    ensures
        decode_spec(wire_bytes(v) + rest) == Some((v, wire_bytes(v).len() as int)),
    decreases v,
{
    let w = wire_bytes(v);
    let s = w + rest;
    match v {
        ValueModel::Simple(t) => {
            let p = encode_utf8(t);
            encode_utf8_valid_utf8(t);
            encode_utf8_decode_utf8(t);
            assert forall|k: int| 1 <= k < p.len() + 1int implies !crlf_at(s, k) by {
                if k + 1 < p.len() + 1int {
                    assert(s[k] == p[k - 1] && s[k + 1] == p[k]);
                    assert(!crlf_at(p, k - 1));
                } else {
                    assert(s[k + 1] == 13);
                }
            }
            assert(crlf_at(s, p.len() + 1int));
            lemma_find_crlf_first(s, 1, p.len() + 1int);
            assert(s.subrange(1, p.len() + 1int) =~= p);
        },
        ValueModel::Bulk(t) => {
            let p = encode_utf8(t);
            let d = dec_digits(t.len());
            encode_utf8_valid_utf8(t);
            encode_utf8_decode_utf8(t);
            lemma_dec_digits(t.len());
            assert(s.subrange(1, d.len() + 1int) =~= d);
            lemma_digits_line(s, d);
            let e = d.len() + 1int;
            assert(s.subrange(e + 2, e + 2 + p.len()) =~= p);
            assert(crlf_at(s, e + 2 + p.len()));
        },
        ValueModel::Array(items) => {
            let d = dec_digits(items.len());
            lemma_dec_digits(items.len());
            assert(s.subrange(1, d.len() + 1int) =~= d);
            lemma_digits_line(s, d);
            let e = d.len() + 1int;
            lemma_decode_items_wire_bytes(items, rest);
            assert(s.subrange(e + 2, s.len() as int) =~= wire_bytes_seq(items) + rest);
        },
        ValueModel::Null => {
            assert(crlf_at(s, 3));
            lemma_find_crlf_first(s, 1, 3);
            assert(s.subrange(1, 3) =~= seq![45u8, 49u8]);
        },
    }
}

/// Decoding the renderings of safe values one after the other gives them back.
pub proof fn lemma_decode_items_wire_bytes(items: Seq<ValueModel>, rest: Seq<u8>)
    requires
        forall|i: int| 0 <= i < items.len() ==> wire_safe(#[trigger] items[i]),
    ensures
        wire_bytes_seq(items).len() >= items.len(),
        decode_items_spec(wire_bytes_seq(items) + rest, items.len() as int) == Some(
            (items, wire_bytes_seq(items).len() as int),
        ),
    decreases items,
{
    if items.len() > 0 {
        let tail = items.subrange(1, items.len() as int);
        let w0 = wire_bytes(items[0]);
        let wt = wire_bytes_seq(tail);
        let s = wire_bytes_seq(items) + rest;
        assert(s =~= w0 + (wt + rest));
        lemma_decode_wire_bytes(items[0], wt + rest);
        lemma_decode_items_wire_bytes(tail, rest);
        assert(w0.len() >= 1) by {
            assert(w0[0] == 43 || w0[0] == 36 || w0[0] == 42);
        }
        assert(s.subrange(w0.len() as int, s.len() as int) =~= wt + rest);
        assert(seq![items[0]] + tail =~= items);
    } else {
        assert(wire_bytes_seq(items) + rest =~= rest);
    }
}

/// Decoding the rendering of a value gives back that value, with the whole
/// rendering consumed; this holds for every value whose simple strings hold no
/// CRLF and whose bulk strings take one byte per character.
pub proof fn decode_after_encode(v: ValueModel)
    requires
        wire_safe(v),
    ensures
        decode_spec(wire_bytes(v)) == Some((v, wire_bytes(v).len() as int)),
{
    lemma_decode_wire_bytes(v, Seq::empty());
    assert(wire_bytes(v) + Seq::<u8>::empty() =~= wire_bytes(v));
}

/// How the bytes read so far stand: a complete frame, the start of one that needs
/// more bytes, or bytes that can never become a frame.
pub enum FrameStatus {
    Complete(Value, usize),
    Incomplete,
    Malformed,
}

/// True when the bytes read so far already rule out every frame: the leading byte
/// is not a frame tag, or the first line is complete and cannot be a simple string's
/// text (invalid UTF-8), a bulk length or an array count.
pub open spec fn visibly_malformed(s: Seq<u8>) -> bool {
    s.len() > 0 && (!(s[0] == 43 || s[0] == 36 || s[0] == 42) || match find_crlf(s, 1) {
        Some(e) => {
            let line = s.subrange(1, e);
            (s[0] == 43 && !valid_utf8(line)) || (s[0] == 36 && header_number(line) is None) || (
            s[0] == 42 && (header_number(line) is None || header_number(line) == Some(-1int)))
        },
        None => false,
    })
}

/// A CRLF found in `s` is still the first one once more bytes follow.
proof fn lemma_find_crlf_extend(s: Seq<u8>, ext: Seq<u8>, i: int)
    requires
        find_crlf(s, i) is Some,
    ensures
        find_crlf(s + ext, i) == find_crlf(s, i),
    decreases s.len() - i,
{
    if 0 <= i && i + 1 < s.len() {
        assert(crlf_at(s + ext, i) == crlf_at(s, i));
        if !crlf_at(s, i) {
            lemma_find_crlf_extend(s, ext, i + 1);
        }
    }
}

/// A CRLF found at or after `i` lies within `s`.
proof fn lemma_find_crlf_bounds(s: Seq<u8>, i: int)
    ensures
        find_crlf(s, i) matches Some(e) ==> i <= e && e + 1 < s.len(),
    decreases s.len() - i,
{
    if 0 <= i && i + 1 < s.len() && !crlf_at(s, i) {
        lemma_find_crlf_bounds(s, i + 1);
    }
}

/// Bytes that are visibly malformed never start a frame, whatever follows them.
pub proof fn malformed_stays_malformed(s: Seq<u8>, ext: Seq<u8>)
    requires
        visibly_malformed(s),
    ensures
        decode_spec(s + ext) is None,
{
    let t = s + ext;
    assert(t[0] == s[0]);
    if s[0] == 43 || s[0] == 36 || s[0] == 42 {
        let e = find_crlf(s, 1)->Some_0;
        lemma_find_crlf_bounds(s, 1);
        lemma_find_crlf_extend(s, ext, 1);
        assert(t.subrange(1, e) =~= s.subrange(1, e));
    }
}

/// True when `buf[pos + 1..e]` is a header line: `-1` or a nonempty digit string.
fn header_is_valid(buf: &[u8], pos: usize, e: usize) -> (r: bool)
    requires
        pos < e <= buf@.len(),
    ensures
        r == header_number(buf@.subrange(pos + 1, e as int)) is Some,
{
    let ghost line = buf@.subrange(pos + 1, e as int);
    if is_null_length(buf, pos, e) {
        return true;
    }
    if e - pos == 1 {
        return false;
    }
    let mut i: usize = pos + 1;
    while i < e
        invariant
            pos + 1 <= i <= e <= buf@.len(),
            line == buf@.subrange(pos + 1, e as int),
            !(line =~= seq![45u8, 49u8]),
            forall|j: int| pos + 1 <= j < i ==> 48 <= #[trigger] buf@[j] <= 57,
        decreases e - i,
    {
        if buf[i] < 48 || buf[i] > 57 {
            assert(line[i - pos - 1] == buf@[i as int]);
            return false;
        }
        i = i + 1;
    }
    assert forall|j: int| 0 <= j < line.len() implies 48 <= #[trigger] line[j] <= 57 by {
        assert(line[j] == buf@[pos + 1 + j]);
    }
    true
}

/// Tells a complete frame at the start of `buf` from one that needs more bytes and
/// from bytes that can never become a frame.
pub fn frame_status(buf: &[u8]) -> (r: FrameStatus)
    ensures
        match r {
            FrameStatus::Complete(v, n) => decode_spec(buf@) == Some((v@, n as int)),
            FrameStatus::Incomplete => decode_spec(buf@) is None && !visibly_malformed(buf@),
            FrameStatus::Malformed => decode_spec(buf@) is None && visibly_malformed(buf@),
        },
{
    if let Some((v, n)) = parse_resp(buf) {
        return FrameStatus::Complete(v, n);
    }
    if buf.len() == 0 {
        return FrameStatus::Incomplete;
    }
    let tag = buf[0];
    if tag != 43 && tag != 36 && tag != 42 {
        return FrameStatus::Malformed;
    }
    let e = match read_until_crlf(buf, 1) {
        Some(e) => e,
        None => return FrameStatus::Incomplete,
    };
    let bad = if tag == 43 {
        text_of(buf, 1, e).is_none()
    } else if tag == 36 {
        !header_is_valid(buf, 0, e)
    } else {
        !header_is_valid(buf, 0, e) || is_null_length(buf, 0, e)
    };
    if bad {
        FrameStatus::Malformed
    } else {
        FrameStatus::Incomplete
    }
}

} // verus!
