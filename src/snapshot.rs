//! The snapshot codec: the whole store as one byte stream, and back.
use vstd::prelude::*;
use vstd::utf8::*;
use crate::decimal::{all_digits, digits_value, dec_digits, parse_decimal, lemma_dec_digits};
use crate::rdb_encoding::{RdbEncoding, RdbSize, RdbString, prefixed, size_line};
use crate::storage::{Item, Record, Storage, StorageType, is_live, live_part, entries_map, unique_keys, has_key, lemma_entries_map_push};
use crate::values::push_bytes;
use crate::resp::text_of;

verus! {

/// The fixed preamble: format tag, version metadata, database selector and the
/// marker that the two counters follow.
#[verifier::opaque]
pub open spec fn header() -> Seq<u8> {
    seq![
        57u8, 13u8, 82u8, 69u8, 68u8, 73u8, 83u8, 48u8, 48u8, 49u8, 49u8, 10u8, 70u8, 65u8, 10u8,
        57u8, 13u8, 114u8, 101u8, 100u8, 105u8, 115u8, 45u8, 118u8, 101u8, 114u8, 10u8, 54u8, 13u8,
        54u8, 46u8, 48u8, 46u8, 49u8, 54u8, 10u8, 70u8, 69u8, 10u8, 48u8, 48u8, 10u8, 70u8, 66u8, 10u8,
    ]
}

/// The preamble takes 45 bytes.
pub proof fn lemma_header_len()
    ensures
        header().len() == 45,
{
    reveal(header);
}

/// The tag line of a permanent record, which also stands before the key of an
/// expiring one.
pub open spec fn tag_permanent() -> Seq<u8> {
    seq![48u8, 48u8, 10u8]
}

/// The tag line of an expiring record.
pub open spec fn tag_expiring() -> Seq<u8> {
    seq![70u8, 67u8, 10u8]
}

/// The bytes of one record.
pub open spec fn record_bytes(e: (Seq<char>, Record)) -> Seq<u8> {
    match e.1 {
        Record::Permanent(v) => tag_permanent() + prefixed(encode_utf8(e.0)) + prefixed(encode_utf8(v)),
        Record::Expiring(v, t) => tag_expiring() + prefixed(dec_digits(t as nat)) + tag_permanent()
            + prefixed(encode_utf8(e.0)) + prefixed(encode_utf8(v)),
    }
}

/// The bytes of the records of `es`, in order.
pub open spec fn records_bytes(es: Seq<(Seq<char>, Record)>) -> Seq<u8>
    decreases es.len(),
{
    if es.len() == 0 {
        Seq::empty()
    } else {
        records_bytes(es.drop_last()) + record_bytes(es.last())
    }
}

/// The number of permanent records in `es`.
pub open spec fn count_permanent(es: Seq<(Seq<char>, Record)>) -> nat
    decreases es.len(),
{
    if es.len() == 0 {
        0
    } else {
        count_permanent(es.drop_last()) + if es.last().1 is Permanent { 1nat } else { 0nat }
    }
}

/// The number of expiring records in `es`.
pub open spec fn count_expiring(es: Seq<(Seq<char>, Record)>) -> nat
    decreases es.len(),
{
    if es.len() == 0 {
        0
    } else {
        count_expiring(es.drop_last()) + if es.last().1 is Expiring { 1nat } else { 0nat }
    }
}

/// The entries of `es` that still hold at time `now`, in order.
pub open spec fn live_entries(es: Seq<(Seq<char>, Record)>, now: u64) -> Seq<(Seq<char>, Record)>
    decreases es.len(),
{
    if es.len() == 0 {
        Seq::empty()
    } else if is_live(es.last().1, now) {
        live_entries(es.drop_last(), now).push(es.last())
    } else {
        live_entries(es.drop_last(), now)
    }
}

/// The snapshot of a sequence of records.
pub open spec fn snapshot_of(es: Seq<(Seq<char>, Record)>) -> Seq<u8> {
    header() + size_line(count_permanent(es) as int) + size_line(count_expiring(es) as int) + records_bytes(es)
}

/// The map that loading records in order builds: a later record of a key replaces
/// an earlier one.
pub open spec fn insert_all(es: Seq<(Seq<char>, Record)>) -> Map<Seq<char>, Record>
    decreases es.len(),
{
    if es.len() == 0 {
        Map::empty()
    } else {
        insert_all(es.drop_last()).insert(es.last().0, es.last().1)
    }
}

/// Appends the bytes of the preamble.
fn push_header(out: &mut Vec<u8>)
    ensures
        final(out)@ == old(out)@ + header(),
{
    let h = header_bytes();
    push_bytes(out, h.as_slice());
}

/// The bytes of the preamble.
fn header_bytes() -> (r: [u8; 45])
    ensures
        r@ == header(),
{
    let h: [u8; 45] = [
        57, 13, 82, 69, 68, 73, 83, 48, 48, 49, 49, 10, 70, 65, 10, 57, 13, 114, 101, 100, 105, 115,
        45, 118, 101, 114, 10, 54, 13, 54, 46, 48, 46, 49, 54, 10, 70, 69, 10, 48, 48, 10, 70, 66, 10,
    ];
    reveal(header);
    assert(h@ =~= header());
    h
}

/// Appends the bytes of the record of key `k`.
fn push_record(out: &mut Vec<u8>, k: &String, data: &StorageType)
    ensures
        final(out)@ == old(out)@ + record_bytes((k@, data@)),
{
    let key = RdbString::new(k.clone()).serialize();
    match data {
        StorageType::Inf(v) => {
            let val = RdbString::new(v.clone()).serialize();
            out.push(48);
            out.push(48);
            out.push(10);
            push_bytes(out, key.as_slice());
            push_bytes(out, val.as_slice());
        },
        StorageType::Exp(item) => {
            let val = RdbString::new(item.value.clone()).serialize();
            let mut stamp: Vec<u8> = Vec::new();
            crate::decimal::push_decimal(&mut stamp, item.expires as u128);
            let mut when: Vec<u8> = Vec::new();
            push_decimal_field(&mut when, stamp.as_slice());
            out.push(70);
            out.push(67);
            out.push(10);
            push_bytes(out, when.as_slice());
            out.push(48);
            out.push(48);
            out.push(10);
            push_bytes(out, key.as_slice());
            push_bytes(out, val.as_slice());
        },
    }
    assert(final(out)@ =~= old(out)@ + record_bytes((k@, data@)));
}

/// Appends `b` as a length-prefixed field.
fn push_decimal_field(out: &mut Vec<u8>, b: &[u8])
    ensures
        final(out)@ == old(out)@ + prefixed(b@),
{
    crate::decimal::push_decimal(out, b.len() as u128);
    out.push(13);
    push_bytes(out, b);
    out.push(10);
    assert(final(out)@ =~= old(out)@ + prefixed(b@));
}

/// Renders the records of `store` that still hold at time `now` as a snapshot;
/// expired records are left out. `live_records_of_store` states what those records
/// are in terms of `store@`.
pub fn encode_snapshot(store: &Storage, now: u64) -> (r: Vec<u8>)
    ensures
        r@ == snapshot_of(live_entries(store.entries(), now)),
{
    let ghost es = store.entries();
    let n = store.len();
    let mut body: Vec<u8> = Vec::new();
    let mut n_perm: u64 = 0;
    let mut n_exp: u64 = 0;
    let mut i: usize = 0;
    while i < n
        invariant
            n == es.len(),
            es == store.entries(),
            0 <= i <= n,
            body@ == records_bytes(live_entries(es.take(i as int), now)),
            n_perm == count_permanent(live_entries(es.take(i as int), now)),
            n_exp == count_expiring(live_entries(es.take(i as int), now)),
            n_perm + n_exp <= i,
        decreases n - i,
    {
        let (k, data) = store.entry(i);
        let ghost prev = live_entries(es.take(i as int), now);
        assert(es.take(i + 1).drop_last() =~= es.take(i as int));
        assert(es.take(i + 1).last() == es[i as int]);
        let live = match data {
            StorageType::Exp(item) => now < item.expires,
            StorageType::Inf(_) => true,
        };
        if live {
            push_record(&mut body, k, data);
            match data {
                StorageType::Exp(_) => {
                    n_exp = n_exp + 1;
                },
                StorageType::Inf(_) => {
                    n_perm = n_perm + 1;
                },
            }
            assert(prev.push(es[i as int]).drop_last() =~= prev);
        }
        i = i + 1;
    }
    assert(es.take(n as int) =~= es);
    let mut out: Vec<u8> = Vec::new();
    push_header(&mut out);
    let a = RdbSize::new(n_perm as i128).serialize();
    push_bytes(&mut out, a.as_slice());
    let b = RdbSize::new(n_exp as i128).serialize();
    push_bytes(&mut out, b.as_slice());
    push_bytes(&mut out, body.as_slice());
    assert(out@ =~= snapshot_of(live_entries(es, now)));
    out
}

/// The index of the first byte `b` in `s` at or after `i`.
pub open spec fn find_byte(s: Seq<u8>, i: int, b: u8) -> Option<int>
    decreases s.len() - i,
{
    if i < 0 || i >= s.len() {
        None
    } else if s[i] == b {
        Some(i)
    } else {
        find_byte(s, i + 1, b)
    }
}

/// A nonempty digit string at `pos` ended by the byte `term`: its value and the
/// position after `term`.
pub open spec fn digit_field(s: Seq<u8>, pos: int, term: u8) -> Option<(nat, int)> {
    match find_byte(s, pos, term) {
        Some(e) => {
            let d = s.subrange(pos, e);
            if d.len() > 0 && all_digits(d) {
                Some((digits_value(d), e + 1))
            } else {
                None
            }
        },
        None => None,
    }
}

/// The bytes of the length-prefixed field at `pos`, and the position after it.
pub open spec fn field_at(s: Seq<u8>, pos: int) -> Option<(Seq<u8>, int)> {
    match digit_field(s, pos, 13) {
        Some((n, p)) => if p + n + 1 <= s.len() && s[p + n] == 10 {
            Some((s.subrange(p, p + n), p + n + 1))
        } else {
            None
        },
        None => None,
    }
}

/// The text of the length-prefixed field at `pos`, and the position after it.
pub open spec fn text_at(s: Seq<u8>, pos: int) -> Option<(Seq<char>, int)> {
    match field_at(s, pos) {
        Some((b, p)) => if valid_utf8(b) {
            Some((decode_utf8(b), p))
        } else {
            None
        },
        None => None,
    }
}

/// True when the tag line `tag` stands at `pos`.
pub open spec fn has_tag(s: Seq<u8>, pos: int, tag: Seq<u8>) -> bool {
    0 <= pos && pos + 3 <= s.len() && s.subrange(pos, pos + 3) == tag
}

/// The record at `pos`, and the position after it.
pub open spec fn record_at(s: Seq<u8>, pos: int) -> Option<((Seq<char>, Record), int)> {
    if has_tag(s, pos, tag_permanent()) {
        match text_at(s, pos + 3) {
            Some((k, pos1)) => match text_at(s, pos1) {
                Some((v, pos2)) => Some(((k, Record::Permanent(v)), pos2)),
                None => None,
            },
            None => None,
        }
    } else if has_tag(s, pos, tag_expiring()) {
        match field_at(s, pos + 3) {
            Some((tb, pos1)) => if tb.len() > 0 && all_digits(tb) && digits_value(tb) <= u64::MAX
                && has_tag(s, pos1, tag_permanent()) {
                match text_at(s, pos1 + 3) {
                    Some((k, pos2)) => match text_at(s, pos2) {
                        Some((v, pos3)) => Some(((k, Record::Expiring(v, digits_value(tb) as u64)), pos3)),
                        None => None,
                    },
                    None => None,
                }
            } else {
                None
            },
            None => None,
        }
    } else {
        None
    }
}

/// The `n` records that follow one another from `pos`, and the position after them.
pub open spec fn records_at(s: Seq<u8>, pos: int, n: nat) -> Option<(Seq<(Seq<char>, Record)>, int)>
    decreases n,
{
    if n == 0 {
        Some((Seq::empty(), pos))
    } else {
        match record_at(s, pos) {
            Some((e, p)) => match records_at(s, p, (n - 1) as nat) {
                Some((rest, q)) => Some((seq![e] + rest, q)),
                None => None,
            },
            None => None,
        }
    }
}

/// The records of a well-formed snapshot: the preamble, the two counters, exactly
/// as many permanent and expiring records as they say, and nothing after.
pub open spec fn snapshot_entries(s: Seq<u8>) -> Option<Seq<(Seq<char>, Record)>> {
    let h = header().len() as int;
    if s.len() >= h && s.subrange(0, h) == header() {
        match digit_field(s, h, 10) {
            Some((np, pos1)) => match digit_field(s, pos1, 10) {
                Some((ne, pos2)) => if np + ne <= s.len() {
                    match records_at(s, pos2, np + ne) {
                        Some((es, pos3)) => if pos3 == s.len() && count_permanent(es) == np
                            && count_expiring(es) == ne {
                            Some(es)
                        } else {
                            None
                        },
                        None => None,
                    }
                } else {
                    None
                },
                None => None,
            },
            None => None,
        }
    } else {
        None
    }
}

/// The index of the first byte `b` in `buf` at or after `start`.
fn find_byte_exec(buf: &[u8], start: usize, b: u8) -> (r: Option<usize>)
    ensures
        match r {
            Some(i) => find_byte(buf@, start as int, b) == Some(i as int) && i < buf@.len(),
            None => find_byte(buf@, start as int, b) is None,
        },
{
    let mut i: usize = start;
    while i < buf.len()
        invariant
            start <= i,
            find_byte(buf@, start as int, b) == find_byte(buf@, i as int, b),
        decreases buf@.len() - i,
    {
        if buf[i] == b {
            return Some(i);
        }
        i = i + 1;
    }
    None
}

/// Reads the digit field at `pos` ended by `term`, refusing values above `limit`.
fn read_digit_field(buf: &[u8], pos: usize, term: u8, limit: u64) -> (r: Option<(u64, usize)>)
    ensures
        match r {
            Some((n, p)) => digit_field(buf@, pos as int, term) == Some((n as nat, p as int)) && p
                <= buf@.len() && n <= limit,
            None => match digit_field(buf@, pos as int, term) {
                Some((n, _)) => n > limit,
                None => true,
            },
        },
{
    let _len = buf.len();
    let e = match find_byte_exec(buf, pos, term) {
        Some(e) => e,
        None => return None,
    };
    if e < pos {
        proof { lemma_find_byte_bounds(buf@, pos as int, term); }
        return None;
    }
    proof { lemma_find_byte_bounds(buf@, pos as int, term); }
    match parse_decimal(buf, pos, e, limit) {
        Some(n) => Some((n, e + 1)),
        None => None,
    }
}

/// A found byte lies at or after where the search started.
proof fn lemma_find_byte_bounds(s: Seq<u8>, i: int, b: u8)
    ensures
        find_byte(s, i, b) matches Some(e) ==> i <= e < s.len() && s[e] == b,
    decreases s.len() - i,
{
    if 0 <= i < s.len() && s[i] != b {
        lemma_find_byte_bounds(s, i + 1, b);
    }
}

/// Reads the length-prefixed field at `pos`: where its bytes are, and the position after it.
fn read_field(buf: &[u8], pos: usize) -> (r: Option<(usize, usize, usize)>)
    ensures
        match r {
            Some((a, b, p)) => a <= b <= buf@.len() && field_at(buf@, pos as int) == Some(
                (buf@.subrange(a as int, b as int), p as int),
            ),
            None => field_at(buf@, pos as int) is None,
        },
{
    let limit = buf.len() as u64;
    proof { lemma_find_byte_bounds(buf@, pos as int, 13); }
    let (n, p) = match read_digit_field(buf, pos, 13, limit) {
        Some(x) => x,
        None => return None,
    };
    let n = n as usize;
    if n >= buf.len() - p || buf[p + n] != 10 {
        return None;
    }
    Some((p, p + n, p + n + 1))
}

/// Reads the text field at `pos`, and the position after it.
pub(crate) fn read_text(buf: &[u8], pos: usize) -> (r: Option<(String, usize)>)
    ensures
        match r {
            Some((t, p)) => text_at(buf@, pos as int) == Some((t@, p as int)),
            None => text_at(buf@, pos as int) is None,
        },
{
    let (a, b, p) = match read_field(buf, pos) {
        Some(x) => x,
        None => return None,
    };
    match text_of(buf, a, b) {
        Some(t) => Some((t, p)),
        None => None,
    }
}

/// True when the tag line `tag` stands at `pos` of `buf`.
fn tag_is(buf: &[u8], pos: usize, tag: [u8; 3]) -> (r: bool)
    ensures
        r == has_tag(buf@, pos as int, tag@),
{
    if pos > buf.len() || buf.len() - pos < 3 {
        return false;
    }
    let r = buf[pos] == tag[0] && buf[pos + 1] == tag[1] && buf[pos + 2] == tag[2];
    assert(r == (buf@.subrange(pos as int, pos + 3) =~= tag@));
    r
}

/// Reads the record at `pos`, and the position after it.
fn read_record(buf: &[u8], pos: usize) -> (r: Option<(String, StorageType, usize)>)
    ensures
        match r {
            Some((k, d, p)) => record_at(buf@, pos as int) == Some(((k@, d@), p as int)),
            None => record_at(buf@, pos as int) is None,
        },
{
    let _len = buf.len();
    let perm: [u8; 3] = [48, 48, 10];
    let exp: [u8; 3] = [70, 67, 10];
    assert(perm@ =~= tag_permanent());
    assert(exp@ =~= tag_expiring());
    if tag_is(buf, pos, perm) {
        let (k, pos1) = match read_text(buf, pos + 3) {
            Some(x) => x,
            None => return None,
        };
        let (v, pos2) = match read_text(buf, pos1) {
            Some(x) => x,
            None => return None,
        };
        Some((k, StorageType::Inf(v), pos2))
    } else if tag_is(buf, pos, exp) {
        let (a, b, pos1) = match read_field(buf, pos + 3) {
            Some(x) => x,
            None => return None,
        };
        let t = match parse_decimal(buf, a, b, u64::MAX) {
            Some(t) => t,
            None => return None,
        };
        if !tag_is(buf, pos1, perm) {
            return None;
        }
        let (k, pos2) = match read_text(buf, pos1 + 3) {
            Some(x) => x,
            None => return None,
        };
        let (v, pos3) = match read_text(buf, pos2) {
            Some(x) => x,
            None => return None,
        };
        Some((k, StorageType::Exp(Item { value: v, expires: t }), pos3))
    } else {
        None
    }
}

/// Rebuilds a store from a snapshot, or gives `None` when the snapshot is truncated
/// or malformed (no partial store is ever produced).
pub fn decode_snapshot(buf: &[u8]) -> (r: Option<Storage>)
    ensures
        match r {
            Some(st) => st.wf() && snapshot_entries(buf@) is Some && st@ == insert_all(
                snapshot_entries(buf@)->Some_0,
            ),
            None => snapshot_entries(buf@) is None,
        },
{
    let ghost s = buf@;
    proof { lemma_header_len(); }
    let h: usize = 45;
    if buf.len() < h {
        return None;
    }
    let mut i: usize = 0;
    while i < h
        invariant
            0 <= i <= h,
            h == header().len(),
            h <= buf@.len(),
            buf@.subrange(0, i as int) == header().take(i as int),
        decreases h - i,
    {
        let want: u8 = header_byte(i);
        if buf[i] != want {
            assert(buf@.subrange(0, h as int)[i as int] != header()[i as int]);
            return None;
        }
        i = i + 1;
        assert(buf@.subrange(0, i as int) =~= header().take(i as int));
    }
    assert(header().take(h as int) =~= header());
    let limit = buf.len() as u64;
    let (np, pos1) = match read_digit_field(buf, h, 10, limit) {
        Some(x) => x,
        None => return None,
    };
    let (ne, pos2) = match read_digit_field(buf, pos1, 10, limit) {
        Some(x) => x,
        None => return None,
    };
    if np > limit || ne > limit - np {
        return None;
    }
    let total = np + ne;
    let mut store = Storage::new();
    let mut pos: usize = pos2;
    let mut k: u64 = 0;
    let mut seen_perm: u64 = 0;
    let mut seen_exp: u64 = 0;
    let ghost done: Seq<(Seq<char>, Record)> = Seq::empty();
    while k < total
        invariant
            s == buf@,
            s.len() >= 45,
            s.subrange(0, 45) == header(),
            digit_field(s, 45, 10) == Some((np as nat, pos1 as int)),
            digit_field(s, pos1 as int, 10) == Some((ne as nat, pos2 as int)),
            np + ne <= s.len(),
            k <= total,
            total == np + ne,
            store.wf(),
            store@ == insert_all(done),
            done.len() == k,
            seen_perm == count_permanent(done),
            seen_exp == count_expiring(done),
            seen_perm + seen_exp == k,
            records_at(s, pos2 as int, total as nat) == (match records_at(s, pos as int, (total - k) as nat) {
                Some((rest, q)) => Some((done + rest, q)),
                None => None::<(Seq<(Seq<char>, Record)>, int)>,
            }),
        decreases total - k,
    {
        match read_record(buf, pos) {
            Some((key, data, p)) => {
                let ghost e = (key@, data@);
                match &data {
                    StorageType::Inf(_) => {
                        seen_perm = seen_perm + 1;
                    },
                    StorageType::Exp(_) => {
                        seen_exp = seen_exp + 1;
                    },
                }
                store.put(key, data);
                proof {
                    let nd = done.push(e);
                    assert(nd.drop_last() =~= done);
                    match records_at(s, p as int, (total - k - 1) as nat) {
                        Some((rest, q)) => {
                            assert(done + (seq![e] + rest) =~= nd + rest);
                        },
                        None => {},
                    }
                    done = nd;
                }
                pos = p;
                k = k + 1;
            },
            None => {
                return None;
            },
        }
    }
    assert(done + Seq::<(Seq<char>, Record)>::empty() =~= done);
    if pos != buf.len() || seen_perm != np || seen_exp != ne {
        return None;
    }
    Some(store)
}

/// Byte `i` of the preamble.
fn header_byte(i: usize) -> (r: u8)
    requires
        i < header().len(),
    ensures
        r == header()[i as int],
{
    let h = header_bytes();
    h[i]
}

/// The first byte `b` at or after `i` is at `j` when it is there and not before.
proof fn lemma_find_byte_first(s: Seq<u8>, i: int, j: int, b: u8)
    requires
        0 <= i <= j < s.len(),
        s[j] == b,
        forall|k: int| i <= k < j ==> s[k] != b,
    ensures
        find_byte(s, i, b) == Some(j),
    decreases j - i,
{
    if i < j {
        lemma_find_byte_first(s, i + 1, j, b);
    }
}

/// A rendered number followed by `term` reads back as that number.
pub proof fn lemma_digit_field(s: Seq<u8>, pos: int, n: nat, term: u8)
    requires
        0 <= pos,
        pos + dec_digits(n).len() < s.len(),
        s.subrange(pos, pos + dec_digits(n).len()) == dec_digits(n),
        s[pos + dec_digits(n).len()] == term,
        term == 10 || term == 13,
    ensures
        digit_field(s, pos, term) == Some((n, pos + dec_digits(n).len() + 1)),
{
    let d = dec_digits(n);
    lemma_dec_digits(n);
    assert forall|k: int| pos <= k < pos + d.len() implies s[k] != term by {
        assert(s[k] == d[k - pos]);
    }
    lemma_find_byte_first(s, pos, pos + d.len(), term);
}

/// A length-prefixed field reads back as its bytes.
proof fn lemma_field_at(s: Seq<u8>, pos: int, b: Seq<u8>)
    requires
        0 <= pos,
        pos + prefixed(b).len() <= s.len(),
        s.subrange(pos, pos + prefixed(b).len()) == prefixed(b),
    ensures
        field_at(s, pos) == Some((b, pos + prefixed(b).len())),
{
    let d = dec_digits(b.len());
    let w = prefixed(b);
    assert(s.subrange(pos, pos + d.len()) =~= d) by {
        assert forall|k: int| 0 <= k < d.len() implies s.subrange(pos, pos + d.len())[k] == d[k] by {
            assert(s[pos + k] == w[k]);
        }
    }
    assert(s[pos + d.len()] == w[d.len() as int]);
    lemma_digit_field(s, pos, b.len(), 13);
    let p = pos + d.len() + 1;
    assert(s[p + b.len()] == w[(d.len() + 1 + b.len()) as int]);
    assert(s.subrange(p, p + b.len()) =~= b) by {
        assert forall|k: int| 0 <= k < b.len() implies s.subrange(p, p + b.len())[k] == b[k] by {
            assert(s[p + k] == w[(d.len() + 1 + k) as int]);
        }
    }
}

/// A length-prefixed text reads back as the text.
pub proof fn lemma_text_at(s: Seq<u8>, pos: int, c: Seq<char>)
    requires
        0 <= pos,
        pos + prefixed(encode_utf8(c)).len() <= s.len(),
        s.subrange(pos, pos + prefixed(encode_utf8(c)).len()) == prefixed(encode_utf8(c)),
    ensures
        text_at(s, pos) == Some((c, pos + prefixed(encode_utf8(c)).len())),
{
    lemma_field_at(s, pos, encode_utf8(c));
    encode_utf8_valid_utf8(c);
    encode_utf8_decode_utf8(c);
}

/// The part of `s` at `pos` is `w`.
pub open spec fn holds_at(s: Seq<u8>, pos: int, w: Seq<u8>) -> bool {
    0 <= pos && pos + w.len() <= s.len() && s.subrange(pos, pos + w.len()) == w
}

/// If `a + b` stands at `pos`, then `a` stands at `pos` and `b` right after it.
proof fn lemma_holds_at_split(s: Seq<u8>, pos: int, a: Seq<u8>, b: Seq<u8>)
    requires
        holds_at(s, pos, a + b),
    ensures
        holds_at(s, pos, a),
        holds_at(s, pos + a.len(), b),
{
    assert(s.subrange(pos, pos + a.len()) =~= (a + b).subrange(0, a.len() as int));
    assert((a + b).subrange(0, a.len() as int) =~= a);
    assert(s.subrange(pos + a.len(), pos + a.len() + b.len()) =~= (a + b).subrange(
        a.len() as int,
        (a.len() + b.len()) as int,
    ));
    assert((a + b).subrange(a.len() as int, (a.len() + b.len()) as int) =~= b);
}

/// A rendered record reads back as the record.
proof fn lemma_record_at(s: Seq<u8>, pos: int, e: (Seq<char>, Record))
    requires
        holds_at(s, pos, record_bytes(e)),
    ensures
        record_at(s, pos) == Some((e, pos + record_bytes(e).len())),
{
    let fk = prefixed(encode_utf8(e.0));
    match e.1 {
        Record::Permanent(v) => {
            let fv = prefixed(encode_utf8(v));
            assert(record_bytes(e) =~= tag_permanent() + (fk + fv));
            lemma_holds_at_split(s, pos, tag_permanent(), fk + fv);
            lemma_holds_at_split(s, pos + 3, fk, fv);
            lemma_text_at(s, pos + 3, e.0);
            lemma_text_at(s, pos + 3 + fk.len(), v);
            assert(!has_tag(s, pos, tag_expiring()) || has_tag(s, pos, tag_permanent()));
        },
        Record::Expiring(v, t) => {
            let fv = prefixed(encode_utf8(v));
            let ft = prefixed(dec_digits(t as nat));
            assert(record_bytes(e) =~= tag_expiring() + (ft + (tag_permanent() + (fk + fv))));
            lemma_holds_at_split(s, pos, tag_expiring(), ft + (tag_permanent() + (fk + fv)));
            lemma_holds_at_split(s, pos + 3, ft, tag_permanent() + (fk + fv));
            let pos1 = pos + 3 + ft.len();
            lemma_holds_at_split(s, pos1, tag_permanent(), fk + fv);
            lemma_holds_at_split(s, pos1 + 3, fk, fv);
            lemma_field_at(s, pos + 3, dec_digits(t as nat));
            lemma_dec_digits(t as nat);
            lemma_text_at(s, pos1 + 3, e.0);
            lemma_text_at(s, pos1 + 3 + fk.len(), v);
            assert(!has_tag(s, pos, tag_permanent())) by {
                assert(s[pos] == 70);
            }
        },
    }
}

/// Reading one more record continues where the others ended.
proof fn lemma_records_at_push(s: Seq<u8>, pos: int, a: nat)
    ensures
        records_at(s, pos, a + 1) == (match records_at(s, pos, a) {
            Some((es, p)) => match record_at(s, p) {
                Some((e, q)) => Some((es.push(e), q)),
                None => None::<(Seq<(Seq<char>, Record)>, int)>,
            },
            None => None::<(Seq<(Seq<char>, Record)>, int)>,
        }),
    decreases a,
{
    if a == 0 {
        match record_at(s, pos) {
            Some((e, q)) => {
                assert(seq![e] + Seq::<(Seq<char>, Record)>::empty() =~= Seq::<(Seq<char>, Record)>::empty().push(e));
            },
            None => {},
        }
    } else {
        match record_at(s, pos) {
            Some((e, p)) => {
                lemma_records_at_push(s, p, (a - 1) as nat);
                assert((a + 1 - 1) as nat == ((a - 1) as nat + 1) as nat);
                match records_at(s, p, (a - 1) as nat) {
                    Some((rest, q)) => {
                        match record_at(s, q) {
                            Some((e2, q2)) => {
                                assert(seq![e] + rest.push(e2) =~= (seq![e] + rest).push(e2));
                            },
                            None => {},
                        }
                    },
                    None => {},
                }
            },
            None => {},
        }
    }
}

/// Rendered records read back as themselves.
proof fn lemma_records_at(s: Seq<u8>, pos: int, es: Seq<(Seq<char>, Record)>)
    requires
        holds_at(s, pos, records_bytes(es)),
    ensures
        records_at(s, pos, es.len()) == Some((es, pos + records_bytes(es).len())),
        records_bytes(es).len() >= es.len(),
    decreases es.len(),
{
    if es.len() > 0 {
        let init = es.drop_last();
        lemma_holds_at_split(s, pos, records_bytes(init), record_bytes(es.last()));
        lemma_records_at(s, pos, init);
        lemma_record_at(s, pos + records_bytes(init).len(), es.last());
        lemma_records_at_push(s, pos, init.len());
        assert(init.push(es.last()) =~= es);
        assert(record_bytes(es.last()).len() >= 3) by {
            match es.last().1 {
                Record::Permanent(_) => {},
                Record::Expiring(_, _) => {},
            }
        }
    } else {
        assert(records_at(s, pos, 0) == Some((Seq::<(Seq<char>, Record)>::empty(), pos)));
        assert(es =~= Seq::<(Seq<char>, Record)>::empty());
    }
}

/// Every record is permanent or expiring.
proof fn lemma_counts(es: Seq<(Seq<char>, Record)>)
    ensures
        count_permanent(es) + count_expiring(es) == es.len(),
    decreases es.len(),
{
    if es.len() > 0 {
        lemma_counts(es.drop_last());
    }
}

/// Unfolds a well-formed snapshot from its parts.
proof fn lemma_snapshot_parts(s: Seq<u8>, es: Seq<(Seq<char>, Record)>, pos1: int, pos2: int)
    requires
        s.len() >= header().len(),
        s.subrange(0, header().len() as int) == header(),
        digit_field(s, header().len() as int, 10) == Some((count_permanent(es), pos1)),
        digit_field(s, pos1, 10) == Some((count_expiring(es), pos2)),
        count_permanent(es) + count_expiring(es) <= s.len(),
        records_at(s, pos2, count_permanent(es) + count_expiring(es)) == Some((es, s.len() as int)),
    ensures
        snapshot_entries(s) == Some(es),
{
}

/// The two counter lines of `es` read back, starting at `pos`.
proof fn lemma_counter_lines(s: Seq<u8>, pos: int, es: Seq<(Seq<char>, Record)>)
    requires
        holds_at(s, pos, size_line(count_permanent(es) as int) + size_line(count_expiring(es) as int)),
    ensures
        digit_field(s, pos, 10) == Some((count_permanent(es), pos + size_line(count_permanent(es) as int).len())),
        digit_field(s, pos + size_line(count_permanent(es) as int).len(), 10) == Some(
            (
                count_expiring(es),
                pos + size_line(count_permanent(es) as int).len() + size_line(count_expiring(es) as int).len(),
            ),
        ),
{
    let np = count_permanent(es);
    let ne = count_expiring(es);
    let a = size_line(np as int);
    let b = size_line(ne as int);
    let da = dec_digits(np);
    let db = dec_digits(ne);
    assert(a =~= da + seq![10u8]);
    assert(b =~= db + seq![10u8]);
    lemma_holds_at_split(s, pos, a, b);
    let pb = pos + a.len();
    lemma_holds_at_split(s, pos, da, seq![10u8]);
    assert(s[pos + da.len()] == s.subrange(pos + da.len(), pos + da.len() + 1)[0]);
    lemma_digit_field(s, pos, np, 10);
    lemma_holds_at_split(s, pb, db, seq![10u8]);
    assert(s[pb + db.len()] == s.subrange(pb + db.len(), pb + db.len() + 1)[0]);
    lemma_digit_field(s, pb, ne, 10);
}

/// Loading a snapshot gives back exactly the records it was written from.
pub proof fn lemma_snapshot_entries(es: Seq<(Seq<char>, Record)>)
    ensures
        snapshot_entries(snapshot_of(es)) == Some(es),
{
    let a = size_line(count_permanent(es) as int);
    let b = size_line(count_expiring(es) as int);
    let r = records_bytes(es);
    let s = snapshot_of(es);
    let h = header();
    lemma_header_len();
    assert(holds_at(s, 0, h + ((a + b) + r))) by {
        assert(s =~= h + ((a + b) + r));
        assert(s.subrange(0, s.len() as int) =~= s);
    }
    lemma_holds_at_split(s, 0, h, (a + b) + r);
    lemma_holds_at_split(s, 45int, a + b, r);
    lemma_counter_lines(s, 45int, es);
    let pr = 45int + a.len() + b.len();
    lemma_records_at(s, pr, es);
    lemma_counts(es);
    lemma_snapshot_parts(s, es, 45int + a.len(), pr);
}

/// Loading the live records of a store with unique keys gives its live part.
proof fn lemma_insert_all_live(es: Seq<(Seq<char>, Record)>, now: u64)
    requires
        unique_keys(es),
    ensures
        insert_all(live_entries(es, now)) == live_part(entries_map(es), now),
    decreases es.len(),
{
    if es.len() == 0 {
        assert(live_part(entries_map(es), now) =~= Map::<Seq<char>, Record>::empty());
    } else {
        let init = es.drop_last();
        let e = es.last();
        assert(unique_keys(init));
        lemma_insert_all_live(init, now);
        assert(!has_key(init, e.0)) by {
            if has_key(init, e.0) {
                let j = choose|j: int| 0 <= j < init.len() && init[j].0 == e.0;
                assert(es[j].0 == es[es.len() - 1].0);
            }
        }
        lemma_entries_map_push(init, e);
        assert(init.push(e) =~= es);
        let m = entries_map(init);
        if is_live(e.1, now) {
            let lp = live_entries(es, now);
            assert(lp.drop_last() =~= live_entries(init, now));
            assert(live_part(m.insert(e.0, e.1), now) =~= live_part(m, now).insert(e.0, e.1));
        } else {
            assert(live_part(m.insert(e.0, e.1), now) =~= live_part(m, now));
        }
    }
}

/// The live entries: keys unique, each from `es`, and together the live part of
/// the map of `es`.
proof fn lemma_live_entries(es: Seq<(Seq<char>, Record)>, now: u64)
    requires
        unique_keys(es),
    ensures
        unique_keys(live_entries(es, now)),
        entries_map(live_entries(es, now)) == live_part(entries_map(es), now),
        forall|k: Seq<char>| has_key(live_entries(es, now), k) ==> has_key(es, k),
        forall|i: int| 0 <= i < live_entries(es, now).len() ==> is_live(#[trigger] live_entries(es, now)[i].1, now),
    decreases es.len(),
{
    if es.len() == 0 {
        assert(live_part(entries_map(es), now) =~= entries_map(live_entries(es, now)));
    } else {
        let init = es.drop_last();
        let e = es.last();
        assert(unique_keys(init));
        lemma_live_entries(init, now);
        let li = live_entries(init, now);
        assert(!has_key(init, e.0)) by {
            if has_key(init, e.0) {
                let j = choose|j: int| 0 <= j < init.len() && init[j].0 == e.0;
                assert(es[j].0 == es[es.len() - 1].0);
            }
        }
        lemma_entries_map_push(init, e);
        assert(init.push(e) =~= es);
        let m = entries_map(init);
        assert forall|k: Seq<char>| has_key(li, k) implies has_key(es, k) by {
            assert(has_key(init, k));
            let j = choose|j: int| 0 <= j < init.len() && init[j].0 == k;
            assert(es[j].0 == k);
        }
        if is_live(e.1, now) {
            lemma_entries_map_push(li, e);
            assert(live_part(m.insert(e.0, e.1), now) =~= live_part(m, now).insert(e.0, e.1));
            assert forall|k: Seq<char>| has_key(li.push(e), k) implies has_key(es, k) by {
                let j = choose|j: int| 0 <= j < li.len() + 1 && li.push(e)[j].0 == k;
                if j < li.len() {
                    assert(li.push(e)[j] == li[j]);
                    assert(has_key(li, k));
                } else {
                    assert(es[es.len() - 1].0 == k);
                }
            }
            assert forall|i: int| 0 <= i < li.push(e).len() implies is_live(#[trigger] li.push(e)[i].1, now) by {
                if i < li.len() {
                    assert(li.push(e)[i] == li[i]);
                }
            }
        } else {
            assert(live_part(m.insert(e.0, e.1), now) =~= live_part(m, now));
        }
    }
}

/// The records that a snapshot of `store` at time `now` holds: keys unique, each
/// live at `now`, and together exactly the live part of `store@`; the two counters
/// add up to their number.
pub proof fn live_records_of_store(store: Storage, now: u64)
    requires
        store.wf(),
    ensures
        unique_keys(live_entries(store.entries(), now)),
        entries_map(live_entries(store.entries(), now)) == live_part(store@, now),
        forall|i: int| 0 <= i < live_entries(store.entries(), now).len() ==> is_live(
            #[trigger] live_entries(store.entries(), now)[i].1,
            now,
        ),
        count_permanent(live_entries(store.entries(), now)) + count_expiring(live_entries(store.entries(), now))
            == live_entries(store.entries(), now).len(),
{
    lemma_live_entries(store.entries(), now);
    lemma_counts(live_entries(store.entries(), now));
}

/// Saving a store at time `now` and loading the snapshot gives back exactly the
/// records that still hold at `now`; records expired by then are absent.
pub proof fn snapshot_round_trip(store: Storage, now: u64)
    requires
        store.wf(),
    ensures
        snapshot_entries(snapshot_of(live_entries(store.entries(), now))) is Some,
        insert_all(snapshot_entries(snapshot_of(live_entries(store.entries(), now)))->Some_0)
            == live_part(store@, now),
{
    lemma_snapshot_entries(live_entries(store.entries(), now));
    lemma_insert_all_live(store.entries(), now);
}

/// A snapshot of `store` taken at time `now` and loaded again holds no record that
/// had expired by `now`, and every permanent record unchanged.
pub proof fn expired_records_are_not_saved(store: Storage, now: u64, k: Seq<char>)
    requires
        store.wf(),
    ensures
        ({
            let loaded = insert_all(snapshot_entries(snapshot_of(live_entries(store.entries(), now)))->Some_0);
            &&& (store@.contains_key(k) && store@[k] is Expiring && store@[k]->Expiring_1 <= now)
                ==> !loaded.contains_key(k)
            &&& !store@.contains_key(k) ==> !loaded.contains_key(k)
            &&& (store@.contains_key(k) && store@[k] is Permanent) ==> loaded.contains_key(k) && loaded[k]
                == store@[k]
        }),
{
    snapshot_round_trip(store, now);
}

} // verus!
