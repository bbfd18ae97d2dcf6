//! The meaning of each command: from the store, a request and the time, the reply
//! and the new store.
use vstd::prelude::*;
use vstd::utf8::encode_utf8;
use crate::config::{Config, setting_reply};
use crate::decimal::{all_digits, digits_value, parse_decimal};
use crate::storage::{Item, Record, Storage, StorageType, get_outcome, keys_outcome, ok_text};
use crate::values::{Value, ValueModel, values_model};
use crate::helper_func::{command_of, extract_command};

verus! {

/// What the connection does after a command: send a value, or save a snapshot and
/// report how that went.
pub enum Reply {
    Send(Value),
    Save,
}

impl View for Reply {
    type V = Option<ValueModel>;

    open spec fn view(&self) -> Option<ValueModel> {
        match self {
            Reply::Send(v) => Some(v@),
            Reply::Save => None,
        }
    }
}

/// A byte in lower case, for ASCII letters.
pub open spec fn lower_byte(b: u8) -> u8 {
    if 65 <= b <= 90 {
        (b + 32) as u8
    } else {
        b
    }
}

/// True when the text `s` is the lower-case word `w`, ignoring ASCII case.
pub open spec fn is_word(s: Seq<char>, w: Seq<u8>) -> bool {
    let b = encode_utf8(s);
    b.len() == w.len() && forall|i: int| 0 <= i < b.len() ==> lower_byte(b[i]) == w[i]
}

/// True when `v` is a bulk string whose text is the word `w`, ignoring ASCII case.
pub open spec fn is_bulk_word(v: ValueModel, w: Seq<u8>) -> bool {
    v is Bulk && is_word(v->Bulk_0, w)
}

pub open spec fn word_ping() -> Seq<u8> { seq![112u8, 105u8, 110u8, 103u8] }
pub open spec fn word_echo() -> Seq<u8> { seq![101u8, 99u8, 104u8, 111u8] }
pub open spec fn word_set() -> Seq<u8> { seq![115u8, 101u8, 116u8] }
pub open spec fn word_get() -> Seq<u8> { seq![103u8, 101u8, 116u8] }
pub open spec fn word_config() -> Seq<u8> { seq![99u8, 111u8, 110u8, 102u8, 105u8, 103u8] }
pub open spec fn word_keys() -> Seq<u8> { seq![107u8, 101u8, 121u8, 115u8] }
pub open spec fn word_save() -> Seq<u8> { seq![115u8, 97u8, 118u8, 101u8] }
pub open spec fn word_px() -> Seq<u8> { seq![112u8, 120u8] }
pub open spec fn word_dir() -> Seq<u8> { seq![100u8, 105u8, 114u8] }
pub open spec fn word_dbfilename() -> Seq<u8> {
    seq![100u8, 98u8, 102u8, 105u8, 108u8, 101u8, 110u8, 97u8, 109u8, 101u8]
}

/// The number of milliseconds that a text gives: a nonempty string of digits.
pub open spec fn millis_of(t: Seq<char>) -> Option<u64> {
    let b = encode_utf8(t);
    if b.len() > 0 && all_digits(b) && digits_value(b) <= u64::MAX {
        Some(digits_value(b) as u64)
    } else {
        None
    }
}

/// The absolute expiry for a time to live of `ms` from `now`, held at the largest
/// time when the sum does not fit.
pub open spec fn expiry(now: u64, ms: u64) -> u64 {
    if now + ms > u64::MAX {
        u64::MAX
    } else {
        (now + ms) as u64
    }
}

/// What SET does: `key value` stores a permanent record, `key value PX millis` an
/// expiring one; any other shape changes nothing and answers `Null`.
pub open spec fn set_outcome(
    before: Map<Seq<char>, Record>,
    args: Seq<ValueModel>,
    now: u64,
    after: Map<Seq<char>, Record>,
    r: ValueModel,
) -> bool {
    if args.len() == 2 && args[0] is Bulk && args[1] is Bulk {
        after == before.insert(args[0]->Bulk_0, Record::Permanent(args[1]->Bulk_0)) && r
            == ValueModel::Simple(seq!['O', 'K'])
    } else if args.len() == 4 && args[0] is Bulk && args[1] is Bulk && is_bulk_word(args[2], word_px())
        && args[3] is Bulk && millis_of(args[3]->Bulk_0) is Some {
        after == before.insert(
            args[0]->Bulk_0,
            Record::Expiring(args[1]->Bulk_0, expiry(now, millis_of(args[3]->Bulk_0)->Some_0)),
        ) && r == ValueModel::Simple(seq!['O', 'K'])
    } else {
        after == before && r == ValueModel::Null
    }
}

/// What CONFIG does: `GET dir` and `GET dbfilename` report the setting (the
/// subcommand and the setting's name in any ASCII case).
pub open spec fn config_reply(dir: Seq<char>, file: Seq<char>, args: Seq<ValueModel>) -> ValueModel {
    if args.len() >= 2 && is_bulk_word(args[0], word_get()) && is_bulk_word(args[1], word_dir()) {
        setting_reply(seq!['d', 'i', 'r'], dir)
    } else if args.len() >= 2 && is_bulk_word(args[0], word_get()) && is_bulk_word(
        args[1],
        word_dbfilename(),
    ) {
        setting_reply(seq!['d', 'b', 'f', 'i', 'l', 'e', 'n', 'a', 'm', 'e'], file)
    } else {
        ValueModel::Null
    }
}

/// What the command `name` with `args` does at time `now`: from the store `before`
/// it leaves `after` and answers `r` (`None`: a snapshot is to be saved).
pub open spec fn execute_outcome(
    before: Map<Seq<char>, Record>,
    dir: Seq<char>,
    file: Seq<char>,
    name: Seq<char>,
    args: Seq<ValueModel>,
    now: u64,
    after: Map<Seq<char>, Record>,
    r: Option<ValueModel>,
) -> bool {
    if is_word(name, word_ping()) {
        after == before && r == Some(ValueModel::Simple(seq!['P', 'O', 'N', 'G']))
    } else if is_word(name, word_echo()) {
        after == before && r == Some(if args.len() >= 1 { args[0] } else { ValueModel::Null })
    } else if is_word(name, word_set()) {
        r is Some && set_outcome(before, args, now, after, r->Some_0)
    } else if is_word(name, word_get()) {
        r is Some && if args.len() >= 1 {
            get_outcome(before, args[0], now, after, r->Some_0)
        } else {
            after == before && r->Some_0 == ValueModel::Null
        }
    } else if is_word(name, word_config()) {
        after == before && r == Some(config_reply(dir, file, args))
    } else if is_word(name, word_keys()) {
        r is Some && if args.len() >= 1 {
            keys_outcome(before, args[0], now, after, r->Some_0)
        } else {
            after == before && r->Some_0 == ValueModel::Null
        }
    } else if is_word(name, word_save()) {
        after == before && r is None
    } else {
        after == before && r == Some(ValueModel::Null)
    }
}

/// True when `s` is the word `w`, ignoring ASCII case.
pub fn word_is(s: &String, w: &[u8]) -> (r: bool)
    ensures
        r == is_word(s@, w@),
{
    let b = s.as_str().as_bytes();
    if b.len() != w.len() {
        return false;
    }
    let mut i: usize = 0;
    while i < b.len()
        invariant
            b@ == encode_utf8(s@),
            b@.len() == w@.len(),
            0 <= i <= b@.len(),
            forall|j: int| 0 <= j < i ==> lower_byte(b@[j]) == w@[j],
        decreases b@.len() - i,
    {
        let c = b[i];
        let lc: u8 = if 65 <= c && c <= 90 { c + 32 } else { c };
        if lc != w[i] {
            return false;
        }
        i = i + 1;
    }
    true
}

/// True when `v` is a bulk string holding the word `w`, ignoring ASCII case.
fn bulk_word_is(v: &Value, w: &[u8]) -> (r: bool)
    ensures
        r == is_bulk_word(v@, w@),
{
    match v {
        Value::BulkString(s) => word_is(s, w),
        _ => false,
    }
}

/// The milliseconds that the text `s` gives, if it is a string of digits.
fn parse_millis(s: &String) -> (r: Option<u64>)
    ensures
        r == millis_of(s@),
{
    let b = s.as_str().as_bytes();
    let r = parse_decimal(b, 0, b.len(), u64::MAX);
    assert(b@.subrange(0, b@.len() as int) =~= b@);
    r
}

/// The value at index `i` of `args`, taken out (what is left in its place does not matter).
fn take_arg(args: &mut Vec<Value>, i: usize) -> (r: Value)
    requires
        i < old(args)@.len(),
    ensures
        r@ == values_model(old(args)@)[i as int],
        values_model(final(args)@) == values_model(old(args)@).update(i as int, ValueModel::Null),
        final(args)@.len() == old(args)@.len(),
{
    let mut v = Value::Null;
    args.set_and_swap(i, &mut v);
    assert(values_model(args@) =~= values_model(old(args)@).update(i as int, ValueModel::Null));
    v
}

/// Carries out the command `name` with `args` on `storage` at time `now`.
pub fn execute(storage: &mut Storage, config: &Config, name: String, args: Vec<Value>, now: u64) -> (r: Reply)
    requires
        old(storage).wf(),
    ensures
        final(storage).wf(),
        execute_outcome(
            old(storage)@,
            config.dir_text(),
            config.file_text(),
            name@,
            values_model(args@),
            now,
            final(storage)@,
            r@,
        ),
{
    let ghost am = values_model(args@);
    let mut args = args;
    let w_ping: [u8; 4] = [112, 105, 110, 103];
    let w_echo: [u8; 4] = [101, 99, 104, 111];
    let w_set: [u8; 3] = [115, 101, 116];
    let w_get: [u8; 3] = [103, 101, 116];
    let w_config: [u8; 6] = [99, 111, 110, 102, 105, 103];
    let w_keys: [u8; 4] = [107, 101, 121, 115];
    let w_save: [u8; 4] = [115, 97, 118, 101];
    assert(w_ping@ =~= word_ping());
    assert(w_echo@ =~= word_echo());
    assert(w_set@ =~= word_set());
    assert(w_get@ =~= word_get());
    assert(w_config@ =~= word_config());
    assert(w_keys@ =~= word_keys());
    assert(w_save@ =~= word_save());
    if word_is(&name, w_ping.as_slice()) {
        let pong = String::from_str("PONG");
        proof {
            reveal_strlit("PONG");
        }
        assert(pong@ =~= seq!['P', 'O', 'N', 'G']);
        Reply::Send(Value::SimpleString(pong))
    } else if word_is(&name, w_echo.as_slice()) {
        if args.len() >= 1 {
            Reply::Send(take_arg(&mut args, 0))
        } else {
            Reply::Send(Value::Null)
        }
    } else if word_is(&name, w_set.as_slice()) {
        Reply::Send(execute_set(storage, args, now))
    } else if word_is(&name, w_get.as_slice()) {
        if args.len() >= 1 {
            let key = take_arg(&mut args, 0);
            Reply::Send(storage.get_at(key, now))
        } else {
            Reply::Send(Value::Null)
        }
    } else if word_is(&name, w_config.as_slice()) {
        Reply::Send(execute_config(config, &args))
    } else if word_is(&name, w_keys.as_slice()) {
        if args.len() >= 1 {
            let pattern = take_arg(&mut args, 0);
            Reply::Send(storage.keys_at(pattern, now))
        } else {
            Reply::Send(Value::Null)
        }
    } else if word_is(&name, w_save.as_slice()) {
        Reply::Save
    } else {
        Reply::Send(Value::Null)
    }
}

/// Answers one request at time `now`: a request that carries no command is
/// answered with `Null` and changes nothing.
pub fn respond(storage: &mut Storage, config: &Config, request: Value, now: u64) -> (r: Reply)
    requires
        old(storage).wf(),
    ensures
        final(storage).wf(),
        match command_of(request@) {
            Some((name, args)) => execute_outcome(
                old(storage)@,
                config.dir_text(),
                config.file_text(),
                name,
                args,
                now,
                final(storage)@,
                r@,
            ),
            None => final(storage)@ == old(storage)@ && r@ == Some(ValueModel::Null),
        },
{
    match extract_command(request) {
        Ok((name, args)) => execute(storage, config, name, args, now),
        Err(_) => Reply::Send(Value::Null),
    }
}

/// Carries out SET with `args` at time `now`.
fn execute_set(storage: &mut Storage, args: Vec<Value>, now: u64) -> (r: Value)
    requires
        old(storage).wf(),
    ensures
        final(storage).wf(),
        set_outcome(old(storage)@, values_model(args@), now, final(storage)@, r@),
{
    let ghost am = values_model(args@);
    let mut args = args;
    let w_px: [u8; 2] = [112, 120];
    assert(w_px@ =~= word_px());
    let n = args.len();
    if n != 2 && n != 4 {
        return Value::Null;
    }
    let key = take_arg(&mut args, 0);
    let val = take_arg(&mut args, 1);
    let text = match val {
        Value::BulkString(t) => t,
        _ => return Value::Null,
    };
    if !matches!(key, Value::BulkString(_)) {
        return Value::Null;
    }
    if n == 2 {
        return storage.set(StorageType::Inf(text), key);
    }
    assert(values_model(args@)[2] == am[2]);
    assert(values_model(args@)[3] == am[3]);
    assert(args@[2]@ == am[2]);
    assert(args@[3]@ == am[3]);
    if !bulk_word_is(&args[2], w_px.as_slice()) {
        return Value::Null;
    }
    let ms = match &args[3] {
        Value::BulkString(t) => match parse_millis(t) {
            Some(ms) => ms,
            None => return Value::Null,
        },
        _ => return Value::Null,
    };
    let expires: u64 = if now > u64::MAX - ms { u64::MAX } else { now + ms };
    storage.set(StorageType::Exp(Item { value: text, expires }), key)
}

/// Carries out CONFIG with `args`.
fn execute_config(config: &Config, args: &Vec<Value>) -> (r: Value)
    ensures
        r@ == config_reply(config.dir_text(), config.file_text(), values_model(args@)),
{
    let w_dir: [u8; 3] = [100, 105, 114];
    let w_file: [u8; 10] = [100, 98, 102, 105, 108, 101, 110, 97, 109, 101];
    assert(w_dir@ =~= word_dir());
    assert(w_file@ =~= word_dbfilename());
    if args.len() < 2 {
        return Value::Null;
    }
    let w_get: [u8; 3] = [103, 101, 116];
    assert(w_get@ =~= word_get());
    let is_get = bulk_word_is(&args[0], w_get.as_slice());
    if !is_get {
        return Value::Null;
    }
    if bulk_word_is(&args[1], w_dir.as_slice()) {
        config.dir()
    } else if bulk_word_is(&args[1], w_file.as_slice()) {
        config.dbfilename()
    } else {
        Value::Null
    }
}

/// `SET k v PX ms` at time `t0`, then `GET k` at `t1`: the write is acknowledged;
/// the read gives `v` before `t0 + ms`, and from then on gives `Null` and removes
/// the record.
pub proof fn set_px_then_get(
    before: Map<Seq<char>, Record>,
    k: Seq<char>,
    v: Seq<char>,
    px: Seq<char>,
    ms: Seq<char>,
    t0: u64,
    mid: Map<Seq<char>, Record>,
    r1: ValueModel,
    t1: u64,
    after: Map<Seq<char>, Record>,
    r2: ValueModel,
)
    requires
        is_word(px, word_px()),
        millis_of(ms) is Some,
        set_outcome(
            before,
            seq![ValueModel::Bulk(k), ValueModel::Bulk(v), ValueModel::Bulk(px), ValueModel::Bulk(ms)],
            t0,
            mid,
            r1,
        ),
        get_outcome(mid, ValueModel::Bulk(k), t1, after, r2),
    ensures
        r1 == ValueModel::Simple(seq!['O', 'K']),
        t1 < expiry(t0, millis_of(ms)->Some_0) ==> r2 == ValueModel::Bulk(v) && after == mid,
        expiry(t0, millis_of(ms)->Some_0) <= t1 ==> r2 == ValueModel::Null && !after.contains_key(k),
{
    let args = seq![ValueModel::Bulk(k), ValueModel::Bulk(v), ValueModel::Bulk(px), ValueModel::Bulk(ms)];
    assert(args[2] == ValueModel::Bulk(px));
    assert(is_bulk_word(args[2], word_px()));
    let rec = Record::Expiring(v, expiry(t0, millis_of(ms)->Some_0));
    assert(mid == before.insert(k, rec));
    assert(mid[k] == rec);
}

/// The exchange `SET k v PX ms` at `t0`, `GET k` at `t0`, then `GET k` at a time
/// `t1` at or after the expiry: the replies are "OK", `v` (whenever the expiry lies
/// after `t0`) and `Null`, and `k` is gone from the store at the end.
pub proof fn set_then_reads_across_expiry(
    before: Map<Seq<char>, Record>,
    dir: Seq<char>,
    file: Seq<char>,
    set_name: Seq<char>,
    get_name: Seq<char>,
    k: Seq<char>,
    v: Seq<char>,
    px: Seq<char>,
    ms: Seq<char>,
    t0: u64,
    t1: u64,
    m1: Map<Seq<char>, Record>,
    r1: Option<ValueModel>,
    m2: Map<Seq<char>, Record>,
    r2: Option<ValueModel>,
    m3: Map<Seq<char>, Record>,
    r3: Option<ValueModel>,
)
    requires
        is_word(set_name, word_set()),
        is_word(get_name, word_get()),
        is_word(px, word_px()),
        millis_of(ms) is Some,
        expiry(t0, millis_of(ms)->Some_0) <= t1,
        execute_outcome(
            before,
            dir,
            file,
            set_name,
            seq![ValueModel::Bulk(k), ValueModel::Bulk(v), ValueModel::Bulk(px), ValueModel::Bulk(ms)],
            t0,
            m1,
            r1,
        ),
        execute_outcome(m1, dir, file, get_name, seq![ValueModel::Bulk(k)], t0, m2, r2),
        execute_outcome(m2, dir, file, get_name, seq![ValueModel::Bulk(k)], t1, m3, r3),
    ensures
        r1 == Some(ValueModel::Simple(seq!['O', 'K'])),
        t0 < expiry(t0, millis_of(ms)->Some_0) ==> r2 == Some(ValueModel::Bulk(v)),
        r3 == Some(ValueModel::Null),
        !m3.contains_key(k),
{
    let sb = encode_utf8(set_name);
    let gb = encode_utf8(get_name);
    assert(lower_byte(sb[0]) == 115u8);
    assert(lower_byte(gb[0]) == 103u8);
    assert(!is_word(set_name, word_ping()) && !is_word(set_name, word_echo()));
    assert(!is_word(get_name, word_ping()) && !is_word(get_name, word_echo()));
    assert(!is_word(get_name, word_set())) by {
        assert(word_set()[0] == 115u8);
    }
    let args = seq![ValueModel::Bulk(k), ValueModel::Bulk(v), ValueModel::Bulk(px), ValueModel::Bulk(ms)];
    assert(args[2] == ValueModel::Bulk(px));
    let rec = Record::Expiring(v, expiry(t0, millis_of(ms)->Some_0));
    assert(m1 == before.insert(k, rec));
    assert(m1[k] == rec);
    let one = seq![ValueModel::Bulk(k)];
    assert(one[0] == ValueModel::Bulk(k));
    if t0 < expiry(t0, millis_of(ms)->Some_0) {
        assert(m2 == m1);
    }
    assert(!m2.contains_key(k) || m2[k] == rec);
}

} // verus!
