//! The storage engine: keys mapped to records, permanent or expiring, with
//! expiration enforced lazily when a key is read or enumerated.
use vstd::prelude::*;
use crate::values::{Value, ValueModel, values_model};
use crate::clock::now_millis;

verus! {

/// A stored text with the absolute time (in milliseconds) at which it expires.
pub struct Item {
    pub value: String,
    pub expires: u64,
}

/// A stored record: expiring (`Exp`) or permanent (`Inf`).
pub enum StorageType {
    Exp(Item),
    Inf(String),
}

/// The content of a record.
pub enum Record {
    Permanent(Seq<char>),
    Expiring(Seq<char>, u64),
}

impl View for StorageType {
    type V = Record;

    open spec fn view(&self) -> Record {
        match self {
            StorageType::Exp(item) => Record::Expiring(item.value@, item.expires),
            StorageType::Inf(v) => Record::Permanent(v@),
        }
    }
}

/// True when the record still holds at time `now`.
pub open spec fn is_live(r: Record, now: u64) -> bool {
    match r {
        Record::Permanent(_) => true,
        Record::Expiring(_, t) => now < t,
    }
}

/// The records of `m` that still hold at time `now`.
pub open spec fn live_part(m: Map<Seq<char>, Record>, now: u64) -> Map<Seq<char>, Record> {
    Map::new(|k: Seq<char>| m.contains_key(k) && is_live(m[k], now), |k: Seq<char>| m[k])
}

/// True when no two entries share a key.
pub open spec fn unique_keys(es: Seq<(Seq<char>, Record)>) -> bool {
    forall|i: int, j: int| 0 <= i < es.len() && 0 <= j < es.len() && i != j ==> es[i].0 != es[j].0
}

/// True when some entry has key `k`.
pub open spec fn has_key(es: Seq<(Seq<char>, Record)>, k: Seq<char>) -> bool {
    exists|i: int| 0 <= i < es.len() && es[i].0 == k
}

/// The map that a sequence of entries with unique keys stands for.
pub open spec fn entries_map(es: Seq<(Seq<char>, Record)>) -> Map<Seq<char>, Record> {
    Map::new(
        |k: Seq<char>| has_key(es, k),
        |k: Seq<char>| es[choose|i: int| 0 <= i < es.len() && es[i].0 == k].1,
    )
}

/// With unique keys, each entry is what the map holds under its key.
pub proof fn lemma_entries_map_index(es: Seq<(Seq<char>, Record)>, i: int)
    requires
        unique_keys(es),
        0 <= i < es.len(),
    ensures
        entries_map(es).contains_key(es[i].0),
        entries_map(es)[es[i].0] == es[i].1,
{
    assert(has_key(es, es[i].0));
    let j = choose|j: int| 0 <= j < es.len() && es[j].0 == es[i].0;
    assert(j == i);
}

/// Replacing the entry of a key replaces its record in the map.
pub proof fn lemma_entries_map_update(es: Seq<(Seq<char>, Record)>, i: int, e: (Seq<char>, Record))
    requires
        unique_keys(es),
        0 <= i < es.len(),
        es[i].0 == e.0,
    ensures
        unique_keys(es.update(i, e)),
        entries_map(es.update(i, e)) == entries_map(es).insert(e.0, e.1),
{
    let fs = es.update(i, e);
    assert(unique_keys(fs));
    assert forall|k: Seq<char>| has_key(fs, k) == has_key(es, k) by {
        if has_key(es, k) {
            let j = choose|j: int| 0 <= j < es.len() && es[j].0 == k;
            assert(fs[j].0 == k);
        }
        if has_key(fs, k) {
            let j = choose|j: int| 0 <= j < fs.len() && fs[j].0 == k;
            assert(es[j].0 == k);
        }
    }
    assert forall|k: Seq<char>| #[trigger] entries_map(fs).contains_key(k) implies entries_map(fs)[k]
        == entries_map(es).insert(e.0, e.1)[k] by {
        let j = choose|j: int| 0 <= j < fs.len() && fs[j].0 == k;
        lemma_entries_map_index(fs, j);
        if j != i {
            lemma_entries_map_index(es, j);
        }
    }
    assert(has_key(es, e.0)) by {
        assert(es[i].0 == e.0);
    }
    assert(entries_map(fs) =~= entries_map(es).insert(e.0, e.1));
}

/// Appending an entry with a new key adds it to the map.
pub proof fn lemma_entries_map_push(es: Seq<(Seq<char>, Record)>, e: (Seq<char>, Record))
    requires
        unique_keys(es),
        !has_key(es, e.0),
    ensures
        unique_keys(es.push(e)),
        entries_map(es.push(e)) == entries_map(es).insert(e.0, e.1),
{
    let fs = es.push(e);
    assert(unique_keys(fs)) by {
        assert forall|i: int, j: int| 0 <= i < fs.len() && 0 <= j < fs.len() && i != j implies fs[i].0
            != fs[j].0 by {
            if i < es.len() && j < es.len() {
                assert(fs[i] == es[i] && fs[j] == es[j]);
            } else if i < es.len() {
                assert(fs[i] == es[i]);
            } else {
                assert(fs[j] == es[j]);
            }
        }
    }
    assert forall|k: Seq<char>| has_key(fs, k) == (has_key(es, k) || k == e.0) by {
        if has_key(es, k) {
            let j = choose|j: int| 0 <= j < es.len() && es[j].0 == k;
            assert(fs[j].0 == k);
        }
        if k == e.0 {
            assert(fs[es.len() as int].0 == k);
        }
        if has_key(fs, k) && k != e.0 {
            let j = choose|j: int| 0 <= j < fs.len() && fs[j].0 == k;
            assert(es[j].0 == k);
        }
    }
    assert forall|k: Seq<char>| #[trigger] entries_map(fs).contains_key(k) implies entries_map(fs)[k]
        == entries_map(es).insert(e.0, e.1)[k] by {
        let j = choose|j: int| 0 <= j < fs.len() && fs[j].0 == k;
        lemma_entries_map_index(fs, j);
        if j < es.len() {
            assert(fs[j] == es[j]);
            lemma_entries_map_index(es, j);
        }
    }
    assert(entries_map(fs) =~= entries_map(es).insert(e.0, e.1));
}

/// Removing the entry at `i` removes its key from the map.
pub proof fn lemma_entries_map_remove(es: Seq<(Seq<char>, Record)>, i: int)
    requires
        unique_keys(es),
        0 <= i < es.len(),
    ensures
        unique_keys(es.remove(i)),
        entries_map(es.remove(i)) == entries_map(es).remove(es[i].0),
{
    let fs = es.remove(i);
    let k0 = es[i].0;
    assert forall|a: int, b: int| 0 <= a < fs.len() && 0 <= b < fs.len() && a != b implies fs[a].0
        != fs[b].0 by {
        let a2 = if a < i { a } else { a + 1 };
        let b2 = if b < i { b } else { b + 1 };
        assert(fs[a] == es[a2] && fs[b] == es[b2]);
    }
    assert forall|k: Seq<char>| has_key(fs, k) == (has_key(es, k) && k != k0) by {
        if has_key(es, k) && k != k0 {
            let j = choose|j: int| 0 <= j < es.len() && es[j].0 == k;
            if j < i {
                assert(fs[j].0 == k);
            } else {
                assert(fs[j - 1].0 == k);
            }
        }
        if has_key(fs, k) {
            let j = choose|j: int| 0 <= j < fs.len() && fs[j].0 == k;
            let j2 = if j < i { j } else { j + 1 };
            assert(es[j2].0 == k);
        }
    }
    assert forall|k: Seq<char>| #[trigger] entries_map(fs).contains_key(k) implies entries_map(fs)[k]
        == entries_map(es).remove(k0)[k] by {
        let j = choose|j: int| 0 <= j < fs.len() && fs[j].0 == k;
        lemma_entries_map_index(fs, j);
        let j2 = if j < i { j } else { j + 1 };
        assert(fs[j] == es[j2]);
        lemma_entries_map_index(es, j2);
    }
    assert(entries_map(fs) =~= entries_map(es).remove(k0));
}

#[verifier::external_type_specification]
#[verifier::external_body]
pub struct ExRegex(regex::Regex);

/// Whether `regex::Regex::new` accepts the pattern text `p`.
pub uninterp spec fn pattern_valid(p: Seq<char>) -> bool;

/// Whether the regular expression `p` matches somewhere in `s`.
pub uninterp spec fn pattern_matches(p: Seq<char>, s: Seq<char>) -> bool;

/// A compiled regular expression together with its source text.
pub struct Pattern {
    source: String,
    re: regex::Regex,
}

impl Pattern {
    /// The source text the expression was compiled from.
    pub closed spec fn source(&self) -> Seq<char> {
        self.source@
    }
}

/// Relies on `regex::Regex::new`: it accepts or refuses a pattern by its text alone.
#[verifier::external_body]
fn compile_pattern(p: &String) -> (r: Option<Pattern>)
    ensures
        r is Some <==> pattern_valid(p@),
        r matches Some(c) ==> c.source() == p@,
{
    match regex::Regex::new(p) {
        Ok(re) => Some(Pattern { source: p.clone(), re }),
        Err(_) => None,
    }
}

/// Relies on `regex::Regex::is_match`: whether the expression matches somewhere in `s`,
/// which depends on the expression's source and on `s` alone.
#[verifier::external_body]
fn pattern_is_match(c: &Pattern, s: &String) -> (r: bool)
    ensures
        r == pattern_matches(c.source(), s@),
{
    c.re.is_match(s)
}

/// The texts of a sequence of values that are all bulk strings.
pub open spec fn bulk_texts(items: Seq<ValueModel>) -> Seq<Seq<char>> {
    items.map_values(|v: ValueModel| v->Bulk_0)
}

/// True when `r` is an array of distinct bulk strings that are exactly the keys of
/// `m` that the pattern `p` matches.
pub open spec fn lists_matching_keys(m: Map<Seq<char>, Record>, p: Seq<char>, r: ValueModel) -> bool {
    &&& r is Array
    &&& forall|i: int| 0 <= i < r->Array_0.len() ==> (#[trigger] r->Array_0[i]) is Bulk
    &&& bulk_texts(r->Array_0).no_duplicates()
    &&& forall|k: Seq<char>| #[trigger] bulk_texts(r->Array_0).contains(k) <==> m.contains_key(k)
        && pattern_matches(p, k)
}

/// The store: each key holds at most one record.
pub struct Storage {
    storage: Vec<(String, StorageType)>,
}

impl View for Storage {
    type V = Map<Seq<char>, Record>;

    open spec fn view(&self) -> Map<Seq<char>, Record> {
        entries_map(self.entries())
    }
}

impl Storage {
    /// The entries as key texts and records.
    pub closed spec fn entries(&self) -> Seq<(Seq<char>, Record)> {
        self.storage@.map_values(|e: (String, StorageType)| (e.0@, e.1@))
    }

    /// The store's invariant: no key occurs twice.
    pub open spec fn wf(&self) -> bool {
        unique_keys(self.entries())
    }

    /// An empty store.
    pub fn new() -> (r: Self)
        ensures
            r.wf(),
            r@ == Map::<Seq<char>, Record>::empty(),
    {
        let r = Storage { storage: Vec::new() };
        assert(r@ =~= Map::<Seq<char>, Record>::empty());
        r
    }

    /// The number of entries.
    pub fn len(&self) -> (r: usize)
        ensures
            r == self.entries().len(),
    {
        self.storage.len()
    }

    /// The key and record of entry `i`.
    pub fn entry(&self, i: usize) -> (r: (&String, &StorageType))
        requires
            i < self.entries().len(),
        ensures
            r.0@ == self.entries()[i as int].0,
            r.1@ == self.entries()[i as int].1,
    {
        let e = &self.storage[i];
        (&e.0, &e.1)
    }

    /// Stores `data` under `k`, replacing any record it had.
    pub fn put(&mut self, k: String, data: StorageType)
        requires
            old(self).wf(),
        ensures
            final(self).wf(),
            final(self)@ == old(self)@.insert(k@, data@),
    {
        let ghost rec = data@;
        let ghost es = self.entries();
        match self.find(&k) {
            Some(i) => {
                proof {
                    lemma_entries_map_update(es, i as int, (k@, rec));
                }
                self.storage.set(i, (k, data));
                assert(self.entries() =~= es.update(i as int, (k@, rec)));
            },
            None => {
                proof {
                    lemma_entries_map_push(es, (k@, rec));
                }
                self.storage.push((k, data));
                assert(self.entries() =~= es.push((k@, rec)));
            },
        }
    }

    /// The index of the entry with key `k`, if there is one.
    fn find(&self, k: &String) -> (r: Option<usize>)
        requires
            self.wf(),
        ensures
            match r {
                Some(i) => i < self.entries().len() && self.entries()[i as int].0 == k@,
                None => !has_key(self.entries(), k@),
            },
    {
        let mut i: usize = 0;
        while i < self.storage.len()
            invariant
                0 <= i <= self.storage@.len(),
                forall|j: int| 0 <= j < i ==> self.entries()[j].0 != k@,
            decreases self.storage@.len() - i,
        {
            if self.storage[i].0 == *k {
                return Some(i);
            }
            i = i + 1;
        }
        None
    }

    /// Stores `data` under `key` (a bulk string), replacing any record it had, and
    /// acknowledges with "OK"; a key of another kind stores nothing and gives `Null`.
    pub fn set(&mut self, data: StorageType, key: Value) -> (r: Value)
        requires
            old(self).wf(),
        ensures
            final(self).wf(),
            match key@ {
                ValueModel::Bulk(k) => final(self)@ == old(self)@.insert(k, data@) && r@
                    == ValueModel::Simple(seq!['O', 'K']),
                _ => final(self)@ == old(self)@ && r@ == ValueModel::Null,
            },
    {
        let k = match key {
            Value::BulkString(k) => k,
            _ => return Value::Null,
        };
        self.put(k, data);
        Value::SimpleString(ok_text())
    }

    /// Reads `key` (a bulk string) at time `now`: the stored text, or `Null` when the
    /// key is absent or its record has expired, in which case the record is removed.
    pub fn get_at(&mut self, key: Value, now: u64) -> (r: Value)
        requires
            old(self).wf(),
        ensures
            final(self).wf(),
            get_outcome(old(self)@, key@, now, final(self)@, r@),
    {
        let k = match key {
            Value::BulkString(k) => k,
            _ => return Value::Null,
        };
        let ghost es = self.entries();
        match self.find(&k) {
            None => Value::Null,
            Some(i) => {
                proof {
                    lemma_entries_map_index(es, i as int);
                }
                let expired = match &self.storage[i].1 {
                    StorageType::Exp(item) => item.expires <= now,
                    StorageType::Inf(_) => false,
                };
                if expired {
                    proof {
                        lemma_entries_map_remove(es, i as int);
                    }
                    self.storage.remove(i);
                    assert(self.entries() =~= es.remove(i as int));
                    Value::Null
                } else {
                    match &self.storage[i].1 {
                        StorageType::Exp(item) => Value::BulkString(item.value.clone()),
                        StorageType::Inf(v) => Value::BulkString(v.clone()),
                    }
                }
            },
        }
    }

    /// Reads `key` at the current time of the wall clock (see `get_at`).
    pub fn get(&mut self, key: Value) -> (r: Value)
        requires
            old(self).wf(),
        ensures
            final(self).wf(),
            exists|now: u64| get_outcome(old(self)@, key@, now, final(self)@, r@),
    {
        let now = now_millis();
        self.get_at(key, now)
    }

    /// Lists the live keys that the regular expression `pattern` (a bulk string)
    /// matches at time `now`, after removing every expired record. An invalid
    /// pattern, or a pattern of another kind, gives `Null` and changes nothing.
    pub fn keys_at(&mut self, pattern: Value, now: u64) -> (r: Value)
        requires
            old(self).wf(),
        ensures
            final(self).wf(),
            keys_outcome(old(self)@, pattern@, now, final(self)@, r@),
    {
        let p = match pattern {
            Value::BulkString(p) => p,
            _ => return Value::Null,
        };
        let c = match compile_pattern(&p) {
            Some(c) => c,
            None => return Value::Null,
        };
        self.evict_expired(now);
        let ghost es = self.entries();
        let mut out: Vec<Value> = Vec::new();
        let mut i: usize = 0;
        while i < self.storage.len()
            invariant
                self.wf(),
                es == self.entries(),
                c.source() == p@,
                0 <= i <= self.storage@.len(),
                forall|j: int| 0 <= j < out@.len() ==> (#[trigger] out@[j]) is BulkString,
                bulk_texts(values_model(out@)).no_duplicates(),
                forall|k: Seq<char>| #[trigger] bulk_texts(values_model(out@)).contains(k)
                    <==> (exists|j: int| 0 <= j < i && es[j].0 == k) && pattern_matches(p@, k),
            decreases self.storage@.len() - i,
        {
            let ghost before = bulk_texts(values_model(out@));
            let ghost ki = es[i as int].0;
            assert(ki == self.storage@[i as int].0@);
            if pattern_is_match(&c, &self.storage[i].0) {
                let key = self.storage[i].0.clone();
                out.push(Value::BulkString(key));
                proof {
                    assert(pattern_matches(p@, ki));
                    let after = bulk_texts(values_model(out@));
                    assert(after =~= before.push(ki));
                    assert(!before.contains(ki)) by {
                        if before.contains(ki) {
                            let j = choose|j: int| 0 <= j < i && es[j].0 == ki;
                            assert(j != i);
                        }
                    }
                    assert forall|a: int, b: int| 0 <= a < after.len() && 0 <= b < after.len() && a != b
                        implies after[a] != after[b] by {
                        if a == before.len() {
                            assert(before.contains(after[b]));
                        } else if b == before.len() {
                            assert(before.contains(after[a]));
                        }
                    }
                    assert forall|k: Seq<char>| #[trigger] after.contains(k) <==> (exists|j: int|
                        0 <= j < i + 1 && es[j].0 == k) && pattern_matches(p@, k) by {
                        if k == ki {
                            assert(after[before.len() as int] == k);
                            assert(es[i as int].0 == k);
                        } else {
                            if after.contains(k) {
                                let a = choose|a: int| 0 <= a < after.len() && after[a] == k;
                                assert(a < before.len());
                                assert(before[a] == k);
                                assert(before.contains(k));
                                let j = choose|j: int| 0 <= j < i && es[j].0 == k;
                                assert(0 <= j < i + 1 && es[j].0 == k);
                            }
                            if (exists|j: int| 0 <= j < i + 1 && es[j].0 == k) && pattern_matches(p@, k) {
                                let j = choose|j: int| 0 <= j < i + 1 && es[j].0 == k;
                                assert(j < i);
                                assert(before.contains(k));
                                let a = choose|a: int| 0 <= a < before.len() && before[a] == k;
                                assert(after[a] == k);
                            }
                        }
                    }
                }
            } else {
                proof {
                    assert forall|k: Seq<char>| #[trigger] before.contains(k) <==> (exists|j: int|
                        0 <= j < i + 1 && es[j].0 == k) && pattern_matches(p@, k) by {
                        if (exists|j: int| 0 <= j < i + 1 && es[j].0 == k) && pattern_matches(p@, k) {
                            let j = choose|j: int| 0 <= j < i + 1 && es[j].0 == k;
                            assert(j < i);
                        }
                    }
                }
            }
            i = i + 1;
        }
        let ghost items = values_model(out@);
        let r = Value::Array(out);
        proof {
            assert(r@->Array_0 =~= items);
            assert forall|k: Seq<char>| (exists|j: int| 0 <= j < es.len() && es[j].0 == k) == self@.contains_key(k) by {}
        }
        r
    }

    /// Lists the matching live keys at the current time of the wall clock (see `keys_at`).
    pub fn keys(&mut self, pattern: Value) -> (r: Value)
        requires
            old(self).wf(),
        ensures
            final(self).wf(),
            exists|now: u64| keys_outcome(old(self)@, pattern@, now, final(self)@, r@),
    {
        let now = now_millis();
        self.keys_at(pattern, now)
    }

    /// Removes every record that has expired at time `now`.
    pub fn evict_expired(&mut self, now: u64)
        requires
            old(self).wf(),
        ensures
            final(self).wf(),
            final(self)@ == live_part(old(self)@, now),
    {
        let ghost m0 = self@;
        let mut i: usize = 0;
        while i < self.storage.len()
            invariant
                self.wf(),
                0 <= i <= self.storage@.len(),
                forall|j: int| 0 <= j < i ==> is_live(#[trigger] self.entries()[j].1, now),
                forall|k: Seq<char>| #[trigger] self@.contains_key(k) ==> m0.contains_key(k) && self@[k] == m0[k],
                forall|k: Seq<char>| #[trigger] m0.contains_key(k) && is_live(m0[k], now) ==> self@.contains_key(k),
                forall|k: Seq<char>| #[trigger] m0.contains_key(k) && !is_live(m0[k], now) && self@.contains_key(k)
                    ==> exists|j: int| i <= j < self.entries().len() && self.entries()[j].0 == k,
            decreases self.storage@.len() - i,
        {
            let ghost es = self.entries();
            let ghost m1 = self@;
            let expired = match &self.storage[i].1 {
                StorageType::Exp(item) => item.expires <= now,
                StorageType::Inf(_) => false,
            };
            proof {
                lemma_entries_map_index(es, i as int);
            }
            if expired {
                proof {
                    lemma_entries_map_remove(es, i as int);
                }
                self.storage.remove(i);
                assert(self.entries() =~= es.remove(i as int));
                proof {
                    assert(self@ == entries_map(es).remove(es[i as int].0));
                    assert forall|k: Seq<char>| #[trigger] self@.contains_key(k) implies m0.contains_key(k)
                        && self@[k] == m0[k] by {
                        assert(m1.contains_key(k));
                    }
                    assert forall|j: int| 0 <= j < i implies is_live(#[trigger] self.entries()[j].1, now) by {
                        assert(self.entries()[j] == es[j]);
                    }
                    assert forall|k: Seq<char>| #[trigger] m0.contains_key(k) && !is_live(m0[k], now)
                        && self@.contains_key(k) implies exists|j: int| i <= j < self.entries().len()
                        && self.entries()[j].0 == k by {
                        let j = choose|j: int| i <= j < es.len() && es[j].0 == k;
                        assert(j != i);
                        assert(self.entries()[j - 1] == es[j]);
                    }
                }
            } else {
                proof {
                    assert forall|k: Seq<char>| #[trigger] m0.contains_key(k) && !is_live(m0[k], now)
                        && self@.contains_key(k) implies exists|j: int| i + 1 <= j < self.entries().len()
                        && self.entries()[j].0 == k by {
                        let j = choose|j: int| i <= j < es.len() && es[j].0 == k;
                        if j == i {
                            assert(m0[k] == es[i as int].1);
                        }
                    }
                }
                i = i + 1;
            }
        }
        proof {
            assert forall|k: Seq<char>| #[trigger] self@.contains_key(k) implies is_live(self@[k], now) by {
                let j = choose|j: int| 0 <= j < self.entries().len() && self.entries()[j].0 == k;
                lemma_entries_map_index(self.entries(), j);
            }
        }
        assert(self@ =~= live_part(m0, now));
    }
}

/// What listing the keys that `pattern` matches at time `now` does: from the store
/// `before` it leaves `after` and answers `r`.
pub open spec fn keys_outcome(
    before: Map<Seq<char>, Record>,
    pattern: ValueModel,
    now: u64,
    after: Map<Seq<char>, Record>,
    r: ValueModel,
) -> bool {
    match pattern {
        ValueModel::Bulk(p) => if pattern_valid(p) {
            after == live_part(before, now) && lists_matching_keys(after, p, r)
        } else {
            after == before && r == ValueModel::Null
        },
        _ => after == before && r == ValueModel::Null,
    }
}

/// What reading `key` at time `now` does: from the store `before` it leaves `after`
/// and answers `r`.
pub open spec fn get_outcome(
    before: Map<Seq<char>, Record>,
    key: ValueModel,
    now: u64,
    after: Map<Seq<char>, Record>,
    r: ValueModel,
) -> bool {
    match key {
        ValueModel::Bulk(k) => if !before.contains_key(k) {
            after == before && r == ValueModel::Null
        } else {
            match before[k] {
                Record::Permanent(v) => after == before && r == ValueModel::Bulk(v),
                Record::Expiring(v, t) => if t <= now {
                    after == before.remove(k) && r == ValueModel::Null
                } else {
                    after == before && r == ValueModel::Bulk(v)
                },
            }
        },
        _ => after == before && r == ValueModel::Null,
    }
}

/// The text "OK".
pub fn ok_text() -> (r: String)
    ensures
        r@ == seq!['O', 'K'],
{
    let r = String::from_str("OK");
    proof {
        reveal_strlit("OK");
    }
    r
}


/// Reading a key just after storing a text under it that expires at `t` gives the
/// text while the time is before `t`; from `t` on the read finds nothing and the
/// record is gone, and every later read finds nothing too.
pub proof fn read_after_expiring_write(
    m: Map<Seq<char>, Record>,
    k: Seq<char>,
    v: Seq<char>,
    t: u64,
    now1: u64,
    after1: Map<Seq<char>, Record>,
    r1: ValueModel,
    now2: u64,
    after2: Map<Seq<char>, Record>,
    r2: ValueModel,
)
    requires
        get_outcome(m.insert(k, Record::Expiring(v, t)), ValueModel::Bulk(k), now1, after1, r1),
        get_outcome(after1, ValueModel::Bulk(k), now2, after2, r2),
        now1 <= now2,
    ensures
        now1 < t ==> r1 == ValueModel::Bulk(v) && after1 == m.insert(k, Record::Expiring(v, t)),
        t <= now1 ==> r1 == ValueModel::Null && !after1.contains_key(k),
        t <= now2 ==> r2 == ValueModel::Null && !after2.contains_key(k),
{
    assert(m.insert(k, Record::Expiring(v, t))[k] == Record::Expiring(v, t));
    if t <= now1 {
        assert(!after1.contains_key(k));
    }
}

/// Writing a key twice leaves one record under it: the second one.
pub proof fn second_write_wins(m: Map<Seq<char>, Record>, k: Seq<char>, first: Record, second: Record)
    ensures
        m.insert(k, first).insert(k, second) == m.insert(k, second),
        m.insert(k, first).insert(k, second)[k] == second,
        m.insert(k, first).insert(k, second).dom() == m.dom().insert(k),
{
    assert(m.insert(k, first).insert(k, second) =~= m.insert(k, second));
}

} // verus!
