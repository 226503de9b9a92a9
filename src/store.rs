use vstd::prelude::*;

verus! {

/// What the store holds for a key: the value, and the instant (in milliseconds) from
/// which it reads as absent, if any.
pub struct StoredValue {
    pub value: Seq<char>,
    pub expiry: Option<int>,
}

/// Whether a stored value can be read at instant `now`.
pub open spec fn is_live(v: StoredValue, now: int) -> bool {
    match v.expiry {
        None => true,
        Some(e) => now < e,
    }
}

/// The expiry that a time to live gives when it is set at instant `now`.
pub open spec fn expiry_of(ttl: Option<u64>, now: u64) -> Option<int> {
    match ttl {
        Some(t) => Some(now + t),
        None => None,
    }
}

/// The store after `SET key value` with an optional time to live, at instant `now`.
pub open spec fn put_model(
    m: Map<Seq<char>, StoredValue>,
    key: Seq<char>,
    value: Seq<char>,
    ttl: Option<u64>,
    now: u64,
) -> Map<Seq<char>, StoredValue> {
    m.insert(key, StoredValue { value, expiry: expiry_of(ttl, now) })
}

/// What `GET key` reads at instant `now`.
pub open spec fn get_model(m: Map<Seq<char>, StoredValue>, key: Seq<char>, now: u64) -> Option<
    Seq<char>,
> {
    if m.contains_key(key) && is_live(m[key], now as int) {
        Some(m[key].value)
    } else {
        None
    }
}

/// A value set with a time to live of `ttl` milliseconds at instant `t0` reads back at
/// every instant before `t0 + ttl`, and reads as absent from `t0 + ttl` on.
pub proof fn lemma_ttl_liveness(
    m: Map<Seq<char>, StoredValue>,
    key: Seq<char>,
    value: Seq<char>,
    ttl: u64,
    t0: u64,
    t: u64,
)
    ensures
        t < t0 + ttl ==> get_model(put_model(m, key, value, Some(ttl), t0), key, t) == Some(
            value,
        ),
        t >= t0 + ttl ==> get_model(put_model(m, key, value, Some(ttl), t0), key, t) is None,
{
}

/// Setting a key without a time to live drops the expiry of the value it replaces: the new
/// value reads back at every instant.
pub proof fn lemma_overwrite_clears_ttl(
    m: Map<Seq<char>, StoredValue>,
    key: Seq<char>,
    v1: Seq<char>,
    v2: Seq<char>,
    ttl: u64,
    t1: u64,
    t2: u64,
    t: u64,
)
    ensures
        get_model(put_model(put_model(m, key, v1, Some(ttl), t1), key, v2, None, t2), key, t)
            == Some(v2),
{
}

/// One `SET` of `key`: the value, the time to live, and the instant it runs at.
pub struct Write {
    pub value: Seq<char>,
    pub ttl: Option<u64>,
    pub now: u64,
}

/// The store after the `SET`s of `key`, run one at a time in the order given.
pub open spec fn put_all(m: Map<Seq<char>, StoredValue>, key: Seq<char>, writes: Seq<Write>) -> Map<
    Seq<char>,
    StoredValue,
>
    decreases writes.len(),
{
    if writes.len() == 0 {
        m
    } else {
        let w = writes.last();
        put_model(put_all(m, key, writes.drop_last()), key, w.value, w.ttl, w.now)
    }
}

/// Whatever order concurrent `SET`s of one key run in, each as a whole, the key ends up
/// holding the value of the last to run: one of the values submitted, never a mixture.
pub proof fn lemma_sets_atomic(m: Map<Seq<char>, StoredValue>, key: Seq<char>, writes: Seq<Write>)
    requires
        writes.len() > 0,
    ensures
        put_all(m, key, writes).contains_key(key),
        put_all(m, key, writes)[key].value == writes.last().value,
        exists|i: int| 0 <= i < writes.len() && put_all(m, key, writes)[key].value == #[trigger] writes[i].value,
{
    assert(put_all(m, key, writes)[key].value == writes[writes.len() - 1].value);
}

struct Value {
    value: String,
    /// Absolute expiry instant, in milliseconds.
    expiration: Option<u128>,
}

impl Value {
    spec fn model(&self) -> StoredValue {
        StoredValue {
            value: self.value@,
            expiry: match self.expiration {
                Some(e) => Some(e as int),
                None => None,
            },
        }
    }

    fn is_expired(&self, now: u64) -> (r: bool)
        ensures
            r == !is_live(self.model(), now as int),
    {
        match self.expiration {
            None => false,
            Some(expiration) => now as u128 >= expiration,
        }
    }
}

spec fn map_of(s: Seq<(String, Value)>) -> Map<Seq<char>, StoredValue>
    decreases s.len(),
{
    if s.len() == 0 {
        Map::empty()
    } else {
        map_of(s.drop_last()).insert(s.last().0@, s.last().1.model())
    }
}

spec fn keys_unique(s: Seq<(String, Value)>) -> bool {
    forall|i: int, j: int| 0 <= i < j < s.len() ==> s[i].0@ != s[j].0@
}

proof fn lemma_map_of_absent(s: Seq<(String, Value)>, k: Seq<char>)
    requires
        forall|i: int| 0 <= i < s.len() ==> #[trigger] s[i].0@ != k,
    ensures
        !map_of(s).contains_key(k),
    decreases s.len(),
{
    if s.len() > 0 {
        lemma_map_of_absent(s.drop_last(), k);
    }
}

proof fn lemma_map_of_index(s: Seq<(String, Value)>, i: int)
    requires
        keys_unique(s),
        0 <= i < s.len(),
    ensures
        map_of(s).contains_key(s[i].0@),
        map_of(s)[s[i].0@] == s[i].1.model(),
    decreases s.len(),
{
    if i < s.len() - 1 {
        lemma_map_of_index(s.drop_last(), i);
    }
}

proof fn lemma_map_of_update(s: Seq<(String, Value)>, i: int, e: (String, Value))
    requires
        keys_unique(s),
        0 <= i < s.len(),
        e.0@ == s[i].0@,
    ensures
        map_of(s.update(i, e)) == map_of(s).insert(e.0@, e.1.model()),
    decreases s.len(),
{
    let t = s.update(i, e);
    if i == s.len() - 1 {
        assert(t.drop_last() == s.drop_last());
        lemma_map_of_absent(s.drop_last(), e.0@);
        assert(map_of(s).insert(e.0@, e.1.model()) == map_of(s.drop_last()).insert(
            e.0@,
            e.1.model(),
        ));
    } else {
        lemma_map_of_update(s.drop_last(), i, e);
        assert(t.drop_last() == s.drop_last().update(i, e));
        assert(map_of(t) == map_of(s.drop_last()).insert(e.0@, e.1.model()).insert(
            s.last().0@,
            s.last().1.model(),
        ));
        assert(map_of(t) == map_of(s).insert(e.0@, e.1.model()));
    }
}

/// The key-value store: each key at most once, expired values kept until overwritten.
pub struct Store {
    entries: Vec<(String, Value)>,
}

impl View for Store {
    type V = Map<Seq<char>, StoredValue>;

    closed spec fn view(&self) -> Map<Seq<char>, StoredValue> {
        map_of(self.entries@)
    }
}

impl Store {
    /// Each key is held at most once.
    pub closed spec fn wf(&self) -> bool {
        keys_unique(self.entries@)
    }

    pub fn new() -> (r: Store)
        ensures
            r.wf(),
            r@ == Map::<Seq<char>, StoredValue>::empty(),
    {
        Store { entries: Vec::new() }
    }

    fn find(&self, key: &String) -> (r: Option<usize>)
        ensures
            r matches Some(i) ==> i < self.entries@.len() && self.entries@[i as int].0@ == key@,
            r is None ==> forall|i: int|
                0 <= i < self.entries@.len() ==> #[trigger] self.entries@[i].0@ != key@,
    {
        let mut i: usize = 0;
        while i < self.entries.len()
            invariant
                i <= self.entries@.len(),
                forall|j: int| 0 <= j < i ==> #[trigger] self.entries@[j].0@ != key@,
            decreases self.entries.len() - i,
        {
            if self.entries[i].0 == *key {
                return Some(i);
            }
            i = i + 1;
        }
        None
    }

    /// Sets `key` to `value`, dropping any earlier value and expiry; with a time to live,
    /// the value expires that many milliseconds after `now`.
    pub fn put(&mut self, key: String, value: String, ttl: Option<u64>, now: u64)
        requires
            old(self).wf(),
        ensures
            final(self).wf(),
            final(self)@ == put_model(old(self)@, key@, value@, ttl, now),
    {
        let expiration = match ttl {
            Some(t) => Some(now as u128 + t as u128),
            None => None,
        };
        let ghost k = key@;
        let v = Value { value, expiration };
        assert(v.model() == StoredValue { value: v.value@, expiry: expiry_of(ttl, now) });
        match self.find(&key) {
            Some(i) => {
                let ghost s = self.entries@;
                proof {
                    lemma_map_of_update(s, i as int, (key, v));
                }
                self.entries.set(i, (key, v));
                assert(self.entries@ == s.update(i as int, (key, v)));
                assert(keys_unique(self.entries@)) by {
                    assert forall|a: int, b: int| 0 <= a < b < self.entries@.len() implies self.entries@[a].0@
                        != self.entries@[b].0@ by {
                        assert(s[a].0@ != s[b].0@);
                    }
                }
            },
            None => {
                let ghost s = self.entries@;
                self.entries.push((key, v));
                assert(self.entries@.drop_last() == s);
            },
        }
    }

    /// The value of `key`, unless it is absent or expired at instant `now`.
    pub fn get(&self, key: &String, now: u64) -> (r: Option<&String>)
        requires
            self.wf(),
        ensures
            r matches Some(v) ==> get_model(self@, key@, now) == Some(v@),
            r is None ==> get_model(self@, key@, now) is None,
    {
        match self.find(key) {
            Some(i) => {
                proof {
                    lemma_map_of_index(self.entries@, i as int);
                }
                let entry = &self.entries[i];
                if entry.1.is_expired(now) {
                    None
                } else {
                    Some(&entry.1.value)
                }
            },
            None => {
                proof {
                    lemma_map_of_absent(self.entries@, key@);
                }
                None
            },
        }
    }
}

} // verus!
