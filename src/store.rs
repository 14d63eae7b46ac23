use vstd::prelude::*;

use crate::value::{Tree, Value};

verus! {

/// A stored value and its optional deadline, on the mathematical side.
pub struct Entry {
    pub value: Tree,
    pub expiry: Option<nat>,
}

/// A value held by the store, with the absolute time (in milliseconds) at
/// which it expires, if any.
#[derive(Debug, PartialEq, Eq)]
pub struct StoredValue {
    pub value: Value,
    pub expiry: Option<u64>,
}

impl StoredValue {
    pub open spec fn view(self) -> Entry {
        Entry {
            value: self.value@,
            expiry: match self.expiry {
                Some(t) => Some(t as nat),
                None => None,
            },
        }
    }
}

/// An entry has expired once its deadline is at or before `now`.
pub open spec fn expired(e: Entry, now: nat) -> bool {
    match e.expiry {
        Some(d) => d <= now,
        None => false,
    }
}

/// What a read of `key` at time `now` sees.
pub open spec fn get_spec(m: Map<Seq<u8>, Entry>, key: Seq<u8>, now: nat) -> Option<Tree> {
    if m.contains_key(key) && !expired(m[key], now) {
        Some(m[key].value)
    } else {
        None
    }
}

/// The table after `key` is given `value`, expiring at `expiry`.
pub open spec fn set_spec(
    m: Map<Seq<u8>, Entry>,
    key: Seq<u8>,
    value: Tree,
    expiry: Option<nat>,
) -> Map<Seq<u8>, Entry> {
    m.insert(key, Entry { value, expiry })
}

/// The table after a sweep at time `now`: the entries that have not expired.
pub open spec fn sweep_spec(m: Map<Seq<u8>, Entry>, now: nat) -> Map<Seq<u8>, Entry> {
    m.restrict(m.dom().filter(|k: Seq<u8>| !expired(m[k], now)))
}

struct Slot {
    key: Vec<u8>,
    stored: StoredValue,
}

/// The table that the slots `s` describe: each key with its entry.
pub open spec fn table_of(s: Seq<(Seq<u8>, Entry)>) -> Map<Seq<u8>, Entry>
    decreases s.len(),
{
    if s.len() == 0 {
        Map::empty()
    } else {
        table_of(s.drop_last()).insert(s.last().0, s.last().1)
    }
}

pub open spec fn unique_keys(s: Seq<(Seq<u8>, Entry)>) -> bool {
    forall|i: int, j: int| 0 <= i < j < s.len() ==> #[trigger] s[i].0 != #[trigger] s[j].0
}

pub proof fn lemma_table_of(s: Seq<(Seq<u8>, Entry)>)
    requires
        unique_keys(s),
    ensures
        forall|k: Seq<u8>| #[trigger] table_of(s).contains_key(k) <==> exists|i: int| 0 <= i < s.len() && s[i].0 == k,
        forall|i: int| 0 <= i < s.len() ==> #[trigger] table_of(s)[s[i].0] == s[i].1,
    decreases s.len(),
{
    if s.len() > 0 {
        let t = s.drop_last();
        assert(unique_keys(t)) by {
            assert forall|i: int, j: int| 0 <= i < j < t.len() implies #[trigger] t[i].0 != #[trigger] t[j].0 by {
                assert(t[i] == s[i] && t[j] == s[j]);
            }
        }
        lemma_table_of(t);
        assert(table_of(s) == table_of(t).insert(s.last().0, s.last().1));
        assert forall|k: Seq<u8>| #[trigger] table_of(s).contains_key(k) <==> exists|i: int| 0 <= i < s.len() && s[i].0 == k by {
            if table_of(s).contains_key(k) && k != s.last().0 {
                assert(table_of(t).contains_key(k));
                let i = choose|i: int| 0 <= i < t.len() && t[i].0 == k;
                assert(s[i] == t[i]);
            }
            if exists|i: int| 0 <= i < s.len() && s[i].0 == k {
                let i = choose|i: int| 0 <= i < s.len() && s[i].0 == k;
                if i < s.len() - 1 {
                    assert(t[i] == s[i]);
                }
            }
        }
        assert forall|i: int| 0 <= i < s.len() implies #[trigger] table_of(s)[s[i].0] == s[i].1 by {
            if i < s.len() - 1 {
                assert(t[i] == s[i]);
                assert(s[i].0 != s[s.len() - 1].0);
            }
        }
    }
}

closed spec fn slot_views(s: Seq<Slot>) -> Seq<(Seq<u8>, Entry)> {
    Seq::new(s.len(), |i: int| (s[i].key@, s[i].stored@))
}

/// Replacing the entry of a key that is present changes that entry alone.
pub proof fn lemma_table_update(s: Seq<(Seq<u8>, Entry)>, i: int, e: Entry)
    requires
        unique_keys(s),
        0 <= i < s.len(),
    ensures
        unique_keys(s.update(i, (s[i].0, e))),
        table_of(s.update(i, (s[i].0, e))) == table_of(s).insert(s[i].0, e),
{
    let u = s.update(i, (s[i].0, e));
    assert(unique_keys(u)) by {
        assert forall|a: int, b: int| 0 <= a < b < u.len() implies #[trigger] u[a].0 != #[trigger] u[b].0 by {
            assert(u[a].0 == s[a].0 && u[b].0 == s[b].0);
        }
    }
    lemma_table_of(s);
    lemma_table_of(u);
    assert forall|k: Seq<u8>| #[trigger] table_of(u).contains_key(k) == table_of(s).insert(s[i].0, e).contains_key(k) by {
        if exists|j: int| 0 <= j < s.len() && s[j].0 == k {
            let j = choose|j: int| 0 <= j < s.len() && s[j].0 == k;
            assert(u[j].0 == k);
        }
        if exists|j: int| 0 <= j < u.len() && u[j].0 == k {
            let j = choose|j: int| 0 <= j < u.len() && u[j].0 == k;
            assert(s[j].0 == k);
        }
    }
    assert forall|k: Seq<u8>| #[trigger] table_of(u).contains_key(k) implies table_of(u)[k] == table_of(s).insert(s[i].0, e)[k] by {
        let j = choose|j: int| 0 <= j < u.len() && u[j].0 == k;
        assert(table_of(u)[u[j].0] == u[j].1);
        if j != i {
            assert(table_of(s)[s[j].0] == s[j].1);
        }
    }
    assert(table_of(u) =~= table_of(s).insert(s[i].0, e));
}

/// A key that is absent is added with its entry.
pub proof fn lemma_table_push(s: Seq<(Seq<u8>, Entry)>, k: Seq<u8>, e: Entry)
    requires
        unique_keys(s),
        !table_of(s).contains_key(k),
    ensures
        unique_keys(s.push((k, e))),
        table_of(s.push((k, e))) == table_of(s).insert(k, e),
{
    let p = s.push((k, e));
    lemma_table_of(s);
    assert(p.drop_last() =~= s);
    assert forall|a: int, b: int| 0 <= a < b < p.len() implies #[trigger] p[a].0 != #[trigger] p[b].0 by {
        if b == s.len() {
            assert(p[a] == s[a]);
        } else {
            assert(p[a] == s[a] && p[b] == s[b]);
        }
    }
}

/// Whether `a` and `b` hold the same bytes.
fn same_bytes(a: &Vec<u8>, b: &Vec<u8>) -> (r: bool)
    ensures
        r == (a@ == b@),
{
    if a.len() != b.len() {
        return false;
    }
    let mut i: usize = 0;
    while i < a.len()
        invariant
            0 <= i <= a@.len(),
            a@.len() == b@.len(),
            forall|j: int| 0 <= j < i ==> a@[j] == b@[j],
        decreases a@.len() - i,
    {
        if a[i] != b[i] {
            return false;
        }
        i = i + 1;
    }
    assert(a@ =~= b@);
    true
}

/// Whether an entry with this deadline has expired at `now`.
fn has_expired(expiry: Option<u64>, now: u64) -> (r: bool)
    ensures
        r == expired(Entry { value: Tree::Nil, expiry: match expiry {
            Some(t) => Some(t as nat),
            None => None,
        } }, now as nat),
{
    match expiry {
        Some(d) => d <= now,
        None => false,
    }
}

/// The key-value table: every key at most once.
pub struct Store {
    slots: Vec<Slot>,
}

impl Store {
    pub closed spec fn slots_view(self) -> Seq<(Seq<u8>, Entry)> {
        slot_views(self.slots@)
    }

    pub closed spec fn view(self) -> Map<Seq<u8>, Entry> {
        table_of(self.slots_view())
    }

    pub closed spec fn wf(self) -> bool {
        unique_keys(self.slots_view())
    }

    /// An empty table.
    pub fn new() -> (r: Store)
        ensures
            r.wf(),
            r@ == Map::<Seq<u8>, Entry>::empty(),
    {
        let r = Store { slots: Vec::new() };
        assert(r.slots_view() =~= Seq::empty());
        r
    }

    /// The slot that holds `key`, if any.
    fn find(&self, key: &Vec<u8>) -> (r: Option<usize>)
        requires
            self.wf(),
        ensures
            match r {
                Some(i) => i < self.slots@.len() && self.slots_view()[i as int].0 == key@,
                None => !self@.contains_key(key@),
            },
    {
        proof {
            lemma_table_of(self.slots_view());
        }
        let mut i: usize = 0;
        while i < self.slots.len()
            invariant
                0 <= i <= self.slots@.len(),
                forall|j: int| 0 <= j < i ==> self.slots_view()[j].0 != key@,
            decreases self.slots@.len() - i,
        {
            if same_bytes(&self.slots[i].key, key) {
                return Some(i);
            }
            i = i + 1;
        }
        None
    }

    /// Whether the table holds an entry for `key`, expired or not.
    pub fn contains_key(&self, key: &Vec<u8>) -> (r: bool)
        requires
            self.wf(),
        ensures
            r == self@.contains_key(key@),
    {
        proof {
            lemma_table_of(self.slots_view());
        }
        match self.find(key) {
            Some(i) => {
                assert(self.slots_view()[i as int].0 == key@);
                true
            },
            None => false,
        }
    }

    /// A copy of the value of `key`, unless it is absent or has expired at `now`.
    pub fn get(&self, key: &Vec<u8>, now: u64) -> (r: Option<Value>)
        requires
            self.wf(),
        ensures
            match r {
                Some(v) => get_spec(self@, key@, now as nat) == Some(v@),
                None => get_spec(self@, key@, now as nat) is None,
            },
    {
        proof {
            lemma_table_of(self.slots_view());
        }
        match self.find(key) {
            Some(i) => {
                assert(self@[key@] == self.slots_view()[i as int].1);
                if has_expired(self.slots[i].stored.expiry, now) {
                    None
                } else {
                    Some(self.slots[i].stored.value.deep_copy())
                }
            },
            None => None,
        }
    }

    /// Gives `key` the value `value`, expiring at `expiry`; whatever `key`
    /// held before is dropped.
    pub fn set(&mut self, key: Vec<u8>, value: Value, expiry: Option<u64>)
        requires
            old(self).wf(),
        ensures
            final(self).wf(),
            final(self)@ == set_spec(old(self)@, key@, value@, match expiry {
                Some(t) => Some(t as nat),
                None => None,
            }),
    {
        let ghost s = self.slots_view();
        let stored = StoredValue { value, expiry };
        match self.find(&key) {
            Some(i) => {
                let ghost e = stored@;
                self.slots[i] = Slot { key, stored };
                proof {
                    lemma_table_update(s, i as int, e);
                    assert(self.slots_view() =~= s.update(i as int, (s[i as int].0, e)));
                }
            },
            None => {
                let ghost k = key@;
                let ghost e = stored@;
                self.slots.push(Slot { key, stored });
                proof {
                    lemma_table_push(s, k, e);
                    assert(self.slots_view() =~= s.push((k, e)));
                }
            },
        }
    }

    /// Removes every entry that has expired at `now`; entries without a
    /// deadline stay.
    pub fn sweep(&mut self, now: u64)
        requires
            old(self).wf(),
        ensures
            final(self).wf(),
            final(self)@ == sweep_spec(old(self)@, now as nat),
    {
        let ghost s = self.slots_view();
        let mut rest: Vec<Slot> = Vec::new();
        std::mem::swap(&mut rest, &mut self.slots);
        let mut kept: Vec<Slot> = Vec::new();
        let mut i: usize = 0;
        assert(s.subrange(0, 0) =~= Seq::<(Seq<u8>, Entry)>::empty());
        while i < rest.len()
            invariant
                0 <= i <= rest@.len() == s.len(),
                forall|j: int| i <= j < s.len() ==> #[trigger] slot_views(rest@)[j] == s[j],
                slot_views(kept@) == live_slots(s.subrange(0, i as int), now as nat),
            decreases rest@.len() - i,
        {
            let ghost kv = slot_views(kept@);
            let mut slot = Slot { key: Vec::new(), stored: StoredValue { value: Value::Nil, expiry: None } };
            assert(slot_views(rest@)[i as int] == s[i as int]);
            let ghost r0 = rest@;
            std::mem::swap(&mut slot, &mut rest[i]);
            let ghost p = s.subrange(0, i + 1);
            assert(p.drop_last() =~= s.subrange(0, i as int));
            assert(p.last() == (slot.key@, slot.stored@));
            if !has_expired(slot.stored.expiry, now) {
                kept.push(slot);
                assert(slot_views(kept@) =~= kv.push(p.last()));
            }
            i = i + 1;
            assert forall|j: int| i <= j < s.len() implies #[trigger] slot_views(rest@)[j] == s[j] by {
                assert(rest@[j] == r0[j]);
                assert(slot_views(r0)[j] == s[j]);
            }
        }
        self.slots = kept;
        proof {
            assert(s.subrange(0, s.len() as int) =~= s);
            lemma_live_slots(s, now as nat);
        }
    }
}

/// The slots of `p` that have not expired at `now`, in their order.
pub open spec fn live_slots(p: Seq<(Seq<u8>, Entry)>, now: nat) -> Seq<(Seq<u8>, Entry)>
    decreases p.len(),
{
    if p.len() == 0 {
        Seq::empty()
    } else if expired(p.last().1, now) {
        live_slots(p.drop_last(), now)
    } else {
        live_slots(p.drop_last(), now).push(p.last())
    }
}

pub proof fn lemma_live_slots(p: Seq<(Seq<u8>, Entry)>, now: nat)
    requires
        unique_keys(p),
    ensures
        unique_keys(live_slots(p, now)),
        table_of(live_slots(p, now)) == sweep_spec(table_of(p), now),
    decreases p.len(),
{
    if p.len() == 0 {
        assert(sweep_spec(table_of(p), now) =~= Map::empty());
    } else {
        let q = p.drop_last();
        let x = p.last();
        assert(unique_keys(q)) by {
            assert forall|i: int, j: int| 0 <= i < j < q.len() implies #[trigger] q[i].0 != #[trigger] q[j].0 by {
                assert(q[i] == p[i] && q[j] == p[j]);
            }
        }
        lemma_live_slots(q, now);
        lemma_table_of(q);
        assert(!table_of(q).contains_key(x.0)) by {
            if table_of(q).contains_key(x.0) {
                let j = choose|j: int| 0 <= j < q.len() && q[j].0 == x.0;
                assert(p[j] == q[j]);
                assert(p[j].0 != p[p.len() - 1].0);
            }
        }
        let tq = table_of(q);
        assert(table_of(p) == tq.insert(x.0, x.1));
        if expired(x.1, now) {
            assert(sweep_spec(tq.insert(x.0, x.1), now) =~= sweep_spec(tq, now));
        } else {
            lemma_table_push(live_slots(q, now), x.0, x.1);
            assert(sweep_spec(tq.insert(x.0, x.1), now) =~= sweep_spec(tq, now).insert(x.0, x.1));
        }
    }
}

/// A read right after a write without deadline sees the written value, and
/// sees it again however often, and whenever, the read is repeated: a read
/// leaves the table as it is.
pub proof fn law_get_after_set(m: Map<Seq<u8>, Entry>, key: Seq<u8>, v: Tree, now: nat, later: nat)
    ensures
        get_spec(set_spec(m, key, v, None), key, now) == Some(v),
        get_spec(set_spec(m, key, v, None), key, later) == Some(v),
{
}

/// Of two writes to one key, a read sees the second.
pub proof fn law_last_write_wins(
    m: Map<Seq<u8>, Entry>,
    key: Seq<u8>,
    v1: Tree,
    d1: Option<nat>,
    v2: Tree,
    now: nat,
)
    ensures
        get_spec(set_spec(set_spec(m, key, v1, d1), key, v2, None), key, now) == Some(v2),
{
}

/// A read at or after the deadline of the entry sees nothing, whether or not
/// the entry has been swept.
pub proof fn law_expired_read(m: Map<Seq<u8>, Entry>, key: Seq<u8>, v: Tree, deadline: nat, now: nat)
    requires
        deadline <= now,
    ensures
        get_spec(set_spec(m, key, v, Some(deadline)), key, now) is None,
{
}

/// A sweep at or after the deadline of an entry removes it from the table.
pub proof fn law_sweep_removes(m: Map<Seq<u8>, Entry>, key: Seq<u8>, v: Tree, deadline: nat, now: nat)
    requires
        deadline <= now,
    ensures
        !sweep_spec(set_spec(m, key, v, Some(deadline)), now).contains_key(key),
{
}

/// The table after the writes `w`, in order, to one key.
pub open spec fn set_all(m: Map<Seq<u8>, Entry>, key: Seq<u8>, w: Seq<(Tree, Option<nat>)>) -> Map<Seq<u8>, Entry>
    decreases w.len(),
{
    if w.len() == 0 {
        m
    } else {
        set_spec(set_all(m, key, w.drop_last()), key, w.last().0, w.last().1)
    }
}

/// Writes to one key, in whatever order they take effect, leave one entry for
/// it, holding one of the written values (the one written last), and no other
/// key changes.
pub proof fn law_writes_to_one_key(m: Map<Seq<u8>, Entry>, key: Seq<u8>, w: Seq<(Tree, Option<nat>)>)
    requires
        w.len() > 0,
    ensures
        set_all(m, key, w).contains_key(key),
        set_all(m, key, w)[key] == (Entry { value: w.last().0, expiry: w.last().1 }),
        exists|i: int| 0 <= i < w.len() && set_all(m, key, w)[key].value == #[trigger] w[i].0,
        set_all(m, key, w).dom() == m.dom().insert(key),
        forall|k: Seq<u8>| k != key && m.contains_key(k) ==> #[trigger] set_all(m, key, w)[k] == m[k],
    decreases w.len(),
{
    let prev = set_all(m, key, w.drop_last());
    assert(set_all(m, key, w) == prev.insert(key, Entry { value: w.last().0, expiry: w.last().1 }));
    if w.len() > 1 {
        law_writes_to_one_key(m, key, w.drop_last());
        assert forall|k: Seq<u8>| k != key && m.contains_key(k) implies #[trigger] set_all(m, key, w)[k] == m[k] by {
            assert(prev[k] == m[k]);
        }
    } else {
        assert(prev == m);
    }
    assert(set_all(m, key, w)[key].value == w[w.len() - 1].0);
    assert(set_all(m, key, w).dom() =~= m.dom().insert(key));
}

} // verus!
