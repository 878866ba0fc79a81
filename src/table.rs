//! A fixed-capacity open-addressing table with linear probing.
//!
//! Keys and values are borrowed from the caller. A removed entry leaves a
//! tombstone behind, so the probe chains of the entries that remain stay
//! intact, and an insert of a key that is already present replaces its value.
use vstd::prelude::*;

use vstd::string::StringSliceAdditionalSpecFns;

use crate::value::{KType, KValue};

verus! {

/// The polynomial rolling hash of `key` into `[0, cap)`, reduced after
/// every character.
pub open spec fn hash_of(key: Seq<char>, cap: int) -> int
    decreases key.len(),
{
    if key.len() == 0 {
        0
    } else {
        (hash_of(key.drop_last(), cap) * 31 + key.last() as u32) % cap
    }
}

/// The slot that linear probing visits at `step` from `base`.
pub open spec fn probe(base: int, step: int, cap: int) -> int {
    (base + step) % cap
}

/// A key and a borrowed value, as held by one slot of a table.
#[derive(Clone, Copy, Debug)]
pub struct KData<'a> {
    pub key: &'a str,
    pub value: &'a KValue,
}

impl<'a> KData<'a> {
    pub fn new(key: &'a str, value: &'a KValue) -> (r: Self)
        ensures
            r.key == key,
            r.value == value,
    {
        KData { key, value }
    }
}

/// The state of one slot.
#[derive(Debug)]
enum Slot<'a> {
    Empty,
    Occupied(KData<'a>),
    Deleted,
}

/// What can go wrong in a table operation.
#[derive(Clone, Copy, Debug, PartialEq, Eq)]
pub enum TableError {
    /// No free slot is left for a new key.
    CapacityExceeded,
    /// The key is not in the table.
    NotFound,
    /// The key is in the table, but its value has another type.
    TypeMismatch,
}

/// What a lookup of `key` as type `T` gives on the contents `m`.
pub open spec fn lookup<T: KType>(m: Map<Seq<char>, KValue>, key: Seq<char>) -> Result<T, TableError> {
    if !m.contains_key(key) {
        Err(TableError::NotFound)
    } else {
        match T::cast_of(m[key]) {
            Some(x) => Ok(x),
            None => Err(TableError::TypeMismatch),
        }
    }
}

/// Whether an insert of `key` into a table with contents `m` and `cap` slots
/// finds room: the key is present already, or a slot is free.
pub open spec fn insert_fits(m: Map<Seq<char>, KValue>, cap: nat, key: Seq<char>) -> bool {
    m.contains_key(key) || m.len() < cap
}

/// Step `t` of the probe sequence of `key` is where an insert of `key`
/// lands: the first slot on the sequence that holds no entry.
pub open spec fn landing(layout: Seq<Option<Seq<char>>>, key: Seq<char>, t: int) -> bool {
    let n = layout.len() as int;
    &&& 0 <= t < n
    &&& layout[probe(hash_of(key, n), t, n)] is None
    &&& forall|u: int| 0 <= u < t ==> (#[trigger] layout[probe(hash_of(key, n), u, n)]) is Some
}

/// A table of borrowed keys and values with a capacity fixed at creation.
#[derive(Debug)]
pub struct KTable<'a> {
    size: usize,
    cycles: Vec<Slot<'a>>,
}

/// Whether slot `i` of `s` holds `key`.
spec fn holds_key(s: Seq<Slot>, i: int, key: Seq<char>) -> bool {
    s[i] matches Slot::Occupied(d) && d.key@ == key
}

/// The home slot of the entry in slot `i`.
spec fn home(s: Seq<Slot>, i: int) -> int {
    hash_of(s[i]->Occupied_0.key@, s.len() as int)
}

/// The number of probe steps from `base` to slot `i`.
spec fn dist(base: int, i: int, cap: int) -> int {
    if base <= i {
        i - base
    } else {
        i + cap - base
    }
}

/// No key is held by two slots.
spec fn keys_unique(s: Seq<Slot>) -> bool {
    forall|i: int, j: int|
        0 <= i < s.len() && 0 <= j < s.len() && #[trigger] s[i] is Occupied
            && #[trigger] s[j] is Occupied && s[i]->Occupied_0.key@ == s[j]->Occupied_0.key@
            ==> i == j
}

/// The probe step `t` from the home of slot `i` does not meet an empty slot.
spec fn passable(s: Seq<Slot>, i: int, t: int) -> bool {
    !(s[probe(home(s, i), t, s.len() as int)] is Empty)
}

/// Every entry is reached from its home slot without crossing an empty slot.
spec fn chains_intact(s: Seq<Slot>) -> bool {
    forall|i: int, t: int|
        0 <= i < s.len() && s[i] is Occupied && 0 <= t < dist(home(s, i), i, s.len() as int)
            ==> #[trigger] passable(s, i, t)
}

/// The entries of `s`, by key.
spec fn contents<'a>(s: Seq<Slot<'a>>) -> Map<Seq<char>, KValue> {
    Map::new(
        |k: Seq<char>| exists|i: int| 0 <= i < s.len() && holds_key(s, i, k),
        |k: Seq<char>| *s[choose|i: int| 0 <= i < s.len() && holds_key(s, i, k)]->Occupied_0.value,
    )
}

/// The key held by each slot, if any.
spec fn keys_of(s: Seq<Slot>) -> Seq<Option<Seq<char>>> {
    Seq::new(
        s.len(),
        |i: int|
            match s[i] {
                Slot::Occupied(d) => Some(d.key@),
                _ => None,
            },
    )
}

proof fn lemma_dist(base: int, i: int, cap: int)
    requires
        0 <= base < cap,
        0 <= i < cap,
    ensures
        0 <= dist(base, i, cap) < cap,
        probe(base, dist(base, i, cap), cap) == i,
{
    lemma_probe_small(base, dist(base, i, cap), cap);
}

proof fn lemma_contents_at<'a>(s: Seq<Slot<'a>>, i: int)
    requires
        keys_unique(s),
        0 <= i < s.len(),
        s[i] is Occupied,
    ensures
        contents(s).contains_key(s[i]->Occupied_0.key@),
        contents(s)[s[i]->Occupied_0.key@] == *s[i]->Occupied_0.value,
{
    let k = s[i]->Occupied_0.key@;
    assert(holds_key(s, i, k));
    let j = choose|j: int| 0 <= j < s.len() && holds_key(s, j, k);
    assert(s[j] is Occupied);
}

proof fn lemma_delete<'a>(s: Seq<Slot<'a>>, p: int)
    requires
        keys_unique(s),
        chains_intact(s),
        0 <= p < s.len(),
        s[p] is Occupied,
    ensures
        keys_unique(s.update(p, Slot::Deleted)),
        chains_intact(s.update(p, Slot::Deleted)),
        contents(s.update(p, Slot::Deleted)) == contents(s).remove(s[p]->Occupied_0.key@),
{
    let s2 = s.update(p, Slot::Deleted);
    let k = s[p]->Occupied_0.key@;
    let n = s.len() as int;
    assert forall|i: int, t: int|
        0 <= i < n && s2[i] is Occupied && 0 <= t < dist(home(s2, i), i, n) implies #[trigger] passable(s2, i, t) by {
        assert(passable(s, i, t));
    }
    assert forall|k2: Seq<char>| #[trigger] contents(s2).contains_key(k2) <==> contents(s).remove(k).contains_key(k2) by {
        if contents(s2).contains_key(k2) {
            let j = choose|j: int| 0 <= j < n && holds_key(s2, j, k2);
            assert(holds_key(s, j, k2));
        }
        if contents(s).remove(k).contains_key(k2) {
            let j = choose|j: int| 0 <= j < n && holds_key(s, j, k2);
            assert(holds_key(s2, j, k2));
        }
    }
    assert forall|k2: Seq<char>| #[trigger] contents(s2).contains_key(k2) implies contents(s2)[k2] == contents(s)[k2] by {
        let j = choose|j: int| 0 <= j < n && holds_key(s2, j, k2);
        lemma_contents_at(s2, j);
        lemma_contents_at(s, j);
    }
    assert(contents(s2) =~= contents(s).remove(k));
}

proof fn lemma_place<'a>(s: Seq<Slot<'a>>, p: int, d: KData<'a>)
    requires
        keys_unique(s),
        chains_intact(s),
        0 <= p < s.len(),
        holds_key(s, p, d.key@) || (s[p] !is Occupied && !contents(s).contains_key(d.key@)
            && forall|t: int|
            0 <= t < dist(hash_of(d.key@, s.len() as int), p, s.len() as int)
                ==> !(#[trigger] s[probe(hash_of(d.key@, s.len() as int), t, s.len() as int)] is Empty)),
    ensures
        keys_unique(s.update(p, Slot::Occupied(d))),
        chains_intact(s.update(p, Slot::Occupied(d))),
        contents(s.update(p, Slot::Occupied(d))) == contents(s).insert(d.key@, *d.value),
{
    let s2 = s.update(p, Slot::Occupied(d));
    let k = d.key@;
    let n = s.len() as int;
    let overwrite = holds_key(s, p, k);
    assert forall|i: int, j: int|
        0 <= i < n && 0 <= j < n && #[trigger] s2[i] is Occupied && #[trigger] s2[j] is Occupied
            && s2[i]->Occupied_0.key@ == s2[j]->Occupied_0.key@ implies i == j by {
        if i != p && j != p {
            assert(s[i] is Occupied && s[j] is Occupied);
        } else if i != p {
            assert(s[i] is Occupied);
            if !overwrite {
                assert(holds_key(s, i, k));
            }
        } else if j != p {
            assert(s[j] is Occupied);
            if !overwrite {
                assert(holds_key(s, j, k));
            }
        }
    }
    assert forall|i: int, t: int|
        0 <= i < n && s2[i] is Occupied && 0 <= t < dist(home(s2, i), i, n) implies #[trigger] passable(s2, i, t) by {
        if i != p || overwrite {
            assert(passable(s, i, t));
        } else {
            assert(!(s[probe(hash_of(k, n), t, n)] is Empty));
        }
    }
    assert forall|k2: Seq<char>| #[trigger] contents(s2).contains_key(k2) <==> contents(s).insert(k, *d.value).contains_key(k2) by {
        if contents(s2).contains_key(k2) && k2 != k {
            let j = choose|j: int| 0 <= j < n && holds_key(s2, j, k2);
            assert(holds_key(s, j, k2));
        }
        if contents(s).contains_key(k2) && k2 != k {
            let j = choose|j: int| 0 <= j < n && holds_key(s, j, k2);
            assert(holds_key(s2, j, k2));
        }
        if k2 == k {
            assert(holds_key(s2, p, k));
        }
    }
    assert forall|k2: Seq<char>| #[trigger] contents(s2).contains_key(k2) implies contents(s2)[k2] == contents(s).insert(k, *d.value)[k2] by {
        let j = choose|j: int| 0 <= j < n && holds_key(s2, j, k2);
        lemma_contents_at(s2, j);
        if j != p {
            lemma_contents_at(s, j);
        }
    }
    assert(contents(s2) =~= contents(s).insert(k, *d.value));
}

/// The slots that hold an entry.
spec fn occupied(s: Seq<Slot>) -> Set<int> {
    Set::new(|i: int| 0 <= i < s.len() && s[i] is Occupied)
}

proof fn lemma_len<'a>(s: Seq<Slot<'a>>)
    requires
        keys_unique(s),
    ensures
        contents(s).dom().finite(),
        contents(s).len() <= s.len(),
        contents(s).len() == s.len() <==> forall|i: int| 0 <= i < s.len() ==> #[trigger] s[i] is Occupied,
{
    let n = s.len() as int;
    let occ = occupied(s);
    let range = vstd::set_lib::set_int_range(0, n);
    let f = |i: int| s[i]->Occupied_0.key@;
    vstd::set_lib::lemma_int_range(0, n);
    vstd::set_lib::lemma_len_subset(occ, range);
    assert forall|k: Seq<char>| #[trigger] occ.map(f).contains(k) <==> contents(s).dom().contains(k) by {
        if contents(s).dom().contains(k) {
            let j = choose|j: int| 0 <= j < n && holds_key(s, j, k);
            assert(occ.contains(j) && f(j) == k);
        }
        if occ.map(f).contains(k) {
            let j = choose|j: int| occ.contains(j) && f(j) == k;
            assert(holds_key(s, j, k));
        }
    }
    assert(occ.map(f) =~= contents(s).dom());
    vstd::set_lib::lemma_map_size(occ, contents(s).dom(), f);
    if forall|i: int| 0 <= i < n ==> #[trigger] s[i] is Occupied {
        assert(occ =~= range);
    } else {
        let j = choose|j: int| 0 <= j < n && !(#[trigger] s[j] is Occupied);
        assert(range.remove(j).len() == n - 1);
        vstd::set_lib::lemma_len_subset(occ, range.remove(j));
    }
}

proof fn lemma_probe_dist(base: int, t: int, cap: int)
    requires
        0 <= base < cap,
        0 <= t < cap,
    ensures
        0 <= probe(base, t, cap) < cap,
        dist(base, probe(base, t, cap), cap) == t,
{
    lemma_probe_small(base, t, cap);
}

proof fn lemma_probe_small(base: int, step: int, cap: int)
    requires
        0 <= base < cap,
        0 <= step < cap,
    ensures
        probe(base, step, cap) == if base + step < cap {
            base + step
        } else {
            base + step - cap
        },
{
    if base + step < cap {
        vstd::arithmetic::div_mod::lemma_fundamental_div_mod_converse_mod(base + step, cap, 0, base + step);
    } else {
        vstd::arithmetic::div_mod::lemma_fundamental_div_mod_converse_mod(base + step, cap, 1, base + step - cap);
    }
}

impl<'a> View for KTable<'a> {
    type V = Map<Seq<char>, KValue>;

    closed spec fn view(&self) -> Map<Seq<char>, KValue> {
        contents(self.cycles@)
    }
}

/// Whether two strings have the same characters.
fn same_key(a: &str, b: &str) -> (r: bool)
    ensures
        r == (a@ == b@),
{
    let x = a.as_bytes();
    let y = b.as_bytes();
    if x.len() != y.len() {
        return false;
    }
    let mut i: usize = 0;
    while i < x.len()
        invariant
            x@ == a.spec_bytes(),
            y@ == b.spec_bytes(),
            x@.len() == y@.len(),
            i <= x@.len(),
            forall|j: int| 0 <= j < i ==> x@[j] == y@[j],
        decreases x@.len() - i,
    {
        if x[i] != y[i] {
            return false;
        }
        i += 1;
    }
    proof {
        assert(x@ =~= y@);
        vstd::utf8::encode_utf8_decode_utf8(a@);
        vstd::utf8::encode_utf8_decode_utf8(b@);
    }
    true
}

impl<'a> KTable<'a> {
    /// The number of slots.
    pub closed spec fn capacity(&self) -> nat {
        self.size as nat
    }

    /// The key held by each slot, if any.
    pub closed spec fn layout(&self) -> Seq<Option<Seq<char>>> {
        keys_of(self.cycles@)
    }

    /// The table is well formed: it has as many slots as its capacity, no key
    /// is held twice, and every entry is reached from its home slot along its
    /// probe sequence without meeting an empty slot.
    pub closed spec fn wf(&self) -> bool {
        &&& self.size > 0
        &&& self.cycles@.len() == self.size
        &&& keys_unique(self.cycles@)
        &&& chains_intact(self.cycles@)
    }

    pub fn new(size: usize) -> (r: Self)
        requires
            size > 0,
        ensures
            r.wf(),
            r.capacity() == size,
            r@ == Map::<Seq<char>, KValue>::empty(),
            r.layout() == Seq::new(size as nat, |i: int| None::<Seq<char>>),
    {
        let mut cycles: Vec<Slot<'a>> = Vec::new();
        let mut i: usize = 0;
        while i < size
            invariant
                i <= size,
                cycles@.len() == i,
                forall|j: int| 0 <= j < i ==> cycles@[j] is Empty,
            decreases size - i,
        {
            cycles.push(Slot::Empty);
            i += 1;
        }
        let r = KTable { size, cycles };
        assert(r@ =~= Map::empty());
        assert(r.layout() =~= Seq::new(size as nat, |i: int| None::<Seq<char>>));
        r
    }

    /// Walks the probe sequence of `key` up to the first empty slot, and
    /// returns the slot that holds `key`, if any.
    fn find_slot(&self, key: &str) -> (r: Option<usize>)
        requires
            self.wf(),
        ensures
            match r {
                Some(i) => i < self.size && holds_key(self.cycles@, i as int, key@),
                None => !self@.contains_key(key@),
            },
    {
        let ghost s = self.cycles@;
        let ghost n = self.size as int;
        let h = self.hash(key, self.size);
        let mut step: usize = 0;
        while step < self.size
            invariant
                self.wf(),
                s == self.cycles@,
                n == self.size,
                h == hash_of(key@, n),
                step <= n,
                forall|t: int| 0 <= t < step ==> !holds_key(s, #[trigger] probe(h as int, t, n), key@),
            decreases n - step,
        {
            let j = self.probing(h, step, self.size);
            match &self.cycles[j] {
                Slot::Empty => {
                    proof {
                        assert forall|i: int| 0 <= i < n implies !holds_key(s, i, key@) by {
                            if holds_key(s, i, key@) {
                                lemma_dist(h as int, i, n);
                                let d = dist(h as int, i, n);
                                if d > step {
                                    assert(passable(s, i, step as int));
                                }
                            }
                        }
                    }
                    return None;
                },
                Slot::Occupied(d) => {
                    if same_key(d.key, key) {
                        return Some(j);
                    }
                },
                Slot::Deleted => {},
            }
            step += 1;
        }
        proof {
            assert forall|i: int| 0 <= i < n implies !holds_key(s, i, key@) by {
                lemma_dist(h as int, i, n);
                assert(probe(h as int, dist(h as int, i, n), n) == i);
            }
        }
        None
    }

    /// Inserts `key` with `value`. A key that is present gets the new value
    /// in its slot; a new key takes the first free slot of its probe sequence.
    pub fn insert(&mut self, key: &'a str, value: &'a KValue) -> (r: Result<(), TableError>)
        requires
            old(self).wf(),
        ensures
            final(self).wf(),
            final(self).capacity() == old(self).capacity(),
            r is Ok <==> insert_fits(old(self)@, old(self).capacity(), key@),
            r is Ok ==> final(self)@ == old(self)@.insert(key@, *value),
            r is Ok && old(self)@.contains_key(key@) ==> final(self).layout() == old(self).layout(),
            r is Ok && !old(self)@.contains_key(key@) ==> exists|t: int|
                landing(old(self).layout(), key@, t) && final(self).layout() == old(
                    self,
                ).layout().update(probe(hash_of(key@, final(self).capacity() as int), t, final(self).capacity() as int), Some(key@)),
            r is Err ==> r == Err::<(), TableError>(TableError::CapacityExceeded) && final(self)@ == old(self)@
                && final(self).layout() == old(self).layout(),
    {
        let ghost s = self.cycles@;
        let ghost n = self.size as int;
        let ghost entry = KData { key, value };
        let h = self.hash(key, self.size);
        let mut free: Option<usize> = None;
        let ghost mut free_step: int = 0;
        let mut step: usize = 0;
        while step < self.size
            invariant
                self.wf(),
                s == self.cycles@,
                n == self.size,
                self.size == old(self).size,
                old(self).cycles@ == s,
                entry == (KData { key, value }),
                h == hash_of(key@, n),
                step <= n,
                forall|t: int| 0 <= t < step ==> !holds_key(s, #[trigger] probe(h as int, t, n), key@),
                forall|t: int| 0 <= t < step ==> !(#[trigger] s[probe(h as int, t, n)] is Empty),
                free is None ==> forall|t: int| 0 <= t < step ==> #[trigger] s[probe(h as int, t, n)] is Occupied,
                free is Some ==> {
                    &&& 0 <= free_step < step
                    &&& free->0 == probe(h as int, free_step, n)
                    &&& !(s[free->0 as int] is Occupied)
                    &&& forall|t: int| 0 <= t < free_step ==> #[trigger] s[probe(h as int, t, n)] is Occupied
                },
            decreases n - step,
        {
            let j = self.probing(h, step, self.size);
            proof {
                lemma_probe_dist(h as int, step as int, n);
            }
            let (is_free, is_empty, is_match) = match &self.cycles[j] {
                Slot::Empty => (true, true, false),
                Slot::Occupied(d) => (false, false, same_key(d.key, key)),
                Slot::Deleted => (true, false, false),
            };
            if is_match {
                proof {
                    lemma_contents_at(s, j as int);
                    lemma_place(s, j as int, entry);
                    assert(keys_of(s.update(j as int, Slot::Occupied(entry))) =~= keys_of(s));
                }
                self.cycles.set(j, Slot::Occupied(KData::new(key, value)));
                return Ok(());
            }
            if is_free && free.is_none() {
                free = Some(j);
                proof {
                    free_step = step as int;
                }
            }
            if is_empty {
                let p = free.unwrap();
                proof {
                    assert forall|i: int| 0 <= i < n implies !holds_key(s, i, key@) by {
                        if holds_key(s, i, key@) {
                            lemma_dist(h as int, i, n);
                            let d = dist(h as int, i, n);
                            if d > step {
                                assert(passable(s, i, step as int));
                            }
                        }
                    }
                    self.lemma_new_key(p as int, free_step, entry);
                }
                self.cycles.set(p, Slot::Occupied(KData::new(key, value)));
                assert(landing(old(self).layout(), key@, free_step));
                return Ok(());
            }
            step += 1;
        }
        proof {
            assert forall|i: int| 0 <= i < n implies !holds_key(s, i, key@) by {
                lemma_dist(h as int, i, n);
            }
            if free is None {
                assert forall|i: int| 0 <= i < n implies #[trigger] s[i] is Occupied by {
                    lemma_dist(h as int, i, n);
                    assert(s[probe(h as int, dist(h as int, i, n), n)] is Occupied);
                }
            }
            lemma_len(s);
        }
        match free {
            Some(p) => {
                proof {
                    self.lemma_new_key(p as int, free_step, entry);
                }
                self.cycles.set(p, Slot::Occupied(KData::new(key, value)));
                assert(landing(old(self).layout(), key@, free_step));
                Ok(())
            },
            None => Err(TableError::CapacityExceeded),
        }
    }

    /// Placing a new key at step `t` of its probe sequence, the first step
    /// that meets no entry, keeps the table well formed and adds the key.
    proof fn lemma_new_key(&self, p: int, t: int, entry: KData<'a>)
        requires
            self.wf(),
            forall|i: int| 0 <= i < self.size ==> !holds_key(self.cycles@, i, entry.key@),
            0 <= t < self.size,
            p == probe(hash_of(entry.key@, self.size as int), t, self.size as int),
            !(self.cycles@[p] is Occupied),
            forall|u: int|
                0 <= u < t ==> #[trigger] self.cycles@[probe(hash_of(entry.key@, self.size as int), u, self.size as int)] is Occupied,
        ensures
            ({
                let s2 = self.cycles@.update(p, Slot::Occupied(entry));
                &&& keys_unique(s2)
                &&& chains_intact(s2)
                &&& contents(s2) == self@.insert(entry.key@, *entry.value)
                &&& keys_of(s2) == self.layout().update(p, Some(entry.key@))
                &&& insert_fits(self@, self.capacity(), entry.key@)
                &&& landing(self.layout(), entry.key@, t)
            }),
    {
        let s = self.cycles@;
        let n = self.size as int;
        let h = hash_of(entry.key@, n);
        lemma_probe_dist(h, t, n);
        assert forall|u: int| 0 <= u < dist(h, p, n) implies !(#[trigger] s[probe(h, u, n)] is Empty) by {
            assert(s[probe(h, u, n)] is Occupied);
        }
        lemma_place(s, p, entry);
        lemma_len(s);
        assert(keys_of(s.update(p, Slot::Occupied(entry))) =~= keys_of(s).update(p, Some(entry.key@)));
        assert forall|u: int| 0 <= u < t implies (#[trigger] keys_of(s)[probe(h, u, n)]) is Some by {
            lemma_probe_dist(h, u, n);
            assert(s[probe(h, u, n)] is Occupied);
        }
    }

    /// Looks `key` up and recovers its value as a `T`.
    pub fn get<T: KType>(&self, key: &str) -> (r: Result<&'a T, TableError>)
        requires
            self.wf(),
        ensures
            match r {
                Ok(x) => lookup::<T>(self@, key@) == Ok::<T, TableError>(*x),
                Err(e) => lookup::<T>(self@, key@) == Err::<T, TableError>(e),
            },
    {
        match self.find_slot(key) {
            None => Err(TableError::NotFound),
            Some(i) => match &self.cycles[i] {
                Slot::Occupied(d) => {
                    proof {
                        lemma_contents_at(self.cycles@, i as int);
                    }
                    match T::downcast_ref(d.value) {
                        Some(x) => Ok(x),
                        None => Err(TableError::TypeMismatch),
                    }
                },
                _ => vstd::pervasive::unreached(),
            },
        }
    }

    /// Removes the entry of `key`, leaving a tombstone in its slot.
    pub fn remove(&mut self, key: &str) -> (r: Result<(), TableError>)
        requires
            old(self).wf(),
        ensures
            final(self).wf(),
            final(self).capacity() == old(self).capacity(),
            r is Ok <==> old(self)@.contains_key(key@),
            r is Err ==> r == Err::<(), TableError>(TableError::NotFound),
            final(self)@ == old(self)@.remove(key@),
    {
        match self.find_slot(key) {
            None => {
                assert(self@.remove(key@) =~= self@);
                Err(TableError::NotFound)
            },
            Some(i) => {
                proof {
                    lemma_delete(self.cycles@, i as int);
                    lemma_contents_at(self.cycles@, i as int);
                }
                self.cycles.set(i, Slot::Deleted);
                Ok(())
            },
        }
    }

    /// The number of slots.
    pub fn size(&self) -> (r: usize)
        ensures
            r == self.capacity(),
    {
        self.size
    }

    /// The key held by slot `index`, if any.
    pub fn key_at(&self, index: usize) -> (r: Option<&'a str>)
        requires
            self.wf(),
        ensures
            index >= self.capacity() ==> r is None,
            index < self.capacity() ==> match r {
                Some(k) => self.layout()[index as int] == Some(k@),
                None => self.layout()[index as int] is None,
            },
    {
        if index >= self.size {
            return None;
        }
        match &self.cycles[index] {
            Slot::Occupied(d) => Some(d.key),
            _ => None,
        }
    }

    /// The home slot of `key` in a table of `size` slots.
    pub fn hash(&self, key: &str, size: usize) -> (r: usize)
        requires
            size > 0,
        ensures
            r == hash_of(key@, size as int),
    {
        let mut hash_value: usize = 0;
        for ch in it: key.chars()
            invariant
                size > 0,
                hash_value < size,
                it.seq() == key@,
                hash_value == hash_of(key@.take(it.index() as int), size as int),
        {
            assert(key@.take(it.index() + 1).drop_last() =~= key@.take(it.index() as int));
            hash_value = ((hash_value as u128 * 31 + ch as u32 as u128) % size as u128) as usize;
        }
        assert(key@.take(key@.len() as int) =~= key@);
        hash_value
    }

    /// The slot visited at step `x` of the probe sequence from `index`.
    pub fn probing(&self, index: usize, x: usize, size: usize) -> (r: usize)
        requires
            size > 0,
        ensures
            r == probe(index as int, x as int, size as int),
            r < size,
    {
        let a = index % size;
        let b = x % size;
        proof {
            vstd::arithmetic::div_mod::lemma_add_mod_noop(index as int, x as int, size as int);
            lemma_probe_small(a as int, b as int, size as int);
        }
        if b < size - a {
            a + b
        } else {
            b - (size - a)
        }
    }
}

/// The contents after inserting `keys[i] => values[i]`, in order, into a
/// table with contents `m` and `cap` slots. An insert that finds no room
/// changes nothing.
pub open spec fn inserted_all(
    m: Map<Seq<char>, KValue>,
    cap: nat,
    keys: Seq<Seq<char>>,
    values: Seq<KValue>,
) -> Map<Seq<char>, KValue>
    decreases keys.len(),
{
    if keys.len() == 0 {
        m
    } else {
        let before = inserted_all(m, cap, keys.drop_last(), values.drop_last());
        if insert_fits(before, cap, keys.last()) {
            before.insert(keys.last(), values.last())
        } else {
            before
        }
    }
}

/// An insert that finds room makes the key's value what a lookup gives
/// back: the value itself when it is asked for with its own type, and a
/// type mismatch otherwise.
pub proof fn law_round_trip<'a, T: KType>(t: KTable<'a>, key: Seq<char>, value: KValue)
    requires
        t.wf(),
        insert_fits(t@, t.capacity(), key),
    ensures
        T::cast_of(value) matches Some(x) ==> lookup::<T>(t@.insert(key, value), key) == Ok::<T, TableError>(x),
        T::cast_of(value) is None ==> lookup::<T>(t@.insert(key, value), key) == Err::<T, TableError>(
            TableError::TypeMismatch,
        ),
{
}

/// After a key is removed, a lookup of it finds nothing, and a lookup of any
/// other key gives what it gave before: no entry is lost with the removed one.
pub proof fn law_remove_then_get<'a, T: KType>(t: KTable<'a>, key: Seq<char>, other: Seq<char>)
    requires
        t.wf(),
    ensures
        lookup::<T>(t@.remove(key), key) == Err::<T, TableError>(TableError::NotFound),
        other != key ==> lookup::<T>(t@.remove(key), other) == lookup::<T>(t@, other),
{
}

proof fn lemma_inserted_all_distinct(cap: nat, keys: Seq<Seq<char>>, values: Seq<KValue>, i: int)
    requires
        0 <= i <= cap,
        keys.len() == cap + 1,
        values.len() == keys.len(),
        keys.no_duplicates(),
    ensures
        inserted_all(Map::empty(), cap, keys.take(i), values.take(i)).dom().finite(),
        inserted_all(Map::empty(), cap, keys.take(i), values.take(i)).len() == i,
        forall|j: int|
            i <= j < keys.len() ==> !inserted_all(Map::empty(), cap, keys.take(i), values.take(i)).contains_key(
                #[trigger] keys[j],
            ),
    decreases i,
{
    let m = inserted_all(Map::empty(), cap, keys.take(i), values.take(i));
    if i == 0 {
        assert(m =~= Map::empty());
    } else {
        lemma_inserted_all_distinct(cap, keys, values, i - 1);
        assert(keys.take(i).drop_last() =~= keys.take(i - 1));
        assert(values.take(i).drop_last() =~= values.take(i - 1));
        let before = inserted_all(Map::empty(), cap, keys.take(i - 1), values.take(i - 1));
        assert(keys.take(i).last() == keys[i - 1]);
        assert(m == before.insert(keys[i - 1], values[i - 1]));
        assert forall|j: int| i <= j < keys.len() implies !m.contains_key(#[trigger] keys[j]) by {
            assert(keys[j] != keys[i - 1]);
        }
    }
}

/// Into a new table of `cap` slots, `cap` distinct keys all find room, and
/// one more distinct key does not.
pub proof fn law_capacity_bound(cap: nat, keys: Seq<Seq<char>>, values: Seq<KValue>)
    requires
        cap > 0,
        keys.len() == cap + 1,
        values.len() == keys.len(),
        keys.no_duplicates(),
    ensures
        forall|i: int|
            0 <= i < cap ==> insert_fits(
                inserted_all(Map::empty(), cap, keys.take(i), values.take(i)),
                cap,
                #[trigger] keys[i],
            ),
        !insert_fits(
            inserted_all(Map::empty(), cap, keys.take(cap as int), values.take(cap as int)),
            cap,
            keys[cap as int],
        ),
{
    assert forall|i: int| 0 <= i < cap implies insert_fits(
        inserted_all(Map::empty(), cap, keys.take(i), values.take(i)),
        cap,
        #[trigger] keys[i],
    ) by {
        lemma_inserted_all_distinct(cap, keys, values, i);
    }
    lemma_inserted_all_distinct(cap, keys, values, cap as int);
}

} // verus!
