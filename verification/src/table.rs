//! Ids in the order of their first use, each with a slot.

use vstd::prelude::*;
use vstd::string::StringSliceAdditionalSpecFns;
use vstd::utf8::encode_utf8;
use crate::text::same;
use rustc_hash::{FxBuildHasher, FxHashMap};

verus! {

/// The hasher of the `rustc_hash` crate.
#[verifier::external_type_specification]
#[verifier::external_body]
pub struct ExFxBuildHasher(FxBuildHasher);

/// The default `rustc_hash::FxHashMap` is empty.
#[verifier::external_body]
fn map_new() -> (m: FxHashMap<u64, usize>)
    ensures
        forall|k: u64| !#[trigger] m@.contains_key(k),
{
    FxHashMap::default()
}

/// `insert` on a `rustc_hash::FxHashMap` maps the key to the value and leaves
/// the other keys.
#[verifier::external_body]
fn map_insert(m: &mut FxHashMap<u64, usize>, k: u64, v: usize)
    ensures
        final(m)@ == old(m)@.insert(k, v),
{
    m.insert(k, v);
}

/// `get` on a `rustc_hash::FxHashMap` gives the value that the key maps to.
#[verifier::external_body]
fn map_get(m: &FxHashMap<u64, usize>, k: u64) -> (r: Option<usize>)
    ensures
        match r {
            Some(v) => m@.contains_key(k) && m@[k] == v,
            None => !m@.contains_key(k),
        },
{
    m.get(&k).copied()
}

/// Distinct ids, numbered in the order in which they came.
pub struct IdTable {
    ids: Vec<u64>,
    index: FxHashMap<u64, usize>,
}

impl View for IdTable {
    type V = Seq<u64>;

    closed spec fn view(&self) -> Seq<u64> {
        self.ids@
    }
}

/// The ids `s` with `id` behind them, if it is not among them.
pub open spec fn with_id(s: Seq<u64>, id: u64) -> Seq<u64> {
    if s.contains(id) {
        s
    } else {
        s.push(id)
    }
}

/// The slot of an id, if it has one.
pub open spec fn slot_in(s: Seq<u64>, id: u64) -> Option<int>
    decreases s.len(),
{
    if s.len() == 0 {
        None
    } else {
        match slot_in(s.drop_last(), id) {
            Some(i) => Some(i),
            None => if s.last() == id {
                Some(s.len() - 1)
            } else {
                None
            },
        }
    }
}

/// The slot of an id holds it, and none before does.
pub proof fn lemma_slot_in(s: Seq<u64>, id: u64)
    ensures
        match slot_in(s, id) {
            Some(i) => 0 <= i < s.len() && s[i] == id && forall|j: int| 0 <= j < i ==> s[j] != id,
            None => !s.contains(id),
        },
    decreases s.len(),
{
    if s.len() > 0 {
        let t = s.drop_last();
        lemma_slot_in(t, id);
        match slot_in(t, id) {
            Some(i) => {
                assert(s[i] == t[i]);
                assert forall|j: int| 0 <= j < i implies s[j] != id by {
                    assert(t[j] == s[j]);
                }
            },
            None => {
                if s.contains(id) {
                    let w = choose|w: int| 0 <= w < s.len() && s[w] == id;
                    if w < t.len() {
                        assert(t[w] == id);
                    }
                }
                assert forall|j: int| 0 <= j < t.len() implies s[j] != id by {
                    assert(t[j] == s[j]);
                    assert(t.contains(t[j]));
                }
            },
        }
    }
}

/// A new id takes the next slot; the others keep theirs.
pub proof fn lemma_slot_push(s: Seq<u64>, x: u64, id: u64)
    ensures
        slot_in(s.push(x), id) == (match slot_in(s, id) {
            Some(i) => Some(i),
            None => if x == id {
                Some(s.len() as int)
            } else {
                None
            },
        }),
{
    assert(s.push(x).drop_last() =~= s);
}

impl IdTable {
    /// No id occurs twice, and the index gives each its slot.
    pub closed spec fn wf(&self) -> bool {
        &&& forall|i: int|
            0 <= i < self.ids@.len() ==> self.index@.contains_key(#[trigger] self.ids@[i])
                && self.index@[self.ids@[i]] == i
        &&& forall|k: u64| #[trigger]
            self.index@.contains_key(k) ==> self.index@[k] < self.ids@.len()
                && self.ids@[self.index@[k] as int] == k
    }

    pub fn new() -> (r: IdTable)
        ensures
            r.wf(),
            r@ == Seq::<u64>::empty(),
    {
        IdTable { ids: Vec::new(), index: map_new() }
    }

    /// The slot of an id.
    pub fn find(&self, id: u64) -> (r: Option<usize>)
        requires
            self.wf(),
        ensures
            match r {
                Some(i) => i < self@.len() && self@[i as int] == id && slot_in(self@, id) == Some(
                    i as int,
                ),
                None => !self@.contains(id) && slot_in(self@, id) is None,
            },
    {
        let r = map_get(&self.index, id);
        proof {
            if r is None && self@.contains(id) {
                let w = choose|w: int| 0 <= w < self@.len() && self@[w] == id;
                assert(self.index@.contains_key(self.ids@[w]));
            }
            lemma_slot_in(self@, id);
            if r is Some && slot_in(self@, id) is Some {
                self.lemma_distinct(r->0 as int, slot_in(self@, id)->0);
            }
        }
        r
    }

    /// The slot of an id, given to it now if it has none.
    pub fn add(&mut self, id: u64) -> (r: usize)
        requires
            old(self).wf(),
        ensures
            final(self).wf(),
            final(self)@ == with_id(old(self)@, id),
            r < final(self)@.len(),
            final(self)@[r as int] == id,
            slot_in(final(self)@, id) == Some(r as int),
            old(self)@.contains(id) <==> r < old(self)@.len(),
    {
        match self.find(id) {
            Some(i) => i,
            None => {
                let i = self.ids.len();
                self.ids.push(id);
                map_insert(&mut self.index, id, i);
                assert forall|j: int| 0 <= j < self.ids@.len() implies self.index@.contains_key(
                    #[trigger] self.ids@[j],
                ) && self.index@[self.ids@[j]] == j by {
                    if j < i {
                        assert(self.ids@[j] == old(self).ids@[j]);
                        assert(old(self)@.contains(old(self).ids@[j]));
                    }
                }
                proof {
                    lemma_slot_push(old(self)@, id, id);
                }
                i
            },
        }
    }

    /// Number of ids.
    pub fn len(&self) -> (r: usize)
        ensures
            r == self@.len(),
    {
        self.ids.len()
    }

    /// The id with slot `i`.
    pub fn id(&self, i: usize) -> (r: u64)
        requires
            i < self@.len(),
        ensures
            r == self@[i as int],
    {
        self.ids[i]
    }

    /// No id has two slots.
    pub proof fn lemma_distinct(&self, i: int, j: int)
        requires
            self.wf(),
            0 <= i < self@.len(),
            0 <= j < self@.len(),
            self@[i] == self@[j],
        ensures
            i == j,
    {
        assert(self.index@[self.ids@[i]] == i);
        assert(self.index@[self.ids@[j]] == j);
    }
}

/// The names `s` with `name` behind them, if it is not among them.
pub open spec fn with_name(s: Seq<Seq<char>>, name: Seq<char>) -> Seq<Seq<char>> {
    if s.contains(name) {
        s
    } else {
        s.push(name)
    }
}

/// A number that spreads names over the slots.
spec fn spread_of(b: Seq<u8>) -> u64
    decreases b.len(),
{
    if b.len() == 0 {
        0
    } else {
        ((spread_of(b.drop_last()) % 1_000_000_007 * 31 + b.last()) % 1_000_000_007) as u64
    }
}

fn spread(name: &str) -> (r: u64)
    ensures
        r == spread_of(encode_utf8(name@)),
{
    let b = name.as_bytes();
    let mut h: u64 = 0;
    let mut i: usize = 0;
    assert(b@.take(0) =~= Seq::<u8>::empty());
    while i < b.len()
        invariant
            i <= b@.len(),
            h == spread_of(b@.take(i as int)),
        decreases b@.len() - i,
    {
        assert(b@.take(i + 1).drop_last() =~= b@.take(i as int));
        h = (h % 1_000_000_007 * 31 + b[i] as u64) % 1_000_000_007;
        i = i + 1;
    }
    assert(b@.take(b@.len() as int) =~= b@);
    h
}

/// The views of a list of names.
pub open spec fn name_views(s: Seq<String>) -> Seq<Seq<char>> {
    s.map_values(|n: String| n@)
}

/// Distinct names, numbered in the order in which they came.
pub struct NameTable {
    names: Vec<String>,
    spreads: IdTable,
    buckets: Vec<Vec<usize>>,
}

impl View for NameTable {
    type V = Seq<Seq<char>>;

    closed spec fn view(&self) -> Seq<Seq<char>> {
        name_views(self.names@)
    }
}

impl NameTable {
    /// No name is listed twice, and each is found where it was put.
    pub closed spec fn wf(&self) -> bool {
        &&& self.spreads.wf()
        &&& self.buckets@.len() == self.spreads@.len()
        &&& forall|i: int, j: int|
            0 <= i < j < self.names@.len() ==> (#[trigger] self.names@[i])@ != (
            #[trigger] self.names@[j])@
        &&& forall|i: int| 0 <= i < self.names@.len() ==> self.filed(#[trigger] self.names@[i]@, i)
        &&& forall|s: int, k: int|
            0 <= s < self.buckets@.len() && 0 <= k < self.buckets@[s]@.len()
                ==> #[trigger] self.buckets@[s]@[k] < self.names@.len()
    }

    closed spec fn filed(&self, name: Seq<char>, i: int) -> bool {
        match slot_in(self.spreads@, spread_of(encode_utf8(name))) {
            Some(s) => exists|k: int|
                0 <= k < self.buckets@[s]@.len() && #[trigger] self.buckets@[s]@[k] == i,
            None => false,
        }
    }

    pub fn new() -> (t: NameTable)
        ensures
            t.wf(),
            t@.len() == 0,
    {
        let t = NameTable { names: Vec::new(), spreads: IdTable::new(), buckets: Vec::new() };
        assert(t@ =~= Seq::<Seq<char>>::empty());
        t
    }

    pub fn len(&self) -> (r: usize)
        ensures
            r == self@.len(),
    {
        self.names.len()
    }

    /// The name listed at `i`.
    pub fn name(&self, i: usize) -> (r: &str)
        requires
            i < self@.len(),
        ensures
            r@ == self@[i as int],
    {
        self.names[i].as_str()
    }

    /// No name is listed twice.
    pub proof fn lemma_distinct(&self, i: int, j: int)
        requires
            self.wf(),
            0 <= i < self@.len(),
            0 <= j < self@.len(),
            self@[i] == self@[j],
        ensures
            i == j,
    {
        assert(self.names@[i]@ == self@[i]);
        assert(self.names@[j]@ == self@[j]);
    }

    /// Where a name is listed.
    pub fn find(&self, name: &str) -> (r: Option<usize>)
        requires
            self.wf(),
        ensures
            match r {
                Some(i) => i < self@.len() && self@[i as int] == name@,
                None => !self@.contains(name@),
            },
    {
        match self.spreads.find(spread(name)) {
            Some(s) => {
                let bucket = &self.buckets[s];
                let mut k: usize = 0;
                while k < bucket.len()
                    invariant
                        self.wf(),
                        s < self.buckets@.len(),
                        *bucket == self.buckets@[s as int],
                        k <= bucket@.len(),
                        forall|j: int|
                            0 <= j < k ==> self.names@[(#[trigger] bucket@[j]) as int]@ != name@,
                    decreases bucket@.len() - k,
                {
                    let i = bucket[k];
                    assert(self.buckets@[s as int]@[k as int] < self.names@.len());
                    if same(self.names[i].as_str(), name) {
                        return Some(i);
                    }
                    k = k + 1;
                }
                proof {
                    self.lemma_absent(name@, Some(s as int));
                }
                None
            },
            None => {
                proof {
                    self.lemma_absent(name@, None);
                }
                None
            },
        }
    }

    proof fn lemma_absent(&self, name: Seq<char>, slot: Option<int>)
        requires
            self.wf(),
            slot == slot_in(self.spreads@, spread_of(encode_utf8(name))),
            slot matches Some(s) ==> forall|j: int|
                0 <= j < self.buckets@[s]@.len() ==> self.names@[(
                #[trigger] self.buckets@[s]@[j]) as int]@ != name,
        ensures
            !self@.contains(name),
    {
        if self@.contains(name) {
            let i = choose|i: int| 0 <= i < self@.len() && self@[i] == name;
            assert(self.names@[i]@ == name);
            assert(self.filed(self.names@[i]@, i));
        }
    }

    /// Where a name is listed; a new one is put behind the others.
    pub fn put(&mut self, name: &str) -> (r: usize)
        requires
            old(self).wf(),
        ensures
            final(self).wf(),
            final(self)@ == with_name(old(self)@, name@),
            r < final(self)@.len(),
            final(self)@[r as int] == name@,
    {
        match self.find(name) {
            Some(i) => i,
            None => {
                let ghost before = *self;
                let i = self.names.len();
                let h = spread(name);
                let s = self.spreads.add(h);
                if s == self.buckets.len() {
                    self.buckets.push(Vec::new());
                }
                let ghost mid = self.buckets@;
                self.buckets[s].push(i);
                self.names.push(name.to_owned());
                proof {
                    let after = *self;
                    assert(after.buckets@[s as int]@ == mid[s as int]@.push(i));
                    assert forall|j: int| 0 <= j < after.names@.len() implies after.filed(
                        #[trigger] after.names@[j]@,
                        j,
                    ) by {
                        let hj = spread_of(encode_utf8(after.names@[j]@));
                        lemma_slot_in(before.spreads@, hj);
                        lemma_slot_in(after.spreads@, hj);
                        lemma_slot_push(before.spreads@, h, hj);
                        if j < before.names@.len() {
                            assert(before.filed(before.names@[j]@, j));
                            let t = slot_in(before.spreads@, hj)->0;
                            let k = choose|k: int|
                                0 <= k < before.buckets@[t]@.len()
                                    && #[trigger] before.buckets@[t]@[k] == j;
                            assert(mid[t] == before.buckets@[t]);
                            assert(after.buckets@[t]@[k] == j);
                        } else {
                            let k = mid[s as int]@.len() as int;
                            assert(after.buckets@[s as int]@[k] == j);
                        }
                    }
                    assert(after@ =~= before@.push(name@));
                    assert(!before@.contains(name@));
                    assert forall|j: int| 0 <= j < before.names@.len() implies (
                    #[trigger] before.names@[j])@ != name@ by {
                        assert(before@[j] == before.names@[j]@);
                    }
                }
                i
            },
        }
    }
}

} // verus!
