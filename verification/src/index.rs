//! Hash-bucket indexes used to find names, nodes and cached results without a linear scan.
//!
//! A [`HashIndex`] maps a 64-bit hash to the positions of every item with that hash. The items
//! themselves live in the caller's vector; the caller compares candidates against the key it is
//! looking for, so a hash collision never produces a wrong answer.
use crate::symbol::Symbol;
use std::collections::HashMap;
use vstd::prelude::*;

verus! {

broadcast use vstd::std_specs::hash::group_hash_axioms;

/// Buckets of item positions keyed by hash.
pub struct HashIndex {
    buckets: HashMap<u64, Vec<usize>>,
}

impl HashIndex {
    /// The index records exactly the items whose hashes are `keys`: item `i` lies in bucket
    /// `keys[i]`, and every bucket entry is the position of an item with that hash.
    pub closed spec fn indexes(&self, keys: Seq<u64>) -> bool {
        &&& forall|i: int|
            0 <= i < keys.len() ==> #[trigger] self.buckets@.contains_key(keys[i])
                && self.buckets@[keys[i]]@.contains(i as usize)
        &&& forall|h: u64, j: int|
            #![trigger self.buckets@[h]@[j]]
            self.buckets@.contains_key(h) && 0 <= j < self.buckets@[h]@.len() ==> {
                let p = self.buckets@[h]@[j] as int;
                0 <= p < keys.len() && keys[p] == h
            }
    }

    /// An index of no items.
    pub fn new() -> (r: HashIndex)
        ensures
            r.indexes(Seq::empty()),
    {
        HashIndex { buckets: HashMap::new() }
    }

    /// The positions of all items whose hash is `h`.
    pub fn bucket(&self, h: u64, Ghost(keys): Ghost<Seq<u64>>) -> (r: Option<&Vec<usize>>)
        requires
            self.indexes(keys),
        ensures
            match r {
                Some(b) => {
                    &&& forall|j: int|
                        0 <= j < b@.len() ==> 0 <= #[trigger] b@[j] < keys.len() && keys[b@[j] as int]
                            == h
                    &&& forall|i: int| 0 <= i < keys.len() && keys[i] == h ==> b@.contains(i as usize)
                },
                None => forall|i: int| 0 <= i < keys.len() ==> keys[i] != h,
            },
    {
        let r = self.buckets.get(&h);
        proof {
            match r {
                Some(b) => {
                    assert forall|j: int| 0 <= j < b@.len() implies 0 <= #[trigger] b@[j]
                        < keys.len() && keys[b@[j] as int] == h by {
                        assert(self.buckets@[h]@[j] == b@[j]);
                    }
                },
                None => {},
            }
        }
        r
    }

    /// Record that the item at position `keys.len()` has hash `h`.
    pub fn insert(&mut self, h: u64, pos: usize, Ghost(keys): Ghost<Seq<u64>>)
        requires
            old(self).indexes(keys),
            pos == keys.len(),
        ensures
            final(self).indexes(keys.push(h)),
    {
        let ghost old_buckets = self.buckets@;
        let existing = self.buckets.remove(&h);
        let mut b: Vec<usize> = match existing {
            Some(v) => v,
            None => Vec::new(),
        };
        let ghost old_b = b@;
        b.push(pos);
        self.buckets.insert(h, b);
        proof {
            let nk = keys.push(h);
            assert forall|i: int| 0 <= i < nk.len() implies #[trigger] self.buckets@.contains_key(
                nk[i],
            ) && self.buckets@[nk[i]]@.contains(i as usize) by {
                if i < keys.len() {
                    if keys[i] == h {
                        assert(old_b.contains(i as usize));
                        let k = choose|k: int| 0 <= k < old_b.len() && old_b[k] == i as usize;
                        assert(self.buckets@[h]@[k] == i as usize);
                    } else {
                        assert(old_buckets.contains_key(keys[i]));
                    }
                } else {
                    assert(self.buckets@[h]@[old_b.len() as int] == pos);
                }
            }
            assert forall|hh: u64, j: int|
                #![trigger self.buckets@[hh]@[j]]
                self.buckets@.contains_key(hh) && 0 <= j < self.buckets@[hh]@.len() implies {
                let p = self.buckets@[hh]@[j] as int;
                0 <= p < nk.len() && nk[p] == hh
            } by {
                if hh == h {
                    if j < old_b.len() {
                        assert(old_buckets.contains_key(h));
                        assert(old_buckets[h]@[j] == old_b[j]);
                    }
                } else {
                    assert(old_buckets.contains_key(hh));
                    assert(old_buckets[hh]@[j] == self.buckets@[hh]@[j]);
                }
            }
        }
    }
}

/// A mixing step of the name hash.
pub open spec fn mix(h: u64, c: char) -> u64 {
    (h << 5u64) ^ (h >> 27u64) ^ (c as u64)
}

/// The hash of a name.
pub open spec fn name_hash(s: Seq<char>) -> u64
    decreases s.len(),
{
    if s.len() == 0 {
        0
    } else {
        mix(name_hash(s.drop_last()), s.last())
    }
}

/// Compute the hash of a symbol's name.
pub fn hash_symbol(s: &Symbol) -> (r: u64)
    ensures
        r == name_hash(s@),
{
    let n = s.len();
    let mut h: u64 = 0;
    let mut i: usize = 0;
    while i < n
        invariant
            n == s@.len(),
            i <= n,
            h == name_hash(s@.take(i as int)),
        decreases n - i,
    {
        let c = s.char_at(i);
        proof {
            assert(s@.take(i + 1).drop_last() =~= s@.take(i as int));
        }
        h = (h << 5u64) ^ (h >> 27u64) ^ (c as u64);
        i += 1;
    }
    proof {
        assert(s@.take(n as int) =~= s@);
    }
    h
}

/// The hashes of a list of names.
pub open spec fn name_keys(names: Seq<Seq<char>>) -> Seq<u64> {
    names.map_values(|s: Seq<char>| name_hash(s))
}

/// A list of distinct names with constant-time lookup of a name's position.
pub struct NameIndex {
    names: Vec<Symbol>,
    index: HashIndex,
}

impl View for NameIndex {
    type V = Seq<Seq<char>>;

    closed spec fn view(&self) -> Seq<Seq<char>> {
        self.names@.map_values(|s: Symbol| s@)
    }
}

impl NameIndex {
    /// The names are distinct and the index covers them.
    pub closed spec fn wf(&self) -> bool {
        &&& self.index.indexes(name_keys(self@))
        &&& forall|i: int, j: int| 0 <= i < j < self@.len() ==> self@[i] != self@[j]
    }

    /// The names of a well-formed list are distinct.
    pub proof fn lemma_distinct(&self)
        requires
            self.wf(),
        ensures
            forall|i: int, j: int| 0 <= i < j < self@.len() ==> self@[i] != self@[j],
    {
    }

    /// An empty list.
    pub fn new() -> (r: NameIndex)
        ensures
            r.wf(),
            r@ == Seq::<Seq<char>>::empty(),
    {
        let r = NameIndex { names: Vec::new(), index: HashIndex::new() };
        proof {
            assert(r@ =~= Seq::<Seq<char>>::empty());
            assert(name_keys(r@) =~= Seq::<u64>::empty());
        }
        r
    }

    /// Number of names.
    pub fn len(&self) -> (r: usize)
        ensures
            r == self@.len(),
    {
        self.names.len()
    }

    /// The name at position `i`.
    pub fn get(&self, i: usize) -> (r: &Symbol)
        requires
            i < self@.len(),
        ensures
            r@ == self@[i as int],
    {
        &self.names[i]
    }

    /// The position of `name`, if present.
    pub fn find(&self, name: &Symbol) -> (r: Option<usize>)
        requires
            self.wf(),
        ensures
            match r {
                Some(i) => i < self@.len() && self@[i as int] == name@,
                None => !self@.contains(name@),
            },
    {
        let h = hash_symbol(name);
        let count = self.names.len();
        let ghost keys = name_keys(self@);
        match self.index.bucket(h, Ghost(keys)) {
            None => {
                proof {
                    if self@.contains(name@) {
                        let k = choose|k: int| 0 <= k < self@.len() && self@[k] == name@;
                        assert(keys[k] == h);
                    }
                }
                None
            },
            Some(b) => {
                let m = b.len();
                let mut j: usize = 0;
                while j < m
                    invariant
                        m == b@.len(),
                        j <= m,
                        self.wf(),
                        keys == name_keys(self@),
                        h == name_hash(name@),
                        count == self@.len(),
                        forall|q: int|
                            0 <= q < b@.len() ==> 0 <= #[trigger] b@[q] < keys.len() && keys[b@[q] as int]
                                == h,
                        forall|i: int| 0 <= i < keys.len() && keys[i] == h ==> b@.contains(i as usize),
                        forall|q: int| 0 <= q < j ==> self@[#[trigger] b@[q] as int] != name@,
                    decreases m - j,
                {
                    let p = b[j];
                    proof {
                        assert(0 <= b@[j as int] < keys.len());
                        assert(keys.len() == self@.len());
                    }
                    if self.names[p].same_as(name) {
                        proof {
                            assert(self@[p as int] == self.names@[p as int]@);
                            assert(p < self@.len());
                            assert(self@[p as int] == name@);
                        }
                        return Some(p);
                    }
                    j += 1;
                }
                proof {
                    if self@.contains(name@) {
                        let k = choose|k: int| 0 <= k < self@.len() && self@[k] == name@;
                        assert(self@.len() == count);
                        assert(keys[k] == h);
                        assert(b@.contains(k as usize));
                        let q = choose|q: int| 0 <= q < b@.len() && b@[q] == k as usize;
                        assert(self@[b@[q] as int] != name@);
                    }
                }
                None
            },
        }
    }

    /// Append a name that is not yet present; returns its position.
    pub fn push(&mut self, name: Symbol) -> (r: usize)
        requires
            old(self).wf(),
            !old(self)@.contains(name@),
        ensures
            final(self).wf(),
            final(self)@ == old(self)@.push(name@),
            r == old(self)@.len(),
    {
        let h = hash_symbol(&name);
        let pos = self.names.len();
        let ghost keys = name_keys(self@);
        let ghost nm = name@;
        self.index.insert(h, pos, Ghost(keys));
        self.names.push(name);
        proof {
            assert(self@ =~= old(self)@.push(nm));
            assert(name_keys(self@) =~= keys.push(h));
        }
        pos
    }

    /// The position of `name`, adding it at the end if it is not yet present.
    pub fn intern(&mut self, name: &Symbol) -> (r: usize)
        requires
            old(self).wf(),
        ensures
            final(self).wf(),
            r < final(self)@.len(),
            final(self)@[r as int] == name@,
            old(self)@.contains(name@) ==> final(self)@ == old(self)@,
            !old(self)@.contains(name@) ==> final(self)@ == old(self)@.push(name@),
    {
        match self.find(name) {
            Some(i) => i,
            None => self.push(name.copy()),
        }
    }

    /// The names as a vector of symbols.
    pub fn to_vec(&self) -> (r: Vec<Symbol>)
        ensures
            r@.map_values(|s: Symbol| s@) == self@,
    {
        let n = self.names.len();
        let mut out: Vec<Symbol> = Vec::new();
        let mut i: usize = 0;
        while i < n
            invariant
                n == self@.len(),
                i <= n,
                out@.map_values(|s: Symbol| s@) == self@.take(i as int),
            decreases n - i,
        {
            let ghost prev = out@;
            out.push(self.names[i].copy());
            proof {
                assert(out@.map_values(|s: Symbol| s@) =~= prev.map_values(|s: Symbol| s@).push(
                    self@[i as int],
                ));
                assert(self@.take(i + 1) =~= self@.take(i as int).push(self@[i as int]));
            }
            i += 1;
        }
        proof {
            assert(self@.take(n as int) =~= self@);
        }
        out
    }
}

} // verus!
