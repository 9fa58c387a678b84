//! [`Symbols`]: a cover's table of variable labels, one per input position, with the positions
//! also kept in identity order for lookups by binary search.
use crate::symbol::{lemma_seq_lt_total, lemma_seq_lt_trans, seq_lt, Symbol};
use vstd::prelude::*;

verus! {

/// What identifies a variable: its position (for unnamed tables) or its name.
#[derive(Debug)]
pub enum LabelKey {
    Position(usize),
    Name(Symbol),
}

/// The mathematical value of a [`LabelKey`].
pub enum LabelId {
    Position(int),
    Name(Seq<char>),
}

impl View for LabelKey {
    type V = LabelId;

    open spec fn view(&self) -> LabelId {
        match self {
            LabelKey::Position(p) => LabelId::Position(*p as int),
            LabelKey::Name(s) => LabelId::Name(s@),
        }
    }
}

/// Identity order: positions by value, before names in dictionary order.
pub open spec fn id_lt(a: LabelId, b: LabelId) -> bool {
    match (a, b) {
        (LabelId::Position(x), LabelId::Position(y)) => x < y,
        (LabelId::Position(_), LabelId::Name(_)) => true,
        (LabelId::Name(_), LabelId::Position(_)) => false,
        (LabelId::Name(s), LabelId::Name(t)) => seq_lt(s, t),
    }
}

proof fn lemma_id_order(a: LabelId, b: LabelId, c: LabelId)
    ensures
        !id_lt(a, a),
        a != b ==> (id_lt(a, b) || id_lt(b, a)),
        !(id_lt(a, b) && id_lt(b, a)),
        id_lt(a, b) && id_lt(b, c) ==> id_lt(a, c),
{
    match (a, b, c) {
        (LabelId::Name(x), LabelId::Name(y), LabelId::Name(z)) => {
            lemma_seq_lt_total(x, y);
            lemma_seq_lt_total(x, x);
            if seq_lt(x, y) && seq_lt(y, z) {
                lemma_seq_lt_trans(x, y, z);
            }
        },
        (LabelId::Name(x), LabelId::Name(y), _) => {
            lemma_seq_lt_total(x, y);
            lemma_seq_lt_total(x, x);
        },
        (LabelId::Name(x), _, _) => {
            lemma_seq_lt_total(x, x);
        },
        _ => {},
    }
}

/// Compare two identities.
fn key_less(a: &LabelKey, b: &LabelKey) -> (r: bool)
    ensures
        r == id_lt(a@, b@),
{
    match (a, b) {
        (LabelKey::Position(x), LabelKey::Position(y)) => *x < *y,
        (LabelKey::Position(_), LabelKey::Name(_)) => true,
        (LabelKey::Name(_), LabelKey::Position(_)) => false,
        (LabelKey::Name(s), LabelKey::Name(t)) => s.less_than(t),
    }
}

/// Whether two identities are equal.
fn key_eq(a: &LabelKey, b: &LabelKey) -> (r: bool)
    ensures
        r == (a@ == b@),
{
    match (a, b) {
        (LabelKey::Position(x), LabelKey::Position(y)) => *x == *y,
        (LabelKey::Name(s), LabelKey::Name(t)) => s.same_as(t),
        _ => false,
    }
}

/// A variable label: what a table stores per position.
pub trait Label: Sized {
    /// The identity of this label at position `pos`.
    spec fn identity(&self, pos: int) -> LabelId;

    /// The identity of this label at position `pos`.
    fn key(&self, pos: usize) -> (r: LabelKey)
        ensures
            r@ == self.identity(pos as int),
    ;

    /// A copy of the label, with the same identity at every position.
    fn copy_label(&self) -> (r: Self)
        ensures
            forall|pos: int| #[trigger] r.identity(pos) == self.identity(pos),
    ;
}

/// The label of an unnamed position: its identity is the position itself.
#[derive(Clone, Copy, Debug, Default, PartialEq, Eq, Hash)]
pub struct Anonymous;

impl Label for Anonymous {
    open spec fn identity(&self, pos: int) -> LabelId {
        LabelId::Position(pos)
    }

    fn key(&self, pos: usize) -> (r: LabelKey) {
        LabelKey::Position(pos)
    }

    fn copy_label(&self) -> (r: Self) {
        Anonymous
    }
}

impl Label for Symbol {
    open spec fn identity(&self, pos: int) -> LabelId {
        LabelId::Name(self@)
    }

    fn key(&self, pos: usize) -> (r: LabelKey) {
        LabelKey::Name(self.copy())
    }

    fn copy_label(&self) -> (r: Self) {
        self.copy()
    }
}

/// Two labels share an identity.
#[derive(Debug)]
pub struct DuplicateSymbol {
    /// The position of the second occurrence.
    pub index: usize,
}

/// The identities of a label list.
pub open spec fn ids<L: Label>(labels: Seq<L>) -> Seq<LabelId> {
    Seq::new(labels.len(), |i: int| labels[i].identity(i))
}

/// The position of the first label whose identity repeats an earlier one, or `None` when all
/// identities are distinct.
pub fn first_duplicate<L: Label>(labels: &Vec<L>) -> (r: Option<usize>)
    ensures
        match r {
            Some(i) => i < labels@.len() && (exists|j: int| 0 <= j < i && ids(labels@)[j] == ids(labels@)[i as int])
                && forall|a: int, b: int| 0 <= a < b < i ==> ids(labels@)[a] != ids(labels@)[b],
            None => forall|a: int, b: int| 0 <= a < b < labels@.len() ==> ids(labels@)[a] != ids(labels@)[b],
        },
{
    let ghost v = ids(labels@);
    let n = labels.len();
    let mut i: usize = 0;
    while i < n
        invariant
            n == labels@.len(),
            v == ids(labels@),
            i <= n,
            forall|a: int, b: int| 0 <= a < b < i ==> v[a] != v[b],
        decreases n - i,
    {
        let ki = labels[i].key(i);
        let mut j: usize = 0;
        while j < i
            invariant
                j <= i,
                i < n,
                n == labels@.len(),
                v == ids(labels@),
                ki@ == v[i as int],
                forall|a: int, b: int| 0 <= a < b < i ==> v[a] != v[b],
                forall|b: int| 0 <= b < j ==> v[b] != v[i as int],
            decreases i - j,
        {
            let kj = labels[j].key(j);
            if key_eq(&kj, &ki) {
                proof {
                    assert(v[j as int] == v[i as int]);
                }
                return Some(i);
            }
            j += 1;
        }
        i += 1;
    }
    None
}

/// A table of one label per position `0..arity`, with the positions also kept sorted by
/// identity.
#[derive(Debug)]
pub struct Symbols<L: Label> {
    labels: Vec<L>,
    sorted: Vec<usize>,
}

impl<L: Label> Symbols<L> {
    /// The labels, by position.
    pub closed spec fn label_seq(&self) -> Seq<L> {
        self.labels@
    }

    /// The identities, by position.
    pub open spec fn id_seq(&self) -> Seq<LabelId> {
        ids(self.label_seq())
    }

    /// The identities are distinct and the sorted order lists every position once, in
    /// increasing identity.
    pub closed spec fn wf(&self) -> bool {
        &&& self.sorted@.len() == self.labels@.len()
        &&& forall|k: int| 0 <= k < self.sorted@.len() ==> #[trigger] self.sorted@[k] < self.labels@.len()
        &&& forall|a: int, b: int|
            0 <= a < b < self.sorted@.len() ==> id_lt(
                ids(self.labels@)[self.sorted@[a] as int],
                ids(self.labels@)[self.sorted@[b] as int],
            )
        &&& forall|p: int| 0 <= p < self.labels@.len() ==> #[trigger] self.sorted@.contains(p as usize)
    }

    /// The empty table.
    pub fn empty() -> (r: Symbols<L>)
        ensures
            r.wf(),
            r.label_seq().len() == 0,
    {
        Symbols { labels: Vec::new(), sorted: Vec::new() }
    }

    /// The number of positions.
    pub fn arity(&self) -> (r: usize)
        ensures
            r == self.label_seq().len(),
    {
        self.labels.len()
    }

    /// The labels, by position.
    pub fn labels(&self) -> (r: &Vec<L>)
        ensures
            r@ == self.label_seq(),
    {
        &self.labels
    }

    /// A table of the given labels; rejected when two labels share an identity, with the position
    /// of the first repeat.
    pub fn new(labels: Vec<L>) -> (r: Result<Symbols<L>, DuplicateSymbol>)
        ensures
            match r {
                Ok(t) => t.wf() && t.label_seq() == labels@,
                Err(e) => e.index < labels@.len() && (exists|j: int|
                    0 <= j < e.index && #[trigger] ids(labels@)[j] == ids(labels@)[e.index as int]) && forall|a: int, b: int|
                    0 <= a < b < e.index ==> #[trigger] ids(labels@)[a] != #[trigger] ids(labels@)[b],
            },
            r is Ok <==> forall|a: int, b: int| 0 <= a < b < labels@.len() ==> ids(labels@)[a] != ids(labels@)[b],
    {
        match first_duplicate(&labels) {
            Some(index) => {
                return Err(DuplicateSymbol { index });
            },
            None => {},
        }
        let ghost v = ids(labels@);
        let n = labels.len();
        let mut sorted: Vec<usize> = Vec::new();
        let mut i: usize = 0;
        while i < n
            invariant
                n == labels@.len(),
                v == ids(labels@),
                i <= n,
                forall|a: int, b: int| 0 <= a < b < n ==> v[a] != v[b],
                sorted@.len() == i,
                forall|k: int| 0 <= k < sorted@.len() ==> #[trigger] sorted@[k] < i,
                forall|a: int, b: int| 0 <= a < b < sorted@.len() ==> id_lt(v[sorted@[a] as int], v[sorted@[b] as int]),
                forall|p: int| 0 <= p < i ==> #[trigger] sorted@.contains(p as usize),
            decreases n - i,
        {
            let ki = labels[i].key(i);
            let len = sorted.len();
            let mut k: usize = 0;
            while k < len && key_less(&labels[sorted[k]].key(sorted[k]), &ki)
                invariant
                    len == sorted@.len(),
                    k <= len,
                    i < n,
                    n == labels@.len(),
                    v == ids(labels@),
                    ki@ == v[i as int],
                    forall|q: int| 0 <= q < sorted@.len() ==> #[trigger] sorted@[q] < i,
                    forall|q: int| 0 <= q < k ==> id_lt(v[sorted@[q] as int], v[i as int]),
                decreases len - k,
            {
                k += 1;
            }
            let ghost old_s = sorted@;
            proof {
                if k < len {
                    let x = v[old_s[k as int] as int];
                    assert(!id_lt(x, v[i as int]));
                    assert(old_s[k as int] < i);
                    assert(x != v[i as int]);
                    lemma_id_order(x, v[i as int], x);
                }
            }
            sorted.insert(k, i);
            proof {
                let ns = sorted@;
                assert(ns =~= old_s.insert(k as int, i));
                assert forall|a: int, b: int| 0 <= a < b < ns.len() implies id_lt(v[ns[a] as int], v[ns[b] as int]) by {
                    if b < k {
                    } else if b == k {
                    } else if a < k {
                        if k < len {
                            lemma_id_order(v[ns[a] as int], v[i as int], v[old_s[k as int] as int]);
                            if b - 1 > k {
                                lemma_id_order(v[ns[a] as int], v[old_s[k as int] as int], v[old_s[b - 1] as int]);
                            }
                        }
                    } else if a == k {
                        if b - 1 > k {
                            lemma_id_order(v[i as int], v[old_s[k as int] as int], v[old_s[b - 1] as int]);
                        }
                    }
                }
                assert forall|p: int| 0 <= p < i + 1 implies #[trigger] ns.contains(p as usize) by {
                    if p == i {
                        assert(ns[k as int] == i);
                    } else {
                        assert(old_s.contains(p as usize));
                        let q = choose|q: int| 0 <= q < old_s.len() && old_s[q] == p as usize;
                        if q < k {
                            assert(ns[q] == p as usize);
                        } else {
                            assert(ns[q + 1] == p as usize);
                        }
                    }
                }
            }
            i += 1;
        }
        Ok(Symbols { labels, sorted })
    }

    /// The position whose identity is `key`, found by binary search over the sorted order.
    pub fn index_of(&self, key: &LabelKey) -> (r: Option<usize>)
        requires
            self.wf(),
        ensures
            match r {
                Some(p) => p < self.label_seq().len() && self.id_seq()[p as int] == key@,
                None => forall|p: int| 0 <= p < self.label_seq().len() ==> self.id_seq()[p] != key@,
            },
    {
        let ghost v = ids(self.labels@);
        let mut lo: usize = 0;
        let mut hi: usize = self.sorted.len();
        while lo < hi
            invariant
                self.wf(),
                v == ids(self.labels@),
                lo <= hi <= self.sorted@.len(),
                forall|q: int| 0 <= q < lo ==> id_lt(v[self.sorted@[q] as int], key@),
                forall|q: int| hi <= q < self.sorted@.len() ==> id_lt(key@, v[self.sorted@[q] as int]),
            decreases hi - lo,
        {
            let mid = lo + (hi - lo) / 2;
            let pos = self.sorted[mid];
            let k = self.labels[pos].key(pos);
            if key_eq(&k, key) {
                return Some(pos);
            }
            if key_less(&k, key) {
                proof {
                    assert forall|q: int| 0 <= q <= mid implies id_lt(v[self.sorted@[q] as int], key@) by {
                        if q < mid {
                            lemma_id_order(v[self.sorted@[q] as int], v[pos as int], key@);
                        }
                    }
                }
                lo = mid + 1;
            } else {
                proof {
                    lemma_id_order(v[pos as int], key@, v[pos as int]);
                    assert forall|q: int| mid <= q < self.sorted@.len() implies id_lt(key@, v[self.sorted@[q] as int]) by {
                        if q > mid {
                            lemma_id_order(key@, v[pos as int], v[self.sorted@[q] as int]);
                        }
                    }
                }
                hi = mid;
            }
        }
        proof {
            assert forall|p: int| 0 <= p < self.labels@.len() implies v[p] != key@ by {
                assert(self.sorted@.contains(p as usize));
                let q = choose|q: int| 0 <= q < self.sorted@.len() && self.sorted@[q] == p as usize;
                lemma_id_order(v[p], key@, v[p]);
            }
        }
        None
    }

    /// Whether two tables describe the same variables in the same order: the same width and,
    /// position by position, the same identity (two unnamed tables of one width are equal).
    pub fn equals(&self, other: &Symbols<L>) -> (r: bool)
        ensures
            r == (self.id_seq() == other.id_seq()),
    {
        let n = self.labels.len();
        if n != other.labels.len() {
            proof {
                assert(self.id_seq().len() != other.id_seq().len());
            }
            return false;
        }
        let mut i: usize = 0;
        while i < n
            invariant
                n == self.labels@.len(),
                n == other.labels@.len(),
                i <= n,
                forall|q: int| 0 <= q < i ==> self.id_seq()[q] == other.id_seq()[q],
            decreases n - i,
        {
            let a = self.labels[i].key(i);
            let b = other.labels[i].key(i);
            if !key_eq(&a, &b) {
                proof {
                    assert(self.id_seq()[i as int] != other.id_seq()[i as int]);
                }
                return false;
            }
            i += 1;
        }
        proof {
            assert(self.id_seq() =~= other.id_seq());
        }
        true
    }

    /// The positions sorted by identity.
    pub fn sorted_order(&self) -> (r: &Vec<usize>)
        requires
            self.wf(),
        ensures
            forall|a: int, b: int| 0 <= a < b < r@.len() ==> id_lt(self.id_seq()[r@[a] as int], self.id_seq()[r@[b] as int]),
            r@.len() == self.label_seq().len(),
            forall|k: int| 0 <= k < r@.len() ==> #[trigger] r@[k] < self.label_seq().len(),
            forall|p: int| 0 <= p < self.label_seq().len() ==> #[trigger] r@.contains(p as usize),
    {
        &self.sorted
    }
}

/// The labels kept when repeats are dropped: each label in turn is kept unless the identity it
/// would have at the next position is already among those kept.
pub open spec fn dedup_labels<L: Label>(labels: Seq<L>) -> Seq<L>
    decreases labels.len(),
{
    if labels.len() == 0 {
        Seq::empty()
    } else {
        let kept = dedup_labels(labels.drop_last());
        if ids(kept).contains(labels.last().identity(kept.len() as int)) {
            kept
        } else {
            kept.push(labels.last())
        }
    }
}

impl<L: Label> Symbols<L> {
    /// A table of labels that may repeat, keeping the first occurrence of each identity (for
    /// unnamed labels, whose identity is their position, nothing is dropped).
    pub fn deduped(labels: Vec<L>) -> (r: Symbols<L>)
        ensures
            r.wf(),
            r.label_seq() == dedup_labels(labels@),
    {
        let ghost all = labels@;
        let mut rest = labels;
        let mut kept: Vec<L> = Vec::new();
        let ghost mut taken: int = 0;
        while rest.len() > 0
            invariant
                0 <= taken <= all.len(),
                rest@ == all.skip(taken),
                kept@ == dedup_labels(all.take(taken)),
                forall|a: int, b: int| 0 <= a < b < kept@.len() ==> ids(kept@)[a] != ids(kept@)[b],
            decreases rest@.len(),
        {
            let label = rest.remove(0);
            let pos = kept.len();
            let k = label.key(pos);
            let mut j: usize = 0;
            let mut seen = false;
            while j < pos
                invariant
                    j <= pos,
                    pos == kept@.len(),
                    k@ == label.identity(pos as int),
                    seen <==> exists|q: int| 0 <= q < j && ids(kept@)[q] == k@,
                decreases pos - j,
            {
                let kj = kept[j].key(j);
                proof {
                    assert(ids(kept@)[j as int] == kj@);
                }
                if key_eq(&kj, &k) {
                    seen = true;
                }
                proof {
                    if !seen {
                        assert forall|q: int| 0 <= q < j + 1 implies ids(kept@)[q] != k@ by {
                            if q < j {
                                assert(!(0 <= q < j && ids(kept@)[q] == k@));
                            }
                        }
                    }
                }
                j += 1;
            }
            proof {
                let pre = all.take(taken + 1);
                assert(pre.drop_last() =~= all.take(taken));
                assert(pre.last() == label) by {
                    assert(all.skip(taken)[0] == label);
                }
                assert(seen <==> ids(kept@).contains(label.identity(pos as int))) by {
                    if seen {
                        let q = choose|q: int| 0 <= q < pos && ids(kept@)[q] == k@;
                        assert(ids(kept@)[q] == label.identity(pos as int));
                    }
                    if ids(kept@).contains(label.identity(pos as int)) {
                        let q = choose|q: int| 0 <= q < ids(kept@).len() && ids(kept@)[q] == label.identity(pos as int);
                        assert(ids(kept@)[q] == k@);
                    }
                }
            }
            let ghost before = kept@;
            if !seen {
                kept.push(label);
                proof {
                    assert forall|a: int, b: int| 0 <= a < b < kept@.len() implies ids(kept@)[a] != ids(kept@)[b] by {
                        assert(ids(kept@)[a] == ids(before)[a] || a == before.len());
                        if b < before.len() {
                            assert(ids(kept@)[a] == ids(before)[a]);
                            assert(ids(kept@)[b] == ids(before)[b]);
                        } else {
                            assert(ids(kept@)[a] == ids(before)[a]);
                            assert(ids(kept@)[b] == label.identity(pos as int));
                            assert(!ids(before).contains(label.identity(pos as int)));
                        }
                    }
                }
            }
            proof {
                assert(rest@ =~= all.skip(taken + 1));
                taken = taken + 1;
            }
        }
        proof {
            assert(all.take(taken) =~= all);
        }
        let ghost final_kept = kept@;
        match Symbols::new(kept) {
            Ok(t) => t,
            Err(_) => {
                proof {
                    assert(false);
                }
                Symbols::empty()
            },
        }
    }
}

/// A copy of a table: the same labels by identity, and the same sorted order.
impl<L: Label> Clone for Symbols<L> {
    fn clone(&self) -> (r: Self)
        ensures
            r.id_seq() == self.id_seq(),
            r.label_seq().len() == self.label_seq().len(),
            self.wf() ==> r.wf(),
    {
        let n = self.labels.len();
        let mut labels: Vec<L> = Vec::new();
        let mut i: usize = 0;
        while i < n
            invariant
                n == self.labels@.len(),
                i <= n,
                labels@.len() == i,
                forall|q: int| 0 <= q < i ==> #[trigger] labels@[q].identity(q) == self.labels@[q].identity(q),
            decreases n - i,
        {
            let l = self.labels[i].copy_label();
            labels.push(l);
            i += 1;
        }
        let m = self.sorted.len();
        let mut sorted: Vec<usize> = Vec::new();
        let mut j: usize = 0;
        while j < m
            invariant
                m == self.sorted@.len(),
                j <= m,
                sorted@ == self.sorted@.take(j as int),
            decreases m - j,
        {
            sorted.push(self.sorted[j]);
            proof {
                assert(self.sorted@.take(j + 1) =~= self.sorted@.take(j as int).push(self.sorted@[j as int]));
            }
            j += 1;
        }
        proof {
            assert(sorted@ =~= self.sorted@);
            assert(ids(labels@) =~= ids(self.labels@));
        }
        Symbols { labels, sorted }
    }
}

impl Symbols<Anonymous> {
    /// An unnamed table of the given width.
    pub fn anonymous(arity: usize) -> (r: Symbols<Anonymous>)
        ensures
            r.wf(),
            r.label_seq().len() == arity,
    {
        let mut labels: Vec<Anonymous> = Vec::new();
        let mut sorted: Vec<usize> = Vec::new();
        let mut i: usize = 0;
        while i < arity
            invariant
                i <= arity,
                labels@.len() == i,
                sorted@.len() == i,
                forall|k: int| 0 <= k < i ==> #[trigger] sorted@[k] == k,
            decreases arity - i,
        {
            labels.push(Anonymous);
            sorted.push(i);
            i += 1;
        }
        let r = Symbols { labels, sorted };
        proof {
            assert forall|p: int| 0 <= p < r.labels@.len() implies #[trigger] r.sorted@.contains(p as usize) by {
                assert(r.sorted@[p] == p);
            }
        }
        r
    }
}

} // verus!
