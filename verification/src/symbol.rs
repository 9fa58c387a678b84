//! [`Symbol`]: the variable-name string used throughout the crate.
//!
//! A `Symbol` owns the characters of one name. Equality, ordering and hashing all act on the
//! character content, so two symbols built from equal text are interchangeable.
use vstd::prelude::*;

verus! {

/// Lexicographic (dictionary) order on character sequences, the order `str` uses.
pub open spec fn seq_lt(a: Seq<char>, b: Seq<char>) -> bool
    decreases a.len(),
{
    if b.len() == 0 {
        false
    } else if a.len() == 0 {
        true
    } else if a[0] != b[0] {
        a[0] < b[0]
    } else {
        seq_lt(a.drop_first(), b.drop_first())
    }
}

/// The order on character sequences is strict and total.
pub proof fn lemma_seq_lt_total(a: Seq<char>, b: Seq<char>)
    ensures
        !(seq_lt(a, b) && seq_lt(b, a)),
        a != b ==> (seq_lt(a, b) || seq_lt(b, a)),
        !seq_lt(a, a),
    decreases a.len(),
{
    if a.len() > 0 && b.len() > 0 && a[0] == b[0] {
        lemma_seq_lt_total(a.drop_first(), b.drop_first());
        if a != b {
            assert(a =~= seq![a[0]] + a.drop_first());
            assert(b =~= seq![b[0]] + b.drop_first());
        }
    }
    if a.len() > 0 {
        lemma_seq_lt_irrefl(a);
    }
    if a.len() == 0 && b.len() == 0 {
        assert(a =~= b);
    }
}

proof fn lemma_seq_lt_irrefl(a: Seq<char>)
    ensures
        !seq_lt(a, a),
    decreases a.len(),
{
    if a.len() > 0 {
        lemma_seq_lt_irrefl(a.drop_first());
    }
}

/// The order on character sequences is transitive.
pub proof fn lemma_seq_lt_trans(a: Seq<char>, b: Seq<char>, c: Seq<char>)
    requires
        seq_lt(a, b),
        seq_lt(b, c),
    ensures
        seq_lt(a, c),
    decreases a.len(),
{
    if a.len() > 0 && b.len() > 0 && c.len() > 0 && a[0] == b[0] && b[0] == c[0] {
        lemma_seq_lt_trans(a.drop_first(), b.drop_first(), c.drop_first());
    }
}

/// A variable name. Its view is the sequence of characters of the name. Symbols order as their
/// text does.
#[derive(Debug, PartialOrd, Ord)]
pub struct Symbol {
    chars: Vec<char>,
    text: String,
}

impl View for Symbol {
    type V = Seq<char>;

    closed spec fn view(&self) -> Seq<char> {
        self.chars@
    }
}

impl Symbol {
    #[verifier::type_invariant]
    closed spec fn text_matches(&self) -> bool {
        self.text@ == self.chars@
    }

    /// Build a symbol holding the characters of `s`.
    pub fn new(s: &str) -> (r: Symbol)
        ensures
            r@ == s@,
    {
        let mut chars: Vec<char> = Vec::new();
        for c in it: s.chars()
            invariant
                chars@ == it.seq().take(it.index() as int),
        {
            chars.push(c);
        }
        assert(chars@ =~= s@);
        let text = s.to_owned();
        Symbol { chars, text }
    }

    /// The name as a string slice.
    pub fn as_str(&self) -> (r: &str)
        ensures
            r@ == self@,
    {
        proof {
            use_type_invariant(self);
        }
        self.text.as_str()
    }

    /// The name as an owned string.
    pub fn to_string(&self) -> (r: String)
        ensures
            r@ == self@,
    {
        proof {
            use_type_invariant(self);
        }
        self.text.clone()
    }

    /// Number of characters in the name.
    pub fn len(&self) -> (r: usize)
        ensures
            r == self@.len(),
    {
        self.chars.len()
    }

    /// The character at position `i`.
    pub fn char_at(&self, i: usize) -> (r: char)
        requires
            i < self@.len(),
        ensures
            r == self@[i as int],
    {
        self.chars[i]
    }

    /// Whether two symbols hold the same name.
    pub fn same_as(&self, other: &Symbol) -> (r: bool)
        ensures
            r == (self@ == other@),
    {
        if self.chars.len() != other.chars.len() {
            return false;
        }
        let n = self.chars.len();
        let mut i: usize = 0;
        while i < n
            invariant
                n == self@.len(),
                n == other@.len(),
                i <= n,
                forall|j: int| 0 <= j < i ==> self@[j] == other@[j],
            decreases n - i,
        {
            if self.chars[i] != other.chars[i] {
                return false;
            }
            i += 1;
        }
        assert(self@ =~= other@);
        true
    }

    /// Whether this symbol's name comes strictly before `other`'s in dictionary order.
    pub fn less_than(&self, other: &Symbol) -> (r: bool)
        ensures
            r == seq_lt(self@, other@),
    {
        let n = self.chars.len();
        let m = other.chars.len();
        let mut i: usize = 0;
        proof {
            assert(self@.skip(0) =~= self@);
            assert(other@.skip(0) =~= other@);
        }
        while i < n && i < m
            invariant
                n == self@.len(),
                m == other@.len(),
                i <= n,
                i <= m,
                forall|j: int| 0 <= j < i ==> self@[j] == other@[j],
                seq_lt(self@, other@) == seq_lt(self@.skip(i as int), other@.skip(i as int)),
            decreases n - i,
        {
            let a = self.chars[i];
            let b = other.chars[i];
            if a != b {
                proof {
                    assert(self@.skip(i as int)[0] == a);
                    assert(other@.skip(i as int)[0] == b);
                }
                return a < b;
            }
            proof {
                assert(self@.skip(i as int).drop_first() =~= self@.skip(i + 1));
                assert(other@.skip(i as int).drop_first() =~= other@.skip(i + 1));
            }
            i += 1;
        }
        i < m
    }

    /// A symbol with the same name.
    pub fn copy(&self) -> (r: Symbol)
        ensures
            r@ == self@,
    {
        proof {
            use_type_invariant(self);
        }
        let mut chars: Vec<char> = Vec::new();
        let n = self.chars.len();
        let mut i: usize = 0;
        while i < n
            invariant
                n == self@.len(),
                i <= n,
                chars@ == self@.take(i as int),
            decreases n - i,
        {
            chars.push(self.chars[i]);
            i += 1;
            proof {
                assert(chars@ =~= self@.take(i as int));
            }
        }
        assert(chars@ =~= self@);
        Symbol { chars, text: self.text.clone() }
    }
}

impl Clone for Symbol {
    fn clone(&self) -> (r: Symbol)
        ensures
            r@ == self@,
    {
        self.copy()
    }
}

impl PartialEq for Symbol {
    fn eq(&self, other: &Symbol) -> (r: bool) {
        self.same_as(other)
    }
}

impl vstd::std_specs::cmp::PartialEqSpecImpl for Symbol {
    open spec fn obeys_eq_spec() -> bool {
        true
    }

    open spec fn eq_spec(&self, other: &Symbol) -> bool {
        self@ == other@
    }
}

impl Eq for Symbol {}

impl From<&str> for Symbol {
    /// The symbol holding the characters of `s`.
    fn from(s: &str) -> (r: Symbol)
        ensures
            r@ == s@,
    {
        Symbol::new(s)
    }
}

impl vstd::std_specs::convert::FromSpecImpl<&str> for Symbol {
    open spec fn obeys_from_spec() -> bool {
        false
    }

    open spec fn from_spec(s: &str) -> Symbol {
        arbitrary()
    }
}

impl From<String> for Symbol {
    /// The symbol holding the characters of `s`.
    fn from(s: String) -> (r: Symbol)
        ensures
            r@ == s@,
    {
        Symbol::new(s.as_str())
    }
}

impl vstd::std_specs::convert::FromSpecImpl<String> for Symbol {
    open spec fn obeys_from_spec() -> bool {
        false
    }

    open spec fn from_spec(s: String) -> Symbol {
        arbitrary()
    }
}

impl From<&String> for Symbol {
    /// The symbol holding the characters of `s`.
    fn from(s: &String) -> (r: Symbol)
        ensures
            r@ == s@,
    {
        Symbol::new(s.as_str())
    }
}

impl vstd::std_specs::convert::FromSpecImpl<&String> for Symbol {
    open spec fn obeys_from_spec() -> bool {
        false
    }

    open spec fn from_spec(s: &String) -> Symbol {
        arbitrary()
    }
}

impl From<&mut str> for Symbol {
    /// The symbol holding the characters of `s`.
    fn from(s: &mut str) -> (r: Symbol)
        ensures
            r@ == old(s)@,
            final(s)@ == old(s)@,
    {
        Symbol::new(s)
    }
}

impl vstd::std_specs::convert::FromSpecImpl<&mut str> for Symbol {
    open spec fn obeys_from_spec() -> bool {
        false
    }

    open spec fn from_spec(s: &mut str) -> Symbol {
        arbitrary()
    }
}

impl From<Box<str>> for Symbol {
    /// The symbol holding the characters of `s`.
    fn from(s: Box<str>) -> (r: Symbol)
        ensures
            r@ == (*s)@,
    {
        Symbol::new(&*s)
    }
}

impl vstd::std_specs::convert::FromSpecImpl<Box<str>> for Symbol {
    open spec fn obeys_from_spec() -> bool {
        false
    }

    open spec fn from_spec(s: Box<str>) -> Symbol {
        arbitrary()
    }
}

impl From<std::sync::Arc<str>> for Symbol {
    /// The symbol holding the characters of `s`.
    fn from(s: std::sync::Arc<str>) -> (r: Symbol)
        ensures
            r@ == (*s)@,
    {
        Symbol::new(&*s)
    }
}

impl vstd::std_specs::convert::FromSpecImpl<std::sync::Arc<str>> for Symbol {
    open spec fn obeys_from_spec() -> bool {
        false
    }

    open spec fn from_spec(s: std::sync::Arc<str>) -> Symbol {
        arbitrary()
    }
}

impl<'a> From<std::borrow::Cow<'a, str>> for Symbol {
    /// The symbol holding the characters of `s`.
    fn from(s: std::borrow::Cow<'a, str>) -> (r: Symbol)
        ensures
            s matches std::borrow::Cow::Borrowed(b) ==> r@ == b@,
            s matches std::borrow::Cow::Owned(o) ==> r@ == o@,
    {
        match s {
            std::borrow::Cow::Borrowed(b) => Symbol::new(b),
            std::borrow::Cow::Owned(o) => Symbol::new(o.as_str()),
        }
    }
}

impl<'a> vstd::std_specs::convert::FromSpecImpl<std::borrow::Cow<'a, str>> for Symbol {
    open spec fn obeys_from_spec() -> bool {
        false
    }

    open spec fn from_spec(s: std::borrow::Cow<'a, str>) -> Symbol {
        arbitrary()
    }
}

impl std::borrow::Borrow<str> for Symbol {
    /// The name as a string slice, so maps keyed by symbols can be searched by `&str`.
    fn borrow(&self) -> &str {
        self.as_str()
    }
}

impl std::hash::Hash for Symbol {
    /// Hashes the name as `str` hashes it (`str::hash`), so a symbol and its text hash alike.
    #[verifier::external_body]
    fn hash<H: std::hash::Hasher>(&self, state: &mut H) {
        self.text.hash(state)
    }
}

} // verus!
