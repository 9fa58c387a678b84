//! Reading line-oriented text: splitting into lines, trimming, splitting into words, dropping
//! white space, and reading decimal numbers.
use vstd::prelude::*;

verus! {

/// Unicode white space, the characters `char::is_whitespace` accepts.
pub open spec fn is_space(c: char) -> bool {
    let u = c as u32;
    ||| 0x09 <= u <= 0x0D
    ||| u == 0x20
    ||| u == 0x85
    ||| u == 0xA0
    ||| u == 0x1680
    ||| 0x2000 <= u <= 0x200A
    ||| u == 0x2028
    ||| u == 0x2029
    ||| u == 0x202F
    ||| u == 0x205F
    ||| u == 0x3000
}

/// Whether `c` is white space.
pub fn space(c: char) -> (r: bool)
    ensures
        r == is_space(c),
{
    let u = c as u32;
    (0x09 <= u && u <= 0x0D) || u == 0x20 || u == 0x85 || u == 0xA0 || u == 0x1680 || (0x2000 <= u
        && u <= 0x200A) || u == 0x2028 || u == 0x2029 || u == 0x202F || u == 0x205F || u == 0x3000
}

/// The pieces of `s` between line feeds, the first one continuing `cur`.
pub open spec fn pieces_from(s: Seq<char>, cur: Seq<char>) -> Seq<Seq<char>>
    decreases s.len(),
{
    if s.len() == 0 {
        seq![cur]
    } else if s[0] == '\n' {
        seq![cur] + pieces_from(s.drop_first(), Seq::empty())
    } else {
        pieces_from(s.drop_first(), cur.push(s[0]))
    }
}

/// The lines of a text: the pieces between line feeds, without the empty piece after a final
/// line feed (so an empty text has no lines).
pub open spec fn text_lines(s: Seq<char>) -> Seq<Seq<char>> {
    let p = pieces_from(s, Seq::empty());
    if p.last().len() == 0 {
        p.drop_last()
    } else {
        p
    }
}

/// The number of white-space characters at the start of `s`.
pub open spec fn lead(s: Seq<char>) -> nat
    decreases s.len(),
{
    if s.len() > 0 && is_space(s[0]) {
        1 + lead(s.drop_first())
    } else {
        0
    }
}

/// The number of white-space characters at the end of `s`.
pub open spec fn trail(s: Seq<char>) -> nat
    decreases s.len(),
{
    if s.len() > 0 && is_space(s.last()) {
        1 + trail(s.drop_last())
    } else {
        0
    }
}

/// `s` without leading and trailing white space.
pub open spec fn trim(s: Seq<char>) -> Seq<char> {
    let t = s.skip(lead(s) as int);
    t.take(t.len() - trail(t))
}

/// The maximal runs of non-space characters of `s`, the first one continuing `cur`.
pub open spec fn words_from(s: Seq<char>, cur: Seq<char>) -> Seq<Seq<char>>
    decreases s.len(),
{
    let done: Seq<Seq<char>> = if cur.len() > 0 {
        seq![cur]
    } else {
        Seq::empty()
    };
    if s.len() == 0 {
        done
    } else if is_space(s[0]) {
        done + words_from(s.drop_first(), Seq::empty())
    } else {
        words_from(s.drop_first(), cur.push(s[0]))
    }
}

/// The words of `s`: its maximal runs of non-space characters.
pub open spec fn words(s: Seq<char>) -> Seq<Seq<char>> {
    words_from(s, Seq::empty())
}

/// `s` with its white space removed.
pub open spec fn strip(s: Seq<char>) -> Seq<char>
    decreases s.len(),
{
    if s.len() == 0 {
        s
    } else if is_space(s.last()) {
        strip(s.drop_last())
    } else {
        strip(s.drop_last()).push(s.last())
    }
}

/// The value of a decimal digit character.
pub open spec fn digit_value(c: char) -> nat {
    (c as u32 - '0' as u32) as nat
}

/// Whether `c` is an ASCII decimal digit.
pub open spec fn is_digit(c: char) -> bool {
    '0' as u32 <= c as u32 <= '9' as u32
}

/// The number a run of decimal digits spells.
pub open spec fn digits_value(s: Seq<char>) -> nat
    decreases s.len(),
{
    if s.len() == 0 {
        0
    } else {
        digits_value(s.drop_last()) * 10 + digit_value(s.last())
    }
}

/// The number a run of decimal digits spells, if it is one and the number fits a `usize`.
pub open spec fn digits_usize(d: Seq<char>) -> Option<usize> {
    if d.len() > 0 && (forall|i: int| 0 <= i < d.len() ==> is_digit(#[trigger] d[i]))
        && digits_value(d) <= usize::MAX {
        Some(digits_value(d) as usize)
    } else {
        None
    }
}

/// What `usize`'s `from_str` reads: an optional `+`, then one or more decimal digits spelling a
/// number that fits.
pub open spec fn usize_text(s: Seq<char>) -> Option<usize> {
    if s.len() > 0 && s[0] == '+' {
        digits_usize(s.drop_first())
    } else {
        digits_usize(s)
    }
}

/// The characters of a string slice.
pub fn chars_of(s: &str) -> (r: Vec<char>)
    ensures
        r@ == s@,
{
    let mut out: Vec<char> = Vec::new();
    for c in it: s.chars()
        invariant
            out@ == it.seq().take(it.index() as int),
    {
        out.push(c);
    }
    proof {
        assert(out@ =~= s@);
    }
    out
}

proof fn lemma_pieces_step(s: Seq<char>, i: int, cur: Seq<char>)
    requires
        0 <= i < s.len(),
    ensures
        pieces_from(s.skip(i), cur) == (if s[i] == '\n' {
            seq![cur] + pieces_from(s.skip(i + 1), Seq::empty())
        } else {
            pieces_from(s.skip(i + 1), cur.push(s[i]))
        }),
{
    assert(s.skip(i).drop_first() =~= s.skip(i + 1));
    assert(s.skip(i)[0] == s[i]);
}

/// The lines of a text, each trimmed of white space (a carriage return before a line feed among
/// it).
pub fn trimmed_lines(s: &Vec<char>) -> (r: Vec<Vec<char>>)
    ensures
        r@.len() == text_lines(s@).len(),
        forall|k: int| 0 <= k < r@.len() ==> (#[trigger] r@[k])@ == trim(text_lines(s@)[k]),
{
    let n = s.len();
    let mut done: Vec<Vec<char>> = Vec::new();
    let ghost mut raw: Seq<Seq<char>> = Seq::empty();
    let mut cur: Vec<char> = Vec::new();
    let mut i: usize = 0;
    proof {
        assert(s@.skip(0) =~= s@);
    }
    while i < n
        invariant
            n == s@.len(),
            i <= n,
            raw + pieces_from(s@.skip(i as int), cur@) == pieces_from(s@, Seq::empty()),
            done@.len() == raw.len(),
            forall|k: int| 0 <= k < done@.len() ==> (#[trigger] done@[k])@ == trim(raw[k]),
        decreases n - i,
    {
        proof {
            lemma_pieces_step(s@, i as int, cur@);
        }
        let c = s[i];
        if c == '\n' {
            let t = trim_chars(&cur);
            proof {
                assert(raw.push(cur@) + pieces_from(s@.skip(i + 1), Seq::empty()) =~= raw + (seq![
                    cur@,
                ] + pieces_from(s@.skip(i + 1), Seq::empty())));
                raw = raw.push(cur@);
            }
            done.push(t);
            cur = Vec::new();
        } else {
            cur.push(c);
        }
        i += 1;
    }
    proof {
        assert(s@.skip(n as int) =~= Seq::<char>::empty());
        let p = pieces_from(s@, Seq::empty());
        assert(p =~= raw.push(cur@));
        assert(p.drop_last() =~= raw);
    }
    if cur.len() > 0 {
        let t = trim_chars(&cur);
        proof {
            raw = raw.push(cur@);
        }
        done.push(t);
    }
    done
}

proof fn lemma_lead_step(s: Seq<char>, i: int)
    requires
        0 <= i <= lead(s),
    ensures
        lead(s) == i + lead(s.skip(i)),
        i < s.len() && i < lead(s) ==> is_space(s[i]),
        i < s.len() && i == lead(s) ==> !is_space(s[i]),
    decreases i,
{
    lemma_lead_le(s);
    if i > 0 {
        lemma_lead_step(s.drop_first(), i - 1);
        assert(s.drop_first().skip(i - 1) =~= s.skip(i));
        if i < s.len() {
            assert(s.drop_first()[i - 1] == s[i]);
        }
    } else {
        assert(s.skip(0) =~= s);
    }
}

proof fn lemma_trail_step(s: Seq<char>, i: int)
    requires
        0 <= i <= trail(s),
    ensures
        trail(s) == i + trail(s.take(s.len() - i)),
        i < s.len() && i < trail(s) ==> is_space(s[s.len() - 1 - i]),
        i < s.len() && i == trail(s) ==> !is_space(s[s.len() - 1 - i]),
    decreases i,
{
    lemma_trail_le(s);
    if i > 0 {
        lemma_trail_step(s.drop_last(), i - 1);
        assert(s.drop_last().take(s.drop_last().len() - (i - 1)) =~= s.take(s.len() - i));
        if i < s.len() {
            assert(s.drop_last()[s.len() - 1 - i] == s[s.len() - 1 - i]);
        }
    } else {
        assert(s.take(s.len() as int) =~= s);
    }
}

proof fn lemma_lead_le(s: Seq<char>)
    ensures
        lead(s) <= s.len(),
    decreases s.len(),
{
    if s.len() > 0 {
        lemma_lead_le(s.drop_first());
    }
}

proof fn lemma_trail_le(s: Seq<char>)
    ensures
        trail(s) <= s.len(),
    decreases s.len(),
{
    if s.len() > 0 {
        lemma_trail_le(s.drop_last());
    }
}

/// `s` without leading and trailing white space.
pub fn trim_chars(s: &Vec<char>) -> (r: Vec<char>)
    ensures
        r@ == trim(s@),
{
    let n = s.len();
    let mut a: usize = 0;
    proof {
        lemma_lead_le(s@);
        lemma_lead_step(s@, 0);
    }
    while a < n && space(s[a])
        invariant
            n == s@.len(),
            a <= lead(s@),
            lead(s@) <= n,
        decreases n - a,
    {
        proof {
            lemma_lead_step(s@, a as int);
        }
        a += 1;
    }
    proof {
        lemma_lead_step(s@, a as int);
        if a < n {
            assert(a == lead(s@));
        }
    }
    let ghost t = s@.skip(a as int);
    let mut b: usize = 0;
    proof {
        lemma_trail_le(t);
    }
    while a + b < n && space(s[n - 1 - b])
        invariant
            n == s@.len(),
            a == lead(s@),
            t == s@.skip(a as int),
            b <= trail(t),
            trail(t) <= t.len(),
            a + b <= n,
        decreases n - a - b,
    {
        proof {
            lemma_trail_step(t, b as int);
            assert(t[t.len() - 1 - b] == s@[n - 1 - b]);
        }
        b += 1;
    }
    proof {
        lemma_trail_step(t, b as int);
        if a + b < n {
            assert(t[t.len() - 1 - b] == s@[n - 1 - b]);
            assert(b == trail(t));
        }
    }
    let mut out: Vec<char> = Vec::new();
    let mut k: usize = a;
    while k < n - b
        invariant
            a <= k <= n - b,
            n == s@.len(),
            out@ == s@.subrange(a as int, k as int),
        decreases n - b - k,
    {
        out.push(s[k]);
        proof {
            assert(out@ =~= s@.subrange(a as int, k + 1));
        }
        k += 1;
    }
    proof {
        assert(out@ =~= t.take(t.len() - trail(t)));
    }
    out
}

proof fn lemma_words_step(s: Seq<char>, i: int, cur: Seq<char>)
    requires
        0 <= i < s.len(),
    ensures
        words_from(s.skip(i), cur) == (if is_space(s[i]) {
            (if cur.len() > 0 {
                seq![cur]
            } else {
                Seq::<Seq<char>>::empty()
            }) + words_from(s.skip(i + 1), Seq::empty())
        } else {
            words_from(s.skip(i + 1), cur.push(s[i]))
        }),
{
    assert(s.skip(i).drop_first() =~= s.skip(i + 1));
    assert(s.skip(i)[0] == s[i]);
}

/// The words of `s`.
pub fn split_words(s: &Vec<char>) -> (r: Vec<Vec<char>>)
    ensures
        r@.len() == words(s@).len(),
        forall|k: int| 0 <= k < r@.len() ==> (#[trigger] r@[k])@ == words(s@)[k],
{
    let n = s.len();
    let mut done: Vec<Vec<char>> = Vec::new();
    let ghost mut got: Seq<Seq<char>> = Seq::empty();
    let mut cur: Vec<char> = Vec::new();
    let mut i: usize = 0;
    proof {
        assert(s@.skip(0) =~= s@);
    }
    while i < n
        invariant
            n == s@.len(),
            i <= n,
            got + words_from(s@.skip(i as int), cur@) == words(s@),
            done@.len() == got.len(),
            forall|k: int| 0 <= k < done@.len() ==> (#[trigger] done@[k])@ == got[k],
        decreases n - i,
    {
        proof {
            lemma_words_step(s@, i as int, cur@);
        }
        let c = s[i];
        let ghost before = got + words_from(s@.skip(i as int), cur@);
        if space(c) {
            if cur.len() > 0 {
                proof {
                    assert(got.push(cur@) + words_from(s@.skip(i + 1), Seq::empty()) =~= got + (
                    seq![cur@] + words_from(s@.skip(i + 1), Seq::empty())));
                    got = got.push(cur@);
                }
                done.push(cur);
                cur = Vec::new();
                proof {
                    assert(cur@ =~= Seq::<char>::empty());
                    assert(got + words_from(s@.skip(i + 1), cur@) == before);
                }
            } else {
                proof {
                    assert(Seq::<Seq<char>>::empty() + words_from(s@.skip(i + 1), Seq::empty())
                        =~= words_from(s@.skip(i + 1), Seq::empty()));
                    assert(cur@ =~= Seq::<char>::empty());
                    assert(got + words_from(s@.skip(i + 1), cur@) == before);
                }
            }
        } else {
            cur.push(c);
            proof {
                assert(got + words_from(s@.skip(i + 1), cur@) == before);
            }
        }
        i += 1;
    }
    proof {
        assert(s@.skip(n as int) =~= Seq::<char>::empty());
    }
    if cur.len() > 0 {
        proof {
            got = got.push(cur@);
        }
        done.push(cur);
    } else {
        proof {
            assert(got + Seq::<Seq<char>>::empty() =~= got);
        }
    }
    done
}

/// `s` with its white space removed.
pub fn strip_chars(s: &[char]) -> (r: Vec<char>)
    ensures
        r@ == strip(s@),
{
    let n = s.len();
    let mut out: Vec<char> = Vec::new();
    let mut i: usize = 0;
    while i < n
        invariant
            n == s@.len(),
            i <= n,
            out@ == strip(s@.take(i as int)),
        decreases n - i,
    {
        proof {
            assert(s@.take(i + 1).drop_last() =~= s@.take(i as int));
            assert(s@.take(i + 1).last() == s@[i as int]);
        }
        if !space(s[i]) {
            out.push(s[i]);
        }
        i += 1;
    }
    proof {
        assert(s@.take(n as int) =~= s@);
    }
    out
}

/// The number a string spells as `usize`'s `from_str` reads it, if it spells one.
pub fn parse_usize(s: &Vec<char>) -> (r: Option<usize>)
    ensures
        r == usize_text(s@),
{
    let n = s.len();
    let start: usize = if n > 0 && s[0] == '+' {
        1
    } else {
        0
    };
    let ghost d = if s@.len() > 0 && s@[0] == '+' {
        s@.drop_first()
    } else {
        s@
    };
    proof {
        assert(d =~= s@.skip(start as int));
        assert(usize_text(s@) == digits_usize(d));
    }
    if start == n {
        proof {
            assert(d =~= Seq::<char>::empty());
        }
        return None;
    }
    let mut acc: usize = 0;
    let mut i: usize = start;
    while i < n
        invariant
            start <= i <= n,
            n == s@.len(),
            d == s@.skip(start as int),
            usize_text(s@) == digits_usize(d),
            forall|k: int| 0 <= k < i - start ==> is_digit(#[trigger] d[k]),
            acc == digits_value(d.take(i - start)),
        decreases n - i,
    {
        let c = s[i];
        let ghost pre = d.take(i - start);
        proof {
            assert(d.take(i - start + 1).drop_last() =~= pre);
            assert(d[i - start] == c);
        }
        let u = c as u32;
        if !(48 <= u && u <= 57) {
            proof {
                assert(!is_digit(d[i - start]));
                assert(!(forall|k: int| 0 <= k < d.len() ==> is_digit(#[trigger] d[k])));
                assert(digits_usize(d) is None);
            }
            return None;
        }
        let dv = (u - 48) as usize;
        proof {
            assert(digit_value(d[i - start]) == dv);
            assert(digits_value(d.take(i - start + 1)) == acc * 10 + dv);
        }
        match acc.checked_mul(10) {
            Some(m) => match m.checked_add(dv) {
                Some(v) => {
                    acc = v;
                },
                None => {
                    proof {
                        lemma_digits_grow(d, i - start + 1);
                        assert(digits_value(d) > usize::MAX);
                        assert(digits_usize(d) is None);
                    }
                    return None;
                },
            },
            None => {
                proof {
                    lemma_digits_grow(d, i - start + 1);
                    assert(digits_value(d) > usize::MAX);
                    assert(digits_usize(d) is None);
                }
                return None;
            },
        }
        i += 1;
    }
    proof {
        assert(d.take(n - start) =~= d);
    }
    Some(acc)
}

/// Once a prefix of a digit string spells too much, so does the whole string.
proof fn lemma_digits_grow(d: Seq<char>, k: int)
    requires
        0 <= k <= d.len(),
    ensures
        digits_value(d.take(k)) <= digits_value(d),
    decreases d.len() - k,
{
    if k < d.len() {
        lemma_digits_grow(d, k + 1);
        assert(d.take(k + 1).drop_last() =~= d.take(k));
        assert(digits_value(d.take(k + 1)) == digits_value(d.take(k)) * 10 + digit_value(
            d.take(k + 1).last(),
        ));
    } else {
        assert(d.take(k) =~= d);
    }
}

} // verus!
