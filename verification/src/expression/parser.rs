//! Hand-written parsers for the three surface syntaxes.
//!
//! Parsing runs in two passes. The lexer turns the text into lexemes, each syntax with its own
//! spellings ([`lex_from`]). The grammar ([`layer`]) then reads the lexemes by precedence
//! climbing: one level per binary operator, loosest first, each level a left-associative chain of
//! the next tighter level, and at the bottom the prefix NOTs, the operands (a name, a constant or
//! a parenthesised expression) and Liberty's postfix NOTs. What a text parses to is [`parsed`].
use super::error::{reports_input, ExpressionParseError, ParseBoolExprError};
use super::rpn::{lemma_binary, lemma_leaf, lemma_unary, toks_view, wf_program, bool_alg, SToken, Token};
use crate::symbol::Symbol;
use vstd::prelude::*;

verus! {

/// Which grammar to parse with.
#[derive(Clone, Copy, PartialEq, Eq, Structural)]
pub enum SyntaxKind {
    /// `&`/`*` AND, `|`/`+` OR, `^` XOR, prefix `!`/`~` NOT, constants `0`/`1`/`true`/`false`.
    Std,
    /// `&` AND, `|` OR, `^` XOR, `^~`/`~^` XNOR, prefix `~` NOT, constants `1'b1`/`1'b0`/`1`/`0`.
    Verilog,
    /// `*`/`&`/juxtaposition AND, `+`/`|` OR, `^` XOR, postfix `'` or prefix `!` NOT, constants
    /// `1`/`0`; XOR binds tighter than AND.
    Liberty,
}

/// One lexeme.
pub enum Lex {
    Ident(Symbol),
    Const(bool),
    And,
    Or,
    Xor,
    Xnor,
    PreNot,
    PostNot,
    LParen,
    RParen,
}

/// The mathematical value of a lexeme.
pub enum SLex {
    Ident(Seq<char>),
    Const(bool),
    And,
    Or,
    Xor,
    Xnor,
    PreNot,
    PostNot,
    LParen,
    RParen,
}

impl View for Lex {
    type V = SLex;

    open spec fn view(&self) -> SLex {
        match self {
            Lex::Ident(s) => SLex::Ident(s@),
            Lex::Const(b) => SLex::Const(*b),
            Lex::And => SLex::And,
            Lex::Or => SLex::Or,
            Lex::Xor => SLex::Xor,
            Lex::Xnor => SLex::Xnor,
            Lex::PreNot => SLex::PreNot,
            Lex::PostNot => SLex::PostNot,
            Lex::LParen => SLex::LParen,
            Lex::RParen => SLex::RParen,
        }
    }
}

/// The values of a list of lexemes.
pub open spec fn lexv(v: Seq<Lex>) -> Seq<SLex> {
    v.map_values(|l: Lex| l@)
}

// ---- The lexicon -----------------------------------------------------------------------------

/// White space between lexemes.
pub open spec fn is_blank(c: char) -> bool {
    c == ' ' || c == '\t' || c == '\n' || c == '\r'
}

/// A character of a name word.
pub open spec fn is_word(c: char) -> bool {
    ('a' <= c && c <= 'z') || ('A' <= c && c <= 'Z') || ('0' <= c && c <= '9') || c == '_'
}

/// A character that starts a name.
pub open spec fn is_name_start(c: char) -> bool {
    ('a' <= c && c <= 'z') || ('A' <= c && c <= 'Z') || c == '_'
}

/// A decimal digit.
pub open spec fn is_dec(c: char) -> bool {
    '0' <= c && c <= '9'
}

/// The end of the run of digits starting at `j`.
pub open spec fn digits_end(s: Seq<char>, j: int) -> int
    decreases s.len() - j,
{
    if 0 <= j < s.len() && is_dec(s[j]) {
        digits_end(s, j + 1)
    } else {
        j
    }
}

/// The end of the run of word characters starting at `j`.
pub open spec fn word_end(s: Seq<char>, j: int) -> int
    decreases s.len() - j,
{
    if 0 <= j < s.len() && is_word(s[j]) {
        word_end(s, j + 1)
    } else {
        j
    }
}

/// The end of a bus index (`<3>`, `[7]`, `[7:0]`) starting at `i`, or `i` when there is none.
pub open spec fn index_end(s: Seq<char>, i: int) -> int {
    if i < 0 || i >= s.len() || !(s[i] == '<' || s[i] == '[') {
        i
    } else {
        let close = if s[i] == '<' {
            '>'
        } else {
            ']'
        };
        let j = digits_end(s, i + 1);
        if j == i + 1 {
            i
        } else {
            let colon = j < s.len() && s[j] == ':';
            let j2 = if colon {
                digits_end(s, j + 1)
            } else {
                j
            };
            if colon && j2 == j + 1 {
                i
            } else if j2 < s.len() && s[j2] == close {
                j2 + 1
            } else {
                i
            }
        }
    }
}

/// The end of a name segment (a word and an optional bus index) starting at `i`.
pub open spec fn segment_end(s: Seq<char>, i: int) -> int {
    let j = word_end(s, i);
    if j == i {
        i
    } else {
        index_end(s, j)
    }
}

/// The end of the further `/`- or `.`-separated segments of a name from `j`.
pub open spec fn name_rest(s: Seq<char>, j: int) -> int
    decreases s.len() - j,
{
    if 0 <= j && j + 1 < s.len() && (s[j] == '/' || s[j] == '.') && is_word(s[j + 1]) {
        let nx = segment_end(s, j + 1);
        if j < nx <= s.len() {
            name_rest(s, nx)
        } else {
            j
        }
    } else {
        j
    }
}

/// The end of a (possibly hierarchical) name starting at `i`.
pub open spec fn name_end(s: Seq<char>, i: int) -> int {
    let first = segment_end(s, i);
    name_rest(
        s,
        if first > i {
            first
        } else {
            i + 1
        },
    )
}

/// The lexeme at `i` (not white space) and where it ends, if the syntax has one there.
pub open spec fn lex_at(k: SyntaxKind, s: Seq<char>, i: int) -> Option<(SLex, int)> {
    let c = s[i];
    let n = s.len();
    if c == '(' {
        Some((SLex::LParen, i + 1))
    } else if c == ')' {
        Some((SLex::RParen, i + 1))
    } else if is_name_start(c) {
        let j = name_end(s, i);
        let name = s.subrange(i, j);
        if k == SyntaxKind::Std && name == seq!['t', 'r', 'u', 'e'] {
            Some((SLex::Const(true), j))
        } else if k == SyntaxKind::Std && name == seq!['f', 'a', 'l', 's', 'e'] {
            Some((SLex::Const(false), j))
        } else {
            Some((SLex::Ident(name), j))
        }
    } else {
        match k {
            SyntaxKind::Std => if c == '&' || c == '*' {
                Some((SLex::And, i + 1))
            } else if c == '|' || c == '+' {
                Some((SLex::Or, i + 1))
            } else if c == '^' {
                Some((SLex::Xor, i + 1))
            } else if c == '!' || c == '~' {
                Some((SLex::PreNot, i + 1))
            } else if c == '0' {
                Some((SLex::Const(false), i + 1))
            } else if c == '1' {
                Some((SLex::Const(true), i + 1))
            } else {
                None
            },
            SyntaxKind::Verilog => if c == '&' {
                Some((SLex::And, i + 1))
            } else if c == '|' {
                Some((SLex::Or, i + 1))
            } else if c == '^' {
                if i + 1 < n && s[i + 1] == '~' {
                    Some((SLex::Xnor, i + 2))
                } else {
                    Some((SLex::Xor, i + 1))
                }
            } else if c == '~' {
                if i + 1 < n && s[i + 1] == '^' {
                    Some((SLex::Xnor, i + 2))
                } else {
                    Some((SLex::PreNot, i + 1))
                }
            } else if c == '0' || c == '1' {
                if c == '1' && n - i > 3 && s[i + 1] == '\'' && (s[i + 2] == 'b' || s[i + 2] == 'B')
                    && (s[i + 3] == '0' || s[i + 3] == '1') {
                    Some((SLex::Const(s[i + 3] == '1'), i + 4))
                } else {
                    Some((SLex::Const(c == '1'), i + 1))
                }
            } else {
                None
            },
            SyntaxKind::Liberty => if c == '&' || c == '*' {
                Some((SLex::And, i + 1))
            } else if c == '|' || c == '+' {
                Some((SLex::Or, i + 1))
            } else if c == '^' {
                Some((SLex::Xor, i + 1))
            } else if c == '\'' {
                Some((SLex::PostNot, i + 1))
            } else if c == '!' {
                Some((SLex::PreNot, i + 1))
            } else if c == '0' {
                Some((SLex::Const(false), i + 1))
            } else if c == '1' {
                Some((SLex::Const(true), i + 1))
            } else {
                None
            },
        }
    }
}

/// The lexemes of the text from `i` on, or `None` when some character starts no lexeme.
pub open spec fn lex_from(k: SyntaxKind, s: Seq<char>, i: int) -> Option<Seq<SLex>>
    decreases s.len() - i,
{
    if i < 0 || i >= s.len() {
        Some(Seq::empty())
    } else if is_blank(s[i]) {
        lex_from(k, s, i + 1)
    } else {
        match lex_at(k, s, i) {
            None => None,
            Some((l, j)) => if i < j <= s.len() {
                match lex_from(k, s, j) {
                    Some(rest) => Some(seq![l] + rest),
                    None => None,
                }
            } else {
                None
            },
        }
    }
}

// ---- The grammar -----------------------------------------------------------------------------

/// The precedence level of a binary operator, loosest first: OR, then XOR below AND except in
/// Liberty, where XOR binds tighter than AND.
pub open spec fn bin_level(k: SyntaxKind, l: SLex) -> Option<nat> {
    match l {
        SLex::Or => Some(0),
        SLex::And => Some(
            if k == SyntaxKind::Liberty {
                1
            } else {
                2
            },
        ),
        SLex::Xor | SLex::Xnor => Some(
            if k == SyntaxKind::Liberty {
                2
            } else {
                1
            },
        ),
        _ => None,
    }
}

/// The tokens a binary operator emits: XNOR is an XOR followed by a NOT.
pub open spec fn op_toks(l: SLex) -> Seq<SToken> {
    match l {
        SLex::And => seq![SToken::And],
        SLex::Or => seq![SToken::Or],
        SLex::Xor => seq![SToken::Xor],
        SLex::Xnor => seq![SToken::Xor, SToken::Not],
        _ => Seq::empty(),
    }
}

/// Whether a lexeme can start an operand.
pub open spec fn starts_operand(l: SLex) -> bool {
    l is Ident || l is Const || l is LParen || l is PreNot
}

/// Liberty's juxtaposition: at the AND level, an operand right after an operand is a conjunction.
pub open spec fn juxtaposes(k: SyntaxKind, lvl: nat, l: SLex) -> bool {
    k == SyntaxKind::Liberty && lvl == 1 && starts_operand(l)
}

/// An expression of precedence level `lvl` (3 for a unary expression) starting at lexeme `i`:
/// its tokens and the lexeme after it.
pub open spec fn layer(k: SyntaxKind, l: Seq<SLex>, i: int, lvl: nat) -> Option<(Seq<SToken>, int)>
    decreases l.len() - i, 4 - lvl, 1int,
{
    if i < 0 || i > l.len() || lvl > 3 {
        None
    } else if lvl == 3 {
        unary(k, l, i)
    } else {
        match layer(k, l, i, lvl + 1) {
            Some((t, j)) => if i <= j <= l.len() {
                chain(k, l, j, lvl, t)
            } else {
                None
            },
            None => None,
        }
    }
}

/// The rest of a left-associative chain at level `lvl` from lexeme `j`, whose operands so far
/// give the tokens `acc`.
pub open spec fn chain(k: SyntaxKind, l: Seq<SLex>, j: int, lvl: nat, acc: Seq<SToken>) -> Option<(Seq<SToken>, int)>
    decreases l.len() - j, 4 - lvl, 0int,
{
    if j < 0 || j > l.len() || lvl >= 3 {
        None
    } else if j < l.len() && bin_level(k, l[j]) == Some(lvl) {
        match layer(k, l, j + 1, lvl + 1) {
            Some((t2, m)) => if j < m <= l.len() {
                chain(k, l, m, lvl, acc + t2 + op_toks(l[j]))
            } else {
                None
            },
            None => None,
        }
    } else if j < l.len() && juxtaposes(k, lvl, l[j]) {
        match layer(k, l, j, lvl + 1) {
            Some((t2, m)) => if j < m <= l.len() {
                chain(k, l, m, lvl, acc + t2 + seq![SToken::And])
            } else {
                None
            },
            None => None,
        }
    } else {
        Some((acc, j))
    }
}

/// A unary expression at lexeme `i`: prefix NOTs, then an operand and its postfix NOTs.
pub open spec fn unary(k: SyntaxKind, l: Seq<SLex>, i: int) -> Option<(Seq<SToken>, int)>
    decreases l.len() - i, 0int, 0int,
{
    if i < 0 || i >= l.len() {
        None
    } else {
        match l[i] {
            SLex::PreNot => match unary(k, l, i + 1) {
                Some((t, j)) => Some((t + seq![SToken::Not], j)),
                None => None,
            },
            SLex::Ident(n) => Some(postfix(l, i + 1, seq![SToken::Var(n)])),
            SLex::Const(b) => Some(postfix(l, i + 1, seq![SToken::Const(b)])),
            SLex::LParen => match layer(k, l, i + 1, 0) {
                Some((t, j)) => if i < j < l.len() && l[j] is RParen {
                    Some(postfix(l, j + 1, t))
                } else {
                    None
                },
                None => None,
            },
            _ => None,
        }
    }
}

/// The postfix NOTs from lexeme `j` on, applied to the operand tokens `acc`.
pub open spec fn postfix(l: Seq<SLex>, j: int, acc: Seq<SToken>) -> (Seq<SToken>, int)
    decreases l.len() - j,
{
    if 0 <= j < l.len() && l[j] is PostNot {
        postfix(l, j + 1, acc + seq![SToken::Not])
    } else {
        (acc, j)
    }
}

/// What a text parses to in a syntax: the tokens of the expression its lexemes spell, when they
/// spell exactly one.
pub open spec fn parsed(k: SyntaxKind, s: Seq<char>) -> Option<Seq<SToken>> {
    match lex_from(k, s, 0) {
        None => None,
        Some(l) => match layer(k, l, 0, 0) {
            Some((t, j)) => if j == l.len() {
                Some(t)
            } else {
                None
            },
            None => None,
        },
    }
}

// ---- The lexer -------------------------------------------------------------------------------

fn blank(c: char) -> (r: bool)
    ensures
        r == is_blank(c),
{
    c == ' ' || c == '\t' || c == '\n' || c == '\r'
}

fn word_char(c: char) -> (r: bool)
    ensures
        r == is_word(c),
{
    ('a' <= c && c <= 'z') || ('A' <= c && c <= 'Z') || ('0' <= c && c <= '9') || c == '_'
}

fn dec_char(c: char) -> (r: bool)
    ensures
        r == is_dec(c),
{
    '0' <= c && c <= '9'
}

/// The end of the run of digits starting at `j`.
fn scan_digits(chars: &Vec<char>, j: usize) -> (r: usize)
    requires
        j <= chars@.len(),
    ensures
        r == digits_end(chars@, j as int),
        j <= r <= chars@.len(),
{
    let n = chars.len();
    let mut k = j;
    while k < n && dec_char(chars[k])
        invariant
            j <= k <= n,
            n == chars@.len(),
            digits_end(chars@, k as int) == digits_end(chars@, j as int),
        decreases n - k,
    {
        k += 1;
    }
    k
}

/// The end of the run of word characters starting at `j`.
fn scan_word(chars: &Vec<char>, j: usize) -> (r: usize)
    requires
        j <= chars@.len(),
    ensures
        r == word_end(chars@, j as int),
        j <= r <= chars@.len(),
{
    let n = chars.len();
    let mut k = j;
    while k < n && word_char(chars[k])
        invariant
            j <= k <= n,
            n == chars@.len(),
            word_end(chars@, k as int) == word_end(chars@, j as int),
        decreases n - k,
    {
        k += 1;
    }
    k
}

/// The end of a bus index starting at `i`, or `i` when there is none.
fn scan_index(chars: &Vec<char>, i: usize) -> (r: usize)
    requires
        i <= chars@.len(),
    ensures
        r == index_end(chars@, i as int),
        i <= r <= chars@.len(),
{
    let n = chars.len();
    if i >= n {
        return i;
    }
    let open = chars[i];
    let close = if open == '<' {
        '>'
    } else if open == '[' {
        ']'
    } else {
        return i;
    };
    let j = scan_digits(chars, i + 1);
    if j == i + 1 {
        return i;
    }
    let colon = j < n && chars[j] == ':';
    let j2 = if colon {
        scan_digits(chars, j + 1)
    } else {
        j
    };
    if colon && j2 == j + 1 {
        return i;
    }
    if j2 < n && chars[j2] == close {
        j2 + 1
    } else {
        i
    }
}

/// The end of one name segment starting at `i`.
fn scan_segment(chars: &Vec<char>, i: usize) -> (r: usize)
    requires
        i <= chars@.len(),
    ensures
        r == segment_end(chars@, i as int),
        i <= r <= chars@.len(),
{
    let j = scan_word(chars, i);
    if j == i {
        return i;
    }
    scan_index(chars, j)
}

/// The end of a name starting at `i`.
fn scan_name(chars: &Vec<char>, i: usize) -> (r: usize)
    requires
        i < chars@.len(),
    ensures
        r == name_end(chars@, i as int),
        i < r <= chars@.len(),
{
    let n = chars.len();
    let first = scan_segment(chars, i);
    let mut j = if first > i {
        first
    } else {
        i + 1
    };
    while n - j > 1 && (chars[j] == '/' || chars[j] == '.') && word_char(chars[j + 1])
        invariant
            i < j <= n,
            n == chars@.len(),
            name_rest(chars@, j as int) == name_end(chars@, i as int),
        decreases n - j,
    {
        let next = scan_segment(chars, j + 1);
        j = next;
    }
    j
}

/// The characters `chars[from..to]` as a symbol.
fn slice_symbol(chars: &Vec<char>, from: usize, to: usize) -> (r: Symbol)
    requires
        from <= to <= chars@.len(),
    ensures
        r@ == chars@.subrange(from as int, to as int),
{
    let mut text = String::new();
    let mut i = from;
    while i < to
        invariant
            from <= i <= to,
            to <= chars@.len(),
            text@ == chars@.subrange(from as int, i as int),
        decreases to - i,
    {
        crate::text::push_char(&mut text, chars[i]);
        i += 1;
        proof {
            assert(text@ =~= chars@.subrange(from as int, i as int));
        }
    }
    Symbol::new(text.as_str())
}

/// Whether `chars[i..j]` is the word `w`.
fn span_is(chars: &Vec<char>, i: usize, j: usize, w: &Vec<char>) -> (r: bool)
    requires
        i <= j <= chars@.len(),
    ensures
        r == (chars@.subrange(i as int, j as int) == w@),
{
    if j - i != w.len() {
        proof {
            assert(chars@.subrange(i as int, j as int).len() != w@.len());
        }
        return false;
    }
    let m = w.len();
    let mut k: usize = 0;
    while k < m
        invariant
            m == w@.len(),
            i + m == j,
            j <= chars@.len(),
            k <= m,
            forall|q: int| 0 <= q < k ==> chars@[i + q] == w@[q],
        decreases m - k,
    {
        if chars[i + k] != w[k] {
            proof {
                assert(chars@.subrange(i as int, j as int)[k as int] != w@[k as int]);
            }
            return false;
        }
        k += 1;
    }
    proof {
        assert(chars@.subrange(i as int, j as int) =~= w@);
    }
    true
}

/// The lexeme at `i` (not white space) and where it ends (see [`lex_at`]).
fn lex_one(kind: SyntaxKind, chars: &Vec<char>, i: usize) -> (r: Option<(Lex, usize)>)
    requires
        i < chars@.len(),
    ensures
        match lex_at(kind, chars@, i as int) {
            Some((l, j)) => r matches Some((x, e)) && x@ == l && e == j,
            None => r is None,
        },
        r matches Some((_, j)) ==> i < j <= chars@.len(),
{
    let n = chars.len();
    let c = chars[i];
    if c == '(' {
        return Some((Lex::LParen, i + 1));
    }
    if c == ')' {
        return Some((Lex::RParen, i + 1));
    }
    if ('a' <= c && c <= 'z') || ('A' <= c && c <= 'Z') || c == '_' {
        let j = scan_name(chars, i);
        if kind == SyntaxKind::Std {
            let t: Vec<char> = vec!['t', 'r', 'u', 'e'];
            let f: Vec<char> = vec!['f', 'a', 'l', 's', 'e'];
            if span_is(chars, i, j, &t) {
                return Some((Lex::Const(true), j));
            }
            if span_is(chars, i, j, &f) {
                return Some((Lex::Const(false), j));
            }
        }
        let name = slice_symbol(chars, i, j);
        return Some((Lex::Ident(name), j));
    }
    match kind {
        SyntaxKind::Std => {
            if c == '&' || c == '*' {
                Some((Lex::And, i + 1))
            } else if c == '|' || c == '+' {
                Some((Lex::Or, i + 1))
            } else if c == '^' {
                Some((Lex::Xor, i + 1))
            } else if c == '!' || c == '~' {
                Some((Lex::PreNot, i + 1))
            } else if c == '0' {
                Some((Lex::Const(false), i + 1))
            } else if c == '1' {
                Some((Lex::Const(true), i + 1))
            } else {
                None
            }
        },
        SyntaxKind::Verilog => {
            if c == '&' {
                Some((Lex::And, i + 1))
            } else if c == '|' {
                Some((Lex::Or, i + 1))
            } else if c == '^' {
                if i + 1 < n && chars[i + 1] == '~' {
                    Some((Lex::Xnor, i + 2))
                } else {
                    Some((Lex::Xor, i + 1))
                }
            } else if c == '~' {
                if i + 1 < n && chars[i + 1] == '^' {
                    Some((Lex::Xnor, i + 2))
                } else {
                    Some((Lex::PreNot, i + 1))
                }
            } else if c == '0' || c == '1' {
                if c == '1' && n - i > 3 && chars[i + 1] == '\'' && (chars[i + 2] == 'b'
                    || chars[i + 2] == 'B') && (chars[i + 3] == '0' || chars[i + 3] == '1') {
                    Some((Lex::Const(chars[i + 3] == '1'), i + 4))
                } else {
                    Some((Lex::Const(c == '1'), i + 1))
                }
            } else {
                None
            }
        },
        SyntaxKind::Liberty => {
            if c == '&' || c == '*' {
                Some((Lex::And, i + 1))
            } else if c == '|' || c == '+' {
                Some((Lex::Or, i + 1))
            } else if c == '^' {
                Some((Lex::Xor, i + 1))
            } else if c == '\'' {
                Some((Lex::PostNot, i + 1))
            } else if c == '!' {
                Some((Lex::PreNot, i + 1))
            } else if c == '0' {
                Some((Lex::Const(false), i + 1))
            } else if c == '1' {
                Some((Lex::Const(true), i + 1))
            } else {
                None
            }
        },
    }
}

/// Prefix a list of lexemes onto an optional list.
pub open spec fn prefixed(p: Seq<SLex>, o: Option<Seq<SLex>>) -> Option<Seq<SLex>> {
    match o {
        Some(r) => Some(p + r),
        None => None,
    }
}

/// The lexemes of the text with the index of the character each starts at, or the index of the
/// first character that starts no lexeme.
fn lex_all(kind: SyntaxKind, chars: &Vec<char>) -> (r: Result<(Vec<Lex>, Vec<usize>), usize>)
    ensures
        match lex_from(kind, chars@, 0) {
            Some(l) => r matches Ok((v, at)) && lexv(v@) == l && at@.len() == v@.len() && (forall|q: int|
                0 <= q < at@.len() ==> #[trigger] at@[q] < chars@.len()),
            None => r matches Err(p) && p < chars@.len(),
        },
{
    let n = chars.len();
    let mut out: Vec<Lex> = Vec::new();
    let mut at: Vec<usize> = Vec::new();
    let mut i: usize = 0;
    proof {
        assert(lexv(out@) =~= Seq::<SLex>::empty());
        assert(prefixed(Seq::empty(), lex_from(kind, chars@, 0)) == lex_from(kind, chars@, 0)) by {
            match lex_from(kind, chars@, 0) {
                Some(l) => {
                    assert(Seq::<SLex>::empty() + l =~= l);
                },
                None => {},
            }
        }
    }
    while i < n
        invariant
            n == chars@.len(),
            i <= n,
            prefixed(lexv(out@), lex_from(kind, chars@, i as int)) == lex_from(kind, chars@, 0),
            at@.len() == out@.len(),
            forall|q: int| 0 <= q < at@.len() ==> #[trigger] at@[q] < n,
        decreases n - i,
    {
        if blank(chars[i]) {
            i += 1;
        } else {
            match lex_one(kind, chars, i) {
                None => {
                    return Err(i);
                },
                Some((l, j)) => {
                    let ghost lv = l@;
                    let ghost before = lexv(out@);
                    out.push(l);
                    at.push(i);
                    proof {
                        assert(lexv(out@) =~= before.push(lv));
                        match lex_from(kind, chars@, j as int) {
                            Some(rest) => {
                                assert(before.push(lv) + rest =~= before + (seq![lv] + rest));
                            },
                            None => {},
                        }
                    }
                    i = j;
                },
            }
        }
    }
    proof {
        assert(lexv(out@) + Seq::<SLex>::empty() =~= lexv(out@));
    }
    Ok((out, at))
}

// ---- The parser ------------------------------------------------------------------------------

/// `c` NOT tokens.
pub open spec fn nots(c: nat) -> Seq<SToken> {
    Seq::new(c, |q: int| SToken::Not)
}

/// Prefix NOTs from `i` up to `k` wrap what follows them.
proof fn lemma_prefix_nots(k: SyntaxKind, l: Seq<SLex>, i: int, e: int)
    requires
        0 <= i <= e <= l.len(),
        forall|q: int| i <= q < e ==> l[q] is PreNot,
    ensures
        unary(k, l, i) == (match unary(k, l, e) {
            Some((t, j)) => Some((t + nots((e - i) as nat), j)),
            None => None,
        }),
    decreases e - i,
{
    if i < e {
        lemma_prefix_nots(k, l, i + 1, e);
        match unary(k, l, e) {
            Some((t, j)) => {
                assert(t + nots((e - i - 1) as nat) + seq![SToken::Not] =~= t + nots((e - i) as nat));
            },
            None => {},
        }
    } else {
        match unary(k, l, e) {
            Some((t, j)) => {
                assert(t + nots(0) =~= t);
            },
            None => {},
        }
    }
}

fn is_prenot(l: &Lex) -> (r: bool)
    ensures
        r == (l@ is PreNot),
{
    match l {
        Lex::PreNot => true,
        _ => false,
    }
}

fn is_postnot(l: &Lex) -> (r: bool)
    ensures
        r == (l@ is PostNot),
{
    match l {
        Lex::PostNot => true,
        _ => false,
    }
}

fn level_of(kind: SyntaxKind, l: &Lex) -> (r: Option<u8>)
    ensures
        match bin_level(kind, l@) {
            Some(v) => r == Some(v as u8),
            None => r is None,
        },
{
    match l {
        Lex::Or => Some(0),
        Lex::And => if kind == SyntaxKind::Liberty {
            Some(1)
        } else {
            Some(2)
        },
        Lex::Xor | Lex::Xnor => if kind == SyntaxKind::Liberty {
            Some(2)
        } else {
            Some(1)
        },
        _ => None,
    }
}

fn push_op(out: &mut Vec<Token>, l: &Lex)
    ensures
        toks_view(final(out)@) == toks_view(old(out)@) + op_toks(l@),
{
    let ghost before = toks_view(out@);
    match l {
        Lex::And => out.push(Token::And),
        Lex::Or => out.push(Token::Or),
        Lex::Xor => out.push(Token::Xor),
        Lex::Xnor => {
            out.push(Token::Xor);
            out.push(Token::Not);
        },
        _ => {},
    }
    proof {
        assert(toks_view(out@) =~= before + op_toks(l@));
    }
}

fn push_tok(out: &mut Vec<Token>, t: Token)
    ensures
        toks_view(final(out)@) == toks_view(old(out)@) + seq![t@],
{
    let ghost before = toks_view(out@);
    let ghost tv = t@;
    out.push(t);
    proof {
        assert(toks_view(out@) =~= before + seq![tv]);
    }
}

/// An expression of level `lvl` at lexeme `i` (see [`layer`]), its tokens appended to `out`;
/// on failure, the index of the lexeme where it failed.
fn p_layer(kind: SyntaxKind, lx: &Vec<Lex>, i: usize, lvl: u8, out: &mut Vec<Token>) -> (r: Result<usize, usize>)
    requires
        i <= lx@.len(),
        lvl <= 3,
    ensures
        match layer(kind, lexv(lx@), i as int, lvl as nat) {
            Some((t, j)) => r matches Ok(x) && x as int == j && toks_view(final(out)@) == toks_view(
                old(out)@,
            ) + t,
            None => r is Err,
        },
        r matches Ok(j) ==> i < j <= lx@.len(),
        r matches Err(p) ==> p <= lx@.len(),
    decreases lx@.len() - i, 4 - lvl, 1int,
{
    let ghost l = lexv(lx@);
    if lvl == 3 {
        return p_unary(kind, lx, i, out);
    }
    let ghost base = toks_view(out@);
    let first = p_layer(kind, lx, i, lvl + 1, out);
    let j0 = match first {
        Ok(j) => j,
        Err(p) => {
            return Err(p);
        },
    };
    let ghost t0 = (layer(kind, l, i as int, (lvl + 1) as nat)->0).0;
    let ghost target = chain(kind, l, j0 as int, lvl as nat, t0);
    proof {
        assert((lvl + 1) as nat == lvl as nat + 1);
        assert(layer(kind, l, i as int, lvl as nat) == target);
        assert(toks_view(out@) =~= base + t0);
    }
    let ghost mut acc: Seq<SToken> = t0;
    let n = lx.len();
    let mut j = j0;
    loop
        invariant
            n == lx@.len(),
            l == lexv(lx@),
            lvl < 3,
            i < j <= n,
            base == toks_view(old(out)@),
            toks_view(out@) == base + acc,
            chain(kind, l, j as int, lvl as nat, acc) == target,
            target == layer(kind, l, i as int, lvl as nat),
        decreases n - j,
    {
        if j >= n {
            return Ok(j);
        }
        let ghost lj = l[j as int];
        proof {
            assert(lx@[j as int]@ == lj);
        }
        let lev = level_of(kind, &lx[j]);
        proof {
            assert((lvl + 1) as nat == lvl as nat + 1);
        }
        if lev == Some(lvl) {
            proof {
                assert(bin_level(kind, lj) == Some(lvl as nat));
            }
            let ghost mid = toks_view(out@);
            let m = match p_layer(kind, lx, j + 1, lvl + 1, out) {
                Ok(m) => m,
                Err(p) => {
                    return Err(p);
                },
            };
            let ghost t2 = toks_view(out@).skip(mid.len() as int);
            proof {
                assert(toks_view(out@) =~= mid + t2);
            }
            push_op(out, &lx[j]);
            proof {
                assert(toks_view(out@) =~= base + (acc + t2 + op_toks(lj)));
                assert(layer(kind, l, j + 1, lvl as nat + 1) == Some((t2, m as int)));
                assert(chain(kind, l, j as int, lvl as nat, acc) == chain(kind, l, m as int, lvl as nat, acc + t2 + op_toks(lj)));
                acc = acc + t2 + op_toks(lj);
            }
            j = m;
        } else if kind == SyntaxKind::Liberty && lvl == 1 && (match &lx[j] {
            Lex::Ident(_) | Lex::Const(_) | Lex::LParen | Lex::PreNot => true,
            _ => false,
        }) {
            let ghost mid = toks_view(out@);
            let m = match p_layer(kind, lx, j, lvl + 1, out) {
                Ok(m) => m,
                Err(p) => {
                    return Err(p);
                },
            };
            let ghost t2 = toks_view(out@).skip(mid.len() as int);
            proof {
                assert(toks_view(out@) =~= mid + t2);
            }
            push_tok(out, Token::And);
            proof {
                assert(toks_view(out@) =~= base + (acc + t2 + seq![SToken::And]));
                assert(juxtaposes(kind, lvl as nat, lj));
                assert(layer(kind, l, j as int, lvl as nat + 1) == Some((t2, m as int)));
                assert(chain(kind, l, j as int, lvl as nat, acc) == chain(kind, l, m as int, lvl as nat, acc + t2 + seq![SToken::And]));
                acc = acc + t2 + seq![SToken::And];
            }
            j = m;
        } else {
            return Ok(j);
        }
    }
}

/// A unary expression at lexeme `i` (see [`unary`]), its tokens appended to `out`.
fn p_unary(kind: SyntaxKind, lx: &Vec<Lex>, i: usize, out: &mut Vec<Token>) -> (r: Result<usize, usize>)
    requires
        i <= lx@.len(),
    ensures
        match unary(kind, lexv(lx@), i as int) {
            Some((t, j)) => r matches Ok(x) && x as int == j && toks_view(final(out)@) == toks_view(
                old(out)@,
            ) + t,
            None => r is Err,
        },
        r matches Ok(j) ==> i < j <= lx@.len(),
        r matches Err(p) ==> p <= lx@.len(),
    decreases lx@.len() - i, 0int, 0int,
{
    let ghost l = lexv(lx@);
    let ghost base = toks_view(out@);
    let n = lx.len();
    let mut e = i;
    while e < n && is_prenot(&lx[e])
        invariant
            n == lx@.len(),
            l == lexv(lx@),
            i <= e <= n,
            forall|q: int| i <= q < e ==> l[q] is PreNot,
        decreases n - e,
    {
        proof {
            assert(lx@[e as int]@ == l[e as int]);
        }
        e += 1;
    }
    proof {
        lemma_prefix_nots(kind, l, i as int, e as int);
    }
    if e >= n {
        return Err(e);
    }
    proof {
        assert(lx@[e as int]@ == l[e as int]);
    }
    let mut j0: usize = e + 1;
    match &lx[e] {
        Lex::Ident(s) => {
            push_tok(out, Token::Var(s.copy()));
            proof {
                assert(toks_view(out@).skip(base.len() as int) =~= seq![SToken::Var(s@)]);
            }
        },
        Lex::Const(b) => {
            push_tok(out, Token::Const(*b));
            proof {
                assert(toks_view(out@).skip(base.len() as int) =~= seq![SToken::Const(*b)]);
            }
        },
        Lex::LParen => {
            let m = match p_layer(kind, lx, e + 1, 0, out) {
                Ok(m) => m,
                Err(p) => {
                    return Err(p);
                },
            };
            proof {
                if m < n {
                    assert(lx@[m as int]@ == l[m as int]);
                }
            }
            let closed = m < n && (match &lx[m] {
                Lex::RParen => true,
                _ => false,
            });
            if !closed {
                return Err(m);
            }
            proof {
                assert(toks_view(out@).skip(base.len() as int) =~= (layer(kind, l, e + 1, 0)->0).0);
            }
            j0 = m + 1;
        },
        _ => {
            return Err(e);
        },
    }
    proof {
        assert(unary(kind, l, e as int) == Some(postfix(l, j0 as int, toks_view(out@).skip(base.len() as int))));
    }
    let ghost start = toks_view(out@).skip(base.len() as int);
    proof {
        assert(toks_view(out@) =~= base + start);
    }
    let ghost target = postfix(l, j0 as int, start);
    let ghost mut acc = start;
    let mut j = j0;
    while j < n && is_postnot(&lx[j])
        invariant
            n == lx@.len(),
            l == lexv(lx@),
            e < j0 <= j <= n,
            toks_view(out@) == base + acc,
            postfix(l, j as int, acc) == target,
        decreases n - j,
    {
        proof {
            assert(lx@[j as int]@ == l[j as int]);
        }
        push_tok(out, Token::Not);
        proof {
            assert(toks_view(out@) =~= base + (acc + seq![SToken::Not]));
            acc = acc + seq![SToken::Not];
        }
        j += 1;
    }
    proof {
        if j < n {
            assert(lx@[j as int]@ == l[j as int]);
        }
        assert(postfix(l, j as int, acc) == (acc, j as int));
    }
    let mut c = i;
    while c < e
        invariant
            i <= c <= e,
            toks_view(out@) == base + acc + nots((c - i) as nat),
        decreases e - c,
    {
        push_tok(out, Token::Not);
        proof {
            assert(toks_view(out@) =~= base + acc + nots((c + 1 - i) as nat));
        }
        c += 1;
    }
    proof {
        assert(toks_view(out@) =~= base + (acc + nots((e - i) as nat)));
    }
    Ok(j)
}

/// Every expression the grammar reads is a well-formed program, and reading moves forward
/// within the lexemes.
pub proof fn lemma_layer_wf(k: SyntaxKind, l: Seq<SLex>, i: int, lvl: nat)
    requires
        layer(k, l, i, lvl) is Some,
    ensures
        wf_program((layer(k, l, i, lvl)->0).0),
        i < (layer(k, l, i, lvl)->0).1 <= l.len(),
    decreases l.len() - i, 4 - lvl, 1int,
{
    if lvl == 3 {
        lemma_unary_wf(k, l, i);
    } else {
        lemma_layer_wf(k, l, i, lvl + 1);
        let (t, j) = layer(k, l, i, lvl + 1)->0;
        lemma_chain_wf(k, l, j, lvl, t);
    }
}

proof fn lemma_chain_wf(k: SyntaxKind, l: Seq<SLex>, j: int, lvl: nat, acc: Seq<SToken>)
    requires
        chain(k, l, j, lvl, acc) is Some,
        wf_program(acc),
    ensures
        wf_program((chain(k, l, j, lvl, acc)->0).0),
        j <= (chain(k, l, j, lvl, acc)->0).1 <= l.len(),
    decreases l.len() - j, 4 - lvl, 0int,
{
    let a = bool_alg(|n: Seq<char>| false);
    if j < l.len() && bin_level(k, l[j]) == Some(lvl) {
        lemma_layer_wf(k, l, j + 1, lvl + 1);
        let (t2, m) = layer(k, l, j + 1, lvl + 1)->0;
        let op = l[j];
        match op {
            SLex::Xnor => {
                lemma_binary(acc, t2, SToken::Xor, a);
                lemma_unary(acc + t2 + seq![SToken::Xor], a);
                assert(acc + t2 + op_toks(op) =~= acc + t2 + seq![SToken::Xor] + seq![SToken::Not]);
            },
            SLex::And => {
                lemma_binary(acc, t2, SToken::And, a);
            },
            SLex::Or => {
                lemma_binary(acc, t2, SToken::Or, a);
            },
            _ => {
                lemma_binary(acc, t2, SToken::Xor, a);
            },
        }
        lemma_chain_wf(k, l, m, lvl, acc + t2 + op_toks(op));
    } else if j < l.len() && juxtaposes(k, lvl, l[j]) {
        lemma_layer_wf(k, l, j, lvl + 1);
        let (t2, m) = layer(k, l, j, lvl + 1)->0;
        lemma_binary(acc, t2, SToken::And, a);
        lemma_chain_wf(k, l, m, lvl, acc + t2 + seq![SToken::And]);
    }
}

proof fn lemma_unary_wf(k: SyntaxKind, l: Seq<SLex>, i: int)
    requires
        unary(k, l, i) is Some,
    ensures
        wf_program((unary(k, l, i)->0).0),
        i < (unary(k, l, i)->0).1 <= l.len(),
    decreases l.len() - i, 0int, 0int,
{
    let a = bool_alg(|n: Seq<char>| false);
    match l[i] {
        SLex::PreNot => {
            lemma_unary_wf(k, l, i + 1);
            lemma_unary((unary(k, l, i + 1)->0).0, a);
        },
        SLex::Ident(n) => {
            lemma_leaf(SToken::Var(n), a);
            lemma_postfix_wf(l, i + 1, seq![SToken::Var(n)]);
        },
        SLex::Const(b) => {
            lemma_leaf(SToken::Const(b), a);
            lemma_postfix_wf(l, i + 1, seq![SToken::Const(b)]);
        },
        SLex::LParen => {
            lemma_layer_wf(k, l, i + 1, 0);
            let (t, j) = layer(k, l, i + 1, 0)->0;
            lemma_postfix_wf(l, j + 1, t);
        },
        _ => {},
    }
}

proof fn lemma_postfix_wf(l: Seq<SLex>, j: int, acc: Seq<SToken>)
    requires
        wf_program(acc),
        0 <= j <= l.len(),
    ensures
        wf_program(postfix(l, j, acc).0),
        j <= postfix(l, j, acc).1 <= l.len(),
    decreases l.len() - j,
{
    if 0 <= j < l.len() && l[j] is PostNot {
        lemma_unary(acc, bool_alg(|n: Seq<char>| false));
        lemma_postfix_wf(l, j + 1, acc + seq![SToken::Not]);
    }
}

/// The number of bytes UTF-8 spends on a character: one below U+0080, two below U+0800, three
/// below U+10000, four above.
pub open spec fn utf8_len(c: char) -> nat {
    if (c as u32) < 0x80 {
        1
    } else if (c as u32) < 0x800 {
        2
    } else if (c as u32) < 0x10000 {
        3
    } else {
        4
    }
}

/// The UTF-8 width of a character.
fn utf8_width(c: char) -> (r: usize)
    ensures
        r == utf8_len(c),
{
    let v = c as u32;
    if v < 0x80 {
        1
    } else if v < 0x800 {
        2
    } else if v < 0x10000 {
        3
    } else {
        4
    }
}

/// The characters of `input`, the byte offset at which each one starts, and the byte length.
fn decode(input: &str) -> (r: (Vec<char>, Vec<usize>, usize))
    ensures
        r.0@ == input@,
        r.1@.len() == r.0@.len(),
{
    let mut chars: Vec<char> = Vec::new();
    let mut offsets: Vec<usize> = Vec::new();
    let mut byte: usize = 0;
    for c in it: input.chars()
        invariant
            chars@ == it.seq().take(it.index() as int),
            offsets@.len() == chars@.len(),
    {
        chars.push(c);
        offsets.push(byte);
        let w = utf8_width(c);
        byte = if byte <= usize::MAX - w {
            byte + w
        } else {
            usize::MAX
        };
    }
    assert(chars@ =~= input@);
    (chars, offsets, byte)
}

/// The syntax error at byte `position` of `input`, with the given message.
fn syntax_error(input: &str, message: &str, position: usize) -> (r: ParseBoolExprError)
    ensures
        r matches ParseBoolExprError::Parse(
            ExpressionParseError::InvalidSyntax { message: m, input: i, position: p },
        ) && m@ == message@ && i@ == input@ && p == Some(position),
{
    ParseBoolExprError::Parse(
        ExpressionParseError::InvalidSyntax {
            message: message.to_owned(),
            input: input.to_owned(),
            position: Some(position),
        },
    )
}

/// Parse `input` in the given syntax into a reverse-Polish program: the program [`parsed`]
/// gives, or an error, with the byte offset where reading stopped, when the text spells no
/// expression.
pub fn parse_tokens(kind: SyntaxKind, input: &str) -> (r: Result<Vec<Token>, ParseBoolExprError>)
    ensures
        match parsed(kind, input@) {
            Some(t) => r matches Ok(v) && toks_view(v@) == t,
            None => r is Err,
        },
        r matches Ok(t) ==> wf_program(toks_view(t@)),
        r matches Err(e) ==> reports_input(e, input@),
{
    let (chars, offsets, total) = decode(input);
    let (lx, at) = match lex_all(kind, &chars) {
        Ok(p) => p,
        Err(ci) => {
            return Err(syntax_error(input, "invalid token", offsets[ci]));
        },
    };
    let mut out: Vec<Token> = Vec::new();
    proof {
        assert(toks_view(out@) =~= Seq::<SToken>::empty());
    }
    let n = lx.len();
    match p_layer(kind, &lx, 0, 0, &mut out) {
        Ok(j) => {
            if j == n {
                proof {
                    let l = lexv(lx@);
                    lemma_layer_wf(kind, l, 0, 0);
                    assert(toks_view(out@) =~= (layer(kind, l, 0, 0)->0).0);
                }
                Ok(out)
            } else {
                let message = match &lx[j] {
                    Lex::RParen => "unmatched closing parenthesis",
                    _ => "unexpected token",
                };
                Err(syntax_error(input, message, offsets[at[j]]))
            }
        },
        Err(p) => {
            if p < n {
                let message = match &lx[p] {
                    Lex::RParen => "unmatched closing parenthesis",
                    _ => "unexpected token",
                };
                Err(syntax_error(input, message, offsets[at[p]]))
            } else {
                Err(syntax_error(input, "unexpected end of input", total))
            }
        },
    }
}

} // verus!
