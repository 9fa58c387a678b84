//! Reading back what the PLA writer wrote.
//!
//! The writer's text is a list of lines, each ended by a line feed. The proof takes it apart
//! line by line: the text splits back into those lines, each line trims to itself (a cube row
//! without inputs loses its leading space), directives split into their words, the numbers they
//! carry read back, and every cube row reads back as the one cube it was written from.
use super::cube::{CubeType, PLAType};
use super::pla::{
    bar_at, cube_row, cube_text, cubes_text, default_labels, directive, finish_row, first_bad_input,
    first_bad_output, input_char, input_value, label_line, output_char, output_class, pla_lines, pla_reading,
    pla_run, pla_start, pla_step, pla_text, row_cubes, shown, shown_count, spaced, type_header, type_named,
    PlaStep, SCube, SPla, SPlaParts, SPlaError,
};
use crate::lines::{
    digit_value, digits_usize, digits_value, is_digit, is_space, lead, pieces_from, strip, text_lines,
    trail, trim, usize_text, words, words_from,
};
use crate::text::{dec, digit};
use vstd::prelude::*;

verus! {

// ---- Numbers -------------------------------------------------------------------------------

proof fn lemma_digit(d: nat)
    requires
        d < 10,
    ensures
        is_digit(digit(d)),
        digit_value(digit(d)) == d,
        digit(d) != '+',
        !is_space(digit(d)),
{
}

/// The decimal digits of `n` read back as `n`.
proof fn lemma_dec_value(n: nat)
    ensures
        dec(n).len() > 0,
        forall|i: int| 0 <= i < dec(n).len() ==> is_digit(#[trigger] dec(n)[i]) && !is_space(dec(n)[i]),
        digits_value(dec(n)) == n,
    decreases n,
{
    if n < 10 {
        lemma_digit(n);
        assert(dec(n) == seq![digit(n)]);
        assert(dec(n).drop_last() =~= Seq::<char>::empty());
        assert(digits_value(Seq::<char>::empty()) == 0);
        assert(dec(n).last() == digit(n));
    } else {
        lemma_dec_value(n / 10);
        lemma_digit(n % 10);
        let s = dec(n / 10);
        assert(dec(n) == s.push(digit(n % 10)));
        assert(dec(n).drop_last() =~= s);
        assert(dec(n).last() == digit(n % 10));
        assert(digits_value(dec(n)) == digits_value(s) * 10 + digit_value(digit(n % 10)));
        assert(n == (n / 10) * 10 + n % 10);
    }
}

/// A number written in decimal reads back.
pub proof fn lemma_dec_parses(n: usize)
    ensures
        usize_text(dec(n as nat)) == Some(n),
{
    lemma_dec_value(n as nat);
    lemma_digit((n % 10) as nat);
    assert(dec(n as nat)[0] != '+');
    assert(digits_usize(dec(n as nat)) == Some(n));
}

// ---- Lines ---------------------------------------------------------------------------------

/// Lines joined, each followed by a line feed.
pub open spec fn join(ls: Seq<Seq<char>>) -> Seq<char>
    decreases ls.len(),
{
    if ls.len() == 0 {
        Seq::empty()
    } else {
        ls[0] + seq!['\n'] + join(ls.drop_first())
    }
}

/// A line holds no line feed.
pub open spec fn one_line(l: Seq<char>) -> bool {
    forall|q: int| 0 <= q < l.len() ==> #[trigger] l[q] != '\n'
}

proof fn lemma_join_push(ls: Seq<Seq<char>>, x: Seq<char>)
    ensures
        join(ls.push(x)) == join(ls) + x + seq!['\n'],
    decreases ls.len(),
{
    if ls.len() == 0 {
        assert(ls.push(x).drop_first() =~= Seq::<Seq<char>>::empty());
        assert(join(ls.push(x).drop_first()) =~= Seq::<char>::empty());
        assert(ls.push(x)[0] == x);
        assert(join(ls) =~= Seq::<char>::empty());
        assert(join(ls.push(x)) =~= x + seq!['\n']);
    } else {
        lemma_join_push(ls.drop_first(), x);
        assert(ls.push(x).drop_first() =~= ls.drop_first().push(x));
        assert(join(ls.push(x)) =~= join(ls) + x + seq!['\n']);
    }
}

proof fn lemma_join_concat(a: Seq<Seq<char>>, b: Seq<Seq<char>>)
    ensures
        join(a + b) == join(a) + join(b),
    decreases a.len(),
{
    if a.len() == 0 {
        assert(a + b =~= b);
    } else {
        lemma_join_concat(a.drop_first(), b);
        assert((a + b).drop_first() =~= a.drop_first() + b);
        assert((a + b)[0] == a[0]);
    }
}

proof fn lemma_pieces_line(a: Seq<char>, rest: Seq<char>, cur: Seq<char>)
    requires
        one_line(a),
    ensures
        pieces_from(a + seq!['\n'] + rest, cur) == seq![cur + a] + pieces_from(rest, Seq::empty()),
    decreases a.len(),
{
    if a.len() == 0 {
        assert((a + seq!['\n'] + rest).drop_first() =~= rest);
        assert(cur + a =~= cur);
    } else {
        assert((a + seq!['\n'] + rest).drop_first() =~= a.drop_first() + seq!['\n'] + rest);
        lemma_pieces_line(a.drop_first(), rest, cur.push(a[0]));
        assert(cur.push(a[0]) + a.drop_first() =~= cur + a);
    }
}

proof fn lemma_pieces_join(ls: Seq<Seq<char>>)
    requires
        forall|q: int| 0 <= q < ls.len() ==> one_line(#[trigger] ls[q]),
    ensures
        pieces_from(join(ls), Seq::empty()) == ls.push(Seq::empty()),
    decreases ls.len(),
{
    if ls.len() == 0 {
        assert(pieces_from(Seq::<char>::empty(), Seq::empty()) == seq![Seq::<char>::empty()]);
        assert(ls.push(Seq::empty()) =~= seq![Seq::<char>::empty()]);
    } else {
        lemma_pieces_join(ls.drop_first());
        lemma_pieces_line(ls[0], join(ls.drop_first()), Seq::empty());
        assert(Seq::<char>::empty() + ls[0] =~= ls[0]);
        assert(seq![ls[0]] + ls.drop_first().push(Seq::empty()) =~= ls.push(Seq::empty()));
    }
}

/// Lines joined with line feeds split back into those lines.
proof fn lemma_text_lines_join(ls: Seq<Seq<char>>)
    requires
        forall|q: int| 0 <= q < ls.len() ==> one_line(#[trigger] ls[q]),
    ensures
        text_lines(join(ls)) == ls,
{
    lemma_pieces_join(ls);
    assert(ls.push(Seq::<char>::empty()).drop_last() =~= ls);
}

/// A text with no white space at either end trims to itself.
proof fn lemma_trim_bare(s: Seq<char>)
    requires
        s.len() > 0,
        !is_space(s[0]),
        !is_space(s.last()),
    ensures
        trim(s) == s,
{
    assert(lead(s) == 0);
    assert(s.skip(0) =~= s);
    assert(trail(s) == 0);
    assert(s.take(s.len() as int) =~= s);
}

/// A leading space is trimmed away.
proof fn lemma_trim_space(s: Seq<char>)
    requires
        s.len() > 0,
        !is_space(s[0]),
        !is_space(s.last()),
    ensures
        trim(seq![' '] + s) == s,
{
    let t = seq![' '] + s;
    assert(t.drop_first() =~= s);
    assert(lead(s) == 0);
    assert(lead(t) == 1);
    assert(t.skip(1) =~= s);
    assert(trail(s) == 0);
    assert(s.take(s.len() as int) =~= s);
}

// ---- Words ---------------------------------------------------------------------------------

/// A word: nonempty, without white space.
pub open spec fn word(w: Seq<char>) -> bool {
    w.len() > 0 && forall|q: int| 0 <= q < w.len() ==> !is_space(#[trigger] w[q])
}

/// Words joined by single spaces.
pub open spec fn sjoin(ws: Seq<Seq<char>>) -> Seq<char>
    decreases ws.len(),
{
    if ws.len() <= 1 {
        if ws.len() == 1 {
            ws[0]
        } else {
            Seq::empty()
        }
    } else {
        ws[0] + seq![' '] + sjoin(ws.drop_first())
    }
}

proof fn lemma_words_word(w: Seq<char>, rest: Seq<char>, cur: Seq<char>)
    requires
        forall|q: int| 0 <= q < w.len() ==> !is_space(#[trigger] w[q]),
        cur.len() + w.len() > 0,
        rest.len() == 0 || is_space(rest[0]),
    ensures
        words_from(w + rest, cur) == seq![cur + w] + words_from(rest.skip(if rest.len() > 0 { 1int } else { 0int }), Seq::empty()),
    decreases w.len(),
{
    if w.len() == 0 {
        assert(w + rest =~= rest);
        assert(cur + w =~= cur);
        if rest.len() > 0 {
            assert(rest.drop_first() =~= rest.skip(1));
        } else {
            assert(rest.skip(0) =~= rest);
            assert(words_from(Seq::<char>::empty(), Seq::empty()) =~= Seq::<Seq<char>>::empty());
            assert(seq![cur] + Seq::<Seq<char>>::empty() =~= seq![cur]);
        }
    } else {
        assert((w + rest).drop_first() =~= w.drop_first() + rest);
        assert((w + rest)[0] == w[0]);
        lemma_words_word(w.drop_first(), rest, cur.push(w[0]));
        assert(cur.push(w[0]) + w.drop_first() =~= cur + w);
    }
}

/// Words joined by single spaces split back into those words.
proof fn lemma_words_sjoin(ws: Seq<Seq<char>>)
    requires
        ws.len() > 0,
        forall|q: int| 0 <= q < ws.len() ==> word(#[trigger] ws[q]),
    ensures
        words(sjoin(ws)) == ws,
    decreases ws.len(),
{
    assert(word(ws[0]));
    if ws.len() == 1 {
        lemma_words_word(ws[0], Seq::empty(), Seq::empty());
        assert(ws[0] + Seq::<char>::empty() =~= ws[0]);
        assert(Seq::<char>::empty() + ws[0] =~= ws[0]);
        assert(Seq::<char>::empty().skip(0) =~= Seq::<char>::empty());
        assert(words_from(Seq::<char>::empty(), Seq::empty()) =~= Seq::<Seq<char>>::empty());
        assert(ws =~= seq![ws[0]]);
    } else {
        lemma_words_sjoin(ws.drop_first());
        let rest = seq![' '] + sjoin(ws.drop_first());
        lemma_words_word(ws[0], rest, Seq::empty());
        assert(ws[0] + rest =~= sjoin(ws));
        assert(rest.skip(1) =~= sjoin(ws.drop_first()));
        assert(Seq::<char>::empty() + ws[0] =~= ws[0]);
        assert(seq![ws[0]] + ws.drop_first() =~= ws);
    }
}

proof fn lemma_sjoin_push(ws: Seq<Seq<char>>, x: Seq<char>)
    requires
        ws.len() > 0,
    ensures
        sjoin(ws.push(x)) == sjoin(ws) + seq![' '] + x,
    decreases ws.len(),
{
    if ws.len() == 1 {
        assert(ws.push(x).drop_first() =~= seq![x]);
        assert(sjoin(seq![x]) == x);
    } else {
        lemma_sjoin_push(ws.drop_first(), x);
        assert(ws.push(x).drop_first() =~= ws.drop_first().push(x));
        assert(sjoin(ws.push(x)) =~= sjoin(ws) + seq![' '] + x);
    }
}

/// A tag followed by space-led labels is the tag and the labels joined by spaces.
proof fn lemma_spaced(tag: Seq<char>, l: Seq<Seq<char>>)
    ensures
        tag + spaced(l) == sjoin(seq![tag] + l),
    decreases l.len(),
{
    if l.len() == 0 {
        assert(seq![tag] + l =~= seq![tag]);
        assert(tag + Seq::<char>::empty() =~= tag);
    } else {
        lemma_spaced(tag, l.drop_last());
        lemma_sjoin_push(seq![tag] + l.drop_last(), l.last());
        assert((seq![tag] + l.drop_last()).push(l.last()) =~= seq![tag] + l);
        assert(tag + spaced(l) =~= tag + spaced(l.drop_last()) + seq![' '] + l.last());
    }
}

// ---- The writer's lines --------------------------------------------------------------------

/// The row a cube is written as, without its line feed.
pub open spec fn row_line(c: SCube, t: PLAType) -> Seq<char> {
    c.inputs.map_values(|v: Option<bool>| input_char(v)) + seq![' '] + c.outputs.map_values(
        |b: bool| output_char(b, c.cube_type, t),
    )
}

/// The cubes written under a cover type, in order.
pub open spec fn shown_cubes(cs: Seq<SCube>, t: PLAType) -> Seq<SCube>
    decreases cs.len(),
{
    if cs.len() == 0 {
        Seq::empty()
    } else if shown(cs.last(), t) {
        shown_cubes(cs.drop_last(), t).push(cs.last())
    } else {
        shown_cubes(cs.drop_last(), t)
    }
}

/// The `.type` line, when there is one.
pub open spec fn type_lines(t: PLAType) -> Seq<Seq<char>> {
    match t {
        PLAType::F => Seq::empty(),
        PLAType::FD => seq![".type fd"@],
        PLAType::FR => seq![".type fr"@],
        PLAType::FDR => seq![".type fdr"@],
    }
}

/// A label line, when there are labels.
pub open spec fn label_lines(tag: Seq<char>, labels: Option<Seq<Seq<char>>>) -> Seq<Seq<char>> {
    match labels {
        Some(l) => seq![tag + spaced(l)],
        None => Seq::empty(),
    }
}

/// The lines the writer writes.
pub open spec fn written_lines(
    ni: nat,
    no: nat,
    ilb: Option<Seq<Seq<char>>>,
    ob: Option<Seq<Seq<char>>>,
    cubes: Seq<SCube>,
    t: PLAType,
) -> Seq<Seq<char>> {
    type_lines(t) + seq![".i "@ + dec(ni)] + label_lines(".ilb"@, ilb) + seq![".o "@ + dec(no)]
        + label_lines(".ob"@, ob) + seq![".p "@ + dec(shown_count(cubes, t))] + shown_cubes(cubes, t).map_values(
        |c: SCube| row_line(c, t),
    ) + seq![end_line(t)]
}

proof fn lemma_cubes_join(cs: Seq<SCube>, t: PLAType)
    ensures
        cubes_text(cs, t) == join(shown_cubes(cs, t).map_values(|c: SCube| row_line(c, t))),
        shown_count(cs, t) == shown_cubes(cs, t).len(),
    decreases cs.len(),
{
    if cs.len() > 0 {
        lemma_cubes_join(cs.drop_last(), t);
        let prev = shown_cubes(cs.drop_last(), t).map_values(|c: SCube| row_line(c, t));
        if shown(cs.last(), t) {
            assert(shown_cubes(cs, t).map_values(|c: SCube| row_line(c, t)) =~= prev.push(
                row_line(cs.last(), t),
            ));
            lemma_join_push(prev, row_line(cs.last(), t));
            assert(cube_text(cs.last(), t) =~= row_line(cs.last(), t) + seq!['\n']);
        }
    } else {
        assert(shown_cubes(cs, t).map_values(|c: SCube| row_line(c, t)) =~= Seq::<Seq<char>>::empty());
    }
}

proof fn lemma_single(x: Seq<char>)
    ensures
        join(seq![x]) == x + seq!['\n'],
{
    let one = seq![x];
    assert(one[0] == x);
    assert(one.drop_first() =~= Seq::<Seq<char>>::empty());
    assert(join(one.drop_first()) =~= Seq::<char>::empty());
    assert(x + seq!['\n'] + Seq::<char>::empty() =~= x + seq!['\n']);
}

proof fn lemma_type_join(t: PLAType)
    ensures
        join(type_lines(t)) == type_header(t),
{
    reveal_strlit(".type fd\n");
    reveal_strlit(".type fr\n");
    reveal_strlit(".type fdr\n");
    reveal_strlit(".type fd");
    reveal_strlit(".type fr");
    reveal_strlit(".type fdr");
    match t {
        PLAType::F => {
            assert(join(type_lines(t)) =~= Seq::<char>::empty());
        },
        PLAType::FD => {
            lemma_single(".type fd"@);
            assert(".type fd"@ + seq!['\n'] =~= ".type fd\n"@);
        },
        PLAType::FR => {
            lemma_single(".type fr"@);
            assert(".type fr"@ + seq!['\n'] =~= ".type fr\n"@);
        },
        PLAType::FDR => {
            lemma_single(".type fdr"@);
            assert(".type fdr"@ + seq!['\n'] =~= ".type fdr\n"@);
        },
    }
}

proof fn lemma_label_join(tag: Seq<char>, labels: Option<Seq<Seq<char>>>)
    ensures
        join(label_lines(tag, labels)) == label_line(tag, labels),
{
    match labels {
        Some(l) => {
            lemma_single(tag + spaced(l));
        },
        None => {
            assert(join(label_lines(tag, labels)) =~= Seq::<char>::empty());
        },
    }
}

/// The last line.
pub open spec fn end_line(t: PLAType) -> Seq<char> {
    if t is F {
        ".e"@
    } else {
        ".end"@
    }
}

proof fn lemma_end_join(t: PLAType)
    ensures
        join(seq![end_line(t)]) == (if t is F {
            ".e\n"@
        } else {
            ".end\n"@
        }),
{
    reveal_strlit(".e\n");
    reveal_strlit(".end\n");
    reveal_strlit(".e");
    reveal_strlit(".end");
    lemma_single(end_line(t));
    assert(".e"@ + seq!['\n'] =~= ".e\n"@);
    assert(".end"@ + seq!['\n'] =~= ".end\n"@);
}

/// The writer's text is its lines joined with line feeds.
proof fn lemma_text_is_lines(
    ni: nat,
    no: nat,
    ilb: Option<Seq<Seq<char>>>,
    ob: Option<Seq<Seq<char>>>,
    cubes: Seq<SCube>,
    t: PLAType,
)
    ensures
        pla_text(ni, no, ilb, ob, cubes, t) == join(written_lines(ni, no, ilb, ob, cubes, t)),
{
    let a = type_lines(t);
    let b = seq![".i "@ + dec(ni)];
    let c = label_lines(".ilb"@, ilb);
    let d = seq![".o "@ + dec(no)];
    let e = label_lines(".ob"@, ob);
    let f = seq![".p "@ + dec(shown_count(cubes, t))];
    let g = shown_cubes(cubes, t).map_values(|x: SCube| row_line(x, t));
    let h = seq![end_line(t)];
    assert(written_lines(ni, no, ilb, ob, cubes, t) =~= a + b + c + d + e + f + g + h);
    lemma_join_concat(a + b + c + d + e + f + g, h);
    lemma_join_concat(a + b + c + d + e + f, g);
    lemma_join_concat(a + b + c + d + e, f);
    lemma_join_concat(a + b + c + d, e);
    lemma_join_concat(a + b + c, d);
    lemma_join_concat(a + b, c);
    lemma_join_concat(a, b);
    lemma_cubes_join(cubes, t);
    lemma_single(".i "@ + dec(ni));
    lemma_single(".o "@ + dec(no));
    lemma_single(".p "@ + dec(shown_count(cubes, t)));
    lemma_end_join(t);
    lemma_type_join(t);
    lemma_label_join(".ilb"@, ilb);
    lemma_label_join(".ob"@, ob);
    assert(pla_text(ni, no, ilb, ob, cubes, t) =~= join(a) + join(b) + join(c) + join(d) + join(e)
        + join(f) + join(g) + join(h));
}

// ---- Cube rows ----------------------------------------------------------------------------

/// The cover type a text without a `.type` line is read under is `fd`; otherwise the one named.
pub open spec fn read_type(t: PLAType) -> PLAType {
    if t is F {
        PLAType::FD
    } else {
        t
    }
}

/// The set a cube of the given type lands in when read back: 0 on-set, 1 don't-care, 2 off-set.
pub open spec fn set_of(ct: CubeType) -> u8 {
    match ct {
        CubeType::F => 0,
        CubeType::D => 1,
        CubeType::R => 2,
    }
}

/// A cube that can be written and read back under `ni` inputs and `no` outputs: it has those
/// dimensions and at least one set output bit.
pub open spec fn writable(c: SCube, ni: nat, no: nat) -> bool {
    &&& c.inputs.len() == ni
    &&& c.outputs.len() == no
    &&& c.outputs.contains(true)
}

/// The input characters of a cube's row.
pub open spec fn in_chars(c: SCube) -> Seq<char> {
    c.inputs.map_values(|v: Option<bool>| input_char(v))
}

/// The output characters of a cube's row.
pub open spec fn out_chars(c: SCube, t: PLAType) -> Seq<char> {
    c.outputs.map_values(|b: bool| output_char(b, c.cube_type, t))
}

/// A character that is not white space, a line feed, `|`, `#` or `.`.
pub open spec fn plain(ch: char) -> bool {
    !is_space(ch) && ch != '\n' && ch != '|' && ch != '#' && ch != '.'
}

proof fn lemma_input_char(v: Option<bool>)
    ensures
        plain(input_char(v)),
        input_value(input_char(v)) == Some(v),
{
}

proof fn lemma_output_char(b: bool, ct: CubeType, t: PLAType)
    requires
        shown(SCube { inputs: Seq::empty(), outputs: Seq::empty(), cube_type: ct }, t),
    ensures
        plain(output_char(b, ct, t)),
        output_class(output_char(b, ct, t), read_type(t)) == if b {
            Some(set_of(ct))
        } else {
            Some(3u8)
        },
{
}

proof fn lemma_no_bar(s: Seq<char>)
    requires
        forall|q: int| 0 <= q < s.len() ==> #[trigger] s[q] != '|',
    ensures
        bar_at(s) is None,
    decreases s.len(),
{
    if s.len() > 0 {
        assert(s[0] != '|');
        assert forall|q: int| 0 <= q < s.drop_first().len() implies #[trigger] s.drop_first()[q] != '|' by {
            assert(s.drop_first()[q] == s[q + 1]);
        }
        lemma_no_bar(s.drop_first());
    }
}

proof fn lemma_strip_plain(s: Seq<char>)
    requires
        forall|q: int| 0 <= q < s.len() ==> plain(#[trigger] s[q]),
    ensures
        strip(s) == s,
    decreases s.len(),
{
    if s.len() > 0 {
        assert(plain(s.last()));
        lemma_strip_plain(s.drop_last());
        assert(s.drop_last().push(s.last()) =~= s);
    }
}

proof fn lemma_strip_concat(a: Seq<char>, b: Seq<char>)
    ensures
        strip(a + b) == strip(a) + strip(b),
    decreases b.len(),
{
    if b.len() == 0 {
        assert(a + b =~= a);
        assert(strip(b) =~= Seq::<char>::empty());
        assert(strip(a) + Seq::<char>::empty() =~= strip(a));
    } else {
        lemma_strip_concat(a, b.drop_last());
        assert((a + b).drop_last() =~= a + b.drop_last());
        assert((a + b).last() == b.last());
        if !is_space(b.last()) {
            assert(strip(a) + strip(b.drop_last()).push(b.last()) =~= (strip(a) + strip(
                b.drop_last(),
            )).push(b.last()));
        }
    }
}

proof fn lemma_inputs_valid(s: Seq<char>)
    requires
        forall|q: int| 0 <= q < s.len() ==> (#[trigger] input_value(s[q])) is Some,
    ensures
        first_bad_input(s) is None,
    decreases s.len(),
{
    if s.len() > 0 {
        assert(input_value(s[0]) is Some);
        assert forall|q: int| 0 <= q < s.drop_first().len() implies (#[trigger] input_value(
            s.drop_first()[q],
        )) is Some by {
            assert(s.drop_first()[q] == s[q + 1]);
            assert(input_value(s[q + 1]) is Some);
        }
        lemma_inputs_valid(s.drop_first());
    }
}

proof fn lemma_outputs_valid(s: Seq<char>, t: PLAType)
    requires
        forall|q: int| 0 <= q < s.len() ==> (#[trigger] output_class(s[q], t)) is Some,
    ensures
        first_bad_output(s, t) is None,
    decreases s.len(),
{
    if s.len() > 0 {
        assert(output_class(s[0], t) is Some);
        assert forall|q: int| 0 <= q < s.drop_first().len() implies (#[trigger] output_class(
            s.drop_first()[q],
            t,
        )) is Some by {
            assert(s.drop_first()[q] == s[q + 1]);
            assert(output_class(s[q + 1], t) is Some);
        }
        lemma_outputs_valid(s.drop_first(), t);
    }
}

/// The characters of a cube's row read back as that one cube.
proof fn lemma_row_cubes(c: SCube, t: PLAType)
    requires
        shown(c, t),
        c.outputs.contains(true),
    ensures
        row_cubes(in_chars(c), out_chars(c, t), read_type(t)) == seq![c],
        first_bad_input(in_chars(c)) is None,
        first_bad_output(out_chars(c, t), read_type(t)) is None,
{
    let rt = read_type(t);
    let inp = in_chars(c);
    let out = out_chars(c, t);
    let ct = c.cube_type;
    assert(shown(SCube { inputs: Seq::empty(), outputs: Seq::empty(), cube_type: ct }, t));
    assert forall|q: int| 0 <= q < inp.len() implies (#[trigger] input_value(inp[q])) is Some
        && input_value(inp[q])->0 == c.inputs[q] by {
        lemma_input_char(c.inputs[q]);
    }
    assert forall|q: int| 0 <= q < out.len() implies (#[trigger] output_class(out[q], rt)) == if c.outputs[q] {
        Some(set_of(ct))
    } else {
        Some(3u8)
    } by {
        lemma_output_char(c.outputs[q], ct, t);
    }
    lemma_inputs_valid(inp);
    lemma_outputs_valid(out, rt);
    let ins = inp.map_values(|ch: char| input_value(ch)->0);
    assert(ins =~= c.inputs);
    let classes = out.map_values(|ch: char| output_class(ch, rt));
    let j = choose|j: int| 0 <= j < c.outputs.len() && c.outputs[j] == true;
    assert(classes[j] == Some(set_of(ct)));
    assert(classes.contains(Some(set_of(ct))));
    assert forall|k: u8| k != set_of(ct) && k != 3 implies !classes.contains(Some(k)) by {
        if classes.contains(Some(k)) {
            let q = choose|q: int| 0 <= q < classes.len() && classes[q] == Some(k);
            assert(output_class(out[q], rt) == Some(k));
        }
    }
    let bits = out.map_values(|ch: char| output_class(ch, rt) == Some(set_of(ct)));
    assert(bits =~= c.outputs);
    let cube = SCube { inputs: ins, outputs: bits, cube_type: ct };
    assert(cube =~= c);
    match ct {
        CubeType::F => {
            assert(!classes.contains(Some(1u8)));
            assert(!classes.contains(Some(2u8)));
        },
        CubeType::D => {
            assert(!classes.contains(Some(0u8)));
            assert(!classes.contains(Some(2u8)));
        },
        CubeType::R => {
            assert(!classes.contains(Some(0u8)));
            assert(!classes.contains(Some(1u8)));
        },
    }
    assert(row_cubes(inp, out, rt) =~= seq![c]);
}

/// A cube's row, trimmed, is its characters with at most the separating space between them.
proof fn lemma_row_line(c: SCube, t: PLAType)
    requires
        shown(c, t),
        c.outputs.contains(true),
    ensures
        trim(row_line(c, t)).len() > 0,
        plain(trim(row_line(c, t))[0]),
        bar_at(trim(row_line(c, t))) is None,
        strip(trim(row_line(c, t))) == in_chars(c) + out_chars(c, t),
        one_line(row_line(c, t)),
        forall|q: int| 0 <= q < row_line(c, t).len() ==> #[trigger] row_line(c, t)[q] != '#',
{
    let inp = in_chars(c);
    let out = out_chars(c, t);
    let row = row_line(c, t);
    let ct = c.cube_type;
    assert(shown(SCube { inputs: Seq::empty(), outputs: Seq::empty(), cube_type: ct }, t));
    assert forall|q: int| 0 <= q < inp.len() implies plain(#[trigger] inp[q]) by {
        lemma_input_char(c.inputs[q]);
    }
    assert forall|q: int| 0 <= q < out.len() implies plain(#[trigger] out[q]) by {
        lemma_output_char(c.outputs[q], ct, t);
    }
    assert(row =~= inp + seq![' '] + out);
    assert forall|q: int| 0 <= q < row.len() implies #[trigger] row[q] == ' ' || plain(row[q]) by {
        if q < inp.len() {
            assert(row[q] == inp[q]);
        } else if q > inp.len() {
            assert(row[q] == out[q - inp.len() - 1]);
        }
    }
    let j = choose|j: int| 0 <= j < c.outputs.len() && c.outputs[j] == true;
    assert(out.len() > 0);
    assert(plain(out.last()));
    assert(row.last() == out.last());
    lemma_strip_plain(inp);
    lemma_strip_plain(out);
    assert(strip(seq![' ']) =~= Seq::<char>::empty()) by {
        let sp = seq![' '];
        assert(sp.len() == 1);
        assert(sp.last() == ' ');
        assert(is_space(' '));
        assert(sp.drop_last() =~= Seq::<char>::empty());
        assert(strip(sp.drop_last()) =~= Seq::<char>::empty());
    }
    lemma_strip_concat(inp, seq![' ']);
    lemma_strip_concat(inp + seq![' '], out);
    if inp.len() > 0 {
        assert(plain(inp[0]));
        assert(row[0] == inp[0]);
        lemma_trim_bare(row);
        assert(inp + Seq::<char>::empty() =~= inp);
    } else {
        assert(row =~= seq![' '] + out);
        assert(out[0] == out[0]);
        assert(plain(out[0]));
        lemma_trim_space(out);
        assert(inp + out =~= out);
    }
    let line = trim(row);
    assert forall|q: int| 0 <= q < line.len() implies #[trigger] line[q] != '|' by {
        if inp.len() == 0 {
            assert(line[q] == out[q]);
        } else {
            assert(line[q] == row[q]);
        }
    }
    lemma_no_bar(line);
}

/// A cube's row, read with the dimensions known and the cover type its `.type` line names, adds
/// that cube.
proof fn lemma_row_run(lines: Seq<Seq<char>>, i: int, st: SPla, c: SCube, t: PLAType)
    requires
        0 <= i,
        i + 1 < lines.len(),
        lines[i] == trim(row_line(c, t)),
        shown(c, t),
        st.ni is Some,
        st.no is Some,
        writable(c, st.ni->0 as nat, st.no->0 as nat),
        st.cover_type == read_type(t),
    ensures
        pla_run(lines, i, st) == pla_run(lines, i + 1, SPla { cubes: st.cubes.push(c), ..st }),
{
    lemma_row_line(c, t);
    lemma_row_cubes(c, t);
    let line = lines[i];
    let ni = st.ni->0 as int;
    let inp = in_chars(c);
    let out = out_chars(c, t);
    let bare = strip(line);
    assert(bare.take(ni) =~= inp);
    assert(bare.skip(ni) =~= out);
    let st1 = SPla { ni: Some(st.ni->0), no: Some(st.no->0), ..st };
    assert(st1 =~= st);
    assert(st.cubes + seq![c] =~= st.cubes.push(c));
    assert(finish_row(bare.take(ni), bare.skip(ni), i + 1, st) == PlaStep::Next(
        i + 1,
        SPla { cubes: st.cubes.push(c), ..st },
    ));
    assert(cube_row(lines, i, st) == PlaStep::Next(i + 1, SPla { cubes: st.cubes.push(c), ..st }));
    assert(pla_step(lines, i, st) == PlaStep::Next(i + 1, SPla { cubes: st.cubes.push(c), ..st }));
}

/// Rows of cubes, read one after another, add those cubes in order.
proof fn lemma_rows_run(lines: Seq<Seq<char>>, i: int, st: SPla, cs: Seq<SCube>, t: PLAType)
    requires
        0 <= i,
        i + cs.len() < lines.len(),
        forall|j: int| 0 <= j < cs.len() ==> lines[i + j] == trim(row_line(#[trigger] cs[j], t)),
        forall|j: int|
            0 <= j < cs.len() ==> shown(#[trigger] cs[j], t) && writable(cs[j], st.ni->0 as nat, st.no->0 as nat),
        st.ni is Some,
        st.no is Some,
        st.cover_type == read_type(t),
    ensures
        pla_run(lines, i, st) == pla_run(lines, i + cs.len(), SPla { cubes: st.cubes + cs, ..st }),
    decreases cs.len(),
{
    if cs.len() == 0 {
        assert(st.cubes + cs =~= st.cubes);
        assert(SPla { cubes: st.cubes + cs, ..st } =~= st);
    } else {
        let c = cs[0];
        assert(lines[i + 0] == trim(row_line(cs[0], t)));
        lemma_row_run(lines, i, st, c, t);
        let st2 = SPla { cubes: st.cubes.push(c), ..st };
        let rest = cs.drop_first();
        assert forall|j: int| 0 <= j < rest.len() implies lines[(i + 1) + j] == trim(
            row_line(#[trigger] rest[j], t),
        ) by {
            assert(rest[j] == cs[j + 1]);
            assert(lines[i + (j + 1)] == trim(row_line(cs[j + 1], t)));
        }
        assert forall|j: int| 0 <= j < rest.len() implies shown(#[trigger] rest[j], t) && writable(
            rest[j],
            st2.ni->0 as nat,
            st2.no->0 as nat,
        ) by {
            assert(rest[j] == cs[j + 1]);
        }
        lemma_rows_run(lines, i + 1, st2, rest, t);
        assert(st2.cubes + rest =~= st.cubes + cs);
    }
}

/// Every cube written is shown and, when all shown cubes are writable, writable.
proof fn lemma_shown_members(cs: Seq<SCube>, t: PLAType, ni: nat, no: nat)
    requires
        forall|k: int| 0 <= k < cs.len() && shown(#[trigger] cs[k], t) ==> writable(cs[k], ni, no),
    ensures
        forall|j: int|
            0 <= j < shown_cubes(cs, t).len() ==> shown(#[trigger] shown_cubes(cs, t)[j], t) && writable(
                shown_cubes(cs, t)[j],
                ni,
                no,
            ),
    decreases cs.len(),
{
    if cs.len() > 0 {
        let init = cs.drop_last();
        assert forall|k: int| 0 <= k < init.len() && shown(#[trigger] init[k], t) implies writable(
            init[k],
            ni,
            no,
        ) by {
            assert(init[k] == cs[k]);
        }
        lemma_shown_members(init, t, ni, no);
        assert(cs.last() == cs[cs.len() - 1]);
        let prev = shown_cubes(init, t);
        if shown(cs.last(), t) {
            assert(shown_cubes(cs, t) == prev.push(cs.last()));
            assert forall|j: int| 0 <= j < shown_cubes(cs, t).len() implies shown(
                #[trigger] shown_cubes(cs, t)[j],
                t,
            ) && writable(shown_cubes(cs, t)[j], ni, no) by {
                if j < prev.len() {
                    assert(shown_cubes(cs, t)[j] == prev[j]);
                }
            }
        } else {
            assert(shown_cubes(cs, t) == prev);
        }
    }
}

// ---- Directives ----------------------------------------------------------------------------

proof fn lemma_sjoin_facts(ws: Seq<Seq<char>>)
    requires
        ws.len() > 0,
        forall|q: int| 0 <= q < ws.len() ==> word(#[trigger] ws[q]),
    ensures
        sjoin(ws).len() > 0,
        sjoin(ws)[0] == ws[0][0],
        sjoin(ws).last() == ws.last().last(),
        one_line(sjoin(ws)),
    decreases ws.len(),
{
    assert(word(ws[0]));
    assert(is_space('\n'));
    if ws.len() == 1 {
        assert forall|q: int| 0 <= q < ws[0].len() implies #[trigger] ws[0][q] != '\n' by {
            assert(!is_space(ws[0][q]));
        }
    } else {
        let rest = ws.drop_first();
        assert forall|q: int| 0 <= q < rest.len() implies word(#[trigger] rest[q]) by {
            assert(rest[q] == ws[q + 1]);
        }
        lemma_sjoin_facts(rest);
        let x = sjoin(ws);
        assert(x =~= ws[0] + seq![' '] + sjoin(rest));
        assert(rest.last() == ws.last());
        assert forall|q: int| 0 <= q < x.len() implies #[trigger] x[q] != '\n' by {
            if q < ws[0].len() {
                assert(!is_space(ws[0][q]));
            } else if q > ws[0].len() {
                assert(x[q] == sjoin(rest)[q - ws[0].len() - 1]);
            }
        }
    }
}

/// A line of words trims to itself.
proof fn lemma_sjoin_trim(ws: Seq<Seq<char>>)
    requires
        ws.len() > 0,
        forall|q: int| 0 <= q < ws.len() ==> word(#[trigger] ws[q]),
    ensures
        trim(sjoin(ws)) == sjoin(ws),
{
    lemma_sjoin_facts(ws);
    assert(word(ws[0]));
    assert(word(ws.last()));
    assert(ws.last() == ws[ws.len() - 1]);
    lemma_trim_bare(sjoin(ws));
}

/// A directive line that does not end the text moves on with the state its directive leaves.
proof fn lemma_dir_run(lines: Seq<Seq<char>>, i: int, st: SPla, ws: Seq<Seq<char>>, st2: SPla)
    requires
        0 <= i,
        i + 1 < lines.len(),
        lines[i] == sjoin(ws),
        ws.len() > 0,
        forall|q: int| 0 <= q < ws.len() ==> word(#[trigger] ws[q]),
        ws[0][0] == '.',
        directive(ws, st) == Some(Ok::<SPla, SPlaError>(st2)),
    ensures
        pla_run(lines, i, st) == pla_run(lines, i + 1, st2),
{
    lemma_sjoin_facts(ws);
    lemma_words_sjoin(ws);
    assert(pla_step(lines, i, st) == PlaStep::Next(i + 1, st2));
}

/// The `.e` or `.end` line ends the reading with the state so far.
proof fn lemma_dir_stop(lines: Seq<Seq<char>>, i: int, st: SPla, ws: Seq<Seq<char>>)
    requires
        0 <= i < lines.len(),
        lines[i] == sjoin(ws),
        ws.len() > 0,
        forall|q: int| 0 <= q < ws.len() ==> word(#[trigger] ws[q]),
        ws[0][0] == '.',
        directive(ws, st) is None,
    ensures
        pla_run(lines, i, st) == Ok::<SPla, SPlaError>(st),
{
    lemma_sjoin_facts(ws);
    lemma_words_sjoin(ws);
    assert(pla_step(lines, i, st) == PlaStep::Stop(st));
}

proof fn lemma_two(a: Seq<char>, b: Seq<char>)
    ensures
        sjoin(seq![a, b]) == a + seq![' '] + b,
{
    let ws = seq![a, b];
    assert(ws.drop_first() =~= seq![b]);
    assert(sjoin(seq![b]) == b);
}

/// The directive heads, spelled out.
proof fn lemma_heads()
    ensures
        ".i"@ =~= seq!['.', 'i'],
        ".o"@ =~= seq!['.', 'o'],
        ".p"@ =~= seq!['.', 'p'],
        ".e"@ =~= seq!['.', 'e'],
        ".ob"@ =~= seq!['.', 'o', 'b'],
        ".ilb"@ =~= seq!['.', 'i', 'l', 'b'],
        ".end"@ =~= seq!['.', 'e', 'n', 'd'],
        ".type"@ =~= seq!['.', 't', 'y', 'p', 'e'],
        ".i "@ =~= seq!['.', 'i', ' '],
        ".o "@ =~= seq!['.', 'o', ' '],
        ".p "@ =~= seq!['.', 'p', ' '],
        ".i "@ == ".i"@ + seq![' '],
        ".o "@ == ".o"@ + seq![' '],
        ".p "@ == ".p"@ + seq![' '],
        word(".i"@),
        word(".o"@),
        word(".p"@),
        word(".e"@),
        word(".ob"@),
        word(".ilb"@),
        word(".end"@),
        word(".type"@),
{
    reveal_strlit(".i");
    reveal_strlit(".o");
    reveal_strlit(".p");
    reveal_strlit(".e");
    reveal_strlit(".ob");
    reveal_strlit(".ilb");
    reveal_strlit(".end");
    reveal_strlit(".type");
    reveal_strlit(".i ");
    reveal_strlit(".o ");
    reveal_strlit(".p ");
    assert(".i "@ =~= ".i"@ + seq![' ']);
    assert(".o "@ =~= ".o"@ + seq![' ']);
    assert(".p "@ =~= ".p"@ + seq![' ']);
}

/// A decimal number is a word.
proof fn lemma_dec_word(n: nat)
    ensures
        word(dec(n)),
{
    lemma_dec_value(n);
}

/// The `.type` line: its words, and the cover type it sets.
proof fn lemma_type_dir(t: PLAType, st: SPla) -> (ws: Seq<Seq<char>>)
    requires
        !(t is F),
    ensures
        type_lines(t) == seq![sjoin(ws)],
        ws.len() > 0,
        forall|q: int| 0 <= q < ws.len() ==> word(#[trigger] ws[q]),
        ws[0][0] == '.',
        directive(ws, st) == Some(Ok::<SPla, SPlaError>(SPla { cover_type: t, ..st })),
{
    lemma_heads();
    reveal_strlit("f");
    reveal_strlit("fd");
    reveal_strlit("fr");
    reveal_strlit("fdr");
    reveal_strlit(".type fd");
    reveal_strlit(".type fr");
    reveal_strlit(".type fdr");
    let name = match t {
        PLAType::FD => "fd"@,
        PLAType::FR => "fr"@,
        _ => "fdr"@,
    };
    let ws = seq![".type"@, name];
    lemma_two(".type"@, name);
    assert(word(name));
    assert(ws[1] == name);
    assert(type_named(name) == Some(t));
    match t {
        PLAType::FD => {
            assert(".type fd"@ =~= ".type"@ + seq![' '] + name);
        },
        PLAType::FR => {
            assert(".type fr"@ =~= ".type"@ + seq![' '] + name);
        },
        _ => {
            assert(".type fdr"@ =~= ".type"@ + seq![' '] + name);
        },
    }
    ws
}

/// A `.i`, `.o` or `.p` line: its words.
proof fn lemma_count_words(head: Seq<char>, with_space: Seq<char>, n: nat) -> (ws: Seq<Seq<char>>)
    requires
        with_space == head + seq![' '],
        word(head),
        head[0] == '.',
    ensures
        with_space + dec(n) == sjoin(ws),
        ws == seq![head, dec(n)],
        ws.len() > 0,
        forall|q: int| 0 <= q < ws.len() ==> word(#[trigger] ws[q]),
        ws[0][0] == '.',
{
    lemma_dec_word(n);
    lemma_two(head, dec(n));
    let ws = seq![head, dec(n)];
    assert(ws[1] == dec(n));
    ws
}

/// A label line: its words, and the labels it sets.
proof fn lemma_label_words(tag: Seq<char>, l: Seq<Seq<char>>) -> (ws: Seq<Seq<char>>)
    requires
        word(tag),
        tag[0] == '.',
        forall|q: int| 0 <= q < l.len() ==> word(#[trigger] l[q]),
    ensures
        tag + spaced(l) == sjoin(ws),
        ws == seq![tag] + l,
        ws.drop_first() == l,
        ws.len() > 0,
        forall|q: int| 0 <= q < ws.len() ==> word(#[trigger] ws[q]),
        ws[0][0] == '.',
{
    lemma_spaced(tag, l);
    let ws = seq![tag] + l;
    assert forall|q: int| 0 <= q < ws.len() implies word(#[trigger] ws[q]) by {
        if q > 0 {
            assert(ws[q] == l[q - 1]);
        }
    }
    assert(ws.drop_first() =~= l);
    ws
}

/// The labels a label line leaves: the written ones, unless there are none.
pub open spec fn labels_read(labels: Option<Seq<Seq<char>>>) -> Option<Seq<Seq<char>>> {
    match labels {
        Some(l) => if l.len() > 0 {
            Some(l)
        } else {
            None
        },
        None => None,
    }
}

/// Every line of a list is a single line.
pub open spec fn all_one_line(ls: Seq<Seq<char>>) -> bool {
    forall|q: int| 0 <= q < ls.len() ==> one_line(#[trigger] ls[q])
}

proof fn lemma_all_concat(x: Seq<Seq<char>>, y: Seq<Seq<char>>)
    requires
        all_one_line(x),
        all_one_line(y),
    ensures
        all_one_line(x + y),
{
    assert forall|q: int| 0 <= q < (x + y).len() implies one_line(#[trigger] (x + y)[q]) by {
        if q < x.len() {
            assert((x + y)[q] == x[q]);
        } else {
            assert((x + y)[q] == y[q - x.len()]);
        }
    }
}

/// The lines a label list is written as: one line of words, or none.
proof fn lemma_label_lines(tag: Seq<char>, labels: Option<Seq<Seq<char>>>)
    requires
        word(tag),
        tag[0] == '.',
        labels matches Some(l) ==> forall|q: int| 0 <= q < l.len() ==> word(#[trigger] l[q]),
    ensures
        all_one_line(label_lines(tag, labels)),
        forall|q: int|
            0 <= q < label_lines(tag, labels).len() ==> trim(#[trigger] label_lines(tag, labels)[q])
                == label_lines(tag, labels)[q],
        label_lines(tag, labels).len() <= 1,
{
    if let Some(l) = labels {
        let ws = lemma_label_words(tag, l);
        lemma_sjoin_facts(ws);
        lemma_sjoin_trim(ws);
        assert(label_lines(tag, labels)[0] == sjoin(ws));
    }
}

/// The lines of single words or of a directive and its argument.
proof fn lemma_dir_line(ws: Seq<Seq<char>>)
    requires
        ws.len() > 0,
        forall|q: int| 0 <= q < ws.len() ==> word(#[trigger] ws[q]),
    ensures
        all_one_line(seq![sjoin(ws)]),
        trim(sjoin(ws)) == sjoin(ws),
{
    lemma_sjoin_facts(ws);
    lemma_sjoin_trim(ws);
}

/// The text the writer writes splits back into its lines, each a single line.
proof fn lemma_written_lines(
    ni: nat,
    no: nat,
    ilb: Option<Seq<Seq<char>>>,
    ob: Option<Seq<Seq<char>>>,
    cubes: Seq<SCube>,
    t: PLAType,
)
    requires
        forall|k: int| 0 <= k < cubes.len() && shown(#[trigger] cubes[k], t) ==> writable(cubes[k], ni, no),
        ilb matches Some(l) ==> forall|q: int| 0 <= q < l.len() ==> word(#[trigger] l[q]),
        ob matches Some(l) ==> forall|q: int| 0 <= q < l.len() ==> word(#[trigger] l[q]),
    ensures
        pla_lines(pla_text(ni, no, ilb, ob, cubes, t)) == written_lines(ni, no, ilb, ob, cubes, t).map_values(
            |l: Seq<char>| trim(l),
        ),
{
    lemma_heads();
    lemma_text_is_lines(ni, no, ilb, ob, cubes, t);
    let a = type_lines(t);
    let b = seq![".i "@ + dec(ni)];
    let c = label_lines(".ilb"@, ilb);
    let d = seq![".o "@ + dec(no)];
    let e = label_lines(".ob"@, ob);
    let f = seq![".p "@ + dec(shown_count(cubes, t))];
    let sc = shown_cubes(cubes, t);
    let g = sc.map_values(|x: SCube| row_line(x, t));
    let h = seq![end_line(t)];
    let w = written_lines(ni, no, ilb, ob, cubes, t);
    assert(w =~= a + b + c + d + e + f + g + h);
    if !(t is F) {
        let ws = lemma_type_dir(t, pla_start());
        lemma_dir_line(ws);
    }
    assert(all_one_line(a));
    let wi = lemma_count_words(".i"@, ".i "@, ni);
    lemma_dir_line(wi);
    let wo = lemma_count_words(".o"@, ".o "@, no);
    lemma_dir_line(wo);
    let wp = lemma_count_words(".p"@, ".p "@, shown_count(cubes, t));
    lemma_dir_line(wp);
    lemma_label_lines(".ilb"@, ilb);
    lemma_label_lines(".ob"@, ob);
    lemma_shown_members(cubes, t, ni, no);
    assert forall|q: int| 0 <= q < g.len() implies one_line(#[trigger] g[q]) by {
        assert(shown(sc[q], t) && writable(sc[q], ni, no));
        lemma_row_line(sc[q], t);
    }
    let we = seq![end_line(t)];
    assert(word(end_line(t)));
    assert(sjoin(we) == end_line(t));
    lemma_dir_line(we);
    lemma_all_concat(a, b);
    lemma_all_concat(a + b, c);
    lemma_all_concat(a + b + c, d);
    lemma_all_concat(a + b + c + d, e);
    lemma_all_concat(a + b + c + d + e, f);
    lemma_all_concat(a + b + c + d + e + f, g);
    lemma_all_concat(a + b + c + d + e + f + g, h);
    lemma_text_lines_join(w);
}

/// The state reading the writer's lines ends in.
pub open spec fn state_read(
    ni: usize,
    no: usize,
    ilb: Option<Seq<Seq<char>>>,
    ob: Option<Seq<Seq<char>>>,
    cubes: Seq<SCube>,
    t: PLAType,
) -> SPla {
    SPla {
        ni: Some(ni),
        no: Some(no),
        cover_type: read_type(t),
        ilb: labels_read(ilb),
        ob: labels_read(ob),
        cubes: shown_cubes(cubes, t),
    }
}

/// Reading the writer's lines, one after another.
#[verifier::rlimit(40)]
proof fn lemma_written_run(
    ni: usize,
    no: usize,
    ilb: Option<Seq<Seq<char>>>,
    ob: Option<Seq<Seq<char>>>,
    cubes: Seq<SCube>,
    t: PLAType,
)
    requires
        forall|k: int|
            0 <= k < cubes.len() && shown(#[trigger] cubes[k], t) ==> writable(cubes[k], ni as nat, no as nat),
        ilb matches Some(l) ==> forall|q: int| 0 <= q < l.len() ==> word(#[trigger] l[q]),
        ob matches Some(l) ==> forall|q: int| 0 <= q < l.len() ==> word(#[trigger] l[q]),
    ensures
        pla_run(
            written_lines(ni as nat, no as nat, ilb, ob, cubes, t).map_values(|l: Seq<char>| trim(l)),
            0,
            pla_start(),
        ) == Ok::<SPla, SPlaError>(state_read(ni, no, ilb, ob, cubes, t)),
{
    lemma_heads();
    let a = type_lines(t);
    let b = seq![".i "@ + dec(ni as nat)];
    let c = label_lines(".ilb"@, ilb);
    let d = seq![".o "@ + dec(no as nat)];
    let e = label_lines(".ob"@, ob);
    let f = seq![".p "@ + dec(shown_count(cubes, t))];
    let sc = shown_cubes(cubes, t);
    let g = sc.map_values(|x: SCube| row_line(x, t));
    let h = seq![end_line(t)];
    let w = written_lines(ni as nat, no as nat, ilb, ob, cubes, t);
    let lines = w.map_values(|l: Seq<char>| trim(l));
    assert(w =~= a + b + c + d + e + f + g + h);
    let na = a.len() as int;
    let nc = c.len() as int;
    let ne = e.len() as int;
    let ng = g.len() as int;
    let r0 = na + 3 + nc + ne;
    assert(lines.len() == r0 + ng + 1);
    lemma_label_lines(".ilb"@, ilb);
    lemma_label_lines(".ob"@, ob);
    // The type line.
    let st0 = pla_start();
    let st1 = SPla { cover_type: read_type(t), ..st0 };
    if !(t is F) {
        let ws = lemma_type_dir(t, st0);
        lemma_dir_line(ws);
        assert(w[0] == a[0]);
        lemma_dir_run(lines, 0, st0, ws, st1);
    } else {
        assert(st1 =~= st0);
    }
    // The `.i` line.
    let st2 = SPla { ni: Some(ni), ..st1 };
    let wi = lemma_count_words(".i"@, ".i "@, ni as nat);
    lemma_dir_line(wi);
    lemma_dec_parses(ni);
    assert(w[na] == b[0]);
    assert(directive(wi, st1) == Some(Ok::<SPla, SPlaError>(st2)));
    lemma_dir_run(lines, na, st1, wi, st2);
    // The input labels.
    let st3 = SPla { ilb: labels_read(ilb), ..st2 };
    if let Some(l) = ilb {
        let ws = lemma_label_words(".ilb"@, l);
        assert(w[na + 1] == c[0]);
        assert(lines[na + 1] == sjoin(ws));
        assert(directive(ws, st2) == Some(Ok::<SPla, SPlaError>(st3)));
        lemma_dir_run(lines, na + 1, st2, ws, st3);
    } else {
        assert(st3 =~= st2);
    }
    // The `.o` line.
    let st4 = SPla { no: Some(no), ..st3 };
    let wo = lemma_count_words(".o"@, ".o "@, no as nat);
    lemma_dir_line(wo);
    lemma_dec_parses(no);
    assert(w[na + 1 + nc] == d[0]);
    assert(directive(wo, st3) == Some(Ok::<SPla, SPlaError>(st4)));
    lemma_dir_run(lines, na + 1 + nc, st3, wo, st4);
    // The output labels.
    let st5 = SPla { ob: labels_read(ob), ..st4 };
    if let Some(l) = ob {
        let ws = lemma_label_words(".ob"@, l);
        assert(w[na + 2 + nc] == e[0]);
        assert(lines[na + 2 + nc] == sjoin(ws));
        assert(directive(ws, st4) == Some(Ok::<SPla, SPlaError>(st5)));
        lemma_dir_run(lines, na + 2 + nc, st4, ws, st5);
    } else {
        assert(st5 =~= st4);
    }
    // The `.p` line.
    let wp = lemma_count_words(".p"@, ".p "@, shown_count(cubes, t));
    lemma_dir_line(wp);
    assert(w[na + 2 + nc + ne] == f[0]);
    assert(directive(wp, st5) == Some(Ok::<SPla, SPlaError>(st5)));
    lemma_dir_run(lines, na + 2 + nc + ne, st5, wp, st5);
    // The cube rows.
    lemma_shown_members(cubes, t, ni as nat, no as nat);
    assert forall|j: int| 0 <= j < sc.len() implies lines[r0 + j] == trim(row_line(#[trigger] sc[j], t)) by {
        assert(w[r0 + j] == g[j]);
    }
    lemma_rows_run(lines, r0, st5, sc, t);
    let st7 = SPla { cubes: st5.cubes + sc, ..st5 };
    assert(st5.cubes + sc =~= sc);
    assert(st7 =~= state_read(ni, no, ilb, ob, cubes, t));
    // The last line.
    let we = seq![end_line(t)];
    assert(word(end_line(t)));
    assert(sjoin(we) == end_line(t));
    lemma_dir_line(we);
    assert(w[r0 + ng] == h[0]);
    assert(directive(we, st7) is None);
    lemma_dir_stop(lines, r0 + ng, st7, we);
}

/// What reading a written cover gives back.
pub open spec fn parts_written(
    ni: usize,
    no: usize,
    ilb: Option<Seq<Seq<char>>>,
    ob: Option<Seq<Seq<char>>>,
    cubes: Seq<SCube>,
    t: PLAType,
) -> SPlaParts {
    SPlaParts {
        num_inputs: ni,
        num_outputs: no,
        input_labels: match ilb {
            Some(l) => l,
            None => default_labels('x', ni as nat),
        },
        output_labels: match ob {
            Some(l) => l,
            None => default_labels('y', no as nat),
        },
        cubes: shown_cubes(cubes, t),
        cover_type: read_type(t),
    }
}

/// Writing a cover as PLA text and reading the text back gives the cover back: its dimensions,
/// its labels (the default ones where none were given), the cubes of the sets its cover type
/// carries, in order, and its cover type (`fd` for `f`, which writes no `.type` line). This holds
/// when every cube written has the cover's dimensions and at least one output set, and every
/// label is a nonempty run of non-space characters, one per input or output.
pub proof fn law_pla_round_trip(
    ni: usize,
    no: usize,
    ilb: Option<Seq<Seq<char>>>,
    ob: Option<Seq<Seq<char>>>,
    cubes: Seq<SCube>,
    t: PLAType,
)
    requires
        forall|k: int|
            0 <= k < cubes.len() && shown(#[trigger] cubes[k], t) ==> writable(cubes[k], ni as nat, no as nat),
        ilb matches Some(l) ==> l.len() == ni && forall|q: int| 0 <= q < l.len() ==> word(#[trigger] l[q]),
        ob matches Some(l) ==> l.len() == no && forall|q: int| 0 <= q < l.len() ==> word(#[trigger] l[q]),
    ensures
        pla_reading(pla_text(ni as nat, no as nat, ilb, ob, cubes, t)) == Ok::<SPlaParts, SPlaError>(
            parts_written(ni, no, ilb, ob, cubes, t),
        ),
{
    lemma_written_lines(ni as nat, no as nat, ilb, ob, cubes, t);
    lemma_written_run(ni, no, ilb, ob, cubes, t);
    let st = state_read(ni, no, ilb, ob, cubes, t);
    let r = pla_reading(pla_text(ni as nat, no as nat, ilb, ob, cubes, t));
    if let Some(l) = ilb {
        if l.len() == 0 {
            assert(default_labels('x', ni as nat) =~= l);
        }
    }
    if let Some(l) = ob {
        if l.len() == 0 {
            assert(default_labels('y', no as nat) =~= l);
        }
    }
    assert(r == Ok::<SPlaParts, SPlaError>(parts_written(ni, no, ilb, ob, cubes, t)));
}

} // verus!
