//! The minimiser's text interface: a batch of `name = expression` lines comes in, and answers
//! and errors go out as JSON text.
use crate::cover::cube::PLAType;
use crate::cover::pla::string_of;
use crate::expression::boolexpr::BoolExpr;
use crate::expression::parser::{parsed, SyntaxKind};
use crate::expression::rpn::SToken;
use crate::lines::{chars_of, text_lines, trim, trim_chars, trimmed_lines};
use crate::text::{dec, push_char, push_str, push_usize};
use vstd::prelude::*;

verus! {

// ---- JSON strings --------------------------------------------------------------------------

/// A control character: the C0 block, DEL and the C1 block (what `char::is_control` accepts).
pub open spec fn is_control(c: char) -> bool {
    c as u32 <= 0x1F || (0x7F <= c as u32 && c as u32 <= 0x9F)
}

/// A lowercase hexadecimal digit.
pub open spec fn hex_digit(d: nat) -> char {
    if d < 10 {
        crate::text::digit(d)
    } else if d == 10 {
        'a'
    } else if d == 11 {
        'b'
    } else if d == 12 {
        'c'
    } else if d == 13 {
        'd'
    } else if d == 14 {
        'e'
    } else {
        'f'
    }
}

/// Four lowercase hexadecimal digits of `u`.
pub open spec fn hex4(u: nat) -> Seq<char> {
    seq![hex_digit((u / 4096) % 16), hex_digit((u / 256) % 16), hex_digit((u / 16) % 16), hex_digit(u % 16)]
}

/// How a character is written inside a JSON string: a quote, a backslash, a line feed, a
/// carriage return and a tab by their short escapes, any other control character as `\u` and
/// four hex digits, and everything else as itself.
pub open spec fn json_char(c: char) -> Seq<char> {
    if c == '"' {
        seq!['\\', '"']
    } else if c == '\\' {
        seq!['\\', '\\']
    } else if c == '\n' {
        seq!['\\', 'n']
    } else if c == '\r' {
        seq!['\\', 'r']
    } else if c == '\t' {
        seq!['\\', 't']
    } else if is_control(c) {
        seq!['\\', 'u'] + hex4(c as u32 as nat)
    } else {
        seq![c]
    }
}

/// How a character is written by the short escaper: only a quote, a backslash, a line feed, a
/// carriage return and a tab are escaped.
pub open spec fn short_char(c: char) -> Seq<char> {
    if c == '"' {
        seq!['\\', '"']
    } else if c == '\\' {
        seq!['\\', '\\']
    } else if c == '\n' {
        seq!['\\', 'n']
    } else if c == '\r' {
        seq!['\\', 'r']
    } else if c == '\t' {
        seq!['\\', 't']
    } else {
        seq![c]
    }
}

/// A text with every character escaped for a JSON string.
pub open spec fn json_text(s: Seq<char>) -> Seq<char>
    decreases s.len(),
{
    if s.len() == 0 {
        Seq::empty()
    } else {
        json_text(s.drop_last()) + json_char(s.last())
    }
}

/// A text with quotes, backslashes, line feeds, carriage returns and tabs escaped.
pub open spec fn short_text(s: Seq<char>) -> Seq<char>
    decreases s.len(),
{
    if s.len() == 0 {
        Seq::empty()
    } else {
        short_text(s.drop_last()) + short_char(s.last())
    }
}

fn hex_char(d: u32) -> (r: char)
    requires
        d < 16,
    ensures
        r == hex_digit(d as nat),
{
    if d == 0 {
        '0'
    } else if d == 1 {
        '1'
    } else if d == 2 {
        '2'
    } else if d == 3 {
        '3'
    } else if d == 4 {
        '4'
    } else if d == 5 {
        '5'
    } else if d == 6 {
        '6'
    } else if d == 7 {
        '7'
    } else if d == 8 {
        '8'
    } else if d == 9 {
        '9'
    } else if d == 10 {
        'a'
    } else if d == 11 {
        'b'
    } else if d == 12 {
        'c'
    } else if d == 13 {
        'd'
    } else if d == 14 {
        'e'
    } else {
        'f'
    }
}

/// Appends one character as a JSON string writes it, escaping control characters when `full`.
fn push_escaped(s: &mut String, c: char, full: bool)
    ensures
        final(s)@ == old(s)@ + (if full {
            json_char(c)
        } else {
            short_char(c)
        }),
{
    let u = c as u32;
    if c == '"' {
        push_char(s, '\\');
        push_char(s, '"');
    } else if c == '\\' {
        push_char(s, '\\');
        push_char(s, '\\');
    } else if c == '\n' {
        push_char(s, '\\');
        push_char(s, 'n');
    } else if c == '\r' {
        push_char(s, '\\');
        push_char(s, 'r');
    } else if c == '\t' {
        push_char(s, '\\');
        push_char(s, 't');
    } else if full && (u <= 0x1F || (0x7F <= u && u <= 0x9F)) {
        push_char(s, '\\');
        push_char(s, 'u');
        push_char(s, hex_char((u / 4096) % 16));
        push_char(s, hex_char((u / 256) % 16));
        push_char(s, hex_char((u / 16) % 16));
        push_char(s, hex_char(u % 16));
    } else {
        push_char(s, c);
    }
    proof {
        assert(final(s)@ =~= old(s)@ + (if full {
            json_char(c)
        } else {
            short_char(c)
        }));
    }
}

/// A text escaped fully or by the short escaper.
pub open spec fn escaped_text(s: Seq<char>, full: bool) -> Seq<char> {
    if full {
        json_text(s)
    } else {
        short_text(s)
    }
}

/// Appends a text with its characters escaped.
fn push_escaped_str(s: &mut String, t: &str, full: bool)
    ensures
        final(s)@ == old(s)@ + (if full {
            json_text(t@)
        } else {
            short_text(t@)
        }),
{
    let ghost start = s@;
    for c in it: t.chars()
        invariant
            s@ == start + escaped_text(it.seq().take(it.index() as int), full),
            it.seq() == t@,
    {
        let ghost done = it.seq().take(it.index() as int);
        push_escaped(s, c, full);
        proof {
            let more = it.seq().take(it.index() + 1);
            assert(more.drop_last() =~= done);
            assert(more.last() == c);
            if full {
                assert(json_text(more) == json_text(done) + json_char(c));
            } else {
                assert(short_text(more) == short_text(done) + short_char(c));
            }
            assert(s@ =~= start + escaped_text(more, full));
        }
    }
    proof {
        assert(t@.take(t@.len() as int) =~= t@);
    }
}

/// The text with every character escaped for a JSON string, control characters as `\u` escapes.
pub fn escape_json_string(s: &str) -> (r: String)
    ensures
        r@ == json_text(s@),
{
    let mut out = String::new();
    push_escaped_str(&mut out, s, true);
    out
}

/// The text with quotes, backslashes, line feeds, carriage returns and tabs escaped.
pub fn escape_json(s: &str) -> (r: String)
    ensures
        r@ == short_text(s@),
{
    let mut out = String::new();
    push_escaped_str(&mut out, s, false);
    out
}

/// The JSON object an error is reported as.
pub open spec fn error_text(msg: Seq<char>) -> Seq<char> {
    "{\"error\":\""@ + json_text(msg) + "\"}"@
}

/// The JSON object an error is reported as: `{"error":"..."}` with the message escaped.
pub fn error_json(msg: &str) -> (r: String)
    ensures
        r@ == error_text(msg@),
{
    let mut out = String::new();
    push_str(&mut out, "{\"error\":\"");
    push_escaped_str(&mut out, msg, true);
    push_str(&mut out, "\"}");
    out
}

// ---- JSON lists ----------------------------------------------------------------------------

/// Items separated by commas.
pub open spec fn comma_join(items: Seq<Seq<char>>) -> Seq<char>
    decreases items.len(),
{
    if items.len() == 0 {
        Seq::empty()
    } else if items.len() == 1 {
        items[0]
    } else {
        comma_join(items.drop_last()) + seq![','] + items.last()
    }
}

/// A JSON list of the items.
pub open spec fn json_list(items: Seq<Seq<char>>) -> Seq<char> {
    seq!['['] + comma_join(items) + seq![']']
}

/// The decimal text of an integer, with a minus sign when it is negative.
pub open spec fn int_text(v: int) -> Seq<char> {
    if v < 0 {
        seq!['-'] + dec((-v) as nat)
    } else {
        dec(v as nat)
    }
}

fn push_i32(s: &mut String, v: i32)
    ensures
        final(s)@ == old(s)@ + int_text(v as int),
{
    if v < 0 {
        push_char(s, '-');
        let m: i64 = -(v as i64);
        push_usize(s, m as usize);
        proof {
            assert(final(s)@ =~= old(s)@ + int_text(v as int));
        }
    } else {
        push_usize(s, v as usize);
    }
}

/// One named expression as a JSON object.
pub open spec fn expression_item(name: Seq<char>, expr: Seq<char>) -> Seq<char> {
    "{\"name\":\""@ + short_text(name) + "\",\"expression\":\""@ + short_text(expr) + "\"}"@
}

/// The JSON list of named expressions.
pub open spec fn expressions_text(es: Seq<(String, String)>) -> Seq<char> {
    json_list(es.map_values(|e: (String, String)| expression_item(e.0@, e.1@)))
}

/// The JSON list of integers, without brackets.
pub open spec fn ints_text(vs: Seq<i32>) -> Seq<char> {
    comma_join(vs.map_values(|v: i32| int_text(v as int)))
}

/// One cube as a JSON object of its input and output codes.
pub open spec fn cube_item(c: (Vec<i32>, Vec<i32>)) -> Seq<char> {
    "{\"inputs\":["@ + ints_text(c.0@) + "],\"outputs\":["@ + ints_text(c.1@) + "]}"@
}

/// The JSON list of cubes.
pub open spec fn cubes_json(cs: Seq<(Vec<i32>, Vec<i32>)>) -> Seq<char> {
    json_list(cs.map_values(|c: (Vec<i32>, Vec<i32>)| cube_item(c)))
}

/// The JSON list of labels, each a string.
pub open spec fn labels_json(ls: Seq<&str>) -> Seq<char> {
    json_list(ls.map_values(|l: &str| seq!['"'] + short_text(l@) + seq!['"']))
}

proof fn lemma_join_step(items: Seq<Seq<char>>, i: int)
    requires
        0 <= i < items.len(),
    ensures
        comma_join(items.take(i + 1)) == comma_join(items.take(i)) + (if i > 0 {
            seq![',']
        } else {
            Seq::empty()
        }) + items[i],
{
    let t = items.take(i + 1);
    assert(t.drop_last() =~= items.take(i));
    assert(t.last() == items[i]);
    if i == 0 {
        assert(comma_join(items.take(0)) =~= Seq::<char>::empty());
        assert(Seq::<char>::empty() + Seq::<char>::empty() + items[0] =~= items[0]);
    }
}

/// Appends the integers separated by commas.
fn push_ints(s: &mut String, vs: &Vec<i32>)
    ensures
        final(s)@ == old(s)@ + ints_text(vs@),
{
    let ghost items = vs@.map_values(|v: i32| int_text(v as int));
    let ghost start = s@;
    let n = vs.len();
    let mut i: usize = 0;
    while i < n
        invariant
            n == vs@.len(),
            items == vs@.map_values(|v: i32| int_text(v as int)),
            i <= n,
            s@ == start + comma_join(items.take(i as int)),
        decreases n - i,
    {
        proof {
            lemma_join_step(items, i as int);
        }
        if i > 0 {
            push_char(s, ',');
        }
        push_i32(s, vs[i]);
        proof {
            assert(s@ =~= start + comma_join(items.take(i + 1)));
        }
        i += 1;
    }
    proof {
        assert(items.take(n as int) =~= items);
    }
}

/// The JSON list of named expressions: `{"name":...,"expression":...}` objects, names and
/// expressions escaped.
pub fn serde_json(expressions: &[(String, String)]) -> (r: String)
    ensures
        r@ == expressions_text(expressions@),
{
    let ghost items = expressions@.map_values(|e: (String, String)| expression_item(e.0@, e.1@));
    let mut s = String::new();
    push_char(&mut s, '[');
    let n = expressions.len();
    let mut i: usize = 0;
    while i < n
        invariant
            n == expressions@.len(),
            items == expressions@.map_values(|e: (String, String)| expression_item(e.0@, e.1@)),
            i <= n,
            s@ == seq!['['] + comma_join(items.take(i as int)),
        decreases n - i,
    {
        proof {
            lemma_join_step(items, i as int);
        }
        if i > 0 {
            push_char(&mut s, ',');
        }
        let e = &expressions[i];
        push_str(&mut s, "{\"name\":\"");
        push_escaped_str(&mut s, e.0.as_str(), false);
        push_str(&mut s, "\",\"expression\":\"");
        push_escaped_str(&mut s, e.1.as_str(), false);
        push_str(&mut s, "\"}");
        proof {
            assert(s@ =~= seq!['['] + comma_join(items.take(i + 1)));
        }
        i += 1;
    }
    push_char(&mut s, ']');
    proof {
        assert(items.take(n as int) =~= items);
        assert(s@ =~= expressions_text(expressions@));
    }
    s
}

/// The JSON list of cubes: `{"inputs":[...],"outputs":[...]}` objects of integer codes.
pub fn serde_json_cubes(cubes: &[(Vec<i32>, Vec<i32>)]) -> (r: String)
    ensures
        r@ == cubes_json(cubes@),
{
    let ghost items = cubes@.map_values(|c: (Vec<i32>, Vec<i32>)| cube_item(c));
    let mut s = String::new();
    push_char(&mut s, '[');
    let n = cubes.len();
    let mut i: usize = 0;
    while i < n
        invariant
            n == cubes@.len(),
            items == cubes@.map_values(|c: (Vec<i32>, Vec<i32>)| cube_item(c)),
            i <= n,
            s@ == seq!['['] + comma_join(items.take(i as int)),
        decreases n - i,
    {
        proof {
            lemma_join_step(items, i as int);
        }
        if i > 0 {
            push_char(&mut s, ',');
        }
        let c = &cubes[i];
        push_str(&mut s, "{\"inputs\":[");
        push_ints(&mut s, &c.0);
        push_str(&mut s, "],\"outputs\":[");
        push_ints(&mut s, &c.1);
        push_str(&mut s, "]}");
        proof {
            assert(s@ =~= seq!['['] + comma_join(items.take(i + 1)));
        }
        i += 1;
    }
    push_char(&mut s, ']');
    proof {
        assert(items.take(n as int) =~= items);
        assert(s@ =~= cubes_json(cubes@));
    }
    s
}

/// The JSON list of labels, each an escaped string.
pub fn serde_json_labels(labels: &[&str]) -> (r: String)
    ensures
        r@ == labels_json(labels@),
{
    let ghost items = labels@.map_values(|l: &str| seq!['"'] + short_text(l@) + seq!['"']);
    let mut s = String::new();
    push_char(&mut s, '[');
    let n = labels.len();
    let mut i: usize = 0;
    while i < n
        invariant
            n == labels@.len(),
            items == labels@.map_values(|l: &str| seq!['"'] + short_text(l@) + seq!['"']),
            i <= n,
            s@ == seq!['['] + comma_join(items.take(i as int)),
        decreases n - i,
    {
        proof {
            lemma_join_step(items, i as int);
        }
        if i > 0 {
            push_char(&mut s, ',');
        }
        push_char(&mut s, '"');
        push_escaped_str(&mut s, labels[i], false);
        push_char(&mut s, '"');
        proof {
            assert(s@ =~= seq!['['] + comma_join(items.take(i + 1)));
        }
        i += 1;
    }
    push_char(&mut s, ']');
    proof {
        assert(items.take(n as int) =~= items);
        assert(s@ =~= labels_json(labels@));
    }
    s
}

/// The JSON answer for a minimised batch: the expressions, the cubes, the input and output
/// labels, and the counts of inputs, outputs and cubes.
pub open spec fn answer_text(
    expressions: Seq<(String, String)>,
    cubes: Seq<(Vec<i32>, Vec<i32>)>,
    input_labels: Seq<&str>,
    output_labels: Seq<&str>,
    num_inputs: nat,
    num_outputs: nat,
    num_cubes: nat,
) -> Seq<char> {
    "{\"expressions\":"@ + expressions_text(expressions) + ",\"cubes\":"@ + cubes_json(cubes)
        + ",\"inputLabels\":"@ + labels_json(input_labels) + ",\"outputLabels\":"@ + labels_json(
        output_labels,
    ) + ",\"stats\":{\"numInputs\":"@ + dec(num_inputs) + ",\"numOutputs\":"@ + dec(num_outputs)
        + ",\"numCubes\":"@ + dec(num_cubes) + "}}"@
}

/// The JSON answer for a minimised batch.
pub fn answer_json(
    expressions: &[(String, String)],
    cubes: &[(Vec<i32>, Vec<i32>)],
    input_labels: &[&str],
    output_labels: &[&str],
    num_inputs: usize,
    num_outputs: usize,
    num_cubes: usize,
) -> (r: String)
    ensures
        r@ == answer_text(
            expressions@,
            cubes@,
            input_labels@,
            output_labels@,
            num_inputs as nat,
            num_outputs as nat,
            num_cubes as nat,
        ),
{
    let mut s = String::new();
    push_str(&mut s, "{\"expressions\":");
    let e = serde_json(expressions);
    push_str(&mut s, e.as_str());
    push_str(&mut s, ",\"cubes\":");
    let c = serde_json_cubes(cubes);
    push_str(&mut s, c.as_str());
    push_str(&mut s, ",\"inputLabels\":");
    let il = serde_json_labels(input_labels);
    push_str(&mut s, il.as_str());
    push_str(&mut s, ",\"outputLabels\":");
    let ol = serde_json_labels(output_labels);
    push_str(&mut s, ol.as_str());
    push_str(&mut s, ",\"stats\":{\"numInputs\":");
    push_usize(&mut s, num_inputs);
    push_str(&mut s, ",\"numOutputs\":");
    push_usize(&mut s, num_outputs);
    push_str(&mut s, ",\"numCubes\":");
    push_usize(&mut s, num_cubes);
    push_str(&mut s, "}}");
    proof {
        assert(s@ =~= answer_text(
            expressions@,
            cubes@,
            input_labels@,
            output_labels@,
            num_inputs as nat,
            num_outputs as nat,
            num_cubes as nat,
        ));
    }
    s
}

/// The code a value of a cube is reported as: 1 for true, 0 for false, 2 for a don't-care.
pub open spec fn code_of(v: Option<bool>) -> i32 {
    match v {
        Some(true) => 1,
        Some(false) => 0,
        None => 2,
    }
}

/// The codes of a cube's values, in order.
pub fn value_codes(values: &[Option<bool>]) -> (r: Vec<i32>)
    ensures
        r@ == values@.map_values(|v: Option<bool>| code_of(v)),
{
    let mut out: Vec<i32> = Vec::new();
    let n = values.len();
    let mut i: usize = 0;
    while i < n
        invariant
            n == values@.len(),
            i <= n,
            out@ == values@.take(i as int).map_values(|v: Option<bool>| code_of(v)),
        decreases n - i,
    {
        let code: i32 = match values[i] {
            Some(true) => 1,
            Some(false) => 0,
            None => 2,
        };
        out.push(code);
        proof {
            assert(values@.take(i + 1).map_values(|v: Option<bool>| code_of(v)) =~= values@.take(
                i as int,
            ).map_values(|v: Option<bool>| code_of(v)).push(code_of(values@[i as int])));
        }
        i += 1;
    }
    proof {
        assert(values@.take(n as int) =~= values@);
    }
    out
}

/// The cover type a numeric code names: 0 `f`, 1 `fd`, 2 `fr`, 3 `fdr`.
pub fn cover_type_of_code(code: u32) -> (r: Option<PLAType>)
    ensures
        r == (if code == 0 {
            Some(PLAType::F)
        } else if code == 1 {
            Some(PLAType::FD)
        } else if code == 2 {
            Some(PLAType::FR)
        } else if code == 3 {
            Some(PLAType::FDR)
        } else {
            None
        }),
{
    match code {
        0 => Some(PLAType::F),
        1 => Some(PLAType::FD),
        2 => Some(PLAType::FR),
        3 => Some(PLAType::FDR),
        _ => None,
    }
}

// ---- The batch -----------------------------------------------------------------------------

/// The index of the first `=` in `s`, if any.
pub open spec fn eq_at(s: Seq<char>) -> Option<nat>
    decreases s.len(),
{
    if s.len() == 0 {
        None
    } else if s[0] == '=' {
        Some(0)
    } else {
        match eq_at(s.drop_first()) {
            Some(k) => Some(k + 1),
            None => None,
        }
    }
}

/// Why a line of a batch cannot be read.
pub enum LineFault {
    /// The line has no `=`.
    Format,
    /// The name before the `=` is empty.
    MissingName,
    /// The expression after the `=` does not parse.
    Expression,
}

/// Reading the trimmed lines of a batch from line `k` on: blank lines and `#` comments are
/// passed over, and every other line must be `name = expression`, split at its first `=`, with
/// a nonempty name and an expression that parses. The result is the names and expressions in
/// order, or the first line that fails and why.
pub open spec fn batch_from(ls: Seq<Seq<char>>, k: int) -> Result<Seq<(Seq<char>, Seq<SToken>)>, (int, LineFault)>
    decreases ls.len() - k,
{
    if k < 0 || k >= ls.len() {
        Ok(Seq::empty())
    } else {
        let l = ls[k];
        if l.len() == 0 || l[0] == '#' {
            batch_from(ls, k + 1)
        } else {
            match eq_at(l) {
                None => Err((k, LineFault::Format)),
                Some(p) => {
                    let name = trim(l.take(p as int));
                    let ex = trim(l.skip(p as int + 1));
                    if name.len() == 0 {
                        Err((k, LineFault::MissingName))
                    } else {
                        match parsed(SyntaxKind::Std, ex) {
                            None => Err((k, LineFault::Expression)),
                            Some(t) => match batch_from(ls, k + 1) {
                                Ok(rest) => Ok(seq![(name, t)] + rest),
                                Err(e) => Err(e),
                            },
                        }
                    }
                },
            }
        }
    }
}

/// The trimmed lines of a batch.
pub open spec fn batch_lines(input: Seq<char>) -> Seq<Seq<char>> {
    text_lines(input).map_values(|l: Seq<char>| trim(l))
}

/// The expression of line `l`, after its first `=`.
pub open spec fn expression_part(l: Seq<char>) -> Seq<char> {
    trim(l.skip(eq_at(l)->0 as int + 1))
}

/// The message for a line without `=`.
pub open spec fn format_message(k: int, l: Seq<char>) -> Seq<char> {
    "Line "@ + dec((k + 1) as nat) + ": Invalid format '"@ + l + "' - expected: name = expression"@
}

/// The message for a line with an empty name.
pub open spec fn missing_name_message(k: int, l: Seq<char>) -> Seq<char> {
    "Line "@ + dec((k + 1) as nat) + ": Missing output name in '"@ + l + "'"@
}

/// The message for a line whose expression does not parse, given the parse error's text.
pub open spec fn expression_message(k: int, err: Seq<char>, ex: Seq<char>) -> Seq<char> {
    "Line "@ + dec((k + 1) as nat) + ": "@ + err + " in expression '"@ + ex + "'"@
}

/// Whether `m` is the message for line `k` whose expression `ex` does not parse, whatever the
/// parse error's own text.
pub open spec fn is_expression_message(m: Seq<char>, k: int, ex: Seq<char>) -> bool {
    exists|err: Seq<char>| m == #[trigger] expression_message(k, err, ex)
}

/// The names and expressions read so far.
pub open spec fn pairs_view(v: Seq<(String, BoolExpr)>) -> Seq<(Seq<char>, Seq<SToken>)> {
    v.map_values(|p: (String, BoolExpr)| (p.0@, p.1@))
}

/// The index of the first `=` in `l`.
fn find_eq(l: &Vec<char>) -> (r: Option<usize>)
    ensures
        match r {
            Some(p) => eq_at(l@) == Some(p as nat) && p < l@.len(),
            None => eq_at(l@) is None,
        },
{
    let n = l.len();
    let mut i: usize = 0;
    proof {
        assert(l@.skip(0) =~= l@);
    }
    while i < n
        invariant
            n == l@.len(),
            i <= n,
            eq_at(l@) == match eq_at(l@.skip(i as int)) {
                Some(p) => Some((p + i) as nat),
                None => None::<nat>,
            },
        decreases n - i,
    {
        proof {
            assert(l@.skip(i as int).drop_first() =~= l@.skip(i + 1));
            assert(l@.skip(i as int)[0] == l@[i as int]);
        }
        if l[i] == '=' {
            return Some(i);
        }
        i += 1;
    }
    proof {
        assert(l@.skip(n as int).len() == 0);
    }
    None
}

/// The characters of `v` from `a` up to `b`.
fn slice_chars(v: &Vec<char>, a: usize, b: usize) -> (r: Vec<char>)
    requires
        a <= b <= v@.len(),
    ensures
        r@ == v@.subrange(a as int, b as int),
{
    let mut out: Vec<char> = Vec::new();
    let mut i: usize = a;
    while i < b
        invariant
            a <= i <= b,
            b <= v@.len(),
            out@ == v@.subrange(a as int, i as int),
        decreases b - i,
    {
        out.push(v[i]);
        proof {
            assert(out@ =~= v@.subrange(a as int, i + 1));
        }
        i += 1;
    }
    out
}

/// Reads a batch of `name = expression` lines. Blank lines and lines starting with `#` (after
/// trimming) are passed over; every other line is split at its first `=` into a name and an
/// expression, both trimmed. The result is the names with their parsed expressions, in order,
/// or the message for the first line that fails: `Line <n>: Invalid format '<line>' - expected:
/// name = expression` without `=`, `Line <n>: Missing output name in '<line>'` for an empty
/// name, and `Line <n>: <error> in expression '<expression>'` for an expression that does not
/// parse, lines numbered from 1. A batch with no expression line at all is refused with `No
/// valid expressions found`.
pub fn read_expression_lines(input: &str) -> (r: Result<Vec<(String, BoolExpr)>, String>)
    ensures
        match batch_from(batch_lines(input@), 0) {
            Ok(v) => if v.len() == 0 {
                r matches Err(m) && m@ == "No valid expressions found"@
            } else {
                r matches Ok(x) && pairs_view(x@) == v
            },
            Err((k, LineFault::Format)) => r matches Err(m) && m@ == format_message(k, batch_lines(input@)[k]),
            Err((k, LineFault::MissingName)) => r matches Err(m) && m@ == missing_name_message(
                k,
                batch_lines(input@)[k],
            ),
            Err((k, LineFault::Expression)) => r matches Err(m) && is_expression_message(
                m@,
                k,
                expression_part(batch_lines(input@)[k]),
            ),
        },
{
    let chars = chars_of(input);
    let lines = trimmed_lines(&chars);
    let ghost ls = batch_lines(input@);
    proof {
        assert forall|j: int| 0 <= j < lines@.len() implies (#[trigger] lines@[j])@ == ls[j] by {}
    }
    let n = lines.len();
    let mut out: Vec<(String, BoolExpr)> = Vec::new();
    let mut k: usize = 0;
    while k < n
        invariant
            n == lines@.len(),
            n == ls.len(),
            ls == batch_lines(input@),
            forall|j: int| 0 <= j < n ==> (#[trigger] lines@[j])@ == ls[j],
            k <= n,
            batch_from(ls, 0) == match batch_from(ls, k as int) {
                Ok(rest) => Ok(pairs_view(out@) + rest),
                Err(e) => Err::<Seq<(Seq<char>, Seq<SToken>)>, (int, LineFault)>(e),
            },
        decreases n - k,
    {
        let l = &lines[k];
        assert(l@ == ls[k as int]);
        if l.len() == 0 || l[0] == '#' {
            proof {
                assert(batch_from(ls, k as int) == batch_from(ls, k + 1));
            }
            k += 1;
            continue;
        }
        let eq = find_eq(l);
        match eq {
            None => {
                let mut m = String::new();
                push_str(&mut m, "Line ");
                push_usize(&mut m, k + 1);
                push_str(&mut m, ": Invalid format '");
                let ls_k = string_of(l);
                push_str(&mut m, ls_k.as_str());
                push_str(&mut m, "' - expected: name = expression");
                proof {
                    assert(m@ =~= format_message(k as int, ls[k as int]));
                }
                return Err(m);
            },
            Some(p) => {
                let name_chars = trim_chars(&slice_chars(l, 0, p));
                let ex_chars = trim_chars(&slice_chars(l, p + 1, l.len()));
                proof {
                    assert(eq_at(l@) == Some(p as nat));
                    assert(l@.subrange(0, p as int) =~= l@.take(p as int));
                    assert(l@.subrange(p + 1, l@.len() as int) =~= l@.skip(p + 1));
                    assert(ex_chars@ == expression_part(ls[k as int]));
                }
                if name_chars.len() == 0 {
                    let mut m = String::new();
                    push_str(&mut m, "Line ");
                    push_usize(&mut m, k + 1);
                    push_str(&mut m, ": Missing output name in '");
                    let ls_k = string_of(l);
                    push_str(&mut m, ls_k.as_str());
                    push_str(&mut m, "'");
                    proof {
                        assert(m@ =~= missing_name_message(k as int, ls[k as int]));
                        assert(batch_from(ls, k as int) == Err::<Seq<(Seq<char>, Seq<SToken>)>, (int, LineFault)>(
                            (k as int, LineFault::MissingName),
                        ));
                    }
                    return Err(m);
                }
                let name = string_of(&name_chars);
                let ex = string_of(&ex_chars);
                match BoolExpr::parse(ex.as_str()) {
                    Err(e) => {
                        let text = e.to_string();
                        let mut m = String::new();
                        push_str(&mut m, "Line ");
                        push_usize(&mut m, k + 1);
                        push_str(&mut m, ": ");
                        push_str(&mut m, text.as_str());
                        push_str(&mut m, " in expression '");
                        push_str(&mut m, ex.as_str());
                        push_str(&mut m, "'");
                        proof {
                            assert(m@ =~= expression_message(
                                k as int,
                                text@,
                                expression_part(ls[k as int]),
                            ));
                            assert(parsed(SyntaxKind::Std, ex_chars@) is None);
                            assert(batch_from(ls, k as int) == Err::<Seq<(Seq<char>, Seq<SToken>)>, (int, LineFault)>(
                                (k as int, LineFault::Expression),
                            ));
                            assert(batch_from(batch_lines(input@), 0) == Err::<Seq<(Seq<char>, Seq<SToken>)>, (int, LineFault)>(
                                (k as int, LineFault::Expression),
                            ));
                            assert(is_expression_message(
                                m@,
                                k as int,
                                expression_part(batch_lines(input@)[k as int]),
                            ));
                        }
                        return Err(m);
                    },
                    Ok(expr) => {
                        let ghost before = out@;
                        let ghost pair = (name@, expr@);
                        out.push((name, expr));
                        proof {
                            assert(pairs_view(out@) =~= pairs_view(before).push(pair));
                            assert(pairs_view(before).push(pair) =~= pairs_view(before) + seq![pair]);
                            assert(parsed(SyntaxKind::Std, ex_chars@) == Some(pair.1));
                            assert(pair.0 == trim(ls[k as int].take(p as int)));
                            assert(batch_from(ls, k as int) == match batch_from(ls, k + 1) {
                                Ok(rest) => Ok(seq![pair] + rest),
                                Err(e) => Err::<Seq<(Seq<char>, Seq<SToken>)>, (int, LineFault)>(e),
                            });
                            match batch_from(ls, k + 1) {
                                Ok(rest) => {
                                    assert(pairs_view(before) + (seq![pair] + rest) =~= pairs_view(out@) + rest);
                                },
                                Err(e) => {},
                            }
                        }
                    },
                }
            },
        }
        k += 1;
    }
    proof {
        assert(pairs_view(out@) + Seq::<(Seq<char>, Seq<SToken>)>::empty() =~= pairs_view(out@));
    }
    if out.len() == 0 {
        let mut m = String::new();
        push_str(&mut m, "No valid expressions found");
        return Err(m);
    }
    Ok(out)
}

} // verus!
