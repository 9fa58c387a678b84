//! The PLA text format: reading a cover's dimensions, labels and cubes from PLA text, and
//! writing them back out.
//!
//! Reading goes line by line over the trimmed lines of the text. Blank lines and lines starting
//! with `#` are skipped. A line starting with `.` is a directive: `.i n` and `.o n` give the
//! numbers of inputs and outputs, `.type` the sets the cubes describe (`f`, `fd`, `fr` or `fdr`;
//! `fd` when absent), `.ilb` and `.ob` the input and output labels, `.e` or `.end` ends the cover;
//! any other directive is ignored. Every other line is a cube row: input characters (`0`, `1`, or
//! one of `-~xX` for a don't-care) then output characters, with white space anywhere and an
//! optional `|` between the two parts. A row too short for the declared dimensions continues on
//! the lines that follow, up to a line whose first word is as long as the output part; a row
//! whose parts do not have the declared dimensions is an error. Before any dimension is declared,
//! a row is its first two words, and gives the dimensions. One row yields up to three cubes: an
//! on-set cube for its `1`/`4` outputs, a don't-care cube for its `-`/`2` outputs and an off-set
//! cube for its `0`/`3` outputs, each only when the cover's type carries that set.
use super::cube::{Cube, CubeType, PLAType};
use crate::lines::{
    chars_of, is_space, parse_usize, split_words, strip, strip_chars, text_lines, trim,
    trimmed_lines, usize_text, words,
};
use crate::text::{dec, push_char, push_str, push_usize};
use vstd::prelude::*;

verus! {

/// A PLA text that cannot be read.
#[derive(Debug)]
pub enum PLAError {
    /// The value of `.i` is not a number.
    InvalidInputDirective { value: String },
    /// The value of `.o` is not a number.
    InvalidOutputDirective { value: String },
    /// A cube row's input part holds a character that is not an input value.
    InvalidInputCharacter { character: char, position: usize },
    /// A cube row's output part holds a character that is not an output value.
    InvalidOutputCharacter { character: char, position: usize },
    /// Neither `.i` nor a cube row gave the number of inputs.
    MissingInputDirective,
    /// Neither `.o` nor a cube row gave the number of outputs.
    MissingOutputDirective,
    /// `.ilb` or `.ob` names a number of labels other than the number of inputs or outputs.
    LabelCountMismatch { label_type: String, expected: usize, actual: usize },
    /// A cube row holds a number of characters other than the inputs and outputs need.
    CubeDimensionMismatch { expected: usize, actual: usize },
    /// Neither the number of inputs nor the number of outputs was given.
    MissingDimensions,
    /// The value of `.type` names no cover type.
    InvalidTypeDirective { value: String },
}

/// The mathematical value of a [`PLAError`].
pub enum SPlaError {
    InvalidInputDirective { value: Seq<char> },
    InvalidOutputDirective { value: Seq<char> },
    InvalidInputCharacter { character: char, position: nat },
    InvalidOutputCharacter { character: char, position: nat },
    MissingInputDirective,
    MissingOutputDirective,
    LabelCountMismatch { label_type: Seq<char>, expected: nat, actual: nat },
    CubeDimensionMismatch { expected: nat, actual: nat },
    MissingDimensions,
    InvalidTypeDirective { value: Seq<char> },
}

impl View for PLAError {
    type V = SPlaError;

    open spec fn view(&self) -> SPlaError {
        match self {
            PLAError::InvalidInputDirective { value } => SPlaError::InvalidInputDirective {
                value: value@,
            },
            PLAError::InvalidOutputDirective { value } => SPlaError::InvalidOutputDirective {
                value: value@,
            },
            PLAError::InvalidInputCharacter { character, position } =>
                SPlaError::InvalidInputCharacter { character: *character, position: *position as nat },
            PLAError::InvalidOutputCharacter { character, position } =>
                SPlaError::InvalidOutputCharacter { character: *character, position: *position as nat },
            PLAError::MissingInputDirective => SPlaError::MissingInputDirective,
            PLAError::MissingOutputDirective => SPlaError::MissingOutputDirective,
            PLAError::LabelCountMismatch { label_type, expected, actual } =>
                SPlaError::LabelCountMismatch {
                    label_type: label_type@,
                    expected: *expected as nat,
                    actual: *actual as nat,
                },
            PLAError::CubeDimensionMismatch { expected, actual } =>
                SPlaError::CubeDimensionMismatch { expected: *expected as nat, actual: *actual as nat },
            PLAError::MissingDimensions => SPlaError::MissingDimensions,
            PLAError::InvalidTypeDirective { value } => SPlaError::InvalidTypeDirective {
                value: value@,
            },
        }
    }
}

/// The mathematical value of a cube.
#[verifier::ext_equal]
pub struct SCube {
    pub inputs: Seq<Option<bool>>,
    pub outputs: Seq<bool>,
    pub cube_type: CubeType,
}

/// The value of a cube.
pub open spec fn cube_view(c: Cube) -> SCube {
    SCube { inputs: c.inputs@, outputs: c.outputs@, cube_type: c.cube_type }
}

/// The values of a list of cubes.
pub open spec fn cubes_view(cs: Seq<Cube>) -> Seq<SCube> {
    cs.map_values(|c: Cube| cube_view(c))
}

/// The values of a list of character vectors.
pub open spec fn rows_view(v: Seq<Vec<char>>) -> Seq<Seq<char>> {
    v.map_values(|w: Vec<char>| w@)
}

/// What has been read of a PLA text so far.
#[verifier::ext_equal]
pub struct SPla {
    pub ni: Option<usize>,
    pub no: Option<usize>,
    pub cover_type: PLAType,
    pub ilb: Option<Seq<Seq<char>>>,
    pub ob: Option<Seq<Seq<char>>>,
    pub cubes: Seq<SCube>,
}

/// Nothing read yet: no dimensions, no labels, no cubes, and the `fd` type.
pub open spec fn pla_start() -> SPla {
    SPla {
        ni: None,
        no: None,
        cover_type: PLAType::FD,
        ilb: None,
        ob: None,
        cubes: Seq::empty(),
    }
}

/// What reading one line leads to.
pub enum PlaStep {
    /// Go on at the given line with the given state.
    Next(int, SPla),
    /// The `.e` directive: stop with the given state.
    Stop(SPla),
    /// The text cannot be read.
    Fail(SPlaError),
}

/// The cover type a `.type` value names, if any.
pub open spec fn type_named(s: Seq<char>) -> Option<PLAType> {
    if s == "f"@ {
        Some(PLAType::F)
    } else if s == "fd"@ {
        Some(PLAType::FD)
    } else if s == "fr"@ {
        Some(PLAType::FR)
    } else if s == "fdr"@ {
        Some(PLAType::FDR)
    } else {
        None
    }
}

/// The effect of a directive line, given its words.
pub open spec fn directive(parts: Seq<Seq<char>>, st: SPla) -> Option<Result<SPla, SPlaError>> {
    let arg = if parts.len() > 1 {
        parts[1]
    } else {
        Seq::empty()
    };
    let head = parts[0];
    if head == ".i"@ {
        Some(
            match (if parts.len() > 1 {
                usize_text(arg)
            } else {
                None
            }) {
                Some(v) => Ok(SPla { ni: Some(v), ..st }),
                None => Err(SPlaError::InvalidInputDirective { value: arg }),
            },
        )
    } else if head == ".o"@ {
        Some(
            match (if parts.len() > 1 {
                usize_text(arg)
            } else {
                None
            }) {
                Some(v) => Ok(SPla { no: Some(v), ..st }),
                None => Err(SPlaError::InvalidOutputDirective { value: arg }),
            },
        )
    } else if head == ".type"@ {
        Some(
            if parts.len() > 1 {
                match type_named(arg) {
                    Some(t) => Ok(SPla { cover_type: t, ..st }),
                    None => Err(SPlaError::InvalidTypeDirective { value: arg }),
                }
            } else {
                Ok(st)
            },
        )
    } else if head == ".ilb"@ {
        Some(Ok(if parts.len() > 1 { SPla { ilb: Some(parts.drop_first()), ..st } } else { st }))
    } else if head == ".ob"@ {
        Some(Ok(if parts.len() > 1 { SPla { ob: Some(parts.drop_first()), ..st } } else { st }))
    } else if head == ".e"@ || head == ".end"@ {
        None
    } else {
        Some(Ok(st))
    }
}

/// The value of an input character: `Some(v)` for a valid one.
pub open spec fn input_value(c: char) -> Option<Option<bool>> {
    if c == '0' {
        Some(Some(false))
    } else if c == '1' {
        Some(Some(true))
    } else if c == '-' || c == '~' || c == 'x' || c == 'X' {
        Some(None)
    } else {
        None
    }
}

/// The set an output character puts its bit in under a cover type: 0 the on-set, 1 the
/// don't-care set, 2 the off-set, 3 none; `None` for an invalid character.
pub open spec fn output_class(c: char, t: PLAType) -> Option<u8> {
    if (c == '1' || c == '4') && t.spec_has_f() {
        Some(0)
    } else if (c == '0' || c == '3') && t.spec_has_r() {
        Some(2)
    } else if (c == '-' || c == '2') && t.spec_has_d() {
        Some(1)
    } else if c == '~' || c == '-' || c == '2' || c == '1' || c == '4' || c == '0' || c == '3' {
        Some(3)
    } else {
        None
    }
}

/// An output `-` means what `2` means, under every cover type: where the type carries a
/// don't-care set (`fd`, `fdr`) the output's bit goes into the row's don't-care cube, and where
/// it does not (`f`, `fr`) the bit goes into no cube. Likewise `4` means `1` (the on-set), `3`
/// means `0` (the off-set, where the type carries it, else no cube), and `~` puts the bit in no
/// cube.
pub proof fn law_dash_output_is_dont_care(t: PLAType)
    ensures
        output_class('-', t) == output_class('2', t),
        (t is FD || t is FDR) ==> output_class('-', t) == Some(1u8),
        (t is F || t is FR) ==> output_class('-', t) == Some(3u8),
        output_class('1', t) == Some(0u8),
        output_class('4', t) == output_class('1', t),
        (t is FR || t is FDR) ==> output_class('0', t) == Some(2u8),
        (t is F || t is FD) ==> output_class('0', t) == Some(3u8),
        output_class('3', t) == output_class('0', t),
        output_class('~', t) == Some(3u8),
{
}

/// The position of the first invalid input character of `s`, if any.
pub open spec fn first_bad_input(s: Seq<char>) -> Option<nat>
    decreases s.len(),
{
    if s.len() == 0 {
        None
    } else if input_value(s[0]) is None {
        Some(0)
    } else {
        match first_bad_input(s.drop_first()) {
            Some(k) => Some(k + 1),
            None => None,
        }
    }
}

/// The position of the first invalid output character of `s` under `t`, if any.
pub open spec fn first_bad_output(s: Seq<char>, t: PLAType) -> Option<nat>
    decreases s.len(),
{
    if s.len() == 0 {
        None
    } else if output_class(s[0], t) is None {
        Some(0)
    } else {
        match first_bad_output(s.drop_first(), t) {
            Some(k) => Some(k + 1),
            None => None,
        }
    }
}

/// The cubes a row of valid characters yields: on-set, don't-care and off-set, in that order,
/// each when some output puts its bit in that set.
pub open spec fn row_cubes(inp: Seq<char>, out: Seq<char>, t: PLAType) -> Seq<SCube> {
    let ins = inp.map_values(|c: char| input_value(c)->0);
    let bits = |k: u8| out.map_values(|c: char| output_class(c, t) == Some(k));
    let one = |k: u8, ct: CubeType| if out.map_values(|c: char| output_class(c, t)).contains(Some(k)) {
        seq![SCube { inputs: ins, outputs: bits(k), cube_type: ct }]
    } else {
        Seq::<SCube>::empty()
    };
    one(0, CubeType::F) + one(1, CubeType::D) + one(2, CubeType::R)
}

/// `a + b`, or the largest `usize` when that is larger.
pub open spec fn sat_add(a: nat, b: nat) -> nat {
    if a + b > usize::MAX {
        usize::MAX as nat
    } else {
        a + b
    }
}

/// A row with both parts in hand: dimensions are taken from it when not yet known; a row of
/// other dimensions is an error; otherwise its characters are checked and its cubes added.
pub open spec fn finish_row(inp: Seq<char>, out: Seq<char>, j: int, st: SPla) -> PlaStep {
    let ni: usize = match st.ni {
        Some(v) => v,
        None => inp.len() as usize,
    };
    let no: usize = match st.no {
        Some(v) => v,
        None => out.len() as usize,
    };
    let st1 = SPla { ni: Some(ni), no: Some(no), ..st };
    if inp.len() != ni || out.len() != no {
        PlaStep::Fail(
            SPlaError::CubeDimensionMismatch {
                expected: sat_add(ni as nat, no as nat),
                actual: sat_add(inp.len(), out.len()),
            },
        )
    } else if first_bad_input(inp) is Some {
        let p = first_bad_input(inp)->0;
        PlaStep::Fail(SPlaError::InvalidInputCharacter { character: inp[p as int], position: p })
    } else if first_bad_output(out, st.cover_type) is Some {
        let p = first_bad_output(out, st.cover_type)->0;
        PlaStep::Fail(SPlaError::InvalidOutputCharacter { character: out[p as int], position: p })
    } else {
        PlaStep::Next(j, SPla { cubes: st1.cubes + row_cubes(inp, out, st.cover_type), ..st1 })
    }
}

/// Reading a continued row from line `j` on: input words are gathered onto `acc` until a line
/// whose first word is `no` characters long, which is the output part. Blank and comment lines
/// are passed over; a directive ends the search without an output part. The result is the
/// gathered input, the output part (empty when none was found) and the line to go on at.
pub open spec fn gather(lines: Seq<Seq<char>>, j: int, acc: Seq<char>, no: nat) -> (Seq<char>, Seq<char>, int)
    decreases lines.len() - j,
{
    if j < 0 || j >= lines.len() {
        (acc, Seq::empty(), j)
    } else {
        let nl = lines[j];
        if nl.len() == 0 || nl[0] == '#' {
            gather(lines, j + 1, acc, no)
        } else if nl[0] == '.' {
            (acc, Seq::empty(), j)
        } else if words(nl).len() == 0 {
            gather(lines, j + 1, acc, no)
        } else if words(nl)[0].len() == no {
            (acc, words(nl)[0], j + 1)
        } else {
            gather(lines, j + 1, acc + words(nl)[0], no)
        }
    }
}

/// The index of the first `|` in `s`, if any.
pub open spec fn bar_at(s: Seq<char>) -> Option<nat>
    decreases s.len(),
{
    if s.len() == 0 {
        None
    } else if s[0] == '|' {
        Some(0)
    } else {
        match bar_at(s.drop_first()) {
            Some(k) => Some(k + 1),
            None => None,
        }
    }
}

/// A cube row at line `i` (nonblank, not a comment, not a directive).
pub open spec fn cube_row(lines: Seq<Seq<char>>, i: int, st: SPla) -> PlaStep {
    let line = lines[i];
    let (inp, out) = match bar_at(line) {
        Some(k) => (line.take(k as int), line.skip(k as int + 1)),
        None => (line, Seq::<char>::empty()),
    };
    let bare = if out.len() > 0 {
        strip(inp) + strip(out)
    } else {
        strip(line)
    };
    if bare.len() == 0 {
        PlaStep::Next(i + 1, st)
    } else if st.ni is Some && st.no is Some {
        let ni = st.ni->0 as int;
        let no = st.no->0 as int;
        if bare.len() < ni + no {
            if words(line).len() == 0 {
                PlaStep::Next(i + 1, st)
            } else {
                let (acc, o, j) = gather(lines, i + 1, words(line)[0], no as nat);
                if o.len() == 0 {
                    PlaStep::Fail(
                        SPlaError::CubeDimensionMismatch {
                            expected: sat_add(ni as nat, no as nat),
                            actual: acc.len(),
                        },
                    )
                } else {
                    finish_row(acc, o, j, st)
                }
            }
        } else {
            finish_row(bare.take(ni), bare.skip(ni), i + 1, st)
        }
    } else if words(line).len() < 2 {
        PlaStep::Next(i + 1, st)
    } else {
        finish_row(words(line)[0], words(line)[1], i + 1, st)
    }
}

/// Reading line `i`.
pub open spec fn pla_step(lines: Seq<Seq<char>>, i: int, st: SPla) -> PlaStep {
    let line = lines[i];
    if line.len() == 0 || line[0] == '#' {
        PlaStep::Next(i + 1, st)
    } else if line[0] == '.' {
        match directive(words(line), st) {
            Some(Ok(st2)) => PlaStep::Next(i + 1, st2),
            Some(Err(e)) => PlaStep::Fail(e),
            None => PlaStep::Stop(st),
        }
    } else {
        cube_row(lines, i, st)
    }
}

/// Reading lines from `i` on.
pub open spec fn pla_run(lines: Seq<Seq<char>>, i: int, st: SPla) -> Result<SPla, SPlaError>
    decreases lines.len() - i,
{
    if i < 0 || i >= lines.len() {
        Ok(st)
    } else {
        match pla_step(lines, i, st) {
            PlaStep::Next(j, st2) => if i < j <= lines.len() {
                pla_run(lines, j, st2)
            } else {
                Ok(st2)
            },
            PlaStep::Stop(st2) => Ok(st2),
            PlaStep::Fail(e) => Err(e),
        }
    }
}

/// The trimmed lines of a text.
pub open spec fn pla_lines(text: Seq<char>) -> Seq<Seq<char>> {
    text_lines(text).map_values(|l: Seq<char>| trim(l))
}

/// The labels `prefix0`, `prefix1`, ... for `n` positions.
pub open spec fn default_labels(prefix: char, n: nat) -> Seq<Seq<char>> {
    Seq::new(n, |i: int| seq![prefix] + dec(i as nat))
}

/// What a PLA text holds: dimensions, labels, cubes and cover type.
#[verifier::ext_equal]
pub struct SPlaParts {
    pub num_inputs: usize,
    pub num_outputs: usize,
    pub input_labels: Seq<Seq<char>>,
    pub output_labels: Seq<Seq<char>>,
    pub cubes: Seq<SCube>,
    pub cover_type: PLAType,
}

/// The reading of a PLA text: the lines are read, then both dimensions must be known and the
/// label lists, where given, must match them; absent labels default to `x0, x1, ...` for the
/// inputs and `y0, y1, ...` for the outputs.
pub open spec fn pla_reading(text: Seq<char>) -> Result<SPlaParts, SPlaError> {
    match pla_run(pla_lines(text), 0, pla_start()) {
        Err(e) => Err(e),
        Ok(st) => if st.ni is None && st.no is None {
            Err(SPlaError::MissingDimensions)
        } else if st.ni is None {
            Err(SPlaError::MissingInputDirective)
        } else if st.no is None {
            Err(SPlaError::MissingOutputDirective)
        } else if st.ilb is Some && st.ilb->0.len() != st.ni->0 {
            Err(
                SPlaError::LabelCountMismatch {
                    label_type: "input"@,
                    expected: st.ni->0 as nat,
                    actual: st.ilb->0.len(),
                },
            )
        } else if st.ob is Some && st.ob->0.len() != st.no->0 {
            Err(
                SPlaError::LabelCountMismatch {
                    label_type: "output"@,
                    expected: st.no->0 as nat,
                    actual: st.ob->0.len(),
                },
            )
        } else {
            Ok(
                SPlaParts {
                    num_inputs: st.ni->0,
                    num_outputs: st.no->0,
                    input_labels: match st.ilb {
                        Some(l) => l,
                        None => default_labels('x', st.ni->0 as nat),
                    },
                    output_labels: match st.ob {
                        Some(l) => l,
                        None => default_labels('y', st.no->0 as nat),
                    },
                    cubes: st.cubes,
                    cover_type: st.cover_type,
                },
            )
        },
    }
}

/// A string holding the characters of `v`.
pub fn string_of(v: &Vec<char>) -> (r: String)
    ensures
        r@ == v@,
{
    let mut s = String::new();
    let n = v.len();
    let mut i: usize = 0;
    while i < n
        invariant
            n == v@.len(),
            i <= n,
            s@ == v@.take(i as int),
        decreases n - i,
    {
        push_char(&mut s, v[i]);
        proof {
            assert(v@.take(i + 1) =~= v@.take(i as int).push(v@[i as int]));
        }
        i += 1;
    }
    proof {
        assert(v@.take(n as int) =~= v@);
    }
    s
}

/// Whether the characters of `w` are those of `lit`.
fn eq_lit(w: &Vec<char>, lit: &str) -> (r: bool)
    ensures
        r == (w@ == lit@),
{
    let l = chars_of(lit);
    if w.len() != l.len() {
        return false;
    }
    let n = w.len();
    let mut i: usize = 0;
    while i < n
        invariant
            n == w@.len(),
            n == l@.len(),
            l@ == lit@,
            i <= n,
            forall|k: int| 0 <= k < i ==> w@[k] == l@[k],
        decreases n - i,
    {
        if w[i] != l[i] {
            return false;
        }
        i += 1;
    }
    proof {
        assert(w@ =~= l@);
    }
    true
}

/// The state of a reading in progress.
struct PlaState {
    ni: Option<usize>,
    no: Option<usize>,
    cover_type: PLAType,
    ilb: Option<Vec<Vec<char>>>,
    ob: Option<Vec<Vec<char>>>,
    cubes: Vec<Cube>,
}

/// The value of an optional list of words.
pub open spec fn opt_rows(v: Option<Vec<Vec<char>>>) -> Option<Seq<Seq<char>>> {
    match v {
        Some(w) => Some(rows_view(w@)),
        None => None,
    }
}

impl View for PlaState {
    type V = SPla;

    closed spec fn view(&self) -> SPla {
        SPla {
            ni: self.ni,
            no: self.no,
            cover_type: self.cover_type,
            ilb: opt_rows(self.ilb),
            ob: opt_rows(self.ob),
            cubes: cubes_view(self.cubes@),
        }
    }
}

/// A step's outcome agrees with what the format says of it: going on at the same line index
/// with the same state, stopping with it, or failing with the same error.
pub open spec fn step_agrees(r: Result<(usize, bool), PLAError>, st: SPla, expected: PlaStep) -> bool {
    match expected {
        PlaStep::Next(j, s2) => r matches Ok((k, stop)) && !stop && k == j && st == s2,
        PlaStep::Stop(s2) => r matches Ok((_, stop)) && stop && st == s2,
        PlaStep::Fail(e) => r matches Err(x) && x@ == e,
    }
}

proof fn lemma_first_bad_input(s: Seq<char>, i: int)
    requires
        0 <= i <= s.len(),
        forall|k: int| 0 <= k < i ==> input_value(#[trigger] s[k]) is Some,
    ensures
        i == s.len() ==> first_bad_input(s) is None,
        i < s.len() && input_value(s[i]) is None ==> first_bad_input(s) == Some(i as nat),
    decreases i,
{
    if i > 0 {
        let t = s.drop_first();
        assert forall|k: int| 0 <= k < i - 1 implies input_value(#[trigger] t[k]) is Some by {
            assert(t[k] == s[k + 1]);
        }
        lemma_first_bad_input(t, i - 1);
        assert(input_value(s[0]) is Some);
        if i < s.len() {
            assert(t[i - 1] == s[i]);
        }
    }
}

proof fn lemma_first_bad_output(s: Seq<char>, t: PLAType, i: int)
    requires
        0 <= i <= s.len(),
        forall|k: int| 0 <= k < i ==> output_class(#[trigger] s[k], t) is Some,
    ensures
        i == s.len() ==> first_bad_output(s, t) is None,
        i < s.len() && output_class(s[i], t) is None ==> first_bad_output(s, t) == Some(i as nat),
    decreases i,
{
    if i > 0 {
        let u = s.drop_first();
        assert forall|k: int| 0 <= k < i - 1 implies output_class(#[trigger] u[k], t) is Some by {
            assert(u[k] == s[k + 1]);
        }
        lemma_first_bad_output(u, t, i - 1);
        assert(output_class(s[0], t) is Some);
        if i < s.len() {
            assert(u[i - 1] == s[i]);
        }
    }
}

/// The input values of a row's input part, or the first invalid character.
fn decode_inputs(s: &Vec<char>) -> (r: Result<Vec<Option<bool>>, PLAError>)
    ensures
        match first_bad_input(s@) {
            Some(p) => r matches Err(e) && e@ == SPlaError::InvalidInputCharacter {
                character: s@[p as int],
                position: p,
            },
            None => r matches Ok(v) && v@ == s@.map_values(|c: char| input_value(c)->0),
        },
{
    let n = s.len();
    let mut out: Vec<Option<bool>> = Vec::new();
    let mut i: usize = 0;
    while i < n
        invariant
            n == s@.len(),
            i <= n,
            forall|k: int| 0 <= k < i ==> input_value(#[trigger] s@[k]) is Some,
            out@ == s@.take(i as int).map_values(|c: char| input_value(c)->0),
        decreases n - i,
    {
        let c = s[i];
        let v = if c == '0' {
            Some(false)
        } else if c == '1' {
            Some(true)
        } else if c == '-' || c == '~' || c == 'x' || c == 'X' {
            None
        } else {
            proof {
                lemma_first_bad_input(s@, i as int);
            }
            return Err(PLAError::InvalidInputCharacter { character: c, position: i });
        };
        out.push(v);
        proof {
            assert(s@.take(i + 1).map_values(|c: char| input_value(c)->0) =~= s@.take(
                i as int,
            ).map_values(|c: char| input_value(c)->0).push(v));
        }
        i += 1;
    }
    proof {
        lemma_first_bad_input(s@, n as int);
        assert(s@.take(n as int) =~= s@);
    }
    Ok(out)
}

/// The set each output character of a row puts its bit in, or the first invalid character.
fn decode_outputs(s: &Vec<char>, t: PLAType) -> (r: Result<Vec<u8>, PLAError>)
    ensures
        match first_bad_output(s@, t) {
            Some(p) => r matches Err(e) && e@ == SPlaError::InvalidOutputCharacter {
                character: s@[p as int],
                position: p,
            },
            None => r matches Ok(v) && v@ == s@.map_values(|c: char| output_class(c, t)->0),
        },
{
    let n = s.len();
    let has_d = t.has_d();
    let has_r = t.has_r();
    let mut out: Vec<u8> = Vec::new();
    let mut i: usize = 0;
    while i < n
        invariant
            n == s@.len(),
            i <= n,
            has_d == t.spec_has_d(),
            has_r == t.spec_has_r(),
            forall|k: int| 0 <= k < i ==> output_class(#[trigger] s@[k], t) is Some,
            out@ == s@.take(i as int).map_values(|c: char| output_class(c, t)->0),
        decreases n - i,
    {
        let c = s[i];
        let v: u8 = if c == '1' || c == '4' {
            0
        } else if (c == '0' || c == '3') && has_r {
            2
        } else if (c == '-' || c == '2') && has_d {
            1
        } else if c == '~' || c == '-' || c == '2' || c == '0' || c == '3' {
            3
        } else {
            proof {
                lemma_first_bad_output(s@, t, i as int);
            }
            return Err(PLAError::InvalidOutputCharacter { character: c, position: i });
        };
        out.push(v);
        proof {
            assert(s@.take(i + 1).map_values(|c: char| output_class(c, t)->0) =~= s@.take(
                i as int,
            ).map_values(|c: char| output_class(c, t)->0).push(v));
        }
        i += 1;
    }
    proof {
        lemma_first_bad_output(s@, t, n as int);
        assert(s@.take(n as int) =~= s@);
    }
    Ok(out)
}

/// The output bits of the set `k`, and whether any output is in it.
fn bits_of(classes: &Vec<u8>, k: u8) -> (r: (Vec<bool>, bool))
    ensures
        r.0@ == classes@.map_values(|x: u8| x == k),
        r.1 == classes@.contains(k),
{
    let n = classes.len();
    let mut out: Vec<bool> = Vec::new();
    let mut any = false;
    let mut i: usize = 0;
    while i < n
        invariant
            n == classes@.len(),
            i <= n,
            out@ == classes@.take(i as int).map_values(|x: u8| x == k),
            any == classes@.take(i as int).contains(k),
        decreases n - i,
    {
        let b = classes[i] == k;
        out.push(b);
        proof {
            let pre = classes@.take(i as int);
            assert(classes@.take(i + 1) =~= pre.push(classes@[i as int]));
            assert(classes@.take(i + 1).map_values(|x: u8| x == k) =~= pre.map_values(|x: u8| x == k).push(b));
            vstd::seq_lib::lemma_seq_contains_after_push(pre, classes@[i as int], k);
        }
        any = any || b;
        i += 1;
    }
    proof {
        assert(classes@.take(n as int) =~= classes@);
    }
    (out, any)
}

/// A copy of a list of input values.
fn copy_inputs(v: &Vec<Option<bool>>) -> (r: Vec<Option<bool>>)
    ensures
        r@ == v@,
{
    let n = v.len();
    let mut out: Vec<Option<bool>> = Vec::new();
    let mut i: usize = 0;
    while i < n
        invariant
            n == v@.len(),
            i <= n,
            out@ == v@.take(i as int),
        decreases n - i,
    {
        out.push(v[i]);
        proof {
            assert(v@.take(i + 1) =~= v@.take(i as int).push(v@[i as int]));
        }
        i += 1;
    }
    proof {
        assert(v@.take(n as int) =~= v@);
    }
    out
}

/// The cubes a valid row yields.
fn make_row_cubes(inp: &Vec<char>, out: &Vec<char>, t: PLAType) -> (r: Vec<Cube>)
    requires
        first_bad_input(inp@) is None,
        first_bad_output(out@, t) is None,
    ensures
        cubes_view(r@) == row_cubes(inp@, out@, t),
{
    let ins = match decode_inputs(inp) {
        Ok(v) => v,
        Err(_) => {
            return Vec::new();
        },
    };
    let classes = match decode_outputs(out, t) {
        Ok(v) => v,
        Err(_) => {
            return Vec::new();
        },
    };
    proof {
        lemma_bits(out@, t, classes@, 0);
        lemma_bits(out@, t, classes@, 1);
        lemma_bits(out@, t, classes@, 2);
    }
    let mut r: Vec<Cube> = Vec::new();
    let (fb, fa) = bits_of(&classes, 0);
    if fa {
        r.push(Cube::new(copy_inputs(&ins), fb, CubeType::F));
    }
    let (db, da) = bits_of(&classes, 1);
    if da {
        r.push(Cube::new(copy_inputs(&ins), db, CubeType::D));
    }
    let (rb, ra) = bits_of(&classes, 2);
    if ra {
        r.push(Cube::new(copy_inputs(&ins), rb, CubeType::R));
    }
    proof {
        let row = row_cubes(inp@, out@, t);
        assert(cubes_view(r@) =~= row);
    }
    r
}

/// The bits and presence of one set, read off the decoded classes, are those the format gives.
proof fn lemma_bits(out: Seq<char>, t: PLAType, classes: Seq<u8>, k: u8)
    requires
        first_bad_output(out, t) is None,
        classes == out.map_values(|c: char| output_class(c, t)->0),
    ensures
        classes.map_values(|x: u8| x == k) == out.map_values(|c: char| output_class(c, t) == Some(k)),
        classes.contains(k) == out.map_values(|c: char| output_class(c, t)).contains(Some(k)),
{
    let cls = out.map_values(|c: char| output_class(c, t));
    assert forall|w: int| 0 <= w < out.len() implies output_class(out[w], t) == Some(#[trigger] classes[w]) by {
        lemma_no_bad_output(out, t, w);
    }
    assert(classes.map_values(|x: u8| x == k) =~= out.map_values(|c: char| output_class(c, t) == Some(k)));
    if classes.contains(k) {
        let w = choose|w: int| 0 <= w < classes.len() && classes[w] == k;
        assert(cls[w] == Some(k));
    }
    if cls.contains(Some(k)) {
        let w = choose|w: int| 0 <= w < cls.len() && cls[w] == Some(k);
        assert(classes[w] == k);
    }
}

/// With no invalid character, every output character has a set.
proof fn lemma_no_bad_output(s: Seq<char>, t: PLAType, w: int)
    requires
        first_bad_output(s, t) is None,
        0 <= w < s.len(),
    ensures
        output_class(s[w], t) is Some,
    decreases w,
{
    if w > 0 {
        lemma_no_bad_output(s.drop_first(), t, w - 1);
        assert(s.drop_first()[w - 1] == s[w]);
    }
}

/// A row with both parts in hand (see [`finish_row`]).
fn finish_row_exec(inp: &Vec<char>, out: &Vec<char>, j: usize, st: &mut PlaState) -> (r: Result<(usize, bool), PLAError>)
    ensures
        step_agrees(r, final(st)@, finish_row(inp@, out@, j as int, old(st)@)),
{
    let ni = match st.ni {
        Some(v) => v,
        None => inp.len(),
    };
    let no = match st.no {
        Some(v) => v,
        None => out.len(),
    };
    st.ni = Some(ni);
    st.no = Some(no);
    if inp.len() != ni || out.len() != no {
        return Err(
            PLAError::CubeDimensionMismatch {
                expected: ni.saturating_add(no),
                actual: inp.len().saturating_add(out.len()),
            },
        );
    }
    match decode_inputs(inp) {
        Err(e) => {
            return Err(e);
        },
        Ok(_) => {},
    }
    match decode_outputs(out, st.cover_type) {
        Err(e) => {
            return Err(e);
        },
        Ok(_) => {},
    }
    let mut row = make_row_cubes(inp, out, st.cover_type);
    let ghost before = st.cubes@;
    st.cubes.append(&mut row);
    proof {
        assert(cubes_view(st.cubes@) =~= cubes_view(before) + row_cubes(inp@, out@, old(st)@.cover_type));
    }
    Ok((j, false))
}

/// The characters of `v` from `a` up to `b`.
fn sub_chars(v: &Vec<char>, a: usize, b: usize) -> (r: Vec<char>)
    requires
        a <= b <= v@.len(),
    ensures
        r@ == v@.subrange(a as int, b as int),
{
    let mut out: Vec<char> = Vec::new();
    let mut k: usize = a;
    while k < b
        invariant
            a <= k <= b,
            b <= v@.len(),
            out@ == v@.subrange(a as int, k as int),
        decreases b - k,
    {
        out.push(v[k]);
        proof {
            assert(out@ =~= v@.subrange(a as int, k + 1));
        }
        k += 1;
    }
    out
}

/// The first word of a nonblank line.
fn first_word(line: &Vec<char>) -> (r: Option<Vec<char>>)
    ensures
        match r {
            Some(w) => words(line@).len() > 0 && w@ == words(line@)[0],
            None => words(line@).len() == 0,
        },
{
    let mut ws = split_words(line);
    if ws.len() == 0 {
        None
    } else {
        Some(ws.remove(0))
    }
}

/// Reading a continued row from line `j` on (see [`gather`]).
fn gather_exec(lines: &Vec<Vec<char>>, j: usize, acc0: Vec<char>, no: usize) -> (r: (Vec<char>, Vec<char>, usize))
    ensures
        (r.0@, r.1@, r.2 as int) == gather(rows_view(lines@), j as int, acc0@, no as nat),
{
    let ghost ls = rows_view(lines@);
    let ghost target = gather(ls, j as int, acc0@, no as nat);
    let n = lines.len();
    let mut acc = acc0;
    let mut k = j;
    while k < n
        invariant
            n == lines@.len(),
            ls == rows_view(lines@),
            j <= k,
            target == gather(rows_view(lines@), j as int, acc0@, no as nat),
            gather(ls, k as int, acc@, no as nat) == target,
        decreases n - k,
    {
        let nl = &lines[k];
        proof {
            assert(ls[k as int] == nl@);
        }
        if nl.len() == 0 || nl[0] == '#' {
            k += 1;
        } else if nl[0] == '.' {
            let e: Vec<char> = Vec::new();
            proof {
                assert(e@ =~= Seq::<char>::empty());
                assert(gather(ls, k as int, acc@, no as nat) == (acc@, e@, k as int));
            }
            return (acc, e, k);
        } else {
            match first_word(nl) {
                None => {
                    k += 1;
                },
                Some(w) => {
                    if w.len() == no {
                        proof {
                            assert(gather(ls, k as int, acc@, no as nat) == (acc@, w@, k + 1));
                        }
                        return (acc, w, k + 1);
                    }
                    let mut w = w;
                    acc.append(&mut w);
                    k += 1;
                },
            }
        }
    }
    (acc, Vec::new(), k)
}

/// The next line to read after a row is past the row's first line and within the text.
proof fn lemma_gather_range(lines: Seq<Seq<char>>, j: int, acc: Seq<char>, no: nat)
    requires
        0 <= j <= lines.len(),
    ensures
        j <= gather(lines, j, acc, no).2 <= lines.len(),
    decreases lines.len() - j,
{
    if j < lines.len() {
        let nl = lines[j];
        if nl.len() == 0 || nl[0] == '#' {
            lemma_gather_range(lines, j + 1, acc, no);
        } else if nl[0] == '.' {
        } else if words(nl).len() == 0 {
            lemma_gather_range(lines, j + 1, acc, no);
        } else if words(nl)[0].len() == no {
        } else {
            lemma_gather_range(lines, j + 1, acc + words(nl)[0], no);
        }
    }
}

/// The position of the first `|` of a line, if any.
fn find_bar(line: &Vec<char>) -> (r: Option<usize>)
    ensures
        match bar_at(line@) {
            Some(k) => r == Some(k as usize) && k < line@.len(),
            None => r is None,
        },
{
    let n = line.len();
    let mut k: usize = 0;
    proof {
        assert(line@.skip(0) =~= line@);
    }
    while k < n
        invariant
            n == line@.len(),
            k <= n,
            bar_at(line@) == (match bar_at(line@.skip(k as int)) {
                Some(x) => Some((x + k) as nat),
                None => None,
            }),
        decreases n - k,
    {
        proof {
            assert(line@.skip(k as int).drop_first() =~= line@.skip(k + 1));
        }
        if line[k] == '|' {
            return Some(k);
        }
        k += 1;
    }
    proof {
        assert(line@.skip(n as int) =~= Seq::<char>::empty());
    }
    None
}

/// Reading a cube row at line `i` (see [`cube_row`]).
fn cube_row_exec(lines: &Vec<Vec<char>>, i: usize, st: &mut PlaState) -> (r: Result<(usize, bool), PLAError>)
    requires
        i < lines@.len(),
    ensures
        step_agrees(r, final(st)@, cube_row(rows_view(lines@), i as int, old(st)@)),
{
    let ghost ls = rows_view(lines@);
    let count = lines.len();
    let line = &lines[i];
    proof {
        assert(ls[i as int] == line@);
    }
    let n = line.len();
    let (inp, out) = match find_bar(line) {
        Some(k) => (sub_chars(line, 0, k), sub_chars(line, k + 1, n)),
        None => (sub_chars(line, 0, n), Vec::new()),
    };
    proof {
        assert(line@.subrange(0, n as int) =~= line@);
        match bar_at(line@) {
            Some(k) => {
                assert(line@.take(k as int) =~= line@.subrange(0, k as int));
                assert(line@.skip(k as int + 1) =~= line@.subrange(k as int + 1, n as int));
            },
            None => {},
        }
    }
    let bare = if out.len() > 0 {
        let mut a = strip_chars(inp.as_slice());
        let mut b = strip_chars(out.as_slice());
        a.append(&mut b);
        a
    } else {
        strip_chars(line.as_slice())
    };
    if bare.len() == 0 {
        return Ok((i + 1, false));
    }
    match (st.ni, st.no) {
        (Some(ni), Some(no)) => {
            if bare.len() < ni || bare.len() - ni < no {
                match first_word(line) {
                    None => Ok((i + 1, false)),
                    Some(w) => {
                        let (acc, o, j) = gather_exec(lines, i + 1, w, no);
                        if o.len() == 0 {
                            Err(
                                PLAError::CubeDimensionMismatch {
                                    expected: ni.saturating_add(no),
                                    actual: acc.len(),
                                },
                            )
                        } else {
                            finish_row_exec(&acc, &o, j, st)
                        }
                    },
                }
            } else {
                let bn = bare.len();
                let a = sub_chars(&bare, 0, ni);
                let b = sub_chars(&bare, ni, bn);
                proof {
                    assert(a@ =~= bare@.take(ni as int));
                    assert(b@ =~= bare@.skip(ni as int));
                }
                finish_row_exec(&a, &b, i + 1, st)
            }
        },
        _ => {
            let mut ws = split_words(line);
            if ws.len() < 2 {
                Ok((i + 1, false))
            } else {
                let w0 = ws.remove(0);
                let w1 = ws.remove(0);
                finish_row_exec(&w0, &w1, i + 1, st)
            }
        },
    }
}

/// The effect of a directive line (see [`directive`]): `Ok(true)` for `.e`.
fn directive_exec(parts: Vec<Vec<char>>, st: &mut PlaState) -> (r: Result<bool, PLAError>)
    requires
        parts@.len() > 0,
    ensures
        match directive(rows_view(parts@), old(st)@) {
            Some(Ok(s2)) => r == Ok::<bool, PLAError>(false) && final(st)@ == s2,
            Some(Err(e)) => r matches Err(x) && x@ == e,
            None => r == Ok::<bool, PLAError>(true) && final(st)@ == old(st)@,
        },
{
    let ghost ps = rows_view(parts@);
    let mut parts = parts;
    let head = parts.remove(0);
    proof {
        assert(ps[0] == head@);
        assert(rows_view(parts@) =~= ps.drop_first());
    }
    let arg: Vec<char> = if parts.len() > 0 {
        sub_chars(&parts[0], 0, parts[0].len())
    } else {
        Vec::new()
    };
    proof {
        if parts@.len() > 0 {
            assert(parts@[0]@.subrange(0, parts@[0]@.len() as int) =~= parts@[0]@);
            assert(ps[1] == parts@[0]@);
        }
    }
    if eq_lit(&head, ".i") || eq_lit(&head, ".o") {
        let is_i = eq_lit(&head, ".i");
        let v = if parts.len() > 0 {
            parse_usize(&arg)
        } else {
            None
        };
        match v {
            Some(x) => {
                if is_i {
                    st.ni = Some(x);
                } else {
                    st.no = Some(x);
                }
                Ok(false)
            },
            None => {
                let value = string_of(&arg);
                if is_i {
                    Err(PLAError::InvalidInputDirective { value })
                } else {
                    Err(PLAError::InvalidOutputDirective { value })
                }
            },
        }
    } else if eq_lit(&head, ".type") {
        if parts.len() > 0 {
            st.cover_type = if eq_lit(&arg, "f") {
                PLAType::F
            } else if eq_lit(&arg, "fd") {
                PLAType::FD
            } else if eq_lit(&arg, "fr") {
                PLAType::FR
            } else if eq_lit(&arg, "fdr") {
                PLAType::FDR
            } else {
                return Err(PLAError::InvalidTypeDirective { value: string_of(&arg) });
            };
        }
        Ok(false)
    } else if eq_lit(&head, ".ilb") {
        if parts.len() > 0 {
            st.ilb = Some(parts);
        }
        Ok(false)
    } else if eq_lit(&head, ".ob") {
        if parts.len() > 0 {
            st.ob = Some(parts);
        }
        Ok(false)
    } else if eq_lit(&head, ".e") || eq_lit(&head, ".end") {
        Ok(true)
    } else {
        Ok(false)
    }
}

/// Reading line `i` (see [`pla_step`]).
fn pla_step_exec(lines: &Vec<Vec<char>>, i: usize, st: &mut PlaState) -> (r: Result<(usize, bool), PLAError>)
    requires
        i < lines@.len(),
    ensures
        step_agrees(r, final(st)@, pla_step(rows_view(lines@), i as int, old(st)@)),
{
    let ghost ls = rows_view(lines@);
    let count = lines.len();
    let line = &lines[i];
    proof {
        assert(ls[i as int] == line@);
    }
    if line.len() == 0 || line[0] == '#' {
        Ok((i + 1, false))
    } else if line[0] == '.' {
        let parts = split_words(line);
        proof {
            assert(rows_view(parts@) =~= words(line@));
            lemma_words_nonempty(line@);
        }
        match directive_exec(parts, st) {
            Ok(true) => Ok((i, true)),
            Ok(false) => Ok((i + 1, false)),
            Err(e) => Err(e),
        }
    } else {
        cube_row_exec(lines, i, st)
    }
}

/// A line that starts with a non-space character has a word.
proof fn lemma_words_nonempty(s: Seq<char>)
    requires
        s.len() > 0,
        !is_space(s[0]),
    ensures
        words(s).len() > 0,
{
    lemma_words_from_nonempty(s.drop_first(), seq![s[0]]);
}

proof fn lemma_words_from_nonempty(s: Seq<char>, cur: Seq<char>)
    requires
        cur.len() > 0,
    ensures
        crate::lines::words_from(s, cur).len() > 0,
    decreases s.len(),
{
    if s.len() > 0 && !is_space(s[0]) {
        lemma_words_from_nonempty(s.drop_first(), cur.push(s[0]));
    }
}

/// A cover read from PLA text: its dimensions, labels, cubes and cover type.
#[derive(Debug)]
pub struct PlaParts {
    pub num_inputs: usize,
    pub num_outputs: usize,
    pub input_labels: Vec<String>,
    pub output_labels: Vec<String>,
    pub cubes: Vec<Cube>,
    pub cover_type: PLAType,
}

/// The values of a list of strings.
pub open spec fn strings_view(v: Seq<String>) -> Seq<Seq<char>> {
    v.map_values(|s: String| s@)
}

impl View for PlaParts {
    type V = SPlaParts;

    open spec fn view(&self) -> SPlaParts {
        SPlaParts {
            num_inputs: self.num_inputs,
            num_outputs: self.num_outputs,
            input_labels: strings_view(self.input_labels@),
            output_labels: strings_view(self.output_labels@),
            cubes: cubes_view(self.cubes@),
            cover_type: self.cover_type,
        }
    }
}

/// The strings holding each list of characters.
fn strings_of(v: &Vec<Vec<char>>) -> (r: Vec<String>)
    ensures
        strings_view(r@) == rows_view(v@),
{
    let n = v.len();
    let mut out: Vec<String> = Vec::new();
    let mut i: usize = 0;
    while i < n
        invariant
            n == v@.len(),
            i <= n,
            strings_view(out@) == rows_view(v@.take(i as int)),
        decreases n - i,
    {
        let s = string_of(&v[i]);
        let ghost prev = out@;
        out.push(s);
        proof {
            assert(strings_view(out@) =~= strings_view(prev).push(v@[i as int]@));
            assert(v@.take(i + 1) =~= v@.take(i as int).push(v@[i as int]));
            assert(rows_view(v@.take(i + 1)) =~= rows_view(v@.take(i as int)).push(v@[i as int]@));
        }
        i += 1;
    }
    proof {
        assert(v@.take(n as int) =~= v@);
    }
    out
}

/// The labels `prefix0, prefix1, ...` for `n` positions.
fn make_default_labels(prefix: char, n: usize) -> (r: Vec<String>)
    ensures
        strings_view(r@) == default_labels(prefix, n as nat),
{
    let mut out: Vec<String> = Vec::new();
    let mut i: usize = 0;
    while i < n
        invariant
            i <= n,
            strings_view(out@) =~= default_labels(prefix, i as nat),
        decreases n - i,
    {
        let mut s = String::new();
        push_char(&mut s, prefix);
        push_usize(&mut s, i);
        let ghost prev = out@;
        out.push(s);
        proof {
            assert(s@ =~= seq![prefix] + dec(i as nat));
            assert(strings_view(out@) =~= strings_view(prev).push(s@));
            assert(default_labels(prefix, (i + 1) as nat) =~= default_labels(prefix, i as nat).push(
                seq![prefix] + dec(i as nat),
            ));
        }
        i += 1;
    }
    out
}

/// A string holding `lit`.
fn string_from(lit: &str) -> (r: String)
    ensures
        r@ == lit@,
{
    let v = chars_of(lit);
    string_of(&v)
}

/// Reading a step never goes backwards nor past the end of the text.
proof fn lemma_step_range(lines: Seq<Seq<char>>, i: int, st: SPla)
    requires
        0 <= i < lines.len(),
    ensures
        pla_step(lines, i, st) matches PlaStep::Next(j, _) ==> i < j <= lines.len(),
{
    let line = lines[i];
    if line.len() == 0 || line[0] == '#' {
    } else if line[0] == '.' {
    } else {
        let (inp, out) = match bar_at(line) {
            Some(k) => (line.take(k as int), line.skip(k as int + 1)),
            None => (line, Seq::<char>::empty()),
        };
        if st.ni is Some && st.no is Some && words(line).len() > 0 {
            lemma_gather_range(lines, i + 1, words(line)[0], st.no->0 as nat);
        }
    }
}

/// Read a cover from PLA text (see the module documentation for the format). Fails on a
/// malformed `.i` or `.o`, on an invalid character in a cube row of the cover's dimensions, when
/// the dimensions are never given, or when a label list does not match them.
pub fn parse_pla(text: &str) -> (r: Result<PlaParts, PLAError>)
    ensures
        match pla_reading(text@) {
            Ok(p) => r matches Ok(x) && x@ == p,
            Err(e) => r matches Err(x) && x@ == e,
        },
{
    let chars = chars_of(text);
    let lines = trimmed_lines(&chars);
    let ghost ls = rows_view(lines@);
    proof {
        assert(ls =~= pla_lines(text@));
    }
    let mut st = PlaState {
        ni: None,
        no: None,
        cover_type: PLAType::FD,
        ilb: None,
        ob: None,
        cubes: Vec::new(),
    };
    proof {
        assert(st@ =~= pla_start());
    }
    let ghost whole = pla_run(ls, 0, pla_start());
    let n = lines.len();
    let mut i: usize = 0;
    let mut stopped = false;
    while !stopped && i < n
        invariant
            n == lines@.len(),
            ls == rows_view(lines@),
            ls == pla_lines(text@),
            whole == pla_run(ls, 0, pla_start()),
            i <= n,
            stopped ==> whole == Ok::<SPla, SPlaError>(st@),
            !stopped ==> pla_run(ls, i as int, st@) == whole,
        decreases n - i + (if stopped {
            0int
        } else {
            1int
        }),
    {
        let ghost before = st@;
        proof {
            lemma_step_range(ls, i as int, before);
        }
        match pla_step_exec(&lines, i, &mut st) {
            Err(e) => {
                proof {
                    assert(pla_run(ls, i as int, before) == Err::<SPla, SPlaError>(e@));
                }
                return Err(e);
            },
            Ok((j, stop)) => {
                if stop {
                    stopped = true;
                } else {
                    i = j;
                }
            },
        }
    }
    let ni = match st.ni {
        Some(v) => v,
        None => {
            if st.no.is_none() {
                return Err(PLAError::MissingDimensions);
            }
            return Err(PLAError::MissingInputDirective);
        },
    };
    let no = match st.no {
        Some(v) => v,
        None => {
            return Err(PLAError::MissingOutputDirective);
        },
    };
    let input_labels = match &st.ilb {
        Some(l) => {
            if l.len() != ni {
                return Err(
                    PLAError::LabelCountMismatch {
                        label_type: string_from("input"),
                        expected: ni,
                        actual: l.len(),
                    },
                );
            }
            strings_of(l)
        },
        None => make_default_labels('x', ni),
    };
    let output_labels = match &st.ob {
        Some(l) => {
            if l.len() != no {
                return Err(
                    PLAError::LabelCountMismatch {
                        label_type: string_from("output"),
                        expected: no,
                        actual: l.len(),
                    },
                );
            }
            strings_of(l)
        },
        None => make_default_labels('y', no),
    };
    let parts = PlaParts {
        num_inputs: ni,
        num_outputs: no,
        input_labels,
        output_labels,
        cubes: st.cubes,
        cover_type: st.cover_type,
    };
    proof {
        assert(parts@ =~= pla_reading(text@)->Ok_0);
    }
    Ok(parts)
}

/// The `.type` line a cover type is written with (none for `f`).
pub open spec fn type_header(t: PLAType) -> Seq<char> {
    match t {
        PLAType::F => Seq::empty(),
        PLAType::FD => ".type fd\n"@,
        PLAType::FR => ".type fr\n"@,
        PLAType::FDR => ".type fdr\n"@,
    }
}

/// Each label preceded by a space.
pub open spec fn spaced(labels: Seq<Seq<char>>) -> Seq<char>
    decreases labels.len(),
{
    if labels.len() == 0 {
        Seq::empty()
    } else {
        spaced(labels.drop_last()) + seq![' '] + labels.last()
    }
}

/// A label line: the tag, then the labels; nothing when there are no labels.
pub open spec fn label_line(tag: Seq<char>, labels: Option<Seq<Seq<char>>>) -> Seq<char> {
    match labels {
        Some(l) => tag + spaced(l) + seq!['\n'],
        None => Seq::empty(),
    }
}

/// Whether a cube is written under a cover type: `f` writes the on-set, `fd` adds the
/// don't-care set, `fr` the off-set, `fdr` everything.
pub open spec fn shown(c: SCube, t: PLAType) -> bool {
    match t {
        PLAType::F => c.cube_type is F,
        PLAType::FD => c.cube_type is F || c.cube_type is D,
        PLAType::FR => c.cube_type is F || c.cube_type is R,
        PLAType::FDR => true,
    }
}

/// The character an input value is written as.
pub open spec fn input_char(v: Option<bool>) -> char {
    match v {
        Some(false) => '0',
        Some(true) => '1',
        None => '-',
    }
}

/// The character an output bit is written as: `1`/`0` under `f`; otherwise the cube's set
/// character (`1` on-set, `2` don't-care, `0` off-set) for a set bit and `~` for a clear one.
pub open spec fn output_char(b: bool, ct: CubeType, t: PLAType) -> char {
    if t is F {
        if b {
            '1'
        } else {
            '0'
        }
    } else if !b {
        '~'
    } else {
        match ct {
            CubeType::F => '1',
            CubeType::D => '2',
            CubeType::R => '0',
        }
    }
}

/// The line a cube is written as.
pub open spec fn cube_text(c: SCube, t: PLAType) -> Seq<char> {
    c.inputs.map_values(|v: Option<bool>| input_char(v)) + seq![' '] + c.outputs.map_values(
        |b: bool| output_char(b, c.cube_type, t),
    ) + seq!['\n']
}

/// The lines of the cubes written under a cover type.
pub open spec fn cubes_text(cs: Seq<SCube>, t: PLAType) -> Seq<char>
    decreases cs.len(),
{
    if cs.len() == 0 {
        Seq::empty()
    } else if shown(cs.last(), t) {
        cubes_text(cs.drop_last(), t) + cube_text(cs.last(), t)
    } else {
        cubes_text(cs.drop_last(), t)
    }
}

/// The number of cubes written under a cover type.
pub open spec fn shown_count(cs: Seq<SCube>, t: PLAType) -> nat
    decreases cs.len(),
{
    if cs.len() == 0 {
        0
    } else if shown(cs.last(), t) {
        shown_count(cs.drop_last(), t) + 1
    } else {
        shown_count(cs.drop_last(), t)
    }
}

/// The PLA text of a cover: the type line, `.i`, the input labels, `.o`, the output labels,
/// `.p` with the number of cubes written, the cube lines, and `.e` (under `f`) or `.end`.
pub open spec fn pla_text(
    ni: nat,
    no: nat,
    ilb: Option<Seq<Seq<char>>>,
    ob: Option<Seq<Seq<char>>>,
    cubes: Seq<SCube>,
    t: PLAType,
) -> Seq<char> {
    type_header(t) + ".i "@ + dec(ni) + seq!['\n'] + label_line(".ilb"@, ilb) + ".o "@ + dec(no)
        + seq!['\n'] + label_line(".ob"@, ob) + ".p "@ + dec(shown_count(cubes, t)) + seq!['\n']
        + cubes_text(cubes, t) + (if t is F {
        ".e\n"@
    } else {
        ".end\n"@
    })
}

/// The value of an optional list of strings.
pub open spec fn opt_strings(v: Option<&Vec<String>>) -> Option<Seq<Seq<char>>> {
    match v {
        Some(w) => Some(strings_view(w@)),
        None => None,
    }
}

/// Appends a label line.
fn push_labels(s: &mut String, tag: &str, labels: Option<&Vec<String>>)
    ensures
        final(s)@ == old(s)@ + label_line(tag@, opt_strings(labels)),
{
    match labels {
        None => {
            proof {
                assert(old(s)@ + Seq::<char>::empty() =~= old(s)@);
            }
        },
        Some(l) => {
            let ghost start = s@;
            push_str(s, tag);
            let n = l.len();
            let mut i: usize = 0;
            while i < n
                invariant
                    n == l@.len(),
                    i <= n,
                    s@ == start + tag@ + spaced(strings_view(l@.take(i as int))),
                decreases n - i,
            {
                push_char(s, ' ');
                push_str(s, l[i].as_str());
                proof {
                    let v = strings_view(l@.take(i + 1));
                    assert(v.drop_last() =~= strings_view(l@.take(i as int)));
                    assert(v.last() == l@[i as int]@);
                }
                i += 1;
            }
            push_char(s, '\n');
            proof {
                assert(l@.take(n as int) =~= l@);
            }
        },
    }
}

/// Appends the line a cube is written as.
fn push_cube(s: &mut String, c: &Cube, t: PLAType)
    ensures
        final(s)@ == old(s)@ + cube_text(cube_view(*c), t),
{
    let ghost start = s@;
    let ni = c.inputs.len();
    let mut i: usize = 0;
    while i < ni
        invariant
            ni == c.inputs@.len(),
            i <= ni,
            s@ == start + c.inputs@.take(i as int).map_values(|v: Option<bool>| input_char(v)),
        decreases ni - i,
    {
        let ch = match c.inputs[i] {
            Some(false) => '0',
            Some(true) => '1',
            None => '-',
        };
        push_char(s, ch);
        proof {
            assert(c.inputs@.take(i + 1).map_values(|v: Option<bool>| input_char(v)) =~= c.inputs@.take(
                i as int,
            ).map_values(|v: Option<bool>| input_char(v)).push(ch));
        }
        i += 1;
    }
    push_char(s, ' ');
    let ghost mid = s@;
    let is_f = match t {
        PLAType::F => true,
        _ => false,
    };
    let set_char = match c.cube_type {
        CubeType::F => '1',
        CubeType::D => '2',
        CubeType::R => '0',
    };
    let no = c.outputs.len();
    let mut k: usize = 0;
    while k < no
        invariant
            no == c.outputs@.len(),
            k <= no,
            is_f == (t is F),
            set_char == output_char(true, c.cube_type, PLAType::FDR),
            s@ == mid + c.outputs@.take(k as int).map_values(|b: bool| output_char(b, c.cube_type, t)),
        decreases no - k,
    {
        let b = c.outputs[k];
        let ch = if is_f {
            if b {
                '1'
            } else {
                '0'
            }
        } else if b {
            set_char
        } else {
            '~'
        };
        push_char(s, ch);
        proof {
            assert(c.outputs@.take(k + 1).map_values(|b: bool| output_char(b, c.cube_type, t))
                =~= c.outputs@.take(k as int).map_values(|b: bool| output_char(b, c.cube_type, t)).push(
                ch,
            ));
        }
        k += 1;
    }
    push_char(s, '\n');
    proof {
        assert(c.inputs@.take(ni as int) =~= c.inputs@);
        assert(c.outputs@.take(no as int) =~= c.outputs@);
        assert(s@ =~= start + cube_text(cube_view(*c), t));
    }
}

/// Whether a cube is written under a cover type.
fn is_shown(c: &Cube, t: PLAType) -> (r: bool)
    ensures
        r == shown(cube_view(*c), t),
{
    match (t, c.cube_type) {
        (PLAType::F, CubeType::F) => true,
        (PLAType::F, _) => false,
        (PLAType::FD, CubeType::R) => false,
        (PLAType::FD, _) => true,
        (PLAType::FR, CubeType::D) => false,
        (PLAType::FR, _) => true,
        (PLAType::FDR, _) => true,
    }
}

/// Write a cover as PLA text (see [`pla_text`]); labels are written only when given.
pub fn write_pla(
    num_inputs: usize,
    num_outputs: usize,
    input_labels: Option<&Vec<String>>,
    output_labels: Option<&Vec<String>>,
    cubes: &Vec<Cube>,
    pla_type: PLAType,
) -> (r: String)
    ensures
        r@ == pla_text(
            num_inputs as nat,
            num_outputs as nat,
            opt_strings(input_labels),
            opt_strings(output_labels),
            cubes_view(cubes@),
            pla_type,
        ),
{
    let mut s = String::new();
    match pla_type {
        PLAType::F => {},
        PLAType::FD => push_str(&mut s, ".type fd\n"),
        PLAType::FR => push_str(&mut s, ".type fr\n"),
        PLAType::FDR => push_str(&mut s, ".type fdr\n"),
    }
    proof {
        assert(s@ =~= type_header(pla_type));
    }
    push_str(&mut s, ".i ");
    push_usize(&mut s, num_inputs);
    push_char(&mut s, '\n');
    push_labels(&mut s, ".ilb", input_labels);
    push_str(&mut s, ".o ");
    push_usize(&mut s, num_outputs);
    push_char(&mut s, '\n');
    push_labels(&mut s, ".ob", output_labels);
    let n = cubes.len();
    let mut count: usize = 0;
    let mut i: usize = 0;
    while i < n
        invariant
            n == cubes@.len(),
            i <= n,
            count == shown_count(cubes_view(cubes@.take(i as int)), pla_type),
            count <= i,
        decreases n - i,
    {
        let sh = is_shown(&cubes[i], pla_type);
        proof {
            assert(cubes_view(cubes@.take(i + 1)).drop_last() =~= cubes_view(cubes@.take(i as int)));
        }
        if sh {
            count += 1;
        }
        i += 1;
    }
    proof {
        assert(cubes@.take(n as int) =~= cubes@);
    }
    push_str(&mut s, ".p ");
    push_usize(&mut s, count);
    push_char(&mut s, '\n');
    let ghost head = s@;
    let mut i: usize = 0;
    while i < n
        invariant
            n == cubes@.len(),
            i <= n,
            s@ == head + cubes_text(cubes_view(cubes@.take(i as int)), pla_type),
        decreases n - i,
    {
        let sh = is_shown(&cubes[i], pla_type);
        proof {
            assert(cubes_view(cubes@.take(i + 1)).drop_last() =~= cubes_view(cubes@.take(i as int)));
            assert(cubes_view(cubes@.take(i + 1)).last() == cube_view(cubes@[i as int]));
        }
        if sh {
            push_cube(&mut s, &cubes[i], pla_type);
        }
        i += 1;
    }
    match pla_type {
        PLAType::F => push_str(&mut s, ".e\n"),
        _ => push_str(&mut s, ".end\n"),
    }
    proof {
        assert(s@ =~= pla_text(
            num_inputs as nat,
            num_outputs as nat,
            opt_strings(input_labels),
            opt_strings(output_labels),
            cubes_view(cubes@),
            pla_type,
        ));
    }
    s
}

} // verus!
