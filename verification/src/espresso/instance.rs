//! The decisions the minimiser makes before it touches its engine: whether a requested
//! instance can be had, and whether the input values of a cube are valid.
use super::config::EspressoConfig;
use super::error::{CubeError, InstanceError};
use vstd::prelude::*;

verus! {

/// What to do about a requested minimiser instance.
#[derive(Debug, Clone, Copy, PartialEq, Eq, Structural)]
pub enum InstanceAction {
    /// No instance is live: create one.
    Create,
    /// The live instance fits the request: use it.
    Reuse,
}

/// The outcome of requesting an instance of the given dimensions (and configuration, when one
/// is given), with the live instance's dimensions and configuration, if there is one.
pub open spec fn instance_outcome(
    requested: (usize, usize),
    config: Option<EspressoConfig>,
    existing: Option<((usize, usize), EspressoConfig)>,
) -> Result<InstanceAction, InstanceError> {
    match existing {
        None => Ok(InstanceAction::Create),
        Some((d, c)) => if d != requested {
            Err(InstanceError::DimensionMismatch { requested, existing: d })
        } else if config matches Some(k) && k != c {
            Err(InstanceError::ConfigMismatch { requested, existing: d })
        } else {
            Ok(InstanceAction::Reuse)
        },
    }
}

/// Decide a request for an instance: with none live, create one; with one live, its dimensions
/// must be those requested, and its configuration the one requested when one is given.
pub fn instance_check(
    requested: (usize, usize),
    config: Option<EspressoConfig>,
    existing: Option<((usize, usize), EspressoConfig)>,
) -> (r: Result<InstanceAction, InstanceError>)
    ensures
        r == instance_outcome(requested, config, existing),
{
    match existing {
        None => Ok(InstanceAction::Create),
        Some((d, c)) => {
            if d.0 != requested.0 || d.1 != requested.1 {
                return Err(InstanceError::DimensionMismatch { requested, existing: d });
            }
            match config {
                Some(k) => {
                    if k != c {
                        return Err(InstanceError::ConfigMismatch { requested, existing: d });
                    }
                },
                None => {},
            }
            Ok(InstanceAction::Reuse)
        },
    }
}

/// The position of the first input value above 2 (the codes are 0 low, 1 high, 2 don't care).
pub open spec fn first_invalid(inputs: Seq<u8>) -> Option<nat>
    decreases inputs.len(),
{
    if inputs.len() == 0 {
        None
    } else {
        match first_invalid(inputs.drop_last()) {
            Some(p) => Some(p),
            None => if inputs.last() > 2 {
                Some((inputs.len() - 1) as nat)
            } else {
                None
            },
        }
    }
}

/// Check the input values of a cube: every one must be 0, 1 or 2; the first that is not is
/// reported with its position.
pub fn check_cube_inputs(inputs: &[u8]) -> (r: Result<(), CubeError>)
    ensures
        match first_invalid(inputs@) {
            None => r is Ok,
            Some(p) => r == Err::<(), CubeError>(CubeError::InvalidValue { value: inputs@[p as int], position: p as usize }),
        },
        r is Ok <==> forall|i: int| 0 <= i < inputs@.len() ==> inputs@[i] <= 2,
{
    let n = inputs.len();
    let mut i: usize = 0;
    while i < n
        invariant
            n == inputs@.len(),
            i <= n,
            first_invalid(inputs@.take(i as int)) is None,
            forall|q: int| 0 <= q < i ==> inputs@[q] <= 2,
        decreases n - i,
    {
        proof {
            assert(inputs@.take(i + 1).drop_last() =~= inputs@.take(i as int));
        }
        if inputs[i] > 2 {
            proof {
                lemma_first_invalid_prefix(inputs@, i as int + 1);
                assert(first_invalid(inputs@.take(i + 1)) == Some(i as nat));
            }
            return Err(CubeError::InvalidValue { value: inputs[i], position: i });
        }
        i += 1;
    }
    proof {
        assert(inputs@.take(n as int) =~= inputs@);
    }
    Ok(())
}

/// Once a prefix holds an invalid value, the first one of the whole list is that of the prefix.
proof fn lemma_first_invalid_prefix(s: Seq<u8>, k: int)
    requires
        0 <= k <= s.len(),
        first_invalid(s.take(k)) is Some,
    ensures
        first_invalid(s) == first_invalid(s.take(k)),
    decreases s.len() - k,
{
    if k < s.len() {
        assert(s.take(k + 1).drop_last() =~= s.take(k));
        lemma_first_invalid_prefix(s, k + 1);
    } else {
        assert(s.take(k) =~= s);
    }
}

/// The largest value of the C `int` the engine counts its variables and cube bits in.
pub const C_INT_MAX: usize = 2147483647;

/// Whether a minimiser of `num_inputs` inputs and `num_outputs` outputs fits the engine's C
/// `int` counts: the inputs, the outputs, the variables (one per input and one for the outputs)
/// and the bits of a cube (two per input and one per output).
pub open spec fn fits_engine(num_inputs: nat, num_outputs: nat) -> bool {
    &&& num_inputs <= C_INT_MAX
    &&& num_outputs <= C_INT_MAX
    &&& num_inputs + 1 <= C_INT_MAX
    &&& 2 * num_inputs + num_outputs <= C_INT_MAX
}

/// Whether the dimensions fit the engine's C `int` counts (see [`fits_engine`]).
pub fn dimensions_fit(num_inputs: usize, num_outputs: usize) -> (r: bool)
    ensures
        r == fits_engine(num_inputs as nat, num_outputs as nat),
{
    num_inputs < C_INT_MAX && num_outputs <= C_INT_MAX && num_inputs <= (C_INT_MAX - num_outputs) / 2
}

/// Whether a cube's input and output values have the minimiser's dimensions.
pub fn cube_dimensions_match(inputs: &[u8], outputs: &[u8], num_inputs: usize, num_outputs: usize) -> (r: bool)
    ensures
        r == (inputs@.len() == num_inputs && outputs@.len() == num_outputs),
{
    inputs.len() == num_inputs && outputs.len() == num_outputs
}

/// Whether bit `b` of a cube is set: each input takes two bits, the first for value 0 and the
/// second for value 1 (both for a don't care, 2); then each output takes one bit, set for 1.
pub open spec fn cube_bit(inputs: Seq<u8>, outputs: Seq<u8>, b: int) -> bool {
    let ni = inputs.len() as int;
    if 0 <= b < 2 * ni {
        inputs[b / 2] == 2 || inputs[b / 2] as int == b % 2
    } else if 2 * ni <= b < 2 * ni + outputs.len() {
        outputs[b - 2 * ni] == 1
    } else {
        false
    }
}

/// Bit `j` of `w`.
pub open spec fn bit_of(w: u32, j: u32) -> bool {
    (w >> j) & 1u32 == 1u32
}

proof fn lemma_set_bit(w: u32, k: u32, j: u32)
    requires
        k < 32,
        j < 32,
    ensures
        bit_of(w | (1u32 << k), j) == (j == k || bit_of(w, j)),
{
    assert(((w | (1u32 << k)) >> j) & 1u32 == 1u32 <==> (j == k || (w >> j) & 1u32 == 1u32)) by (bit_vector)
        requires
            k < 32,
            j < 32,
    ;
}

proof fn lemma_zero_bits(j: u32)
    requires
        j < 32,
    ensures
        !bit_of(0u32, j),
{
    assert((0u32 >> j) & 1u32 != 1u32) by (bit_vector);
}

/// Whether bit `b` of the cube is set, computed.
fn cube_bit_exec(inputs: &[u8], outputs: &[u8], b: usize) -> (r: bool)
    requires
        2 * inputs@.len() + outputs@.len() <= usize::MAX,
    ensures
        r == cube_bit(inputs@, outputs@, b as int),
{
    let ni2 = 2 * inputs.len();
    if b < ni2 {
        let v = inputs[b / 2];
        v == 2 || v as usize == b % 2
    } else if b < ni2 + outputs.len() {
        outputs[b - ni2] == 1
    } else {
        false
    }
}

/// The bits of a cube packed 32 to a word: bit `b` is bit `b % 32` of word `b / 32`, the layout
/// of the engine's cube words after the word that heads them. Input values above 2, which
/// [`check_cube_inputs`] rejects, set no bit.
pub fn cube_words(inputs: &[u8], outputs: &[u8]) -> (r: Vec<u32>)
    requires
        2 * inputs@.len() + outputs@.len() + 31 <= usize::MAX,
    ensures
        r@.len() == (2 * inputs@.len() + outputs@.len() + 31) / 32,
        forall|b: int|
            0 <= b < 32 * r@.len() ==> bit_of(r@[b / 32], (b % 32) as u32) == cube_bit(inputs@, outputs@, b),
{
    let total = 2 * inputs.len() + outputs.len();
    let nw = (total + 31) / 32;
    let mut r: Vec<u32> = Vec::new();
    let mut wi: usize = 0;
    while wi < nw
        invariant
            total == 2 * inputs@.len() + outputs@.len(),
            total + 31 <= usize::MAX,
            nw == (total + 31) / 32,
            wi <= nw,
            r@.len() == wi,
            forall|b: int|
                0 <= b < 32 * wi ==> bit_of(r@[b / 32], (b % 32) as u32) == cube_bit(inputs@, outputs@, b),
        decreases nw - wi,
    {
        let mut w: u32 = 0;
        let mut k: u32 = 0;
        proof {
            assert forall|j: u32| k <= j < 32 implies !bit_of(w, j) by {
                lemma_zero_bits(j);
            }
        }
        while k < 32
            invariant
                total == 2 * inputs@.len() + outputs@.len(),
                total + 31 <= usize::MAX,
                wi < nw,
                nw == (total + 31) / 32,
                k <= 32,
                forall|j: u32| j < k ==> bit_of(w, j) == cube_bit(inputs@, outputs@, 32 * wi + j),
                forall|j: u32| k <= j < 32 ==> !bit_of(w, j),
            decreases 32 - k,
        {
            let b = 32 * wi + k as usize;
            if cube_bit_exec(inputs, outputs, b) {
                let ghost w0 = w;
                w = w | (1u32 << k);
                proof {
                    assert forall|j: u32| j < 32 implies bit_of(w, j) == (j == k || bit_of(w0, j)) by {
                        lemma_set_bit(w0, k, j);
                    }
                }
            }
            k += 1;
        }
        let ghost before = r@;
        r.push(w);
        proof {
            assert forall|b: int|
                0 <= b < 32 * (wi + 1) implies bit_of(r@[b / 32], (b % 32) as u32) == cube_bit(inputs@, outputs@, b) by {
                if b < 32 * wi {
                    assert(b / 32 < wi);
                    assert(r@[b / 32] == before[b / 32]);
                } else {
                    assert(b / 32 == wi);
                    let j = (b % 32) as u32;
                    assert(b == 32 * wi + j);
                    assert(r@[b / 32] == w);
                }
            }
        }
        wi += 1;
    }
    r
}

} // verus!
