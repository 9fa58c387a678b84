//! The message types exchanged with an isolated minimiser process, and the header layout of the
//! shared-memory segment that carries them.
use vstd::bytes::{spec_u64_from_le_bytes, spec_u64_to_le_bytes, u64_from_le_bytes, u64_to_le_bytes};
use vstd::prelude::*;

verus! {

/// Size of the shared-memory segment (16 MiB).
pub const MAX_SHARED_MEMORY_SIZE: usize = 16 * 1024 * 1024;

/// One cube of a cover, bit-packed.
#[derive(Debug, Clone)]
pub struct SerializedCube {
    pub data: Vec<u32>,
}

/// A cover in packed form.
#[derive(Debug, Clone)]
pub struct SerializedCover {
    /// Number of cubes.
    pub count: usize,
    /// Words per cube.
    pub wsize: usize,
    /// Bits per cube.
    pub sf_size: usize,
    pub cubes: Vec<SerializedCube>,
}

/// Minimiser options sent to the worker.
#[derive(Debug, Clone)]
pub struct IpcConfig {
    pub debug: bool,
    pub verbose_debug: bool,
    pub trace: bool,
    pub summary: bool,
    pub remove_essential: bool,
    pub force_irredundant: bool,
    pub unwrap_onset: bool,
    pub single_expand: bool,
    pub use_super_gasp: bool,
    pub use_random_order: bool,
}

impl Default for IpcConfig {
    /// Quiet, with essential-prime removal, irredundant forcing and on-set unwrapping on.
    fn default() -> (r: IpcConfig)
        ensures
            !r.debug && !r.verbose_debug && !r.trace && !r.summary,
            r.remove_essential && r.force_irredundant && r.unwrap_onset,
            !r.single_expand && !r.use_super_gasp && !r.use_random_order,
    {
        IpcConfig {
            debug: false,
            verbose_debug: false,
            trace: false,
            summary: false,
            remove_essential: true,
            force_irredundant: true,
            unwrap_onset: true,
            single_expand: false,
            use_super_gasp: false,
            use_random_order: false,
        }
    }
}

/// A request to the worker.
#[derive(Debug, Clone)]
pub enum WorkerRequest {
    /// Set up the cube structure.
    Initialize { num_inputs: usize, num_outputs: usize, config: IpcConfig },
    /// Minimise a function.
    Minimize { f: SerializedCover, d: Option<SerializedCover>, r: Option<SerializedCover> },
    /// Minimise a function exactly.
    MinimizeExact { f: SerializedCover, d: Option<SerializedCover>, r: Option<SerializedCover> },
    /// Minimise covers given as (inputs, outputs) byte rows.
    MinimizeFromBuilder {
        f_cubes: Vec<(Vec<u8>, Vec<u8>)>,
        d_cubes: Option<Vec<(Vec<u8>, Vec<u8>)>>,
        r_cubes: Option<Vec<(Vec<u8>, Vec<u8>)>>,
    },
    /// Process a PLA text.
    ProcessPla { pla_content: Vec<u8>, minimize: bool },
    /// Report the cube counts of a PLA text.
    GetPlaStats { pla_content: Vec<u8> },
    /// Stop.
    Shutdown,
}

/// A reply from the worker.
#[derive(Debug, Clone)]
pub enum WorkerResponse {
    Initialized,
    MinimizeResult { f_cover: SerializedCover, r_cover: Option<SerializedCover> },
    PlaResult { pla_content: Vec<u8> },
    PlaStats { num_cubes_f: usize, num_cubes_d: usize, num_cubes_r: usize },
    Error(String),
    ShutdownAck,
}

/// Either direction of the exchange.
#[derive(Debug, Clone)]
pub enum MessagePayload {
    Request(WorkerRequest),
    Response(WorkerResponse),
}

/// A message with its tracking id.
#[derive(Debug, Clone)]
pub struct ShmMessage {
    pub msg_id: u64,
    pub payload: MessagePayload,
}

/// The segment header: bytes `0..8` hold the message length and bytes `8..16` the status flags,
/// both little-endian `u64`; the message follows from byte 16.
pub struct ShmLayout;

/// The `u64` stored little-endian in bytes `at..at + 8`.
pub open spec fn field(mem: Seq<u8>, at: int) -> u64 {
    spec_u64_from_le_bytes(mem.subrange(at, at + 8))
}

/// `mem` with bytes `at..at + 8` replaced by `x` in little-endian order.
pub open spec fn with_field(mem: Seq<u8>, at: int, x: u64) -> Seq<u8> {
    mem.take(at) + spec_u64_to_le_bytes(x) + mem.skip(at + 8)
}

/// Store `x` little-endian at bytes `at..at + 8`.
fn write_u64(mem: &mut [u8], at: usize, x: u64)
    requires
        at + 8 <= old(mem)@.len(),
    ensures
        final(mem)@ == with_field(old(mem)@, at as int, x),
{
    let bytes = u64_to_le_bytes(x);
    proof {
        vstd::bytes::lemma_auto_spec_u64_to_from_le_bytes();
    }
    let n = mem.len();
    let mut i: usize = 0;
    while i < 8
        invariant
            i <= 8,
            n == mem@.len(),
            at + 8 <= mem@.len(),
            bytes@ == spec_u64_to_le_bytes(x),
            bytes@.len() == 8,
            mem@.len() == old(mem)@.len(),
            forall|k: int| 0 <= k < at ==> mem@[k] == old(mem)@[k],
            forall|k: int| at + 8 <= k < mem@.len() ==> mem@[k] == old(mem)@[k],
            forall|k: int| 0 <= k < i ==> mem@[at + k] == bytes@[k],
        decreases 8 - i,
    {
        mem[at + i] = bytes[i];
        i += 1;
    }
    proof {
        assert(mem@ =~= with_field(old(mem)@, at as int, x));
    }
}

/// The `u64` stored little-endian at bytes `at..at + 8`.
fn read_u64(mem: &[u8], at: usize) -> (r: u64)
    requires
        at + 8 <= mem@.len(),
    ensures
        r == field(mem@, at as int),
{
    let mut buf: Vec<u8> = Vec::new();
    let n = mem.len();
    let mut i: usize = 0;
    while i < 8
        invariant
            i <= 8,
            n == mem@.len(),
            at + 8 <= mem@.len(),
            buf@ == mem@.subrange(at as int, at + i),
        decreases 8 - i,
    {
        buf.push(mem[at + i]);
        i += 1;
        proof {
            assert(buf@ =~= mem@.subrange(at as int, at + i));
        }
    }
    u64_from_le_bytes(buf.as_slice())
}

impl ShmLayout {
    /// Offset of the length field.
    pub const LEN_OFFSET: usize = 0;
    /// Size of the length field.
    pub const LEN_SIZE: usize = 8;
    /// Offset of the flags field.
    pub const FLAGS_OFFSET: usize = 8;
    /// Size of the flags field.
    pub const FLAGS_SIZE: usize = 8;
    /// Offset of the message data.
    pub const DATA_OFFSET: usize = 16;
    /// Size of the header.
    pub const HEADER_SIZE: usize = 16;
    /// Flag: a request is ready.
    pub const FLAG_REQUEST_READY: u64 = 1;
    /// Flag: a response is ready.
    pub const FLAG_RESPONSE_READY: u64 = 2;
    /// Flag: the worker failed.
    pub const FLAG_WORKER_ERROR: u64 = 4;

    /// Store the message length.
    pub fn write_len(mem: &mut [u8], len: usize)
        requires
            old(mem)@.len() >= 8,
        ensures
            final(mem)@ == with_field(old(mem)@, 0, len as u64),
    {
        write_u64(mem, Self::LEN_OFFSET, len as u64);
    }

    /// The message length.
    pub fn read_len(mem: &[u8]) -> (r: usize)
        requires
            mem@.len() >= 8,
        ensures
            r == field(mem@, 0) as usize,
    {
        read_u64(mem, Self::LEN_OFFSET) as usize
    }

    /// Store the status flags.
    pub fn write_flags(mem: &mut [u8], flags: u64)
        requires
            old(mem)@.len() >= 16,
        ensures
            final(mem)@ == with_field(old(mem)@, 8, flags),
    {
        write_u64(mem, Self::FLAGS_OFFSET, flags);
    }

    /// The status flags.
    pub fn read_flags(mem: &[u8]) -> (r: u64)
        requires
            mem@.len() >= 16,
        ensures
            r == field(mem@, 8),
    {
        read_u64(mem, Self::FLAGS_OFFSET)
    }

    /// Set the bits of `flag` in the status flags.
    pub fn set_flag(mem: &mut [u8], flag: u64)
        requires
            old(mem)@.len() >= 16,
        ensures
            final(mem)@ == with_field(old(mem)@, 8, field(old(mem)@, 8) | flag),
    {
        let current = Self::read_flags(mem);
        Self::write_flags(mem, current | flag);
    }

    /// Clear the bits of `flag` in the status flags.
    pub fn clear_flag(mem: &mut [u8], flag: u64)
        requires
            old(mem)@.len() >= 16,
        ensures
            final(mem)@ == with_field(old(mem)@, 8, field(old(mem)@, 8) & !flag),
    {
        let current = Self::read_flags(mem);
        Self::write_flags(mem, current & !flag);
    }

    /// Whether any bit of `flag` is set in the status flags.
    pub fn has_flag(mem: &[u8], flag: u64) -> (r: bool)
        requires
            mem@.len() >= 16,
        ensures
            r == (field(mem@, 8) & flag != 0),
    {
        Self::read_flags(mem) & flag != 0
    }
}

/// Reading a header field gives back what was last written to it, and writing one field leaves
/// the other unchanged.
pub proof fn law_header_fields(mem: Seq<u8>, x: u64)
    requires
        mem.len() >= 16,
    ensures
        field(with_field(mem, 0, x), 0) == x,
        field(with_field(mem, 8, x), 8) == x,
        field(with_field(mem, 0, x), 8) == field(mem, 8),
        field(with_field(mem, 8, x), 0) == field(mem, 0),
        with_field(mem, 0, x).len() == mem.len(),
        with_field(mem, 8, x).len() == mem.len(),
{
    vstd::bytes::lemma_auto_spec_u64_to_from_le_bytes();
    let b = spec_u64_to_le_bytes(x);
    let m0 = with_field(mem, 0, x);
    let m8 = with_field(mem, 8, x);
    assert(m0.subrange(0, 8) =~= b);
    assert(m8.subrange(8, 16) =~= b);
    assert(m0.subrange(8, 16) =~= mem.subrange(8, 16));
    assert(m8.subrange(0, 8) =~= mem.subrange(0, 8));
}

} // verus!
