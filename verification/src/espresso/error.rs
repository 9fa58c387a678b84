//! Errors of minimiser instance management, cube validation and minimisation.
use crate::io_error::{invalid_data_error, io_error_parts, io_error_text, other_error, IO_INVALID_DATA, IO_OTHER};
use crate::text::{pair_text, dec, push_pair, push_str, push_usize};
use vstd::prelude::*;

verus! {

/// A minimiser instance could not be created or used.
#[derive(Debug, Clone, Copy, PartialEq, Eq)]
pub enum InstanceError {
    /// The requested dimensions differ from those of the live instance.
    DimensionMismatch { requested: (usize, usize), existing: (usize, usize) },
    /// The requested configuration differs from that of the live instance.
    ConfigMismatch { requested: (usize, usize), existing: (usize, usize) },
}

/// An invalid cube value was supplied.
#[derive(Debug, Clone, Copy, PartialEq, Eq, Structural)]
pub enum CubeError {
    /// A cube input was not 0 (low), 1 (high) or 2 (don't care).
    InvalidValue { value: u8, position: usize },
}

/// A minimisation failed.
#[derive(Debug)]
pub enum MinimizationError {
    /// Instance management failed.
    Instance(InstanceError),
    /// A cube was invalid.
    Cube(CubeError),
    /// I/O failed.
    Io(std::io::Error),
}

/// The error underneath a [`MinimizationError`].
pub enum ErrorSource<'a> {
    Instance(&'a InstanceError),
    Cube(&'a CubeError),
    Io(&'a std::io::Error),
}

/// The message of an instance error.
pub open spec fn instance_message(e: InstanceError) -> Seq<char> {
    match e {
        InstanceError::DimensionMismatch { requested, existing } => "Cannot create Espresso instance with dimensions "@
            + pair_text(requested) + " because a thread-local instance with dimensions "@ + pair_text(
            existing,
        ) + " already exists. Drop all existing covers and handles first."@,
        InstanceError::ConfigMismatch { requested, existing } => "Cannot create Espresso instance with different configuration while a thread-local instance with dimensions "@
            + pair_text(existing) + " already exists (requested "@ + pair_text(requested)
            + "). Drop all existing covers and handles first."@,
    }
}

/// The message of a cube error.
pub open spec fn cube_message(e: CubeError) -> Seq<char> {
    match e {
        CubeError::InvalidValue { value, position } => "Invalid cube value "@ + dec(value as nat)
            + " at position "@ + dec(position as nat)
            + ". Expected 0 (low), 1 (high), or 2 (don't care)."@,
    }
}

impl InstanceError {
    /// The error's message.
    pub fn to_string(&self) -> (r: String)
        ensures
            r@ == instance_message(*self),
    {
        let mut s = String::new();
        match self {
            InstanceError::DimensionMismatch { requested, existing } => {
                push_str(&mut s, "Cannot create Espresso instance with dimensions ");
                push_pair(&mut s, *requested);
                push_str(&mut s, " because a thread-local instance with dimensions ");
                push_pair(&mut s, *existing);
                push_str(&mut s, " already exists. Drop all existing covers and handles first.");
            },
            InstanceError::ConfigMismatch { requested, existing } => {
                push_str(
                    &mut s,
                    "Cannot create Espresso instance with different configuration while a thread-local instance with dimensions ",
                );
                push_pair(&mut s, *existing);
                push_str(&mut s, " already exists (requested ");
                push_pair(&mut s, *requested);
                push_str(&mut s, "). Drop all existing covers and handles first.");
            },
        }
        proof {
            assert(s@ =~= instance_message(*self));
        }
        s
    }

    /// The error as an I/O error of kind `Other` that displays the error's message.
    pub fn to_io_error(&self) -> (r: std::io::Error)
        ensures
            io_error_parts(r) == (IO_OTHER, instance_message(*self)),
    {
        other_error(self.to_string())
    }
}

impl CubeError {
    /// The error's message.
    pub fn to_string(&self) -> (r: String)
        ensures
            r@ == cube_message(*self),
    {
        let mut s = String::new();
        match self {
            CubeError::InvalidValue { value, position } => {
                push_str(&mut s, "Invalid cube value ");
                push_usize(&mut s, *value as usize);
                push_str(&mut s, " at position ");
                push_usize(&mut s, *position);
                push_str(&mut s, ". Expected 0 (low), 1 (high), or 2 (don't care).");
            },
        }
        proof {
            assert(s@ =~= cube_message(*self));
        }
        s
    }

    /// The error as an I/O error of kind `InvalidData` that displays the error's message.
    pub fn to_io_error(&self) -> (r: std::io::Error)
        ensures
            io_error_parts(r) == (IO_INVALID_DATA, cube_message(*self)),
    {
        invalid_data_error(self.to_string())
    }
}

/// The message of a minimisation error whose error underneath is the library's own: that
/// error's message after the kind of error.
pub open spec fn minimization_message(e: MinimizationError) -> Seq<char> {
    match e {
        MinimizationError::Instance(i) => "Instance error: "@ + instance_message(i),
        MinimizationError::Cube(c) => "Cube error: "@ + cube_message(c),
        MinimizationError::Io(x) => "IO error: "@,
    }
}

impl MinimizationError {
    /// The error's message: `Instance error: `, `Cube error: ` or `IO error: ` and the message
    /// of the error underneath.
    pub fn to_string(&self) -> (r: String)
        ensures
            !(*self is Io) ==> r@ == minimization_message(*self),
            *self is Io ==> r@.len() >= 10 && r@.take(10) == minimization_message(*self),
    {
        let mut s = String::new();
        match self {
            MinimizationError::Instance(e) => {
                push_str(&mut s, "Instance error: ");
                let m = e.to_string();
                push_str(&mut s, m.as_str());
            },
            MinimizationError::Cube(e) => {
                push_str(&mut s, "Cube error: ");
                let m = e.to_string();
                push_str(&mut s, m.as_str());
            },
            MinimizationError::Io(e) => {
                push_str(&mut s, "IO error: ");
                let m = io_error_text(e);
                push_str(&mut s, m.as_str());
            },
        }
        proof {
            reveal_strlit("IO error: ");
            if *self is Io {
                assert(s@.take(10) =~= minimization_message(*self));
            } else {
                assert(s@ =~= minimization_message(*self));
            }
        }
        s
    }

    /// The error underneath: always present.
    pub fn source(&self) -> (r: Option<ErrorSource<'_>>)
        ensures
            r is Some,
            (r matches Some(ErrorSource::Instance(e)) ==> *self == MinimizationError::Instance(*e)),
            (r matches Some(ErrorSource::Cube(e)) ==> *self == MinimizationError::Cube(*e)),
            (r matches Some(ErrorSource::Io(_)) ==> *self is Io),
            *self is Instance ==> r matches Some(ErrorSource::Instance(_)),
            *self is Cube ==> r matches Some(ErrorSource::Cube(_)),
            *self is Io ==> r matches Some(ErrorSource::Io(_)),
    {
        match self {
            MinimizationError::Instance(e) => Some(ErrorSource::Instance(e)),
            MinimizationError::Cube(e) => Some(ErrorSource::Cube(e)),
            MinimizationError::Io(e) => Some(ErrorSource::Io(e)),
        }
    }

    /// The error as an I/O error: an I/O error is returned as it is; an instance error becomes
    /// kind `Other` and a cube error kind `InvalidData`, each carrying its message.
    pub fn into_io_error(self) -> (r: std::io::Error)
        ensures
            match self {
                MinimizationError::Io(e) => r == e,
                MinimizationError::Instance(e) => io_error_parts(r) == (IO_OTHER, instance_message(e)),
                MinimizationError::Cube(e) => io_error_parts(r) == (IO_INVALID_DATA, cube_message(e)),
            },
    {
        match self {
            MinimizationError::Io(e) => e,
            MinimizationError::Instance(e) => e.to_io_error(),
            MinimizationError::Cube(e) => e.to_io_error(),
        }
    }
}

impl From<InstanceError> for MinimizationError {
    fn from(err: InstanceError) -> (r: MinimizationError) {
        MinimizationError::Instance(err)
    }
}

impl vstd::std_specs::convert::FromSpecImpl<InstanceError> for MinimizationError {
    open spec fn obeys_from_spec() -> bool {
        true
    }

    open spec fn from_spec(err: InstanceError) -> MinimizationError {
        MinimizationError::Instance(err)
    }
}

impl From<CubeError> for MinimizationError {
    fn from(err: CubeError) -> (r: MinimizationError) {
        MinimizationError::Cube(err)
    }
}

impl vstd::std_specs::convert::FromSpecImpl<CubeError> for MinimizationError {
    open spec fn obeys_from_spec() -> bool {
        true
    }

    open spec fn from_spec(err: CubeError) -> MinimizationError {
        MinimizationError::Cube(err)
    }
}

impl From<std::io::Error> for MinimizationError {
    fn from(err: std::io::Error) -> (r: MinimizationError) {
        MinimizationError::Io(err)
    }
}

impl vstd::std_specs::convert::FromSpecImpl<std::io::Error> for MinimizationError {
    open spec fn obeys_from_spec() -> bool {
        true
    }

    open spec fn from_spec(err: std::io::Error) -> MinimizationError {
        MinimizationError::Io(err)
    }
}

} // verus!
