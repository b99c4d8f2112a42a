//! Choice of the transmission medium.
//!
//! Kitty can receive pixels directly (`t=d`, base64), or by reference to shared
//! memory (`t=s`) or a temporary file (`t=f`). This module only chooses, from
//! what the terminal accepts and the payload size; allocating the referenced
//! object is the caller's business.
use vstd::prelude::*;

verus! {

/// The transfer media a terminal accepts.
#[derive(Debug, Clone, Copy, PartialEq, Eq, Structural)]
pub enum Capability {
    /// Direct transfer (`t=d`) only.
    DirectOnly,
    /// Shared-memory references (`t=s`) are accepted.
    SharedMem,
    /// Temporary-file references (`t=f`) are accepted.
    TempFile,
}

/// The transmission medium actually used.
#[derive(Debug, Clone, Copy, PartialEq, Eq, Structural)]
pub enum Medium {
    /// `t=d`: base64 in the escape itself (always portable).
    Direct,
    /// `t=s`: a shared-memory reference.
    SharedMem,
    /// `t=f`: a temporary-file reference.
    TempFile,
}

/// The value of the `t=` key for `m`.
pub open spec fn medium_key(m: Medium) -> char {
    match m {
        Medium::Direct => 'd',
        Medium::SharedMem => 's',
        Medium::TempFile => 'f',
    }
}

impl Medium {
    /// The value of the Kitty `t=` key: `'d'`, `'s'` or `'f'`.
    pub fn wire_key(self) -> (c: char)
        ensures
            c == medium_key(self),
    {
        match self {
            Medium::Direct => 'd',
            Medium::SharedMem => 's',
            Medium::TempFile => 'f',
        }
    }
}

/// Payloads of at most this many bytes always go direct: for small images the
/// cost of setting up a reference exceeds that of the base64 copy.
pub const DIRECT_MAX_PAYLOAD_BYTES: usize = 64 * 1024;

/// The medium chosen for `capability` and a payload of `payload_len` bytes.
pub open spec fn chosen_medium(capability: Capability, payload_len: int) -> Medium {
    match capability {
        Capability::DirectOnly => Medium::Direct,
        Capability::SharedMem => if payload_len <= DIRECT_MAX_PAYLOAD_BYTES {
            Medium::Direct
        } else {
            Medium::SharedMem
        },
        Capability::TempFile => if payload_len <= DIRECT_MAX_PAYLOAD_BYTES {
            Medium::Direct
        } else {
            Medium::TempFile
        },
    }
}

/// Chooses the medium: direct when only direct is accepted or the payload is
/// at most [`DIRECT_MAX_PAYLOAD_BYTES`], else the accepted reference medium.
pub fn select_medium(capability: Capability, payload_len: usize) -> (m: Medium)
    ensures
        m == chosen_medium(capability, payload_len as int),
        capability == Capability::DirectOnly ==> m == Medium::Direct,
        payload_len <= DIRECT_MAX_PAYLOAD_BYTES ==> m == Medium::Direct,
{
    match capability {
        Capability::DirectOnly => Medium::Direct,
        Capability::SharedMem => if payload_len <= DIRECT_MAX_PAYLOAD_BYTES {
            Medium::Direct
        } else {
            Medium::SharedMem
        },
        Capability::TempFile => if payload_len <= DIRECT_MAX_PAYLOAD_BYTES {
            Medium::Direct
        } else {
            Medium::TempFile
        },
    }
}

} // verus!
