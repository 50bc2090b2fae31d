//! A lightweight RPC core: a length-prefixed frame protocol, client and
//! server stubs that correlate requests and responses by identifier, a
//! load-balanced client pool, and a registry-driven balance manager.
//!
//! The core works on plain values: frames are byte buffers, payloads are
//! byte sequences, and every decision — composing and splitting request
//! payloads, assigning request ids, interpreting responses, reconciling
//! pool membership, selecting a client — is a function with a contract.
//! What suspends or shares lives with the I/O layer around the library:
//! connections, sleeps, atomics and locks stay there, and each shared
//! structure is presented here with exclusive access so that its
//! behaviour can be stated exactly.
use vstd::prelude::*;

pub mod balance;
pub mod balance_manager;
pub mod codec;
pub mod errors;
pub mod frame;
pub mod server;
pub mod sink;
pub mod stub;
pub mod transport;

pub use balance_manager::{BalanceManger, ManagerConfig, RegistryCenter};
pub use errors::RpcError;

verus! {

/// Default upper bound on the payload length of a single frame: 10 MiB.
pub const DEFAULT_FRAME_MAX_LEN: u64 = 10 * 1024 * 1024;

/// Compare two byte slices for equality.
pub fn bytes_eq(a: &[u8], b: &[u8]) -> (r: bool)
    ensures
        r == (a@ == b@),
{
    if a.len() != b.len() {
        return false;
    }
    let mut i: usize = 0;
    while i < a.len()
        invariant
            i <= a@.len(),
            a@.len() == b@.len(),
            forall|j: int| 0 <= j < i ==> a@[j] == b@[j],
        decreases a@.len() - i,
    {
        if a[i] != b[i] {
            return false;
        }
        i = i + 1;
    }
    assert(a@ =~= b@);
    true
}

} // verus!
