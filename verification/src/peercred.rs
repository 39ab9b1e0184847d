//! Same-uid check for an accepted Unix socket.
use vstd::prelude::*;

verus! {

/// Real uid of this process: `nix::unistd::Uid::current().as_raw()`, that
/// is `getuid`. It depends on the process, so nothing is stated of it.
#[verifier::external_body]
pub fn current_uid() -> u32 {
    nix::unistd::Uid::current().as_raw()
}

/// A peer is accepted exactly when its uid is `own`, this process's uid.
pub fn uid_matches(uid: u32, own: u32) -> (r: bool)
    ensures
        r == (uid == own),
{
    uid == own
}

/// The same-uid check with the process uid it compared against: the peer is
/// accepted exactly when its uid is that one.
pub fn check_peer(uid: u32) -> (r: (bool, u32))
    ensures
        r.0 == (uid == r.1),
{
    let own = current_uid();
    (uid_matches(uid, own), own)
}

/// Accept the peer when its uid matches the current process uid, as
/// [`check_peer`] decides it.
pub fn accept_peer(uid: u32) -> bool {
    check_peer(uid).0
}

} // verus!
