//! The server's address configuration, and the path check used by the
//! example static-file handler. Binding the socket, the accept loop and all
//! reads and writes live with the caller that owns the runtime.

use vstd::prelude::*;
use vstd::string::StringSliceAdditionalSpecFns;
use crate::bytes::{bytes_eq, split_all, split_bytes};

verus! {

/// Where the acceptor should listen.
pub struct Server {
    pub port: u16,
    pub ip: String,
}

impl Server {
    pub fn new(port: u16, host: &str) -> (r: Server)
        ensures
            r.port == port,
            r.ip@ == host@,
    {
        Server { port, ip: host.to_owned() }
    }
}

/// The segment `..`.
pub open spec fn dotdot() -> Seq<u8> {
    seq!['.' as u8, '.' as u8]
}

/// A relative path that never leaves the directory it starts from: it has no
/// root and no `..` segment. Empty and `.` segments are harmless.
pub open spec fn spec_is_safe_path(s: Seq<u8>) -> bool {
    !(s.len() > 0 && s[0] == '/' as u8) && forall|i: int|
        0 <= i < split_bytes(s, '/' as u8).len() ==> #[trigger] split_bytes(s, '/' as u8)[i]
            != dotdot()
}

/// Whether a user-supplied path may be served from the working directory.
pub fn is_safe_path(user_path: &str) -> (r: bool)
    ensures
        r == spec_is_safe_path(user_path.spec_bytes()),
{
    let b = user_path.as_bytes();
    if b.len() > 0 && b[0] == '/' as u8 {
        return false;
    }
    let segs = split_all(b, '/' as u8);
    let dd: Vec<u8> = vec!['.' as u8, '.' as u8];
    proof {
        assert(dd@ =~= dotdot());
    }
    let mut i: usize = 0;
    while i < segs.len()
        invariant
            i <= segs@.len(),
            b@ == user_path.spec_bytes(),
            segs@.len() == split_bytes(b@, '/' as u8).len(),
            forall|k: int|
                0 <= k < segs@.len() ==> (#[trigger] segs@[k])@ == split_bytes(b@, '/' as u8)[k],
            dd@ == dotdot(),
            forall|k: int| 0 <= k < i ==> #[trigger] split_bytes(b@, '/' as u8)[k] != dotdot(),
        decreases segs@.len() - i,
    {
        if bytes_eq(segs[i].as_slice(), dd.as_slice()) {
            return false;
        }
        i += 1;
    }
    true
}

} // verus!
