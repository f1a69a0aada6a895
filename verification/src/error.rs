use vstd::prelude::*;

verus! {

/// Why the listening socket could not be set up.
#[derive(Debug)]
pub enum TCPSocketError {
    SocketConfig(String),
}

} // verus!
