//! Versioning of the request/response protocol, and recovery of the latest
//! protocol version a peer understands from the protocol names it announces.

use vstd::prelude::*;

verus! {

/// The protocol name of the one supported request/response version.
pub const REQUEST_RESPONSE_PROTOCOL_ID: &'static str = "/fuel/req-res/0.0.1";

/// The versions of the request/response protocol.
#[derive(Debug, Clone, Copy, PartialEq, Eq, Structural)]
pub enum ProtocolVersion {
    /// The first version of the protocol, without error codes in response
    /// messages.
    V1,
}

impl ProtocolVersion {
    /// The version named by a protocol string, if any.
    pub fn try_from_protocol(protocol: &String) -> (r: Result<ProtocolVersion, ()>)
        ensures
            r == if protocol@ == REQUEST_RESPONSE_PROTOCOL_ID@ {
                Ok::<ProtocolVersion, ()>(ProtocolVersion::V1)
            } else {
                Err::<ProtocolVersion, ()>(())
            },
    {
        let id = String::from_str(REQUEST_RESPONSE_PROTOCOL_ID);
        if protocol.eq(&id) {
            Ok(ProtocolVersion::V1)
        } else {
            Err(())
        }
    }

    /// The latest protocol version among the protocol names a peer announces:
    /// the maximum version whose name occurs, or nothing if none is
    /// understood.
    pub fn latest_compatible_version_for_peer(protocols: &Vec<String>) -> (r: Option<
        ProtocolVersion,
    >)
        ensures
            r == if exists|i: int|
                0 <= i < protocols@.len() && (#[trigger] protocols@[i])@
                    == REQUEST_RESPONSE_PROTOCOL_ID@ {
                Some(ProtocolVersion::V1)
            } else {
                None::<ProtocolVersion>
            },
    {
        let n = protocols.len();
        let mut i: usize = 0;
        while i < n
            invariant
                0 <= i <= n,
                n == protocols@.len(),
                forall|j: int| 0 <= j < i ==> (#[trigger] protocols@[j])@
                    != REQUEST_RESPONSE_PROTOCOL_ID@,
            decreases n - i,
        {
            match Self::try_from_protocol(&protocols[i]) {
                Ok(v) => {
                    return Some(v);
                },
                Err(()) => {},
            }
            i += 1;
        }
        None
    }
}

} // verus!
