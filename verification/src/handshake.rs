//! What client and server agree on before a connection is up.

use vstd::prelude::*;

use crate::frame::ConnectionParams;

verus! {

/// Whether each side accepts packets as large as the other side sends.
pub open spec fn are_compatible(a: ConnectionParams, b: ConnectionParams) -> bool {
    a.packet_size_in_max >= b.packet_size_out_max && b.packet_size_in_max >= a.packet_size_out_max
}

/// Whether each side accepts packets as large as the other side sends.
pub fn connection_params_compatible(a: &ConnectionParams, b: &ConnectionParams) -> (compatible: bool)
    ensures
        compatible == are_compatible(*a, *b),
{
    a.packet_size_in_max >= b.packet_size_out_max && b.packet_size_in_max >= a.packet_size_out_max
}

/// The parameters of a side which does not limit the size of packets.
pub open spec fn unlimited() -> ConnectionParams {
    ConnectionParams { packet_size_in_max: u32::MAX, packet_size_out_max: u32::MAX }
}

/// The parameters which both client and server declare.
pub fn local_params() -> (params: ConnectionParams)
    ensures
        params == unlimited(),
{
    ConnectionParams { packet_size_in_max: u32::MAX, packet_size_out_max: u32::MAX }
}

/// Whether a side sends packets of this size.
pub open spec fn sends(params: ConnectionParams, size: u32) -> bool {
    size <= params.packet_size_out_max
}

/// Whether a side accepts packets of this size.
pub open spec fn accepts(params: ConnectionParams, size: u32) -> bool {
    size <= params.packet_size_in_max
}

/// Two sides are compatible if and only if neither sends a packet which the other does not accept.
/// This does not depend on which of them asks.
pub proof fn law_compatible_sides_accept_packets(a: ConnectionParams, b: ConnectionParams)
    ensures
        are_compatible(a, b) == are_compatible(b, a),
        are_compatible(a, b) <==> (forall|size: u32| #[trigger] sends(a, size) ==> accepts(b, size))
            && (forall|size: u32| #[trigger] sends(b, size) ==> accepts(a, size)),
{
    assert(sends(a, a.packet_size_out_max));
    assert(sends(b, b.packet_size_out_max));
}

} // verus!
