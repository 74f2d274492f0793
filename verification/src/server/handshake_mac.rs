//! Authentication codes for handshakes.
//!
//! A server does not keep track of clients which have merely asked to connect. It hands its part of
//! the handshake to the client, who sends it back together with a code that only the server can
//! compute.

use vstd::prelude::*;

use crate::frame::serial::le32;
use crate::random::random_u8;

verus! {

/// Where a frame has come from, or is to go.
#[derive(Debug, Clone, Copy, PartialEq, Eq)]
pub enum Address {
    /// Octets and port.
    V4([u8; 4], u16),
    /// Octets, port, flow information and scope.
    V6([u8; 16], u16, u32, u32),
}

/// What an [`Address`] stands for.
#[verifier::ext_equal]
pub struct AddressView {
    pub octets: Seq<u8>,
    pub port: u16,
    /// Zero unless there are sixteen octets.
    pub flow_info: u32,
    /// Zero unless there are sixteen octets.
    pub scope_id: u32,
}

impl View for Address {
    type V = AddressView;

    open spec fn view(&self) -> AddressView {
        match *self {
            Address::V4(octets, port) => AddressView {
                octets: octets@,
                port,
                flow_info: 0,
                scope_id: 0,
            },
            Address::V6(octets, port, flow_info, scope_id) => AddressView {
                octets: octets@,
                port,
                flow_info,
                scope_id,
            },
        }
    }
}

impl AddressView {
    /// Whether there are as many octets as one of the protocol versions has.
    pub open spec fn wf(self) -> bool {
        self.octets.len() == 4 || self.octets.len() == 16
    }
}

impl Address {
    fn octets(&self) -> (octets: &[u8])
        ensures
            octets@ == self@.octets,
    {
        match self {
            Address::V4(octets, _) => octets.as_slice(),
            Address::V6(octets, _, _, _) => octets.as_slice(),
        }
    }

    fn port(&self) -> (port: u16)
        ensures
            port == self@.port,
    {
        match self {
            Address::V4(_, port) => *port,
            Address::V6(_, port, _, _) => *port,
        }
    }

    fn flow_info(&self) -> (flow_info: u32)
        ensures
            flow_info == self@.flow_info,
    {
        match self {
            Address::V4(_, _) => 0,
            Address::V6(_, _, flow_info, _) => *flow_info,
        }
    }

    fn scope_id(&self) -> (scope_id: u32)
        ensures
            scope_id == self@.scope_id,
    {
        match self {
            Address::V4(_, _) => 0,
            Address::V6(_, _, _, scope_id) => *scope_id,
        }
    }

    /// Whether two addresses are the same.
    pub fn is(&self, other: &Address) -> (same: bool)
        ensures
            same == (self@ == other@),
    {
        let a = self.octets();
        let b = other.octets();
        if self.port() != other.port() || self.flow_info() != other.flow_info()
            || self.scope_id() != other.scope_id() || a.len() != b.len() {
            return false;
        }
        let mut i: usize = 0;
        while i < a.len()
            invariant
                i <= a@.len(),
                a@.len() == b@.len(),
                a@.take(i as int) == b@.take(i as int),
                a@ == self@.octets,
                b@ == other@.octets,
                self@.port == other@.port,
                self@.flow_info == other@.flow_info,
                self@.scope_id == other@.scope_id,
            decreases a@.len() - i,
        {
            if a[i] != b[i] {
                assert(a@[i as int] != b@[i as int]);
                return false;
            }
            assert(a@.take(i + 1) =~= a@.take(i as int).push(a@[i as int]));
            assert(b@.take(i + 1) =~= b@.take(i as int).push(b@[i as int]));
            i += 1;
        }
        assert(a@ =~= a@.take(i as int));
        assert(b@ =~= b@.take(i as int));
        assert(self@ =~= other@);
        true
    }
}

/// The bytes of a value, least significant first.
pub open spec fn le16(value: u16) -> Seq<u8> {
    seq![value as u8, (value >> 8) as u8]
}

/// The message of which the code is computed.
pub open spec fn mac_message(
    sender_addr: AddressView,
    client_nonce: u32,
    server_nonce: u32,
    server_timestamp: u32,
) -> Seq<u8> {
    sender_addr.octets + le16(sender_addr.port) + le32(client_nonce) + le32(server_nonce) + le32(
        server_timestamp,
    )
}

/// The value of SipHash-1-3 for a message, under a key of sixteen bytes.
pub uninterp spec fn siphash13(key: Seq<u8>, message: Seq<u8>) -> u64;

/// Hashes a message with `siphasher::sip::SipHasher13`, which is given the key by `new_with_key`,
/// and the whole message by `hash`. What comes out depends on the key and the message alone.
#[verifier::external_body]
fn keyed_hash(key: &[u8; 16], message: &[u8]) -> (hash: u64)
    ensures
        hash == siphash13(key@, message@),
{
    siphasher::sip::SipHasher13::new_with_key(key).hash(message)
}

fn push_le16(bytes: &mut Vec<u8>, value: u16)
    ensures
        final(bytes)@ == old(bytes)@ + le16(value),
{
    bytes.push(value as u8);
    bytes.push((value >> 8) as u8);
    assert(bytes@ =~= old(bytes)@ + le16(value));
}

fn push_le32(bytes: &mut Vec<u8>, value: u32)
    ensures
        final(bytes)@ == old(bytes)@ + le32(value),
{
    bytes.push(value as u8);
    bytes.push((value >> 8) as u8);
    bytes.push((value >> 16) as u8);
    bytes.push((value >> 24) as u8);
    assert(bytes@ =~= old(bytes)@ + le32(value));
}

/// Computes authentication codes with a key of its own.
pub struct HandshakeMacHasher {
    key: [u8; 16],
}

impl Default for HandshakeMacHasher {
    /// Picks a key at random.
    fn default() -> (hasher: Self)
        ensures
            hasher.key().len() == 16,
    {
        let mut key: [u8; 16] = [0;16];
        let mut i: usize = 0;
        while i < 16
            invariant
                i <= 16,
            decreases 16 - i,
        {
            key[i] = random_u8();
            i += 1;
        }
        Self { key }
    }
}

impl HandshakeMacHasher {
    pub closed spec fn key(&self) -> Seq<u8> {
        self.key@
    }

    pub fn with_key(key: [u8; 16]) -> (hasher: Self)
        ensures
            hasher.key() == key@,
    {
        Self { key }
    }

    /// Digests the octets and the port of an address.
    pub(crate) fn digest(&self, addr: &Address) -> (digest: u64)
        ensures
            digest == siphash13(self.key(), addr@.octets + le16(addr@.port)),
    {
        let mut message = vstd::slice::slice_to_vec(addr.octets());
        push_le16(&mut message, addr.port());
        keyed_hash(&self.key, message.as_slice())
    }

    pub fn compute(
        &self,
        sender_addr: &Address,
        client_nonce: u32,
        server_nonce: u32,
        server_timestamp: u32,
    ) -> (mac: u64)
        ensures
            mac == siphash13(
                self.key(),
                mac_message(sender_addr@, client_nonce, server_nonce, server_timestamp),
            ),
    {
        let mut message = vstd::slice::slice_to_vec(sender_addr.octets());
        push_le16(&mut message, sender_addr.port());
        push_le32(&mut message, client_nonce);
        push_le32(&mut message, server_nonce);
        push_le32(&mut message, server_timestamp);
        keyed_hash(&self.key, message.as_slice())
    }
}

proof fn lemma_le16_injective(a: u16, b: u16)
    requires
        le16(a) == le16(b),
    ensures
        a == b,
{
    assert(le16(a)[0] == le16(b)[0] && le16(a)[1] == le16(b)[1]);
    assert(a as u8 == b as u8 && (a >> 8) as u8 == (b >> 8) as u8 ==> a == b) by (bit_vector);
}

pub(crate) proof fn lemma_le32_injective(a: u32, b: u32)
    requires
        le32(a) == le32(b),
    ensures
        a == b,
{
    assert(le32(a)[0] == le32(b)[0] && le32(a)[1] == le32(b)[1]);
    assert(le32(a)[2] == le32(b)[2] && le32(a)[3] == le32(b)[3]);
    assert(a as u8 == b as u8 && (a >> 8) as u8 == (b >> 8) as u8 && (a >> 16) as u8 == (b
        >> 16) as u8 && (a >> 24) as u8 == (b >> 24) as u8 ==> a == b) by (bit_vector);
}

/// No two handshakes have the same message: each code vouches for the octets and the port of one
/// address, one pair of nonces and one time.
pub proof fn law_mac_message_injective(
    addr_a: AddressView,
    client_a: u32,
    server_a: u32,
    time_a: u32,
    addr_b: AddressView,
    client_b: u32,
    server_b: u32,
    time_b: u32,
)
    requires
        addr_a.wf(),
        addr_b.wf(),
        mac_message(addr_a, client_a, server_a, time_a) == mac_message(
            addr_b,
            client_b,
            server_b,
            time_b,
        ),
    ensures
        addr_a.octets == addr_b.octets,
        addr_a.port == addr_b.port,
        client_a == client_b,
        server_a == server_b,
        time_a == time_b,
{
    let a = mac_message(addr_a, client_a, server_a, time_a);
    let b = mac_message(addr_b, client_b, server_b, time_b);
    let n = addr_a.octets.len() as int;
    assert(a.len() == n + 14 && b.len() == addr_b.octets.len() + 14);
    assert(a.take(n) =~= addr_a.octets && b.take(n) =~= addr_b.octets);
    assert(a.subrange(n, n + 2) =~= le16(addr_a.port));
    assert(b.subrange(n, n + 2) =~= le16(addr_b.port));
    lemma_le16_injective(addr_a.port, addr_b.port);
    assert(a.subrange(n + 2, n + 6) =~= le32(client_a));
    assert(b.subrange(n + 2, n + 6) =~= le32(client_b));
    lemma_le32_injective(client_a, client_b);
    assert(a.subrange(n + 6, n + 10) =~= le32(server_a));
    assert(b.subrange(n + 6, n + 10) =~= le32(server_b));
    lemma_le32_injective(server_a, server_b);
    assert(a.subrange(n + 10, n + 14) =~= le32(time_a));
    assert(b.subrange(n + 10, n + 14) =~= le32(time_b));
    lemma_le32_injective(time_a, time_b);
}

} // verus!
