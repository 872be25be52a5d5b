//! Replica ids. A replica is named by the IPv4 socket on which its peers
//! reach it: the four octets of the address, most significant first, take
//! bits 16 to 47 of the id and the port takes bits 0 to 15.

use crate::messages::ReplicaId;
use crate::text::{ascii_string, decimal, is_ascii_bytes, lemma_decimal_shape, push_decimal};
use vstd::prelude::*;
use vstd::utf8::*;

verus! {

/// An IPv4 socket address.
#[derive(Debug, Clone, Copy, PartialEq, Eq)]
pub struct SocketAddrV4 {
    pub octets: [u8; 4],
    pub port: u16,
}

/// The id of the socket with these octets and this port.
pub open spec fn replica_id(o0: u8, o1: u8, o2: u8, o3: u8, port: u16) -> u64 {
    ((o0 as u64) << 40) | ((o1 as u64) << 32) | ((o2 as u64) << 24) | ((o3 as u64) << 16) | (
    port as u64)
}

impl SocketAddrV4 {
    /// The id of this socket.
    pub open spec fn id(self) -> u64 {
        replica_id(self.octets[0], self.octets[1], self.octets[2], self.octets[3], self.port)
    }

    /// The socket in its usual notation: the octets in decimal with dots
    /// between them, a colon, the port in decimal.
    pub open spec fn notation(self) -> Seq<u8> {
        decimal(self.octets[0] as nat) + seq![46u8] + decimal(self.octets[1] as nat) + seq![46u8]
            + decimal(self.octets[2] as nat) + seq![46u8] + decimal(self.octets[3] as nat)
            + seq![58u8] + decimal(self.port as nat)
    }
}

/// The socket that an id names. The sixteen most significant bits of the id
/// name nothing and are ignored.
pub open spec fn socket_of(id: u64) -> SocketAddrV4 {
    SocketAddrV4 {
        octets: [
            ((id >> 40) & 0xff) as u8,
            ((id >> 32) & 0xff) as u8,
            ((id >> 24) & 0xff) as u8,
            ((id >> 16) & 0xff) as u8,
        ],
        port: (id & 0xffff) as u16,
    }
}

fn octet(n: u64) -> (b: u8)
    ensures
        b == (n & 0xff) as u8,
{
    let m: u64 = n & 0xff;
    assert(m < 256) by (bit_vector)
        requires
            m == n & 0xff,
    ;
    m as u8
}

/// The socket that the id `addr` names.
pub fn u64_to_socketaddr(addr: u64) -> (socket: SocketAddrV4)
    ensures
        socket.octets@ == socket_of(addr).octets@,
        socket.port == socket_of(addr).port,
{
    let low: u64 = addr & 0xffff;
    assert(low < 0x1_0000) by (bit_vector)
        requires
            low == addr & 0xffff,
    ;
    let octets: [u8; 4] = [
        octet(addr >> 40),
        octet(addr >> 32),
        octet(addr >> 24),
        octet(addr >> 16),
    ];
    assert(octets@ =~= socket_of(addr).octets@);
    SocketAddrV4 { octets, port: low as u16 }
}

/// The id of the socket `addr`.
pub fn socketaddr_to_u64(addr: &SocketAddrV4) -> (id: u64)
    ensures
        id == addr.id(),
        id < 0x1_0000_0000_0000,
{
    let o0: u8 = addr.octets[0];
    let o1: u8 = addr.octets[1];
    let o2: u8 = addr.octets[2];
    let o3: u8 = addr.octets[3];
    let port: u16 = addr.port;
    let id: u64 = ((o0 as u64) << 40) | ((o1 as u64) << 32) | ((o2 as u64) << 24) | ((o3 as u64)
        << 16) | (port as u64);
    assert(id < 0x1_0000_0000_0000) by (bit_vector)
        requires
            id == ((o0 as u64) << 40) | ((o1 as u64) << 32) | ((o2 as u64) << 24) | ((o3 as u64)
                << 16) | (port as u64),
    ;
    id
}

/// An id names the socket that it was made from.
pub proof fn lemma_socket_of_id(addr: SocketAddrV4)
    ensures
        socket_of(addr.id()).octets@ == addr.octets@,
        socket_of(addr.id()).port == addr.port,
{
    let o0: u8 = addr.octets[0];
    let o1: u8 = addr.octets[1];
    let o2: u8 = addr.octets[2];
    let o3: u8 = addr.octets[3];
    let port: u16 = addr.port;
    let id: u64 = addr.id();
    assert(((id >> 40) & 0xff) as u8 == o0 && ((id >> 32) & 0xff) as u8 == o1 && ((id >> 24)
        & 0xff) as u8 == o2 && ((id >> 16) & 0xff) as u8 == o3 && (id & 0xffff) as u16 == port)
        by (bit_vector)
        requires
            id == ((o0 as u64) << 40) | ((o1 as u64) << 32) | ((o2 as u64) << 24) | ((o3 as u64)
                << 16) | (port as u64),
    ;
    assert(socket_of(id).octets@ =~= addr.octets@);
}

/// The socket that an id names has that id again, up to the sixteen bits
/// that name nothing.
pub proof fn lemma_id_of_socket(id: u64)
    ensures
        socket_of(id).id() == id & 0xffff_ffff_ffff,
        id < 0x1_0000_0000_0000 ==> socket_of(id).id() == id,
{
    assert((((((id >> 40) & 0xff) as u8) as u64) << 40) | (((((id >> 32) & 0xff) as u8) as u64)
        << 32) | (((((id >> 24) & 0xff) as u8) as u64) << 24) | (((((id >> 16) & 0xff) as u8) as u64)
        << 16) | (((id & 0xffff) as u16) as u64) == id & 0xffff_ffff_ffff) by (bit_vector);
    assert(id < 0x1_0000_0000_0000 ==> id & 0xffff_ffff_ffff == id) by (bit_vector);
}

/// The usual notation of a socket is ASCII.
pub proof fn lemma_notation_ascii(socket: SocketAddrV4)
    ensures
        is_ascii_bytes(socket.notation()),
{
    lemma_decimal_shape(socket.octets[0] as nat);
    lemma_decimal_shape(socket.octets[1] as nat);
    lemma_decimal_shape(socket.octets[2] as nat);
    lemma_decimal_shape(socket.octets[3] as nat);
    lemma_decimal_shape(socket.port as nat);
}

/// The socket that the id names, written as `ip:port`.
pub fn socket_text(id: ReplicaId) -> (text: String)
    ensures
        encode_utf8(text@) == socket_of(id).notation(),
{
    let socket = u64_to_socketaddr(id);
    let mut out: Vec<u8> = Vec::new();
    push_decimal(&mut out, socket.octets[0] as u64);
    out.push(46u8);
    push_decimal(&mut out, socket.octets[1] as u64);
    out.push(46u8);
    push_decimal(&mut out, socket.octets[2] as u64);
    out.push(46u8);
    push_decimal(&mut out, socket.octets[3] as u64);
    out.push(58u8);
    push_decimal(&mut out, socket.port as u64);
    proof {
        assert(out@ =~= socket_of(id).notation());
        lemma_notation_ascii(socket_of(id));
    }
    ascii_string(out)
}

} // verus!
