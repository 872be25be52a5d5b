use secko::address::{socket_text, socketaddr_to_u64, u64_to_socketaddr, SocketAddrV4};

#[test]
fn id_of_loopback_socket() {
    let socket = SocketAddrV4 { octets: [127, 0, 0, 1], port: 8000 };
    let id = socketaddr_to_u64(&socket);
    assert_eq!(id, ((127u64 << 24 | 1u64) << 16) | 8000);
    assert_eq!(id, 139_637_976_801_088);
    assert_eq!(u64_to_socketaddr(id), socket);
}

#[test]
fn socket_is_written_as_ip_and_port() {
    let socket = SocketAddrV4 { octets: [10, 0, 200, 7], port: 65535 };
    assert_eq!(socket_text(socketaddr_to_u64(&socket)), "10.0.200.7:65535");
    assert_eq!(socket_text(0), "0.0.0.0:0");
}

#[test]
fn high_bits_of_an_id_name_nothing() {
    let socket = SocketAddrV4 { octets: [1, 2, 3, 4], port: 5 };
    let id = socketaddr_to_u64(&socket);
    assert_eq!(u64_to_socketaddr(id | (0xabcd << 48)), socket);
}
