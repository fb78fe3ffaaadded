use p2p::address::{Ipv4, Ipv6, SocketAddress};

fn v6(segs: [u16; 8], port: u16, scope_id: u32) -> SocketAddress {
    SocketAddress::V6 {
        ip: Ipv6 {
            s0: segs[0],
            s1: segs[1],
            s2: segs[2],
            s3: segs[3],
            s4: segs[4],
            s5: segs[5],
            s6: segs[6],
            s7: segs[7],
        },
        port,
        flowinfo: 0,
        scope_id,
    }
}

#[test]
fn ipv4_text() {
    let a = SocketAddress::V4 { ip: Ipv4 { o0: 127, o1: 0, o2: 0, o3: 1 }, port: 8080 };
    assert_eq!("127.0.0.1:8080", a.to_string());
    let b = SocketAddress::V4 { ip: Ipv4 { o0: 255, o1: 10, o2: 9, o3: 100 }, port: 0 };
    assert_eq!("255.10.9.100:0", b.to_string());
}

#[test]
fn ipv6_text() {
    assert_eq!("[::1]:8080", v6([0, 0, 0, 0, 0, 0, 0, 1], 8080, 0).to_string());
    assert_eq!("[::]:1", v6([0; 8], 1, 0).to_string());
    assert_eq!("[2001:db8::1]:80", v6([0x2001, 0xdb8, 0, 0, 0, 0, 0, 1], 80, 0).to_string());
    assert_eq!("[1:0:0:1::1]:1", v6([1, 0, 0, 1, 0, 0, 0, 1], 1, 0).to_string());
    assert_eq!("[1::1:0:0:1:1]:1", v6([1, 0, 0, 1, 0, 0, 1, 1], 1, 0).to_string());
    assert_eq!("[1:2:3:4:5:6:7:8]:1", v6([1, 2, 3, 4, 5, 6, 7, 8], 1, 0).to_string());
    assert_eq!("[1:0:2:3:4:5:6:7]:1", v6([1, 0, 2, 3, 4, 5, 6, 7], 1, 0).to_string());
    assert_eq!("[abcd::]:1", v6([0xabcd, 0, 0, 0, 0, 0, 0, 0], 1, 0).to_string());
    assert_eq!("[::ffff:1.2.3.4]:1", v6([0, 0, 0, 0, 0, 0xffff, 0x0102, 0x0304], 1, 0).to_string());
    assert_eq!("[fe80::1%3]:80", v6([0xfe80, 0, 0, 0, 0, 0, 0, 1], 80, 3).to_string());
}

#[test]
fn ipv4_parse() {
    let a = SocketAddress::V4 { ip: Ipv4 { o0: 1, o1: 2, o2: 3, o3: 4 }, port: 80 };
    assert_eq!(Some(a), SocketAddress::parse("1.2.3.4:80"));
    assert_eq!(Some(a), SocketAddress::parse("1.2.3.4:0080"));
    assert_eq!(None, SocketAddress::parse("01.2.3.4:80"));
    assert_eq!(None, SocketAddress::parse("256.2.3.4:80"));
    assert_eq!(None, SocketAddress::parse("1.2.3.4:65536"));
    assert_eq!(None, SocketAddress::parse("1.2.3:80"));
    assert_eq!(None, SocketAddress::parse("1.2.3.4.5:80"));
    assert_eq!(None, SocketAddress::parse("1.2.3.4"));
    assert_eq!(None, SocketAddress::parse("1.2.3.4:"));
    assert_eq!(None, SocketAddress::parse("1.2.3.4:80 "));
    assert_eq!(None, SocketAddress::parse("localhost:80"));
    assert_eq!(None, SocketAddress::parse(""));
    assert_eq!(None, SocketAddress::parse("+1.2.3.4:80"));
}

#[test]
fn ipv6_parse() {
    assert_eq!(Some(v6([0, 0, 0, 0, 0, 0, 0, 1], 8080, 0)), SocketAddress::parse("[::1]:8080"));
    assert_eq!(Some(v6([0; 8], 1, 0)), SocketAddress::parse("[::]:1"));
    assert_eq!(Some(v6([1, 2, 3, 4, 5, 6, 7, 8], 1, 0)), SocketAddress::parse("[1:2:3:4:5:6:7:8]:1"));
    assert_eq!(Some(v6([0xabcd, 0, 0, 0, 0, 0, 0, 0xef], 1, 0)), SocketAddress::parse("[ABCD::00eF]:1"));
    assert_eq!(
        Some(v6([0, 0, 0, 0, 0, 0xffff, 0x0102, 0x0304], 1, 0)),
        SocketAddress::parse("[::ffff:1.2.3.4]:1")
    );
    assert_eq!(
        Some(v6([1, 2, 3, 4, 5, 6, 0x0a00, 0x0001], 1, 0)),
        SocketAddress::parse("[1:2:3:4:5:6:10.0.0.1]:1")
    );
    assert_eq!(Some(v6([1, 2, 3, 4, 5, 6, 7, 0], 1, 0)), SocketAddress::parse("[1:2:3:4:5:6:7::]:1"));
    assert_eq!(Some(v6([0xfe80, 0, 0, 0, 0, 0, 0, 1], 80, 7)), SocketAddress::parse("[fe80::1%007]:80"));
    assert_eq!(None, SocketAddress::parse("[1:2:3:4:5:6:7:8:9]:1"));
    assert_eq!(None, SocketAddress::parse("[1:2:3:4:5:6:7:8::]:1"));
    assert_eq!(None, SocketAddress::parse("[1::2::3]:1"));
    assert_eq!(None, SocketAddress::parse("[:::1]:1"));
    assert_eq!(None, SocketAddress::parse("[12345::]:1"));
    assert_eq!(None, SocketAddress::parse("[1:2]:1"));
    assert_eq!(None, SocketAddress::parse("[1.2.3.4::]:1"));
    assert_eq!(None, SocketAddress::parse("[::1%]:1"));
    assert_eq!(None, SocketAddress::parse("[::1]"));
    assert_eq!(None, SocketAddress::parse("[::1]:"));
    assert_eq!(None, SocketAddress::parse("::1:80"));
    assert_eq!(None, SocketAddress::parse("[::1]:80x"));
}

#[test]
fn address_text_reads_back() {
    let samples = [
        "127.0.0.1:8080",
        "0.0.0.0:0",
        "[::1]:8080",
        "[2001:db8::ff00:42:8329]:443",
        "[::ffff:192.168.1.1]:1",
        "[fe80::1%12]:65535",
        "[1:2:3:4:5:6:7:8]:9",
    ];
    for text in samples.iter() {
        let a = SocketAddress::parse(text).unwrap();
        assert_eq!(*text, a.to_string());
        assert_eq!(Some(a), SocketAddress::parse(&a.to_string()));
    }
}
