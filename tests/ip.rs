use kernel_schemes::error::SchemeError;
use kernel_schemes::ip::{route_for, on_subnet, Connection, IoStep, IpConfig, IpResource, IpScheme, OpenStep};
use kernel_schemes::net::{arp_request, link_path, parse_arp_reply, parse_ipv4, Ipv4Addr, MacAddr};

fn ip(a: u8, b: u8, c: u8, d: u8) -> Ipv4Addr {
    Ipv4Addr { bytes: [a, b, c, d] }
}

fn config() -> IpConfig {
    IpConfig {
        mac: MacAddr { bytes: [2, 0, 0, 0, 0, 1] },
        ip: ip(192, 168, 1, 10),
        subnet: ip(255, 255, 255, 0),
        router: ip(192, 168, 1, 1),
    }
}

fn arp_reply_frame(sender_mac: [u8; 6], sender_ip: [u8; 4]) -> Vec<u8> {
    let mut f = vec![0, 1, 8, 0, 6, 4, 0, 2];
    f.extend_from_slice(&sender_mac);
    f.extend_from_slice(&sender_ip);
    f.extend_from_slice(&[2, 0, 0, 0, 0, 1]);
    f.extend_from_slice(&[192, 168, 1, 10]);
    f
}

fn ipv4_frame(proto: u8, src: [u8; 4], dst: [u8; 4], payload: &[u8]) -> Vec<u8> {
    let total = 20 + payload.len();
    let mut f = vec![0x45, 0, (total >> 8) as u8, total as u8, 0, 0, 0, 0, 64, proto, 0, 0];
    f.extend_from_slice(&src);
    f.extend_from_slice(&dst);
    f.extend_from_slice(payload);
    f
}

fn open_ready(scheme: &IpScheme, url: &[u8]) -> IpResource {
    match scheme.open_resource(&config(), url, 0, 7) {
        Ok(OpenStep::Ready(res)) => res,
        _ => panic!("expected an open resource"),
    }
}

#[test]
fn subnet_routing_rule() {
    let cfg = config();
    assert!(on_subnet(&cfg, &ip(192, 168, 1, 20)));
    assert_eq!(route_for(&cfg, &ip(192, 168, 1, 20)).bytes, [192, 168, 1, 20]);
    assert!(!on_subnet(&cfg, &ip(10, 0, 0, 5)));
    assert_eq!(route_for(&cfg, &ip(10, 0, 0, 5)).bytes, [192, 168, 1, 1]);
}

#[test]
fn open_resolves_through_the_route_target() {
    let scheme = IpScheme::new();
    match scheme.open_resource(&config(), b"10.0.0.5/6", 0, 1) {
        Ok(OpenStep::Resolve { route, peer, proto }) => {
            assert_eq!(route.bytes, [192, 168, 1, 1]);
            assert_eq!(peer.bytes, [10, 0, 0, 5]);
            assert_eq!(proto, 6);
        }
        _ => panic!("expected resolution"),
    }
    match scheme.open_resource(&config(), b"192.168.1.20/11", 0, 1) {
        Ok(OpenStep::Resolve { route, peer, proto }) => {
            assert_eq!(route.bytes, [192, 168, 1, 20]);
            assert_eq!(peer.bytes, [192, 168, 1, 20]);
            assert_eq!(proto, 0x11);
        }
        _ => panic!("expected resolution"),
    }
}

#[test]
fn resolved_route_is_served_from_the_cache() {
    let mut scheme = IpScheme::new();
    let cfg = config();
    let route = match scheme.open_resource(&cfg, b"10.0.0.5/6", 0, 1) {
        Ok(OpenStep::Resolve { route, .. }) => route,
        _ => panic!("expected resolution"),
    };
    let gateway_mac = [0, 0x11, 0x22, 0x33, 0x44, 0x55];
    assert!(scheme.arp_reply(&route, &arp_reply_frame([9; 6], [192, 168, 1, 99])).is_none());
    let mut request = arp_reply_frame(gateway_mac, [192, 168, 1, 1]);
    request[7] = 1;
    assert!(scheme.arp_reply(&route, &request).is_none());
    assert_eq!(scheme.arp.len(), 0);
    let mac = scheme.arp_reply(&route, &arp_reply_frame(gateway_mac, [192, 168, 1, 1])).unwrap();
    assert_eq!(mac.bytes, gateway_mac);
    assert_eq!(scheme.arp.len(), 1);
    match scheme.open_resource(&cfg, b"10.0.0.5/6", 0, 2) {
        Ok(OpenStep::Connect { mac, peer, proto }) => {
            assert_eq!(mac.bytes, gateway_mac);
            assert_eq!(peer.bytes, [10, 0, 0, 5]);
            assert_eq!(proto, 6);
        }
        _ => panic!("expected a cached route"),
    }
    match scheme.open_resource(&cfg, b"172.16.0.1/6", 0, 3) {
        Ok(OpenStep::Connect { mac, .. }) => assert_eq!(mac.bytes, gateway_mac),
        _ => panic!("expected a cached route"),
    }
    assert_eq!(scheme.arp_find(&ip(192, 168, 1, 1)).unwrap().bytes, gateway_mac);
}

#[test]
fn loopback_round_trip_in_order() {
    let mut scheme = IpScheme::new();
    let writer = open_ready(&scheme, b"127.0.0.1/11");
    let mut reader = open_ready(&scheme, b"127.0.0.1/11");
    assert!(matches!(writer.connection, Connection::Loopback));
    assert_eq!(writer.peer_addr.bytes, [127, 0, 0, 1]);
    assert_eq!(writer.host_addr.bytes, [192, 168, 1, 10]);
    assert_eq!(writer.proto, 0x11);
    assert_eq!(writer.id, 7);
    assert!(matches!(scheme.write(&writer, b"first"), IoStep::Done(5)));
    assert!(matches!(scheme.write(&writer, b"second"), IoStep::Done(6)));
    let mut buf = [0u8; 16];
    assert!(matches!(scheme.read(&mut reader, &mut buf), IoStep::Done(5)));
    assert_eq!(&buf[..5], b"first");
    assert!(matches!(scheme.read(&mut reader, &mut buf), IoStep::Done(6)));
    assert_eq!(&buf[..6], b"second");
    assert!(matches!(scheme.read(&mut reader, &mut buf), IoStep::Done(0)));
    assert_eq!(IpScheme::close(reader), None);
}

#[test]
fn loopback_read_truncates_to_the_buffer() {
    let mut scheme = IpScheme::new();
    let mut res = open_ready(&scheme, b"127.0.0.1/6");
    scheme.write(&res, b"abcdef");
    let mut buf = [0u8; 4];
    assert!(matches!(scheme.read(&mut res, &mut buf), IoStep::Done(4)));
    assert_eq!(&buf, b"abcd");
    assert_eq!(scheme.loopback_fifo.len(), 0);
}

#[test]
fn open_failures() {
    let scheme = IpScheme::new();
    let cfg = config();
    assert!(matches!(scheme.open_resource(&cfg, b"127.0.0.1/6", 1000, 1), Err(SchemeError::AccessDenied)));
    assert!(matches!(scheme.open_resource(&cfg, &[0xc3, 0x28, b'/', b'6'], 0, 1), Err(SchemeError::InvalidArgument)));
    assert!(matches!(scheme.open_resource(&cfg, b"10.0.0.5", 0, 1), Err(SchemeError::NotFound)));
    assert!(matches!(scheme.open_resource(&cfg, b"", 0, 1), Err(SchemeError::NotFound)));
}

#[test]
fn open_special_peers() {
    let scheme = IpScheme::new();
    let cfg = config();
    match scheme.open_resource(&cfg, b"/6", 0, 1) {
        Ok(OpenStep::Listen { proto }) => assert_eq!(proto, 6),
        _ => panic!("expected a promiscuous open"),
    }
    match scheme.open_resource(&cfg, b"255.255.255.255/11", 0, 1) {
        Ok(OpenStep::Connect { mac, peer, proto }) => {
            assert_eq!(mac.bytes, [255; 6]);
            assert_eq!(peer.bytes, [255; 4]);
            assert_eq!(proto, 0x11);
        }
        _ => panic!("expected a broadcast connection"),
    }
    match scheme.open_resource(&cfg, b"10.0.0.5/zz/extra", 0, 1) {
        Ok(OpenStep::Resolve { proto, .. }) => assert_eq!(proto, 0),
        _ => panic!("expected resolution"),
    }
    match scheme.open_resource(&cfg, b"10.0.0.5/100", 0, 1) {
        Ok(OpenStep::Resolve { proto, .. }) => assert_eq!(proto, 0),
        _ => panic!("expected resolution"),
    }
}

#[test]
fn dotted_addresses() {
    assert_eq!(Ipv4Addr::from_str(b"192.168.1.20").bytes, [192, 168, 1, 20]);
    assert_eq!(Ipv4Addr::from_str(b"10.0").bytes, [10, 0, 0, 0]);
    assert_eq!(Ipv4Addr::from_str(b"1.300.x.4.5").bytes, [1, 0, 0, 4]);
    assert_eq!(Ipv4Addr::from_str(b"").bytes, [0, 0, 0, 0]);
    assert!(Ipv4Addr::localhost().equals(&ip(127, 0, 0, 1)));
    assert!(!Ipv4Addr::broadcast().equals(&ip(127, 0, 0, 1)));
    assert!(MacAddr::broadcast().equals(&MacAddr { bytes: [255; 6] }));
    assert!(!MacAddr::broadcast().equals(&MacAddr { bytes: [255, 255, 255, 255, 255, 0] }));
}

#[test]
fn arp_request_layout() {
    let cfg = config();
    let frame = arp_request(&cfg.mac, &cfg.ip, &MacAddr::broadcast(), &ip(192, 168, 1, 1));
    assert_eq!(
        frame,
        vec![
            0, 1, 8, 0, 6, 4, 0, 1, 2, 0, 0, 0, 0, 1, 192, 168, 1, 10, 255, 255, 255, 255, 255, 255,
            192, 168, 1, 1
        ]
    );
    assert!(parse_arp_reply(&frame).is_none());
    assert!(parse_arp_reply(&frame[..27]).is_none());
    let (mac, sender) = parse_arp_reply(&arp_reply_frame([1, 2, 3, 4, 5, 6], [10, 0, 0, 1])).unwrap();
    assert_eq!(mac.bytes, [1, 2, 3, 4, 5, 6]);
    assert_eq!(sender.bytes, [10, 0, 0, 1]);
}

#[test]
fn promiscuous_open_accepts_matching_frames() {
    let cfg = config();
    let wrong_proto = ipv4_frame(17, [10, 0, 0, 5], [192, 168, 1, 10], b"x");
    assert!(IpScheme::accept_frame(&cfg, 6, 3, &wrong_proto, 1).is_none());
    let elsewhere = ipv4_frame(6, [10, 0, 0, 5], [192, 168, 1, 11], b"x");
    assert!(IpScheme::accept_frame(&cfg, 6, 3, &elsewhere, 1).is_none());
    assert!(IpScheme::accept_frame(&cfg, 6, 3, &[0x45, 0, 0], 1).is_none());
    let mut padded = ipv4_frame(6, [10, 0, 0, 5], [255, 255, 255, 255], b"hello");
    padded.extend_from_slice(&[0, 0]);
    let mut res = IpScheme::accept_frame(&cfg, 6, 3, &padded, 9).unwrap();
    assert_eq!(res.peer_addr.bytes, [10, 0, 0, 5]);
    assert_eq!(res.host_addr.bytes, [192, 168, 1, 10]);
    assert_eq!(res.proto, 6);
    assert_eq!(res.id, 9);
    let mut scheme = IpScheme::new();
    let mut buf = [0u8; 3];
    assert!(matches!(scheme.read(&mut res, &mut buf), IoStep::Done(3)));
    assert_eq!(&buf, b"hel");
    assert!(matches!(scheme.read(&mut res, &mut buf), IoStep::Done(2)));
    assert_eq!(&buf[..2], b"lo");
    assert!(matches!(scheme.read(&mut res, &mut buf), IoStep::Link(3)));
    assert!(matches!(scheme.write(&res, b"data"), IoStep::Link(3)));
    assert_eq!(IpScheme::close(res), Some(3));
}

#[test]
fn ipv4_decoding() {
    let frame = ipv4_frame(6, [1, 2, 3, 4], [5, 6, 7, 8], b"abc");
    let p = parse_ipv4(&frame).unwrap();
    assert_eq!(p.proto, 6);
    assert_eq!(p.src.bytes, [1, 2, 3, 4]);
    assert_eq!(p.dst.bytes, [5, 6, 7, 8]);
    assert_eq!(p.data, b"abc".to_vec());
    let mut short_header = frame.clone();
    short_header[0] = 0x44;
    assert!(parse_ipv4(&short_header).is_none());
    let mut too_long = frame.clone();
    too_long[3] = 200;
    assert!(parse_ipv4(&too_long).is_none());
}

#[test]
fn device_resource_passes_through() {
    let mut scheme = IpScheme::new();
    let mut res = IpScheme::device_resource(&config(), &ip(10, 0, 0, 5), 6, 4, 2);
    let mut buf = [0u8; 8];
    assert!(matches!(scheme.read(&mut res, &mut buf), IoStep::Link(4)));
    assert!(matches!(scheme.write(&res, b"x"), IoStep::Link(4)));
    assert_eq!(res.peer_addr.bytes, [10, 0, 0, 5]);
    assert_eq!(scheme.loopback_fifo.len(), 0);
}

#[test]
fn link_paths() {
    assert_eq!(link_path(Some(MacAddr::broadcast()), 0x806), b"ethernet:ff.ff.ff.ff.ff.ff/806".to_vec());
    assert_eq!(
        link_path(Some(MacAddr { bytes: [0, 0x1b, 0x2c, 0x3d, 0x4e, 0xa5] }), 0x800),
        b"ethernet:00.1b.2c.3d.4e.a5/800".to_vec()
    );
    assert_eq!(link_path(None, 0x800), b"ethernet:/800".to_vec());
    assert_eq!(link_path(None, 0x86dd), b"ethernet:/86dd".to_vec());
    assert_eq!(link_path(None, 0), b"ethernet:/0".to_vec());
}
