use arpchat::channel::Channel;
use arpchat::error::ArpchatError;
use arpchat::frame::{encode_frame, parse_frame, Fragment};
use arpchat::net::{EtherType, Id};
use arpchat::packet::Packet;
use arpchat::reassembly::Reassembler;
use arpchat::ringbuffer::Ringbuffer;

const MAC: [u8; 6] = [0x02, 0x00, 0x00, 0x00, 0x00, 0x01];

fn channel() -> Channel {
    Channel::from_interface(Some(MAC)).unwrap()
}

fn presence_of_len(payload_len: usize) -> Packet {
    let name: String = std::iter::repeat('x').take(payload_len - 9).collect();
    Packet::Presence([7; 8], true, name)
}

fn deliver(rx: &mut Channel, frames: &[Vec<u8>], order: &[usize]) -> Vec<Option<Packet>> {
    order.iter().map(|&i| rx.try_recv(&frames[i])).collect()
}

#[test]
fn ringbuffer_remembers_and_forgets() {
    let mut r = Ringbuffer::with_capacity(2);
    let a: Id = [1; 8];
    let b: Id = [2; 8];
    let c: Id = [3; 8];
    assert!(!r.contains(&a));
    r.push(a);
    assert!(r.contains(&a));
    r.push(b);
    assert!(r.contains(&a) && r.contains(&b));
    r.push(c);
    assert!(!r.contains(&a));
    assert!(r.contains(&b) && r.contains(&c));
}

#[test]
fn ether_type_values() {
    assert_eq!(EtherType::Experimental1.bytes(), [0x88, 0xb5]);
    assert_eq!(EtherType::Experimental2.bytes(), [0x88, 0xb6]);
    assert_eq!(EtherType::IPv4.bytes(), [0x08, 0x00]);
    assert_eq!(
        EtherType::iter(),
        vec![EtherType::Experimental1, EtherType::Experimental2, EtherType::IPv4]
    );
    assert_eq!(EtherType::default(), EtherType::Experimental1);
    assert_eq!(EtherType::IPv4.label(), "ipv4 - 0x0800");
    assert_eq!(EtherType::Experimental2.label(), "experimental 2 - 0x88b6");
}

#[test]
fn packet_round_trips() {
    let packets = vec![
        Packet::Message {
            author: [1, 2, 3, 4, 5, 6, 7, 8],
            channel: "general".to_string(),
            message: "the quick brown fox, ünïcödé ✓".to_string(),
        },
        Packet::PresenceReq,
        Packet::Presence([9; 8], true, "bob".to_string()),
        Packet::Presence([9; 8], false, "".to_string()),
        Packet::Disconnect([4; 8]),
        Packet::Reaction([5; 8], '🎉'),
    ];
    for p in packets {
        let data = p.serialize();
        assert_eq!(Packet::deserialize(p.tag(), &data), Some(p));
    }
}

#[test]
fn packet_layouts() {
    assert_eq!(Packet::PresenceReq.serialize(), Vec::<u8>::new());
    assert_eq!(Packet::Disconnect([4; 8]).serialize(), vec![4; 8]);
    let mut expected = vec![9; 8];
    expected.push(1);
    expected.extend_from_slice(b"bob");
    assert_eq!(Packet::Presence([9; 8], true, "bob".to_string()).serialize(), expected);
    let mut expected = vec![5; 8];
    expected.extend_from_slice(&[0x00, 0x01, 0xF3, 0x89]);
    assert_eq!(Packet::Reaction([5; 8], '🎉').serialize(), expected);
    let tags: Vec<u8> = vec![
        Packet::Message { author: [0; 8], channel: String::new(), message: String::new() }.tag(),
        Packet::PresenceReq.tag(),
        Packet::Presence([0; 8], false, String::new()).tag(),
        Packet::Disconnect([0; 8]).tag(),
        Packet::Reaction([0; 8], 'a').tag(),
    ];
    assert_eq!(tags, vec![0, 1, 2, 3, 4]);
}

#[test]
fn message_body_is_compressed() {
    let p = Packet::Message { author: [0; 8], channel: "c".to_string(), message: "hi".to_string() };
    let data = p.serialize();
    let body = &data[17..];
    assert_eq!(body, smaz::compress(b"hi").as_slice());
    assert_ne!(body, b"hi");
}

#[test]
fn deserialize_rejects_malformed() {
    assert_eq!(Packet::deserialize(2, &[1; 8]), None);
    assert_eq!(Packet::deserialize(2, &[1, 1, 1, 1, 1, 1, 1, 1, 1, 0xff]), None);
    assert_eq!(Packet::deserialize(3, &[1; 7]), None);
    assert_eq!(Packet::deserialize(3, &[1; 9]), None);
    assert_eq!(Packet::deserialize(4, &[0, 0, 0, 0, 0, 0, 0, 0, 0x00, 0x00, 0xD8, 0x00]), None);
    assert_eq!(Packet::deserialize(4, &[0; 11]), None);
    assert_eq!(Packet::deserialize(9, &[0; 8]), None);
    assert_eq!(Packet::deserialize(0, &[0; 15]), None);
    let mut long_channel = vec![0; 8];
    long_channel.extend_from_slice(&[0, 0, 0, 0, 0, 0, 0, 5]);
    long_channel.extend_from_slice(b"abc");
    assert_eq!(Packet::deserialize(0, &long_channel), None);
    let mut dangling = vec![0; 16];
    dangling.push(254);
    assert_eq!(Packet::deserialize(0, &dangling), None);
    let mut dangling = vec![0; 16];
    dangling.push(255);
    assert_eq!(Packet::deserialize(0, &dangling), None);
    assert_eq!(Packet::deserialize(1, b"."), Some(Packet::PresenceReq));
    assert_eq!(
        Packet::deserialize(2, &[1, 1, 1, 1, 1, 1, 1, 1, 7, b'a']),
        Some(Packet::Presence([1; 8], true, "a".to_string()))
    );
}

#[test]
fn deserialize_message_from_wire_bytes() {
    let mut data = vec![3; 8];
    data.extend_from_slice(&[0, 0, 0, 0, 0, 0, 0, 2]);
    data.extend_from_slice(b"ch");
    data.extend_from_slice(&smaz::compress(b"hello there"));
    assert_eq!(
        Packet::deserialize(0, &data),
        Some(Packet::Message {
            author: [3; 8],
            channel: "ch".to_string(),
            message: "hello there".to_string(),
        })
    );
}

#[test]
fn first_frame_layout() {
    let c = channel();
    let id: Id = [1, 2, 3, 4, 5, 6, 7, 8];
    let p = Packet::Message { author: [0; 8], channel: String::new(), message: "hi".to_string() };
    let frames = c.encode(&p, id).unwrap();
    assert_eq!(frames.len(), 1);
    let f = &frames[0];
    let hi = smaz::compress(b"hi");
    let l = 14 + 16 + hi.len();
    assert_eq!(&f[0..6], &[0xff; 6]);
    assert_eq!(&f[6..12], &MAC);
    assert_eq!(&f[12..14], &[0x08, 0x06]);
    let arp = &f[14..];
    assert_eq!(&arp[0..8], &[0x00, 0x01, 0x88, 0xb5, 0x06, l as u8, 0x00, 0x01]);
    assert_eq!(&arp[8..14], &MAC);
    let mut app = vec![0x75, 0x77, 0x75, 0x00, 0x00, 0x00];
    app.extend_from_slice(&id);
    app.extend_from_slice(&[0; 16]);
    app.extend_from_slice(&hi);
    assert_eq!(&arp[14..14 + l], app.as_slice());
    assert_eq!(&arp[14 + l..20 + l], &[0; 6]);
    assert_eq!(&arp[20 + l..], app.as_slice());
    assert_eq!(arp.len(), 20 + 2 * l);
}

#[test]
fn frame_round_trip() {
    let id: Id = [9, 8, 7, 6, 5, 4, 3, 2];
    let f = encode_frame(&MAC, EtherType::IPv4, 2, 1, 3, &id, b"abc").unwrap();
    assert_eq!(&f[14 + 2..14 + 4], &[0x08, 0x00]);
    assert_eq!(
        parse_frame(&f),
        Some(Fragment { tag: 2, seq: 1, total: 3, id, inner: b"abc".to_vec() })
    );
}

#[test]
fn magic_gate_drops_foreign_frames() {
    let id: Id = [1; 8];
    let good = encode_frame(&MAC, EtherType::Experimental1, 3, 0, 0, &id, &[4; 8]).unwrap();
    assert!(parse_frame(&good).is_some());
    let tweaks: Vec<(usize, u8)> = vec![(12, 0x09), (13, 0x00), (15, 0x02), (18, 4), (21, 2), (28, b'o')];
    for (at, value) in tweaks {
        let mut bad = good.clone();
        bad[at] = value;
        assert_eq!(parse_frame(&bad), None, "byte {at}");
        let mut rx = channel();
        assert_eq!(rx.try_recv(&bad), None);
        assert_eq!(rx.try_recv(&good), Some(Packet::Disconnect([4; 8])));
    }
    assert_eq!(parse_frame(&good[..20]), None);
    assert_eq!(parse_frame(&[]), None);
}

#[test]
fn single_fragment_delivery() {
    let tx = channel();
    let mut rx = channel();
    let p = Packet::Presence([3; 8], false, "carol".to_string());
    let frames = tx.send(&p).unwrap();
    assert_eq!(frames.len(), 1);
    assert_eq!(rx.try_recv(&frames[0]), Some(p));
}

#[test]
fn empty_payload_uses_placeholder() {
    let tx = channel();
    let frames = tx.encode(&Packet::PresenceReq, [6; 8]).unwrap();
    assert_eq!(frames.len(), 1);
    let frag = parse_frame(&frames[0]).unwrap();
    assert_eq!((frag.tag, frag.seq, frag.total), (1, 0, 0));
    assert_eq!(frag.inner, b".".to_vec());
    let mut rx = channel();
    assert_eq!(rx.try_recv(&frames[0]), Some(Packet::PresenceReq));
}

#[test]
fn five_hundred_bytes_in_any_order() {
    let tx = channel();
    let p = presence_of_len(500);
    assert_eq!(p.serialize().len(), 500);
    let frames = tx.encode(&p, [0xab; 8]).unwrap();
    assert_eq!(frames.len(), 3);
    for (i, f) in frames.iter().enumerate() {
        let frag = parse_frame(f).unwrap();
        assert_eq!(frag.seq as usize, i);
        assert_eq!(frag.total, 2);
    }
    for order in [[0, 1, 2], [2, 0, 1], [1, 2, 0], [2, 1, 0]] {
        let mut rx = channel();
        let got = deliver(&mut rx, &frames, &order);
        assert_eq!(got, vec![None, None, Some(p.clone())]);
    }
}

#[test]
fn largest_and_too_long_packets() {
    let tx = channel();
    let p = presence_of_len(241 * 256);
    let frames = tx.encode(&p, [1; 8]).unwrap();
    assert_eq!(frames.len(), 256);
    let mut rx = channel();
    let order: Vec<usize> = (0..256).rev().collect();
    let got = deliver(&mut rx, &frames, &order);
    assert_eq!(got[255], Some(p));
    assert!(got[..255].iter().all(|g| g.is_none()));
    let too_long = presence_of_len(241 * 256 + 1);
    assert_eq!(tx.encode(&too_long, [1; 8]), Err(ArpchatError::PacketTooLong));
    assert_eq!(tx.send(&too_long), Err(ArpchatError::PacketTooLong));
}

#[test]
fn duplicates_are_delivered_once() {
    let tx = channel();
    let mut rx = channel();
    let p = presence_of_len(300);
    let frames = tx.encode(&p, [2; 8]).unwrap();
    let first = deliver(&mut rx, &frames, &[0, 1]);
    assert_eq!(first, vec![None, Some(p.clone())]);
    let second = deliver(&mut rx, &frames, &[0, 1]);
    assert_eq!(second, vec![None, None]);
}

#[test]
fn distinct_packet_after_ring_capacity_is_delivered() {
    let tx = channel();
    let mut rx = channel();
    let p = Packet::Disconnect([8; 8]);
    for k in 0..20u8 {
        let frames = tx.encode(&p, [k; 8]).unwrap();
        assert_eq!(rx.try_recv(&frames[0]), Some(p.clone()));
    }
    let q = Packet::Presence([1; 8], true, "later".to_string());
    let frames = tx.encode(&q, [200; 8]).unwrap();
    assert_eq!(rx.try_recv(&frames[0]), Some(q));
}

#[test]
fn colliding_ids_do_not_stop_reception() {
    let tx = channel();
    let mut rx = channel();
    let a = presence_of_len(400);
    let b = Packet::Presence([2; 8], false, "y".repeat(391));
    let fa = tx.encode(&a, [5; 8]).unwrap();
    let fb = tx.encode(&b, [5; 8]).unwrap();
    assert_eq!(fa.len(), 2);
    assert_eq!(fb.len(), 2);
    let _ = rx.try_recv(&fa[0]);
    let _ = rx.try_recv(&fb[1]);
    let _ = rx.try_recv(&fb[0]);
    let _ = rx.try_recv(&fa[1]);
    let c = Packet::Disconnect([3; 8]);
    let fc = tx.encode(&c, [6; 8]).unwrap();
    assert_eq!(rx.try_recv(&fc[0]), Some(c));
}

#[test]
fn mismatched_totals_are_ignored() {
    let mut r = Reassembler::new();
    let id: Id = [4; 8];
    let one = Fragment { tag: 3, seq: 0, total: 1, id, inner: vec![1; 4] };
    assert_eq!(r.accept(one), None);
    let clash = Fragment { tag: 3, seq: 0, total: 0, id, inner: vec![1; 8] };
    assert_eq!(r.accept(clash), None);
    let beyond = Fragment { tag: 3, seq: 2, total: 1, id: [9; 8], inner: vec![1; 8] };
    assert_eq!(r.accept(beyond), None);
    let two = Fragment { tag: 3, seq: 1, total: 1, id, inner: vec![2; 4] };
    assert_eq!(r.accept(two), Some(Packet::Disconnect([1, 1, 1, 1, 2, 2, 2, 2])));
}

#[test]
fn failed_decoding_keeps_entry() {
    let mut r = Reassembler::new();
    let id: Id = [4; 8];
    let bad = Fragment { tag: 3, seq: 0, total: 0, id, inner: vec![1; 5] };
    assert_eq!(r.accept(bad), None);
    let good = Fragment { tag: 3, seq: 0, total: 0, id, inner: vec![1; 8] };
    assert_eq!(r.accept(good), Some(Packet::Disconnect([1; 8])));
}

#[test]
fn fresh_ids_per_send() {
    let tx = channel();
    let a = tx.send(&Packet::PresenceReq).unwrap();
    let b = tx.send(&Packet::PresenceReq).unwrap();
    let ia = parse_frame(&a[0]).unwrap().id;
    let ib = parse_frame(&b[0]).unwrap().id;
    assert_ne!(ia, ib);
}

#[test]
fn missing_mac_is_refused() {
    assert!(matches!(Channel::from_interface(None), Err(ArpchatError::NoMAC)));
}

#[test]
fn ether_type_switch_applies_to_frames() {
    let mut c = channel();
    c.set_ether_type(EtherType::Experimental2);
    assert_eq!(c.ether_type(), EtherType::Experimental2);
    let frames = c.encode(&Packet::PresenceReq, [0; 8]).unwrap();
    assert_eq!(&frames[0][16..18], &[0x88, 0xb6]);
}

#[test]
fn deserialize_takes_any_length() {
    let mut data = vec![1; 8];
    data.extend_from_slice(&[0; 8]);
    data.extend(std::iter::repeat(0u8).take(70_000));
    let expected: String = " ".repeat(70_000);
    assert_eq!(
        Packet::deserialize(0, &data),
        Some(Packet::Message { author: [1; 8], channel: String::new(), message: expected })
    );
    assert_eq!(Packet::deserialize(3, &vec![0; 70_000]), None);
}
