use pcap_engine::capture::{apply_block, Format, Interface, NgReader, PacketIndex};
use pcap_engine::pcapfile::NgBlock;

fn empty() -> PacketIndex {
    PacketIndex {
        format: Format::PcapNg,
        ts_sec: vec![],
        ts_nsec: vec![],
        orig_len: vec![],
        cap_len: vec![],
        offset: vec![],
        linktype: vec![],
        proto: vec![],
        ip_version: vec![],
        src_port: vec![],
        dst_port: vec![],
        detail: vec![],
        addr: vec![],
        complete: true,
        issues: vec![],
    }
}

fn reader() -> NgReader {
    NgReader { big_endian: false, interfaces: vec![], warned: false }
}

/// A block image: 28 header bytes, the packet, 4 trailing bytes.
fn image(packet: &[u8]) -> Vec<u8> {
    let mut d = vec![0u8; 28];
    d.extend_from_slice(packet);
    d.extend_from_slice(&[0, 0, 0, 0]);
    d
}

#[test]
fn interface_then_packet_uses_its_clock_and_link_type() {
    let data = image(&[0xaa; 10]);
    let mut idx = empty();
    let mut rd = reader();
    assert!(apply_block(&mut idx, &mut rd, &data, 0, 0, NgBlock::Interface(127, 9, 5)));
    assert_eq!(rd.interfaces.len(), 1);
    assert_eq!((rd.interfaces[0].linktype, rd.interfaces[0].resolution, rd.interfaces[0].offset_secs), (127, 1_000_000_000, 5));
    assert!(apply_block(&mut idx, &mut rd, &data, 0, 0, NgBlock::Enhanced(0, 0, 3_000_000_007, 10, 60, 10)));
    assert_eq!((idx.ts_sec[0], idx.ts_nsec[0]), (8, 7));
    assert_eq!((idx.offset[0], idx.cap_len[0], idx.orig_len[0], idx.linktype[0]), (28, 10, 60, 127));
    assert!(idx.issues.is_empty());
}

#[test]
fn packet_for_an_undeclared_interface_warns_once() {
    let data = image(&[0xbb; 8]);
    let mut idx = empty();
    let mut rd = reader();
    assert!(apply_block(&mut idx, &mut rd, &data, 0, 0, NgBlock::Enhanced(3, 0, 2_500_000, 8, 8, 8)));
    assert!(apply_block(&mut idx, &mut rd, &data, 0, 0, NgBlock::Enhanced(3, 0, 2_500_000, 8, 8, 8)));
    assert_eq!(idx.issues, vec!["Packet refers to an undeclared interface; using defaults".to_string()]);
    assert!(rd.warned);
    assert_eq!((idx.ts_sec[0], idx.ts_nsec[0], idx.linktype[0]), (2, 500_000_000, 0));
    assert!(idx.complete);
}

#[test]
fn padding_is_not_counted_as_captured_bytes() {
    let data = image(&[1, 2, 3, 4, 5, 0, 0, 0]);
    let mut idx = empty();
    let mut rd = reader();
    assert!(apply_block(&mut idx, &mut rd, &data, 0, 0, NgBlock::Enhanced(0, 0, 0, 5, 5, 8)));
    assert_eq!(idx.cap_len, vec![5]);
}

#[test]
fn unusable_resolution_falls_back_to_microseconds() {
    let data = image(&[]);
    let mut idx = empty();
    let mut rd = reader();
    assert!(apply_block(&mut idx, &mut rd, &data, 0, 0, NgBlock::Interface(1, 20, 0)));
    assert_eq!(rd.interfaces[0].resolution, 1_000_000);
    assert_eq!(idx.issues, vec!["Interface has an invalid timestamp resolution; assuming microseconds".to_string()]);
    assert!(apply_block(&mut idx, &mut rd, &data, 0, 0, NgBlock::Interface(1, 0x8a, 0)));
    assert_eq!(rd.interfaces[1].resolution, 1_000_000);
    assert!(apply_block(&mut idx, &mut rd, &data, 0, 0, NgBlock::Interface(1, 3, 0)));
    assert_eq!(rd.interfaces[2].resolution, 1_000);
}

#[test]
fn a_section_resets_interfaces_and_picks_the_byte_order() {
    let data = image(&[]);
    let mut idx = empty();
    let mut rd = reader();
    rd.interfaces.push(Interface { linktype: 1, resolution: 1_000_000, offset_secs: 0 });
    assert!(apply_block(&mut idx, &mut rd, &data, 0, 0, NgBlock::Section(0x4d3c_2b1a)));
    assert!(rd.big_endian);
    assert!(rd.interfaces.is_empty());
    assert!(apply_block(&mut idx, &mut rd, &data, 0, 0, NgBlock::Section(0x1a2b_3c4d)));
    assert!(!rd.big_endian);
    assert!(apply_block(&mut idx, &mut rd, &data, 0, 0, NgBlock::Other));
    assert!(idx.ts_sec.is_empty());
}

#[test]
fn simple_packets_have_no_timestamp_and_use_interface_zero() {
    let mut data = vec![0u8; 12];
    data.extend_from_slice(&[9u8; 6]);
    data.extend_from_slice(&[0, 0, 0, 0]);
    let mut idx = empty();
    let mut rd = reader();
    rd.interfaces.push(Interface { linktype: 105, resolution: 1_000_000, offset_secs: 0 });
    assert!(apply_block(&mut idx, &mut rd, &data, 0, 0, NgBlock::Simple(100, 6)));
    assert_eq!((idx.ts_sec[0], idx.ts_nsec[0]), (0, 0));
    assert_eq!((idx.offset[0], idx.cap_len[0], idx.orig_len[0], idx.linktype[0]), (12, 6, 100, 105));
}
