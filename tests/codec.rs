use libdb::codec::{get_u32, get_u64, put_u32, put_u64};
use libdb::index::{ceil_sqrt, round_up_to_page};
use libdb::table::{FragmentDescriptor, Header};

#[test]
fn integers_are_little_endian() {
    let mut buf = Vec::new();
    put_u64(&mut buf, 0x0102_0304_0506_0708);
    put_u32(&mut buf, 0xAABB_CCDD);
    assert_eq!(buf, vec![8, 7, 6, 5, 4, 3, 2, 1, 0xDD, 0xCC, 0xBB, 0xAA]);
    assert_eq!(get_u64(&buf, 0), 0x0102_0304_0506_0708);
    assert_eq!(get_u32(&buf, 8), 0xAABB_CCDD);
}

#[test]
fn header_round_trip() {
    let h = Header { version: 3, root_fragment: 77, fragment_table_offset: 4096 };
    let bytes = h.encode();
    assert_eq!(bytes.len(), 24);
    assert_eq!(bytes[0..4], *b"RWFS");
    assert_eq!(bytes[16..24], 4096u64.to_le_bytes());
    assert_eq!(Header::decode(&bytes), Ok(h));
}

#[test]
fn descriptor_round_trip() {
    let d = FragmentDescriptor { id: 1, sequence: 2, offset: 8192, length: 4096 };
    let mut buf = vec![0xEE];
    d.encode_into(&mut buf);
    assert_eq!(buf.len(), 33);
    assert_eq!(buf[17..25], 8192u64.to_le_bytes());
    assert_eq!(FragmentDescriptor::decode(&buf, 1), d);
}

#[test]
fn page_rounding_and_roots() {
    assert_eq!(round_up_to_page(0), Some(0));
    assert_eq!(round_up_to_page(1), Some(4096));
    assert_eq!(round_up_to_page(4096), Some(4096));
    assert_eq!(round_up_to_page(5000), Some(8192));
    assert_eq!(round_up_to_page(u64::MAX), None);
    assert_eq!(ceil_sqrt(0), 0);
    assert_eq!(ceil_sqrt(4096), 64);
    assert_eq!(ceil_sqrt(4097), 65);
    assert_eq!(ceil_sqrt(8192), 91);
}
