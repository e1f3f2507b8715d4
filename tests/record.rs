use libdb::backing::MemoryBacking;
use libdb::error::{Error, FragmentError};
use libdb::fragment::{AllocOptions, SeekFrom};
use libdb::record::Fragment;
use libdb::section::BoundedSection;
use libdb::store::{FragmentStore, RWFragmentStore};
use libdb::index::RWFragmentStoreIndex;
use libdb::table::{FragmentDescriptor, FragmentTablePart, Header, KnownSize, Storage};
use libdb::Database;

#[test]
fn payload_record_round_trip() {
    let mut f = Fragment { id: 5, hash: vec![1; 32], timestamp: 1_700_000_000_000, sequence: 3, data: b"payload".to_vec() };
    let mut b = MemoryBacking::new(Vec::new());
    b.seek_to(10);
    f.write(&mut b).unwrap();
    assert_eq!(f.sequence, 4);
    assert_eq!(f.hash, vec![0; 32]);
    let bytes = b.get_ref().clone();
    assert_eq!(bytes.len(), 10 + 84 + 7);
    assert_eq!(bytes[10..14], *b"FRAG");
    assert_eq!(bytes[14..22], 5u64.to_le_bytes());
    assert_eq!(bytes[22..30], 4u64.to_le_bytes());
    assert_eq!(bytes[62..70], 1_700_000_000_000u64.to_le_bytes());
    assert_eq!(bytes[70..78], 7u64.to_le_bytes());
    assert_eq!(bytes[94..101], *b"payload");
    b.seek_to(10);
    let g = Fragment::read(&mut b).unwrap();
    assert_eq!(g, f);
}

#[test]
fn payload_record_errors() {
    let mut b = MemoryBacking::new(vec![0; 100]);
    assert_eq!(Fragment::read(&mut b), Err(Error::Fragment(FragmentError::InvalidMagic)));
    let mut b = MemoryBacking::new(vec![0; 20]);
    assert_eq!(Fragment::read(&mut b), Err(Error::Decode));
    let mut f = Fragment { id: 1, hash: vec![0; 32], timestamp: 0, sequence: 0, data: b"abc".to_vec() };
    let mut b = MemoryBacking::new(Vec::new());
    f.write(&mut b).unwrap();
    let mut bytes = b.into_inner();
    bytes[60..68].copy_from_slice(&2u64.to_le_bytes());
    let mut b = MemoryBacking::new(bytes.clone());
    assert_eq!(Fragment::read(&mut b), Err(Error::Fragment(FragmentError::LengthExceedsCapacity)));
    bytes[60..68].copy_from_slice(&10u64.to_le_bytes());
    let mut b = MemoryBacking::new(bytes);
    assert_eq!(Fragment::read(&mut b), Err(Error::Decode));
    let mut f = Fragment { id: 1, hash: vec![0; 32], timestamp: 0, sequence: u64::MAX, data: Vec::new() };
    assert!(f.write(&mut MemoryBacking::new(Vec::new())).is_err());
    let f = Fragment { id: 1, hash: vec![3; 32], timestamp: 0, sequence: 0, data: Vec::new() };
    assert_eq!(f.compute_hash(), vec![0; 32]);
    assert_eq!(f.clone().validate_hash(), Ok(f));
}

#[test]
fn known_sizes() {
    assert_eq!(<FragmentDescriptor as KnownSize>::size(), 32);
    assert_eq!(<Header as KnownSize>::size(), 24);
    assert_eq!(<FragmentTablePart as KnownSize>::size(), 24);
    assert_eq!(<Fragment as KnownSize>::size(), 84);
}

#[test]
fn bounded_section_stays_inside() {
    let mut inner = MemoryBacking::new(vec![0; 64]);
    let mut s = BoundedSection::new(&mut inner, 16, 8).unwrap();
    assert_eq!(inner.stream_position(), 16);
    assert_eq!(s.clamp_len(100), 8);
    assert_eq!(s.write(&mut inner, b"0123456789"), Ok(8));
    assert_eq!(inner.get_ref()[16..25], *b"01234567\0");
    assert_eq!(s.write(&mut inner, b"x"), Ok(0));
    assert_eq!(s.seek(&mut inner, SeekFrom::Start(2)), Ok(2));
    assert_eq!(inner.stream_position(), 18);
    assert_eq!(s.read(&mut inner, 100), b"234567".to_vec());
    assert!(s.seek(&mut inner, SeekFrom::Start(9)).is_err());
    assert_eq!(s.seek(&mut inner, SeekFrom::End(-8)), Ok(0));
    assert!(s.seek(&mut inner, SeekFrom::Current(-1)).is_err());
    s.flush(&mut inner);
    assert!(BoundedSection::new(&mut inner, u64::MAX, 2).is_err());
}

#[test]
fn store_trait_and_mutable_access() {
    let store = RWFragmentStore::blank(MemoryBacking::new(Vec::new())).unwrap();
    let h = FragmentStore::open_fragment(&store, 0).unwrap();
    assert_eq!(h.id, 0);
    assert!(FragmentStore::open_fragment(&store, 3).is_err());
    let mut db = Database::new(store.backing).unwrap();
    let mut h = db.data_source_mut().new_fragment(AllocOptions::default().size_hint(3)).unwrap();
    h.write_all(db.data_source_mut(), b"abc").unwrap();
    h.done(db.data_source_mut()).unwrap();
    assert_eq!(db.data_source().header.fragment_table().len(), 2);
    db.backing_mut().seek_to(5);
    assert_eq!(db.backing().stream_position(), 5);
    let mut r = db.open_fragment(1).unwrap();
    let data = r.read_to_end(db.data_source_mut()).unwrap();
    assert_eq!(data[..3], *b"abc");
}

#[test]
fn storage_trait_reads_and_writes() {
    let store = RWFragmentStore::blank(MemoryBacking::new(Vec::new())).unwrap();
    let mut backing = store.backing;
    let mut idx = <RWFragmentStoreIndex as Storage>::read(&mut backing).unwrap();
    assert_eq!(idx.end, 12288);
    let mut copy = MemoryBacking::new(Vec::new());
    <RWFragmentStoreIndex as Storage>::write(&mut idx, &mut copy).unwrap();
    assert_eq!(copy.get_ref()[0..24], backing.get_ref()[0..24]);
    assert_eq!(copy.get_ref()[4096..4152], backing.get_ref()[4096..4152]);
    let mut f = Fragment { id: 2, hash: vec![0; 32], timestamp: 9, sequence: 0, data: b"z".to_vec() };
    let mut b = MemoryBacking::new(Vec::new());
    <Fragment as Storage>::write(&mut f, &mut b).unwrap();
    b.seek_to(0);
    let g = <Fragment as Storage>::read(&mut b).unwrap();
    assert_eq!((g.id, g.sequence, g.timestamp, g.data), (2, 1, 9, b"z".to_vec()));
}

#[test]
fn bounded_section_accepts_any_start_within_span() {
    let mut inner = MemoryBacking::new(vec![0; 8]);
    let mut s = BoundedSection::new(&mut inner, 0, u64::MAX).unwrap();
    assert_eq!(s.seek(&mut inner, SeekFrom::Start(u64::MAX - 1)), Ok(u64::MAX - 1));
    let mut t = BoundedSection::new(&mut inner, 0, 4).unwrap();
    assert!(t.seek(&mut inner, SeekFrom::Start(5)).is_err());
}
