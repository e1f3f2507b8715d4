use libdb::backing::MemoryBacking;
use libdb::error::{Error, FragmentError, IoErrorKind};
use libdb::fragment::{AllocOptions, FragmentType, InlineBuffer, SeekFrom};
use libdb::index::FreeExtent;
use libdb::store::RWFragmentStore;
use libdb::table::{FragmentDescriptor, FragmentTablePart, Header};
use libdb::{Danger, Database};

fn desc(id: u64, sequence: u64, offset: u64, length: u64) -> FragmentDescriptor {
    FragmentDescriptor { id, sequence, offset, length }
}

/// A stream holding a header at 0 and one chunk at `table` with the given descriptors.
fn container(root: u64, table: u64, capacity: u64, descriptors: Vec<FragmentDescriptor>) -> MemoryBacking {
    let mut b = MemoryBacking::new(Vec::new());
    let header = Header { version: 0, root_fragment: root, fragment_table_offset: table };
    b.write_bytes(&header.encode()).unwrap();
    let part = FragmentTablePart { offset: table, continuation: 0, capacity, fragments: descriptors };
    b.seek_to(table);
    b.write_bytes(&part.encode()).unwrap();
    b
}

fn blank() -> RWFragmentStore {
    RWFragmentStore::blank(MemoryBacking::new(vec![0; 16 * 1024])).unwrap()
}

#[test]
fn blank_layout() {
    let store = blank();
    let bytes = store.backing.get_ref();
    assert_eq!(bytes[0..4], *b"RWFS");
    assert_eq!(store.header.fragment_table_offset, 4096);
    assert_eq!(store.header.fragment_table(), vec![desc(0, 0, 8192, 4096)]);
    assert_eq!(store.header.end, 12288);
    assert!(store.header.free_space.is_empty());
    assert_eq!(bytes[4096..4104], 0u64.to_le_bytes());
    assert_eq!(bytes[4104..4112], 127u64.to_le_bytes());
    assert_eq!(bytes[4112..4120], 1u64.to_le_bytes());
}

#[test]
fn blank_then_open() {
    let store = blank();
    let reopened = RWFragmentStore::new(store.backing).unwrap();
    assert_eq!(reopened.header.fragment_table(), vec![desc(0, 0, 8192, 4096)]);
    assert_eq!(reopened.header.end, 12288);
    assert_eq!(reopened.header.version, 0);
    assert_eq!(reopened.header.root_fragment, 0);
    assert!(reopened.header.free_space.is_empty());
    let fresh = RWFragmentStore::blank(MemoryBacking::new(Vec::new())).unwrap();
    let reopened = RWFragmentStore::new(fresh.backing).unwrap();
    assert_eq!(reopened.header.fragment_table().len(), 1);
}

#[test]
fn sized_fragment_lands_after_reserved_page() {
    let mut store = blank();
    let mut h = store.new_fragment(AllocOptions::default().size_hint(100)).unwrap();
    h.write_all(&mut store, b"hello world").unwrap();
    h.done(&mut store).unwrap();
    assert_eq!(store.backing.get_ref()[12288..12299], *b"hello world");
    assert_eq!(store.header.fragment_table()[1], desc(1, 1, 12288, 4096));
}

#[test]
fn dynamic_fragment_promotes_past_threshold() {
    let mut store = blank();
    let prior_end = store.header.end;
    let mut h = store.new_fragment(AllocOptions::default()).unwrap();
    let first = vec![1u8; 3000];
    let second = vec![2u8; 2000];
    assert_eq!(h.write(&mut store, &first), Ok(3000));
    assert!(matches!(h.fragment_type, FragmentType::Dynamic(ref d) if matches!(d.buffer, InlineBuffer::Buffered(_))));
    assert_eq!(h.write(&mut store, &second), Ok(2000));
    let ptr = match h.fragment_type {
        FragmentType::Dynamic(ref d) => match d.buffer {
            InlineBuffer::WriteThrough(p, n) => {
                assert_eq!(n, 5000);
                p
            }
            _ => panic!("still buffered"),
        },
        _ => panic!("not dynamic"),
    };
    assert!(ptr >= prior_end);
    assert_eq!(ptr % 4096, 0);
    assert_eq!(h.read(&mut store, 10), Err(Error::Io(IoErrorKind::Unsupported)));
    assert_eq!(h.seek(SeekFrom::Start(5000)), Ok(5000));
    assert_eq!(h.seek(SeekFrom::Start(10)), Err(Error::Io(IoErrorKind::InvalidInput)));
    h.done(&mut store).unwrap();
    let t = store.header.fragment_table();
    assert_eq!(t.last().copied(), Some(desc(1, 1, ptr, 8192)));
    let bytes = store.backing.get_ref();
    let p = ptr as usize;
    assert_eq!(bytes[p..p + 3000], first[..]);
    assert_eq!(bytes[p + 3000..p + 5000], second[..]);
}

#[test]
fn dynamic_fragment_small_stays_buffered() {
    let mut store = blank();
    let mut h = store.new_fragment(AllocOptions::default()).unwrap();
    h.write_all(&mut store, b"Hello World!").unwrap();
    assert_eq!(h.size(), 12);
    h.seek(SeekFrom::Start(6)).unwrap();
    assert_eq!(h.read(&mut store, 100).unwrap(), b"World!".to_vec());
    h.done(&mut store).unwrap();
    assert_eq!(store.header.fragment_table()[1], desc(1, 1, 12288, 4096));
    assert_eq!(store.backing.get_ref()[12288..12300], *b"Hello World!");
}

#[test]
fn allocator_reuses_gap() {
    let backing = container(0, 20480, 127, vec![desc(0, 0, 4096, 4096), desc(1, 1, 12288, 4096)]);
    let mut store = RWFragmentStore::new(backing).unwrap();
    assert_eq!(store.header.free_space, vec![FreeExtent { size: 4096, ptr: 8192 }]);
    let end = store.header.end;
    assert_eq!(end, 24576);
    assert_eq!(store.header.allocate_fragment(4096), Ok((8192, 4096)));
    assert_eq!(store.header.end, end);
    assert!(store.header.free_space.is_empty());
    assert_eq!(store.header.allocate_fragment(1), Ok((24576, 4096)));
    assert_eq!(store.header.end, 28672);
}

#[test]
fn allocator_picks_best_fit() {
    let backing = container(
        0,
        65536,
        127,
        vec![desc(0, 0, 4096, 4096), desc(1, 1, 20480, 4096), desc(2, 1, 32768, 4096), desc(3, 1, 45056, 4096)],
    );
    let mut store = RWFragmentStore::new(backing).unwrap();
    assert_eq!(
        store.header.free_space,
        vec![
            FreeExtent { size: 12288, ptr: 8192 },
            FreeExtent { size: 8192, ptr: 24576 },
            FreeExtent { size: 8192, ptr: 36864 },
        ]
    );
    assert_eq!(store.header.allocate_fragment(5000), Ok((24576, 8192)));
    assert_eq!(store.header.allocate_fragment(9000), Ok((8192, 12288)));
    assert_eq!(store.header.allocate_fragment(100), Ok((36864, 8192)));
}

#[test]
fn gaps_round_down_to_pages() {
    let backing = container(0, 65536, 127, vec![desc(5, 1, 20480, 4096), desc(0, 0, 4096, 4096)]);
    let store = RWFragmentStore::new(backing).unwrap();
    assert_eq!(store.header.free_space, vec![FreeExtent { size: 12288, ptr: 8192 }]);
}

#[test]
fn repeated_writes_bump_sequence() {
    let mut store = blank();
    let mut h = store.new_fragment(AllocOptions::default().size_hint(5).fragment(7)).unwrap();
    h.write_all(&mut store, b"first").unwrap();
    h.done(&mut store).unwrap();
    let mut h = store.new_fragment(AllocOptions::default().size_hint(6).fragment(7)).unwrap();
    h.write_all(&mut store, b"second").unwrap();
    h.done(&mut store).unwrap();
    let t = store.header.fragment_table();
    assert_eq!((t[1].id, t[1].sequence), (7, 1));
    assert_eq!((t[2].id, t[2].sequence), (7, 2));
    let mut r = store.open_fragment(7).unwrap();
    assert_eq!(r.sequence, 2);
    let data = r.read_to_end(&mut store).unwrap();
    assert!(data.len() >= 6 && data.len() <= 4096);
    assert_eq!(data[..6], *b"second");
}

#[test]
fn next_id_is_one_past_largest_id() {
    let mut store = blank();
    let h = store.new_fragment(AllocOptions::default().fragment(9)).unwrap();
    assert_eq!((h.id, h.sequence), (9, 1));
    h.done(&mut store).unwrap();
    let h = store.new_fragment(AllocOptions::default()).unwrap();
    assert_eq!((h.id, h.sequence), (10, 1));
    let h = store.new_fragment(AllocOptions::default().fragment(9)).unwrap();
    assert_eq!((h.id, h.sequence), (9, 2));
}

#[test]
fn round_trip_through_reopen() {
    let mut store = blank();
    let payloads: Vec<(u64, Vec<u8>)> = vec![
        (3, b"alpha".to_vec()),
        (4, vec![7u8; 5000]),
        (3, b"beta, longer".to_vec()),
        (5, Vec::new()),
    ];
    for (id, p) in &payloads {
        let mut h = store.new_fragment(AllocOptions::default().size_hint(p.len() as u64).fragment(*id)).unwrap();
        h.write_all(&mut store, p).unwrap();
        h.done(&mut store).unwrap();
    }
    let mut store = RWFragmentStore::new(store.backing).unwrap();
    for (id, want) in [(3u64, b"beta, longer".to_vec()), (4, vec![7u8; 5000]), (5, Vec::new())] {
        let mut h = store.open_fragment(id).unwrap();
        let got = h.read_to_end(&mut store).unwrap();
        assert_eq!(got[..want.len()], want[..]);
        assert!(got[want.len()..].iter().all(|b| *b == 0));
        assert!(got.len() <= 8192);
    }
}

#[test]
fn reopen_rebuilds_same_free_space() {
    let backing = container(0, 65536, 127, vec![desc(0, 0, 4096, 4096), desc(1, 1, 20480, 4096)]);
    let mut store = RWFragmentStore::new(backing).unwrap();
    let mut h = store.new_fragment(AllocOptions::default().size_hint(4096)).unwrap();
    h.write_all(&mut store, b"x").unwrap();
    h.done(&mut store).unwrap();
    let before: Vec<FragmentDescriptor> = store.header.fragment_table();
    assert_eq!(before[2], desc(2, 1, 8192, 12288));
    let reopened = RWFragmentStore::new(store.backing).unwrap();
    assert_eq!(reopened.header.fragment_table(), before);
    assert!(reopened.header.free_space.is_empty());
    let backing = container(0, 65536, 127, vec![desc(0, 0, 4096, 4096), desc(1, 1, 20480, 4096), desc(2, 1, 36864, 4096)]);
    let mut store = RWFragmentStore::new(backing).unwrap();
    let mut h = store.new_fragment(AllocOptions::default().size_hint(4096)).unwrap();
    h.write_all(&mut store, b"y").unwrap();
    h.done(&mut store).unwrap();
    let remaining = store.header.free_space.clone();
    assert_eq!(remaining.len(), 1);
    let reopened = RWFragmentStore::new(store.backing).unwrap();
    assert_eq!(reopened.header.free_space, remaining);
}

#[test]
fn copy_on_write_from_read_only() {
    let mut store = blank();
    let mut h = store.new_fragment(AllocOptions::default().size_hint(10).fragment(2)).unwrap();
    h.write_all(&mut store, b"0123456789").unwrap();
    h.done(&mut store).unwrap();
    let mut r = store.open_fragment(2).unwrap();
    r.seek(SeekFrom::Start(4)).unwrap();
    r.write_all(&mut store, b"xy").unwrap();
    assert!(matches!(r.fragment_type, FragmentType::Sized(_)));
    r.done(&mut store).unwrap();
    let t = store.header.fragment_table();
    assert_eq!(t.len(), 3);
    assert_eq!((t[1].id, t[1].sequence), (2, 1));
    assert_eq!((t[2].id, t[2].sequence), (2, 2));
    assert_ne!(t[1].offset, t[2].offset);
    let mut latest = store.open_fragment(2).unwrap();
    let data = latest.read_to_end(&mut store).unwrap();
    assert_eq!(data[..10], *b"0123xy6789");
}

#[test]
fn table_grows_new_chunk() {
    let mut store = blank();
    for i in 0..127u64 {
        let h = store.new_fragment(AllocOptions::default().size_hint(1).fragment(100 + i)).unwrap();
        h.done(&mut store).unwrap();
    }
    assert_eq!(store.header.fragment_table_parts.len(), 2);
    assert_eq!(store.header.fragment_table_parts[0].fragments.len(), 127);
    assert_eq!(store.header.fragment_table_parts[1].fragments.len(), 1);
    let second = store.header.fragment_table_parts[1].offset;
    assert_eq!(store.header.fragment_table_parts[0].continuation, second);
    assert_eq!(second % 4096, 0);
    assert_eq!(store.header.fragment_table_parts[1].capacity, 127);
    let count = store.header.fragment_table().len();
    let reopened = RWFragmentStore::new(store.backing).unwrap();
    assert_eq!(reopened.header.fragment_table().len(), count);
    assert_eq!(reopened.header.fragment_table_parts.len(), 2);
}

#[test]
fn open_errors() {
    assert_eq!(RWFragmentStore::new(MemoryBacking::new(vec![0; 10])).err(), Some(Error::Decode));
    assert_eq!(
        RWFragmentStore::new(MemoryBacking::new(vec![0; 1024])).err(),
        Some(Error::Fragment(FragmentError::InvalidMagic))
    );
    let overlapping = container(0, 20480, 127, vec![desc(0, 0, 4096, 8192), desc(1, 1, 8192, 4096)]);
    assert_eq!(
        RWFragmentStore::new(overlapping).err(),
        Some(Error::Fragment(FragmentError::InvalidFragmentTable))
    );
    let over_chunk = container(0, 20480, 127, vec![desc(0, 0, 20480, 4096)]);
    assert_eq!(
        RWFragmentStore::new(over_chunk).err(),
        Some(Error::Fragment(FragmentError::InvalidFragmentTable))
    );
    let over_header = container(0, 20480, 127, vec![desc(0, 0, 0, 4096)]);
    assert_eq!(
        RWFragmentStore::new(over_header).err(),
        Some(Error::Fragment(FragmentError::InvalidFragmentTable))
    );
    let unaligned = container(0, 20480, 127, vec![desc(0, 0, 4097, 4096)]);
    assert_eq!(
        RWFragmentStore::new(unaligned).err(),
        Some(Error::Fragment(FragmentError::InvalidFragmentTable))
    );
    let rootless = container(3, 20480, 127, vec![desc(0, 0, 4096, 4096)]);
    assert_eq!(
        RWFragmentStore::new(rootless).err(),
        Some(Error::Fragment(FragmentError::MissingRootFragment))
    );
    let mut too_long = container(0, 20480, 127, vec![desc(0, 0, 4096, 4096)]);
    too_long.seek_to(20480 + 8);
    too_long.write_bytes(&0u64.to_le_bytes()).unwrap();
    assert_eq!(
        RWFragmentStore::new(too_long).err(),
        Some(Error::Fragment(FragmentError::LengthExceedsCapacity))
    );
    let mut huge = container(0, 20480, 127, vec![desc(0, 0, 4096, 4096)]);
    huge.seek_to(20480 + 8);
    huge.write_bytes(&u64::MAX.to_le_bytes()).unwrap();
    assert_eq!(RWFragmentStore::new(huge).err(), Some(Error::Fragment(FragmentError::InvalidTable)));
    let mut cyclic = container(0, 20480, 127, vec![desc(0, 0, 4096, 4096)]);
    cyclic.seek_to(20480);
    cyclic.write_bytes(&20480u64.to_le_bytes()).unwrap();
    assert_eq!(
        RWFragmentStore::new(cyclic).err(),
        Some(Error::Fragment(FragmentError::InvalidFragmentTable))
    );
    let mut cut = container(0, 20480, 127, vec![desc(0, 0, 4096, 4096)]);
    cut.seek_to(20480 + 16);
    cut.write_bytes(&5u64.to_le_bytes()).unwrap();
    assert_eq!(RWFragmentStore::new(cut).err(), Some(Error::Decode));
}

#[test]
fn open_fragment_unknown_id() {
    let store = blank();
    assert_eq!(store.open_fragment(42).err(), Some(Error::Fragment(FragmentError::NoFound(42))));
    assert_eq!(
        FragmentError::not_found::<()>(42),
        Err(Error::Fragment(FragmentError::NoFound(42)))
    );
    assert_eq!(
        FragmentError::invalid_fragment_table::<()>(),
        Err(Error::Fragment(FragmentError::InvalidFragmentTable))
    );
}

#[test]
fn push_refuses_overlap() {
    let mut store = blank();
    assert_eq!(
        store.header.push_fragment_descriptor(desc(1, 1, 8192, 4096)),
        Err(Error::Fragment(FragmentError::InvalidFragmentTable))
    );
    assert_eq!(
        store.header.push_fragment_descriptor(desc(1, 1, 12288, 100)),
        Err(Error::Fragment(FragmentError::InvalidFragmentTable))
    );
    assert_eq!(
        store.header.push_fragment_descriptor(desc(1, 1, 12288, 4096)),
        Err(Error::Fragment(FragmentError::InvalidFragmentTable))
    );
    assert_eq!(
        store.header.push_fragment_descriptor(desc(1, 1, 4096, 4096)),
        Err(Error::Fragment(FragmentError::InvalidFragmentTable))
    );
    assert_eq!(store.header.allocate_fragment(4096), Ok((12288, 4096)));
    assert_eq!(store.header.push_fragment_descriptor(desc(1, 1, 12288, 4096)), Ok(()));
    assert_eq!(store.header.fragment_table().len(), 2);
    assert_eq!(store.header.end, 16384);
}

#[test]
fn database_facade() {
    let b = Database::destructive_reinitialise(MemoryBacking::new(vec![9; 100]), Danger).unwrap();
    assert_eq!(b.get_ref()[0..4], *b"RWFS");
    let mut db = Database::new(b).unwrap();
    assert_eq!(db.data_source().header.fragment_table().len(), 1);
    assert!(db.flush().is_ok());
    assert_eq!(db.backing().get_ref()[0..4], *b"RWFS");
    assert!(db.open_fragment(0).is_ok());
    assert_eq!(db.open_fragment(1).err(), Some(Error::Fragment(FragmentError::NoFound(1))));
    assert!(Database::new(MemoryBacking::new(vec![0; 64])).is_err());
}

#[test]
fn extents_stay_aligned_and_apart() {
    let mut store = blank();
    for (i, n) in [100usize, 5000, 0, 9000, 4096].iter().enumerate() {
        let opts = if i % 2 == 0 {
            AllocOptions::default().size_hint(*n as u64)
        } else {
            AllocOptions::default()
        };
        let mut h = store.new_fragment(opts).unwrap();
        h.write_all(&mut store, &vec![i as u8; *n]).unwrap();
        h.done(&mut store).unwrap();
    }
    let t = store.header.fragment_table();
    assert_eq!(t.len(), 6);
    for a in &t {
        assert_eq!(a.offset % 4096, 0);
        assert_eq!(a.length % 4096, 0);
        assert!(a.length >= 4096);
        assert!(a.offset + a.length <= store.header.end);
        for b in &t {
            if a.offset < b.offset {
                assert!(a.offset + a.length <= b.offset);
            }
        }
    }
    let ids: Vec<u64> = t.iter().map(|d| d.id).collect();
    assert_eq!(ids, vec![0, 1, 2, 3, 4, 5]);
}

#[test]
fn push_refuses_descriptor_in_free_gap() {
    let backing = container(0, 20480, 127, vec![desc(0, 0, 4096, 4096), desc(1, 1, 12288, 4096)]);
    let mut store = RWFragmentStore::new(backing).unwrap();
    assert_eq!(
        store.header.push_fragment_descriptor(desc(9, 1, 8192, 4096)),
        Err(Error::Fragment(FragmentError::InvalidFragmentTable))
    );
    let (p, s) = store.header.allocate_fragment(4096).unwrap();
    assert_eq!(store.header.push_fragment_descriptor(desc(9, 1, p, s)), Ok(()));
    assert_eq!(store.header.fragment_table().len(), 3);
}

#[test]
fn blank_then_sized_write_lands_at_12288_after_close() {
    let mut store = RWFragmentStore::blank(MemoryBacking::new(vec![0; 16 * 1024])).unwrap();
    let mut h = store.new_fragment(AllocOptions::default().size_hint(100)).unwrap();
    match h.fragment_type {
        FragmentType::Sized(f) => assert_eq!((f.ptr, f.size, f.cursor), (12288, 4096, 0)),
        _ => panic!("not sized"),
    }
    assert_eq!(store.header.fragment_table(), vec![desc(0, 0, 8192, 4096)]);
    h.write_all(&mut store, b"hello world").unwrap();
    h.done(&mut store).unwrap();
    assert_eq!(store.backing.get_ref()[12288..12299], *b"hello world");
    let mut r = store.open_fragment(1).unwrap();
    let got = r.read_to_end(&mut store).unwrap();
    assert_eq!(got[..11], *b"hello world");
}

#[test]
fn growable_new_fragment_leaves_store_alone() {
    let mut store = blank();
    let end = store.header.end;
    let h = store.new_fragment(AllocOptions::default()).unwrap();
    assert_eq!(h.size(), 0);
    assert_eq!(store.header.end, end);
    assert_eq!(store.header.fragment_table().len(), 1);
}

#[test]
fn reopening_twice_gives_same_index() {
    let mut store = blank();
    for (id, n) in [(3u64, 10u64), (4, 9000), (3, 20)] {
        let h = store.new_fragment(AllocOptions::default().size_hint(n).fragment(id)).unwrap();
        h.done(&mut store).unwrap();
    }
    let bytes = store.backing.into_inner();
    let a = RWFragmentStore::new(MemoryBacking::new(bytes.clone())).unwrap();
    let b = RWFragmentStore::new(MemoryBacking::new(bytes)).unwrap();
    assert_eq!(a.header.fragment_table(), b.header.fragment_table());
    assert_eq!(a.header.free_space, b.header.free_space);
    assert_eq!(a.header.end, b.header.end);
}

#[test]
fn reopened_chunk_page_is_never_handed_out() {
    let mut store = RWFragmentStore::new(RWFragmentStore::blank(MemoryBacking::new(Vec::new())).unwrap().backing).unwrap();
    for i in 0..128u64 {
        let mut h = store.new_fragment(AllocOptions::default().size_hint(4096).fragment(10 + i)).unwrap();
        h.write_all(&mut store, b"data").unwrap();
        h.done(&mut store).unwrap();
    }
    let chunk = store.header.fragment_table_parts[1].offset;
    let mut store = RWFragmentStore::new(store.backing).unwrap();
    assert_eq!(store.header.free_space, vec![FreeExtent { size: 4096, ptr: chunk }]);
    let mut h = store.new_fragment(AllocOptions::default().size_hint(4096).fragment(500)).unwrap();
    match h.fragment_type {
        FragmentType::Sized(f) => assert_ne!(f.ptr, chunk),
        _ => panic!("not sized"),
    }
    h.write_all(&mut store, b"payload").unwrap();
    h.done(&mut store).unwrap();
    let mut buffered = store.new_fragment(AllocOptions::default().fragment(501)).unwrap();
    buffered.write_all(&mut store, b"small").unwrap();
    buffered.done(&mut store).unwrap();
    let mut store = RWFragmentStore::new(store.backing).unwrap();
    for (id, want) in [(500u64, b"payload".to_vec()), (501, b"small".to_vec()), (10, b"data".to_vec())] {
        let mut r = store.open_fragment(id).unwrap();
        let got = r.read_to_end(&mut store).unwrap();
        assert_eq!(got[..want.len()], want[..]);
    }
    assert_eq!(store.header.fragment_table().len(), 131);
}

#[test]
fn gap_between_pages_is_exact() {
    let backing = container(0, 65536, 127, vec![desc(0, 0, 4096, 4096), desc(1, 1, 12288, 4096)]);
    let store = RWFragmentStore::new(backing).unwrap();
    assert_eq!(store.header.free_space, vec![FreeExtent { size: 4096, ptr: 8192 }]);
}
