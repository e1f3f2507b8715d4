use libdb::backing::MemoryBacking;
use libdb::error::{Error, FragmentError, IoErrorKind};
use libdb::fragment::{AllocOptions, FragmentHandle, FragmentType, SeekFrom, SizedFragment};
use libdb::store::RWFragmentStore;

fn sized_handle(ptr: u64, size: u64) -> FragmentHandle {
    FragmentHandle {
        fragment_type: FragmentType::Sized(SizedFragment { cursor: 0, ptr, size, max_size: None }),
        id: 1,
        sequence: 1,
    }
}

#[test]
fn test_reposition_seek() {
    let backing = MemoryBacking::new(vec![0; 1024]);
    let store = RWFragmentStore::blank(backing).unwrap();
    let mut fragment = sized_handle(256, 100);

    assert_eq!(fragment.stream_position(), 0);
    assert_eq!(fragment.seek(SeekFrom::Current(50)), Ok(50));
    assert_eq!(fragment.seek(SeekFrom::Current(-50)), Ok(0));
    assert!(fragment.seek(SeekFrom::Current(-50)).is_err());

    assert_eq!(store.backing.stream_position(), 0);
}

#[test]
fn test_write_fragment() {
    let backing = MemoryBacking::new(vec![0; 1024]);
    let mut store = RWFragmentStore::blank(backing).unwrap();
    {
        let mut fragment = sized_handle(256, 100);
        fragment.write_all(&mut store, b"hello world").unwrap();
        fragment.flush(&mut store).unwrap();
    }
    assert_eq!(store.backing.get_ref()[256..267], *b"hello world");
}

#[test]
fn seek_boundary_on_sized_handle() {
    let mut h = sized_handle(256, 100);
    assert_eq!(h.seek(SeekFrom::Start(100)), Ok(100));
    assert_eq!(h.seek(SeekFrom::Start(0)), Ok(0));
    assert_eq!(h.seek(SeekFrom::Start(101)), Err(Error::Io(IoErrorKind::InvalidInput)));
    assert_eq!(h.seek(SeekFrom::End(0)), Ok(100));
    assert_eq!(h.seek(SeekFrom::End(-100)), Ok(0));
    assert_eq!(h.seek(SeekFrom::End(-101)), Err(Error::Io(IoErrorKind::InvalidInput)));
    assert_eq!(h.seek(SeekFrom::End(1)), Err(Error::Io(IoErrorKind::InvalidInput)));
    assert_eq!(h.seek(SeekFrom::Current(i64::MAX)), Err(Error::Io(IoErrorKind::InvalidInput)));
    assert_eq!(h.seek(SeekFrom::Start(u64::MAX)), Err(Error::Io(IoErrorKind::InvalidInput)));
    for t in 0..=100u64 {
        assert_eq!(h.seek(SeekFrom::Start(t)), Ok(t));
    }
    assert_eq!(h.stream_position(), 100);
}

#[test]
fn sized_write_is_cut_at_bound() {
    let mut store = RWFragmentStore::blank(MemoryBacking::new(vec![0; 1024])).unwrap();
    let mut h = sized_handle(256, 4);
    assert_eq!(h.write(&mut store, b"abcdef"), Ok(4));
    assert_eq!(h.write(&mut store, b"gh"), Ok(0));
    assert_eq!(store.backing.get_ref()[256..261], *b"abcd\0");
    let mut h = sized_handle(256, 4);
    assert_eq!(h.write_all(&mut store, b"abcdef"), Err(Error::Io(IoErrorKind::WriteZero)));
}

#[test]
fn sized_read_restores_backing_cursor() {
    let mut store = RWFragmentStore::blank(MemoryBacking::new(vec![0; 1024])).unwrap();
    let mut h = sized_handle(300, 10);
    h.write_all(&mut store, b"0123456789").unwrap();
    h.seek(SeekFrom::Start(2)).unwrap();
    store.backing.seek_to(7);
    assert_eq!(h.read(&mut store, 3).unwrap(), b"234".to_vec());
    assert_eq!(store.backing.stream_position(), 7);
    assert_eq!(h.read_to_end(&mut store).unwrap(), b"56789".to_vec());
    assert_eq!(h.read(&mut store, 3).unwrap(), Vec::<u8>::new());
}

#[test]
fn test_dynamic_fragment() {
    let zeros = MemoryBacking::new(vec![0; 1024]);
    assert_eq!(RWFragmentStore::new(zeros).err(), Some(Error::Fragment(FragmentError::InvalidMagic)));

    let mut store = RWFragmentStore::blank(MemoryBacking::new(vec![0; 1024])).unwrap();
    {
        let mut frag = store.new_fragment(AllocOptions::default().size_hint(100)).unwrap();
        assert_eq!(frag.size(), 4096);
        assert!(frag.write_all(&mut store, &[0u8; 101]).is_ok());
        assert!(frag.write_all(&mut store, b"Hello World!").is_ok());
    }
    let mut capped = FragmentHandle {
        fragment_type: FragmentType::Sized(SizedFragment { cursor: 0, ptr: 20480, size: 4096, max_size: Some(100) }),
        id: 2,
        sequence: 1,
    };
    assert!(capped.write_all(&mut store, &[0u8; 101]).is_err());
}
