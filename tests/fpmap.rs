use solhat::fpmap::{FpMap, FpMapError};
use solhat::ser::SerFile;

fn container(frames: i32, extra: usize) -> Vec<u8> {
    let mut b = vec![0u8; 178];
    b[22..26].copy_from_slice(&1i32.to_le_bytes());
    b[26..30].copy_from_slice(&2i32.to_le_bytes());
    b[30..34].copy_from_slice(&2i32.to_le_bytes());
    b[34..38].copy_from_slice(&8i32.to_le_bytes());
    b[38..42].copy_from_slice(&frames.to_le_bytes());
    b.resize(178 + 4 * frames as usize + extra, 0);
    b
}

#[test]
fn opens_each_path_once() {
    let mut map = FpMap::new();
    let a = SerFile::parse(container(3, 0), "a.ser".to_string()).unwrap();
    assert_eq!(map.insert(a), Ok(()));
    assert!(map.contains(&"a.ser".to_string()));
    assert!(!map.contains(&"b.ser".to_string()));
    let again = SerFile::parse(container(1, 0), "a.ser".to_string()).unwrap();
    assert_eq!(map.insert(again), Err(FpMapError::AlreadyOpen));
    assert_eq!(map.get_dont_open(&"a.ser".to_string()).unwrap().frame_count, 3);
    assert!(map.get_dont_open(&"c.ser".to_string()).is_none());
    assert_eq!(map.get_map().len(), 1);
}

#[test]
fn refuses_invalid_container() {
    let mut map = FpMap::new();
    let bad = SerFile::parse(container(3, 5), "bad.ser".to_string()).unwrap();
    assert_eq!(map.insert(bad), Err(FpMapError::InvalidContainer));
    assert_eq!(map.get_map().len(), 0);
}
