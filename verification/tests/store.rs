use pastebin::paste_id::PasteID;
use pastebin::store::{
    default_root, preview, storage_path, PasteStore, StoreError, Summary, PREVIEW_THRESHOLD,
};

fn id(s: &str) -> PasteID {
    PasteID::validate(s).ok().unwrap()
}

#[test]
fn put_then_get_returns_exact_bytes() {
    let mut st = PasteStore::new();
    let a = id("abc12345");
    st.put(&a, b"hello\nworld\n".to_vec());
    assert_eq!(st.get(&a).ok().unwrap(), &b"hello\nworld\n".to_vec());

    let empty = id("empty001");
    st.put(&empty, Vec::new());
    assert_eq!(st.get(&empty).ok().unwrap(), &Vec::<u8>::new());

    let binary = id("bin00001");
    let bytes: Vec<u8> = (0u8..=255).collect();
    st.put(&binary, bytes.clone());
    assert_eq!(st.get(&binary).ok().unwrap(), &bytes);
}

#[test]
fn put_twice_overwrites() {
    let mut st = PasteStore::new();
    let a = id("abc12345");
    st.put(&a, b"first contents".to_vec());
    st.put(&a, b"second".to_vec());
    assert_eq!(st.get(&a).ok().unwrap(), &b"second".to_vec());
}

#[test]
fn delete_missing_is_not_found() {
    let mut st = PasteStore::new();
    let never = id("neverMade");
    assert_eq!(st.delete(&never), Err(StoreError::NotFound));
}

#[test]
fn get_after_delete_is_not_found() {
    let mut st = PasteStore::new();
    let a = id("abc12345");
    st.put(&a, b"data".to_vec());
    assert_eq!(st.delete(&a), Ok(()));
    assert!(st.get(&a).is_err());
    assert_eq!(st.get(&a).err().unwrap(), StoreError::NotFound);
}

#[test]
fn get_missing_is_not_found() {
    let st = PasteStore::new();
    assert_eq!(st.get(&id("missing0")).err().unwrap(), StoreError::NotFound);
}

#[test]
fn reserve_creates_empty_and_keeps_content() {
    let mut st = PasteStore::new();
    let a = id("abc12345");
    st.reserve(&a);
    assert_eq!(st.get(&a).ok().unwrap(), &Vec::<u8>::new());

    st.put(&a, b"kept".to_vec());
    st.reserve(&a);
    assert_eq!(st.get(&a).ok().unwrap(), &b"kept".to_vec());
}

#[test]
fn preview_truncates_long_first_line() {
    let content = b"hello world, this line is definitely long".to_vec();
    let (p, truncated) = preview(&content);
    assert_eq!(p, b"hello world, this line i".to_vec());
    assert_eq!(p.len(), PREVIEW_THRESHOLD);
    assert!(truncated);
}

#[test]
fn preview_keeps_short_first_line() {
    // The first line is kept with its terminating line feed; the
    // threshold counts that terminator too.
    let (p, truncated) = preview(&b"short\nrest of the paste".to_vec());
    assert_eq!(p, b"short\n".to_vec());
    assert!(!truncated);

    let (p2, t2) = preview(&Vec::new());
    assert_eq!(p2, Vec::<u8>::new());
    assert!(!t2);

    // A line of 23 bytes plus its line feed meets the threshold exactly:
    // flagged truncated, though nothing is cut.
    let line24 = b"abcdefghijklmnopqrstuvw\nmore".to_vec();
    let (p3, t3) = preview(&line24);
    assert_eq!(p3, b"abcdefghijklmnopqrstuvw\n".to_vec());
    assert!(t3);
}

#[test]
fn list_summaries_covers_each_paste_once() {
    let mut st = PasteStore::new();
    let long = id("longline");
    let short = id("shortln1");
    st.put(&long, b"hello world, this line is definitely long".to_vec());
    st.put(&short, b"short\n".to_vec());
    let mut rows: Vec<Summary> = st.list_summaries();
    rows.sort_by(|a, b| a.id.cmp(&b.id));
    assert_eq!(rows.len(), 2);
    assert_eq!(rows[0].id, "longline");
    assert_eq!(rows[0].preview, b"hello world, this line i".to_vec());
    assert!(rows[0].truncated);
    assert_eq!(rows[1].id, "shortln1");
    assert_eq!(rows[1].preview, b"short\n".to_vec());
    assert!(!rows[1].truncated);
}

#[test]
fn storage_path_is_flat() {
    let a = id("abc12345");
    assert_eq!(storage_path(default_root(), &a), "upload/abc12345");
    assert_eq!(storage_path("elsewhere", &a), "elsewhere/abc12345");
}
