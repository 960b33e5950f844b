use tl::Bytes;

#[test]
fn from_str() {
    let x = Bytes::from("hello");
    assert_eq!(x.as_bytes(), b"hello");
}

#[test]
fn from_bytes() {
    let x = Bytes::from(b"hello" as &[u8]);
    assert_eq!(x.as_bytes(), b"hello");
}

#[test]
fn as_bytes_borrowed() {
    let xb = Bytes::from(b"hello" as &[u8]);
    assert_eq!(xb.as_bytes_borrowed(), Some(b"hello" as &[u8]));

    let mut xc = xb.clone();
    xc.set(b"test2").unwrap();
    assert_eq!(xc.as_bytes_borrowed(), None);
}

#[test]
fn as_utf8_str() {
    assert_eq!(Bytes::from("hello").as_utf8_str(), "hello");
}

#[test]
fn clone_shallow() {
    // cloning a borrowed slice does not deep-clone
    let x = Bytes::from("hello");
    let xp = x.as_bytes().as_ptr();

    let y = x.clone();
    let yp = y.as_bytes().as_ptr();

    assert_eq!(xp, yp);
}

#[test]
fn drop_old_owned() {
    let mut x = Bytes::from("");
    x.set(b"test").unwrap();
    x.set(b"test2").unwrap();
}

#[test]
fn clone_owned_deep() {
    let mut x = Bytes::from("");
    x.set(b"hello").unwrap();
    let xp = x.as_bytes().as_ptr();

    let y = x.clone();
    let yp = y.as_bytes().as_ptr();

    assert_eq!(x, y);
    assert_ne!(xp, yp);
}

#[test]
fn empty() {
    let _x = Bytes::new();
}

#[test]
fn empty_set() {
    let mut x = Bytes::new();
    x.set(b"hello").unwrap();
}

#[test]
fn set() {
    let mut x = Bytes::from("hello");
    let xp = x.as_bytes().as_ptr();

    x.set(b"world").unwrap();
    let xp2 = x.as_bytes().as_ptr();

    // check that the changes are reflected
    assert_eq!(x.as_bytes(), b"world");

    // pointer must be different now as the call to `set` should cause an allocation
    assert_ne!(xp, xp2);
}

#[test]
fn clone_deep() {
    let x = Bytes::from("hello");
    let xp = x.as_bytes().as_ptr();

    let mut y = x.clone();
    y.set(b"world").unwrap();
    let yp = y.as_bytes().as_ptr();

    assert_ne!(xp, yp);
}

#[test]
fn into_owned_bytes() {
    let mut x1 = Bytes::new();
    x1.set("hello".as_bytes()).unwrap(); // &str

    let mut x2 = x1.clone();
    x2.set(b"world" as &[u8]).unwrap(); // &[u8]

    let mut x3 = x1.clone();
    x3.set(&vec![0u8, 1, 2, 3, 4]).unwrap(); // Vec<u8>

    let mut x4 = x1.clone();
    x4.set(&vec![0u8, 1, 2, 3, 4].into_boxed_slice()).unwrap(); // Box<[u8]>

    let mut x5 = x1.clone();
    x5.set(String::from("Tests are important").as_bytes()).unwrap(); // String
}

#[test]
fn equality_ignores_storage() {
    let borrowed = Bytes::from("same");
    let owned = Bytes::from(b"same".to_vec());
    assert_eq!(borrowed, owned);
    assert!(borrowed.as_bytes_borrowed().is_some());
    assert!(owned.as_bytes_borrowed().is_none());
    assert_ne!(borrowed, Bytes::from("other"));
}

#[test]
fn invalid_utf8_is_reported() {
    let bytes: &[u8] = &[0x68, 0x69, 0xff];
    let x = Bytes::from(bytes);
    assert!(x.try_as_utf8_str().is_none());
    assert_eq!(x.as_utf8_str(), "hi\u{fffd}");
    assert_eq!(Bytes::from("hi").try_as_utf8_str(), Some("hi"));
}

#[test]
fn slice_keeps_storage() {
    let x = Bytes::from("hello world");
    let word = x.slice(6, 11);
    assert_eq!(word.as_bytes(), b"world");
    assert!(word.as_bytes_borrowed().is_some());

    let owned = Bytes::from(b"hello world".to_vec());
    let word = owned.slice(0, 5);
    assert_eq!(word.as_bytes(), b"hello");
    assert!(word.as_bytes_borrowed().is_none());
    assert_eq!(owned.len(), 11);
}
