use juxr::needle::{Error, Needle};

#[test]
fn round_trip_no_metadata() {
    let n = Needle::new(b"/foo/bar.txt");
    let parsed = Needle::from_bytes(&n.as_bytes()).unwrap();
    assert_eq!(n, parsed);
    assert_eq!(n.filename().as_slice(), b"/foo/bar.txt");
    assert!(n.kind().is_none());
}

#[test]
fn round_trip_with_metadata() {
    let n = Needle::new_with_kind(b"/foo/bar.txt", b"manchu");
    let parsed = Needle::from_bytes(&n.as_bytes()).unwrap();
    assert_eq!(n, parsed);
    assert_eq!(n.filename().as_slice(), b"/foo/bar.txt");
    assert_eq!(n.kind().unwrap().as_slice(), b"manchu");
}

#[test]
fn parse_invalid1() {
    let n = Needle::new(b"/foo/bar.txt");
    let n = n.as_bytes();
    assert_eq!(Needle::from_bytes(&n[1..]), Err(Error::InvalidNeedle))
}

#[test]
fn parse_invalid2() {
    let n = Needle::new(b"/foo/bar.txt");
    let n = n.as_bytes();
    assert_eq!(Needle::from_bytes(&n[..n.len() - 1]), Err(Error::InvalidNeedle))
}

#[test]
fn parse_invalid3() {
    let mut n = b"\n[[juxr::stream::".to_vec();
    n.extend_from_slice(b"]]\n");
    assert_eq!(Needle::from_bytes(&n), Err(Error::InvalidNeedle))
}

#[test]
fn find_valid_whole() {
    let n = Needle::new(b"/foo/bar.txt");
    let n = n.as_bytes();
    assert_eq!(Needle::find(&n), Some((0, n.len())))
}

#[test]
fn find_valid_whole_with_kind() {
    let n = Needle::new_with_kind(b"/foo/bar.txt", b"manchu");
    let n = n.as_bytes();
    assert_eq!(Needle::find(&n), Some((0, n.len())))
}

#[test]
fn find_valid_within() {
    let n = Needle::new(b"/foo/bar.txt");
    let mut buf = b"prefix".to_vec();
    buf.extend_from_slice(&n.as_bytes());
    buf.extend_from_slice(b"suffix");
    assert_eq!(Needle::find(&buf), Some((6, buf.len() - 6)))
}

#[test]
fn find_invalid1() {
    let n = Needle::new(b"/foo/bar.txt");
    let n = n.as_bytes();
    assert_eq!(Needle::find(&n[1..]), None)
}

#[test]
fn find_invalid2() {
    let n = Needle::new(b"/foo/bar.txt");
    let n = n.as_bytes();
    assert_eq!(Needle::find(&n[..n.len() - 1]), None)
}

#[test]
fn find_invalid3() {
    let mut n = b"\n[[juxr::stream::".to_vec();
    n.extend_from_slice(b"]]\n");
    assert_eq!(Needle::find(&n), None)
}

#[test]
fn parse_splits_kind_at_last_separator() {
    let token = b"\n[[juxr::stream::id-1::kind::a::name]]\n";
    let n = Needle::from_bytes(token).unwrap();
    assert_eq!(n.kind().unwrap().as_slice(), b"kind::a");
    assert_eq!(n.filename().as_slice(), b"name");
}

#[test]
fn parse_single_separator_has_no_kind() {
    let token = b"\n[[juxr::stream::id-1::name.txt]]\n";
    let n = Needle::from_bytes(token).unwrap();
    assert!(n.kind().is_none());
    assert_eq!(n.filename().as_slice(), b"name.txt");
}

#[test]
fn find_start_reports_first_marker() {
    let buf = b"xyz\n[[juxr::stream::rest";
    assert_eq!(Needle::find_start(buf), Some(3));
    assert_eq!(Needle::find_start(b"no marker here"), None);
}
