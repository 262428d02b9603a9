use smorgasbord::path::from_nt_path;
use smorgasbord::path::Key;
use smorgasbord::path::Path;
use smorgasbord::path::PathError;

fn path_of(segments: &[&str]) -> Path {
    let mut keys: Vec<Key> = Vec::new();
    for s in segments {
        keys.push(Key::new((*s).to_string()));
    }
    Path::from_vec(keys).unwrap()
}

#[test]
fn format_then_parse_round_trips() {
    let p = path_of(&["Smartdashboard", "auto", "options"]);
    let text = p.format();
    assert_eq!(text, "/Smartdashboard/auto/options");
    let back = Path::parse(&text).unwrap();
    assert_eq!(back, p);
}

#[test]
fn round_trip_keeps_empty_segments() {
    let p = path_of(&["a", "", "b"]);
    let text = p.format();
    assert_eq!(text, "/a//b");
    assert_eq!(Path::parse(&text).unwrap(), p);
}

#[test]
fn round_trip_single_key() {
    let p = path_of(&["x"]);
    assert_eq!(Path::parse(&p.format()).unwrap(), p);
}

#[test]
fn parse_rejects_empty_input() {
    match Path::parse("") {
        Err(PathError::Empty) => {}
        other => panic!("expected the empty error, got {:?}", other),
    }
}

#[test]
fn parse_rejects_missing_slash() {
    match Path::parse("no/leading/slash") {
        Err(PathError::ExpectedSlash(s)) => assert_eq!(s, "no/leading/slash"),
        other => panic!("expected the slash error, got {:?}", other),
    }
}

#[test]
fn parse_splits_segments() {
    let p = Path::parse("/a/b/c").unwrap();
    assert_eq!(p, path_of(&["a", "b", "c"]));
}

#[test]
fn topic_name_yields_three_keys() {
    let p = from_nt_path("/Smartdashboard/auto/options".to_string()).unwrap();
    assert_eq!(p, path_of(&["Smartdashboard", "auto", "options"]));
}

#[test]
fn topic_name_skips_empty_and_relative_segments() {
    let p = from_nt_path("//a/./b/../c/".to_string()).unwrap();
    assert_eq!(p, path_of(&["a", "b", "c"]));
}

#[test]
fn topic_name_without_segments_is_rejected() {
    assert!(from_nt_path("/".to_string()).is_err());
    assert!(from_nt_path("".to_string()).is_err());
    assert!(from_nt_path("/./..".to_string()).is_err());
}

#[test]
fn key_from_utf8_decodes() {
    let k = Key::from_utf8(b"gyro yaw").unwrap();
    assert_eq!(k.as_str(), "gyro yaw");
}

#[test]
fn key_from_utf8_rejects_invalid_bytes() {
    assert!(Key::from_utf8(&[0xff, 0xfe]).is_err());
}

#[test]
fn push_appends_a_key() {
    let mut p = path_of(&["a"]);
    p.push(Key::new("b".to_string()));
    assert_eq!(p, path_of(&["a", "b"]));
}

#[test]
fn into_vec_lists_all_keys() {
    let p = path_of(&["a", "b"]);
    let keys = p.into_vec();
    assert_eq!(keys.len(), 2);
    assert_eq!(keys[0].as_str(), "a");
    assert_eq!(keys[1].as_str(), "b");
}

#[test]
fn from_vec_rejects_empty() {
    assert!(Path::from_vec(Vec::new()).is_err());
}
