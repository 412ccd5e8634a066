use glyphspack::sanitize::sanitize;

#[test]
fn sanitize_uppercase_differs_from_lowercase() {
    assert_ne!(sanitize(&b"A".to_vec()), sanitize(&b"a".to_vec()));
    assert_eq!(sanitize(&b"A".to_vec()), b"A_".to_vec());
    assert_eq!(sanitize(&b"a".to_vec()), b"a".to_vec());
}

#[test]
fn sanitize_leading_dot_becomes_underscore() {
    assert_eq!(sanitize(&b".notdef".to_vec()), b"_notdef".to_vec());
}

#[test]
fn sanitize_inserts_underscore_after_uppercase() {
    assert_eq!(sanitize(&b"Dcaron".to_vec()), b"D_caron".to_vec());
    assert_eq!(sanitize(&b"AB".to_vec()), b"A_B_".to_vec());
}

#[test]
fn sanitize_empty_and_plain_names() {
    assert_eq!(sanitize(&b"".to_vec()), b"".to_vec());
    assert_eq!(sanitize(&b"space".to_vec()), b"space".to_vec());
    assert_eq!(sanitize(&b"a.sc".to_vec()), b"a.sc".to_vec());
}

#[test]
fn sanitize_only_first_dot_is_replaced() {
    assert_eq!(sanitize(&b".a.b".to_vec()), b"_a.b".to_vec());
}
