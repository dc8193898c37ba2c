use pirc_server::oper::host_matches_mask;

#[test]
fn host_mask_wildcard_suffix() {
    assert!(host_matches_mask("127.0.0.1", "127.0.0.*"));
    assert!(host_matches_mask("127.0.0.255", "127.0.0.*"));
    assert!(!host_matches_mask("10.0.0.1", "127.0.0.*"));
}

#[test]
fn host_mask_exact() {
    assert!(host_matches_mask("localhost", "localhost"));
    assert!(!host_matches_mask("otherhost", "localhost"));
}

#[test]
fn host_mask_wildcard_prefix() {
    assert!(host_matches_mask("user.example.com", "*.example.com"));
    assert!(!host_matches_mask("user.other.com", "*.example.com"));
}

#[test]
fn host_mask_all_wildcard() {
    assert!(host_matches_mask("anything", "*"));
    assert!(host_matches_mask("127.0.0.1", "*"));
}

#[test]
fn host_mask_edge_cases() {
    assert!(host_matches_mask("", ""));
    assert!(host_matches_mask("", "*"));
    assert!(!host_matches_mask("", "a"));
    assert!(!host_matches_mask("a", ""));
    assert!(host_matches_mask("a.b.c", "a*c"));
    assert!(host_matches_mask("abc", "a**c"));
    assert!(!host_matches_mask("ab", "a*c"));
    assert!(host_matches_mask("mid.example.net", "*.example.*"));
    assert!(!host_matches_mask("localhost.", "localhost"));
}
