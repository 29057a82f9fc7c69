use wireguard_exporter::alias::{Alias, AliasError};

fn key() -> String {
    let k = base64::encode([7u8; 32]);
    assert_eq!(k.len(), 44);
    k
}

#[test]
fn valid_alias_argument_parses() {
    let arg = format!("{}:alice", key());
    let a = Alias::parse(arg.as_bytes()).unwrap();
    assert_eq!(a.inner.0, key().into_bytes());
    assert_eq!(a.inner.1, b"alice".to_vec());
}

#[test]
fn second_colon_ends_the_alias() {
    let arg = format!("{}:alice:extra", key());
    let a = Alias::parse(arg.as_bytes()).unwrap();
    assert_eq!(a.inner.1, b"alice".to_vec());
}

#[test]
fn missing_separator_is_rejected() {
    assert!(matches!(Alias::parse(key().as_bytes()), Err(AliasError::MissingSeparator)));
}

#[test]
fn empty_parts_are_rejected() {
    let arg = format!("{}:", key());
    assert!(matches!(Alias::parse(arg.as_bytes()), Err(AliasError::EmptyPart)));
    assert!(matches!(Alias::parse(b":alice"), Err(AliasError::EmptyPart)));
}

#[test]
fn wrong_key_length_is_rejected() {
    assert!(matches!(Alias::parse(b"shortkey:alice"), Err(AliasError::KeyLength)));
}

#[test]
fn invalid_base64_is_rejected() {
    let bad = format!("{}:alice", "!".repeat(44));
    assert!(matches!(Alias::parse(bad.as_bytes()), Err(AliasError::KeyEncoding)));
}
