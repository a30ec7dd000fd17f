use mergepen::config::{ConfigError, RepoConfig};
use mergepen::doc_id::{parse_doc_id, DocId};

#[test]
fn parse_legacy_uuid_form() {
    // The canonical parser also accepts the written-out UUID form.
    let id = parse_doc_id("00000000-0000-0000-0000-000000000000").unwrap();
    assert!(id.eq_id(&DocId::new(vec![0u8; 16])));
}

#[test]
fn parse_canonical_bs58check_form() {
    // Round-trip through the store's preferred textual form.
    let outside = samod_core::DocumentId::try_from(vec![7u8; 16]).unwrap();
    let text = format!("{}", outside);
    let id = parse_doc_id(&text).unwrap();
    assert!(id.eq_id(&DocId::new(vec![7u8; 16])));
}

#[test]
fn parse_rejects_malformed_text() {
    assert!(parse_doc_id("").is_none());
    assert!(parse_doc_id("not an identifier at all!").is_none());
    assert!(parse_doc_id("automerge:").is_none());
}

#[test]
fn config_accepts_well_formed_root_id() {
    let outside = samod_core::DocumentId::try_from(vec![3u8; 16]).unwrap();
    let text = format!("{}", outside);
    let config = RepoConfig::from_root_text(&text).unwrap();
    assert!(config.root_folder_id().eq_id(&DocId::new(vec![3u8; 16])));
}

#[test]
fn config_rejects_malformed_root_id() {
    let r = RepoConfig::from_root_text("###");
    assert!(matches!(r, Err(ConfigError::BadRootId)));
}
