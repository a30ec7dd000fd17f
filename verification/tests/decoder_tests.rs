use mergepen::doc_id::DocId;
use mergepen::doc_types::TypedDoc;
use mergepen::doc_value::{decode_essay, decode_folder, decode_typed, decode_version_control, DocValue};

fn text(s: &str) -> DocValue {
    DocValue::Text(s.to_string())
}

fn field(name: &str, v: DocValue) -> (String, DocValue) {
    (name.to_string(), v)
}

fn url_for(byte: u8) -> String {
    let id = samod_core::DocumentId::try_from(vec![byte; 16]).unwrap();
    format!("automerge:{}", id)
}

fn patchwork_value() -> DocValue {
    DocValue::Fields(vec![
        field("suggestedImportUrl", text("import")),
        field("type", text("folder")),
    ])
}

fn entry_value(name: &str, byte: u8, ty: &str) -> DocValue {
    DocValue::Fields(vec![
        field("name", text(name)),
        field("url", text(&url_for(byte))),
        field("type", text(ty)),
    ])
}

fn folder_value(title: &str, entries: Vec<DocValue>) -> Vec<(String, DocValue)> {
    vec![
        field("tags", DocValue::Items(vec![text("one"), text("two")])),
        field("changeGroupSummaries", DocValue::Fields(vec![field("a", text("b"))])),
        field("versionControlMetadataUrl", text(&url_for(9))),
        field("@patchwork", patchwork_value()),
        field("discussions", DocValue::Fields(Vec::new())),
        field("title", text(title)),
        field("docs", DocValue::Items(entries)),
    ]
}

fn essay_value(content: &str) -> Vec<(String, DocValue)> {
    vec![
        field("tags", DocValue::Items(Vec::new())),
        field("changeGroupSummaries", DocValue::Fields(Vec::new())),
        field("versionControlMetadataUrl", text(&url_for(9))),
        field("@patchwork", patchwork_value()),
        field("discussions", DocValue::Fields(Vec::new())),
        field("content", text(content)),
        field("commentThreads", DocValue::Fields(Vec::new())),
    ]
}

#[test]
fn folder_decodes_with_all_fields() {
    let v = DocValue::Fields(folder_value("R", vec![entry_value("A", 5, "essay")]));
    let f = decode_folder(&v).unwrap();
    assert_eq!(f.title, "R");
    assert_eq!(f.tags, vec!["one".to_string(), "two".to_string()]);
    assert_eq!(f.docs.len(), 1);
    assert_eq!(f.docs[0].name, "A");
    assert_eq!(f.docs[0].type_, "essay");
    assert!(f.docs[0].id.eq_id(&DocId::new(vec![5u8; 16])));
    assert!(f.version_control_metadata_id.eq_id(&DocId::new(vec![9u8; 16])));
}

#[test]
fn folder_missing_field_is_a_miss() {
    let mut fs = folder_value("R", Vec::new());
    fs.retain(|(k, _)| k != "title");
    assert!(decode_folder(&DocValue::Fields(fs)).is_none());
}

#[test]
fn folder_wrong_shape_is_a_miss() {
    let mut fs = folder_value("R", Vec::new());
    for pair in fs.iter_mut() {
        if pair.0 == "title" {
            pair.1 = DocValue::Bool(true);
        }
    }
    assert!(decode_folder(&DocValue::Fields(fs)).is_none());
}

#[test]
fn folder_unparsable_entry_url_is_a_miss() {
    let bad = DocValue::Fields(vec![
        field("name", text("A")),
        field("url", text("automerge:???not-an-identifier")),
        field("type", text("essay")),
    ]);
    let v = DocValue::Fields(folder_value("R", vec![bad]));
    assert!(decode_folder(&v).is_none());
}

#[test]
fn essay_decodes_and_is_not_a_folder() {
    let v = DocValue::Fields(essay_value("words"));
    assert!(decode_folder(&v).is_none());
    let e = decode_essay(&v).unwrap();
    assert_eq!(e.content, "words");
}

#[test]
fn version_control_decodes() {
    let v = DocValue::Fields(vec![
        field("isBranchScope", DocValue::Bool(true)),
        field("changeGroupSummaries", DocValue::Fields(Vec::new())),
    ]);
    let x = decode_version_control(&v).unwrap();
    assert!(x.is_branch_scope);
}

#[test]
fn typed_decode_prefers_folder_then_essay() {
    let folder = DocValue::Fields(folder_value("R", Vec::new()));
    assert!(matches!(decode_typed(&folder), TypedDoc::Folder(_)));
    let essay = DocValue::Fields(essay_value("w"));
    assert!(matches!(decode_typed(&essay), TypedDoc::Essay(_)));
    assert!(matches!(decode_typed(&DocValue::Opaque), TypedDoc::Opaque));
    assert!(matches!(decode_typed(&text("loose text")), TypedDoc::Opaque));
}
