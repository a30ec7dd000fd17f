use mergepen::doc_id::DocId;
use mergepen::doc_types::{
    EssayDoc, FolderDoc, FolderItem, PatchworkMetadata, TypedDoc, VersionControlMetadataDoc,
};
use mergepen::store::DocStore;
use mergepen::walker::{visit, VisitError, VisitNode, WalkPhase, Walker};

fn did(n: u8) -> DocId {
    DocId::new(vec![n])
}

fn meta() -> PatchworkMetadata {
    PatchworkMetadata { suggested_import_url: String::new(), type_: String::new() }
}

fn item(name: &str, id: &DocId, ty: &str) -> FolderItem {
    FolderItem { name: name.to_string(), id: id.clone_id(), type_: ty.to_string() }
}

fn folder_doc(title: &str, items: Vec<FolderItem>) -> TypedDoc {
    TypedDoc::Folder(FolderDoc {
        tags: Vec::new(),
        change_group_summaries: Vec::new(),
        version_control_metadata_id: DocId::new(Vec::new()),
        patchwork: meta(),
        discussions: Vec::new(),
        title: title.to_string(),
        docs: items,
    })
}

fn essay_doc(content: &str) -> TypedDoc {
    TypedDoc::Essay(EssayDoc {
        tags: Vec::new(),
        change_group_summaries: Vec::new(),
        version_control_metadata_id: DocId::new(Vec::new()),
        patchwork: meta(),
        discussions: Vec::new(),
        content: content.to_string(),
        comment_threads: Vec::new(),
    })
}

fn names(nodes: &[VisitNode]) -> Vec<String> {
    nodes.iter().map(|n| n.name.clone()).collect()
}

#[test]
fn root_first_and_empty_path() {
    let root = did(1);
    let mut store = DocStore::new();
    store.insert(root.clone_id(), folder_doc("R", Vec::new()));
    let nodes = visit(&store, &root).unwrap();
    assert_eq!(nodes.len(), 1);
    assert!(nodes[0].id.eq_id(&root));
    assert_eq!(nodes[0].name, "R");
    assert_eq!(nodes[0].type_, "folder");
    assert!(nodes[0].parents.is_empty());
}

#[test]
fn end_to_end_scenario() {
    // root folder "R" -> [("A", id1, essay), ("B", id2, folder)];
    // id2 -> folder "B" -> [("C", id3, essay)]
    let root = did(1);
    let id1 = did(2);
    let id2 = did(3);
    let id3 = did(4);
    let mut store = DocStore::new();
    store.insert(
        root.clone_id(),
        folder_doc("R", vec![item("A", &id1, "essay"), item("B", &id2, "folder")]),
    );
    store.insert(id1.clone_id(), essay_doc("a"));
    store.insert(id2.clone_id(), folder_doc("B", vec![item("C", &id3, "essay")]));
    store.insert(id3.clone_id(), essay_doc("c"));

    let nodes = visit(&store, &root).unwrap();
    assert_eq!(nodes.len(), 4);

    // The worklist is LIFO, so siblings come out in reverse declaration
    // order: R, then B's subtree, then A.
    assert_eq!(names(&nodes), vec!["R", "B", "C", "A"]);

    assert!(nodes[0].id.eq_id(&root));
    assert!(nodes[1].id.eq_id(&id2));
    assert!(nodes[2].id.eq_id(&id3));
    assert!(nodes[3].id.eq_id(&id1));

    assert!(nodes[0].parents.is_empty());
    assert_eq!(nodes[1].parents, vec!["R".to_string()]);
    assert_eq!(nodes[2].parents, vec!["R".to_string(), "B".to_string()]);
    assert_eq!(nodes[3].parents, vec!["R".to_string()]);

    // exactly-once visitation: all identifiers distinct
    for i in 0..nodes.len() {
        for j in 0..nodes.len() {
            if i != j {
                assert!(!nodes[i].id.eq_id(&nodes[j].id));
            }
        }
    }
}

#[test]
fn cycle_rejection() {
    // A lists B; B lists A
    let a = did(1);
    let b = did(2);
    let mut store = DocStore::new();
    store.insert(a.clone_id(), folder_doc("A", vec![item("B", &b, "folder")]));
    store.insert(b.clone_id(), folder_doc("B", vec![item("A", &a, "folder")]));
    let r = visit(&store, &a);
    assert_eq!(r.unwrap_err(), VisitError::CircularStructure);
}

#[test]
fn self_cycle_rejection() {
    let a = did(1);
    let mut store = DocStore::new();
    store.insert(a.clone_id(), folder_doc("A", vec![item("A", &a, "folder")]));
    let r = visit(&store, &a);
    assert_eq!(r.unwrap_err(), VisitError::CircularStructure);
}

#[test]
fn diamond_rejection() {
    // A lists B and C; both B and C list D: rejected even though no true
    // cycle exists (the structure must be a tree, not a DAG).
    let a = did(1);
    let b = did(2);
    let c = did(3);
    let d = did(4);
    let mut store = DocStore::new();
    store.insert(
        a.clone_id(),
        folder_doc("A", vec![item("B", &b, "folder"), item("C", &c, "folder")]),
    );
    store.insert(b.clone_id(), folder_doc("B", vec![item("D", &d, "essay")]));
    store.insert(c.clone_id(), folder_doc("C", vec![item("D", &d, "essay")]));
    store.insert(d.clone_id(), essay_doc("d"));
    let r = visit(&store, &a);
    assert_eq!(r.unwrap_err(), VisitError::CircularStructure);
}

#[test]
fn essay_leaf_not_expanded() {
    // An essay child gets exactly one visit node and no expansion, even if
    // another document shares its content.
    let root = did(1);
    let e = did(2);
    let mut store = DocStore::new();
    store.insert(root.clone_id(), folder_doc("R", vec![item("E", &e, "essay")]));
    store.insert(e.clone_id(), essay_doc("words"));
    let nodes = visit(&store, &root).unwrap();
    assert_eq!(nodes.len(), 2);
    assert_eq!(nodes[1].name, "E");
    assert_eq!(nodes[1].type_, "essay");
    assert!(nodes[1].id.eq_id(&e));
    assert_eq!(nodes[1].parents, vec!["R".to_string()]);
}

#[test]
fn opaque_leaf_not_expanded() {
    // A decode miss is not an error: the document is an opaque leaf.
    let root = did(1);
    let o = did(2);
    let mut store = DocStore::new();
    store.insert(root.clone_id(), folder_doc("R", vec![item("O", &o, "mystery")]));
    store.insert(o.clone_id(), TypedDoc::Opaque);
    let nodes = visit(&store, &root).unwrap();
    assert_eq!(nodes.len(), 2);
    assert_eq!(nodes[1].name, "O");
    assert_eq!(nodes[1].type_, "mystery");
}

#[test]
fn missing_child_fails() {
    let root = did(1);
    let ghostly = did(9);
    let mut store = DocStore::new();
    store.insert(root.clone_id(), folder_doc("R", vec![item("G", &ghostly, "essay")]));
    let r = visit(&store, &root);
    assert_eq!(r.unwrap_err(), VisitError::NotFound);
}

#[test]
fn missing_root_fails() {
    let root = did(1);
    let store = DocStore::new();
    let r = visit(&store, &root);
    assert_eq!(r.unwrap_err(), VisitError::NotFound);
}

#[test]
fn root_not_a_folder_fails() {
    let root = did(1);
    let mut store = DocStore::new();
    store.insert(root.clone_id(), essay_doc("just text"));
    let r = visit(&store, &root);
    assert_eq!(r.unwrap_err(), VisitError::NotAFolder);
}

#[test]
fn version_control_doc_is_a_leaf() {
    let root = did(1);
    let v = did(2);
    let mut store = DocStore::new();
    store.insert(root.clone_id(), folder_doc("R", vec![item("V", &v, "vc")]));
    store.insert(
        v.clone_id(),
        TypedDoc::VersionControl(VersionControlMetadataDoc {
            is_branch_scope: true,
            change_group_summaries: Vec::new(),
        }),
    );
    let nodes = visit(&store, &root).unwrap();
    assert_eq!(nodes.len(), 2);
}

#[test]
fn step_machine_drives_like_visit() {
    // Drive the step machine by hand, as an asynchronous caller would.
    let root = did(1);
    let e = did(2);
    let mut store = DocStore::new();
    store.insert(root.clone_id(), folder_doc("R", vec![item("E", &e, "essay")]));
    store.insert(e.clone_id(), essay_doc("words"));

    let mut w = Walker::new(root.clone_id());
    assert_eq!(w.phase(), WalkPhase::AwaitRoot);
    w.feed_root(store.lookup(w.root_id())).unwrap();
    assert_eq!(w.phase(), WalkPhase::Idle);

    let mut seen_names = Vec::new();
    while let Some(id) = w.begin_next() {
        let node = w.feed_doc(store.lookup(&id)).unwrap();
        seen_names.push(node.name);
    }
    assert_eq!(w.phase(), WalkPhase::Done);
    assert_eq!(seen_names, vec!["R".to_string(), "E".to_string()]);
}

#[test]
fn store_lookup_finds_first_match() {
    let a = did(1);
    let b = did(2);
    let mut store = DocStore::new();
    store.insert(a.clone_id(), essay_doc("one"));
    store.insert(b.clone_id(), essay_doc("two"));
    assert!(matches!(store.lookup(&a), Some(TypedDoc::Essay(_))));
    assert!(matches!(store.lookup(&b), Some(TypedDoc::Essay(_))));
    assert!(store.lookup(&did(3)).is_none());
}

#[test]
fn duplicate_sibling_entries_are_visited_twice() {
    // The seen set is populated at dequeue time, so two sibling entries
    // naming the same leaf are both queued and both visited: only trees
    // with non-repeating identifiers get the exactly-once guarantee.
    let root = did(1);
    let x = did(2);
    let mut store = DocStore::new();
    store.insert(
        root.clone_id(),
        folder_doc("R", vec![item("X", &x, "essay"), item("X", &x, "essay")]),
    );
    store.insert(x.clone_id(), essay_doc("x"));
    let nodes = visit(&store, &root).unwrap();
    assert_eq!(nodes.len(), 3);
    assert!(nodes[1].id.eq_id(&x));
    assert!(nodes[2].id.eq_id(&x));
}
