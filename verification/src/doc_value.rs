//! A structural model of a document's materialized state, and the typed
//! document decoder over it.
//!
//! The live store materializes a document as a tree of maps, lists, text
//! and scalars; the caller that holds the document converts that tree
//! one-for-one into a [`DocValue`]. The decoding itself — which fields a
//! known shape requires, which shapes count, and how embedded identifier
//! strings are parsed — happens here: a shape decodes exactly when every
//! required field is present with the expected shape and every embedded
//! identifier string parses through the canonical parser. Anything else
//! is a decode miss (`None`), never an error.

use vstd::prelude::*;

use crate::doc_id::DocId;
use crate::doc_types::{
    items_view, pairs_view, strings_view, EssayDoc, EssayDocV, FolderDoc, FolderDocV, FolderItem,
    FolderItemV, PatchworkMetadata, PatchworkMetadataV, TypedDoc, TypedDocV,
    VersionControlMetadataDoc, VersionControlMetadataDocV,
};

verus! {

/// A document's materialized state: named fields, ordered items, text and
/// booleans. Any other value a document can hold is `Opaque`: no known
/// shape requires one.
pub enum DocValue {
    Fields(Vec<(String, DocValue)>),
    Items(Vec<DocValue>),
    Text(String),
    Bool(bool),
    Opaque,
}

/// What the canonical URL parser of the store returns for a given piece of
/// text: the raw bytes of the named document's identifier, or nothing when
/// the text is not a well-formed document URL. The parse is a function of
/// the text alone.
pub uninterp spec fn parsed_automerge_url(s: Seq<char>) -> Option<Seq<u8>>;

/// Relies on `samod_core::AutomergeUrl::from_str` (an `automerge:` prefix
/// followed by a canonically encoded identifier) and on
/// `AutomergeUrl::document_id` / `DocumentId::as_bytes` for the raw bytes
/// of the named document. The result depends on the text alone.
#[verifier::external_body]
fn parse_automerge_url_outside(s: &str) -> (r: Option<DocId>)
    ensures
        r matches Some(d) ==> parsed_automerge_url(s@) == Some(d@),
        r is None ==> parsed_automerge_url(s@) is None,
{
    match s.parse::<samod_core::AutomergeUrl>() {
        Ok(u) => Some(DocId::new(u.document_id().as_bytes().to_vec())),
        Err(_) => None,
    }
}

/// The first field of `fs` named `name`, if any.
pub open spec fn field_of(fs: Seq<(String, DocValue)>, name: Seq<char>) -> Option<DocValue>
    decreases fs.len(),
{
    if fs.len() == 0 {
        None
    } else if fs[0].0@ == name {
        Some(fs[0].1)
    } else {
        field_of(fs.drop_first(), name)
    }
}

/// If no field among the first `n` matches `name`, the lookup can skip
/// them.
proof fn lemma_field_skip(fs: Seq<(String, DocValue)>, name: Seq<char>, n: int)
    requires
        0 <= n <= fs.len(),
        forall|j: int| 0 <= j < n ==> fs[j].0@ != name,
    ensures
        field_of(fs, name) == field_of(fs.skip(n), name),
    decreases n,
{
    if n > 0 {
        assert(forall|j: int| 0 <= j < n - 1 ==> fs.drop_first()[j].0@ != name);
        lemma_field_skip(fs.drop_first(), name, n - 1);
        assert(fs.drop_first().skip(n - 1) =~= fs.skip(n));
        assert(field_of(fs, name) == field_of(fs.drop_first(), name));
    } else {
        assert(fs.skip(0) =~= fs);
    }
}

/// Look a field up by name.
fn get_field<'a>(fs: &'a Vec<(String, DocValue)>, name: &str) -> (r: Option<&'a DocValue>)
    ensures
        r matches Some(v) ==> field_of(fs@, name@) == Some(*v),
        r is None ==> field_of(fs@, name@) is None,
{
    let want: String = name.to_owned();
    let mut i: usize = 0;
    while i < fs.len()
        invariant
            0 <= i <= fs.len(),
            want@ == name@,
            forall|j: int| 0 <= j < i ==> fs@[j].0@ != name@,
        decreases fs.len() - i,
    {
        if fs[i].0 == want {
            proof {
                lemma_field_skip(fs@, name@, i as int);
                assert(fs@.skip(i as int)[0] == fs@[i as int]);
            }
            return Some(&fs[i].1);
        }
        i += 1;
    }
    proof {
        lemma_field_skip(fs@, name@, fs@.len() as int);
        assert(fs@.skip(fs@.len() as int) =~= Seq::<(String, DocValue)>::empty());
    }
    None
}

/// The text a value holds, when it is text.
pub open spec fn text_shape_of(v: DocValue) -> Option<Seq<char>> {
    match v {
        DocValue::Text(s) => Some(s@),
        _ => None,
    }
}

/// The boolean a value holds, when it is a boolean.
pub open spec fn bool_shape_of(v: DocValue) -> Option<bool> {
    match v {
        DocValue::Bool(b) => Some(b),
        _ => None,
    }
}

/// The identifier a value names, when it is text in the canonical URL form.
pub open spec fn id_shape_of(v: DocValue) -> Option<Seq<u8>> {
    match v {
        DocValue::Text(s) => parsed_automerge_url(s@),
        _ => None,
    }
}

/// The texts a list holds, when every item is text.
pub open spec fn texts_shape_of(items: Seq<DocValue>) -> Option<Seq<Seq<char>>>
    decreases items.len(),
{
    if items.len() == 0 {
        Some(Seq::empty())
    } else {
        match (texts_shape_of(items.drop_last()), text_shape_of(items.last())) {
            (Some(rest), Some(s)) => Some(rest.push(s)),
            _ => None,
        }
    }
}

/// The name/text pairs a field list holds, when every value is text.
pub open spec fn text_fields_of(fs: Seq<(String, DocValue)>) -> Option<Seq<(Seq<char>, Seq<char>)>>
    decreases fs.len(),
{
    if fs.len() == 0 {
        Some(Seq::empty())
    } else {
        match (text_fields_of(fs.drop_last()), text_shape_of(fs.last().1)) {
            (Some(rest), Some(s)) => Some(rest.push((fs.last().0@, s))),
            _ => None,
        }
    }
}

/// The folder entry a value describes: a display name, a target document
/// URL that parses to an identifier, and a declared type tag.
pub open spec fn item_shape_of(v: DocValue) -> Option<FolderItemV> {
    match v {
        DocValue::Fields(fs) => match (
            field_text(fs@, "name"@),
            field_id(fs@, "url"@),
            field_text(fs@, "type"@),
        ) {
            (Some(n), Some(i), Some(t)) => Some(FolderItemV { name: n, id: i, type_: t }),
            _ => None,
        },
        _ => None,
    }
}

/// The folder entries a list holds, when every item is one.
pub open spec fn item_seq_shape_of(items: Seq<DocValue>) -> Option<Seq<FolderItemV>>
    decreases items.len(),
{
    if items.len() == 0 {
        Some(Seq::empty())
    } else {
        match (item_seq_shape_of(items.drop_last()), item_shape_of(items.last())) {
            (Some(rest), Some(it)) => Some(rest.push(it)),
            _ => None,
        }
    }
}

/// The auxiliary metadata record a value describes.
pub open spec fn patchwork_shape_of(v: DocValue) -> Option<PatchworkMetadataV> {
    match v {
        DocValue::Fields(fs) => match (
            field_text(fs@, "suggestedImportUrl"@),
            field_text(fs@, "type"@),
        ) {
            (Some(u), Some(t)) => Some(
                PatchworkMetadataV { suggested_import_url: u, type_: t },
            ),
            _ => None,
        },
        _ => None,
    }
}

/// The named field as text.
pub open spec fn field_text(fs: Seq<(String, DocValue)>, name: Seq<char>) -> Option<Seq<char>> {
    match field_of(fs, name) {
        Some(v) => text_shape_of(v),
        None => None,
    }
}

/// The named field as a boolean.
pub open spec fn field_bool(fs: Seq<(String, DocValue)>, name: Seq<char>) -> Option<bool> {
    match field_of(fs, name) {
        Some(v) => bool_shape_of(v),
        None => None,
    }
}

/// The named field as an identifier-bearing URL.
pub open spec fn field_id(fs: Seq<(String, DocValue)>, name: Seq<char>) -> Option<Seq<u8>> {
    match field_of(fs, name) {
        Some(v) => id_shape_of(v),
        None => None,
    }
}

/// The named field as a list of texts.
pub open spec fn field_strings(fs: Seq<(String, DocValue)>, name: Seq<char>) -> Option<
    Seq<Seq<char>>,
> {
    match field_of(fs, name) {
        Some(DocValue::Items(items)) => texts_shape_of(items@),
        _ => None,
    }
}

/// The named field as a record of text values.
pub open spec fn field_pairs(fs: Seq<(String, DocValue)>, name: Seq<char>) -> Option<
    Seq<(Seq<char>, Seq<char>)>,
> {
    match field_of(fs, name) {
        Some(DocValue::Fields(inner)) => text_fields_of(inner@),
        _ => None,
    }
}

/// The named field as a list of folder entries.
pub open spec fn field_items(fs: Seq<(String, DocValue)>, name: Seq<char>) -> Option<
    Seq<FolderItemV>,
> {
    match field_of(fs, name) {
        Some(DocValue::Items(items)) => item_seq_shape_of(items@),
        _ => None,
    }
}

/// The named field as an auxiliary metadata record.
pub open spec fn field_patchwork(fs: Seq<(String, DocValue)>, name: Seq<char>) -> Option<
    PatchworkMetadataV,
> {
    match field_of(fs, name) {
        Some(v) => patchwork_shape_of(v),
        None => None,
    }
}

/// The folder document a value describes, when every required field is
/// present with the expected shape.
pub open spec fn folder_shape_of(v: DocValue) -> Option<FolderDocV> {
    match v {
        DocValue::Fields(fs) => match (
            field_strings(fs@, "tags"@),
            field_pairs(fs@, "changeGroupSummaries"@),
            field_id(fs@, "versionControlMetadataUrl"@),
            field_patchwork(fs@, "@patchwork"@),
            field_pairs(fs@, "discussions"@),
            field_text(fs@, "title"@),
            field_items(fs@, "docs"@),
        ) {
            (Some(tags), Some(cgs), Some(vc), Some(pw), Some(disc), Some(title), Some(docs)) => Some(
                FolderDocV {
                    tags: tags,
                    change_group_summaries: cgs,
                    version_control_metadata_id: vc,
                    patchwork: pw,
                    discussions: disc,
                    title: title,
                    docs: docs,
                },
            ),
            _ => None,
        },
        _ => None,
    }
}

/// The essay document a value describes.
pub open spec fn essay_shape_of(v: DocValue) -> Option<EssayDocV> {
    match v {
        DocValue::Fields(fs) => match (
            field_strings(fs@, "tags"@),
            field_pairs(fs@, "changeGroupSummaries"@),
            field_id(fs@, "versionControlMetadataUrl"@),
            field_patchwork(fs@, "@patchwork"@),
            field_pairs(fs@, "discussions"@),
            field_text(fs@, "content"@),
            field_pairs(fs@, "commentThreads"@),
        ) {
            (Some(tags), Some(cgs), Some(vc), Some(pw), Some(disc), Some(content), Some(ct)) => Some(
                EssayDocV {
                    tags: tags,
                    change_group_summaries: cgs,
                    version_control_metadata_id: vc,
                    patchwork: pw,
                    discussions: disc,
                    content: content,
                    comment_threads: ct,
                },
            ),
            _ => None,
        },
        _ => None,
    }
}

/// The version-control metadata document a value describes.
pub open spec fn version_control_shape_of(v: DocValue) -> Option<VersionControlMetadataDocV> {
    match v {
        DocValue::Fields(fs) => match (
            field_bool(fs@, "isBranchScope"@),
            field_pairs(fs@, "changeGroupSummaries"@),
        ) {
            (Some(b), Some(cgs)) => Some(
                VersionControlMetadataDocV { is_branch_scope: b, change_group_summaries: cgs },
            ),
            _ => None,
        },
        _ => None,
    }
}

/// The typed view of a value: the first known shape it matches, in the
/// order folder, essay, version-control metadata; anything else is opaque.
pub open spec fn typed_shape_of(v: DocValue) -> TypedDocV {
    match folder_shape_of(v) {
        Some(f) => TypedDocV::Folder(f),
        None => match essay_shape_of(v) {
            Some(e) => TypedDocV::Essay(e),
            None => match version_control_shape_of(v) {
                Some(x) => TypedDocV::VersionControl(x),
                None => TypedDocV::Opaque,
            },
        },
    }
}

/// A list that misses the text shape in a prefix misses it as a whole.
proof fn lemma_texts_prefix_none(items: Seq<DocValue>, n: int)
    requires
        0 <= n <= items.len(),
        texts_shape_of(items.take(n)) is None,
    ensures
        texts_shape_of(items) is None,
    decreases items.len() - n,
{
    if n == items.len() {
        assert(items.take(n) =~= items);
    } else {
        assert(items.take(n + 1).drop_last() =~= items.take(n));
        lemma_texts_prefix_none(items, n + 1);
    }
}

/// A field list that misses the text-record shape in a prefix misses it as
/// a whole.
proof fn lemma_pairs_prefix_none(fs: Seq<(String, DocValue)>, n: int)
    requires
        0 <= n <= fs.len(),
        text_fields_of(fs.take(n)) is None,
    ensures
        text_fields_of(fs) is None,
    decreases fs.len() - n,
{
    if n == fs.len() {
        assert(fs.take(n) =~= fs);
    } else {
        assert(fs.take(n + 1).drop_last() =~= fs.take(n));
        lemma_pairs_prefix_none(fs, n + 1);
    }
}

/// A list that misses the folder-entry shape in a prefix misses it as a
/// whole.
proof fn lemma_items_prefix_none(items: Seq<DocValue>, n: int)
    requires
        0 <= n <= items.len(),
        item_seq_shape_of(items.take(n)) is None,
    ensures
        item_seq_shape_of(items) is None,
    decreases items.len() - n,
{
    if n == items.len() {
        assert(items.take(n) =~= items);
    } else {
        assert(items.take(n + 1).drop_last() =~= items.take(n));
        lemma_items_prefix_none(items, n + 1);
    }
}

/// Decode the named field as text.
fn get_text(fs: &Vec<(String, DocValue)>, name: &str) -> (r: Option<String>)
    ensures
        r matches Some(s) ==> field_text(fs@, name@) == Some(s@),
        r is None ==> field_text(fs@, name@) is None,
{
    match get_field(fs, name) {
        Some(DocValue::Text(s)) => Some(s.clone()),
        _ => None,
    }
}

/// Decode the named field as a boolean.
fn get_bool(fs: &Vec<(String, DocValue)>, name: &str) -> (r: Option<bool>)
    ensures
        r matches Some(b) ==> field_bool(fs@, name@) == Some(b),
        r is None ==> field_bool(fs@, name@) is None,
{
    match get_field(fs, name) {
        Some(DocValue::Bool(b)) => Some(*b),
        _ => None,
    }
}

/// Decode the named field as a document URL, through the canonical parser.
fn get_id(fs: &Vec<(String, DocValue)>, name: &str) -> (r: Option<DocId>)
    ensures
        r matches Some(d) ==> field_id(fs@, name@) == Some(d@),
        r is None ==> field_id(fs@, name@) is None,
{
    match get_field(fs, name) {
        Some(DocValue::Text(s)) => parse_automerge_url_outside(s.as_str()),
        _ => None,
    }
}

/// Decode the named field as a list of texts.
#[verifier::loop_isolation(false)]
fn get_strings(fs: &Vec<(String, DocValue)>, name: &str) -> (r: Option<Vec<String>>)
    ensures
        r matches Some(ss) ==> field_strings(fs@, name@) == Some(strings_view(ss@)),
        r is None ==> field_strings(fs@, name@) is None,
{
    match get_field(fs, name) {
        Some(DocValue::Items(items)) => {
            let mut out: Vec<String> = Vec::new();
            proof {
                assert(items@.take(0) =~= Seq::<DocValue>::empty());
                assert(strings_view(out@) =~= Seq::<Seq<char>>::empty());
            }
            let mut i: usize = 0;
            while i < items.len()
                invariant
                    0 <= i <= items.len(),
                    texts_shape_of(items@.take(i as int)) == Some(strings_view(out@)),
                decreases items.len() - i,
            {
                proof {
                    assert(items@.take(i + 1 as int).drop_last() =~= items@.take(i as int));
                    assert(items@.take(i + 1 as int).last() == items@[i as int]);
                }
                match &items[i] {
                    DocValue::Text(s) => {
                        let ghost outpre = out@;
                        out.push(s.clone());
                        proof {
                            assert(strings_view(out@) =~= strings_view(outpre).push(s@));
                        }
                    },
                    _ => {
                        proof {
                            lemma_texts_prefix_none(items@, i + 1 as int);
                        }
                        return None;
                    },
                }
                i += 1;
            }
            proof {
                assert(items@.take(items@.len() as int) =~= items@);
            }
            Some(out)
        },
        _ => None,
    }
}

/// Decode the named field as a record of text values.
#[verifier::loop_isolation(false)]
fn get_pairs(fs: &Vec<(String, DocValue)>, name: &str) -> (r: Option<Vec<(String, String)>>)
    ensures
        r matches Some(ps) ==> field_pairs(fs@, name@) == Some(pairs_view(ps@)),
        r is None ==> field_pairs(fs@, name@) is None,
{
    match get_field(fs, name) {
        Some(DocValue::Fields(inner)) => {
            let mut out: Vec<(String, String)> = Vec::new();
            proof {
                assert(inner@.take(0) =~= Seq::<(String, DocValue)>::empty());
                assert(pairs_view(out@) =~= Seq::<(Seq<char>, Seq<char>)>::empty());
            }
            let mut i: usize = 0;
            while i < inner.len()
                invariant
                    0 <= i <= inner.len(),
                    text_fields_of(inner@.take(i as int)) == Some(pairs_view(out@)),
                decreases inner.len() - i,
            {
                proof {
                    assert(inner@.take(i + 1 as int).drop_last() =~= inner@.take(i as int));
                    assert(inner@.take(i + 1 as int).last() == inner@[i as int]);
                }
                match &inner[i].1 {
                    DocValue::Text(s) => {
                        let ghost outpre = out@;
                        out.push((inner[i].0.clone(), s.clone()));
                        proof {
                            assert(pairs_view(out@) =~= pairs_view(outpre).push(
                                (inner@[i as int].0@, s@),
                            ));
                        }
                    },
                    _ => {
                        proof {
                            lemma_pairs_prefix_none(inner@, i + 1 as int);
                        }
                        return None;
                    },
                }
                i += 1;
            }
            proof {
                assert(inner@.take(inner@.len() as int) =~= inner@);
            }
            Some(out)
        },
        _ => None,
    }
}

/// Decode a folder entry.
fn decode_item(v: &DocValue) -> (r: Option<FolderItem>)
    ensures
        r matches Some(it) ==> item_shape_of(*v) == Some(it@),
        r is None ==> item_shape_of(*v) is None,
{
    match v {
        DocValue::Fields(fs) => {
            match (get_text(fs, "name"), get_id(fs, "url"), get_text(fs, "type")) {
                (Some(name), Some(id), Some(type_)) => Some(FolderItem { name, id, type_ }),
                _ => None,
            }
        },
        _ => None,
    }
}

/// Decode the named field as a list of folder entries.
#[verifier::loop_isolation(false)]
fn get_items(fs: &Vec<(String, DocValue)>, name: &str) -> (r: Option<Vec<FolderItem>>)
    ensures
        r matches Some(its) ==> field_items(fs@, name@) == Some(items_view(its@)),
        r is None ==> field_items(fs@, name@) is None,
{
    match get_field(fs, name) {
        Some(DocValue::Items(items)) => {
            let mut out: Vec<FolderItem> = Vec::new();
            proof {
                assert(items@.take(0) =~= Seq::<DocValue>::empty());
                assert(items_view(out@) =~= Seq::<FolderItemV>::empty());
            }
            let mut i: usize = 0;
            while i < items.len()
                invariant
                    0 <= i <= items.len(),
                    item_seq_shape_of(items@.take(i as int)) == Some(items_view(out@)),
                decreases items.len() - i,
            {
                proof {
                    assert(items@.take(i + 1 as int).drop_last() =~= items@.take(i as int));
                    assert(items@.take(i + 1 as int).last() == items@[i as int]);
                }
                match decode_item(&items[i]) {
                    Some(it) => {
                        let ghost outpre = out@;
                        let ghost itv = it@;
                        out.push(it);
                        proof {
                            assert(items_view(out@) =~= items_view(outpre).push(itv));
                        }
                    },
                    None => {
                        proof {
                            lemma_items_prefix_none(items@, i + 1 as int);
                        }
                        return None;
                    },
                }
                i += 1;
            }
            proof {
                assert(items@.take(items@.len() as int) =~= items@);
            }
            Some(out)
        },
        _ => None,
    }
}

/// Decode the named field as an auxiliary metadata record.
fn get_patchwork(fs: &Vec<(String, DocValue)>, name: &str) -> (r: Option<PatchworkMetadata>)
    ensures
        r matches Some(pw) ==> field_patchwork(fs@, name@) == Some(pw@),
        r is None ==> field_patchwork(fs@, name@) is None,
{
    match get_field(fs, name) {
        Some(DocValue::Fields(inner)) => {
            match (get_text(inner, "suggestedImportUrl"), get_text(inner, "type")) {
                (Some(suggested_import_url), Some(type_)) => Some(
                    PatchworkMetadata { suggested_import_url, type_ },
                ),
                _ => None,
            }
        },
        _ => None,
    }
}

/// Try to decode a value as a folder document: a miss is `None`, never an
/// error.
pub fn decode_folder(v: &DocValue) -> (r: Option<FolderDoc>)
    ensures
        r matches Some(f) ==> folder_shape_of(*v) == Some(f@),
        r is None ==> folder_shape_of(*v) is None,
{
    match v {
        DocValue::Fields(fs) => {
            match (
                get_strings(fs, "tags"),
                get_pairs(fs, "changeGroupSummaries"),
                get_id(fs, "versionControlMetadataUrl"),
                get_patchwork(fs, "@patchwork"),
                get_pairs(fs, "discussions"),
                get_text(fs, "title"),
                get_items(fs, "docs"),
            ) {
                (
                    Some(tags),
                    Some(change_group_summaries),
                    Some(version_control_metadata_id),
                    Some(patchwork),
                    Some(discussions),
                    Some(title),
                    Some(docs),
                ) => Some(
                    FolderDoc {
                        tags,
                        change_group_summaries,
                        version_control_metadata_id,
                        patchwork,
                        discussions,
                        title,
                        docs,
                    },
                ),
                _ => None,
            }
        },
        _ => None,
    }
}

/// Try to decode a value as an essay document.
pub fn decode_essay(v: &DocValue) -> (r: Option<EssayDoc>)
    ensures
        r matches Some(e) ==> essay_shape_of(*v) == Some(e@),
        r is None ==> essay_shape_of(*v) is None,
{
    match v {
        DocValue::Fields(fs) => {
            match (
                get_strings(fs, "tags"),
                get_pairs(fs, "changeGroupSummaries"),
                get_id(fs, "versionControlMetadataUrl"),
                get_patchwork(fs, "@patchwork"),
                get_pairs(fs, "discussions"),
                get_text(fs, "content"),
                get_pairs(fs, "commentThreads"),
            ) {
                (
                    Some(tags),
                    Some(change_group_summaries),
                    Some(version_control_metadata_id),
                    Some(patchwork),
                    Some(discussions),
                    Some(content),
                    Some(comment_threads),
                ) => Some(
                    EssayDoc {
                        tags,
                        change_group_summaries,
                        version_control_metadata_id,
                        patchwork,
                        discussions,
                        content,
                        comment_threads,
                    },
                ),
                _ => None,
            }
        },
        _ => None,
    }
}

/// Try to decode a value as a version-control metadata document.
pub fn decode_version_control(v: &DocValue) -> (r: Option<VersionControlMetadataDoc>)
    ensures
        r matches Some(x) ==> version_control_shape_of(*v) == Some(x@),
        r is None ==> version_control_shape_of(*v) is None,
{
    match v {
        DocValue::Fields(fs) => {
            match (get_bool(fs, "isBranchScope"), get_pairs(fs, "changeGroupSummaries")) {
                (Some(is_branch_scope), Some(change_group_summaries)) => Some(
                    VersionControlMetadataDoc { is_branch_scope, change_group_summaries },
                ),
                _ => None,
            }
        },
        _ => None,
    }
}

/// Decode a value into its typed view: the first known shape it matches,
/// or an opaque leaf when none matches.
pub fn decode_typed(v: &DocValue) -> (r: TypedDoc)
    ensures
        r@ == typed_shape_of(*v),
{
    match decode_folder(v) {
        Some(f) => TypedDoc::Folder(f),
        None => match decode_essay(v) {
            Some(e) => TypedDoc::Essay(e),
            None => match decode_version_control(v) {
                Some(x) => TypedDoc::VersionControl(x),
                None => TypedDoc::Opaque,
            },
        },
    }
}

} // verus!
