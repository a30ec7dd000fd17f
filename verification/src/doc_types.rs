//! Typed views of the documents that live in the store.
//!
//! A document does not carry a type tag of its own: its type is determined
//! structurally, by whether its current state decodes into one of the known
//! shapes below. A document that matches none of them is treated by the
//! walker as an opaque leaf.

use vstd::prelude::*;

use crate::doc_id::DocId;

verus! {

/// Auxiliary metadata carried by folder and essay documents.
pub struct PatchworkMetadata {
    pub suggested_import_url: String,
    pub type_: String,
}

/// Ghost model of [`PatchworkMetadata`].
pub struct PatchworkMetadataV {
    pub suggested_import_url: Seq<char>,
    pub type_: Seq<char>,
}

impl View for PatchworkMetadata {
    type V = PatchworkMetadataV;

    open spec fn view(&self) -> PatchworkMetadataV {
        PatchworkMetadataV {
            suggested_import_url: self.suggested_import_url@,
            type_: self.type_@,
        }
    }
}

/// A leaf/content document: free-form text plus auxiliary metadata. None of
/// its fields matter to traversal; the walker never expands an essay.
pub struct EssayDoc {
    pub tags: Vec<String>,
    pub change_group_summaries: Vec<(String, String)>,
    pub version_control_metadata_id: DocId,
    pub patchwork: PatchworkMetadata,
    pub discussions: Vec<(String, String)>,
    pub content: String,
    pub comment_threads: Vec<(String, String)>,
}

/// Ghost model of [`EssayDoc`].
pub struct EssayDocV {
    pub tags: Seq<Seq<char>>,
    pub change_group_summaries: Seq<(Seq<char>, Seq<char>)>,
    pub version_control_metadata_id: Seq<u8>,
    pub patchwork: PatchworkMetadataV,
    pub discussions: Seq<(Seq<char>, Seq<char>)>,
    pub content: Seq<char>,
    pub comment_threads: Seq<(Seq<char>, Seq<char>)>,
}

/// View of a sequence of strings as a sequence of character sequences.
pub open spec fn strings_view(v: Seq<String>) -> Seq<Seq<char>> {
    v.map_values(|s: String| s@)
}

/// View of a sequence of string pairs.
pub open spec fn pairs_view(v: Seq<(String, String)>) -> Seq<(Seq<char>, Seq<char>)> {
    v.map_values(|p: (String, String)| (p.0@, p.1@))
}

/// View of a sequence of folder items.
pub open spec fn items_view(v: Seq<FolderItem>) -> Seq<FolderItemV> {
    v.map_values(|it: FolderItem| it@)
}

impl View for EssayDoc {
    type V = EssayDocV;

    open spec fn view(&self) -> EssayDocV {
        EssayDocV {
            tags: strings_view(self.tags@),
            change_group_summaries: pairs_view(self.change_group_summaries@),
            version_control_metadata_id: self.version_control_metadata_id@,
            patchwork: self.patchwork@,
            discussions: pairs_view(self.discussions@),
            content: self.content@,
            comment_threads: pairs_view(self.comment_threads@),
        }
    }
}

/// One child entry of a folder: a display name, the identifier of the child
/// document, and the child's declared type tag (a free-form string such as
/// `"folder"` or `"essay"`).
pub struct FolderItem {
    pub name: String,
    pub id: DocId,
    pub type_: String,
}

/// Ghost model of [`FolderItem`].
pub struct FolderItemV {
    pub name: Seq<char>,
    pub id: Seq<u8>,
    pub type_: Seq<char>,
}

impl View for FolderItem {
    type V = FolderItemV;

    open spec fn view(&self) -> FolderItemV {
        FolderItemV { name: self.name@, id: self.id@, type_: self.type_@ }
    }
}

/// A folder document: a title and an ordered list of child entries.
pub struct FolderDoc {
    pub tags: Vec<String>,
    pub change_group_summaries: Vec<(String, String)>,
    pub version_control_metadata_id: DocId,
    pub patchwork: PatchworkMetadata,
    pub discussions: Vec<(String, String)>,
    pub title: String,
    pub docs: Vec<FolderItem>,
}

/// Ghost model of [`FolderDoc`].
pub struct FolderDocV {
    pub tags: Seq<Seq<char>>,
    pub change_group_summaries: Seq<(Seq<char>, Seq<char>)>,
    pub version_control_metadata_id: Seq<u8>,
    pub patchwork: PatchworkMetadataV,
    pub discussions: Seq<(Seq<char>, Seq<char>)>,
    pub title: Seq<char>,
    pub docs: Seq<FolderItemV>,
}

impl View for FolderDoc {
    type V = FolderDocV;

    open spec fn view(&self) -> FolderDocV {
        FolderDocV {
            tags: strings_view(self.tags@),
            change_group_summaries: pairs_view(self.change_group_summaries@),
            version_control_metadata_id: self.version_control_metadata_id@,
            patchwork: self.patchwork@,
            discussions: pairs_view(self.discussions@),
            title: self.title@,
            docs: items_view(self.docs@),
        }
    }
}

/// Branch/merge bookkeeping; never traversed.
pub struct VersionControlMetadataDoc {
    pub is_branch_scope: bool,
    pub change_group_summaries: Vec<(String, String)>,
}

/// Ghost model of [`VersionControlMetadataDoc`].
pub struct VersionControlMetadataDocV {
    pub is_branch_scope: bool,
    pub change_group_summaries: Seq<(Seq<char>, Seq<char>)>,
}

impl View for VersionControlMetadataDoc {
    type V = VersionControlMetadataDocV;

    open spec fn view(&self) -> VersionControlMetadataDocV {
        VersionControlMetadataDocV {
            is_branch_scope: self.is_branch_scope,
            change_group_summaries: pairs_view(self.change_group_summaries@),
        }
    }
}

/// The outcome of structurally decoding a document: one of the known shapes,
/// or an opaque document that matched none of them (a decode miss, which is
/// not an error).
pub enum TypedDoc {
    Folder(FolderDoc),
    Essay(EssayDoc),
    VersionControl(VersionControlMetadataDoc),
    Opaque,
}

/// Ghost model of [`TypedDoc`].
pub enum TypedDocV {
    Folder(FolderDocV),
    Essay(EssayDocV),
    VersionControl(VersionControlMetadataDocV),
    Opaque,
}

impl View for TypedDoc {
    type V = TypedDocV;

    open spec fn view(&self) -> TypedDocV {
        match self {
            TypedDoc::Folder(f) => TypedDocV::Folder(f@),
            TypedDoc::Essay(e) => TypedDocV::Essay(e@),
            TypedDoc::VersionControl(v) => TypedDocV::VersionControl(v@),
            TypedDoc::Opaque => TypedDocV::Opaque,
        }
    }
}

} // verus!
