//! The tree walker: a worklist traversal of the folder hierarchy.
//!
//! The walker is a step machine: it names the next identifier it needs
//! resolved, and is then fed the typed view of the resolved document (or
//! nothing, when the identifier is unknown to the store). The store itself
//! may be reached asynchronously by the caller driving the machine; the
//! decisions — what to expand, what counts as a cycle, which node to visit —
//! are all made here. [`visit`] drives the machine over an in-memory
//! [`DocStore`] snapshot.

use vstd::prelude::*;

use crate::doc_id::DocId;
use crate::doc_types::{strings_view, FolderDocV, FolderItemV, TypedDoc, TypedDocV};
use crate::store::{lookup_in, DocStore};

verus! {

/// Why a traversal was aborted.
#[derive(Clone, Copy, PartialEq, Eq, Structural, Debug)]
pub enum VisitError {
    /// The configured root, or a discovered child identifier, does not
    /// resolve in the store.
    NotFound,
    /// The root document exists but does not decode as a folder.
    NotAFolder,
    /// A child identifier was already seen: the structure is not a tree.
    CircularStructure,
}

/// One visited document: its display name, declared type tag, identifier,
/// and the display names of its ancestors from the root (exclusive) down to
/// its parent.
#[derive(Debug)]
pub struct VisitNode {
    pub name: String,
    pub type_: String,
    pub id: DocId,
    pub parents: Vec<String>,
}

/// Ghost model of [`VisitNode`].
pub struct NodeV {
    pub name: Seq<char>,
    pub type_: Seq<char>,
    pub id: Seq<u8>,
    pub parents: Seq<Seq<char>>,
}

impl View for VisitNode {
    type V = NodeV;

    open spec fn view(&self) -> NodeV {
        NodeV {
            name: self.name@,
            type_: self.type_@,
            id: self.id@,
            parents: strings_view(self.parents@),
        }
    }
}

/// Where the walker stands.
#[derive(Clone, Copy, PartialEq, Eq, Structural, Debug)]
pub enum WalkPhase {
    /// Waiting for the configured root to be resolved.
    AwaitRoot,
    /// Ready to pop the next pending node.
    Idle,
    /// A pending node was popped; waiting for its document.
    AwaitDoc,
    /// The worklist drained: the traversal is complete.
    Done,
    /// The traversal was aborted with a [`VisitError`].
    Failed,
}

/// Ghost model of [`Walker`].
pub struct WalkerV {
    pub root: Seq<u8>,
    pub queue: Seq<NodeV>,
    pub seen: Seq<Seq<u8>>,
    pub current: Option<NodeV>,
    pub phase: WalkPhase,
}

/// The worklist traversal state machine.
pub struct Walker {
    root: DocId,
    queue: Vec<VisitNode>,
    seen: Vec<DocId>,
    current: Option<VisitNode>,
    phase: WalkPhase,
}

impl View for Walker {
    type V = WalkerV;

    closed spec fn view(&self) -> WalkerV {
        WalkerV {
            root: self.root@,
            queue: nodes_view(self.queue@),
            seen: ids_view(self.seen@),
            current: match self.current {
                Some(n) => Some(n@),
                None => None,
            },
            phase: self.phase,
        }
    }
}

/// The pending record seeded for the root folder: its name is the folder's
/// title, its declared type is `"folder"`, and its ancestor path is empty.
pub open spec fn root_node(title: Seq<char>, root: Seq<u8>) -> NodeV {
    NodeV { name: title, type_: "folder"@, id: root, parents: Seq::empty() }
}

/// The pending records created for a folder's child entries, in entry
/// order, all carrying the same ancestor path.
pub open spec fn recs_of(items: Seq<FolderItemV>, parents: Seq<Seq<char>>) -> Seq<NodeV> {
    items.map_values(|it: FolderItemV| NodeV {
        name: it.name,
        type_: it.type_,
        id: it.id,
        parents: parents,
    })
}

/// View of a sequence of visit nodes.
pub open spec fn nodes_view(v: Seq<VisitNode>) -> Seq<NodeV> {
    v.map_values(|n: VisitNode| n@)
}

/// View of a sequence of identifiers.
pub open spec fn ids_view(v: Seq<DocId>) -> Seq<Seq<u8>> {
    v.map_values(|d: DocId| d@)
}

/// Viewing a list of nodes commutes with appending one node.
proof fn lemma_nodes_view_push(s: Seq<VisitNode>, n: VisitNode)
    ensures
        nodes_view(s.push(n)) == nodes_view(s).push(n@),
{
    assert(nodes_view(s.push(n)) =~= nodes_view(s).push(n@));
}

/// No child entry names an identifier that was already seen: the expansion
/// of a folder with these entries does not abort.
pub open spec fn expand_ok(seen: Seq<Seq<u8>>, items: Seq<FolderItemV>) -> bool {
    forall|i: int| 0 <= i < items.len() ==> !seen.contains(items[i].id)
}

/// A copy of a list of strings.
fn clone_strings(v: &Vec<String>) -> (r: Vec<String>)
    ensures
        strings_view(r@) == strings_view(v@),
{
    let r = v.clone();
    proof {
        assert(forall|i: int| 0 <= i < v@.len() ==> r@[i]@ == v@[i]@);
        assert(strings_view(r@) =~= strings_view(v@));
    }
    r
}

/// Whether `id` is among the identifiers of `seen`.
fn seen_has(seen: &Vec<DocId>, id: &DocId) -> (r: bool)
    ensures
        r == ids_view(seen@).contains(id@),
{
    let ghost seenv = ids_view(seen@);
    let mut i: usize = 0;
    while i < seen.len()
        invariant
            0 <= i <= seen.len(),
            seenv == ids_view(seen@),
            seenv.len() == seen@.len(),
            forall|j: int| 0 <= j < seen@.len() ==> seenv[j] == seen@[j]@,
            forall|j: int| 0 <= j < i ==> seenv[j] != id@,
        decreases seen.len() - i,
    {
        if seen[i].eq_id(id) {
            assert(seenv[i as int] == id@);
            return true;
        }
        i += 1;
    }
    proof {
        if seenv.contains(id@) {
            let j = choose|j: int| 0 <= j < seenv.len() && seenv[j] == id@;
            assert(false);
        }
    }
    false
}

impl Walker {
    /// A fresh traversal of the tree rooted at `root`. No state persists
    /// from one traversal to another: worklist and seen-set start empty.
    pub fn new(root: DocId) -> (w: Walker)
        ensures
            w@.phase == WalkPhase::AwaitRoot,
            w@.root == root@,
            w@.queue.len() == 0,
            w@.seen.len() == 0,
            w@.current is None,
    {
        let w = Walker {
            root,
            queue: Vec::new(),
            seen: Vec::new(),
            current: None,
            phase: WalkPhase::AwaitRoot,
        };
        proof {
            assert(w@.queue =~= Seq::<NodeV>::empty());
            assert(w@.seen =~= Seq::<Seq<u8>>::empty());
        }
        w
    }

    /// The identifier of the configured root.
    pub fn root_id(&self) -> (r: &DocId)
        ensures
            r@ == self@.root,
    {
        &self.root
    }

    /// The walker's phase, for a caller driving the machine.
    pub fn phase(&self) -> (r: WalkPhase)
        ensures
            r == self@.phase,
    {
        self.phase
    }

    /// Feed the resolution of the configured root identifier. The root must
    /// resolve and decode as a folder; the traversal is then seeded with a
    /// single pending record for it, carrying an empty ancestor path.
    pub fn feed_root(&mut self, doc: Option<&TypedDoc>) -> (r: Result<(), VisitError>)
        requires
            old(self)@.phase == WalkPhase::AwaitRoot,
            old(self)@.queue.len() == 0,
            old(self)@.seen.len() == 0,
            old(self)@.current is None,
        ensures
            final(self)@.root == old(self)@.root,
            doc is None ==> r == Err::<(), VisitError>(VisitError::NotFound)
                && final(self)@.phase == WalkPhase::Failed,
            doc matches Some(d) ==> (!(d@ is Folder) ==> r == Err::<(), VisitError>(
                VisitError::NotAFolder,
            ) && final(self)@.phase == WalkPhase::Failed),
            doc matches Some(d) ==> (d@ is Folder ==> r == Ok::<(), VisitError>(())
                && final(self)@.phase == WalkPhase::Idle && final(self)@.queue == seq![
                root_node(d@->Folder_0.title, old(self)@.root),
            ] && final(self)@.seen.len() == 0 && final(self)@.current is None),
    {
        match doc {
            None => {
                self.phase = WalkPhase::Failed;
                Err(VisitError::NotFound)
            },
            Some(d) => {
                match d {
                    TypedDoc::Folder(f) => {
                        let rec = VisitNode {
                            name: f.title.clone(),
                            type_: "folder".to_owned(),
                            id: self.root.clone_id(),
                            parents: Vec::new(),
                        };
                        proof {
                            assert(d@ == TypedDocV::Folder(f@));
                            assert(rec@.parents =~= Seq::<Seq<char>>::empty());
                        }
                        self.queue.push(rec);
                        self.phase = WalkPhase::Idle;
                        proof {
                            assert(self@.queue =~= seq![root_node(f@.title, self@.root)]);
                        }
                        Ok(())
                    },
                    _ => {
                        self.phase = WalkPhase::Failed;
                        Err(VisitError::NotAFolder)
                    },
                }
            },
        }
    }

    /// Pop the next pending node, marking its identifier as seen at the
    /// moment of dequeue. Returns the identifier the caller must resolve,
    /// or nothing once the worklist has drained.
    pub fn begin_next(&mut self) -> (r: Option<DocId>)
        requires
            old(self)@.phase == WalkPhase::Idle,
        ensures
            final(self)@.root == old(self)@.root,
            old(self)@.queue.len() == 0 ==> r is None && final(self)@.phase == WalkPhase::Done
                && final(self)@.queue == old(self)@.queue && final(self)@.seen == old(self)@.seen,
            old(self)@.queue.len() > 0 ==> {
                &&& r matches Some(id) && id@ == old(self)@.queue.last().id
                &&& final(self)@.queue == old(self)@.queue.drop_last()
                &&& final(self)@.seen == old(self)@.seen.push(old(self)@.queue.last().id)
                &&& final(self)@.current == Some(old(self)@.queue.last())
                &&& final(self)@.phase == WalkPhase::AwaitDoc
            },
    {
        match self.queue.pop() {
            None => {
                self.phase = WalkPhase::Done;
                None
            },
            Some(rec) => {
                let id = rec.id.clone_id();
                self.seen.push(rec.id.clone_id());
                self.current = Some(rec);
                self.phase = WalkPhase::AwaitDoc;
                proof {
                    assert(self@.queue =~= old(self)@.queue.drop_last());
                    assert(self@.seen =~= old(self)@.seen.push(old(self)@.queue.last().id));
                }
                Some(id)
            },
        }
    }

    /// Feed the resolution of the identifier returned by [`Self::begin_next`].
    /// A folder is expanded: each child entry is checked against the seen
    /// set — a hit aborts the whole traversal as a circular structure — and
    /// otherwise queued with the current node's path extended by its name.
    /// Any other document is a leaf. Either way the popped node itself is
    /// returned, to be handed to the per-node callback.
    #[verifier::loop_isolation(false)]
    pub fn feed_doc(&mut self, doc: Option<&TypedDoc>) -> (r: Result<VisitNode, VisitError>)
        requires
            old(self)@.phase == WalkPhase::AwaitDoc,
            old(self)@.current is Some,
        ensures
            final(self)@.root == old(self)@.root,
            final(self)@.current is None,
            r matches Ok(n) ==> n@ == old(self)@.current->0 && final(self)@.phase
                == WalkPhase::Idle && final(self)@.seen == old(self)@.seen,
            doc is None ==> r == Err::<VisitNode, VisitError>(VisitError::NotFound)
                && final(self)@.phase == WalkPhase::Failed,
            doc matches Some(d) ==> (!(d@ is Folder) ==> (r matches Ok(n) && final(self)@.queue
                == old(self)@.queue)),
            doc matches Some(d) ==> (d@ matches TypedDocV::Folder(f) ==> if expand_ok(
                old(self)@.seen,
                f.docs,
            ) {
                r matches Ok(n) && final(self)@.queue == old(self)@.queue + recs_of(
                    f.docs,
                    (old(self)@.current->0).parents.push((old(self)@.current->0).name),
                )
            } else {
                r == Err::<VisitNode, VisitError>(VisitError::CircularStructure)
                    && final(self)@.phase == WalkPhase::Failed
            }),
    {
        let cur = self.current.take().unwrap();
        match doc {
            None => {
                self.phase = WalkPhase::Failed;
                Err(VisitError::NotFound)
            },
            Some(d) => {
                match d {
                    TypedDoc::Folder(f) => {
                        let ghost parv = cur@.parents.push(cur@.name);
                        let mut parents2 = clone_strings(&cur.parents);
                        parents2.push(cur.name.clone());
                        proof {
                            assert(strings_view(parents2@) =~= parv);
                        }
                        let ghost items = f@.docs;
                        let ghost q0 = self@.queue;
                        proof {
                            assert(d@ == TypedDocV::Folder(f@));
                            assert(q0 + recs_of(items.take(0), parv) =~= q0);
                        }
                        let mut k: usize = 0;
                        while k < f.docs.len()
                            invariant
                                0 <= k <= f.docs.len(),
                                items == f@.docs,
                                items.len() == f.docs@.len(),
                                forall|j: int| 0 <= j < items.len() ==> items[j] == f.docs@[j]@,
                                strings_view(parents2@) == parv,
                                self@.seen == old(self)@.seen,
                                self@.phase == old(self)@.phase,
                                self@.root == old(self)@.root,
                                self@.current is None,
                                forall|j: int| 0 <= j < k ==> !old(self)@.seen.contains(
                                    items[j].id,
                                ),
                                self@.queue == q0 + recs_of(items.take(k as int), parv),
                            decreases f.docs.len() - k,
                        {
                            let item = &f.docs[k];
                            if seen_has(&self.seen, &item.id) {
                                self.phase = WalkPhase::Failed;
                                return Err(VisitError::CircularStructure);
                            }
                            let child = VisitNode {
                                name: item.name.clone(),
                                type_: item.type_.clone(),
                                id: item.id.clone_id(),
                                parents: clone_strings(&parents2),
                            };
                            let ghost prevq = self.queue@;
                            let ghost childv = child@;
                            self.queue.push(child);
                            proof {
                                lemma_nodes_view_push(prevq, self.queue@.last());
                                assert(self@.queue == nodes_view(prevq).push(childv));
                                assert(recs_of(items.take(k + 1 as int), parv) =~= recs_of(
                                    items.take(k as int),
                                    parv,
                                ).push(
                                    NodeV {
                                        name: items[k as int].name,
                                        type_: items[k as int].type_,
                                        id: items[k as int].id,
                                        parents: parv,
                                    },
                                ));
                                assert(self@.queue =~= q0 + recs_of(
                                    items.take(k + 1 as int),
                                    parv,
                                ));
                            }
                            k += 1;
                        }
                        proof {
                            assert(items.take(items.len() as int) =~= items);
                        }
                        self.phase = WalkPhase::Idle;
                        Ok(cur)
                    },
                    _ => {
                        self.phase = WalkPhase::Idle;
                        Ok(cur)
                    },
                }
            },
        }
    }
}

/// The identifiers of a sequence of nodes, in order.
pub open spec fn ids_of_nodes(q: Seq<NodeV>) -> Seq<Seq<u8>> {
    q.map_values(|n: NodeV| n.id)
}

/// The identifiers named by a sequence of folder entries, in order.
pub open spec fn item_ids(items: Seq<FolderItemV>) -> Seq<Seq<u8>> {
    items.map_values(|it: FolderItemV| it.id)
}

/// The store holds a folder document under `p`.
pub open spec fn is_folder_at(s: DocStore, p: Seq<u8>) -> bool {
    s.doc_of(p) matches Some(TypedDocV::Folder(_))
}

/// The folder document stored under `p`.
pub open spec fn folder_at(s: DocStore, p: Seq<u8>) -> FolderDocV
    recommends
        is_folder_at(s, p),
{
    s.doc_of(p).unwrap()->Folder_0
}

/// Entry `m` of the folder stored under `p` names the identifier `c`.
pub open spec fn lists(s: DocStore, p: Seq<u8>, m: int, c: Seq<u8>) -> bool {
    is_folder_at(s, p) && 0 <= m < folder_at(s, p).docs.len() && folder_at(s, p).docs[m].id == c
}

/// Node `b` is a recorded child of node `a`: some entry of the folder
/// stored under `a`'s identifier carries `b`'s name, identifier and type
/// tag, and `b`'s ancestor path is `a`'s path extended by `a`'s name.
pub open spec fn child_link(s: DocStore, a: NodeV, b: NodeV) -> bool {
    &&& exists|m: int|
        #[trigger] lists(s, a.id, m, b.id) && folder_at(s, a.id).docs[m].name == b.name
            && folder_at(s, a.id).docs[m].type_ == b.type_
    &&& b.parents == a.parents.push(a.name)
}

/// Some entry of `q` carries the identifier `c`.
pub open spec fn in_queue(q: Seq<NodeV>, c: Seq<u8>) -> bool {
    exists|j: int| 0 <= j < q.len() && q[j].id == c
}

/// Some entry of `q` above position `i` carries the identifier `c`.
pub open spec fn in_queue_above(q: Seq<NodeV>, i: int, c: Seq<u8>) -> bool {
    exists|j: int| i < j < q.len() && q[j].id == c
}

/// The queued record at position `i`, if its identifier was already seen
/// and resolves to a folder, has its child entry `m` either seen or queued
/// above it.
pub open spec fn stack_ok_at(
    s: DocStore,
    q: Seq<NodeV>,
    seen: Seq<Seq<u8>>,
    i: int,
    m: int,
) -> bool {
    (0 <= i < q.len() && seen.contains(q[i].id) && is_folder_at(s, q[i].id) && 0 <= m
        < folder_at(s, q[i].id).docs.len()) ==> (seen.contains(folder_at(s, q[i].id).docs[m].id)
        || in_queue_above(q, i, folder_at(s, q[i].id).docs[m].id))
}

/// Every queued record whose identifier was already seen and resolves to a
/// folder has each of its children either seen or queued above it. This is
/// what makes a pop of an already-seen identifier final: being the top of
/// the worklist, nothing is above it, so all its children are seen, and a
/// child among them aborts the expansion immediately instead of growing
/// the worklist.
pub open spec fn stack_ok(s: DocStore, q: Seq<NodeV>, seen: Seq<Seq<u8>>) -> bool {
    forall|i: int, m: int| #[trigger] stack_ok_at(s, q, seen, i, m)
}

/// The identifier `c` can be reached from `root` in at most `n` hops, each
/// hop following one folder entry.
pub open spec fn reaches(s: DocStore, root: Seq<u8>, c: Seq<u8>, n: nat) -> bool
    decreases n,
{
    if c == root {
        true
    } else if n == 0 {
        false
    } else {
        exists|p: Seq<u8>, m: int|
            #[trigger] lists(s, p, m, c) && reaches(s, root, p, (n - 1) as nat)
    }
}

/// The identifier `c` can be reached from `root` by following folder
/// entries.
pub open spec fn reachable(s: DocStore, root: Seq<u8>, c: Seq<u8>) -> bool {
    exists|n: nat| reaches(s, root, c, n)
}

/// A folder entry of a reachable folder names a reachable identifier.
proof fn lemma_reach_child(s: DocStore, root: Seq<u8>, p: Seq<u8>, m: int, c: Seq<u8>)
    requires
        reachable(s, root, p),
        lists(s, p, m, c),
    ensures
        reachable(s, root, c),
{
    let n = choose|n: nat| reaches(s, root, p, n);
    if c == root {
        assert(reaches(s, root, c, 0));
    } else {
        assert(reaches(s, root, c, n + 1));
    }
}

/// The part of the store a traversal can meet describes a well-formed
/// tree: the root is a folder, every child listed by a reachable folder
/// resolves, no identifier is listed by two reachable entries, and the
/// root itself is listed by no reachable folder. Entries unreachable from
/// the root are unconstrained: the traversal never sees them.
pub open spec fn tree_ok(s: DocStore, root: Seq<u8>) -> bool {
    &&& is_folder_at(s, root)
    &&& forall|p: Seq<u8>, m: int, c: Seq<u8>|
        reachable(s, root, p) && #[trigger] lists(s, p, m, c) ==> s.doc_of(c) is Some
    &&& forall|p1: Seq<u8>, m1: int, p2: Seq<u8>, m2: int, c: Seq<u8>|
        reachable(s, root, p1) && reachable(s, root, p2) && #[trigger] lists(s, p1, m1, c)
            && #[trigger] lists(s, p2, m2, c) ==> p1 == p2 && m1 == m2
    &&& forall|p: Seq<u8>, m: int| reachable(s, root, p) ==> !#[trigger] lists(s, p, m, root)
}

/// Two distinct folder entries name the identifier `c`.
pub open spec fn doubly_listed(s: DocStore, c: Seq<u8>) -> bool {
    exists|p1: Seq<u8>, m1: int, p2: Seq<u8>, m2: int|
        #[trigger] lists(s, p1, m1, c) && #[trigger] lists(s, p2, m2, c) && (p1 != p2 || m1 != m2)
}

/// Some folder entry names the root itself, or two entries name one
/// identifier: the only shapes under which the walker can meet an
/// identifier a second time.
pub open spec fn revisit_witness(s: DocStore, root: Seq<u8>) -> bool {
    (exists|p: Seq<u8>, m: int| #[trigger] lists(s, p, m, root)) || (exists|c: Seq<u8>|
        #[trigger] doubly_listed(s, c))
}

/// No identifier repeats across the traversal state: worklist entries are
/// pairwise distinct, none was already popped, and none was popped twice.
pub open spec fn single_visits(q: Seq<NodeV>, seen: Seq<Seq<u8>>) -> bool {
    &&& forall|i: int, j: int|
        #![trigger q[i], q[j]]
        0 <= i < j < q.len() ==> q[i].id != q[j].id
    &&& forall|i: int| 0 <= i < q.len() ==> !seen.contains(#[trigger] q[i].id)
    &&& seen.no_duplicates()
}

/// Child `m` of the visited folder at position `k` does not name any
/// identifier visited up to and including that folder: in a completed
/// traversal, no document ever named an identifier the walker had already
/// dequeued by the time it was expanded.
pub open spec fn no_revisit_at(s: DocStore, outn: Seq<NodeV>, k: int, m: int) -> bool {
    (0 <= k < outn.len() && is_folder_at(s, outn[k].id) && 0 <= m < folder_at(
        s,
        outn[k].id,
    ).docs.len()) ==> !ids_of_nodes(outn.take(k + 1)).contains(folder_at(s, outn[k].id).docs[m].id)
}

/// The identifiers a document can put on the worklist: a folder's child
/// identifiers, nothing for any other document.
pub open spec fn child_ids_of(d: TypedDocV) -> Seq<Seq<u8>> {
    match d {
        TypedDocV::Folder(f) => item_ids(f.docs),
        _ => Seq::empty(),
    }
}

/// Every identifier that can ever reach the worklist from the entries of
/// `sv`: each stored identifier and each child identifier it lists.
pub open spec fn all_ids(sv: Seq<(Seq<u8>, TypedDocV)>) -> Seq<Seq<u8>>
    decreases sv.len(),
{
    if sv.len() == 0 {
        Seq::empty()
    } else {
        seq![sv[0].0] + child_ids_of(sv[0].1) + all_ids(sv.drop_first())
    }
}

/// The finite universe of identifiers a traversal of `s` from `root` can
/// ever enqueue.
pub open spec fn universe(s: DocStore, root: Seq<u8>) -> Set<Seq<u8>> {
    all_ids(s@).to_set().insert(root)
}

/// The children of any document that resolves in `sv` are in `all_ids(sv)`.
proof fn lemma_lookup_children(sv: Seq<(Seq<u8>, TypedDocV)>, p: Seq<u8>)
    requires
        lookup_in(sv, p) is Some,
    ensures
        forall|x: Seq<u8>|
            child_ids_of(lookup_in(sv, p).unwrap()).contains(x) ==> all_ids(sv).contains(x),
    decreases sv.len(),
{
    let d = lookup_in(sv, p).unwrap();
    if sv.len() == 0 {
    } else if sv[0].0 == p {
        assert(d == sv[0].1);
        assert forall|x: Seq<u8>| child_ids_of(d).contains(x) implies all_ids(sv).contains(
            x,
        ) by {
            let i = choose|i: int| 0 <= i < child_ids_of(d).len() && child_ids_of(d)[i] == x;
            assert(all_ids(sv)[1 + i] == x);
        }
    } else {
        assert(sv.drop_first() =~= sv.skip(1));
        lemma_lookup_children(sv.drop_first(), p);
        assert(lookup_in(sv, p) == lookup_in(sv.drop_first(), p));
        let head = seq![sv[0].0] + child_ids_of(sv[0].1);
        assert forall|x: Seq<u8>| child_ids_of(d).contains(x) implies all_ids(sv).contains(
            x,
        ) by {
            assert(all_ids(sv.drop_first()).contains(x));
            let i = choose|i: int|
                0 <= i < all_ids(sv.drop_first()).len() && all_ids(sv.drop_first())[i] == x;
            assert(all_ids(sv)[head.len() + i] == x);
        }
    }
}

/// Some visited node carries the identifier `c`.
pub open spec fn visited(outn: Seq<NodeV>, c: Seq<u8>) -> bool {
    exists|l: int| 0 <= l < outn.len() && outn[l].id == c
}

/// The node at position `k` of the visit order is the recorded child of an
/// earlier node: ancestor paths are built hop by hop from the root.
pub open spec fn linked_from_earlier(s: DocStore, outn: Seq<NodeV>, k: int) -> bool {
    exists|j: int| 0 <= j < k && child_link(s, outn[j], outn[k])
}

/// The record `rec` is the recorded child of some visited node.
pub open spec fn linked_from_out(s: DocStore, outn: Seq<NodeV>, rec: NodeV) -> bool {
    exists|j: int| 0 <= j < outn.len() && child_link(s, outn[j], rec)
}

/// Child `m` of the visited folder at position `k` was itself visited.
pub open spec fn children_visited_at(s: DocStore, outn: Seq<NodeV>, k: int, m: int) -> bool {
    (0 <= k < outn.len() && is_folder_at(s, outn[k].id) && 0 <= m < folder_at(
        s,
        outn[k].id,
    ).docs.len()) ==> visited(outn, folder_at(s, outn[k].id).docs[m].id)
}

/// Child `m` of the visited folder at position `k` is either already seen
/// or still on the worklist: nothing reachable is dropped.
pub open spec fn closure_at(
    s: DocStore,
    outn: Seq<NodeV>,
    seen: Seq<Seq<u8>>,
    q: Seq<NodeV>,
    k: int,
    m: int,
) -> bool {
    (0 <= k < outn.len() && is_folder_at(s, outn[k].id) && 0 <= m < folder_at(
        s,
        outn[k].id,
    ).docs.len()) ==> (seen.contains(folder_at(s, outn[k].id).docs[m].id) || in_queue(
        q,
        folder_at(s, outn[k].id).docs[m].id,
    ))
}

/// Listing the identifiers of a node sequence commutes with appending.
proof fn lemma_ids_of_push(q: Seq<NodeV>, n: NodeV)
    ensures
        ids_of_nodes(q.push(n)) == ids_of_nodes(q).push(n.id),
{
    assert(ids_of_nodes(q.push(n)) =~= ids_of_nodes(q).push(n.id));
}

/// An element is in a pushed sequence exactly when it is the pushed one or
/// was already there.
proof fn lemma_push_contains(se: Seq<Seq<u8>>, x: Seq<u8>, c: Seq<u8>)
    ensures
        se.push(x).contains(c) <==> (se.contains(c) || c == x),
{
    if se.contains(c) {
        let j = choose|j: int| 0 <= j < se.len() && se[j] == c;
        assert(se.push(x)[j] == c);
    }
    assert(se.push(x)[se.len() as int] == x);
    if se.push(x).contains(c) && c != x {
        let j = choose|j: int| 0 <= j < se.push(x).len() && se.push(x)[j] == c;
        assert(se[j] == c);
    }
}

/// One traversal step keeps the worklist invariants. The step pops the top
/// record of `qe` (its identifier, `x`, goes into the seen set), resolves
/// it to `d`, and either queues the children of a folder whose entries are
/// all unseen, or queues nothing.
proof fn lemma_step_invariants(
    s: DocStore,
    root: Seq<u8>,
    qe: Seq<NodeV>,
    se: Seq<Seq<u8>>,
    d: TypedDocV,
    parv: Seq<Seq<char>>,
    qnew: Seq<NodeV>,
)
    requires
        qe.len() > 0,
        stack_ok(s, qe, se),
        forall|i: int| 0 <= i < qe.len() ==> universe(s, root).contains(#[trigger] qe[i].id),
        s.doc_of(qe.last().id) == Some(d),
        d matches TypedDocV::Folder(f) ==> expand_ok(se.push(qe.last().id), f.docs) && qnew
            == qe.drop_last() + recs_of(f.docs, parv),
        !(d is Folder) ==> qnew == qe.drop_last(),
        forall|i: int| 0 <= i < qe.len() ==> reachable(s, root, #[trigger] qe[i].id),
    ensures
        stack_ok(s, qnew, se.push(qe.last().id)),
        forall|i: int| 0 <= i < qnew.len() ==> universe(s, root).contains(#[trigger] qnew[i].id),
        forall|i: int| 0 <= i < qnew.len() ==> reachable(s, root, #[trigger] qnew[i].id),
{
    let x = qe.last().id;
    let s1 = se.push(x);
    let q1 = qe.drop_last();
    assert(qe[qe.len() - 1].id == x);
    if d is Folder {
        let f = d->Folder_0;
        lemma_lookup_children(s@, x);
        assert forall|m: int| 0 <= m < f.docs.len() implies universe(s, root).contains(
            #[trigger] f.docs[m].id,
        ) by {
            assert(item_ids(f.docs)[m] == f.docs[m].id);
            assert(child_ids_of(d).contains(f.docs[m].id));
            assert(all_ids(s@).contains(f.docs[m].id));
            assert(all_ids(s@).to_set().contains(f.docs[m].id));
        }
        assert(qnew.len() == q1.len() + f.docs.len());
        assert(forall|m: int|
            0 <= m < f.docs.len() ==> #[trigger] qnew[q1.len() + m].id == f.docs[m].id);
    }
    assert forall|i: int| 0 <= i < qnew.len() implies universe(s, root).contains(
        #[trigger] qnew[i].id,
    ) && reachable(s, root, qnew[i].id) by {
        if i < q1.len() {
            assert(qnew[i] == qe[i]);
        } else {
            let f = d->Folder_0;
            assert(qnew[i].id == f.docs[i - q1.len()].id);
            assert(lists(s, x, i - q1.len(), qnew[i].id));
            assert(reachable(s, root, x));
            lemma_reach_child(s, root, x, i - q1.len(), qnew[i].id);
        }
    }
    assert forall|i: int, m: int| #[trigger] stack_ok_at(s, qnew, s1, i, m) by {
        if 0 <= i < qnew.len() && s1.contains(qnew[i].id) && is_folder_at(s, qnew[i].id) && 0 <= m
            < folder_at(s, qnew[i].id).docs.len() {
            let c = folder_at(s, qnew[i].id).docs[m].id;
            lemma_push_contains(se, x, qnew[i].id);
            if i < q1.len() {
                assert(qnew[i] == qe[i]);
                if se.contains(qe[i].id) {
                    assert(stack_ok_at(s, qe, se, i, m));
                    if se.contains(c) {
                        lemma_push_contains(se, x, c);
                    } else {
                        let j = choose|j: int| i < j < qe.len() && qe[j].id == c;
                        if j < qe.len() - 1 {
                            assert(qnew[j] == qe[j]);
                            assert(in_queue_above(qnew, i, c));
                        } else {
                            assert(c == x);
                            lemma_push_contains(se, x, c);
                        }
                    }
                } else {
                    assert(qnew[i].id == x);
                    assert(d is Folder);
                    let f = d->Folder_0;
                    assert(folder_at(s, x) == f);
                    assert(qnew[q1.len() + m].id == f.docs[m].id);
                    assert(i < q1.len() + m < qnew.len());
                    assert(in_queue_above(qnew, i, c));
                }
            } else {
                let f = d->Folder_0;
                assert(qnew[i].id == f.docs[i - q1.len()].id);
                assert(!s1.contains(f.docs[i - q1.len()].id));
            }
        }
    }
}

/// One traversal step keeps the visit-order invariants: the popped record
/// becomes the next visited node; it is linked to the earlier node that
/// recorded it (so ancestor paths stay correct); and every child of a
/// visited folder stays seen or queued.
proof fn lemma_step_output(
    s: DocStore,
    root: Seq<u8>,
    rtitle: Seq<char>,
    qe: Seq<NodeV>,
    se: Seq<Seq<u8>>,
    dv: TypedDocV,
    parv: Seq<Seq<char>>,
    qnew: Seq<NodeV>,
    outn: Seq<NodeV>,
    node: NodeV,
)
    requires
        qe.len() > 0,
        node == qe.last(),
        s.doc_of(node.id) == Some(dv),
        dv matches TypedDocV::Folder(f) ==> expand_ok(se.push(node.id), f.docs) && qnew
            == qe.drop_last() + recs_of(f.docs, parv),
        !(dv is Folder) ==> qnew == qe.drop_last(),
        parv == node.parents.push(node.name),
        se == ids_of_nodes(outn),
        outn.len() == 0 ==> qe == seq![root_node(rtitle, root)] && se.len() == 0,
        outn.len() > 0 ==> outn[0] == root_node(rtitle, root),
        forall|k: int| 1 <= k < outn.len() ==> #[trigger] linked_from_earlier(s, outn, k),
        forall|i: int|
            0 <= i < qe.len() ==> outn.len() == 0 || linked_from_out(s, outn, #[trigger] qe[i]),
        forall|k: int| 0 <= k < outn.len() ==> s.doc_of(#[trigger] outn[k].id) is Some,
        forall|k: int, m: int| #[trigger] closure_at(s, outn, se, qe, k, m),
        forall|k: int, m: int| #[trigger] no_revisit_at(s, outn, k, m),
    ensures
        se.push(node.id) == ids_of_nodes(outn.push(node)),
        forall|k: int, m: int| #[trigger] no_revisit_at(s, outn.push(node), k, m),
        outn.push(node)[0] == root_node(rtitle, root),
        forall|k: int|
            1 <= k < outn.push(node).len() ==> #[trigger] linked_from_earlier(
                s,
                outn.push(node),
                k,
            ),
        forall|i: int|
            0 <= i < qnew.len() ==> linked_from_out(s, outn.push(node), #[trigger] qnew[i]),
        forall|k: int|
            0 <= k < outn.push(node).len() ==> s.doc_of(#[trigger] outn.push(node)[k].id) is Some,
        forall|k: int, m: int|
            #[trigger] closure_at(s, outn.push(node), se.push(node.id), qnew, k, m),
{
    let x = node.id;
    let q1 = qe.drop_last();
    let outp = outn.push(node);
    let s1 = se.push(x);
    lemma_ids_of_push(outn, node);
    assert(qe[qe.len() - 1] == node);
    if outn.len() == 0 {
        assert(qe[0] == root_node(rtitle, root));
        assert(outp[0] == root_node(rtitle, root));
    } else {
        assert(outp[0] == outn[0]);
    }
    if dv is Folder {
        let f = dv->Folder_0;
        assert(folder_at(s, x) == f);
        assert(qnew.len() == q1.len() + f.docs.len());
        assert forall|m: int| 0 <= m < f.docs.len() implies #[trigger] qnew[q1.len() + m]
            == NodeV { name: f.docs[m].name, type_: f.docs[m].type_, id: f.docs[m].id, parents: parv }
         by {
            assert(recs_of(f.docs, parv)[m] == qnew[q1.len() + m]);
        }
    }
    assert forall|k: int| 1 <= k < outp.len() implies #[trigger] linked_from_earlier(
        s,
        outp,
        k,
    ) by {
        if k < outn.len() {
            assert(linked_from_earlier(s, outn, k));
            let j = choose|j: int| 0 <= j < k && child_link(s, outn[j], outn[k]);
            assert(outp[j] == outn[j]);
            assert(outp[k] == outn[k]);
            assert(child_link(s, outp[j], outp[k]));
        } else {
            assert(outn.len() > 0);
            assert(linked_from_out(s, outn, qe[qe.len() - 1]));
            let j = choose|j: int| 0 <= j < outn.len() && child_link(s, outn[j], node);
            assert(outp[j] == outn[j]);
            assert(outp[k] == node);
            assert(child_link(s, outp[j], outp[k]));
        }
    }
    assert forall|i: int| 0 <= i < qnew.len() implies linked_from_out(
        s,
        outp,
        #[trigger] qnew[i],
    ) by {
        if i < q1.len() {
            assert(qnew[i] == qe[i]);
            if outn.len() == 0 {
                assert(qe.len() == 1);
                assert(false);
            } else {
                assert(linked_from_out(s, outn, qe[i]));
                let j = choose|j: int| 0 <= j < outn.len() && child_link(s, outn[j], qe[i]);
                assert(outp[j] == outn[j]);
                assert(child_link(s, outp[j], qnew[i]));
            }
        } else {
            let f = dv->Folder_0;
            let m = i - q1.len();
            assert(qnew[i]
                == NodeV { name: f.docs[m].name, type_: f.docs[m].type_, id: f.docs[m].id, parents: parv });
            assert(is_folder_at(s, x));
            assert(folder_at(s, x) == f);
            assert(lists(s, node.id, m, qnew[i].id));
            assert(folder_at(s, node.id).docs[m].name == qnew[i].name);
            assert(folder_at(s, node.id).docs[m].type_ == qnew[i].type_);
            assert(qnew[i].parents == node.parents.push(node.name));
            assert(child_link(s, node, qnew[i]));
            assert(outp[outp.len() - 1] == node);
            assert(linked_from_out(s, outp, qnew[i]));
        }
    }
    assert forall|k: int, m: int| #[trigger] closure_at(s, outp, s1, qnew, k, m) by {
        if 0 <= k < outp.len() && is_folder_at(s, outp[k].id) && 0 <= m < folder_at(
            s,
            outp[k].id,
        ).docs.len() {
            let c = folder_at(s, outp[k].id).docs[m].id;
            if k < outn.len() {
                assert(outp[k] == outn[k]);
                assert(closure_at(s, outn, se, qe, k, m));
                if se.contains(c) {
                    lemma_push_contains(se, x, c);
                } else {
                    assert(in_queue(qe, c));
                    let j = choose|j: int| 0 <= j < qe.len() && qe[j].id == c;
                    if j < qe.len() - 1 {
                        assert(qnew[j] == qe[j]);
                        assert(in_queue(qnew, c));
                    } else {
                        assert(c == x);
                        lemma_push_contains(se, x, c);
                    }
                }
            } else {
                assert(outp[k] == node);
                if dv is Folder {
                    let f = dv->Folder_0;
                    assert(folder_at(s, x) == f);
                    assert(qnew[q1.len() + m].id == c);
                    assert(in_queue(qnew, c));
                } else {
                    assert(!is_folder_at(s, x));
                }
            }
        }
    }
    assert forall|k: int, m: int| #[trigger] no_revisit_at(s, outp, k, m) by {
        if 0 <= k < outp.len() && is_folder_at(s, outp[k].id) && 0 <= m < folder_at(
            s,
            outp[k].id,
        ).docs.len() {
            let c = folder_at(s, outp[k].id).docs[m].id;
            if k < outn.len() {
                assert(outp[k] == outn[k]);
                assert(no_revisit_at(s, outn, k, m));
                assert(outp.take(k + 1) =~= outn.take(k + 1));
            } else {
                assert(outp[k] == node);
                assert(is_folder_at(s, x));
                let f = dv->Folder_0;
                assert(dv is Folder);
                assert(folder_at(s, x) == f);
                assert(!s1.contains(f.docs[m].id));
                assert(outp.take(k + 1) =~= outp);
                assert(ids_of_nodes(outp) == s1);
            }
        }
    }
}

/// One traversal step shrinks the termination measure: a pop of an unseen
/// identifier shrinks what the universe still holds outside the seen set,
/// and a pop of an already-seen identifier shrinks the worklist.
proof fn lemma_step_decrease(
    s: DocStore,
    root: Seq<u8>,
    qe: Seq<NodeV>,
    se: Seq<Seq<u8>>,
    d: TypedDocV,
    parv: Seq<Seq<char>>,
    qnew: Seq<NodeV>,
)
    requires
        qe.len() > 0,
        stack_ok(s, qe, se),
        forall|i: int| 0 <= i < qe.len() ==> universe(s, root).contains(#[trigger] qe[i].id),
        s.doc_of(qe.last().id) == Some(d),
        d matches TypedDocV::Folder(f) ==> expand_ok(se.push(qe.last().id), f.docs) && qnew
            == qe.drop_last() + recs_of(f.docs, parv),
        !(d is Folder) ==> qnew == qe.drop_last(),
    ensures
        !se.contains(qe.last().id) ==> universe(s, root).difference(
            se.push(qe.last().id).to_set(),
        ).len() < universe(s, root).difference(se.to_set()).len(),
        se.contains(qe.last().id) ==> se.push(qe.last().id).to_set() == se.to_set()
            && qnew.len() < qe.len(),
{
    broadcast use vstd::seq_lib::seq_to_set_is_finite;
    broadcast use vstd::seq_lib::group_seq_properties;

    let x = qe.last().id;
    let u = universe(s, root);
    assert(all_ids(s@).to_set().finite());
    assert(u.finite());
    assert(se.push(x).to_set() == se.to_set().insert(x)) by {
        se.lemma_push_to_set_commute(x);
    }
    if !se.contains(x) {
        assert(!se.to_set().contains(x));
        assert(qe[qe.len() - 1].id == x);
        assert(u.contains(x));
        assert(u.difference(se.push(x).to_set()) =~= u.difference(se.to_set()).remove(x));
        assert(u.difference(se.to_set()).finite());
        assert(u.difference(se.to_set()).contains(x));
        assert(u.difference(se.to_set()).remove(x).len() == u.difference(se.to_set()).len() - 1);
    } else {
        assert(se.to_set().contains(x));
        assert(se.push(x).to_set() =~= se.to_set());
        if d is Folder {
            let f = d->Folder_0;
            if f.docs.len() > 0 {
                assert(stack_ok_at(s, qe, se, qe.len() - 1, 0));
                assert(is_folder_at(s, x));
                assert(folder_at(s, x) == f);
                assert(!in_queue_above(qe, qe.len() - 1, f.docs[0].id));
                assert(se.contains(f.docs[0].id));
                lemma_push_contains(se, x, f.docs[0].id);
                assert(se.push(x).contains(f.docs[0].id));
                assert(!expand_ok(se.push(x), f.docs));
                assert(false);
            } else {
                assert(recs_of(f.docs, parv) =~= Seq::<NodeV>::empty());
                assert(qnew =~= qe.drop_last());
            }
        }
        assert(qnew.len() < qe.len());
    }
}

/// The two ways a step can abort: the popped identifier does not resolve,
/// or it resolves to a folder one of whose children was already seen.
pub open spec fn abort_case(
    s: DocStore,
    x: Seq<u8>,
    se: Seq<Seq<u8>>,
    docv: Option<TypedDocV>,
    e: VisitError,
) -> bool {
    ||| (docv is None && e == VisitError::NotFound)
    ||| (docv matches Some(d) && d matches TypedDocV::Folder(f) && !expand_ok(se.push(x), f.docs)
        && e == VisitError::CircularStructure)
}

/// What an aborted step says of the store: it can never happen under a
/// well-formed tree, and an unresolved identifier is the root or a listed
/// child.
proof fn lemma_abort_facts(
    s: DocStore,
    root: Seq<u8>,
    rtitle: Seq<char>,
    qe: Seq<NodeV>,
    se: Seq<Seq<u8>>,
    docv: Option<TypedDocV>,
    outn: Seq<NodeV>,
    e: VisitError,
)
    requires
        qe.len() > 0,
        docv matches Some(d) ==> s.doc_of(qe.last().id) == Some(d),
        docv is None ==> s.doc_of(qe.last().id) is None,
        abort_case(s, qe.last().id, se, docv, e),
        se == ids_of_nodes(outn),
        outn.len() == 0 ==> qe == seq![root_node(rtitle, root)] && se.len() == 0,
        outn.len() > 0 ==> outn[0] == root_node(rtitle, root),
        forall|k: int| 1 <= k < outn.len() ==> #[trigger] linked_from_earlier(s, outn, k),
        forall|i: int|
            0 <= i < qe.len() ==> outn.len() == 0 || linked_from_out(s, outn, #[trigger] qe[i]),
        tree_ok(s, root) ==> forall|i: int|
            0 <= i < qe.len() ==> !se.contains(#[trigger] qe[i].id),
        tree_ok(s, root) ==> forall|i: int|
            0 <= i < qe.len() ==> s.doc_of(#[trigger] qe[i].id) is Some,
        single_visits(qe, se) || revisit_witness(s, root),
        forall|i: int| 0 <= i < qe.len() ==> reachable(s, root, #[trigger] qe[i].id),
        forall|k: int| 0 <= k < outn.len() ==> reachable(s, root, #[trigger] outn[k].id),
    ensures
        !tree_ok(s, root),
        e == VisitError::NotFound ==> s.doc_of(root) is None || exists|p: Seq<u8>, m: int, c: Seq<u8>|
            #[trigger] lists(s, p, m, c) && s.doc_of(c) is None,
        e == VisitError::CircularStructure ==> revisit_witness(s, root),
{
    let x = qe.last().id;
    assert(qe[qe.len() - 1] == qe.last());
    if e == VisitError::CircularStructure && !revisit_witness(s, root) {
        let d = docv.unwrap();
        let f = d->Folder_0;
        assert(!expand_ok(se.push(x), f.docs));
        let it = choose|it: int|
            0 <= it < f.docs.len() && se.push(x).contains(#[trigger] f.docs[it].id);
        let c = f.docs[it].id;
        assert(is_folder_at(s, x));
        assert(folder_at(s, x) == f);
        assert(lists(s, x, it, c));
        if c == root {
            assert(revisit_witness(s, root));
        } else {
            lemma_push_contains(se, x, c);
            assert(!se.contains(x));
            if c == x {
                if outn.len() == 0 {
                    assert(qe[0] == root_node(rtitle, root));
                    assert(x == root);
                    assert(false);
                } else {
                    assert(linked_from_out(s, outn, qe[qe.len() - 1]));
                    let j = choose|j: int| 0 <= j < outn.len() && child_link(s, outn[j], qe.last());
                    let m2 = choose|m2: int|
                        #[trigger] lists(s, outn[j].id, m2, qe.last().id) && folder_at(
                            s,
                            outn[j].id,
                        ).docs[m2].name == qe.last().name && folder_at(s, outn[j].id).docs[m2].type_
                            == qe.last().type_;
                    assert(ids_of_nodes(outn)[j] == outn[j].id);
                    assert(se.contains(outn[j].id));
                    assert(outn[j].id != x);
                    assert(lists(s, outn[j].id, m2, x));
                    assert(doubly_listed(s, x));
                }
            } else {
                assert(se.contains(c));
                let l = choose|l: int| 0 <= l < se.len() && se[l] == c;
                assert(ids_of_nodes(outn)[l] == outn[l].id);
                assert(outn[l].id == c);
                if l == 0 {
                    assert(outn[0].id == root);
                    assert(false);
                } else {
                    assert(linked_from_earlier(s, outn, l));
                    let j2 = choose|j2: int| 0 <= j2 < l && child_link(s, outn[j2], outn[l]);
                    let m3 = choose|m3: int|
                        #[trigger] lists(s, outn[j2].id, m3, outn[l].id) && folder_at(
                            s,
                            outn[j2].id,
                        ).docs[m3].name == outn[l].name && folder_at(s, outn[j2].id).docs[m3].type_
                            == outn[l].type_;
                    assert(ids_of_nodes(outn)[j2] == outn[j2].id);
                    assert(se.contains(outn[j2].id));
                    assert(outn[j2].id != x);
                    assert(lists(s, outn[j2].id, m3, c));
                    assert(doubly_listed(s, c));
                }
            }
        }
    }
    if e == VisitError::NotFound {
        assert(docv is None);
        if outn.len() == 0 {
            assert(qe[0] == root_node(rtitle, root));
            assert(x == root);
        } else {
            assert(linked_from_out(s, outn, qe[qe.len() - 1]));
            let j = choose|j: int| 0 <= j < outn.len() && child_link(s, outn[j], qe.last());
            let m2 = choose|m2: int|
                #[trigger] lists(s, outn[j].id, m2, qe.last().id) && folder_at(
                    s,
                    outn[j].id,
                ).docs[m2].name == qe.last().name && folder_at(s, outn[j].id).docs[m2].type_
                    == qe.last().type_;
            assert(lists(s, outn[j].id, m2, x) && s.doc_of(x) is None);
        }
    }
    if tree_ok(s, root) {
        assert(!se.contains(qe[qe.len() - 1].id));
        if docv is None {
            assert(s.doc_of(qe[qe.len() - 1].id) is Some);
            assert(false);
        } else {
            let d = docv.unwrap();
            let f = d->Folder_0;
            assert(d is Folder);
            assert(!expand_ok(se.push(x), f.docs));
            let it = choose|it: int|
                0 <= it < f.docs.len() && se.push(x).contains(#[trigger] f.docs[it].id);
            let c = f.docs[it].id;
            assert(is_folder_at(s, x));
            assert(folder_at(s, x) == f);
            assert(lists(s, x, it, c));
            assert(reachable(s, root, x));
            lemma_push_contains(se, x, c);
            if c == x {
                if outn.len() == 0 {
                    assert(qe[0] == root_node(rtitle, root));
                    assert(x == root);
                    assert(false);
                } else {
                    assert(linked_from_out(s, outn, qe[qe.len() - 1]));
                    let j = choose|j: int| 0 <= j < outn.len() && child_link(s, outn[j], qe.last());
                    let m2 = choose|m2: int|
                        #[trigger] lists(s, outn[j].id, m2, qe.last().id) && folder_at(
                            s,
                            outn[j].id,
                        ).docs[m2].name == qe.last().name && folder_at(s, outn[j].id).docs[m2].type_
                            == qe.last().type_;
                    assert(lists(s, outn[j].id, m2, x));
                    assert(reachable(s, root, outn[j].id));
                    assert(outn[j].id == x);
                    assert(ids_of_nodes(outn)[j] == outn[j].id);
                    assert(se.contains(x));
                    assert(false);
                }
            } else {
                assert(se.contains(c));
                let jj = choose|jj: int| 0 <= jj < se.len() && se[jj] == c;
                assert(ids_of_nodes(outn)[jj] == outn[jj].id);
                assert(outn[jj].id == c);
                if jj == 0 {
                    assert(c == root);
                    assert(false);
                } else {
                    assert(linked_from_earlier(s, outn, jj));
                    let j2 = choose|j2: int| 0 <= j2 < jj && child_link(s, outn[j2], outn[jj]);
                    let m3 = choose|m3: int|
                        #[trigger] lists(s, outn[j2].id, m3, outn[jj].id) && folder_at(
                            s,
                            outn[j2].id,
                        ).docs[m3].name == outn[jj].name && folder_at(s, outn[j2].id).docs[m3].type_
                            == outn[jj].type_;
                    assert(lists(s, outn[j2].id, m3, c));
                    assert(reachable(s, root, outn[j2].id));
                    assert(outn[j2].id == x);
                    assert(ids_of_nodes(outn)[j2] == outn[j2].id);
                    assert(se.contains(x));
                    assert(false);
                }
            }
        }
    }
}

/// One traversal step either keeps the traversal free of repeats, or the
/// store itself exhibits a revisit shape: a doubly listed identifier or a
/// listed root.
proof fn lemma_step_single(
    s: DocStore,
    root: Seq<u8>,
    rtitle: Seq<char>,
    qe: Seq<NodeV>,
    se: Seq<Seq<u8>>,
    dv: TypedDocV,
    parv: Seq<Seq<char>>,
    qnew: Seq<NodeV>,
    outn: Seq<NodeV>,
)
    requires
        qe.len() > 0,
        s.doc_of(qe.last().id) == Some(dv),
        dv matches TypedDocV::Folder(f) ==> expand_ok(se.push(qe.last().id), f.docs) && qnew
            == qe.drop_last() + recs_of(f.docs, parv),
        !(dv is Folder) ==> qnew == qe.drop_last(),
        se == ids_of_nodes(outn),
        outn.len() == 0 ==> qe == seq![root_node(rtitle, root)],
        forall|i: int|
            0 <= i < qe.len() ==> outn.len() == 0 || linked_from_out(s, outn, #[trigger] qe[i]),
        single_visits(qe, se),
    ensures
        single_visits(qnew, se.push(qe.last().id)) || revisit_witness(s, root),
{
    let x = qe.last().id;
    let q1 = qe.drop_last();
    let s1 = se.push(x);
    assert(qe[qe.len() - 1] == qe.last());
    assert(!se.contains(x));
    assert(s1.no_duplicates()) by {
        assert forall|i: int, j: int|
            0 <= i < s1.len() && 0 <= j < s1.len() && i != j implies s1[i] != s1[j] by {
            if i < se.len() && j < se.len() {
            } else if j == se.len() {
                if se[i] == x {
                    assert(se.contains(x));
                }
            } else {
                if se[j] == x {
                    assert(se.contains(x));
                }
            }
        }
    }
    if dv is Folder {
        let f = dv->Folder_0;
        assert(is_folder_at(s, x));
        assert(folder_at(s, x) == f);
        if exists|m1: int, m2: int|
            0 <= m1 < m2 < f.docs.len() && #[trigger] f.docs[m1].id == #[trigger] f.docs[m2].id {
            let (m1, m2) = choose|m1: int, m2: int|
                0 <= m1 < m2 < f.docs.len() && #[trigger] f.docs[m1].id
                    == #[trigger] f.docs[m2].id;
            assert(lists(s, x, m1, f.docs[m1].id));
            assert(lists(s, x, m2, f.docs[m1].id));
            assert(doubly_listed(s, f.docs[m1].id));
        } else if exists|i: int, m: int|
            0 <= i < q1.len() && 0 <= m < f.docs.len() && #[trigger] q1[i].id
                == #[trigger] f.docs[m].id {
            let (i, m) = choose|i: int, m: int|
                0 <= i < q1.len() && 0 <= m < f.docs.len() && #[trigger] q1[i].id
                    == #[trigger] f.docs[m].id;
            let c = f.docs[m].id;
            assert(q1[i] == qe[i]);
            if outn.len() == 0 {
                assert(qe.len() == 1);
                assert(false);
            } else {
                assert(linked_from_out(s, outn, qe[i]));
                let j = choose|j: int| 0 <= j < outn.len() && child_link(s, outn[j], qe[i]);
                let m2 = choose|m2: int|
                    #[trigger] lists(s, outn[j].id, m2, qe[i].id) && folder_at(
                        s,
                        outn[j].id,
                    ).docs[m2].name == qe[i].name && folder_at(s, outn[j].id).docs[m2].type_
                        == qe[i].type_;
                assert(ids_of_nodes(outn)[j] == outn[j].id);
                assert(se.contains(outn[j].id));
                assert(outn[j].id != x);
                assert(lists(s, x, m, c));
                assert(doubly_listed(s, c));
            }
        } else {
            assert forall|i: int| 0 <= i < qnew.len() implies !s1.contains(
                #[trigger] qnew[i].id,
            ) by {
                if i < q1.len() {
                    assert(qnew[i] == qe[i]);
                    lemma_push_contains(se, x, qe[i].id);
                    assert(qe[i].id != qe[qe.len() - 1].id);
                } else {
                    assert(qnew[i] == recs_of(f.docs, parv)[i - q1.len()]);
                    assert(qnew[i].id == f.docs[i - q1.len()].id);
                }
            }
            assert forall|i: int, j: int|
                #![trigger qnew[i], qnew[j]]
                0 <= i < j < qnew.len() implies qnew[i].id != qnew[j].id by {
                if i < q1.len() && j < q1.len() {
                    assert(qnew[i] == qe[i]);
                    assert(qnew[j] == qe[j]);
                } else if i < q1.len() {
                    assert(qnew[i] == qe[i]);
                    assert(qnew[j].id == f.docs[j - q1.len()].id);
                } else {
                    assert(qnew[i].id == f.docs[i - q1.len()].id);
                    assert(qnew[j].id == f.docs[j - q1.len()].id);
                }
            }
        }
    } else {
        assert forall|i: int| 0 <= i < qnew.len() implies !s1.contains(#[trigger] qnew[i].id) by {
            assert(qnew[i] == qe[i]);
            lemma_push_contains(se, x, qe[i].id);
            assert(qe[i].id != qe[qe.len() - 1].id);
        }
        assert(forall|i: int, j: int|
            #![trigger qnew[i], qnew[j]]
            0 <= i < j < qnew.len() ==> qe[i].id != qe[j].id && qnew[i] == qe[i] && qnew[j]
                == qe[j]);
    }
}

/// Under a well-formed tree, one traversal step keeps the worklist free of
/// duplicates and of already-seen identifiers, and every queued identifier
/// resolvable: the traversal can then never abort.
proof fn lemma_step_tree(
    s: DocStore,
    root: Seq<u8>,
    rtitle: Seq<char>,
    qe: Seq<NodeV>,
    se: Seq<Seq<u8>>,
    dv: TypedDocV,
    parv: Seq<Seq<char>>,
    qnew: Seq<NodeV>,
    outn: Seq<NodeV>,
    node: NodeV,
)
    requires
        tree_ok(s, root),
        qe.len() > 0,
        node == qe.last(),
        s.doc_of(node.id) == Some(dv),
        dv matches TypedDocV::Folder(f) ==> expand_ok(se.push(node.id), f.docs) && qnew
            == qe.drop_last() + recs_of(f.docs, parv),
        !(dv is Folder) ==> qnew == qe.drop_last(),
        se == ids_of_nodes(outn),
        outn.len() == 0 ==> qe == seq![root_node(rtitle, root)] && se.len() == 0,
        outn.len() > 0 ==> outn[0] == root_node(rtitle, root),
        forall|k: int| 1 <= k < outn.len() ==> #[trigger] linked_from_earlier(s, outn, k),
        forall|i: int|
            0 <= i < qe.len() ==> outn.len() == 0 || linked_from_out(s, outn, #[trigger] qe[i]),
        forall|i: int, j: int|
            #![trigger qe[i], qe[j]]
            0 <= i < j < qe.len() ==> qe[i].id != qe[j].id,
        forall|i: int| 0 <= i < qe.len() ==> !se.contains(#[trigger] qe[i].id),
        forall|i: int| 0 <= i < qe.len() ==> s.doc_of(#[trigger] qe[i].id) is Some,
        forall|i: int| 0 <= i < qe.len() ==> reachable(s, root, #[trigger] qe[i].id),
        forall|k: int| 0 <= k < outn.len() ==> reachable(s, root, #[trigger] outn[k].id),
    ensures
        forall|i: int, j: int|
            #![trigger qnew[i], qnew[j]]
            0 <= i < j < qnew.len() ==> qnew[i].id != qnew[j].id,
        forall|i: int| 0 <= i < qnew.len() ==> !se.push(node.id).contains(#[trigger] qnew[i].id),
        forall|i: int| 0 <= i < qnew.len() ==> s.doc_of(#[trigger] qnew[i].id) is Some,
{
    let x = node.id;
    let q1 = qe.drop_last();
    let s1 = se.push(x);
    assert(qe[qe.len() - 1] == node);
    assert(reachable(s, root, x));
    if dv is Folder {
        let f = dv->Folder_0;
        assert(is_folder_at(s, x));
        assert(folder_at(s, x) == f);
        assert(qnew.len() == q1.len() + f.docs.len());
        assert forall|m: int| 0 <= m < f.docs.len() implies #[trigger] qnew[q1.len() + m].id
            == f.docs[m].id by {
            assert(recs_of(f.docs, parv)[m] == qnew[q1.len() + m]);
        }
        // no child is already on the worklist, and no two entries name one child
        assert forall|i: int, m: int|
            0 <= i < q1.len() && 0 <= m < f.docs.len() implies #[trigger] q1[i].id != #[trigger] f.docs[m].id by {
            let c = f.docs[m].id;
            if q1[i].id == c {
                assert(qe[i] == q1[i]);
                assert(lists(s, x, m, c));
                if outn.len() == 0 {
                    assert(qe.len() == 1);
                    assert(false);
                } else {
                    assert(linked_from_out(s, outn, qe[i]));
                    let j = choose|j: int| 0 <= j < outn.len() && child_link(s, outn[j], qe[i]);
                    let m2 = choose|m2: int|
                        #[trigger] lists(s, outn[j].id, m2, qe[i].id) && folder_at(
                            s,
                            outn[j].id,
                        ).docs[m2].name == qe[i].name && folder_at(s, outn[j].id).docs[m2].type_
                            == qe[i].type_;
                    assert(lists(s, outn[j].id, m2, c));
                    assert(reachable(s, root, outn[j].id));
                    assert(outn[j].id == x);
                    assert(ids_of_nodes(outn)[j] == outn[j].id);
                    assert(se.contains(x));
                    assert(false);
                }
            }
        }
        assert forall|m1: int, m2: int|
            0 <= m1 < m2 < f.docs.len() implies #[trigger] f.docs[m1].id != #[trigger] f.docs[m2].id by {
            if f.docs[m1].id == f.docs[m2].id {
                assert(lists(s, x, m1, f.docs[m1].id));
                assert(lists(s, x, m2, f.docs[m1].id));
                assert(false);
            }
        }
        assert forall|m: int| 0 <= m < f.docs.len() implies s.doc_of(
            #[trigger] f.docs[m].id,
        ) is Some by {
            assert(lists(s, x, m, f.docs[m].id));
        }
    }
    assert forall|i: int| 0 <= i < qnew.len() implies !s1.contains(#[trigger] qnew[i].id) by {
        lemma_push_contains(se, x, qnew[i].id);
        if i < q1.len() {
            assert(qnew[i] == qe[i]);
            assert(!se.contains(qe[i].id));
            assert(qe[i].id != qe[qe.len() - 1].id);
        } else {
            let f = dv->Folder_0;
            assert(qnew[i].id == f.docs[i - q1.len()].id);
            assert(!s1.contains(f.docs[i - q1.len()].id));
        }
    }
    assert forall|i: int, j: int|
        #![trigger qnew[i], qnew[j]]
        0 <= i < j < qnew.len() implies qnew[i].id != qnew[j].id by {
        if i < q1.len() && j < q1.len() {
            assert(qnew[i] == qe[i]);
            assert(qnew[j] == qe[j]);
        } else if i < q1.len() {
            let f = dv->Folder_0;
            assert(qnew[i] == qe[i]);
            assert(qnew[j].id == f.docs[j - q1.len()].id);
            assert(q1[i].id != f.docs[j - q1.len()].id);
        } else {
            let f = dv->Folder_0;
            assert(qnew[i].id == f.docs[i - q1.len()].id);
            assert(qnew[j].id == f.docs[j - q1.len()].id);
        }
    }
    assert forall|i: int| 0 <= i < qnew.len() implies s.doc_of(#[trigger] qnew[i].id) is Some by {
        if i < q1.len() {
            assert(qnew[i] == qe[i]);
        } else {
            let f = dv->Folder_0;
            assert(qnew[i].id == f.docs[i - q1.len()].id);
        }
    }
}

/// Every identifier reachable in at most `n` hops is visited, by
/// induction on the hop count.
proof fn lemma_reaches_visited(s: DocStore, root: Seq<u8>, outn: Seq<NodeV>, c: Seq<u8>, n: nat)
    requires
        outn.len() >= 1,
        outn[0].id == root,
        forall|k: int, m: int| #[trigger] children_visited_at(s, outn, k, m),
        reaches(s, root, c, n),
    ensures
        visited(outn, c),
    decreases n,
{
    if c == root {
        assert(outn[0].id == c);
        assert(visited(outn, c));
    } else {
        let (p, m) = choose|p: Seq<u8>, m: int|
            #[trigger] lists(s, p, m, c) && reaches(s, root, p, (n - 1) as nat);
        lemma_reaches_visited(s, root, outn, p, (n - 1) as nat);
        let l = choose|l: int| 0 <= l < outn.len() && outn[l].id == p;
        assert(children_visited_at(s, outn, l, m));
        assert(is_folder_at(s, outn[l].id));
        assert(folder_at(s, outn[l].id).docs[m].id == c);
        assert(visited(outn, c));
    }
}

/// After a successful traversal — the first visit is the root, and every
/// child of a visited folder is itself visited, which [`visit`] ensures of
/// its result — every identifier reachable from the root by following
/// folder entries is visited at least once.
pub proof fn lemma_reachable_visited(s: DocStore, root: Seq<u8>, outn: Seq<NodeV>, c: Seq<u8>)
    requires
        outn.len() >= 1,
        outn[0].id == root,
        forall|k: int, m: int| #[trigger] children_visited_at(s, outn, k, m),
        reachable(s, root, c),
    ensures
        visited(outn, c),
{
    let n = choose|n: nat| reaches(s, root, c, n);
    lemma_reaches_visited(s, root, outn, c, n);
}

/// Traverse the folder tree rooted at `root` over the snapshot `store`,
/// returning the visited nodes in traversal order.
///
/// The worklist is last-in-first-out, so siblings are visited in reverse
/// declaration order; this is a documented non-stable-order contract.
#[verifier::loop_isolation(false)]
#[verifier::rlimit(60)]
pub fn visit(store: &DocStore, root: &DocId) -> (r: Result<Vec<VisitNode>, VisitError>)
    ensures
        store.doc_of(root@) is None ==> r == Err::<Vec<VisitNode>, VisitError>(
            VisitError::NotFound,
        ),
        r == Err::<Vec<VisitNode>, VisitError>(VisitError::NotAFolder) <==> (store.doc_of(root@)
            is Some && !is_folder_at(*store, root@)),
        r matches Ok(out) ==> ({
            let outn = nodes_view(out@);
            &&& is_folder_at(*store, root@)
            &&& outn.len() >= 1
            &&& outn[0] == root_node(folder_at(*store, root@).title, root@)
            &&& forall|k: int| 1 <= k < outn.len() ==> #[trigger] linked_from_earlier(*store, outn, k)
            &&& forall|k: int| 0 <= k < outn.len() ==> store.doc_of(#[trigger] outn[k].id) is Some
            &&& forall|k: int, m: int| #[trigger] children_visited_at(*store, outn, k, m)
            &&& forall|k: int, m: int| #[trigger] no_revisit_at(*store, outn, k, m)
            &&& (forall|k1: int, k2: int|
                #![trigger outn[k1], outn[k2]]
                0 <= k1 < k2 < outn.len() ==> outn[k1].id != outn[k2].id) || revisit_witness(
                *store,
                root@,
            )
            &&& tree_ok(*store, root@) ==> forall|k1: int, k2: int|
                #![trigger outn[k1], outn[k2]]
                0 <= k1 < k2 < outn.len() ==> outn[k1].id != outn[k2].id
        }),
        tree_ok(*store, root@) ==> r is Ok,
        r == Err::<Vec<VisitNode>, VisitError>(VisitError::NotFound) ==> store.doc_of(root@)
            is None || exists|p: Seq<u8>, m: int, c: Seq<u8>|
            #[trigger] lists(*store, p, m, c) && store.doc_of(c) is None,
        r == Err::<Vec<VisitNode>, VisitError>(VisitError::CircularStructure) ==> revisit_witness(
            *store,
            root@,
        ),
{
    let mut w = Walker::new(root.clone_id());
    let rootdoc = store.lookup(root);
    match w.feed_root(rootdoc) {
        Err(e) => {
            proof {
                if tree_ok(*store, root@) {
                    assert(store.doc_of(root@) is Some);
                    assert(rootdoc is Some);
                    assert(false);
                }
            }
            return Err(e);
        },
        Ok(()) => {},
    }
    let ghost rtitle = folder_at(*store, root@).title;
    proof {
        assert(w@.queue =~= seq![root_node(rtitle, root@)]);
    }
    let mut out: Vec<VisitNode> = Vec::new();
    proof {
        assert(nodes_view(out@) =~= Seq::<NodeV>::empty());
        assert(ids_of_nodes(nodes_view(out@)) =~= Seq::<Seq<u8>>::empty());
        assert(w@.seen =~= Seq::<Seq<u8>>::empty());
        assert(w@.seen.no_duplicates());
        assert(single_visits(w@.queue, w@.seen));
        assert(reaches(*store, root@, root@, 0));
    }
    loop
        invariant
            w@.phase == WalkPhase::Idle,
            w@.root == root@,
            w@.current is None,
            is_folder_at(*store, root@),
            rtitle == folder_at(*store, root@).title,
            stack_ok(*store, w@.queue, w@.seen),
            forall|i: int|
                0 <= i < w@.queue.len() ==> universe(*store, root@).contains(
                    #[trigger] w@.queue[i].id,
                ),
            w@.seen == ids_of_nodes(nodes_view(out@)),
            nodes_view(out@).len() == 0 ==> w@.queue == seq![root_node(rtitle, root@)]
                && w@.seen.len() == 0,
            nodes_view(out@).len() > 0 ==> nodes_view(out@)[0] == root_node(rtitle, root@),
            forall|k: int|
                1 <= k < nodes_view(out@).len() ==> #[trigger] linked_from_earlier(
                    *store,
                    nodes_view(out@),
                    k,
                ),
            forall|i: int|
                0 <= i < w@.queue.len() ==> nodes_view(out@).len() == 0 || linked_from_out(
                    *store,
                    nodes_view(out@),
                    #[trigger] w@.queue[i],
                ),
            forall|k: int|
                0 <= k < nodes_view(out@).len() ==> store.doc_of(
                    #[trigger] nodes_view(out@)[k].id,
                ) is Some,
            forall|k: int, m: int|
                #[trigger] closure_at(*store, nodes_view(out@), w@.seen, w@.queue, k, m),
            forall|k: int, m: int| #[trigger] no_revisit_at(*store, nodes_view(out@), k, m),
            single_visits(w@.queue, w@.seen) || revisit_witness(*store, root@),
            forall|i: int|
                0 <= i < w@.queue.len() ==> reachable(*store, root@, #[trigger] w@.queue[i].id),
            forall|k: int|
                0 <= k < nodes_view(out@).len() ==> reachable(
                    *store,
                    root@,
                    #[trigger] nodes_view(out@)[k].id,
                ),
            tree_ok(*store, root@) ==> ({
                &&& forall|i: int, j: int|
                    #![trigger w@.queue[i], w@.queue[j]]
                    0 <= i < j < w@.queue.len() ==> w@.queue[i].id != w@.queue[j].id
                &&& forall|i: int|
                    0 <= i < w@.queue.len() ==> !w@.seen.contains(#[trigger] w@.queue[i].id)
                &&& forall|i: int|
                    0 <= i < w@.queue.len() ==> store.doc_of(#[trigger] w@.queue[i].id) is Some
                &&& forall|k1: int, k2: int|
                    #![trigger nodes_view(out@)[k1], nodes_view(out@)[k2]]
                    0 <= k1 < k2 < nodes_view(out@).len() ==> nodes_view(out@)[k1].id
                        != nodes_view(out@)[k2].id
            }),
        decreases
                universe(*store, root@).difference(w@.seen.to_set()).len(),
                w@.queue.len(),
    {
        let ghost qe = w@.queue;
        let ghost se = w@.seen;
        let ghost oute = nodes_view(out@);
        match w.begin_next() {
            None => {
                proof {
                    assert forall|k: int, m: int| #[trigger] children_visited_at(
                        *store,
                        oute,
                        k,
                        m,
                    ) by {
                        if 0 <= k < oute.len() && is_folder_at(*store, oute[k].id) && 0 <= m
                            < folder_at(*store, oute[k].id).docs.len() {
                            let c = folder_at(*store, oute[k].id).docs[m].id;
                            assert(closure_at(*store, oute, se, qe, k, m));
                            assert(qe.len() == 0);
                            assert(!in_queue(qe, c));
                            assert(se.contains(c));
                            let j = choose|j: int| 0 <= j < se.len() && se[j] == c;
                            assert(ids_of_nodes(oute)[j] == oute[j].id);
                            assert(oute[j].id == c);
                            assert(visited(oute, c));
                        }
                    }
                    assert(oute.len() >= 1);
                    if !revisit_witness(*store, root@) {
                        assert forall|k1: int, k2: int|
                            #![trigger oute[k1], oute[k2]]
                            0 <= k1 < k2 < oute.len() implies oute[k1].id != oute[k2].id by {
                            assert(ids_of_nodes(oute)[k1] == oute[k1].id);
                            assert(ids_of_nodes(oute)[k2] == oute[k2].id);
                            assert(se[k1] != se[k2]);
                        }
                    }
                }
                return Ok(out);
            },
            Some(id) => {
                let ghost xid = id@;
                let doc = store.lookup(&id);
                let ghost docv = match doc {
                    Some(d) => Some(d@),
                    None => None,
                };
                proof {
                    assert(qe.last().id == xid);
                    assert(w@.seen =~= se.push(xid));
                    assert(w@.queue =~= qe.drop_last());
                }
                match w.feed_doc(doc) {
                    Err(e) => {
                        proof {
                            lemma_abort_facts(*store, root@, rtitle, qe, se, docv, oute, e);
                        }
                        return Err(e);
                    },
                    Ok(node) => {
                        let ghost nodev = node@;
                        let ghost outpre = out@;
                        out.push(node);
                        proof {
                            let dv = docv.unwrap();
                            let parv = qe.last().parents.push(qe.last().name);
                            assert(store.doc_of(xid) == Some(dv));
                            lemma_step_invariants(*store, root@, qe, se, dv, parv, w@.queue);
                            lemma_step_decrease(*store, root@, qe, se, dv, parv, w@.queue);
                            assert(reachable(*store, root@, xid));
                            lemma_nodes_view_push(outpre, out@.last());
                            assert(nodes_view(out@) =~= oute.push(nodev));
                            assert(nodev == qe.last());
                            assert forall|k: int|
                                0 <= k < nodes_view(out@).len() implies reachable(
                                *store,
                                root@,
                                nodes_view(out@)[k].id,
                            ) by {
                                if k < oute.len() {
                                    assert(nodes_view(out@)[k] == oute[k]);
                                } else {
                                    assert(nodes_view(out@)[k] == nodev);
                                }
                            }
                            lemma_step_output(
                                *store,
                                root@,
                                rtitle,
                                qe,
                                se,
                                dv,
                                parv,
                                w@.queue,
                                oute,
                                nodev,
                            );
                            if !revisit_witness(*store, root@) {
                                lemma_step_single(
                                    *store,
                                    root@,
                                    rtitle,
                                    qe,
                                    se,
                                    dv,
                                    parv,
                                    w@.queue,
                                    oute,
                                );
                            }
                            if tree_ok(*store, root@) {
                                lemma_step_tree(
                                    *store,
                                    root@,
                                    rtitle,
                                    qe,
                                    se,
                                    dv,
                                    parv,
                                    w@.queue,
                                    oute,
                                    nodev,
                                );
                                assert forall|k1: int, k2: int|
                                    #![trigger nodes_view(out@)[k1], nodes_view(out@)[k2]]
                                    0 <= k1 < k2 < nodes_view(out@).len() implies nodes_view(
                                    out@,
                                )[k1].id != nodes_view(out@)[k2].id by {
                                    if k2 == nodes_view(out@).len() - 1 {
                                        assert(nodes_view(out@)[k2] == nodev);
                                        assert(nodes_view(out@)[k1] == oute[k1]);
                                        assert(!se.contains(qe[qe.len() - 1].id));
                                        assert(ids_of_nodes(oute)[k1] == oute[k1].id);
                                        if oute[k1].id == nodev.id {
                                            assert(se.contains(nodev.id));
                                            assert(false);
                                        }
                                    } else {
                                        assert(nodes_view(out@)[k1] == oute[k1]);
                                        assert(nodes_view(out@)[k2] == oute[k2]);
                                    }
                                }
                            }
                        }
                    },
                }
            },
        }
    }
}

} // verus!
