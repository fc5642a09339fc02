use vstd::prelude::*;
use vstd::string::StringSliceAdditionalSpecFns;
use vstd::utf8::{decode_utf8, encode_utf8, valid_utf8};

use std::collections::HashMap;

use crate::piece_table::{PieceTable, clamped, line_end, line_start};
use crate::lines::line_starts;

verus! {

broadcast use vstd::std_specs::hash::group_hash_axioms;

/// The identifier of a document held by the core.
#[derive(Clone, Copy, PartialEq, Eq, Structural, Hash, Default, Debug)]
pub struct DocumentId(pub u64);

/// A document: its text and the file it belongs to.
pub struct Document {
    pub path: Option<String>,
    pub data: PieceTable,
    pub modified: bool,
}

impl Document {
    pub fn new(path: Option<String>, data: PieceTable) -> (d: Self)
        ensures
            d.path == path,
            d.data == data,
            !d.modified,
    {
        Self { path, data, modified: false }
    }
}

/// An event emitted from the core. Protocols are free to process them however
/// necessary.
#[derive(PartialEq, Eq, Debug)]
pub enum CoreEvent {
    /// A new `Document` was created.
    Created { id: DocumentId },
    /// A `Document` was destroyed.
    Destroyed { id: DocumentId },
    /// Text has been inserted into a `Document` at `pos`.
    Inserted { id: DocumentId, pos: usize, str: String },
    /// `n` bytes of text have been removed from a `Document` at `pos`.
    Removed { id: DocumentId, pos: usize, n: usize, str: String },
    /// A `Document` has been saved to `path` with `len` bytes written.
    Saved { id: DocumentId, path: String, len: usize },
}

/// The errors a core command can answer with.
#[derive(PartialEq, Eq, Debug)]
pub enum CoreCommandError {
    /// An error regarding file IO occured.
    FileIo(String),
    /// The core is offline and doesn't take any requests.
    Offline,
    /// The core dropped the request.
    Dropped,
    /// The `Document` doesn't exist.
    NoDocument,
    /// The `Document` doesn't have an underlying file.
    NoPath,
    /// The `Document` has unsaved changes, blocking the request.
    UnsavedChanges,
}

/// A trait that should be implemented by protocols to map `CoreEvent`s to
/// protocol specific events.
pub trait CoreEventMapper: Send + Sync + 'static {
    /// Maps a `CoreEvent` to a protocol specific event.
    fn map(&self, event: &CoreEvent);
}

/// One end of a range of byte positions.
#[derive(Clone, Copy, PartialEq, Eq, Structural, Debug)]
pub enum SliceBound {
    Included(usize),
    Excluded(usize),
    Unbounded,
}

/// What creating a document needs.
#[derive(PartialEq, Eq, Debug)]
pub enum Creation {
    /// The file at the path has to be read first; `finalize_create` takes its
    /// content.
    Pending(String),
    /// The (empty, scratchpad) document was created.
    Done(DocumentId),
}

/// The bytes written when a document is saved.
#[derive(PartialEq, Eq, Debug)]
pub struct SaveJob {
    pub id: DocumentId,
    pub path: String,
    pub len: usize,
    pub data: String,
}

/// A command for the core to execute, without its reply channel.
pub enum CoreCommand {
    Create { path: Option<String> },
    Destroy { id: DocumentId, force: bool },
    GetPath { id: DocumentId },
    SetPath { id: DocumentId, path: Option<String> },
    StartCommit { id: DocumentId },
    EndCommit { id: DocumentId },
    Undo { id: DocumentId },
    HotRedo { id: DocumentId },
    Insert { id: DocumentId, pos: usize, str: String },
    Append { id: DocumentId, str: String },
    Remove { id: DocumentId, pos: usize, n: usize },
    GetLineStartByte { id: DocumentId, n: usize },
    GetLineEndByte { id: DocumentId, n: usize },
    IsModified { id: DocumentId },
    Save { id: DocumentId },
    GetSlice { id: DocumentId, start: SliceBound, end: SliceBound },
    Lines { id: DocumentId },
    Len { id: DocumentId },
    /// A batch of commands processed in succession. Nested batches are
    /// skipped.
    Batch(Vec<CoreCommand>),
}

/// The answer to one command.
#[derive(PartialEq, Eq, Debug)]
pub enum CoreReply {
    /// The command has no answer.
    Nothing,
    Create(Creation),
    Unit(Result<(), CoreCommandError>),
    Path(Result<Option<String>, CoreCommandError>),
    Count(Result<usize, CoreCommandError>),
    Flag(Result<bool, CoreCommandError>),
    Text(Result<String, CoreCommandError>),
    Save(Result<SaveJob, CoreCommandError>),
    /// The command would have made the core fail (an undo that does not fit
    /// the pieces, a slice that splits a character, a length past `usize`).
    Refused,
}

/// The documents of the editor and the commands that change them.
pub struct Core {
    documents: HashMap<u64, Document>,
    next_document_id: u64,
}

impl Core {
    /// The documents, by identifier.
    pub closed spec fn docs(&self) -> Map<u64, Document> {
        self.documents@
    }

    /// The identifier the next document gets.
    pub closed spec fn next_id(&self) -> u64 {
        self.next_document_id
    }

    /// Every document's table is well formed and every identifier was handed
    /// out before.
    pub closed spec fn wf(&self) -> bool {
        forall|k: u64| #[trigger] self.documents@.contains_key(k) ==> self.documents@[k].data.wf()
            && k < self.next_document_id
    }

    pub fn new() -> (c: Self)
        ensures
            c.wf(),
            c.docs() == Map::<u64, Document>::empty(),
            c.next_id() == 0,
    {
        Self { documents: HashMap::new(), next_document_id: 0 }
    }

    /// The identifier the next document gets.
    pub fn next_document_id(&self) -> (r: u64)
        ensures
            r == self.next_id(),
    {
        self.next_document_id
    }

    /// Whether the document `id` exists.
    pub fn contains(&self, id: DocumentId) -> (r: bool)
        ensures
            r == self.docs().contains_key(id.0),
    {
        self.documents.contains_key(&id.0)
    }

    /// The document `id`, if it exists.
    pub fn document(&self, id: DocumentId) -> (r: Option<&Document>)
        ensures
            match r {
                Some(d) => self.docs().contains_key(id.0) && *d == self.docs()[id.0],
                None => !self.docs().contains_key(id.0),
            },
    {
        self.documents.get(&id.0)
    }

    /// Takes the document `id` out, to put it back changed.
    fn take(&mut self, id: DocumentId) -> (r: Option<Document>)
        ensures
            final(self).next_id() == old(self).next_id(),
            match r {
                Some(d) => old(self).docs().contains_key(id.0) && d == old(self).docs()[id.0]
                    && final(self).docs() == old(self).docs().remove(id.0),
                None => !old(self).docs().contains_key(id.0) && final(self).docs() == old(self).docs(),
            },
    {
        self.documents.remove(&id.0)
    }

    fn put(&mut self, id: DocumentId, doc: Document)
        ensures
            final(self).next_id() == old(self).next_id(),
            final(self).docs() == old(self).docs().insert(id.0, doc),
    {
        self.documents.insert(id.0, doc);
    }

    /// Only the document `id` may differ between `old` and `self`; the set of
    /// documents and the next identifier are the same.
    pub open spec fn others_unchanged(&self, old: &Self, id: u64) -> bool {
        &&& self.next_id() == old.next_id()
        &&& self.docs().dom() == old.docs().dom()
        &&& forall|k: u64| k != id && #[trigger] old.docs().contains_key(k) ==> self.docs()[k] == old.docs()[k]
    }

    /// Adds a document and hands out its identifier.
    pub fn create_document(&mut self, path: Option<String>, data: PieceTable) -> (id: DocumentId)
        requires
            old(self).wf(),
            data.wf(),
            old(self).next_id() < u64::MAX,
        ensures
            final(self).wf(),
            id.0 == old(self).next_id(),
            final(self).next_id() == old(self).next_id() + 1,
            !old(self).docs().contains_key(id.0),
            final(self).docs() == old(self).docs().insert(
                id.0,
                (Document { path, data, modified: false }),
            ),
    {
        let id = DocumentId(self.next_document_id);
        self.next_document_id = self.next_document_id + 1;
        self.documents.insert(id.0, Document::new(path, data));
        proof {
            assert forall|k: u64| #[trigger] self.documents@.contains_key(k) implies self.documents@[k].data.wf()
                && k < self.next_document_id by {
                if k != id.0 {
                    assert(old(self).documents@.contains_key(k));
                }
            }
        }
        id
    }

    /// The documents and the next identifier are those of `old`.
    pub open spec fn same_as(&self, old: Self) -> bool {
        self.docs() == old.docs() && self.next_id() == old.next_id()
    }

    /// What `create` does: with a path nothing yet, without one a new empty
    /// scratchpad document under the next identifier.
    pub open spec fn create_post(self, new: Self, path: Option<String>, r: (Creation, Option<CoreEvent>)) -> bool {
        match path {
            Some(p) => r == (Creation::Pending(p), None::<CoreEvent>) && new.same_as(self),
            None => {
                let id = DocumentId(self.next_id());
                &&& r == (Creation::Done(id), Some(CoreEvent::Created { id }))
                &&& new.next_id() == self.next_id() + 1
                &&& new.docs().dom() == self.docs().dom().insert(id.0)
                &&& new.docs()[id.0].path.is_none()
                &&& !new.docs()[id.0].modified
                &&& new.docs()[id.0].data.text() == Seq::<u8>::empty()
                &&& forall|k: u64| k != id.0 ==> #[trigger] new.docs().contains_key(k)
                    ==> new.docs()[k] == self.docs()[k]
            },
        }
    }

    /// Creates a new `Document`. Without a path a "scratchpad" document is
    /// created at once; with one, the file has to be read first.
    pub fn create(&mut self, path: Option<String>) -> (r: (Creation, Option<CoreEvent>))
        requires
            old(self).wf(),
            path.is_none() ==> old(self).next_id() < u64::MAX,
        ensures
            final(self).wf(),
            old(self).create_post(*final(self), path, r),
    {
        match path {
            Some(p) => (Creation::Pending(p), None),
            None => {
                let id = self.create_document(None, PieceTable::from_str(""));
                proof {
                    reveal_strlit("");
                }
                (Creation::Done(id), Some(CoreEvent::Created { id }))
            },
        }
    }

    /// Takes the content read from the file at `path` and creates the
    /// document, or answers with the reading error.
    pub fn finalize_create(&mut self, path: String, content: Result<String, String>) -> (r: (
        Result<DocumentId, CoreCommandError>,
        Option<CoreEvent>,
    ))
        requires
            old(self).wf(),
            content.is_ok() ==> old(self).next_id() < u64::MAX,
        ensures
            final(self).wf(),
            match content {
                Err(e) => r == (Err::<DocumentId, CoreCommandError>(CoreCommandError::FileIo(e)), None::<CoreEvent>)
                    && final(self).docs() == old(self).docs() && final(self).next_id() == old(self).next_id(),
                Ok(c) => {
                    let id = DocumentId(old(self).next_id());
                    &&& r == (Ok::<DocumentId, CoreCommandError>(id), Some(CoreEvent::Created { id }))
                    &&& final(self).next_id() == old(self).next_id() + 1
                    &&& final(self).docs().dom() == old(self).docs().dom().insert(id.0)
                    &&& final(self).docs()[id.0].path == Some(path)
                    &&& !final(self).docs()[id.0].modified
                    &&& final(self).docs()[id.0].data.text() == encode_utf8(c@)
                    &&& forall|k: u64| k != id.0 ==> #[trigger] final(self).docs().contains_key(k)
                        ==> final(self).docs()[k] == old(self).docs()[k]
                },
            },
    {
        match content {
            Err(e) => (Err(CoreCommandError::FileIo(e)), None),
            Ok(c) => {
                let id = self.create_document(Some(path), PieceTable::from_string(c));
                (Ok(id), Some(CoreEvent::Created { id }))
            },
        }
    }

    /// What `destroy` does: a modified document stays unless forced, anything
    /// else is gone (an unknown one too, without complaint).
    pub open spec fn destroy_post(self, new: Self, id: DocumentId, force: bool, r: (Result<(), CoreCommandError>, Option<CoreEvent>)) -> bool {
        &&& new.next_id() == self.next_id()
        &&& if self.docs().contains_key(id.0) && self.docs()[id.0].modified && !force {
            r == (Err::<(), CoreCommandError>(CoreCommandError::UnsavedChanges), None::<CoreEvent>)
                && new.docs() == self.docs()
        } else {
            r == (Ok::<(), CoreCommandError>(()), Some(CoreEvent::Destroyed { id }))
                && new.docs() == self.docs().remove(id.0)
        }
    }

    /// Destroys a `Document`. With `force`, unsaved changes are discarded.
    pub fn destroy(&mut self, id: DocumentId, force: bool) -> (r: (Result<(), CoreCommandError>, Option<CoreEvent>))
        requires
            old(self).wf(),
        ensures
            final(self).wf(),
            old(self).destroy_post(*final(self), id, force, r),
    {
        match self.documents.get(&id.0) {
            Some(doc) => {
                if doc.modified && !force {
                    return (Err(CoreCommandError::UnsavedChanges), None);
                }
            },
            None => {},
        }
        self.documents.remove(&id.0);
        proof {
            assert forall|k: u64| #[trigger] self.documents@.contains_key(k) implies self.documents@[k].data.wf()
                && k < self.next_document_id by {
                assert(old(self).documents@.contains_key(k));
            }
        }
        (Ok(()), Some(CoreEvent::Destroyed { id }))
    }

    /// Gets the underlying path of a `Document`.
    pub fn get_path(&self, id: DocumentId) -> (r: Result<Option<String>, CoreCommandError>)
        ensures
            match r {
                Ok(p) => self.docs().contains_key(id.0) && p == self.docs()[id.0].path,
                Err(e) => !self.docs().contains_key(id.0) && e == CoreCommandError::NoDocument,
            },
    {
        match self.documents.get(&id.0) {
            None => Err(CoreCommandError::NoDocument),
            Some(doc) => Ok(doc.path.clone()),
        }
    }

    /// What `set_path` does: the path changes and the document counts as modified.
    pub open spec fn set_path_post(self, new: Self, id: DocumentId, path: Option<String>, r: Result<(), CoreCommandError>) -> bool {
        &&& new.next_id() == self.next_id()
        &&& match r {
            Ok(()) => self.docs().contains_key(id.0) && new.docs() == self.docs().insert(
                id.0,
                (Document { path, data: self.docs()[id.0].data, modified: true }),
            ),
            Err(e) => !self.docs().contains_key(id.0) && e == CoreCommandError::NoDocument
                && new.docs() == self.docs(),
        }
    }

    /// Sets the underlying path of a `Document`, which counts as a change.
    pub fn set_path(&mut self, id: DocumentId, path: Option<String>) -> (r: Result<(), CoreCommandError>)
        requires
            old(self).wf(),
        ensures
            final(self).wf(),
            old(self).set_path_post(*final(self), id, path, r),
    {
        match self.take(id) {
            None => Err(CoreCommandError::NoDocument),
            Some(mut doc) => {
                doc.path = path;
                doc.modified = true;
                let ghost d = doc;
                self.put(id, doc);
                proof {
                    self.lemma_put_keeps_wf(old(self), id.0);
                    assert(self.docs() =~= old(self).docs().insert(id.0, d));
                }
                Ok(())
            },
        }
    }

    proof fn lemma_put_keeps_wf(&self, old: &Self, k0: u64)
        requires
            old.wf(),
            old.docs().contains_key(k0),
            self.next_id() == old.next_id(),
            self.docs().dom() == old.docs().dom(),
            self.docs()[k0].data.wf(),
            forall|k: u64| k != k0 && #[trigger] old.docs().contains_key(k) ==> self.docs()[k] == old.docs()[k],
        ensures
            self.wf(),
    {
        assert forall|k: u64| #[trigger] self.documents@.contains_key(k) implies self.documents@[k].data.wf()
            && k < self.next_document_id by {
            assert(old.documents@.contains_key(k));
        }
    }

    /// What `start_commit` does to the document `id`: its text stays, a commit is open.
    pub open spec fn start_commit_post(self, new: Self, id: DocumentId) -> bool {
        &&& new.others_unchanged(&self, id.0)
        &&& self.docs().contains_key(id.0) ==> {
            let o = self.docs()[id.0];
            let n = new.docs()[id.0];
            &&& n.path == o.path
            &&& n.modified == o.modified
            &&& n.data.text() == o.data.text()
            &&& n.data.in_commit()
            &&& (!o.data.in_commit() ==> n.data.commit_base_text() == o.data.text())
        }
    }

    /// Starts an edit history commit for a `Document`.
    pub fn start_commit(&mut self, id: DocumentId)
        requires
            old(self).wf(),
        ensures
            final(self).wf(),
            old(self).start_commit_post(*final(self), id),
    {
        if let Some(mut doc) = self.take(id) {
            doc.data.start_commit();
            self.put(id, doc);
            proof {
                self.lemma_put_keeps_wf(old(self), id.0);
            }
        }
    }

    /// What `end_commit` does to the document `id`: its text stays, no commit is open.
    pub open spec fn end_commit_post(self, new: Self, id: DocumentId) -> bool {
        &&& new.others_unchanged(&self, id.0)
        &&& self.docs().contains_key(id.0) ==> {
            let o = self.docs()[id.0];
            let n = new.docs()[id.0];
            &&& n.path == o.path
            &&& n.modified == o.modified
            &&& n.data.text() == o.data.text()
            &&& !n.data.in_commit()
        }
    }

    /// Ends an edit history commit for a `Document`.
    pub fn end_commit(&mut self, id: DocumentId)
        requires
            old(self).wf(),
        ensures
            final(self).wf(),
            old(self).end_commit_post(*final(self), id),
    {
        if let Some(mut doc) = self.take(id) {
            doc.data.end_commit();
            self.put(id, doc);
            proof {
                self.lemma_put_keeps_wf(old(self), id.0);
            }
        }
    }

    /// What `undo` does to the document `id`.
    pub open spec fn undo_post(self, new: Self, id: DocumentId) -> bool {
        &&& new.others_unchanged(&self, id.0)
        &&& self.docs().contains_key(id.0) ==> {
            let o = self.docs()[id.0];
            let n = new.docs()[id.0];
            let h = o.data.hist().head();
            &&& n.path == o.path
            &&& n.modified == o.modified
            &&& (o.data.hist().entries()[h].previous.is_none() ==> n.data.text() == o.data.text())
            &&& (o.data.hist().entries()[h].previous.is_some() && o.data.at_head() && o.data.faithful(h)
                ==> n.data.text() == o.data.entry_before_text(h))
        }
    }

    /// Undoes the last committed edit of a `Document`.
    pub fn undo(&mut self, id: DocumentId)
        requires
            old(self).wf(),
            old(self).docs().contains_key(id.0) ==> old(self).docs()[id.0].data.undo_applicable(),
        ensures
            final(self).wf(),
            old(self).undo_post(*final(self), id),
    {
        if let Some(mut doc) = self.take(id) {
            doc.data.undo();
            self.put(id, doc);
            proof {
                self.lemma_put_keeps_wf(old(self), id.0);
            }
        }
    }

    /// What `hot_redo` does to the document `id`.
    pub open spec fn hot_redo_post(self, new: Self, id: DocumentId) -> bool {
        &&& new.others_unchanged(&self, id.0)
        &&& self.docs().contains_key(id.0) ==> {
            let o = self.docs()[id.0];
            let n = new.docs()[id.0];
            let h = o.data.hist().head();
            &&& n.path == o.path
            &&& n.modified == o.modified
            &&& (o.data.hist().entries()[h].hot_path.is_none() ==> n.data.text() == o.data.text())
            &&& ({
                let c = o.data.hist().entries()[h].hot_path;
                c.is_some() && o.data.at_before(c.unwrap() as int) && o.data.faithful(c.unwrap() as int)
                    ==> n.data.text() == o.data.entry_after_text(c.unwrap() as int)
            })
        }
    }

    /// Redoes the last undone commit of a `Document`.
    pub fn hot_redo(&mut self, id: DocumentId)
        requires
            old(self).wf(),
            old(self).docs().contains_key(id.0) ==> old(self).docs()[id.0].data.redo_applicable(),
        ensures
            final(self).wf(),
            old(self).hot_redo_post(*final(self), id),
    {
        if let Some(mut doc) = self.take(id) {
            doc.data.hot_redo();
            self.put(id, doc);
            proof {
                self.lemma_put_keeps_wf(old(self), id.0);
            }
        }
    }

    /// Whether inserting `len` bytes into the document `id` keeps its lengths
    /// within `usize`.
    pub open spec fn insert_fits(&self, id: u64, len: nat) -> bool {
        self.docs().contains_key(id) ==> {
            let d = self.docs()[id].data;
            &&& d.text().len() + len <= usize::MAX
            &&& d.buffer_len() + len <= usize::MAX
        }
    }

    /// What `insert` does: the text goes in at `pos`, cut to the end of the text.
    pub open spec fn insert_post(self, new: Self, id: DocumentId, pos: usize, str: String, r: Option<CoreEvent>) -> bool {
        &&& new.others_unchanged(&self, id.0)
        &&& if str@.len() == 0 || !self.docs().contains_key(id.0) {
            r.is_none() && new.docs() == self.docs()
        } else {
            let o = self.docs()[id.0];
            let n = new.docs()[id.0];
            let t = o.data.text();
            let p = if pos < t.len() { pos as int } else { t.len() as int };
            &&& r == Some(CoreEvent::Inserted { id, pos: p as usize, str })
            &&& n.path == o.path
            &&& n.modified
            &&& n.data.text() == t.subrange(0, p) + encode_utf8(str@) + t.subrange(p, t.len() as int)
        }
    }

    /// Inserts text into a `Document`, at `pos` or at its end if `pos` lies
    /// past it. Empty text and an unknown document change nothing.
    pub fn insert(&mut self, id: DocumentId, pos: usize, str: String) -> (r: Option<CoreEvent>)
        requires
            old(self).wf(),
            old(self).insert_fits(id.0, encode_utf8(str@).len()),
        ensures
            final(self).wf(),
            old(self).insert_post(*final(self), id, pos, str, r),
    {
        if str.as_str().is_empty() {
            return None;
        }
        let mut doc = match self.take(id) {
            None => {
                return None;
            },
            Some(doc) => doc,
        };
        let len = doc.data.len();
        let pos = if pos < len { pos } else { len };
        doc.data.insert(pos, str.as_str());
        doc.modified = true;
        self.put(id, doc);
        proof {
            self.lemma_put_keeps_wf(old(self), id.0);
        }
        Some(CoreEvent::Inserted { id, pos, str })
    }

    /// What `append` does: the text goes in at the end.
    pub open spec fn append_post(self, new: Self, id: DocumentId, str: String, r: Option<CoreEvent>) -> bool {
        &&& new.others_unchanged(&self, id.0)
        &&& if str@.len() == 0 || !self.docs().contains_key(id.0) {
            r.is_none() && new.docs() == self.docs()
        } else {
            let o = self.docs()[id.0];
            let n = new.docs()[id.0];
            let t = o.data.text();
            &&& r == Some(CoreEvent::Inserted { id, pos: t.len() as usize, str })
            &&& n.path == o.path
            &&& n.modified
            &&& n.data.text() == t + encode_utf8(str@)
        }
    }

    /// Appends text to a `Document`. Empty text and an unknown document
    /// change nothing.
    pub fn append(&mut self, id: DocumentId, str: String) -> (r: Option<CoreEvent>)
        requires
            old(self).wf(),
            old(self).insert_fits(id.0, encode_utf8(str@).len()),
        ensures
            final(self).wf(),
            old(self).append_post(*final(self), id, str, r),
    {
        if str.as_str().is_empty() {
            return None;
        }
        let mut doc = match self.take(id) {
            None => {
                return None;
            },
            Some(doc) => doc,
        };
        let pos = doc.data.len();
        doc.data.append(str.as_str());
        doc.modified = true;
        self.put(id, doc);
        proof {
            self.lemma_put_keeps_wf(old(self), id.0);
        }
        Some(CoreEvent::Inserted { id, pos, str })
    }

    /// The bytes `remove` takes out of a text: from `pos` (cut to the text)
    /// `n` bytes (cut to the text).
    pub open spec fn removal(t: Seq<u8>, pos: int, n: int) -> (int, int) {
        let p = if pos < t.len() { pos } else { t.len() as int };
        let m = if n < t.len() - p { n } else { t.len() - p };
        (p, m)
    }

    /// What `remove` does: the bytes `removal` picks go out.
    pub open spec fn remove_post(self, new: Self, id: DocumentId, pos: usize, n: usize, r: Option<CoreEvent>) -> bool {
        &&& new.others_unchanged(&self, id.0)
        &&& if !self.docs().contains_key(id.0) || Self::removal(
            self.docs()[id.0].data.text(),
            pos as int,
            n as int,
        ).1 == 0 {
            r.is_none() && new.docs() == self.docs()
        } else {
            let o = self.docs()[id.0];
            let nd = new.docs()[id.0];
            let t = o.data.text();
            let (p, m) = Self::removal(t, pos as int, n as int);
            &&& r matches Some(CoreEvent::Removed { id: rid, pos: rp, n: rn, str })
            &&& rid == id && rp == p && rn == m && str@ == decode_utf8(t.subrange(p, p + m))
            &&& nd.path == o.path
            &&& nd.modified
            &&& nd.data.text() == t.subrange(0, p) + t.subrange(p + m, t.len() as int)
        }
    }

    /// Removes `n` bytes of text from a `Document` at `pos`, both cut to its
    /// length. Nothing to remove and an unknown document change nothing.
    pub fn remove(&mut self, id: DocumentId, pos: usize, n: usize) -> (r: Option<CoreEvent>)
        requires
            old(self).wf(),
            old(self).docs().contains_key(id.0) ==> {
                let t = old(self).docs()[id.0].data.text();
                let (p, m) = Self::removal(t, pos as int, n as int);
                m > 0 ==> valid_utf8(t.subrange(p, p + m))
            },
        ensures
            final(self).wf(),
            old(self).remove_post(*final(self), id, pos, n, r),
    {
        let mut doc = match self.take(id) {
            None => {
                return None;
            },
            Some(doc) => doc,
        };
        let len = doc.data.len();
        let pos = if pos < len { pos } else { len };
        let n = if n < len - pos { n } else { len - pos };
        if n == 0 {
            self.put(id, doc);
            proof {
                assert(self.docs() =~= old(self).docs());
            }
            return None;
        }
        proof {
            let t = doc.data.text();
            assert(clamped(t, pos as int, pos + n) =~= t.subrange(pos as int, pos + n));
        }
        let str = doc.data.slice_range(pos, pos + n);
        doc.data.remove(pos, n);
        doc.modified = true;
        self.put(id, doc);
        proof {
            self.lemma_put_keeps_wf(old(self), id.0);
        }
        Some(CoreEvent::Removed { id, pos, n, str })
    }

    /// Gets the byte index where the nth line begins.
    pub fn get_line_start_byte(&self, id: DocumentId, n: usize) -> (r: Result<usize, CoreCommandError>)
        requires
            self.wf(),
        ensures
            match r {
                Ok(b) => self.docs().contains_key(id.0) && b == line_start(self.docs()[id.0].data.text(), n as int),
                Err(e) => !self.docs().contains_key(id.0) && e == CoreCommandError::NoDocument,
            },
    {
        match self.documents.get(&id.0) {
            None => Err(CoreCommandError::NoDocument),
            Some(doc) => Ok(doc.data.get_line_start_byte(n)),
        }
    }

    /// Gets the byte index of where the nth line ends and the next line begins.
    pub fn get_line_end_byte(&self, id: DocumentId, n: usize) -> (r: Result<usize, CoreCommandError>)
        requires
            self.wf(),
        ensures
            match r {
                Ok(b) => self.docs().contains_key(id.0) && b == line_end(self.docs()[id.0].data.text(), n as int),
                Err(e) => !self.docs().contains_key(id.0) && e == CoreCommandError::NoDocument,
            },
    {
        match self.documents.get(&id.0) {
            None => Err(CoreCommandError::NoDocument),
            Some(doc) => Ok(doc.data.get_line_end_byte(n)),
        }
    }

    /// Gets if a `Document` has unsaved changes.
    pub fn is_modified(&self, id: DocumentId) -> (r: Result<bool, CoreCommandError>)
        ensures
            match r {
                Ok(b) => self.docs().contains_key(id.0) && b == self.docs()[id.0].modified,
                Err(e) => !self.docs().contains_key(id.0) && e == CoreCommandError::NoDocument,
            },
    {
        match self.documents.get(&id.0) {
            None => Err(CoreCommandError::NoDocument),
            Some(doc) => Ok(doc.modified),
        }
    }

    /// Gets the number of lines of a `Document`.
    pub fn lines(&self, id: DocumentId) -> (r: Result<usize, CoreCommandError>)
        requires
            self.wf(),
        ensures
            match r {
                Ok(b) => self.docs().contains_key(id.0) && b == line_starts(self.docs()[id.0].data.text()).len(),
                Err(e) => !self.docs().contains_key(id.0) && e == CoreCommandError::NoDocument,
            },
    {
        match self.documents.get(&id.0) {
            None => Err(CoreCommandError::NoDocument),
            Some(doc) => Ok(doc.data.lines()),
        }
    }

    /// Gets the length of a `Document` in bytes.
    pub fn len(&self, id: DocumentId) -> (r: Result<usize, CoreCommandError>)
        requires
            self.wf(),
        ensures
            match r {
                Ok(b) => self.docs().contains_key(id.0) && b == self.docs()[id.0].data.text().len(),
                Err(e) => !self.docs().contains_key(id.0) && e == CoreCommandError::NoDocument,
            },
    {
        match self.documents.get(&id.0) {
            None => Err(CoreCommandError::NoDocument),
            Some(doc) => Ok(doc.data.len()),
        }
    }

    /// What `save` answers: the text of the document and its path, or why
    /// there is nothing to write.
    pub open spec fn save_post(self, id: DocumentId, r: Result<SaveJob, CoreCommandError>) -> bool {
        match r {
            Ok(job) => {
                let d = self.docs()[id.0];
                &&& self.docs().contains_key(id.0)
                &&& d.path == Some(job.path)
                &&& job.id == id
                &&& job.len == d.data.text().len()
                &&& job.data@ == decode_utf8(d.data.text())
            },
            Err(e) => if !self.docs().contains_key(id.0) {
                e == CoreCommandError::NoDocument
            } else {
                self.docs()[id.0].path.is_none() && e == CoreCommandError::NoPath
            },
        }
    }

    /// What saving a `Document` writes: its text, to its path.
    pub fn save(&self, id: DocumentId) -> (r: Result<SaveJob, CoreCommandError>)
        requires
            self.wf(),
            self.docs().contains_key(id.0) && self.docs()[id.0].path.is_some() ==> valid_utf8(
                self.docs()[id.0].data.text(),
            ),
        ensures
            self.save_post(id, r),
    {
        let doc = match self.documents.get(&id.0) {
            None => {
                return Err(CoreCommandError::NoDocument);
            },
            Some(doc) => doc,
        };
        let path = match &doc.path {
            None => {
                return Err(CoreCommandError::NoPath);
            },
            Some(p) => p.clone(),
        };
        let len = doc.data.len();
        let data = doc.data.to_string();
        Ok(SaveJob { id, path, len, data })
    }

    /// Takes the outcome of writing a document to `path`: the document counts
    /// as saved, or the writing error is the answer.
    pub fn finalize_save(&mut self, id: DocumentId, path: String, len: usize, res: Result<(), String>) -> (r: (
        Result<usize, CoreCommandError>,
        Option<CoreEvent>,
    ))
        requires
            old(self).wf(),
        ensures
            final(self).wf(),
            final(self).others_unchanged(old(self), id.0),
            match res {
                Err(e) => r == (Err::<usize, CoreCommandError>(CoreCommandError::FileIo(e)), None::<CoreEvent>)
                    && final(self).docs() == old(self).docs(),
                Ok(()) => {
                    &&& r == (Ok::<usize, CoreCommandError>(len), Some(CoreEvent::Saved { id, path, len }))
                    &&& old(self).docs().contains_key(id.0) ==> {
                        let o = old(self).docs()[id.0];
                        let n = final(self).docs()[id.0];
                        n.path == o.path && n.data == o.data && !n.modified
                    }
                },
            },
    {
        match res {
            Err(e) => (Err(CoreCommandError::FileIo(e)), None),
            Ok(()) => {
                if let Some(mut doc) = self.take(id) {
                    doc.modified = false;
                    self.put(id, doc);
                    proof {
                        self.lemma_put_keeps_wf(old(self), id.0);
                    }
                }
                (Ok(len), Some(CoreEvent::Saved { id, path, len }))
            },
        }
    }

    /// The first byte a bound at the start of a range selects.
    pub open spec fn start_of(b: SliceBound) -> int {
        match b {
            SliceBound::Included(n) => n as int,
            SliceBound::Excluded(n) => n + 1,
            SliceBound::Unbounded => 0,
        }
    }

    /// The byte after the last one a bound at the end of a range selects.
    pub open spec fn end_of(b: SliceBound, len: int) -> int {
        match b {
            SliceBound::Included(n) => n + 1,
            SliceBound::Excluded(n) => n as int,
            SliceBound::Unbounded => len,
        }
    }

    /// The range a pair of bounds selects, cut to `len` and never reversed.
    pub open spec fn slice_range_of(start: SliceBound, end: SliceBound, len: int) -> (int, int) {
        let s = Self::start_of(start);
        let e = Self::end_of(end, len);
        let s2 = if s < len { s } else { len };
        let e1 = if e < len { e } else { len };
        let e2 = if e1 > s2 { e1 } else { s2 };
        (s2, e2)
    }

    /// Whether `get_slice` can serve the bounds: each bound fits in `usize`
    /// once made exclusive, and the bytes they select are valid UTF-8.
    pub open spec fn slice_ok(self, id: u64, start: SliceBound, end: SliceBound) -> bool {
        &&& start != SliceBound::Excluded(usize::MAX)
        &&& end != SliceBound::Included(usize::MAX)
        &&& self.docs().contains_key(id) ==> {
            let t = self.docs()[id].data.text();
            let (s, e) = Self::slice_range_of(start, end, t.len() as int);
            valid_utf8(t.subrange(s, e))
        }
    }

    /// What `get_slice` answers: the text between the bounds.
    pub open spec fn get_slice_post(self, id: DocumentId, start: SliceBound, end: SliceBound, r: Result<String, CoreCommandError>) -> bool {
        match r {
            Ok(str) => {
                let t = self.docs()[id.0].data.text();
                let (s, e) = Self::slice_range_of(start, end, t.len() as int);
                self.docs().contains_key(id.0) && str@ == decode_utf8(t.subrange(s, e))
            },
            Err(e) => !self.docs().contains_key(id.0) && e == CoreCommandError::NoDocument,
        }
    }

    /// Gets a slice of text from the `Document`.
    pub fn get_slice(&self, id: DocumentId, start: SliceBound, end: SliceBound) -> (r: Result<String, CoreCommandError>)
        requires
            self.wf(),
            self.slice_ok(id.0, start, end),
        ensures
            self.get_slice_post(id, start, end, r),
    {
        let doc = match self.documents.get(&id.0) {
            None => {
                return Err(CoreCommandError::NoDocument);
            },
            Some(doc) => doc,
        };
        let len = doc.data.len();
        let s = match start {
            SliceBound::Included(n) => n,
            SliceBound::Excluded(n) => n + 1,
            SliceBound::Unbounded => 0,
        };
        let e = match end {
            SliceBound::Included(n) => n + 1,
            SliceBound::Excluded(n) => n,
            SliceBound::Unbounded => len,
        };
        let s = if s < len { s } else { len };
        let e = if e < len { e } else { len };
        let e = if e > s { e } else { s };
        if s == e {
            proof {
                assert(vstd::utf8::decode_utf8(Seq::<u8>::empty()) =~= Seq::<char>::empty());
                let t = doc.data.text();
                assert(t.subrange(s as int, e as int) =~= Seq::<u8>::empty());
            }
            return Ok(String::new());
        }
        proof {
            let t = doc.data.text();
            assert(clamped(t, s as int, e as int) =~= t.subrange(s as int, e as int));
        }
        Ok(doc.data.slice_range(s, e))
    }
}

impl Core {
    /// The answer to a lookup in the document `id`: `value` if it exists.
    pub open spec fn looked_up<T>(self, id: u64, res: Result<T, CoreCommandError>, value: T) -> bool {
        match res {
            Ok(v) => self.docs().contains_key(id) && v == value,
            Err(e) => !self.docs().contains_key(id) && e == CoreCommandError::NoDocument,
        }
    }

    /// Whether the core can execute `cmd` without breaking a requirement of
    /// a document's table or an identifier running out.
    pub open spec fn accepts(self, cmd: CoreCommand) -> bool {
        match cmd {
            CoreCommand::Create { path } => path.is_none() ==> self.next_id() < u64::MAX,
            CoreCommand::Undo { id } => self.docs().contains_key(id.0) ==> self.docs()[id.0].data.undo_applicable(),
            CoreCommand::HotRedo { id } => self.docs().contains_key(id.0)
                ==> self.docs()[id.0].data.redo_applicable(),
            CoreCommand::Insert { id, pos: _, str } => self.insert_fits(id.0, encode_utf8(str@).len()),
            CoreCommand::Append { id, str } => self.insert_fits(id.0, encode_utf8(str@).len()),
            CoreCommand::Remove { id, pos, n } => self.docs().contains_key(id.0) ==> {
                let t = self.docs()[id.0].data.text();
                let (p, m) = Self::removal(t, pos as int, n as int);
                m > 0 ==> valid_utf8(t.subrange(p, p + m))
            },
            CoreCommand::Save { id } => self.docs().contains_key(id.0) && self.docs()[id.0].path.is_some()
                ==> valid_utf8(self.docs()[id.0].data.text()),
            CoreCommand::GetSlice { id, start, end } => self.slice_ok(id.0, start, end),
            _ => true,
        }
    }

    /// What executing `cmd`, no batch, on `self` gives: the new core `new`,
    /// the answer and the event. A command the core does not accept is
    /// refused and changes nothing; a batch inside a batch is skipped.
    pub open spec fn processed(self, new: Self, cmd: CoreCommand, r: (CoreReply, Option<CoreEvent>)) -> bool {
        if !self.accepts(cmd) {
            r == (CoreReply::Refused, None::<CoreEvent>) && new.same_as(self)
        } else {
            match cmd {
                CoreCommand::Create { path } => r.0 matches CoreReply::Create(c) && self.create_post(
                    new,
                    path,
                    (c, r.1),
                ),
                CoreCommand::Destroy { id, force } => r.0 matches CoreReply::Unit(u) && self.destroy_post(
                    new,
                    id,
                    force,
                    (u, r.1),
                ),
                CoreCommand::GetPath { id } => {
                    &&& r.0 matches CoreReply::Path(res) && self.looked_up(id.0, res, self.docs()[id.0].path)
                    &&& r.1.is_none()
                    &&& new.same_as(self)
                },
                CoreCommand::SetPath { id, path } => {
                    &&& r.0 matches CoreReply::Unit(u) && self.set_path_post(new, id, path, u)
                    &&& r.1.is_none()
                },
                CoreCommand::StartCommit { id } => r == (CoreReply::Nothing, None::<CoreEvent>)
                    && self.start_commit_post(new, id),
                CoreCommand::EndCommit { id } => r == (CoreReply::Nothing, None::<CoreEvent>)
                    && self.end_commit_post(new, id),
                CoreCommand::Undo { id } => r == (CoreReply::Nothing, None::<CoreEvent>) && self.undo_post(new, id),
                CoreCommand::HotRedo { id } => r == (CoreReply::Nothing, None::<CoreEvent>)
                    && self.hot_redo_post(new, id),
                CoreCommand::Insert { id, pos, str } => r.0 == CoreReply::Nothing
                    && self.insert_post(new, id, pos, str, r.1),
                CoreCommand::Append { id, str } => r.0 == CoreReply::Nothing && self.append_post(new, id, str, r.1),
                CoreCommand::Remove { id, pos, n } => r.0 == CoreReply::Nothing
                    && self.remove_post(new, id, pos, n, r.1),
                CoreCommand::GetLineStartByte { id, n } => {
                    &&& r.0 matches CoreReply::Count(res) && self.looked_up(
                        id.0,
                        res,
                        line_start(self.docs()[id.0].data.text(), n as int) as usize,
                    )
                    &&& r.1.is_none()
                    &&& new.same_as(self)
                },
                CoreCommand::GetLineEndByte { id, n } => {
                    &&& r.0 matches CoreReply::Count(res) && self.looked_up(
                        id.0,
                        res,
                        line_end(self.docs()[id.0].data.text(), n as int) as usize,
                    )
                    &&& r.1.is_none()
                    &&& new.same_as(self)
                },
                CoreCommand::IsModified { id } => {
                    &&& r.0 matches CoreReply::Flag(res) && self.looked_up(id.0, res, self.docs()[id.0].modified)
                    &&& r.1.is_none()
                    &&& new.same_as(self)
                },
                CoreCommand::Save { id } => {
                    &&& r.0 matches CoreReply::Save(res) && self.save_post(id, res)
                    &&& r.1.is_none()
                    &&& new.same_as(self)
                },
                CoreCommand::GetSlice { id, start, end } => {
                    &&& r.0 matches CoreReply::Text(res) && self.get_slice_post(id, start, end, res)
                    &&& r.1.is_none()
                    &&& new.same_as(self)
                },
                CoreCommand::Lines { id } => {
                    &&& r.0 matches CoreReply::Count(res) && self.looked_up(
                        id.0,
                        res,
                        line_starts(self.docs()[id.0].data.text()).len() as usize,
                    )
                    &&& r.1.is_none()
                    &&& new.same_as(self)
                },
                CoreCommand::Len { id } => {
                    &&& r.0 matches CoreReply::Count(res) && self.looked_up(
                        id.0,
                        res,
                        self.docs()[id.0].data.text().len() as usize,
                    )
                    &&& r.1.is_none()
                    &&& new.same_as(self)
                },
                CoreCommand::Batch(_) => r == (CoreReply::Nothing, None::<CoreEvent>) && new.same_as(self),
            }
        }
    }

    /// Executes one command, a batch inside a batch being skipped, and
    /// refuses what the core does not accept.
    pub fn process_one(&mut self, cmd: CoreCommand) -> (r: (CoreReply, Option<CoreEvent>))
        requires
            old(self).wf(),
        ensures
            final(self).wf(),
            old(self).processed(*final(self), cmd, r),
    {
        match cmd {
            CoreCommand::Create { path } => {
                if path.is_none() && self.next_document_id == u64::MAX {
                    return (CoreReply::Refused, None);
                }
                let (cr, e) = self.create(path);
                (CoreReply::Create(cr), e)
            },
            CoreCommand::Destroy { id, force } => {
                let (u, e) = self.destroy(id, force);
                (CoreReply::Unit(u), e)
            },
            CoreCommand::GetPath { id } => (CoreReply::Path(self.get_path(id)), None),
            CoreCommand::SetPath { id, path } => (CoreReply::Unit(self.set_path(id, path)), None),
            CoreCommand::StartCommit { id } => {
                self.start_commit(id);
                (CoreReply::Nothing, None)
            },
            CoreCommand::EndCommit { id } => {
                self.end_commit(id);
                (CoreReply::Nothing, None)
            },
            CoreCommand::Undo { id } => {
                let ok = match self.documents.get(&id.0) {
                    None => true,
                    Some(doc) => doc.data.can_undo(),
                };
                if !ok {
                    return (CoreReply::Refused, None);
                }
                self.undo(id);
                (CoreReply::Nothing, None)
            },
            CoreCommand::HotRedo { id } => {
                let ok = match self.documents.get(&id.0) {
                    None => true,
                    Some(doc) => doc.data.can_redo(),
                };
                if !ok {
                    return (CoreReply::Refused, None);
                }
                self.hot_redo(id);
                (CoreReply::Nothing, None)
            },
            CoreCommand::Insert { id, pos, str } => {
                if !self.fits(id, &str) {
                    return (CoreReply::Refused, None);
                }
                (CoreReply::Nothing, self.insert(id, pos, str))
            },
            CoreCommand::Append { id, str } => {
                if !self.fits(id, &str) {
                    return (CoreReply::Refused, None);
                }
                (CoreReply::Nothing, self.append(id, str))
            },
            CoreCommand::Remove { id, pos, n } => {
                let ok = match self.documents.get(&id.0) {
                    None => true,
                    Some(doc) => {
                        let len = doc.data.len();
                        let p = if pos < len { pos } else { len };
                        let m = if n < len - p { n } else { len - p };
                        proof {
                            let t = doc.data.text();
                            assert(clamped(t, p as int, p + m) =~= t.subrange(p as int, p + m));
                        }
                        m == 0 || doc.data.is_valid_slice(p, p + m)
                    },
                };
                if !ok {
                    return (CoreReply::Refused, None);
                }
                (CoreReply::Nothing, self.remove(id, pos, n))
            },
            CoreCommand::GetLineStartByte { id, n } => (CoreReply::Count(self.get_line_start_byte(id, n)), None),
            CoreCommand::GetLineEndByte { id, n } => (CoreReply::Count(self.get_line_end_byte(id, n)), None),
            CoreCommand::IsModified { id } => (CoreReply::Flag(self.is_modified(id)), None),
            CoreCommand::Save { id } => {
                let ok = match self.documents.get(&id.0) {
                    None => true,
                    Some(doc) => {
                        if doc.path.is_none() {
                            true
                        } else {
                            let len = doc.data.len();
                            proof {
                                let t = doc.data.text();
                                assert(clamped(t, 0, len as int) =~= t);
                            }
                            doc.data.is_valid_slice(0, len)
                        }
                    },
                };
                if !ok {
                    return (CoreReply::Refused, None);
                }
                (CoreReply::Save(self.save(id)), None)
            },
            CoreCommand::GetSlice { id, start, end } => {
                if !self.slice_accepted(id, start, end) {
                    return (CoreReply::Refused, None);
                }
                (CoreReply::Text(self.get_slice(id, start, end)), None)
            },
            CoreCommand::Lines { id } => (CoreReply::Count(self.lines(id)), None),
            CoreCommand::Len { id } => (CoreReply::Count(self.len(id)), None),
            CoreCommand::Batch(_) => (CoreReply::Nothing, None),
        }
    }

    /// Whether inserting `str` into the document `id` keeps its lengths
    /// within `usize`.
    fn fits(&self, id: DocumentId, str: &String) -> (b: bool)
        requires
            self.wf(),
        ensures
            b == self.insert_fits(id.0, encode_utf8(str@).len()),
    {
        match self.documents.get(&id.0) {
            None => true,
            Some(doc) => {
                let l = str.as_str().as_bytes().len();
                l <= usize::MAX - doc.data.len() && l <= usize::MAX - doc.data.buffer_size()
            },
        }
    }

    /// Whether `get_slice` can serve the bounds.
    fn slice_accepted(&self, id: DocumentId, start: SliceBound, end: SliceBound) -> (b: bool)
        requires
            self.wf(),
        ensures
            b == self.slice_ok(id.0, start, end),
    {
        if start == SliceBound::Excluded(usize::MAX) || end == SliceBound::Included(usize::MAX) {
            return false;
        }
        let doc = match self.documents.get(&id.0) {
            None => {
                return true;
            },
            Some(doc) => doc,
        };
        let len = doc.data.len();
        let s = match start {
            SliceBound::Included(n) => n,
            SliceBound::Excluded(n) => n + 1,
            SliceBound::Unbounded => 0,
        };
        let e = match end {
            SliceBound::Included(n) => n + 1,
            SliceBound::Excluded(n) => n,
            SliceBound::Unbounded => len,
        };
        let s = if s < len { s } else { len };
        let e = if e < len { e } else { len };
        let e = if e > s { e } else { s };
        proof {
            let t = doc.data.text();
            assert(clamped(t, s as int, e as int) =~= t.subrange(s as int, e as int));
        }
        doc.data.is_valid_slice(s, e)
    }

    /// Executes a command: a batch runs its commands in order, each getting
    /// its own answer, and a batch inside it is skipped.
    pub fn process_command(&mut self, cmd: CoreCommand) -> (r: Vec<(CoreReply, Option<CoreEvent>)>)
        requires
            old(self).wf(),
        ensures
            final(self).wf(),
            match cmd {
                CoreCommand::Batch(cmds) => {
                    &&& r@.len() == cmds@.len()
                    &&& exists|states: Seq<Core>|
                        {
                            &&& states.len() == cmds@.len() + 1
                            &&& states[0] == *old(self)
                            &&& states[cmds@.len() as int] == *final(self)
                            &&& forall|i: int|
                                0 <= i < cmds@.len() ==> #[trigger] states[i].processed(
                                    states[i + 1],
                                    cmds@[i],
                                    r@[i],
                                )
                        }
                },
                _ => r@.len() == 1 && old(self).processed(*final(self), cmd, r@[0]),
            },
    {
        match cmd {
            CoreCommand::Batch(cmds) => {
                let mut out: Vec<(CoreReply, Option<CoreEvent>)> = Vec::new();
                let ghost mut states: Seq<Core> = seq![*self];
                let total = cmds.len();
                let ghost all = cmds@;
                let mut src = cmds;
                let mut rest: Vec<CoreCommand> = Vec::new();
                while src.len() > 0
                    invariant
                        all.len() == total,
                        src@.len() + rest@.len() == all.len(),
                        src@ == all.subrange(0, src@.len() as int),
                        forall|j: int| 0 <= j < rest@.len() ==> #[trigger] rest@[j] == all[all.len() - 1 - j],
                    decreases src.len(),
                {
                    let c = src.pop().unwrap();
                    rest.push(c);
                }
                let mut i: usize = 0;
                while rest.len() > 0
                    invariant
                        self.wf(),
                        all.len() == total,
                        i + rest@.len() == all.len(),
                        forall|j: int| 0 <= j < rest@.len() ==> #[trigger] rest@[j] == all[all.len() - 1 - j],
                        out@.len() == i,
                        states.len() == i + 1,
                        states[0] == *old(self),
                        states[i as int] == *self,
                        forall|j: int| 0 <= j < i ==> #[trigger] states[j].processed(states[j + 1], all[j], out@[j]),
                    decreases rest.len(),
                {
                    let next = rest.pop().unwrap();
                    let ghost before = *self;
                    let reply = self.process_one(next);
                    out.push(reply);
                    proof {
                        states = states.push(*self);
                        assert(states[i as int] == before);
                    }
                    i = i + 1;
                }
                out
            },
            other => {
                let reply = self.process_one(other);
                let mut out: Vec<(CoreReply, Option<CoreEvent>)> = Vec::new();
                out.push(reply);
                out
            },
        }
    }
}

} // verus!
