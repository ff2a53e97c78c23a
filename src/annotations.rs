use vstd::prelude::*;

use crate::file_ref::FileRef;

verus! {

/// What the store holds for one identity: the path at which the entry was
/// last seen, if one was recorded, and its note, if one was ever set.
pub struct FileEntry {
    pub known_path: Option<Seq<char>>,
    pub note: Option<Seq<char>>,
}

/// The three relations of the store, as mathematical values.
///
/// `files` maps an identity to its record, `vocabulary` holds every tag name
/// ever used, and `relations` holds the (tag name, identity) edges.
pub struct AnnotationsView {
    pub files: Map<u64, FileEntry>,
    pub vocabulary: Set<Seq<char>>,
    pub relations: Set<(Seq<char>, u64)>,
}

pub open spec fn opt_view(o: Option<String>) -> Option<Seq<char>> {
    match o {
        Some(s) => Some(s@),
        None => None,
    }
}

/// A sequence of names that holds each name of `set` exactly once.
pub open spec fn lists_exactly(s: Seq<Seq<char>>, set: Set<Seq<char>>) -> bool {
    &&& s.no_duplicates()
    &&& forall|t: Seq<char>| set.contains(t) <==> s.contains(t)
}

pub open spec fn names_view(v: Seq<String>) -> Seq<Seq<char>> {
    v.map_values(|s: String| s@)
}

pub open spec fn inodes_view(v: Seq<FileRef>) -> Seq<u64> {
    v.map_values(|f: FileRef| f.inode)
}

/// The known path, or the empty path where none was recorded.
pub open spec fn path_or_empty(p: Option<Seq<char>>) -> Seq<char> {
    match p {
        Some(q) => q,
        None => Seq::empty(),
    }
}

/// `refs` holds each entry tagged `tag` exactly once, each at the path that
/// the store knows for it (empty where it knows none).
pub open spec fn lists_tagged(refs: Seq<FileRef>, v: AnnotationsView, tag: Seq<char>) -> bool {
    &&& inodes_view(refs).no_duplicates()
    &&& forall|id: u64| v.files_with(tag).contains(id) <==> inodes_view(refs).contains(id)
    &&& forall|k: int|
        0 <= k < refs.len() ==> v.files.contains_key(#[trigger] refs[k].inode)
            && refs[k].file_path@ == path_or_empty(v.files[refs[k].inode].known_path)
}

impl AnnotationsView {
    pub open spec fn empty() -> AnnotationsView {
        AnnotationsView { files: Map::empty(), vocabulary: Set::empty(), relations: Set::empty() }
    }

    /// Every edge points at a known tag name and at a stored record.
    pub open spec fn wf(self) -> bool {
        forall|p: (Seq<char>, u64)|
            #![trigger self.relations.contains(p)]
            self.relations.contains(p) ==> self.vocabulary.contains(p.0) && self.files.contains_key(
                p.1,
            )
    }

    pub open spec fn note_of(self, id: u64) -> Option<Seq<char>> {
        if self.files.contains_key(id) {
            self.files[id].note
        } else {
            None
        }
    }

    pub open spec fn tags_of(self, id: u64) -> Set<Seq<char>> {
        Set::new(|t: Seq<char>| self.relations.contains((t, id)))
    }

    pub open spec fn files_with(self, tag: Seq<char>) -> Set<u64> {
        Set::new(|id: u64| self.relations.contains((tag, id)))
    }

    /// The record of `id` now holds `path` and `note`.
    pub open spec fn with_note(self, id: u64, path: Seq<char>, note: Seq<char>) -> AnnotationsView {
        AnnotationsView {
            files: self.files.insert(id, FileEntry { known_path: Some(path), note: Some(note) }),
            ..self
        }
    }

    /// An existing record of `id` learns the path `path`; nothing else changes.
    pub open spec fn with_path(self, id: u64, path: Seq<char>) -> AnnotationsView {
        if self.files.contains_key(id) {
            AnnotationsView {
                files: self.files.insert(
                    id,
                    FileEntry { known_path: Some(path), note: self.files[id].note },
                ),
                ..self
            }
        } else {
            self
        }
    }

    /// A record for `id` exists: an existing one is left as it is, else a
    /// note-less one with `path` is made.
    pub open spec fn with_file(self, id: u64, path: Seq<char>) -> AnnotationsView {
        if self.files.contains_key(id) {
            self
        } else {
            AnnotationsView {
                files: self.files.insert(id, FileEntry { known_path: Some(path), note: None }),
                ..self
            }
        }
    }

    pub open spec fn with_vocabulary(self, tag: Seq<char>) -> AnnotationsView {
        AnnotationsView { vocabulary: self.vocabulary.insert(tag), ..self }
    }

    pub open spec fn with_relation(self, tag: Seq<char>, id: u64) -> AnnotationsView {
        AnnotationsView { relations: self.relations.insert((tag, id)), ..self }
    }

    /// The effect of tagging the entry `id`, seen at `path`, with `tag`.
    pub open spec fn with_tag(self, id: u64, path: Seq<char>, tag: Seq<char>) -> AnnotationsView {
        self.with_vocabulary(tag).with_file(id, path).with_relation(tag, id)
    }

    pub open spec fn without_tags(self, id: u64) -> AnnotationsView {
        AnnotationsView {
            relations: self.relations.filter(|p: (Seq<char>, u64)| p.1 != id),
            ..self
        }
    }

    /// The tags of `id` become exactly `tags`: every earlier edge of `id` is
    /// gone, each name of `tags` is in the vocabulary, and a record for `id`
    /// exists unless `tags` is empty.
    pub open spec fn with_tags(self, id: u64, path: Seq<char>, tags: Set<Seq<char>>) -> AnnotationsView {
        AnnotationsView {
            files: if tags == Set::<Seq<char>>::empty() {
                self.files
            } else {
                self.with_file(id, path).files
            },
            vocabulary: self.vocabulary.union(tags),
            relations: self.relations.filter(|p: (Seq<char>, u64)| p.1 != id).union(
                Set::new(|p: (Seq<char>, u64)| p.1 == id && tags.contains(p.0)),
            ),
        }
    }
}

/// The tag names of the edges of `id`, in the order of `rels`.
pub open spec fn listed_tags(rels: Seq<Relation>, id: u64) -> Seq<Seq<char>>
    decreases rels.len(),
{
    if rels.len() == 0 {
        Seq::empty()
    } else {
        let prev = listed_tags(rels.drop_last(), id);
        if rels.last().inode == id {
            prev.push(rels.last().tag@)
        } else {
            prev
        }
    }
}

/// The identities of the edges named `tag`, in the order of `rels`.
pub open spec fn listed_files(rels: Seq<Relation>, tag: Seq<char>) -> Seq<u64>
    decreases rels.len(),
{
    if rels.len() == 0 {
        Seq::empty()
    } else {
        let prev = listed_files(rels.drop_last(), tag);
        if rels.last().tag@ == tag {
            prev.push(rels.last().inode)
        } else {
            prev
        }
    }
}

/// One row of the file relation.
#[derive(Debug, Clone)]
pub struct FileRecord {
    pub inode: u64,
    pub known_path: Option<String>,
    pub note: Option<String>,
}

impl FileRecord {
    pub open spec fn entry(self) -> FileEntry {
        FileEntry { known_path: opt_view(self.known_path), note: opt_view(self.note) }
    }
}

/// One edge of the tag relation.
#[derive(Debug, Clone)]
pub struct Relation {
    pub tag: String,
    pub inode: u64,
}

impl Relation {
    pub open spec fn pair(self) -> (Seq<char>, u64) {
        (self.tag@, self.inode)
    }
}

/// The three relations of the store, held in memory.
pub struct Annotations {
    files: Vec<FileRecord>,
    vocabulary: Vec<String>,
    relations: Vec<Relation>,
    model: Ghost<Map<u64, FileEntry>>,
}

impl View for Annotations {
    type V = AnnotationsView;

    closed spec fn view(&self) -> AnnotationsView {
        AnnotationsView {
            files: self.model@,
            vocabulary: Set::new(
                |t: Seq<char>|
                    exists|i: int| 0 <= i < self.vocabulary.len() && #[trigger] self.vocabulary@[i]@ == t,
            ),
            relations: pairs(self.relations@),
        }
    }
}

impl Annotations {
    closed spec fn files_match(&self) -> bool {
        &&& forall|i: int|
            #![trigger self.files@[i]]
            0 <= i < self.files.len() ==> self.model@.contains_key(self.files@[i].inode)
                && self.model@[self.files@[i].inode] == self.files@[i].entry()
        &&& forall|id: u64|
            #![trigger self.model@.contains_key(id)]
            self.model@.contains_key(id) ==> exists|i: int|
                0 <= i < self.files.len() && #[trigger] self.files@[i].inode == id
        &&& forall|i: int, j: int|
            0 <= i < self.files.len() && 0 <= j < self.files.len() && i != j
                ==> #[trigger] self.files@[i].inode != #[trigger] self.files@[j].inode
    }

    closed spec fn unique_rows(&self) -> bool {
        &&& forall|i: int, j: int|
            0 <= i < self.vocabulary.len() && 0 <= j < self.vocabulary.len() && i != j
                ==> #[trigger] self.vocabulary@[i]@ != #[trigger] self.vocabulary@[j]@
        &&& unique_pairs(self.relations@)
    }

    /// Keys are unique in each relation, the ghost model follows the rows,
    /// and every edge points at a tag name and a record that exist.
    /// The order in which the tags of `id` are listed: the order in which
    /// their edges were made.
    pub closed spec fn tag_order(&self, id: u64) -> Seq<Seq<char>> {
        listed_tags(self.relations@, id)
    }

    /// The order in which the entries tagged `tag` are listed: the order in
    /// which their edges were made.
    pub closed spec fn file_order(&self, tag: Seq<char>) -> Seq<u64> {
        listed_files(self.relations@, tag)
    }

    pub closed spec fn wf(&self) -> bool {
        &&& self.files_match()
        &&& self.unique_rows()
        &&& self@.wf()
    }

    pub fn new() -> (r: Annotations)
        ensures
            r.wf(),
            r@ == AnnotationsView::empty(),
    {
        let r = Annotations {
            files: Vec::new(),
            vocabulary: Vec::new(),
            relations: Vec::new(),
            model: Ghost(Map::empty()),
        };
        assert(r@.vocabulary =~= Set::empty());
        assert(r@.relations =~= Set::empty());
        r
    }

    fn find_file(&self, inode: u64) -> (r: Option<usize>)
        requires
            self.wf(),
        ensures
            match r {
                Some(i) => i < self.files.len() && self.files@[i as int].inode == inode,
                None => !self@.files.contains_key(inode),
            },
    {
        let mut i: usize = 0;
        while i < self.files.len()
            invariant
                i <= self.files.len(),
                forall|j: int| 0 <= j < i ==> self.files@[j].inode != inode,
            decreases self.files.len() - i,
        {
            if self.files[i].inode == inode {
                return Some(i);
            }
            i = i + 1;
        }
        None
    }

    pub fn has_file(&self, inode: u64) -> (r: bool)
        requires
            self.wf(),
        ensures
            r == self@.files.contains_key(inode),
    {
        match self.find_file(inode) {
            Some(_) => true,
            None => false,
        }
    }

    /// The note stored for `inode`, if its record exists and has one.
    pub fn note_of(&self, inode: u64) -> (r: Option<String>)
        requires
            self.wf(),
        ensures
            opt_view(r) == self@.note_of(inode),
    {
        match self.find_file(inode) {
            Some(i) => {
                assert(self.model@[inode] == self.files@[i as int].entry());
                self.files[i].note.clone()
            },
            None => None,
        }
    }

    /// The known path of an existing record of `file.inode` becomes `file.file_path`.
    pub fn refresh_path(&mut self, file: &FileRef)
        requires
            old(self).wf(),
        ensures
            final(self).wf(),
            final(self)@ == old(self)@.with_path(file.inode, file.file_path@),
    {
        match self.find_file(file.inode) {
            Some(i) => {
                let note = self.files[i].note.clone();
                let rec = FileRecord { inode: file.inode, known_path: Some(file.file_path.clone()), note };
                self.replace_file(i, rec);
            },
            None => {},
        }
    }

    fn replace_file(&mut self, i: usize, rec: FileRecord)
        requires
            old(self).wf(),
            i < old(self).files.len(),
            old(self).files@[i as int].inode == rec.inode,
        ensures
            final(self).wf(),
            final(self)@ == (AnnotationsView {
                files: old(self)@.files.insert(rec.inode, rec.entry()),
                ..old(self)@
            }),
    {
        let ghost old_self = *self;
        self.files.set(i, rec);
        self.model = Ghost(self.model@.insert(rec.inode, rec.entry()));
        assert forall|id: u64| #[trigger] self.model@.contains_key(id) implies exists|k: int|
            0 <= k < self.files.len() && #[trigger] self.files@[k].inode == id by {
            if id != rec.inode {
                assert(old_self.model@.contains_key(id));
                let k = choose|k: int| 0 <= k < old_self.files.len() && #[trigger] old_self.files@[k].inode == id;
                assert(self.files@[k].inode == id);
            } else {
                assert(self.files@[i as int].inode == id);
            }
        }
        assert(self@.vocabulary =~= old_self@.vocabulary);
        assert(self@.relations =~= old_self@.relations);
        assert(self@.files =~= old_self@.files.insert(rec.inode, rec.entry()));
    }

    /// Adds the record `rec` for an identity that has none.
    pub fn insert_record(&mut self, rec: FileRecord)
        requires
            old(self).wf(),
            !old(self)@.files.contains_key(rec.inode),
        ensures
            final(self).wf(),
            final(self)@ == (AnnotationsView {
                files: old(self)@.files.insert(rec.inode, rec.entry()),
                ..old(self)@
            }),
    {
        let ghost old_self = *self;
        assert forall|j: int| 0 <= j < old_self.files.len() implies old_self.files@[j].inode
            != rec.inode by {
            assert(old_self.model@.contains_key(old_self.files@[j].inode));
        }
        self.files.push(rec);
        self.model = Ghost(self.model@.insert(rec.inode, rec.entry()));
        assert forall|id: u64| #[trigger] self.model@.contains_key(id) implies exists|k: int|
            0 <= k < self.files.len() && #[trigger] self.files@[k].inode == id by {
            if id != rec.inode {
                assert(old_self.model@.contains_key(id));
                let k = choose|k: int| 0 <= k < old_self.files.len() && #[trigger] old_self.files@[k].inode == id;
                assert(self.files@[k].inode == id);
            } else {
                assert(self.files@[old_self.files.len() as int].inode == id);
            }
        }
        assert(self@.vocabulary =~= old_self@.vocabulary);
        assert(self@.relations =~= old_self@.relations);
        assert forall|p: (Seq<char>, u64)| #[trigger] self@.relations.contains(p) implies
            self@.vocabulary.contains(p.0) && self@.files.contains_key(p.1) by {
            assert(old_self@.relations.contains(p));
        }
    }

    /// The record of `file.inode` holds `file.file_path` and `note`, made if
    /// it did not exist.
    pub fn set_note(&mut self, file: &FileRef, note: &str)
        requires
            old(self).wf(),
        ensures
            final(self).wf(),
            final(self)@ == old(self)@.with_note(file.inode, file.file_path@, note@),
    {
        let rec = FileRecord {
            inode: file.inode,
            known_path: Some(file.file_path.clone()),
            note: Some(note.to_owned()),
        };
        match self.find_file(file.inode) {
            Some(i) => self.replace_file(i, rec),
            None => self.insert_record(rec),
        }
    }

    /// A record of `file.inode` exists; an existing one is left as it is.
    pub fn add_file(&mut self, file: &FileRef)
        requires
            old(self).wf(),
        ensures
            final(self).wf(),
            final(self)@ == old(self)@.with_file(file.inode, file.file_path@),
    {
        match self.find_file(file.inode) {
            Some(_) => {},
            None => {
                let rec = FileRecord {
                    inode: file.inode,
                    known_path: Some(file.file_path.clone()),
                    note: None,
                };
                self.insert_record(rec);
            },
        }
    }
    pub fn has_vocabulary(&self, tag: &String) -> (r: bool)
        requires
            self.wf(),
        ensures
            r == self@.vocabulary.contains(tag@),
    {
        let mut i: usize = 0;
        while i < self.vocabulary.len()
            invariant
                i <= self.vocabulary.len(),
                forall|j: int| 0 <= j < i ==> self.vocabulary@[j]@ != tag@,
            decreases self.vocabulary.len() - i,
        {
            if self.vocabulary[i] == *tag {
                assert(self.vocabulary@[i as int]@ == tag@);
                return true;
            }
            i = i + 1;
        }
        false
    }

    /// `tag` is in the vocabulary; adding a known name changes nothing.
    pub fn add_vocabulary(&mut self, tag: &str)
        requires
            old(self).wf(),
        ensures
            final(self).wf(),
            final(self)@ == old(self)@.with_vocabulary(tag@),
    {
        let ghost old_self = *self;
        let tag = tag.to_owned();
        if self.has_vocabulary(&tag) {
            assert(self@.vocabulary =~= old_self@.vocabulary.insert(tag@));
            return;
        }
        self.vocabulary.push(tag);
        let ghost n = old_self.vocabulary.len() as int;
        assert(self.vocabulary@[n]@ == tag@);
        assert forall|t: Seq<char>| #[trigger] self@.vocabulary.contains(t) == old_self@.vocabulary.insert(tag@).contains(t) by {
            if old_self@.vocabulary.contains(t) {
                let k = choose|k: int| 0 <= k < old_self.vocabulary.len() && #[trigger] old_self.vocabulary@[k]@ == t;
                assert(self.vocabulary@[k]@ == t);
            }
        }
        assert(self@.vocabulary =~= old_self@.vocabulary.insert(tag@));
        assert(self@.relations =~= old_self@.relations);
        assert forall|i: int, j: int|
            0 <= i < self.vocabulary.len() && 0 <= j < self.vocabulary.len() && i != j
                implies #[trigger] self.vocabulary@[i]@ != #[trigger] self.vocabulary@[j]@ by {
            if i == n {
                assert(old_self.vocabulary@[j]@ != tag@);
            } else if j == n {
                assert(old_self.vocabulary@[i]@ != tag@);
            }
        }
        assert forall|p: (Seq<char>, u64)| #[trigger] self@.relations.contains(p) implies
            self@.vocabulary.contains(p.0) && self@.files.contains_key(p.1) by {
            assert(old_self@.relations.contains(p));
        }
    }

    pub fn has_relation(&self, tag: &String, inode: u64) -> (r: bool)
        requires
            self.wf(),
        ensures
            r == self@.relations.contains((tag@, inode)),
    {
        let mut i: usize = 0;
        while i < self.relations.len()
            invariant
                i <= self.relations.len(),
                forall|j: int| 0 <= j < i ==> self.relations@[j].pair() != (tag@, inode),
            decreases self.relations.len() - i,
        {
            if self.relations[i].inode == inode && self.relations[i].tag == *tag {
                assert(self.relations@[i as int].pair() == (tag@, inode));
                return true;
            }
            i = i + 1;
        }
        false
    }

    /// The edge (`tag`, `inode`) exists; adding a present edge changes nothing.
    pub fn add_relation(&mut self, tag: &str, inode: u64)
        requires
            old(self).wf(),
            old(self)@.vocabulary.contains(tag@),
            old(self)@.files.contains_key(inode),
        ensures
            final(self).wf(),
            final(self)@ == old(self)@.with_relation(tag@, inode),
    {
        let ghost old_self = *self;
        let ghost p0 = (tag@, inode);
        let tag = tag.to_owned();
        if self.has_relation(&tag, inode) {
            assert(self@.relations =~= old_self@.relations.insert(p0));
            return;
        }
        self.relations.push(Relation { tag, inode });
        let ghost n = old_self.relations.len() as int;
        assert(self.relations@[n].pair() == p0);
        assert forall|p: (Seq<char>, u64)| #[trigger] self@.relations.contains(p) == old_self@.relations.insert(p0).contains(p) by {
            if old_self@.relations.contains(p) {
                let k = choose|k: int| 0 <= k < old_self.relations.len() && #[trigger] old_self.relations@[k].pair() == p;
                assert(self.relations@[k].pair() == p);
            }
            if self@.relations.contains(p) && p != p0 {
                let k = choose|k: int| 0 <= k < self.relations.len() && #[trigger] self.relations@[k].pair() == p;
                assert(k < n);
                assert(old_self.relations@[k].pair() == p);
            }
        }
        assert(self@.relations =~= old_self@.relations.insert(p0));
        assert(self@.vocabulary =~= old_self@.vocabulary) by {
            assert forall|t: Seq<char>| #[trigger] self@.vocabulary.contains(t) == old_self@.vocabulary.contains(t) by {
                if old_self@.vocabulary.contains(t) {
                    let k = choose|k: int| 0 <= k < old_self.vocabulary.len() && #[trigger] old_self.vocabulary@[k]@ == t;
                    assert(self.vocabulary@[k]@ == t);
                }
            }
        }
        assert forall|i: int, j: int|
            0 <= i < self.relations.len() && 0 <= j < self.relations.len() && i != j
                implies #[trigger] self.relations@[i].pair() != #[trigger] self.relations@[j].pair() by {
            if i == n {
                assert(old_self.relations@[j].pair() != p0);
            } else if j == n {
                assert(old_self.relations@[i].pair() != p0);
            }
        }
        assert forall|p: (Seq<char>, u64)| #[trigger] self@.relations.contains(p) implies
            self@.vocabulary.contains(p.0) && self@.files.contains_key(p.1) by {
            if p != p0 {
                assert(old_self@.relations.contains(p));
            }
        }
    }

    /// `file` is tagged with `tag`: the name joins the vocabulary, a record
    /// for the entry exists, and the edge between them exists.
    pub fn add_tag(&mut self, file: &FileRef, tag: &str)
        requires
            old(self).wf(),
        ensures
            final(self).wf(),
            final(self)@ == old(self)@.with_tag(file.inode, file.file_path@, tag@),
    {
        self.add_vocabulary(tag);
        self.add_file(file);
        self.add_relation(tag, file.inode);
    }
    /// Every edge of `inode` is removed; nothing else changes.
    pub fn clear_tags(&mut self, inode: u64)
        requires
            old(self).wf(),
        ensures
            final(self).wf(),
            final(self)@ == old(self)@.without_tags(inode),
    {
        let ghost old_self = *self;
        let ghost rels = self.relations@;
        let mut kept: Vec<Relation> = Vec::new();
        let mut i: usize = 0;
        while i < self.relations.len()
            invariant
                self.relations@ == rels,
                unique_pairs(rels),
                i <= rels.len(),
                unique_pairs(kept@),
                pairs(kept@) == pairs(rels.subrange(0, i as int)).filter(
                    |p: (Seq<char>, u64)| p.1 != inode,
                ),
            decreases rels.len() - i,
        {
            proof {
                lemma_pairs_push(rels.subrange(0, i as int), rels[i as int]);
                assert(rels.subrange(0, i + 1) =~= rels.subrange(0, i as int).push(rels[i as int]));
                assert(rels.subrange(0, i + 1).drop_last() =~= rels.subrange(0, i as int));
            }
            let r = &self.relations[i];
            if r.inode != inode {
                proof {
                    lemma_unique_prefix(rels, i as int);
                    lemma_pairs_push(kept@, *r);
                    lemma_unique_push(kept@, *r);
                }
                let tag = r.tag.clone();
                kept.push(Relation { tag, inode: r.inode });
            }
            i = i + 1;
            proof {
                assert(pairs(kept@) =~= pairs(rels.subrange(0, i as int)).filter(
                    |p: (Seq<char>, u64)| p.1 != inode,
                ));
            }
        }
        assert(rels.subrange(0, rels.len() as int) =~= rels);
        self.relations = kept;
        assert(self@.relations =~= old_self@.without_tags(inode).relations);
        assert(self@.vocabulary =~= old_self@.vocabulary);
        assert forall|p: (Seq<char>, u64)| #[trigger] self@.relations.contains(p) implies
            self@.vocabulary.contains(p.0) && self@.files.contains_key(p.1) by {
            assert(old_self@.relations.contains(p));
        }
    }

    /// The names of the tags of `inode`, each once, in the order their edges
    /// were made.
    pub fn tags_of(&self, inode: u64) -> (r: Vec<String>)
        requires
            self.wf(),
        ensures
            lists_exactly(names_view(r@), self@.tags_of(inode)),
            names_view(r@) == self.tag_order(inode),
    {
        let ghost rels = self.relations@;
        let mut out: Vec<String> = Vec::new();
        let mut i: usize = 0;
        while i < self.relations.len()
            invariant
                self.relations@ == rels,
                unique_pairs(rels),
                i <= rels.len(),
                names_view(out@).no_duplicates(),
                names_view(out@) == listed_tags(rels.subrange(0, i as int), inode),
                forall|t: Seq<char>|
                    #![trigger names_view(out@).contains(t)]
                    names_view(out@).contains(t) <==> pairs(rels.subrange(0, i as int)).contains(
                        (t, inode),
                    ),
            decreases rels.len() - i,
        {
            proof {
                lemma_pairs_push(rels.subrange(0, i as int), rels[i as int]);
                assert(rels.subrange(0, i + 1) =~= rels.subrange(0, i as int).push(rels[i as int]));
                assert(rels.subrange(0, i + 1).drop_last() =~= rels.subrange(0, i as int));
            }
            if self.relations[i].inode == inode {
                let ghost prev = names_view(out@);
                proof {
                    lemma_unique_prefix(rels, i as int);
                }
                out.push(self.relations[i].tag.clone());
                proof {
                    let tag = rels[i as int].tag@;
                    assert(names_view(out@) =~= prev.push(tag));
                    assert(!prev.contains(tag));
                    assert forall|t: Seq<char>| #[trigger] names_view(out@).contains(t)
                        <==> (prev.contains(t) || t == tag) by {
                        if t == tag {
                            assert(names_view(out@)[prev.len() as int] == tag);
                        }
                        if prev.contains(t) {
                            let k = choose|k: int| 0 <= k < prev.len() && prev[k] == t;
                            assert(names_view(out@)[k] == t);
                        }
                    }
                }
            }
            i = i + 1;
        }
        assert(rels.subrange(0, rels.len() as int) =~= rels);
        out
    }
    /// The entries tagged `tag`, each once, at their known paths; none when
    /// no entry carries that name.
    pub fn files_with_tag(&self, tag: &str) -> (r: Vec<FileRef>)
        requires
            self.wf(),
        ensures
            lists_tagged(r@, self@, tag@),
            inodes_view(r@) == self.file_order(tag@),
    {
        let tag = tag.to_owned();
        let ghost rels = self.relations@;
        let mut out: Vec<FileRef> = Vec::new();
        let mut i: usize = 0;
        while i < self.relations.len()
            invariant
                self.wf(),
                self.relations@ == rels,
                i <= rels.len(),
                inodes_view(out@).no_duplicates(),
                inodes_view(out@) == listed_files(rels.subrange(0, i as int), tag@),
                forall|id: u64|
                    #![trigger inodes_view(out@).contains(id)]
                    inodes_view(out@).contains(id) <==> pairs(rels.subrange(0, i as int)).contains(
                        (tag@, id),
                    ),
                forall|k: int|
                    0 <= k < out.len() ==> self@.files.contains_key(#[trigger] out@[k].inode)
                        && out@[k].file_path@ == path_or_empty(self@.files[out@[k].inode].known_path),
            decreases rels.len() - i,
        {
            proof {
                lemma_pairs_push(rels.subrange(0, i as int), rels[i as int]);
                assert(rels.subrange(0, i + 1) =~= rels.subrange(0, i as int).push(rels[i as int]));
                assert(rels.subrange(0, i + 1).drop_last() =~= rels.subrange(0, i as int));
            }
            if self.relations[i].tag == tag {
                let inode = self.relations[i].inode;
                proof {
                    assert(self@.relations.contains(rels[i as int].pair()));
                }
                match self.find_file(inode) {
                    Some(f) => {
                        let ghost prev = inodes_view(out@);
                        proof {
                            lemma_unique_prefix(rels, i as int);
                            assert(self.model@[inode] == self.files@[f as int].entry());
                        }
                        let file_path = match &self.files[f].known_path {
                            Some(p) => p.clone(),
                            None => String::new(),
                        };
                        out.push(FileRef { file_path, inode });
                        proof {
                            assert(inodes_view(out@) =~= prev.push(inode));
                            assert(!prev.contains(inode));
                            assert forall|id: u64| #[trigger] inodes_view(out@).contains(id)
                                <==> (prev.contains(id) || id == inode) by {
                                if id == inode {
                                    assert(inodes_view(out@)[prev.len() as int] == inode);
                                }
                                if prev.contains(id) {
                                    let k = choose|k: int| 0 <= k < prev.len() && prev[k] == id;
                                    assert(inodes_view(out@)[k] == id);
                                }
                            }
                        }
                    },
                    None => {},
                }
            }
            i = i + 1;
        }
        assert(rels.subrange(0, rels.len() as int) =~= rels);
        out
    }
}

spec fn pairs(s: Seq<Relation>) -> Set<(Seq<char>, u64)> {
    Set::new(|p: (Seq<char>, u64)| exists|k: int| 0 <= k < s.len() && #[trigger] s[k].pair() == p)
}

spec fn unique_pairs(s: Seq<Relation>) -> bool {
    forall|i: int, j: int|
        0 <= i < s.len() && 0 <= j < s.len() && i != j ==> #[trigger] s[i].pair() != #[trigger] s[j].pair()
}

proof fn lemma_pairs_push(s: Seq<Relation>, r: Relation)
    ensures
        pairs(s.push(r)) == pairs(s).insert(r.pair()),
{
    let t = s.push(r);
    assert forall|p: (Seq<char>, u64)| #[trigger] pairs(t).contains(p) == pairs(s).insert(r.pair()).contains(p) by {
        if pairs(s).contains(p) {
            let k = choose|k: int| 0 <= k < s.len() && #[trigger] s[k].pair() == p;
            assert(t[k] == s[k]);
        }
        if pairs(t).contains(p) && p != r.pair() {
            let k = choose|k: int| 0 <= k < t.len() && #[trigger] t[k].pair() == p;
            assert(t[k] == s[k]);
        }
        if p == r.pair() {
            assert(t[s.len() as int] == r);
        }
    }
    assert(pairs(t) =~= pairs(s).insert(r.pair()));
}

proof fn lemma_unique_prefix(s: Seq<Relation>, i: int)
    requires
        unique_pairs(s),
        0 <= i < s.len(),
    ensures
        !pairs(s.subrange(0, i)).contains(s[i].pair()),
{
    if pairs(s.subrange(0, i)).contains(s[i].pair()) {
        let k = choose|k: int| 0 <= k < i && #[trigger] s.subrange(0, i)[k].pair() == s[i].pair();
        assert(s[k].pair() == s[i].pair());
    }
}

proof fn lemma_unique_push(s: Seq<Relation>, r: Relation)
    requires
        unique_pairs(s),
        !pairs(s).contains(r.pair()),
    ensures
        unique_pairs(s.push(r)),
{
    let t = s.push(r);
    assert forall|i: int, j: int| 0 <= i < t.len() && 0 <= j < t.len() && i != j
        implies #[trigger] t[i].pair() != #[trigger] t[j].pair() by {
        if i == s.len() {
            assert(t[j] == s[j]);
        } else if j == s.len() {
            assert(t[i] == s[i]);
        } else {
            assert(t[i] == s[i] && t[j] == s[j]);
        }
    }
}

/// Removing the tags of `id` is replacing them with no tags.
pub proof fn lemma_without_tags_is_no_tags(v: AnnotationsView, id: u64, path: Seq<char>)
    ensures
        v.without_tags(id) == v.with_tags(id, path, Set::empty()),
{
    let w = v.with_tags(id, path, Set::empty());
    assert(w.vocabulary =~= v.vocabulary);
    assert(w.relations =~= v.without_tags(id).relations);
}

/// Tagging with one more name after a replacement is replacing with that
/// name added.
pub proof fn lemma_with_tags_then_tag(
    v: AnnotationsView,
    id: u64,
    path: Seq<char>,
    tags: Set<Seq<char>>,
    t: Seq<char>,
)
    ensures
        v.with_tags(id, path, tags).with_tag(id, path, t) == v.with_tags(id, path, tags.insert(t)),
{
    let a = v.with_tags(id, path, tags).with_tag(id, path, t);
    let b = v.with_tags(id, path, tags.insert(t));
    assert(tags.insert(t) != Set::<Seq<char>>::empty()) by {
        assert(tags.insert(t).contains(t));
    }
    assert(a.files =~= b.files);
    assert(a.vocabulary =~= b.vocabulary);
    assert(a.relations =~= b.relations);
}

impl Annotations {
    pub proof fn lemma_view_wf(&self)
        requires
            self.wf(),
        ensures
            self@.wf(),
    {
    }
}

} // verus!
