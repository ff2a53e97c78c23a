use vstd::prelude::*;

use rusqlite::types::{Value, ValueRef};
use rusqlite::Connection;

use crate::annotations::{
    lemma_with_tags_then_tag, lemma_without_tags_is_no_tags,
    inodes_view, lists_exactly, lists_tagged, names_view, Annotations, AnnotationsView,
};
use crate::file_ref::FileRef;
use crate::load::{decode_tables, tables_ok, tables_view};
use crate::text::{comma_pieces, split_commas, tag_names, trim, trimmed};

verus! {

#[verifier::external_type_specification]
#[verifier::external_body]
pub struct ExConnection(rusqlite::Connection);

#[verifier::external_type_specification]
#[verifier::external_body]
pub struct ExSqlError(rusqlite::Error);

/// A parameter bound into a statement.
#[derive(Debug)]
pub enum SqlParam {
    Integer(i64),
    Text(String),
}

/// One column of a row read back. Text comes as the bytes SQLite holds,
/// which need not be UTF-8. A floating-point column is only marked as
/// such: the library holds no floating-point values, and no table of the
/// store has one.
#[derive(Debug)]
pub enum SqlValue {
    Null,
    Integer(i64),
    Real,
    Text(Vec<u8>),
    Blob(Vec<u8>),
}

/// A parameter as a statement received it.
pub enum Bound {
    Integer(i64),
    Text(Seq<char>),
}

pub open spec fn bound(p: SqlParam) -> Bound {
    match p {
        SqlParam::Integer(n) => Bound::Integer(n),
        SqlParam::Text(t) => Bound::Text(t@),
    }
}

pub open spec fn bounds(ps: Seq<SqlParam>) -> Seq<Bound> {
    ps.map_values(|p: SqlParam| bound(p))
}

/// The statements that `execute` ran to completion on the connection `c`,
/// in order, each with the parameters bound to it.
pub uninterp spec fn statements_run(c: Connection) -> Seq<(Seq<char>, Seq<Bound>)>;

/// The path that the connection `c` was opened at.
pub uninterp spec fn opened_at(c: Connection) -> Seq<char>;

/// The queries that `query_rows` ran on the connection `c`, in order, each
/// with the rows it returned.
pub uninterp spec fn queries_run(c: Connection) -> Seq<(Seq<char>, Seq<Vec<SqlValue>>)>;

/// Why a store operation did not complete.
#[derive(Debug)]
pub enum StoreError {
    /// The entry has no record, or its record has no note.
    NotFound,
    /// The database refused or failed a statement.
    Database(rusqlite::Error),
    /// A row read back breaks the schema: a missing or mistyped column, a
    /// repeated key, or an edge to a tag or record that does not exist.
    Malformed,
}

/// Relies on `rusqlite::Connection::open`: opens the database file at
/// `path`, creating it if absent; `":memory:"` opens a private in-memory
/// database. A connection just opened has run no statement and no query.
#[verifier::external_body]
fn open_connection(path: &str) -> (r: Result<Connection, rusqlite::Error>)
    ensures
        r is Ok ==> statements_run(r->Ok_0) == Seq::<(Seq<char>, Seq<Bound>)>::empty(),
        r is Ok ==> queries_run(r->Ok_0) == Seq::<(Seq<char>, Seq<Vec<SqlValue>>)>::empty(),
        r is Ok ==> opened_at(r->Ok_0) == path@,
{
    Connection::open(path)
}

/// Relies on `rusqlite::Connection::execute`: runs one statement with the
/// positional parameters `params`. `sql` is one of the store's statements:
/// a single statement that returns no rows. For such a statement
/// `execute` steps it to completion and returns `Ok` exactly when SQLite
/// reports it done; on failure SQLite backs the statement out, so it took
/// no effect.
#[verifier::external_body]
fn execute(conn: &mut Connection, sql: &str, params: &Vec<SqlParam>) -> (r: Result<usize, rusqlite::Error>)
    requires
        store_statement(sql@),
    ensures
        r is Ok ==> statements_run(*final(conn)) == statements_run(*old(conn)).push(
            (sql@, bounds(params@)),
        ),
        r is Err ==> statements_run(*final(conn)) == statements_run(*old(conn)),
        queries_run(*final(conn)) == queries_run(*old(conn)),
        opened_at(*final(conn)) == opened_at(*old(conn)),
{
    let values: Vec<Value> = params.iter().map(|p| match p {
        SqlParam::Integer(n) => Value::Integer(*n),
        SqlParam::Text(t) => Value::Text(t.clone()),
    }).collect();
    conn.execute(sql, rusqlite::params_from_iter(values))
}

/// Relies on `rusqlite::Connection::prepare`, `Statement::query` and
/// `Row::get_ref`: runs one query without parameters and returns its rows,
/// each column as it was stored. Queries change nothing in the database.
#[verifier::external_body]
fn query_rows(conn: &mut Connection, sql: &str) -> (r: Result<Vec<Vec<SqlValue>>, rusqlite::Error>)
    ensures
        r is Ok ==> queries_run(*final(conn)) == queries_run(*old(conn)).push((sql@, r->Ok_0@)),
        r is Err ==> queries_run(*final(conn)) == queries_run(*old(conn)),
        statements_run(*final(conn)) == statements_run(*old(conn)),
        opened_at(*final(conn)) == opened_at(*old(conn)),
{
    let mut stmt = conn.prepare(sql)?;
    let width = stmt.column_count();
    let mut rows = stmt.query([])?;
    let mut out = Vec::new();
    while let Some(row) = rows.next()? {
        let cols: Result<Vec<ValueRef>, rusqlite::Error> = (0..width).map(|i| row.get_ref(i)).collect();
        out.push(cols?.into_iter().map(|v| match v {
            ValueRef::Null => SqlValue::Null,
            ValueRef::Integer(n) => SqlValue::Integer(n),
            ValueRef::Real(_) => SqlValue::Real,
            ValueRef::Text(t) => SqlValue::Text(t.to_vec()),
            ValueRef::Blob(b) => SqlValue::Blob(b.to_vec()),
        }).collect());
    }
    Ok(out)
}

/// The identity as stored: an inode number above `i64::MAX` is kept as the
/// negative integer with the same 64 bits.
pub open spec fn stored_identity(id: u64) -> i64 {
    if id <= 0x7fff_ffff_ffff_ffff {
        id as i64
    } else {
        (id - 0x1_0000_0000_0000_0000) as i64
    }
}

/// The inode number that a stored identity stands for.
pub open spec fn identity_of(x: i64) -> u64 {
    if x >= 0 {
        x as u64
    } else {
        (x + 0x1_0000_0000_0000_0000) as u64
    }
}

pub fn to_stored(id: u64) -> (r: i64)
    ensures
        r == stored_identity(id),
        identity_of(r) == id,
{
    if id <= 0x7fff_ffff_ffff_ffff {
        id as i64
    } else {
        -((0xffff_ffff_ffff_ffffu64 - id) as i64) - 1
    }
}

pub fn from_stored(x: i64) -> (r: u64)
    ensures
        r == identity_of(x),
        stored_identity(r) == x,
{
    if x >= 0 {
        x as u64
    } else {
        0xffff_ffff_ffff_ffffu64 - ((-(x + 1)) as u64)
    }
}

/// The tag names of a submission as the store keeps them: each trimmed,
/// empty ones dropped.
pub open spec fn clean_tags(tags: Seq<&str>) -> Set<Seq<char>> {
    Set::new(
        |t: Seq<char>|
            t.len() > 0 && exists|k: int| 0 <= k < tags.len() && trimmed(#[trigger] tags[k]@) == t,
    )
}

/// What a replacement of the tags of `id` by `tags` can leave when it is
/// cut short: the store as it was (the old edges not yet removed), or the
/// old edges of `id` removed and some of `tags` applied, with at most one
/// more name of `tags` added to the vocabulary and a record for `id` made
/// on its behalf.
pub open spec fn partly_retagged(
    before: AnnotationsView,
    after: AnnotationsView,
    id: u64,
    path: Seq<char>,
    tags: Set<Seq<char>>,
) -> bool {
    ||| after == before
    ||| exists|done: Set<Seq<char>>, t: Seq<char>|
        #![trigger before.with_tags(id, path, done).with_vocabulary(t)]
        done.subset_of(tags) && tags.contains(t) && {
            let s = before.with_tags(id, path, done);
            ||| after == s
            ||| after == s.with_vocabulary(t)
            ||| after == s.with_vocabulary(t).with_file(id, path)
        }
}

pub const CREATE_FILES: &'static str = "CREATE TABLE IF NOT EXISTS file_notes (
    inode INTEGER PRIMARY KEY,
    known_path TEXT,
    note TEXT
);";

pub const CREATE_TAGS: &'static str = "CREATE TABLE IF NOT EXISTS file_tags (
    id INTEGER PRIMARY KEY AUTOINCREMENT,
    tag_name VARCHAR(255) UNIQUE
);";

pub const CREATE_RELATIONS: &'static str = "CREATE TABLE IF NOT EXISTS tag_relations (
    tag_id INTEGER NOT NULL,
    file_id INTEGER NOT NULL,
    FOREIGN KEY(tag_id) REFERENCES file_tags(id),
    FOREIGN KEY(file_id) REFERENCES file_notes(inode),
    CONSTRAINT uc_tfid UNIQUE (tag_id, file_id)
);";

pub const UPDATE_PATH: &'static str = "UPDATE file_notes SET known_path = ?1 WHERE inode = ?2;";

pub const UPSERT_NOTE: &'static str =
    "INSERT OR REPLACE INTO file_notes(inode, known_path, note) VALUES(?1, ?2, ?3);";

pub const INSERT_FILE: &'static str =
    "INSERT OR IGNORE INTO file_notes(inode, known_path) VALUES(?1, ?2);";

pub const INSERT_TAG: &'static str = "INSERT OR IGNORE INTO file_tags(tag_name) VALUES(?1);";

pub const INSERT_RELATION: &'static str =
    "INSERT OR IGNORE INTO tag_relations(tag_id, file_id) SELECT id, ?2 FROM file_tags WHERE tag_name = ?1;";

pub const DELETE_RELATIONS: &'static str = "DELETE FROM tag_relations WHERE file_id = ?1;";

/// The statements the store runs through `execute`.
pub open spec fn store_statement(sql: Seq<char>) -> bool {
    ||| sql == CREATE_FILES@
    ||| sql == CREATE_TAGS@
    ||| sql == CREATE_RELATIONS@
    ||| sql == UPDATE_PATH@
    ||| sql == UPSERT_NOTE@
    ||| sql == INSERT_FILE@
    ||| sql == INSERT_TAG@
    ||| sql == INSERT_RELATION@
    ||| sql == DELETE_RELATIONS@
}

pub const SELECT_FILES: &'static str = "SELECT inode, known_path, note FROM file_notes;";

pub const SELECT_TAGS: &'static str = "SELECT id, tag_name FROM file_tags;";

pub const SELECT_RELATIONS: &'static str = "SELECT tag_id, file_id FROM tag_relations;";

pub open spec fn path_update(f: FileRef) -> (Seq<char>, Seq<Bound>) {
    (UPDATE_PATH@, seq![Bound::Text(f.file_path@), Bound::Integer(stored_identity(f.inode))])
}

pub open spec fn note_upsert(f: FileRef, note: Seq<char>) -> (Seq<char>, Seq<Bound>) {
    (
        UPSERT_NOTE@,
        seq![Bound::Integer(stored_identity(f.inode)), Bound::Text(f.file_path@), Bound::Text(note)],
    )
}

pub open spec fn file_insert(f: FileRef) -> (Seq<char>, Seq<Bound>) {
    (INSERT_FILE@, seq![Bound::Integer(stored_identity(f.inode)), Bound::Text(f.file_path@)])
}

pub open spec fn tag_insert(tag: Seq<char>) -> (Seq<char>, Seq<Bound>) {
    (INSERT_TAG@, seq![Bound::Text(tag)])
}

pub open spec fn relation_insert(tag: Seq<char>, id: u64) -> (Seq<char>, Seq<Bound>) {
    (INSERT_RELATION@, seq![Bound::Text(tag), Bound::Integer(stored_identity(id))])
}

pub open spec fn relations_delete(id: u64) -> (Seq<char>, Seq<Bound>) {
    (DELETE_RELATIONS@, seq![Bound::Integer(stored_identity(id))])
}

pub open spec fn no_params() -> Seq<Bound> {
    Seq::empty()
}

/// The statements that tag `f` with `tag`: the name, the record, the edge.
pub open spec fn tag_statements(f: FileRef, tag: Seq<char>) -> Seq<(Seq<char>, Seq<Bound>)> {
    seq![tag_insert(tag), file_insert(f), relation_insert(tag, f.inode)]
}

/// The statements that tag `f` with each of `names` in turn.
pub open spec fn tagging_statements(f: FileRef, names: Seq<Seq<char>>) -> Seq<(Seq<char>, Seq<Bound>)>
    decreases names.len(),
{
    if names.len() == 0 {
        Seq::empty()
    } else {
        tagging_statements(f, names.drop_last()) + tag_statements(f, names.last())
    }
}

pub open spec fn strs_view(v: Seq<&str>) -> Seq<Seq<char>> {
    v.map_values(|s: &str| s@)
}

/// `after` is `before` followed by more elements.
pub open spec fn extends<A>(before: Seq<A>, after: Seq<A>) -> bool {
    before.len() <= after.len() && after.subrange(0, before.len() as int) == before
}

/// The statements a replacement of the tags of `f` by `names` runs after
/// the journal `j`.
pub open spec fn retag_journal(
    j: Seq<(Seq<char>, Seq<Bound>)>,
    f: FileRef,
    names: Seq<Seq<char>>,
) -> Seq<(Seq<char>, Seq<Bound>)> {
    j.push(relations_delete(f.inode)) + tagging_statements(f, tag_names(names))
}

proof fn lemma_extends_trans<A>(a: Seq<A>, b: Seq<A>, c: Seq<A>)
    requires
        extends(a, b),
        extends(b, c),
    ensures
        extends(a, c),
{
    assert(c.subrange(0, a.len() as int) =~= c.subrange(0, b.len() as int).subrange(0, a.len() as int));
}

proof fn lemma_extends_append<A>(p: Seq<A>, a: Seq<A>, b: Seq<A>)
    requires
        extends(a, b),
    ensures
        extends(p + a, p + b),
{
    assert((p + b).subrange(0, (p + a).len() as int) =~= p + a);
}

proof fn lemma_tag_names_prefix(s: Seq<Seq<char>>, i: int)
    requires
        0 <= i <= s.len(),
    ensures
        extends(tag_names(s.subrange(0, i)), tag_names(s)),
    decreases s.len(),
{
    if i == s.len() {
        assert(s.subrange(0, i) =~= s);
        assert(tag_names(s).subrange(0, tag_names(s).len() as int) =~= tag_names(s));
    } else {
        let d = s.drop_last();
        assert(s.subrange(0, i) =~= d.subrange(0, i));
        lemma_tag_names_prefix(d, i);
        let t = tag_names(d);
        assert(extends(t, tag_names(s))) by {
            assert(tag_names(s) == t || tag_names(s) == t.push(trimmed(s.last())));
            assert(t.push(trimmed(s.last())).subrange(0, t.len() as int) =~= t);
            assert(t.subrange(0, t.len() as int) =~= t);
        }
        lemma_extends_trans(tag_names(s.subrange(0, i)), t, tag_names(s));
    }
}

proof fn lemma_tagging_prefix(f: FileRef, a: Seq<Seq<char>>, b: Seq<Seq<char>>)
    requires
        extends(a, b),
    ensures
        extends(tagging_statements(f, a), tagging_statements(f, b)),
    decreases b.len(),
{
    if a.len() == b.len() {
        assert(a =~= b);
        let t = tagging_statements(f, a);
        assert(t.subrange(0, t.len() as int) =~= t);
    } else {
        let d = b.drop_last();
        assert(d.subrange(0, a.len() as int) =~= b.subrange(0, a.len() as int));
        lemma_tagging_prefix(f, a, d);
        let td = tagging_statements(f, d);
        assert((td + tag_statements(f, b.last())).subrange(0, td.len() as int) =~= td);
        lemma_extends_trans(tagging_statements(f, a), td, tagging_statements(f, b));
    }
}

/// A replacement cut short inside the tagging with its `i`-th piece has run
/// a beginning of what the whole replacement runs.
proof fn lemma_cut_short_journal(
    j: Seq<(Seq<char>, Seq<Bound>)>,
    f: FileRef,
    names: Seq<Seq<char>>,
    i: int,
    t: Seq<char>,
    k: int,
)
    requires
        0 <= i < names.len(),
        0 <= k <= 3,
        tag_names(names.subrange(0, i + 1)) == tag_names(names.subrange(0, i)).push(t),
    ensures
        extends(
            j.push(relations_delete(f.inode)) + tagging_statements(f, tag_names(names.subrange(0, i)))
                + tag_statements(f, t).take(k),
            retag_journal(j, f, names),
        ),
{
    let p = j.push(relations_delete(f.inode));
    let a = tag_names(names.subrange(0, i));
    let ta = tagging_statements(f, a);
    let ts = tag_statements(f, t);
    assert(a.push(t).drop_last() =~= a);
    assert(tagging_statements(f, a.push(t)) == ta + ts);
    assert(extends(ta + ts.take(k), ta + ts)) by {
        assert((ta + ts).subrange(0, (ta + ts.take(k)).len() as int) =~= ta + ts.take(k));
    }
    lemma_tag_names_prefix(names, i + 1);
    lemma_tagging_prefix(f, a.push(t), tag_names(names));
    lemma_extends_trans(ta + ts.take(k), ta + ts, tagging_statements(f, tag_names(names)));
    lemma_extends_append(p, ta + ts.take(k), tagging_statements(f, tag_names(names)));
    assert(p + ta + ts.take(k) =~= p + (ta + ts.take(k)));
}

fn text_param(s: &str) -> (r: SqlParam)
    ensures
        bound(r) == Bound::Text(s@),
{
    SqlParam::Text(s.to_owned())
}

fn identity_param(id: u64) -> (r: SqlParam)
    ensures
        bound(r) == Bound::Integer(stored_identity(id)),
{
    SqlParam::Integer(to_stored(id))
}

fn params1(a: SqlParam) -> (r: Vec<SqlParam>)
    ensures
        bounds(r@) == seq![bound(a)],
{
    let mut v: Vec<SqlParam> = Vec::new();
    v.push(a);
    assert(bounds(v@) =~= seq![bound(a)]);
    v
}

fn params2(a: SqlParam, b: SqlParam) -> (r: Vec<SqlParam>)
    ensures
        bounds(r@) == seq![bound(a), bound(b)],
{
    let mut v: Vec<SqlParam> = Vec::new();
    v.push(a);
    v.push(b);
    assert(bounds(v@) =~= seq![bound(a), bound(b)]);
    v
}

fn params3(a: SqlParam, b: SqlParam, c: SqlParam) -> (r: Vec<SqlParam>)
    ensures
        bounds(r@) == seq![bound(a), bound(b), bound(c)],
{
    let mut v: Vec<SqlParam> = Vec::new();
    v.push(a);
    v.push(b);
    v.push(c);
    assert(bounds(v@) =~= seq![bound(a), bound(b), bound(c)]);
    v
}

/// The annotation store: the three relations held in memory, with every
/// change written through to an SQLite database as it is made.
///
/// A change is applied in memory only after its statement succeeded, so a
/// failed statement leaves the store as the database has it. Each change
/// states, in `journal`, the exact statements and parameters that it had
/// SQLite run.
pub struct NotesDB {
    conn: Connection,
    data: Annotations,
}

impl View for NotesDB {
    type V = AnnotationsView;

    closed spec fn view(&self) -> AnnotationsView {
        self.data@
    }
}

impl NotesDB {
    pub closed spec fn wf(&self) -> bool {
        self.data.wf()
    }

    /// The statements this store has had SQLite run, in order.
    pub closed spec fn journal(&self) -> Seq<(Seq<char>, Seq<Bound>)> {
        statements_run(self.conn)
    }

    /// The path that the store's database was opened at.
    pub closed spec fn path(&self) -> Seq<char> {
        opened_at(self.conn)
    }

    /// The queries this store has had SQLite run, each with its rows.
    pub closed spec fn queries(&self) -> Seq<(Seq<char>, Seq<Vec<SqlValue>>)> {
        queries_run(self.conn)
    }

    /// The order in which `get_tags` lists the tags of `id`.
    pub closed spec fn tag_order(&self, id: u64) -> Seq<Seq<char>> {
        self.data.tag_order(id)
    }

    /// The order in which `get_files_by_tag` lists the entries tagged `tag`.
    pub closed spec fn file_order(&self, tag: Seq<char>) -> Seq<u64> {
        self.data.file_order(tag)
    }

    /// A well-formed store has a well-formed view: every edge names a tag
    /// of the vocabulary and an entry that has a record.
    pub proof fn lemma_view_wf(&self)
        requires
            self.wf(),
        ensures
            self@.wf(),
    {
        self.data.lemma_view_wf();
    }

    /// Makes a record's known path follow `file`, then reads its note.
    ///
    /// `NotFound` when the entry has no record or no note; the path is
    /// refreshed either way once the update statement succeeded.
    pub fn get_note(&mut self, file_ref: &FileRef) -> (r: Result<String, StoreError>)
        requires
            old(self).wf(),
        ensures
            final(self).wf(),
            match r {
                Ok(n) => final(self)@ == old(self)@.with_path(file_ref.inode, file_ref.file_path@)
                    && final(self)@.note_of(file_ref.inode) == Some(n@)
                    && final(self).journal() == old(self).journal().push(path_update(*file_ref)),
                Err(StoreError::NotFound) => final(self)@ == old(self)@.with_path(
                    file_ref.inode,
                    file_ref.file_path@,
                ) && final(self)@.note_of(file_ref.inode) is None
                    && final(self).journal() == old(self).journal().push(path_update(*file_ref)),
                Err(StoreError::Database(_)) => final(self)@ == old(self)@
                    && final(self).journal() == old(self).journal(),
                Err(StoreError::Malformed) => false,
            },
    {
        let params = params2(text_param(file_ref.file_path.as_str()), identity_param(file_ref.inode));
        match execute(&mut self.conn, UPDATE_PATH, &params) {
            Ok(_) => {},
            Err(e) => return Err(StoreError::Database(e)),
        }
        self.data.refresh_path(file_ref);
        self.get_note_no_update(file_ref)
    }

    /// The note of `file_ref`'s record, leaving its known path as it is.
    pub fn get_note_no_update(&self, file_ref: &FileRef) -> (r: Result<String, StoreError>)
        requires
            self.wf(),
        ensures
            match r {
                Ok(n) => self@.note_of(file_ref.inode) == Some(n@),
                Err(StoreError::NotFound) => self@.note_of(file_ref.inode) is None,
                Err(_) => false,
            },
    {
        match self.data.note_of(file_ref.inode) {
            Some(n) => Ok(n),
            None => Err(StoreError::NotFound),
        }
    }

    /// The record of `file_ref` holds its path and `note`, made if absent.
    pub fn set_note(&mut self, file_ref: &FileRef, note: &str) -> (r: Result<(), StoreError>)
        requires
            old(self).wf(),
        ensures
            final(self).wf(),
            match r {
                Ok(_) => final(self)@ == old(self)@.with_note(file_ref.inode, file_ref.file_path@, note@)
                    && final(self).journal() == old(self).journal().push(note_upsert(*file_ref, note@)),
                Err(e) => e is Database && final(self)@ == old(self)@
                    && final(self).journal() == old(self).journal(),
            },
    {
        let params = params3(
            identity_param(file_ref.inode),
            text_param(file_ref.file_path.as_str()),
            text_param(note),
        );
        match execute(&mut self.conn, UPSERT_NOTE, &params) {
            Ok(_) => {},
            Err(e) => return Err(StoreError::Database(e)),
        }
        self.data.set_note(file_ref, note);
        Ok(())
    }

    /// A record of `file_ref` exists; an existing one is left as it is.
    pub fn add_file(&mut self, file_ref: &FileRef) -> (r: Result<(), StoreError>)
        requires
            old(self).wf(),
        ensures
            final(self).wf(),
            match r {
                Ok(_) => final(self)@ == old(self)@.with_file(file_ref.inode, file_ref.file_path@)
                    && final(self).journal() == old(self).journal().push(file_insert(*file_ref)),
                Err(e) => e is Database && final(self)@ == old(self)@
                    && final(self).journal() == old(self).journal(),
            },
    {
        let params = params2(identity_param(file_ref.inode), text_param(file_ref.file_path.as_str()));
        match execute(&mut self.conn, INSERT_FILE, &params) {
            Ok(_) => {},
            Err(e) => return Err(StoreError::Database(e)),
        }
        self.data.add_file(file_ref);
        Ok(())
    }

    /// Tags `file_ref` with `tag` as given: the name joins the vocabulary, a
    /// record exists, and the edge exists; none of it is repeated.
    ///
    /// On failure the steps that succeeded stay made.
    pub fn add_tag(&mut self, file_ref: &FileRef, tag: &str) -> (r: Result<(), StoreError>)
        requires
            old(self).wf(),
        ensures
            final(self).wf(),
            match r {
                Ok(_) => final(self)@ == old(self)@.with_tag(file_ref.inode, file_ref.file_path@, tag@)
                    && final(self).journal() == old(self).journal() + tag_statements(*file_ref, tag@),
                Err(e) => e is Database && ((final(self)@ == old(self)@
                    && final(self).journal() == old(self).journal())
                    || (final(self)@ == old(self)@.with_vocabulary(tag@)
                    && final(self).journal() == old(self).journal() + tag_statements(*file_ref, tag@).take(1))
                    || (final(self)@ == old(self)@.with_vocabulary(tag@).with_file(
                    file_ref.inode,
                    file_ref.file_path@,
                ) && final(self).journal() == old(self).journal() + tag_statements(*file_ref, tag@).take(2))),
            },
    {
        let ghost j0 = self.journal();
        let ghost ts = tag_statements(*file_ref, tag@);
        let params = params1(text_param(tag));
        match execute(&mut self.conn, INSERT_TAG, &params) {
            Ok(_) => {},
            Err(e) => return Err(StoreError::Database(e)),
        }
        assert(self.journal() =~= j0 + ts.take(1));
        self.data.add_vocabulary(tag);
        match self.add_file(file_ref) {
            Ok(_) => {},
            Err(e) => return Err(e),
        }
        assert(self.journal() =~= j0 + ts.take(2));
        let params = params2(text_param(tag), identity_param(file_ref.inode));
        match execute(&mut self.conn, INSERT_RELATION, &params) {
            Ok(_) => {},
            Err(e) => return Err(StoreError::Database(e)),
        }
        assert(self.journal() =~= j0 + ts);
        self.data.add_relation(tag, file_ref.inode);
        Ok(())
    }

    /// The names of the tags of `file_ref`, each once, in the order in
    /// which they were given to it.
    pub fn get_tags(&self, file_ref: &FileRef) -> (r: Result<Vec<String>, StoreError>)
        requires
            self.wf(),
        ensures
            r is Ok,
            r is Ok ==> lists_exactly(names_view(r->Ok_0@), self@.tags_of(file_ref.inode))
                && names_view(r->Ok_0@) == self.tag_order(file_ref.inode),
    {
        Ok(self.data.tags_of(file_ref.inode))
    }

    /// The entries tagged exactly `tag`, each once, at their known paths, in
    /// the order in which they were tagged; empty for a name that was never
    /// used.
    pub fn get_files_by_tag(&self, tag: &str) -> (r: Result<Vec<FileRef>, StoreError>)
        requires
            self.wf(),
        ensures
            r is Ok,
            r is Ok ==> lists_tagged(r->Ok_0@, self@, tag@)
                && inodes_view(r->Ok_0@) == self.file_order(tag@),
            r is Ok && !self@.vocabulary.contains(tag@) ==> r->Ok_0@.len() == 0,
    {
        let r = self.data.files_with_tag(tag);
        proof {
            self.data.lemma_view_wf();
            if !self@.vocabulary.contains(tag@) && r@.len() > 0 {
                assert(inodes_view(r@)[0] == r@[0].inode);
                assert(inodes_view(r@).contains(r@[0].inode));
                assert(self@.relations.contains((tag@, r@[0].inode)));
            }
        }
        Ok(r)
    }
}

impl NotesDB {
    /// Replaces the tags of `file_ref` with `tags`, each trimmed, empty ones
    /// dropped; a record for the entry is made if any tag remains.
    ///
    /// On failure every note and the tags of every other entry are as they
    /// were, and the statements run are a beginning of those a success
    /// runs.
    pub fn set_tags(&mut self, file_ref: &FileRef, tags: Vec<&str>) -> (r: Result<(), StoreError>)
        requires
            old(self).wf(),
        ensures
            final(self).wf(),
            match r {
                Ok(_) => final(self)@ == old(self)@.with_tags(
                    file_ref.inode,
                    file_ref.file_path@,
                    clean_tags(tags@),
                ) && final(self).journal() == old(self).journal().push(relations_delete(file_ref.inode))
                    + tagging_statements(*file_ref, tag_names(strs_view(tags@))),
                Err(e) => e is Database && partly_retagged(
                    old(self)@,
                    final(self)@,
                    file_ref.inode,
                    file_ref.file_path@,
                    clean_tags(tags@),
                ) && extends(old(self).journal(), final(self).journal())
                    && extends(final(self).journal(), retag_journal(old(self).journal(), *file_ref, strs_view(tags@))),
            },
    {
        let ghost v = self@;
        let ghost j0 = self.journal();
        let ghost id = file_ref.inode;
        let ghost path = file_ref.file_path@;
        let ghost names = strs_view(tags@);
        proof {
            self.data.lemma_view_wf();
        }
        let params = params1(identity_param(file_ref.inode));
        match execute(&mut self.conn, DELETE_RELATIONS, &params) {
            Ok(_) => {},
            Err(e) => {
                assert(j0.subrange(0, j0.len() as int) =~= j0);
                assert(retag_journal(j0, *file_ref, names).subrange(0, j0.len() as int) =~= j0);
                return Err(StoreError::Database(e));
            },
        }
        self.data.clear_tags(file_ref.inode);
        proof {
            lemma_without_tags_is_no_tags(v, id, path);
            assert(clean_tags(tags@.subrange(0, 0)) =~= Set::empty());
            assert(names.subrange(0, 0) =~= Seq::<Seq<char>>::empty());
            assert(self.journal() =~= j0.push(relations_delete(id)) + tagging_statements(
                *file_ref,
                tag_names(names.subrange(0, 0)),
            ));
        }
        let mut i: usize = 0;
        while i < tags.len()
            invariant
                self.wf(),
                i <= tags.len(),
                self@ == v.with_tags(id, path, clean_tags(tags@.subrange(0, i as int))),
                self.journal() == j0.push(relations_delete(id)) + tagging_statements(
                    *file_ref,
                    tag_names(names.subrange(0, i as int)),
                ),
                v == old(self)@,
                j0 == old(self).journal(),
                names == strs_view(tags@),
                id == file_ref.inode,
                path == file_ref.file_path@,
            decreases tags.len() - i,
        {
            let ghost done = clean_tags(tags@.subrange(0, i as int));
            let ghost next = tags@.subrange(0, i + 1);
            let ghost before = self.journal();
            proof {
                assert(names.subrange(0, i + 1).drop_last() =~= names.subrange(0, i as int));
                assert(names.subrange(0, i + 1).last() == tags@[i as int]@);
            }
            let t = trim(tags[i]);
            if t.unicode_len() > 0 {
                match self.add_tag(file_ref, t.as_str()) {
                    Ok(_) => {},
                    Err(e) => {
                        proof {
                            assert(done.subset_of(clean_tags(tags@))) by {
                                assert forall|x: Seq<char>| done.contains(x) implies clean_tags(tags@).contains(x) by {
                                    let k = choose|k: int| 0 <= k < i && trimmed(#[trigger] tags@.subrange(0, i as int)[k]@) == x;
                                    assert(tags@[k] == tags@.subrange(0, i as int)[k]);
                                }
                            }
                            assert(clean_tags(tags@).contains(t@)) by {
                                assert(trimmed(tags@[i as int]@) == t@);
                            }
                            let s = v.with_tags(id, path, done);
                            assert(partly_retagged(v, self@, id, path, clean_tags(tags@))) by {
                                let w = s.with_vocabulary(t@);
                            }
                            assert(tag_names(names.subrange(0, i + 1)) == tag_names(names.subrange(0, i as int)).push(t@));
                            let ts = tag_statements(*file_ref, t@);
                            if self.journal() == before {
                                assert(before + ts.take(0) =~= before);
                                lemma_cut_short_journal(j0, *file_ref, names, i as int, t@, 0);
                            } else if self.journal() == before + ts.take(1) {
                                lemma_cut_short_journal(j0, *file_ref, names, i as int, t@, 1);
                            } else {
                                lemma_cut_short_journal(j0, *file_ref, names, i as int, t@, 2);
                            }
                            assert(self.journal().subrange(0, j0.len() as int) =~= j0);
                        }
                        return Err(e);
                    },
                }
                proof {
                    lemma_with_tags_then_tag(v, id, path, done, t@);
                    assert forall|x: Seq<char>| #[trigger] clean_tags(next).contains(x) == done.insert(t@).contains(x) by {
                        if done.contains(x) {
                            let k = choose|k: int| 0 <= k < i && trimmed(#[trigger] tags@.subrange(0, i as int)[k]@) == x;
                            assert(next[k] == tags@.subrange(0, i as int)[k]);
                        }
                        if x == t@ {
                            assert(next[i as int] == tags@[i as int]);
                        }
                        if clean_tags(next).contains(x) && x != t@ {
                            let k = choose|k: int| 0 <= k < i + 1 && trimmed(#[trigger] next[k]@) == x;
                            assert(next[k] == tags@.subrange(0, i as int)[k]);
                        }
                    }
                    assert(clean_tags(next) =~= done.insert(t@));
                    assert(tag_names(names.subrange(0, i + 1)) == tag_names(names.subrange(0, i as int)).push(t@));
                    assert(tag_names(names.subrange(0, i + 1)).drop_last() =~= tag_names(names.subrange(0, i as int)));
                    assert(self.journal() =~= j0.push(relations_delete(id)) + tagging_statements(
                        *file_ref,
                        tag_names(names.subrange(0, i + 1)),
                    ));
                }
            } else {
                proof {
                    assert forall|x: Seq<char>| #[trigger] clean_tags(next).contains(x) == done.contains(x) by {
                        if done.contains(x) {
                            let k = choose|k: int| 0 <= k < i && trimmed(#[trigger] tags@.subrange(0, i as int)[k]@) == x;
                            assert(next[k] == tags@.subrange(0, i as int)[k]);
                        }
                        if clean_tags(next).contains(x) {
                            let k = choose|k: int| 0 <= k < i + 1 && trimmed(#[trigger] next[k]@) == x;
                            if k < i {
                                assert(next[k] == tags@.subrange(0, i as int)[k]);
                            }
                        }
                    }
                    assert(clean_tags(next) =~= done);
                    assert(tag_names(names.subrange(0, i + 1)) == tag_names(names.subrange(0, i as int)));
                }
            }
            i = i + 1;
        }
        assert(tags@.subrange(0, tags.len() as int) =~= tags@);
        assert(names.subrange(0, tags.len() as int) =~= names);
        Ok(())
    }
}

/// The tag names of a comma-separated submission: each piece trimmed,
/// empty ones dropped.
pub open spec fn submitted_tags(input: Seq<char>) -> Set<Seq<char>> {
    Set::new(
        |t: Seq<char>|
            t.len() > 0 && exists|k: int|
                0 <= k < comma_pieces(input).len() && trimmed(#[trigger] comma_pieces(input)[k]) == t,
    )
}

/// The queries that read the three tables back, with the rows they gave.
pub open spec fn read_back(
    files: Seq<Vec<SqlValue>>,
    tags: Seq<Vec<SqlValue>>,
    relations: Seq<Vec<SqlValue>>,
) -> Seq<(Seq<char>, Seq<Vec<SqlValue>>)> {
    seq![(SELECT_FILES@, files), (SELECT_TAGS@, tags), (SELECT_RELATIONS@, relations)]
}

impl NotesDB {
    /// Opens the store kept in the SQLite database at `db_path` (`":memory:"`
    /// for one that lasts as long as the value), creating its tables if
    /// absent and reading them back.
    ///
    /// `Malformed` when a row read back breaks the schema, exactly as
    /// `decode_tables` says of the rows; `Database` when a statement fails.
    pub fn build(db_path: &str) -> (r: Result<NotesDB, StoreError>)
        ensures
            r is Ok ==> r->Ok_0.wf() && r->Ok_0.journal() == seq![
                (CREATE_FILES@, no_params()),
                (CREATE_TAGS@, no_params()),
                (CREATE_RELATIONS@, no_params()),
            ] && r->Ok_0.path() == db_path@
                && exists|f: Seq<Vec<SqlValue>>, t: Seq<Vec<SqlValue>>, e: Seq<Vec<SqlValue>>|
                r->Ok_0.queries() == read_back(f, t, e) && tables_ok(f, t, e)
                    && r->Ok_0@ == tables_view(f, t, e),
            r is Err && r->Err_0 is Malformed ==> exists|
                c: Connection,
                f: Seq<Vec<SqlValue>>,
                t: Seq<Vec<SqlValue>>,
                e: Seq<Vec<SqlValue>>,
            | opened_at(c) == db_path@ && queries_run(c) == read_back(f, t, e) && !tables_ok(f, t, e),
            r is Err ==> !(r->Err_0 is NotFound),
    {
        let mut conn = match open_connection(db_path) {
            Ok(c) => c,
            Err(e) => return Err(StoreError::Database(e)),
        };
        let none: Vec<SqlParam> = Vec::new();
        assert(bounds(none@) =~= no_params());
        match execute(&mut conn, CREATE_FILES, &none) {
            Ok(_) => {},
            Err(e) => return Err(StoreError::Database(e)),
        }
        match execute(&mut conn, CREATE_TAGS, &none) {
            Ok(_) => {},
            Err(e) => return Err(StoreError::Database(e)),
        }
        match execute(&mut conn, CREATE_RELATIONS, &none) {
            Ok(_) => {},
            Err(e) => return Err(StoreError::Database(e)),
        }
        let files = match query_rows(&mut conn, SELECT_FILES) {
            Ok(rows) => rows,
            Err(e) => return Err(StoreError::Database(e)),
        };
        let tags = match query_rows(&mut conn, SELECT_TAGS) {
            Ok(rows) => rows,
            Err(e) => return Err(StoreError::Database(e)),
        };
        let relations = match query_rows(&mut conn, SELECT_RELATIONS) {
            Ok(rows) => rows,
            Err(e) => return Err(StoreError::Database(e)),
        };
        match decode_tables(&files, &tags, &relations) {
            Ok(data) => {
                let db = NotesDB { conn, data };
                assert(db.journal() =~= seq![
                    (CREATE_FILES@, no_params()),
                    (CREATE_TAGS@, no_params()),
                    (CREATE_RELATIONS@, no_params()),
                ]);
                assert(queries_run(db.conn) =~= read_back(files@, tags@, relations@));
                assert(tables_ok(files@, tags@, relations@) && db@ == tables_view(files@, tags@, relations@));
                Ok(db)
            },
            Err(e) => {
                assert(queries_run(conn) =~= read_back(files@, tags@, relations@));
                assert(opened_at(conn) == db_path@);
                Err(e)
            },
        }
    }

    /// Replaces the tags of `file_ref` with those of a comma-separated
    /// submission: each piece trimmed, empty ones dropped, case kept.
    pub fn submit_tags(&mut self, file_ref: &FileRef, input: &str) -> (r: Result<(), StoreError>)
        requires
            old(self).wf(),
        ensures
            final(self).wf(),
            match r {
                Ok(_) => final(self)@ == old(self)@.with_tags(
                    file_ref.inode,
                    file_ref.file_path@,
                    submitted_tags(input@),
                ) && final(self).journal() == old(self).journal().push(relations_delete(file_ref.inode))
                    + tagging_statements(*file_ref, tag_names(comma_pieces(input@))),
                Err(e) => e is Database && partly_retagged(
                    old(self)@,
                    final(self)@,
                    file_ref.inode,
                    file_ref.file_path@,
                    submitted_tags(input@),
                ) && extends(old(self).journal(), final(self).journal())
                    && extends(final(self).journal(), retag_journal(old(self).journal(), *file_ref, comma_pieces(input@))),
            },
    {
        let pieces = split_commas(input);
        let mut strs: Vec<&str> = Vec::new();
        let mut i: usize = 0;
        while i < pieces.len()
            invariant
                i <= pieces.len(),
                strs.len() == i,
                forall|k: int| 0 <= k < i ==> (#[trigger] strs@[k])@ == pieces@[k]@,
            decreases pieces.len() - i,
        {
            strs.push(pieces[i].as_str());
            i = i + 1;
        }
        proof {
            let cp = comma_pieces(input@);
            assert(names_view(pieces@) == cp);
            assert(cp.len() == strs@.len());
            assert forall|t: Seq<char>| #[trigger] clean_tags(strs@).contains(t)
                == submitted_tags(input@).contains(t) by {
                if clean_tags(strs@).contains(t) {
                    let k = choose|k: int| 0 <= k < strs@.len() && trimmed(#[trigger] strs@[k]@) == t;
                    assert(names_view(pieces@)[k] == pieces@[k]@);
                    assert(trimmed(cp[k]) == t);
                }
                if submitted_tags(input@).contains(t) {
                    let k = choose|k: int| 0 <= k < cp.len() && trimmed(#[trigger] cp[k]) == t;
                    assert(names_view(pieces@)[k] == pieces@[k]@);
                    assert(trimmed(strs@[k]@) == t);
                }
            }
            assert(clean_tags(strs@) =~= submitted_tags(input@));
            assert(strs_view(strs@) =~= cp);
        }
        self.set_tags(file_ref, strs)
    }
}

} // verus!
