use vstd::prelude::*;
use vstd::utf8::{decode_utf8, valid_utf8};

use crate::annotations::{opt_view, Annotations, AnnotationsView, FileEntry, FileRecord};
use crate::store::{from_stored, identity_of, SqlValue, StoreError};

verus! {

/// A column holding text that is valid UTF-8.
pub open spec fn is_text(v: SqlValue) -> bool {
    v is Text && valid_utf8(v->Text_0@)
}

/// The characters that a text column encodes.
pub open spec fn text_of(v: SqlValue) -> Seq<char> {
    decode_utf8(v->Text_0@)
}

/// Relies on `String::from_utf8`: the text that `bytes` encode, or `None`
/// exactly when they are not valid UTF-8.
#[verifier::external_body]
fn utf8_text(bytes: &Vec<u8>) -> (r: Option<String>)
    ensures
        r is Some <==> valid_utf8(bytes@),
        r is Some ==> r->Some_0@ == decode_utf8(bytes@),
{
    String::from_utf8(bytes.clone()).ok()
}

/// A row of `file_notes`: an integer identity, and a path and a note that
/// are each text or null.
pub open spec fn file_row_ok(row: Seq<SqlValue>) -> bool {
    &&& row.len() == 3
    &&& row[0] is Integer
    &&& (is_text(row[1]) || row[1] is Null)
    &&& (is_text(row[2]) || row[2] is Null)
}

pub open spec fn file_row_id(row: Seq<SqlValue>) -> u64 {
    identity_of(row[0]->Integer_0)
}

pub open spec fn file_row_entry(row: Seq<SqlValue>) -> FileEntry {
    FileEntry {
        known_path: if row[1] is Text {
            Some(text_of(row[1]))
        } else {
            None
        },
        note: if row[2] is Text {
            Some(text_of(row[2]))
        } else {
            None
        },
    }
}

/// The records that the rows of `file_notes` hold; `None` when a row is
/// ill-typed or repeats an identity.
pub open spec fn decode_files(rows: Seq<Vec<SqlValue>>) -> Option<Map<u64, FileEntry>>
    decreases rows.len(),
{
    if rows.len() == 0 {
        Some(Map::empty())
    } else {
        match decode_files(rows.drop_last()) {
            Some(m) => {
                let row = rows.last()@;
                if file_row_ok(row) && !m.contains_key(file_row_id(row)) {
                    Some(m.insert(file_row_id(row), file_row_entry(row)))
                } else {
                    None
                }
            },
            None => None,
        }
    }
}

/// A row of `file_tags`: an integer id and a text name.
pub open spec fn tag_row_ok(row: Seq<SqlValue>) -> bool {
    &&& row.len() == 2
    &&& row[0] is Integer
    &&& is_text(row[1])
}

/// The name that `tags` gives to `id`.
pub open spec fn tag_name_of(tags: Seq<(i64, Seq<char>)>, id: i64) -> Option<Seq<char>>
    decreases tags.len(),
{
    if tags.len() == 0 {
        None
    } else if tags.last().0 == id {
        Some(tags.last().1)
    } else {
        tag_name_of(tags.drop_last(), id)
    }
}

pub open spec fn tag_names_of(tags: Seq<(i64, Seq<char>)>) -> Set<Seq<char>> {
    Set::new(|n: Seq<char>| exists|k: int| 0 <= k < tags.len() && #[trigger] tags[k].1 == n)
}

/// The (id, name) pairs that the rows of `file_tags` hold; `None` when a
/// row is ill-typed or repeats an id or a name.
pub open spec fn decode_tags(rows: Seq<Vec<SqlValue>>) -> Option<Seq<(i64, Seq<char>)>>
    decreases rows.len(),
{
    if rows.len() == 0 {
        Some(Seq::empty())
    } else {
        match decode_tags(rows.drop_last()) {
            Some(prev) => {
                let row = rows.last()@;
                if tag_row_ok(row) && tag_name_of(prev, row[0]->Integer_0) is None
                    && !tag_names_of(prev).contains(text_of(row[1])) {
                    Some(prev.push((row[0]->Integer_0, text_of(row[1]))))
                } else {
                    None
                }
            },
            None => None,
        }
    }
}

/// A row of `tag_relations`: an integer tag id and an integer identity.
pub open spec fn relation_row_ok(row: Seq<SqlValue>) -> bool {
    &&& row.len() == 2
    &&& row[0] is Integer
    &&& row[1] is Integer
}

/// The edges that the rows of `tag_relations` hold; `None` when a row is
/// ill-typed, names a tag id or an identity that has no row, or repeats an
/// edge.
pub open spec fn decode_relations(
    rows: Seq<Vec<SqlValue>>,
    tags: Seq<(i64, Seq<char>)>,
    files: Map<u64, FileEntry>,
) -> Option<Set<(Seq<char>, u64)>>
    decreases rows.len(),
{
    if rows.len() == 0 {
        Some(Set::empty())
    } else {
        match decode_relations(rows.drop_last(), tags, files) {
            Some(prev) => {
                let row = rows.last()@;
                if relation_row_ok(row) && tag_name_of(tags, row[0]->Integer_0) is Some
                    && files.contains_key(identity_of(row[1]->Integer_0)) && !prev.contains(
                    (tag_name_of(tags, row[0]->Integer_0)->Some_0, identity_of(row[1]->Integer_0)),
                ) {
                    Some(
                        prev.insert(
                            (
                                tag_name_of(tags, row[0]->Integer_0)->Some_0,
                                identity_of(row[1]->Integer_0),
                            ),
                        ),
                    )
                } else {
                    None
                }
            },
            None => None,
        }
    }
}

/// The three tables hold well-formed rows.
pub open spec fn tables_ok(
    files: Seq<Vec<SqlValue>>,
    tags: Seq<Vec<SqlValue>>,
    relations: Seq<Vec<SqlValue>>,
) -> bool {
    &&& decode_files(files) is Some
    &&& decode_tags(tags) is Some
    &&& decode_relations(relations, decode_tags(tags)->Some_0, decode_files(files)->Some_0) is Some
}

/// What well-formed tables hold.
pub open spec fn tables_view(
    files: Seq<Vec<SqlValue>>,
    tags: Seq<Vec<SqlValue>>,
    relations: Seq<Vec<SqlValue>>,
) -> AnnotationsView {
    AnnotationsView {
        files: decode_files(files)->Some_0,
        vocabulary: tag_names_of(decode_tags(tags)->Some_0),
        relations: decode_relations(
            relations,
            decode_tags(tags)->Some_0,
            decode_files(files)->Some_0,
        )->Some_0,
    }
}

fn load_files(data: &mut Annotations, rows: &Vec<Vec<SqlValue>>) -> (ok: bool)
    requires
        old(data).wf(),
        old(data)@ == AnnotationsView::empty(),
    ensures
        final(data).wf(),
        ok == decode_files(rows@) is Some,
        ok ==> final(data)@ == (AnnotationsView { files: decode_files(rows@)->Some_0, ..AnnotationsView::empty() }),
{
    let mut i: usize = 0;
    while i < rows.len()
        invariant
            data.wf(),
            i <= rows.len(),
            decode_files(rows@.subrange(0, i as int)) is Some,
            data@ == (AnnotationsView {
                files: decode_files(rows@.subrange(0, i as int))->Some_0,
                ..AnnotationsView::empty()
            }),
        decreases rows.len() - i,
    {
        assert(rows@.subrange(0, i + 1).drop_last() =~= rows@.subrange(0, i as int));
        let row = &rows[i];
        if row.len() != 3 {
            proof { lemma_decode_files_stays_none(rows@, i as int + 1); }
            return false;
        }
        let inode = match &row[0] {
            SqlValue::Integer(n) => from_stored(*n),
            _ => {
                proof { lemma_decode_files_stays_none(rows@, i as int + 1); }
                return false;
            },
        };
        let known_path = match &row[1] {
            SqlValue::Text(t) => match utf8_text(t) {
                Some(text) => Some(text),
                None => {
                    proof { lemma_decode_files_stays_none(rows@, i as int + 1); }
                    return false;
                },
            },
            SqlValue::Null => None,
            _ => {
                proof { lemma_decode_files_stays_none(rows@, i as int + 1); }
                return false;
            },
        };
        let note = match &row[2] {
            SqlValue::Text(t) => match utf8_text(t) {
                Some(text) => Some(text),
                None => {
                    proof { lemma_decode_files_stays_none(rows@, i as int + 1); }
                    return false;
                },
            },
            SqlValue::Null => None,
            _ => {
                proof { lemma_decode_files_stays_none(rows@, i as int + 1); }
                return false;
            },
        };
        if data.has_file(inode) {
            proof { lemma_decode_files_stays_none(rows@, i as int + 1); }
            return false;
        }
        let rec = FileRecord { inode, known_path, note };
        data.insert_record(rec);
        i = i + 1;
    }
    assert(rows@.subrange(0, rows.len() as int) =~= rows@);
    true
}

proof fn lemma_decode_files_stays_none(rows: Seq<Vec<SqlValue>>, i: int)
    requires
        0 <= i <= rows.len(),
        decode_files(rows.subrange(0, i)) is None,
    ensures
        decode_files(rows) is None,
    decreases rows.len() - i,
{
    if i < rows.len() {
        assert(rows.subrange(0, i + 1).drop_last() =~= rows.subrange(0, i));
        lemma_decode_files_stays_none(rows, i + 1);
    } else {
        assert(rows.subrange(0, i) =~= rows);
    }
}

pub open spec fn tag_pairs(list: Seq<(i64, String)>) -> Seq<(i64, Seq<char>)> {
    list.map_values(|p: (i64, String)| (p.0, p.1@))
}

fn find_tag(list: &Vec<(i64, String)>, id: i64) -> (r: Option<String>)
    ensures
        opt_view(r) == tag_name_of(tag_pairs(list@), id),
{
    let ghost all = tag_pairs(list@);
    let mut k: usize = list.len();
    assert(all.subrange(0, all.len() as int) =~= all);
    while k > 0
        invariant
            k <= list.len(),
            all == tag_pairs(list@),
            tag_name_of(all, id) == tag_name_of(all.subrange(0, k as int), id),
        decreases k,
    {
        assert(all.subrange(0, k as int).drop_last() =~= all.subrange(0, k - 1));
        if list[k - 1].0 == id {
            return Some(list[k - 1].1.clone());
        }
        k = k - 1;
    }
    None
}

fn load_tags(data: &mut Annotations, rows: &Vec<Vec<SqlValue>>) -> (r: Option<Vec<(i64, String)>>)
    requires
        old(data).wf(),
        old(data)@.vocabulary == Set::<Seq<char>>::empty(),
        old(data)@.relations == Set::<(Seq<char>, u64)>::empty(),
    ensures
        final(data).wf(),
        r is Some == decode_tags(rows@) is Some,
        r is Some ==> tag_pairs(r->Some_0@) == decode_tags(rows@)->Some_0 && final(data)@ == (
        AnnotationsView { vocabulary: tag_names_of(decode_tags(rows@)->Some_0), ..old(data)@ }),
{
    let ghost start = data@;
    let mut list: Vec<(i64, String)> = Vec::new();
    let mut i: usize = 0;
    assert(tag_names_of(Seq::empty()) =~= Set::<Seq<char>>::empty());
    assert(tag_pairs(list@) =~= Seq::empty());
    while i < rows.len()
        invariant
            data.wf(),
            i <= rows.len(),
            decode_tags(rows@.subrange(0, i as int)) is Some,
            tag_pairs(list@) == decode_tags(rows@.subrange(0, i as int))->Some_0,
            data@ == (AnnotationsView { vocabulary: tag_names_of(tag_pairs(list@)), ..start }),
        decreases rows.len() - i,
    {
        assert(rows@.subrange(0, i + 1).drop_last() =~= rows@.subrange(0, i as int));
        let row = &rows[i];
        if row.len() != 2 {
            proof { lemma_decode_tags_stays_none(rows@, i as int + 1); }
            return None;
        }
        let id = match &row[0] {
            SqlValue::Integer(n) => *n,
            _ => {
                proof { lemma_decode_tags_stays_none(rows@, i as int + 1); }
                return None;
            },
        };
        let name = match &row[1] {
            SqlValue::Text(t) => match utf8_text(t) {
                Some(text) => text,
                None => {
                    proof { lemma_decode_tags_stays_none(rows@, i as int + 1); }
                    return None;
                },
            },
            _ => {
                proof { lemma_decode_tags_stays_none(rows@, i as int + 1); }
                return None;
            },
        };
        if find_tag(&list, id).is_some() || data.has_vocabulary(&name) {
            proof { lemma_decode_tags_stays_none(rows@, i as int + 1); }
            return None;
        }
        let ghost prev = tag_pairs(list@);
        data.add_vocabulary(name.as_str());
        list.push((id, name));
        proof {
            assert(tag_pairs(list@) =~= prev.push((id, name@)));
            assert forall|n: Seq<char>| #[trigger] tag_names_of(tag_pairs(list@)).contains(n)
                == tag_names_of(prev).insert(name@).contains(n) by {
                if tag_names_of(prev).contains(n) {
                    let k = choose|k: int| 0 <= k < prev.len() && #[trigger] prev[k].1 == n;
                    assert(tag_pairs(list@)[k] == prev[k]);
                }
                if n == name@ {
                    assert(tag_pairs(list@)[prev.len() as int].1 == n);
                }
                if tag_names_of(tag_pairs(list@)).contains(n) && n != name@ {
                    let k = choose|k: int| 0 <= k < tag_pairs(list@).len() && #[trigger] tag_pairs(list@)[k].1 == n;
                    assert(k < prev.len());
                    assert(tag_pairs(list@)[k] == prev[k]);
                }
            }
            assert(tag_names_of(tag_pairs(list@)) =~= tag_names_of(prev).insert(name@));
        }
        i = i + 1;
    }
    assert(rows@.subrange(0, rows.len() as int) =~= rows@);
    Some(list)
}

proof fn lemma_decode_tags_stays_none(rows: Seq<Vec<SqlValue>>, i: int)
    requires
        0 <= i <= rows.len(),
        decode_tags(rows.subrange(0, i)) is None,
    ensures
        decode_tags(rows) is None,
    decreases rows.len() - i,
{
    if i < rows.len() {
        assert(rows.subrange(0, i + 1).drop_last() =~= rows.subrange(0, i));
        lemma_decode_tags_stays_none(rows, i + 1);
    } else {
        assert(rows.subrange(0, i) =~= rows);
    }
}

fn load_relations(data: &mut Annotations, rows: &Vec<Vec<SqlValue>>, tags: &Vec<(i64, String)>) -> (ok: bool)
    requires
        old(data).wf(),
        old(data)@.relations == Set::<(Seq<char>, u64)>::empty(),
        old(data)@.vocabulary == tag_names_of(tag_pairs(tags@)),
    ensures
        final(data).wf(),
        ok == decode_relations(rows@, tag_pairs(tags@), old(data)@.files) is Some,
        ok ==> final(data)@ == (AnnotationsView {
            relations: decode_relations(rows@, tag_pairs(tags@), old(data)@.files)->Some_0,
            ..old(data)@
        }),
{
    let ghost start = data@;
    let ghost tv = tag_pairs(tags@);
    let mut i: usize = 0;
    while i < rows.len()
        invariant
            data.wf(),
            i <= rows.len(),
            tv == tag_pairs(tags@),
            start == old(data)@,
            start.vocabulary == tag_names_of(tv),
            decode_relations(rows@.subrange(0, i as int), tv, start.files) is Some,
            data@ == (AnnotationsView {
                relations: decode_relations(rows@.subrange(0, i as int), tv, start.files)->Some_0,
                ..start
            }),
        decreases rows.len() - i,
    {
        assert(rows@.subrange(0, i + 1).drop_last() =~= rows@.subrange(0, i as int));
        let row = &rows[i];
        if row.len() != 2 {
            proof { lemma_decode_relations_stays_none(rows@, tv, start.files, i as int + 1); }
            return false;
        }
        let tag_id = match &row[0] {
            SqlValue::Integer(n) => *n,
            _ => {
                proof { lemma_decode_relations_stays_none(rows@, tv, start.files, i as int + 1); }
                return false;
            },
        };
        let inode = match &row[1] {
            SqlValue::Integer(n) => from_stored(*n),
            _ => {
                proof { lemma_decode_relations_stays_none(rows@, tv, start.files, i as int + 1); }
                return false;
            },
        };
        let name = match find_tag(tags, tag_id) {
            Some(n) => n,
            None => {
                proof { lemma_decode_relations_stays_none(rows@, tv, start.files, i as int + 1); }
                return false;
            },
        };
        if !data.has_file(inode) || data.has_relation(&name, inode) {
            proof { lemma_decode_relations_stays_none(rows@, tv, start.files, i as int + 1); }
            return false;
        }
        proof {
            lemma_tag_name_in_names(tv, tag_id);
        }
        data.add_relation(name.as_str(), inode);
        i = i + 1;
    }
    assert(rows@.subrange(0, rows.len() as int) =~= rows@);
    true
}

proof fn lemma_tag_name_in_names(tags: Seq<(i64, Seq<char>)>, id: i64)
    requires
        tag_name_of(tags, id) is Some,
    ensures
        tag_names_of(tags).contains(tag_name_of(tags, id)->Some_0),
    decreases tags.len(),
{
    if tags.last().0 == id {
        assert(tags[tags.len() - 1].1 == tag_name_of(tags, id)->Some_0);
    } else {
        lemma_tag_name_in_names(tags.drop_last(), id);
        let n = tag_name_of(tags, id)->Some_0;
        let k = choose|k: int| 0 <= k < tags.drop_last().len() && #[trigger] tags.drop_last()[k].1 == n;
        assert(tags[k].1 == n);
    }
}

proof fn lemma_decode_relations_stays_none(
    rows: Seq<Vec<SqlValue>>,
    tags: Seq<(i64, Seq<char>)>,
    files: Map<u64, FileEntry>,
    i: int,
)
    requires
        0 <= i <= rows.len(),
        decode_relations(rows.subrange(0, i), tags, files) is None,
    ensures
        decode_relations(rows, tags, files) is None,
    decreases rows.len() - i,
{
    if i < rows.len() {
        assert(rows.subrange(0, i + 1).drop_last() =~= rows.subrange(0, i));
        lemma_decode_relations_stays_none(rows, tags, files, i + 1);
    } else {
        assert(rows.subrange(0, i) =~= rows);
    }
}

/// The store that three tables read back hold, or `Malformed` exactly when
/// a row breaks the schema.
pub fn decode_tables(
    files: &Vec<Vec<SqlValue>>,
    tags: &Vec<Vec<SqlValue>>,
    relations: &Vec<Vec<SqlValue>>,
) -> (r: Result<Annotations, StoreError>)
    ensures
        r is Ok == tables_ok(files@, tags@, relations@),
        r is Ok ==> r->Ok_0.wf() && r->Ok_0@ == tables_view(files@, tags@, relations@),
        r is Err ==> r->Err_0 is Malformed,
{
    let mut data = Annotations::new();
    if !load_files(&mut data, files) {
        return Err(StoreError::Malformed);
    }
    let list = match load_tags(&mut data, tags) {
        Some(l) => l,
        None => return Err(StoreError::Malformed),
    };
    if !load_relations(&mut data, relations, &list) {
        return Err(StoreError::Malformed);
    }
    Ok(data)
}

} // verus!
