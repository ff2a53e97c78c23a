use vstd::prelude::*;

use crate::annotations::AnnotationsView;

verus! {

/// A note written for an entry is what the next read of that entry
/// returns: refreshing the known path on the read, whatever that path is,
/// leaves the note alone.
pub proof fn law_note_read_back(
    v: AnnotationsView,
    id: u64,
    path: Seq<char>,
    note: Seq<char>,
    read_path: Seq<char>,
)
    ensures
        v.with_note(id, path, note).with_path(id, read_path).note_of(id) == Some(note),
{
}

/// Replacing the tags of an entry with none leaves it with none.
pub proof fn law_no_tags_after_clearing(v: AnnotationsView, id: u64, path: Seq<char>)
    ensures
        v.with_tags(id, path, Set::empty()).tags_of(id) == Set::<Seq<char>>::empty(),
{
    assert(v.with_tags(id, path, Set::empty()).tags_of(id) =~= Set::<Seq<char>>::empty());
}

/// After a replacement the tags of the entry are exactly the names given.
pub proof fn law_tags_read_back(v: AnnotationsView, id: u64, path: Seq<char>, tags: Set<Seq<char>>)
    ensures
        v.with_tags(id, path, tags).tags_of(id) == tags,
{
    assert(v.with_tags(id, path, tags).tags_of(id) =~= tags);
}

/// Replacing the tags of an entry twice with the same names leaves the
/// store as replacing them once does.
pub proof fn law_set_tags_idempotent(
    v: AnnotationsView,
    id: u64,
    path: Seq<char>,
    tags: Set<Seq<char>>,
)
    ensures
        v.with_tags(id, path, tags).with_tags(id, path, tags) == v.with_tags(id, path, tags),
{
    let once = v.with_tags(id, path, tags);
    let twice = once.with_tags(id, path, tags);
    assert(twice.files =~= once.files);
    assert(twice.vocabulary =~= once.vocabulary);
    assert(twice.relations =~= once.relations);
}

/// The reverse lookup inverts tagging: `t` is among the tags of `id`
/// exactly when `id` is among the entries tagged `t`.
pub proof fn law_tag_lookup_inverse(v: AnnotationsView, id: u64, t: Seq<char>)
    ensures
        v.tags_of(id).contains(t) <==> v.files_with(t).contains(id),
{
}

/// A name that was never used as a tag tags no entry.
pub proof fn law_unknown_tag_lists_nothing(v: AnnotationsView, t: Seq<char>)
    requires
        v.wf(),
        !v.vocabulary.contains(t),
    ensures
        v.files_with(t) == Set::<u64>::empty(),
{
    assert(v.files_with(t) =~= Set::<u64>::empty());
}

/// Seeing an entry at a new path, as after a rename, keeps its note and
/// its tags, and a stored record takes the new path.
pub proof fn law_rename_keeps_annotations(v: AnnotationsView, id: u64, new_path: Seq<char>)
    ensures
        v.with_path(id, new_path).note_of(id) == v.note_of(id),
        v.with_path(id, new_path).tags_of(id) == v.tags_of(id),
        v.files.contains_key(id) ==> v.with_path(id, new_path).files[id].known_path == Some(new_path),
{
    assert(v.with_path(id, new_path).tags_of(id) =~= v.tags_of(id));
}

/// Writing the same note for the same entry twice leaves the store as
/// writing it once does.
pub proof fn law_set_note_idempotent(v: AnnotationsView, id: u64, path: Seq<char>, note: Seq<char>)
    ensures
        v.with_note(id, path, note).with_note(id, path, note) == v.with_note(id, path, note),
{
    assert(v.with_note(id, path, note).with_note(id, path, note).files =~= v.with_note(
        id,
        path,
        note,
    ).files);
}

/// Tagging an entry again with a name it already carries changes nothing.
pub proof fn law_add_tag_idempotent(v: AnnotationsView, id: u64, path: Seq<char>, t: Seq<char>)
    ensures
        v.with_tag(id, path, t).with_tag(id, path, t) == v.with_tag(id, path, t),
{
    let once = v.with_tag(id, path, t);
    let twice = once.with_tag(id, path, t);
    assert(twice.vocabulary =~= once.vocabulary);
    assert(twice.relations =~= once.relations);
    assert(twice.files =~= once.files);
}

} // verus!
