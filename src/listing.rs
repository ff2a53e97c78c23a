use vstd::prelude::*;
use vstd::utf8::encode_utf8;

use crate::annotations::names_view;
use crate::file_ref::FileRef;

verus! {

broadcast use vstd::seq_lib::group_to_multiset_ensures;

/// One entry of a directory as enumeration gave it: the bytes of its own
/// name, whatever their encoding, and the reference built from the same
/// metadata.
#[derive(Debug)]
pub struct DirItem {
    pub name: Vec<u8>,
    pub file: FileRef,
}

/// The visible entries of a directory in display order, and a message for
/// each entry that could not be read.
#[derive(Debug)]
pub struct Listing {
    pub files: Vec<FileRef>,
    pub skipped: Vec<String>,
}

/// A name is hidden when its first byte is an ASCII `.`; no other byte
/// is looked at.
pub open spec fn is_hidden(name: Seq<u8>) -> bool {
    name.len() > 0 && name[0] == 0x2e
}

pub open spec fn path_bytes(f: FileRef) -> Seq<u8> {
    encode_utf8(f.file_path@)
}

/// Byte-wise lexicographic order: `a` comes strictly before `b`.
pub open spec fn lex_lt(a: Seq<u8>, b: Seq<u8>) -> bool
    decreases a.len(),
{
    if a.len() == 0 {
        b.len() > 0
    } else if b.len() == 0 {
        false
    } else if a[0] != b[0] {
        a[0] < b[0]
    } else {
        lex_lt(a.drop_first(), b.drop_first())
    }
}

pub open spec fn sorted_by_path(s: Seq<FileRef>) -> bool {
    forall|i: int, j: int|
        0 <= i < j < s.len() ==> !lex_lt(path_bytes(#[trigger] s[j]), path_bytes(#[trigger] s[i]))
}

/// The entries of `items` that were read and are shown, in their order.
pub open spec fn shown(items: Seq<Result<DirItem, String>>, show_hidden: bool) -> Seq<FileRef>
    decreases items.len(),
{
    if items.len() == 0 {
        Seq::empty()
    } else {
        let prev = shown(items.drop_last(), show_hidden);
        match items.last() {
            Ok(it) => if show_hidden || !is_hidden(it.name@) {
                prev.push(it.file)
            } else {
                prev
            },
            Err(_) => prev,
        }
    }
}

/// The messages of the entries of `items` that could not be read, in order.
pub open spec fn failures(items: Seq<Result<DirItem, String>>) -> Seq<Seq<char>>
    decreases items.len(),
{
    if items.len() == 0 {
        Seq::empty()
    } else {
        let prev = failures(items.drop_last());
        match items.last() {
            Ok(_) => prev,
            Err(e) => prev.push(e@),
        }
    }
}

proof fn lemma_lex_transitive(a: Seq<u8>, b: Seq<u8>, c: Seq<u8>)
    requires
        lex_lt(a, b),
        lex_lt(b, c),
    ensures
        lex_lt(a, c),
    decreases a.len(),
{
    if a.len() > 0 && a[0] == b[0] && b[0] == c[0] {
        lemma_lex_transitive(a.drop_first(), b.drop_first(), c.drop_first());
    }
}

proof fn lemma_lex_total(a: Seq<u8>, b: Seq<u8>)
    ensures
        a != b ==> lex_lt(a, b) || lex_lt(b, a),
        !(lex_lt(a, b) && lex_lt(b, a)),
    decreases a.len(),
{
    if a.len() > 0 && b.len() > 0 && a[0] == b[0] {
        lemma_lex_total(a.drop_first(), b.drop_first());
        if a.drop_first() == b.drop_first() {
            assert(a =~= seq![a[0]] + a.drop_first());
            assert(b =~= seq![b[0]] + b.drop_first());
        }
    } else if a.len() == 0 && b.len() == 0 {
        assert(a =~= b);
    }
}

/// Whether `a` comes strictly before `b` byte-wise.
pub fn path_lt(a: &str, b: &str) -> (r: bool)
    ensures
        r == lex_lt(encode_utf8(a@), encode_utf8(b@)),
{
    let x = a.as_bytes();
    let y = b.as_bytes();
    let ghost sa = x@;
    let ghost sb = y@;
    let mut i: usize = 0;
    assert(sa.subrange(0, sa.len() as int) =~= sa);
    assert(sb.subrange(0, sb.len() as int) =~= sb);
    while i < x.len() && i < y.len() && x[i] == y[i]
        invariant
            x@ == sa,
            y@ == sb,
            i <= sa.len(),
            i <= sb.len(),
            lex_lt(sa, sb) == lex_lt(
                sa.subrange(i as int, sa.len() as int),
                sb.subrange(i as int, sb.len() as int),
            ),
        decreases sa.len() - i,
    {
        assert(sa.subrange(i as int, sa.len() as int).drop_first() =~= sa.subrange(
            i + 1,
            sa.len() as int,
        ));
        assert(sb.subrange(i as int, sb.len() as int).drop_first() =~= sb.subrange(
            i + 1,
            sb.len() as int,
        ));
        i = i + 1;
    }
    if i == x.len() {
        i < y.len()
    } else if i == y.len() {
        false
    } else {
        x[i] < y[i]
    }
}

/// The first position of the sorted `out` whose entry comes strictly after
/// `x`: every entry before it does not, every entry from it on does.
fn insertion_point(out: &Vec<FileRef>, x: &FileRef) -> (p: usize)
    requires
        sorted_by_path(out@),
    ensures
        p <= out.len(),
        forall|k: int| 0 <= k < p ==> !lex_lt(path_bytes(*x), path_bytes(#[trigger] out@[k])),
        forall|k: int| p <= k < out.len() ==> lex_lt(path_bytes(*x), path_bytes(#[trigger] out@[k])),
{
    let mut lo: usize = 0;
    let mut hi: usize = out.len();
    while lo < hi
        invariant
            lo <= hi <= out.len(),
            sorted_by_path(out@),
            forall|k: int| 0 <= k < lo ==> !lex_lt(path_bytes(*x), path_bytes(#[trigger] out@[k])),
            forall|k: int| hi <= k < out.len() ==> lex_lt(path_bytes(*x), path_bytes(#[trigger] out@[k])),
        decreases hi - lo,
    {
        let mid = lo + (hi - lo) / 2;
        let ghost m = out@[mid as int];
        if path_lt(x.file_path.as_str(), out[mid].file_path.as_str()) {
            proof {
                assert forall|k: int| mid <= k < out.len() implies lex_lt(
                    path_bytes(*x),
                    path_bytes(#[trigger] out@[k]),
                ) by {
                    if k > mid {
                        lemma_lex_total(path_bytes(m), path_bytes(out@[k]));
                        if lex_lt(path_bytes(m), path_bytes(out@[k])) {
                            lemma_lex_transitive(path_bytes(*x), path_bytes(m), path_bytes(out@[k]));
                        }
                    }
                }
            }
            hi = mid;
        } else {
            proof {
                assert forall|k: int| 0 <= k < mid + 1 implies !lex_lt(
                    path_bytes(*x),
                    path_bytes(#[trigger] out@[k]),
                ) by {
                    if k < mid && lex_lt(path_bytes(*x), path_bytes(out@[k])) {
                        lemma_lex_total(path_bytes(out@[k]), path_bytes(m));
                        if lex_lt(path_bytes(out@[k]), path_bytes(m)) {
                            lemma_lex_transitive(path_bytes(*x), path_bytes(out@[k]), path_bytes(m));
                        }
                    }
                }
            }
            lo = mid + 1;
        }
    }
    lo
}

/// `v` ordered by path, byte-wise ascending; the same entries, each as
/// often as in `v`.
pub fn sort_by_path(v: Vec<FileRef>) -> (r: Vec<FileRef>)
    ensures
        sorted_by_path(r@),
        r@.to_multiset() == v@.to_multiset(),
{
    let ghost orig = v@;
    let mut rest = v;
    let mut out: Vec<FileRef> = Vec::new();
    while rest.len() > 0
        invariant
            sorted_by_path(out@),
            out@.to_multiset().add(rest@.to_multiset()) == orig.to_multiset(),
        decreases rest.len(),
    {
        let ghost before = rest@;
        let x = rest.pop().unwrap();
        assert(before =~= rest@.push(x));
        let p = insertion_point(&out, &x);
        let ghost prev = out@;
        out.insert(p, x);
        proof {
            assert forall|i: int, j: int| 0 <= i < j < out.len() implies !lex_lt(
                path_bytes(#[trigger] out@[j]),
                path_bytes(#[trigger] out@[i]),
            ) by {
                if i < p && j == p {
                    lemma_lex_total(path_bytes(x), path_bytes(prev[i]));
                } else if i < p && j > p {
                    assert(out@[j] == prev[j - 1]);
                    assert(out@[i] == prev[i]);
                } else if i == p && j > p {
                    assert(out@[j] == prev[j - 1]);
                    if p < prev.len() {
                        assert(lex_lt(path_bytes(x), path_bytes(prev[p as int])));
                        if j - 1 > p {
                            assert(!lex_lt(path_bytes(prev[j - 1]), path_bytes(prev[p as int])));
                            lemma_lex_total(path_bytes(prev[j - 1]), path_bytes(prev[p as int]));
                            if lex_lt(path_bytes(prev[j - 1]), path_bytes(x)) {
                                lemma_lex_transitive(
                                    path_bytes(prev[j - 1]),
                                    path_bytes(x),
                                    path_bytes(prev[p as int]),
                                );
                            }
                        }
                        lemma_lex_total(path_bytes(prev[j - 1]), path_bytes(x));
                    }
                } else if i > p {
                    assert(out@[j] == prev[j - 1]);
                    assert(out@[i] == prev[i - 1]);
                } else {
                    assert(out@[j] == prev[j]);
                    assert(out@[i] == prev[i]);
                }
            }
            assert(out@.remove(p as int) =~= prev);
            assert(out@.to_multiset() =~= prev.to_multiset().insert(x));
        }
    }
    out
}

/// The listing of a directory from its enumerated entries: entries that
/// could not be read are skipped with their message kept, hidden ones are
/// left out unless `show_hidden`, and the rest are ordered by path.
pub fn list_entries(items: Vec<Result<DirItem, String>>, show_hidden: bool) -> (r: Listing)
    ensures
        sorted_by_path(r.files@),
        r.files@.to_multiset() == shown(items@, show_hidden).to_multiset(),
        names_view(r.skipped@) == failures(items@),
{
    let ghost all = items@;
    let mut kept: Vec<FileRef> = Vec::new();
    let mut skipped: Vec<String> = Vec::new();
    for item in it: items
        invariant
            it.seq() == all,
            kept@ == shown(all.subrange(0, it.index() as int), show_hidden),
            names_view(skipped@) == failures(all.subrange(0, it.index() as int)),
    {
        let ghost i = it.index() as int;
        assert(item == all[i]);
        assert(all.subrange(0, i + 1).drop_last() =~= all.subrange(0, i));
        match item {
            Ok(entry) => {
                let hidden = entry.name.len() > 0 && entry.name[0] == 0x2e;
                if show_hidden || !hidden {
                    kept.push(entry.file);
                }
            },
            Err(e) => {
                let ghost prev = names_view(skipped@);
                skipped.push(e);
                assert(names_view(skipped@) =~= prev.push(all[i]->Err_0@));
            },
        }
    }
    assert(all.subrange(0, all.len() as int) =~= all);
    let files = sort_by_path(kept);
    Listing { files, skipped }
}

} // verus!
