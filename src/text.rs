use vstd::prelude::*;

use crate::annotations::names_view;

verus! {

/// The characters with the Unicode `White_Space` property, which
/// `char::is_whitespace` and `str::trim` also go by.
pub open spec fn is_white_space(c: char) -> bool {
    let u = c as u32;
    ||| 0x9 <= u <= 0xd
    ||| u == 0x20
    ||| u == 0x85
    ||| u == 0xa0
    ||| u == 0x1680
    ||| 0x2000 <= u <= 0x200a
    ||| u == 0x2028
    ||| u == 0x2029
    ||| u == 0x202f
    ||| u == 0x205f
    ||| u == 0x3000
}

pub open spec fn trim_start(s: Seq<char>) -> Seq<char>
    decreases s.len(),
{
    if s.len() > 0 && is_white_space(s[0]) {
        trim_start(s.drop_first())
    } else {
        s
    }
}

pub open spec fn trim_end(s: Seq<char>) -> Seq<char>
    decreases s.len(),
{
    if s.len() > 0 && is_white_space(s.last()) {
        trim_end(s.drop_last())
    } else {
        s
    }
}

/// `s` without its leading and trailing white space.
pub open spec fn trimmed(s: Seq<char>) -> Seq<char> {
    trim_end(trim_start(s))
}

/// The pieces of `s` between commas, as `str::split(',')` gives them: one
/// piece more than there are commas, empty pieces included.
pub open spec fn comma_pieces(s: Seq<char>) -> Seq<Seq<char>>
    decreases s.len(),
{
    if s.len() == 0 {
        seq![Seq::empty()]
    } else {
        let prev = comma_pieces(s.drop_last());
        if s.last() == ',' {
            prev.push(Seq::empty())
        } else {
            prev.update(prev.len() - 1, prev.last().push(s.last()))
        }
    }
}

/// The trimmed pieces that are not empty, in order.
pub open spec fn tag_names(pieces: Seq<Seq<char>>) -> Seq<Seq<char>>
    decreases pieces.len(),
{
    if pieces.len() == 0 {
        Seq::empty()
    } else {
        let prev = tag_names(pieces.drop_last());
        let t = trimmed(pieces.last());
        if t.len() > 0 {
            prev.push(t)
        } else {
            prev
        }
    }
}

pub fn is_white_space_char(c: char) -> (r: bool)
    ensures
        r == is_white_space(c),
{
    let u = c as u32;
    (0x9 <= u && u <= 0xd) || u == 0x20 || u == 0x85 || u == 0xa0 || u == 0x1680 || (0x2000 <= u
        && u <= 0x200a) || u == 0x2028 || u == 0x2029 || u == 0x202f || u == 0x205f || u == 0x3000
}

/// `s` with leading and trailing white space removed.
pub fn trim(s: &str) -> (r: String)
    ensures
        r@ == trimmed(s@),
{
    let n = s.unicode_len();
    let mut start: usize = 0;
    assert(s@.subrange(0, n as int) =~= s@);
    while start < n && is_white_space_char(s.get_char(start))
        invariant
            start <= n,
            n == s@.len(),
            trim_start(s@) == trim_start(s@.subrange(start as int, n as int)),
        decreases n - start,
    {
        assert(s@.subrange(start as int, n as int).drop_first() =~= s@.subrange(
            start + 1,
            n as int,
        ));
        start = start + 1;
    }
    let ghost front = s@.subrange(start as int, n as int);
    assert(trim_start(s@) == front);
    let mut end: usize = n;
    while end > start && is_white_space_char(s.get_char(end - 1))
        invariant
            start <= end <= n,
            n == s@.len(),
            front == s@.subrange(start as int, n as int),
            trim_end(front) == trim_end(s@.subrange(start as int, end as int)),
        decreases end - start,
    {
        assert(s@.subrange(start as int, end as int).drop_last() =~= s@.subrange(
            start as int,
            end - 1,
        ));
        end = end - 1;
    }
    s.substring_char(start, end).to_owned()
}

/// The pieces of `s` between commas, empty ones included.
pub fn split_commas(s: &str) -> (r: Vec<String>)
    ensures
        names_view(r@) == comma_pieces(s@),
{
    let n = s.unicode_len();
    let mut out: Vec<String> = Vec::new();
    let mut piece_start: usize = 0;
    let mut i: usize = 0;
    assert(s@.subrange(0, 0) =~= Seq::<char>::empty());
    while i < n
        invariant
            n == s@.len(),
            piece_start <= i <= n,
            comma_pieces(s@.subrange(0, i as int)) == names_view(out@).push(
                s@.subrange(piece_start as int, i as int),
            ),
        decreases n - i,
    {
        let ghost prefix = s@.subrange(0, i + 1);
        assert(prefix.drop_last() =~= s@.subrange(0, i as int));
        if s.get_char(i) == ',' {
            let ghost prev = names_view(out@);
            out.push(s.substring_char(piece_start, i).to_owned());
            assert(names_view(out@) =~= prev.push(s@.subrange(piece_start as int, i as int)));
            piece_start = i + 1;
            assert(s@.subrange(piece_start as int, i + 1) =~= Seq::<char>::empty());
        } else {
            assert(s@.subrange(piece_start as int, i + 1) =~= s@.subrange(
                piece_start as int,
                i as int,
            ).push(s@[i as int]));
        }
        i = i + 1;
    }
    let ghost prev = names_view(out@);
    out.push(s.substring_char(piece_start, n).to_owned());
    assert(names_view(out@) =~= prev.push(s@.subrange(piece_start as int, n as int)));
    assert(s@.subrange(0, n as int) =~= s@);
    out
}

/// The tag names of a comma-separated submission: each piece trimmed, empty
/// ones dropped. Names keep their case.
pub fn split_tags(input: &str) -> (r: Vec<String>)
    ensures
        names_view(r@) == tag_names(comma_pieces(input@)),
{
    let pieces = split_commas(input);
    let ghost all = names_view(pieces@);
    let mut out: Vec<String> = Vec::new();
    let mut i: usize = 0;
    while i < pieces.len()
        invariant
            i <= pieces.len(),
            all == names_view(pieces@),
            names_view(out@) == tag_names(all.subrange(0, i as int)),
        decreases pieces.len() - i,
    {
        assert(all.subrange(0, i + 1).drop_last() =~= all.subrange(0, i as int));
        let t = trim(pieces[i].as_str());
        if t.unicode_len() > 0 {
            let ghost prev = names_view(out@);
            out.push(t);
            assert(names_view(out@) =~= prev.push(trimmed(all[i as int])));
        }
        i = i + 1;
    }
    assert(all.subrange(0, pieces.len() as int) =~= all);
    out
}

/// What a search field asks for: the entries of a directory, or the entries
/// that carry a tag.
#[derive(Debug)]
pub enum Query {
    Path(String),
    Tag(String),
}

pub open spec fn tag_sigil() -> Seq<char> {
    seq!['t', 'a', 'g', ':']
}

/// Input of the form `tag:<name>` with a non-empty remainder.
pub open spec fn names_tag(input: Seq<char>) -> bool {
    input.len() > 4 && input.subrange(0, 4) == tag_sigil()
}

impl Query {
    /// `tag:<name>` asks for the entries tagged with `<name>` trimmed; any
    /// other input names a directory, kept as given.
    pub fn parse(input: &str) -> (r: Query)
        ensures
            names_tag(input@) ==> r is Tag && r->Tag_0@ == trimmed(
                input@.subrange(4, input@.len() as int),
            ),
            !names_tag(input@) ==> r is Path && r->Path_0@ == input@,
    {
        let n = input.unicode_len();
        if n > 4 && input.get_char(0) == 't' && input.get_char(1) == 'a' && input.get_char(2) == 'g'
            && input.get_char(3) == ':' {
            assert(input@.subrange(0, 4) =~= tag_sigil());
            Query::Tag(trim(input.substring_char(4, n)))
        } else {
            proof {
                if names_tag(input@) {
                    assert(input@.subrange(0, 4)[0] == input@[0]);
                    assert(input@.subrange(0, 4)[1] == input@[1]);
                    assert(input@.subrange(0, 4)[2] == input@[2]);
                    assert(input@.subrange(0, 4)[3] == input@[3]);
                }
            }
            Query::Path(input.to_owned())
        }
    }
}

} // verus!
