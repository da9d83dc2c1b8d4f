use vstd::prelude::*;

use crate::entry::strings_view;

verus! {

/// Unicode's `White_Space` property: the characters that trimming removes.
pub open spec fn is_white_space(c: char) -> bool {
    let u = c as u32;
    (0x9 <= u && u <= 0xD) || u == 0x20 || u == 0x85 || u == 0xA0 || u == 0x1680
        || (0x2000 <= u && u <= 0x200A) || u == 0x2028 || u == 0x2029 || u == 0x202F
        || u == 0x205F || u == 0x3000
}

/// `s` without its leading white space.
pub open spec fn trim_start(s: Seq<char>) -> Seq<char>
    decreases s.len(),
{
    if s.len() > 0 && is_white_space(s[0]) {
        trim_start(s.drop_first())
    } else {
        s
    }
}

/// `s` without its trailing white space.
pub open spec fn trim_end(s: Seq<char>) -> Seq<char>
    decreases s.len(),
{
    if s.len() > 0 && is_white_space(s.last()) {
        trim_end(s.drop_last())
    } else {
        s
    }
}

/// `s` without white space at either end.
pub open spec fn trimmed(s: Seq<char>) -> Seq<char> {
    trim_end(trim_start(s))
}

/// The pieces of `s` between commas, in order; `s` without a comma is one piece.
pub open spec fn split_commas(s: Seq<char>) -> Seq<Seq<char>>
    decreases s.len(),
{
    if s.len() == 0 {
        seq![Seq::empty()]
    } else {
        let pieces = split_commas(s.drop_last());
        if s.last() == ',' {
            pieces.push(Seq::empty())
        } else {
            pieces.update(pieces.len() - 1, pieces.last().push(s.last()))
        }
    }
}

/// What the standard library's lower-casing makes of a string.
pub uninterp spec fn lower_of(s: Seq<char>) -> Seq<char>;

/// The stored form of one piece of tag input: trimmed, then lower-cased.
pub open spec fn tag_form(piece: Seq<char>) -> Seq<char> {
    lower_of(trimmed(piece))
}

/// The tags that a list of pieces gives: each in its stored form, those that
/// come out empty dropped, order and repeats kept.
pub open spec fn tags_of_pieces(pieces: Seq<Seq<char>>) -> Seq<Seq<char>>
    decreases pieces.len(),
{
    if pieces.len() == 0 {
        seq![]
    } else {
        let kept = tags_of_pieces(pieces.drop_last());
        let t = tag_form(pieces.last());
        if t.len() > 0 {
            kept.push(t)
        } else {
            kept
        }
    }
}

/// The tags that a comma-separated tag input gives.
pub open spec fn normalized_tags(input: Seq<char>) -> Seq<Seq<char>> {
    tags_of_pieces(split_commas(input))
}

/// Relies on `str::split` with a `char` pattern: the pieces between commas, in
/// order, as owned strings.
#[verifier::external_body]
fn split_on_commas(s: &str) -> (r: Vec<String>)
    ensures
        strings_view(r@) == split_commas(s@),
{
    s.split(',').map(|p| p.to_string()).collect()
}

/// Relies on `str::trim`: white space in Unicode's sense removed at both ends.
#[verifier::external_body]
fn trim_white_space(s: &str) -> (r: String)
    ensures
        r@ == trimmed(s@),
{
    s.trim().to_string()
}

/// Relies on `str::to_lowercase`: the result depends on the characters alone.
#[verifier::external_body]
fn lowercase(s: &str) -> (r: String)
    ensures
        r@ == lower_of(s@),
{
    s.to_lowercase()
}

/// The stored form of one piece of tag input.
pub fn normalize_tag(piece: &str) -> (r: String)
    ensures
        r@ == tag_form(piece@),
{
    let t = trim_white_space(piece);
    lowercase(t.as_str())
}

/// Keeps, in order, the stored form of each piece that does not come out
/// empty. This is the part of tag normalisation after the split.
pub fn tags_from_pieces(pieces: &Vec<String>) -> (r: Vec<String>)
    ensures
        strings_view(r@) == tags_of_pieces(strings_view(pieces@)),
{
    let mut r: Vec<String> = Vec::new();
    let mut i: usize = 0;
    while i < pieces.len()
        invariant
            i <= pieces@.len(),
            strings_view(r@) == tags_of_pieces(strings_view(pieces@).subrange(0, i as int)),
        decreases pieces@.len() - i,
    {
        let ghost prev = r@;
        let t = normalize_tag(pieces[i].as_str());
        let ghost sub = strings_view(pieces@).subrange(0, i + 1);
        assert(sub.drop_last() =~= strings_view(pieces@).subrange(0, i as int));
        assert(sub.last() == pieces@[i as int]@);
        if !t.as_str().is_empty() {
            r.push(t);
            assert(strings_view(r@) =~= strings_view(prev).push(t@));
        } else {
            assert(t@.len() == 0);
        }
        i = i + 1;
    }
    assert(strings_view(pieces@).subrange(0, pieces@.len() as int) =~= strings_view(pieces@));
    r
}

/// Turns a comma-separated tag input into tags: each piece trimmed and
/// lower-cased, empty ones dropped, order and repeats kept.
pub fn normalize_tags(input: &str) -> (r: Vec<String>)
    ensures
        strings_view(r@) == normalized_tags(input@),
{
    let pieces = split_on_commas(input);
    tags_from_pieces(&pieces)
}

} // verus!
