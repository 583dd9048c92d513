//! The text buffer: a `ropey::Rope` holding line-feed-only text, reached
//! through a few trusted wrappers and modelled by the characters it holds.
use crate::text::{count_lf, lemma_split_lines_len, split_lines};
use ropey::Rope;
use vstd::prelude::*;

verus! {

#[verifier::external_type_specification]
#[verifier::external_body]
pub struct ExRope(Rope);

/// The characters that a rope holds, in order.
pub uninterp spec fn rope_text(r: Rope) -> Seq<char>;

/// Relies on `ropey::Rope::from_str`: the new rope holds exactly the given text.
#[verifier::external_body]
pub(crate) fn rope_from_str(text: &str) -> (r: Rope)
    ensures
        rope_text(r) == text@,
{
    Rope::from_str(text)
}

/// Relies on `ropey::Rope::len_lines`: one more than the number of line
/// breaks. With ropey's `unicode_lines` and `cr_lines` features off, the line
/// feed is the only line break.
#[verifier::external_body]
fn rope_len_lines(r: &Rope) -> (n: usize)
    ensures
        n == count_lf(rope_text(*r)) + 1,
{
    r.len_lines()
}

/// Relies on `ropey::Rope::line`: line `i` of the rope, with the line feed
/// that ends it when it is not the last line. It panics for `i >= len_lines()`.
#[verifier::external_body]
fn rope_line(r: &Rope, i: usize) -> (v: Vec<char>)
    requires
        i < count_lf(rope_text(*r)) + 1,
    ensures
        v@ == split_lines(rope_text(*r))[i as int] + if i + 1 < count_lf(rope_text(*r)) + 1 {
            seq!['\n']
        } else {
            Seq::<char>::empty()
        },
{
    r.line(i).chars().collect()
}

/// Relies on `ropey::Rope::len_chars`: the number of characters in the rope.
#[verifier::external_body]
fn rope_len_chars(r: &Rope) -> (n: usize)
    ensures
        n == rope_text(*r).len(),
{
    r.len_chars()
}

/// Relies on `ropey::Rope::insert`: `text` goes in before the character at
/// `char_idx`. It panics for `char_idx > len_chars()`.
#[verifier::external_body]
fn rope_insert(r: &mut Rope, char_idx: usize, text: &str)
    requires
        char_idx <= rope_text(*old(r)).len(),
    ensures
        rope_text(*final(r)) == rope_text(*old(r)).take(char_idx as int) + text@ + rope_text(
            *old(r),
        ).skip(char_idx as int),
{
    r.insert(char_idx, text)
}

/// The number of characters in the buffer.
pub fn char_count(rope: &Rope) -> (n: usize)
    ensures
        n == rope_text(*rope).len(),
{
    rope_len_chars(rope)
}

/// Inserts `text` into the buffer before the character at `char_idx`.
pub fn insert_text(rope: &mut Rope, char_idx: usize, text: &str)
    requires
        char_idx <= rope_text(*old(rope)).len(),
    ensures
        rope_text(*final(rope)) == rope_text(*old(rope)).take(char_idx as int) + text@
            + rope_text(*old(rope)).skip(char_idx as int),
{
    rope_insert(rope, char_idx, text);
}

/// The number of lines of the buffer: its line-feed-delimited segments,
/// counting the empty one after a final line feed.
pub fn line_count(rope: &Rope) -> (n: usize)
    ensures
        n == split_lines(rope_text(*rope)).len(),
{
    proof {
        lemma_split_lines_len(rope_text(*rope));
    }
    rope_len_lines(rope)
}

/// Line `i` of the buffer without its line feed.
pub fn line_text(rope: &Rope, i: usize) -> (v: Vec<char>)
    requires
        i < split_lines(rope_text(*rope)).len(),
    ensures
        v@ == split_lines(rope_text(*rope))[i as int],
{
    proof {
        lemma_split_lines_len(rope_text(*rope));
    }
    let n = rope_len_lines(rope);
    let mut v = rope_line(rope, i);
    if i + 1 < n {
        v.pop();
        assert(v@ =~= split_lines(rope_text(*rope))[i as int]);
    } else {
        assert(v@ =~= split_lines(rope_text(*rope))[i as int]);
    }
    v
}

} // verus!
