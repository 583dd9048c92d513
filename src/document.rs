//! Loading a document from raw bytes and saving it back to bytes in its
//! recorded line-ending style.
use crate::buffer::{line_count, line_text, rope_from_str, rope_text};
use crate::encoding::{
    lemma_encode_concat, lemma_encode_cr_crlf, lemma_encode_line_endings, lemma_encode_no_bare_lf,
    lemma_encode_separator, separator_bytes,
};
use crate::line_ending::{
    detect_line_ending, detected_style, ends_with_lf, has_bare_lf, has_cr_crlf_bytes, has_crlf,
    has_trailing_newline, LineEnding,
};
use crate::text::{
    content_lines, drop_cr_before_lf, expand, has_cr_crlf, has_crlf_chars, join_lines,
    lemma_drop_identity, lemma_drop_keeps, lemma_drop_last, lemma_expand_append, lemma_expand_lf, lemma_join_split,
    lemma_join_take_step, lemma_last_segment, lemma_no_crlf_after_drop, lemma_normalize_identity,
    lemma_normalize_keeps, lemma_normalize_last, lemma_normalize_no_crlf, lemma_restore_crlf,
    lemma_saved_text_expands, lemma_split_lines_len, normalize,
    normalize_line_endings, remove_cr_before_lf, saved_text, separator, split_lines,
};
use ropey::Rope;
use vstd::prelude::*;
use vstd::slice::slice_to_vec;
use vstd::utf8::{decode_utf8, decode_utf8_encode_utf8, encode_utf8, valid_utf8};

verus! {

/// The text that lossy UTF-8 decoding makes of the bytes `b`.
pub uninterp spec fn lossy_of(b: Seq<u8>) -> Seq<char>;

/// Relies on `String::from_utf8_lossy`: valid UTF-8 decodes as it stands;
/// otherwise each invalid sequence becomes U+FFFD, the replacement character.
/// A line-feed byte is never part of an invalid sequence, so it stays a line
/// feed.
#[verifier::external_body]
fn decode_lossy(bytes: &[u8]) -> (r: Vec<char>)
    ensures
        r@ == lossy_of(bytes@),
        valid_utf8(bytes@) ==> r@ == decode_utf8(bytes@),
        !valid_utf8(bytes@) ==> r@.contains('\u{FFFD}'),
        bytes@.len() > 0 && bytes@.last() == 10u8 ==> r@.len() > 0 && r@.last() == '\n',
{
    String::from_utf8_lossy(bytes).chars().collect()
}

/// Relies on `String`'s `FromIterator<char>`: the string holds exactly the
/// collected characters.
#[verifier::external_body]
fn string_from_chars(v: &Vec<char>) -> (s: String)
    ensures
        s@ == v@,
{
    v.iter().collect()
}

/// Builds a document from the raw bytes of a file: the line-ending style and
/// trailing-newline state of the bytes, and a buffer holding the lossily
/// decoded text with every CR-LF pair rewritten to a line feed, and then every
/// carriage return left before a line feed dropped. The buffer never holds a
/// CR-LF pair, and its last line is empty when the bytes end with a line
/// terminator. Never fails.
pub fn load_from_bytes(bytes: &[u8]) -> (r: (Rope, LineEnding, bool))
    ensures
        r.1 == detected_style(bytes@),
        r.2 == ends_with_lf(bytes@),
        rope_text(r.0) == drop_cr_before_lf(normalize(lossy_of(bytes@))),
        valid_utf8(bytes@) ==> rope_text(r.0) == drop_cr_before_lf(
            normalize(decode_utf8(bytes@)),
        ),
        !has_crlf_chars(rope_text(r.0)),
        r.2 ==> split_lines(rope_text(r.0)).last().len() == 0,
        !valid_utf8(bytes@) ==> rope_text(r.0).contains('\u{FFFD}'),
{
    let ending = detect_line_ending(bytes);
    let trailing = has_trailing_newline(bytes);
    let decoded = decode_lossy(bytes);
    let normalized = normalize_line_endings(&decoded);
    let text = remove_cr_before_lf(&normalized);
    proof {
        lemma_no_crlf_after_drop(normalized@);
        if !valid_utf8(bytes@) {
            let i = choose|i: int| 0 <= i < decoded@.len() && decoded@[i] == '\u{FFFD}';
            lemma_normalize_keeps(decoded@, i);
            let j = choose|j: int| 0 <= j < normalized@.len() && normalized@[j] == '\u{FFFD}';
            lemma_drop_keeps(normalized@, j);
        }
        if trailing {
            lemma_normalize_last(decoded@);
            lemma_drop_last(normalized@);
        }
        lemma_last_segment(text@);
    }
    let s = string_from_chars(&text);
    let rope = rope_from_str(s.as_str());
    (rope, ending, trailing)
}

/// Appends the separator of style `e`.
fn push_separator(out: &mut Vec<char>, e: LineEnding)
    ensures
        final(out)@ == old(out)@ + separator(e),
{
    match e {
        LineEnding::Crlf => {
            out.push('\r');
            out.push('\n');
        },
        LineEnding::Lf => {
            out.push('\n');
        },
    }
    assert(final(out)@ =~= old(out)@ + separator(e));
}

/// The bytes that saving the buffer in style `ending` writes: the UTF-8
/// encoding of the buffer's content lines joined by the style's separator,
/// with one more separator at the end exactly when `trailing` holds; nothing
/// at all for an empty buffer.
pub fn save_to_bytes(rope: &Rope, ending: LineEnding, trailing: bool) -> (r: Vec<u8>)
    ensures
        r@ == encode_utf8(saved_text(rope_text(*rope), ending, trailing)),
{
    let ghost t = rope_text(*rope);
    let ghost ls = split_lines(t);
    let ghost sep = separator(ending);
    let n = line_count(rope);
    proof {
        lemma_split_lines_len(t);
        lemma_last_segment(t);
        lemma_join_split(t, seq!['\n']);
        lemma_expand_lf(t);
    }
    let last = line_text(rope, n - 1);
    if n == 1 && last.len() == 0 {
        assert(t.len() == 0);
        assert(encode_utf8(Seq::<char>::empty()) =~= Seq::<u8>::empty());
        return Vec::new();
    }
    let m = if trailing && last.len() == 0 {
        n - 1
    } else {
        n
    };
    assert(content_lines(t, trailing) =~= ls.take(m as int));
    let mut out: Vec<char> = Vec::new();
    let mut i: usize = 0;
    assert(ls.take(0) =~= Seq::<Seq<char>>::empty());
    while i < m
        invariant
            i <= m <= n,
            n == ls.len(),
            ls == split_lines(rope_text(*rope)),
            sep == separator(ending),
            out@ == join_lines(ls.take(i as int), sep),
        decreases m - i,
    {
        proof {
            lemma_join_take_step(ls, i as int, sep);
        }
        if i > 0 {
            push_separator(&mut out, ending);
        }
        let mut line = line_text(rope, i);
        out.append(&mut line);
        i = i + 1;
    }
    if trailing {
        push_separator(&mut out, ending);
    } else {
        assert(out@ + Seq::<char>::empty() =~= out@);
    }
    let s = string_from_chars(&out);
    slice_to_vec(s.as_str().as_bytes())
}

/// Loaded text, with each line feed expanded to the detected separator, is
/// the decoded text again, when the bytes are valid UTF-8 with unmixed line
/// endings and no carriage return directly before a CR-LF pair.
proof fn lemma_expand_loaded(c: Seq<u8>)
    requires
        valid_utf8(c),
        has_crlf(c) ==> !has_bare_lf(c),
        !has_cr_crlf_bytes(c),
    ensures
        expand(drop_cr_before_lf(normalize(decode_utf8(c))), separator(detected_style(c)))
            == decode_utf8(c),
        ends_with_lf(c) == (drop_cr_before_lf(normalize(decode_utf8(c))).len() > 0
            && drop_cr_before_lf(normalize(decode_utf8(c))).last() == '\n'),
        encode_utf8(decode_utf8(c)) == c,
{
    let d = decode_utf8(c);
    let t = normalize(d);
    decode_utf8_encode_utf8(c);
    if has_cr_crlf(d) {
        lemma_encode_cr_crlf(d);
    }
    if has_crlf(c) {
        lemma_encode_no_bare_lf(d);
    }
    lemma_normalize_no_crlf(d);
    lemma_drop_identity(t);
    lemma_encode_line_endings(d);
    if d.len() > 0 {
        lemma_normalize_last(d);
    }
    if has_crlf(c) {
        lemma_restore_crlf(d);
    } else {
        lemma_normalize_identity(d);
        lemma_expand_lf(d);
    }
}

/// Round trip: loading bytes and saving the unedited buffer with the detected
/// style and trailing state gives back the same bytes. This holds for either
/// style and either trailing state when the bytes are valid UTF-8 and their
/// line endings are not mixed, that is where a CR-LF pair occurs every line
/// feed follows a carriage return, and no carriage return stands directly
/// before a CR-LF pair.
pub proof fn lemma_round_trip(c: Seq<u8>)
    requires
        valid_utf8(c),
        has_crlf(c) ==> !has_bare_lf(c),
        !has_cr_crlf_bytes(c),
    ensures
        encode_utf8(
            saved_text(
                drop_cr_before_lf(normalize(decode_utf8(c))),
                detected_style(c),
                ends_with_lf(c),
            ),
        ) == c,
{
    let t = drop_cr_before_lf(normalize(decode_utf8(c)));
    lemma_expand_loaded(c);
    lemma_saved_text_expands(t, detected_style(c));
}

/// Editing then saving: appending text without line feeds to the buffer
/// loaded from bytes that end with a line terminator, and saving with the
/// recorded style and trailing state, writes the bytes, then the appended
/// text, then one separator of the recorded style. This holds for bytes as in
/// the round trip.
pub proof fn lemma_edit_then_save(c: Seq<u8>, s: Seq<char>)
    requires
        valid_utf8(c),
        has_crlf(c) ==> !has_bare_lf(c),
        !has_cr_crlf_bytes(c),
        ends_with_lf(c),
        s.len() > 0,
        forall|i: int| 0 <= i < s.len() ==> #[trigger] s[i] != '\n',
    ensures
        encode_utf8(
            saved_text(
                drop_cr_before_lf(normalize(decode_utf8(c))) + s,
                detected_style(c),
                ends_with_lf(c),
            ),
        ) == c + encode_utf8(s) + separator_bytes(detected_style(c)),
{
    let e = detected_style(c);
    let sep = separator(e);
    let d = decode_utf8(c);
    let t = drop_cr_before_lf(normalize(d));
    let u = t + s;
    lemma_expand_loaded(c);
    assert(u.drop_last().push(u.last()) =~= u);
    lemma_append_then_save(u.drop_last(), u.last(), e);
    lemma_expand_append(t, s, sep);
    lemma_encode_concat(d + s, sep);
    lemma_encode_concat(d, s);
    lemma_encode_separator(e);
}

/// Once a character other than a line feed has been appended to any text,
/// saving with a trailing newline writes every line feed as the recorded
/// separator and ends with exactly one separator.
pub proof fn lemma_append_then_save(t: Seq<char>, c: char, e: LineEnding)
    requires
        c != '\n',
    ensures
        saved_text(t.push(c), e, true) == expand(t.push(c), separator(e)) + separator(e),
{
    lemma_join_split(t.push(c), separator(e));
}

} // verus!
