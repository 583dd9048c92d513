//! How the line-ending facts of UTF-8 bytes carry over to the characters
//! that the bytes encode: carriage return and line feed are single bytes,
//! and no byte of a multi-byte character is below 0x80.
use crate::line_ending::{ends_with_lf, has_bare_lf, has_cr_crlf_bytes, has_crlf, lf_after_other};
use crate::line_ending::LineEnding;
use crate::text::{has_cr_crlf, has_crlf_chars, lf_only_after_cr, separator};
use vstd::prelude::*;
use vstd::utf8::{char_is_scalar, encode_scalar, encode_utf8};

verus! {

/// No carriage return, no CR-LF pair.
proof fn lemma_no_cr_no_crlf(b: Seq<u8>)
    requires
        forall|k: int| 0 <= k < b.len() ==> #[trigger] b[k] != 13u8,
    ensures
        !has_crlf(b),
    decreases b.len(),
{
    if b.len() > 0 {
        lemma_no_cr_no_crlf(b.drop_first());
    }
}

/// A CR-LF pair of two joined byte sequences lies in one of them or across
/// the joint.
proof fn lemma_has_crlf_concat(x: Seq<u8>, y: Seq<u8>)
    ensures
        has_crlf(x + y) == (has_crlf(x) || has_crlf(y) || (x.len() > 0 && y.len() > 0 && x.last()
            == 13u8 && y[0] == 10u8)),
    decreases x.len(),
{
    if x.len() == 1 {
        assert((x + y).drop_first() =~= y);
    } else if x.len() > 1 {
        assert((x + y).drop_first() =~= x.drop_first() + y);
        lemma_has_crlf_concat(x.drop_first(), y);
    } else {
        assert(x + y =~= y);
    }
}

/// The encoding of one character: a carriage return or line feed is its
/// own single byte, and no other character's encoding holds either byte.
proof fn lemma_encode_char(c: char)
    ensures
        encode_scalar(c as u32).len() >= 1,
        !has_crlf(encode_scalar(c as u32)),
        encode_scalar(c as u32)[0] == 10u8 <==> c == '\n',
        encode_scalar(c as u32).last() == 10u8 <==> c == '\n',
        encode_scalar(c as u32).last() == 13u8 <==> c == '\r',
        c == '\r' ==> encode_scalar(c as u32) == seq![13u8],
        c == '\n' ==> encode_scalar(c as u32) == seq![10u8],
        !lf_after_other(encode_scalar(c as u32)),
{
    char_is_scalar(c);
    let v = c as u32;
    let e = encode_scalar(v);
    assert(forall|x: u8| #[trigger] (0x80u8 | x) >= 0x80u8) by (bit_vector);
    assert(forall|x: u8| #[trigger] (0xC0u8 | x) >= 0x80u8) by (bit_vector);
    assert(forall|x: u8| #[trigger] (0xE0u8 | x) >= 0x80u8) by (bit_vector);
    assert(forall|x: u8| #[trigger] (0xF0u8 | x) >= 0x80u8) by (bit_vector);
    if v <= 0x7F {
        assert((v & 0x7F) == v) by (bit_vector)
            requires
                v <= 0x7F,
        ;
        assert(e[0] == v as u8);
        assert(('\n' as u32) == 10u32);
        assert(('\r' as u32) == 13u32);
        assert(v == 10 ==> c == '\n');
        assert(v == 13 ==> c == '\r');
    } else {
        assert(forall|k: int| 0 <= k < e.len() ==> #[trigger] e[k] >= 0x80u8);
        assert(c != '\n' && c != '\r');
    }
    if v > 0x7F {
        lemma_no_cr_no_crlf(e);
        lemma_no_lf_no_pair(e);
    } else {
        assert(e =~= seq![v as u8]);
    }
}

/// CR-LF pairs, a leading line feed and a trailing line feed are the same in
/// characters and in their UTF-8 encoding.
pub proof fn lemma_encode_line_endings(d: Seq<char>)
    ensures
        has_crlf(encode_utf8(d)) == has_crlf_chars(d),
        ends_with_lf(encode_utf8(d)) == (d.len() > 0 && d.last() == '\n'),
        d.len() > 0 ==> encode_utf8(d).len() > 0 && (encode_utf8(d)[0] == 10u8 <==> d[0]
            == '\n'),
    decreases d.len(),
{
    if d.len() > 0 {
        let e = encode_scalar(d[0] as u32);
        let rest = d.drop_first();
        let y = encode_utf8(rest);
        lemma_encode_char(d[0]);
        lemma_encode_line_endings(rest);
        lemma_has_crlf_concat(e, y);
        if rest.len() == 0 {
            assert(e + y =~= e);
        } else {
            assert((e + y).last() == y.last());
            assert(d.last() == rest.last());
        }
        assert((e + y)[0] == e[0]);
    }
}

/// No line feed after the first byte, no line feed after another byte.
proof fn lemma_no_lf_no_pair(b: Seq<u8>)
    requires
        forall|k: int| 0 <= k < b.len() ==> #[trigger] b[k] != 10u8,
    ensures
        !lf_after_other(b),
    decreases b.len(),
{
    if b.len() > 0 {
        lemma_no_lf_no_pair(b.drop_first());
    }
}

/// A line feed after another byte in two joined byte sequences lies in one of
/// them or across the joint.
proof fn lemma_lf_after_other_concat(x: Seq<u8>, y: Seq<u8>)
    ensures
        lf_after_other(x + y) == (lf_after_other(x) || lf_after_other(y) || (x.len() > 0 && y.len()
            > 0 && x.last() != 13u8 && y[0] == 10u8)),
    decreases x.len(),
{
    if x.len() == 1 {
        assert((x + y).drop_first() =~= y);
    } else if x.len() > 1 {
        assert((x + y).drop_first() =~= x.drop_first() + y);
        lemma_lf_after_other_concat(x.drop_first(), y);
    } else {
        assert(x + y =~= y);
    }
}

/// Bytes put in front keep a CR-CR-LF run.
proof fn lemma_cr_crlf_suffix(x: Seq<u8>, y: Seq<u8>)
    requires
        has_cr_crlf_bytes(y),
    ensures
        has_cr_crlf_bytes(x + y),
    decreases x.len(),
{
    if x.len() == 0 {
        assert(x + y =~= y);
    } else {
        assert((x + y).drop_first() =~= x.drop_first() + y);
        lemma_cr_crlf_suffix(x.drop_first(), y);
    }
}

/// A line feed that follows another character shows in the encoding as a
/// line-feed byte that follows another byte.
proof fn lemma_encode_lf_after_other(d: Seq<char>)
    requires
        !lf_after_other(encode_utf8(d)),
    ensures
        forall|i: int| 1 <= i < d.len() && #[trigger] d[i] == '\n' ==> d[i - 1] == '\r',
    decreases d.len(),
{
    if d.len() > 0 {
        let e = encode_scalar(d[0] as u32);
        let rest = d.drop_first();
        let y = encode_utf8(rest);
        lemma_encode_char(d[0]);
        lemma_encode_line_endings(rest);
        lemma_lf_after_other_concat(e, y);
        lemma_encode_lf_after_other(rest);
        assert forall|i: int| 1 <= i < d.len() && #[trigger] d[i] == '\n' implies d[i - 1]
            == '\r' by {
            assert(rest[i - 1] == d[i]);
            if i >= 2 {
                assert(rest[i - 2] == d[i - 1]);
            }
        }
    }
}

/// Bytes without a bare line feed encode text whose line feeds all follow a
/// carriage return.
pub proof fn lemma_encode_no_bare_lf(d: Seq<char>)
    requires
        !has_bare_lf(encode_utf8(d)),
    ensures
        lf_only_after_cr(d),
{
    lemma_encode_line_endings(d);
    lemma_encode_lf_after_other(d);
}

/// A CR-CR-LF run of characters is one of bytes in their encoding.
pub proof fn lemma_encode_cr_crlf(d: Seq<char>)
    requires
        has_cr_crlf(d),
    ensures
        has_cr_crlf_bytes(encode_utf8(d)),
    decreases d.len(),
{
    let e = encode_scalar(d[0] as u32);
    let rest = d.drop_first();
    lemma_encode_char(d[0]);
    if d[0] == '\r' && d[1] == '\r' && d[2] == '\n' {
        let rest2 = rest.drop_first();
        lemma_encode_char(rest[0]);
        lemma_encode_line_endings(rest2);
        let b = encode_utf8(d);
        assert(b =~= seq![13u8] + (seq![13u8] + encode_utf8(rest2)));
        assert(b[0] == 13u8 && b[1] == 13u8 && b[2] == 10u8);
    } else {
        lemma_encode_cr_crlf(rest);
        lemma_cr_crlf_suffix(e, encode_utf8(rest));
    }
}

/// The encoding of joined text is the joined encodings.
pub proof fn lemma_encode_concat(a: Seq<char>, b: Seq<char>)
    ensures
        encode_utf8(a + b) == encode_utf8(a) + encode_utf8(b),
    decreases a.len(),
{
    if a.len() == 0 {
        assert(a + b =~= b);
        assert(Seq::<u8>::empty() + encode_utf8(b) =~= encode_utf8(b));
    } else {
        assert((a + b).drop_first() =~= a.drop_first() + b);
        lemma_encode_concat(a.drop_first(), b);
        assert(encode_scalar(a[0] as u32) + (encode_utf8(a.drop_first()) + encode_utf8(b))
            =~= encode_utf8(a) + encode_utf8(b));
    }
}

/// The separator of a style, as bytes.
pub open spec fn separator_bytes(e: LineEnding) -> Seq<u8> {
    match e {
        LineEnding::Crlf => seq![13u8, 10u8],
        LineEnding::Lf => seq![10u8],
    }
}

/// The encoding of a separator is its bytes.
pub proof fn lemma_encode_separator(e: LineEnding)
    ensures
        encode_utf8(separator(e)) == separator_bytes(e),
{
    lemma_encode_char('\r');
    lemma_encode_char('\n');
    let lf = seq!['\n'];
    assert(lf.drop_first() =~= Seq::<char>::empty());
    assert(lf[0] == '\n');
    assert(encode_utf8(lf.drop_first()) =~= Seq::<u8>::empty());
    assert(seq![10u8] + Seq::<u8>::empty() =~= seq![10u8]);
    assert(encode_utf8(lf) =~= seq![10u8]);
    let crlf = seq!['\r', '\n'];
    assert(crlf.drop_first() =~= lf);
    assert(crlf[0] == '\r');
    assert(encode_utf8(crlf) =~= seq![13u8, 10u8]);
}

} // verus!
