use vstd::prelude::*;

verus! {

/// The line-terminator convention of a file.
#[derive(Debug, PartialEq, Eq, Structural, Clone, Copy)]
pub enum LineEnding {
    /// Lines end with a carriage return followed by a line feed.
    Crlf,
    /// Lines end with a bare line feed.
    Lf,
}

/// Somewhere in `b` a carriage return is immediately followed by a line feed.
pub open spec fn has_crlf(b: Seq<u8>) -> bool
    decreases b.len(),
{
    b.len() >= 2 && ((b[0] == 13u8 && b[1] == 10u8) || has_crlf(b.drop_first()))
}

/// The style that the raw bytes `b` are classified as.
pub open spec fn detected_style(b: Seq<u8>) -> LineEnding {
    if has_crlf(b) {
        LineEnding::Crlf
    } else {
        LineEnding::Lf
    }
}

/// The bytes `b` end with a line terminator (a bare line feed or a CR-LF pair).
pub open spec fn ends_with_lf(b: Seq<u8>) -> bool {
    b.len() > 0 && b.last() == 10u8
}

/// Somewhere in `b` a line feed follows a byte other than a carriage return.
pub open spec fn lf_after_other(b: Seq<u8>) -> bool
    decreases b.len(),
{
    b.len() >= 2 && ((b[0] != 13u8 && b[1] == 10u8) || lf_after_other(b.drop_first()))
}

/// Some line feed of `b` does not follow a carriage return.
pub open spec fn has_bare_lf(b: Seq<u8>) -> bool {
    b.len() > 0 && (b[0] == 10u8 || lf_after_other(b))
}

/// Somewhere in `b` two carriage returns are immediately followed by a line
/// feed.
pub open spec fn has_cr_crlf_bytes(b: Seq<u8>) -> bool
    decreases b.len(),
{
    b.len() >= 3 && ((b[0] == 13u8 && b[1] == 13u8 && b[2] == 10u8) || has_cr_crlf_bytes(
        b.drop_first(),
    ))
}

/// Classifies the bytes as CR-LF when any CR-LF pair occurs in them, else as LF.
pub fn detect_line_ending(bytes: &[u8]) -> (r: LineEnding)
    ensures
        r == detected_style(bytes@),
{
    let n = bytes.len();
    let mut i: usize = 0;
    assert(bytes@.subrange(0, n as int) =~= bytes@);
    while i < n && i < n - 1
        invariant
            n == bytes@.len(),
            i <= n,
            has_crlf(bytes@) == has_crlf(bytes@.subrange(i as int, n as int)),
        decreases n - i,
    {
        assert(bytes@.subrange(i as int, n as int).drop_first() =~= bytes@.subrange(
            i + 1,
            n as int,
        ));
        if bytes[i] == 13u8 && bytes[i + 1] == 10u8 {
            return LineEnding::Crlf;
        }
        i = i + 1;
    }
    LineEnding::Lf
}

/// Tells whether the bytes end with a line terminator.
pub fn has_trailing_newline(bytes: &[u8]) -> (r: bool)
    ensures
        r == ends_with_lf(bytes@),
{
    bytes.len() > 0 && bytes[bytes.len() - 1] == 10u8
}

} // verus!
