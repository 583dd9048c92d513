//! The mathematical model of line-feed-only text: normalization, splitting
//! into lines, and re-joining lines with a separator.
use crate::line_ending::LineEnding;
use vstd::prelude::*;

verus! {

/// The characters written between two lines in the given style.
pub open spec fn separator(e: LineEnding) -> Seq<char> {
    match e {
        LineEnding::Crlf => seq!['\r', '\n'],
        LineEnding::Lf => seq!['\n'],
    }
}

/// Somewhere in `s` a carriage return is immediately followed by a line feed.
pub open spec fn has_crlf_chars(s: Seq<char>) -> bool
    decreases s.len(),
{
    s.len() >= 2 && ((s[0] == '\r' && s[1] == '\n') || has_crlf_chars(s.drop_first()))
}

/// Somewhere in `s` two carriage returns are immediately followed by a line feed.
pub open spec fn has_cr_crlf(s: Seq<char>) -> bool
    decreases s.len(),
{
    s.len() >= 3 && ((s[0] == '\r' && s[1] == '\r' && s[2] == '\n') || has_cr_crlf(
        s.drop_first(),
    ))
}

/// Every line feed in `s` is preceded by a carriage return.
pub open spec fn lf_only_after_cr(s: Seq<char>) -> bool {
    forall|i: int| 0 <= i < s.len() && #[trigger] s[i] == '\n' ==> i > 0 && s[i - 1] == '\r'
}

/// `s` with each CR-LF pair, taken from left to right without overlap,
/// rewritten to a single line feed.
pub open spec fn normalize(s: Seq<char>) -> Seq<char>
    decreases s.len(),
{
    if s.len() == 0 {
        seq![]
    } else if s.len() >= 2 && s[0] == '\r' && s[1] == '\n' {
        seq!['\n'] + normalize(s.subrange(2, s.len() as int))
    } else {
        seq![s[0]] + normalize(s.drop_first())
    }
}

/// A line feed comes next in `t`, after nothing but carriage returns.
pub open spec fn lf_after_crs(t: Seq<char>) -> bool
    decreases t.len(),
{
    t.len() > 0 && (t[0] == '\n' || (t[0] == '\r' && lf_after_crs(t.drop_first())))
}

/// `s` without the carriage returns that stand before a line feed, with
/// nothing but carriage returns between: a run of carriage returns followed by
/// a line feed becomes that line feed.
pub open spec fn drop_cr_before_lf(s: Seq<char>) -> Seq<char>
    decreases s.len(),
{
    if s.len() == 0 {
        seq![]
    } else if s[0] == '\r' && lf_after_crs(s.drop_first()) {
        drop_cr_before_lf(s.drop_first())
    } else {
        seq![s[0]] + drop_cr_before_lf(s.drop_first())
    }
}

/// The number of line feeds in `t`.
pub open spec fn count_lf(t: Seq<char>) -> nat
    decreases t.len(),
{
    if t.len() == 0 {
        0
    } else {
        count_lf(t.drop_last()) + if t.last() == '\n' {
            1nat
        } else {
            0nat
        }
    }
}

/// The segments of `t` between line feeds, in order; the line feeds themselves
/// belong to no segment. Text ending in a line feed has an empty last segment.
pub open spec fn split_lines(t: Seq<char>) -> Seq<Seq<char>>
    decreases t.len(),
{
    if t.len() == 0 {
        seq![Seq::empty()]
    } else {
        let prev = split_lines(t.drop_last());
        if t.last() == '\n' {
            prev.push(Seq::empty())
        } else {
            prev.update(prev.len() - 1, prev.last().push(t.last()))
        }
    }
}

/// The lines `ls` with `sep` between every two adjacent ones.
pub open spec fn join_lines(ls: Seq<Seq<char>>, sep: Seq<char>) -> Seq<char>
    decreases ls.len(),
{
    if ls.len() == 0 {
        seq![]
    } else if ls.len() == 1 {
        ls[0]
    } else {
        join_lines(ls.drop_last(), sep) + sep + ls.last()
    }
}

/// `t` with every line feed replaced by `sep`.
pub open spec fn expand(t: Seq<char>, sep: Seq<char>) -> Seq<char>
    decreases t.len(),
{
    if t.len() == 0 {
        seq![]
    } else {
        expand(t.drop_last(), sep) + if t.last() == '\n' {
            sep
        } else {
            seq![t.last()]
        }
    }
}

/// The lines to write: all segments, except that when the text ends with a
/// line feed and `trailing` holds, the empty segment after it stands for the
/// trailing terminator and is not a line of its own.
pub open spec fn content_lines(t: Seq<char>, trailing: bool) -> Seq<Seq<char>> {
    if trailing && t.len() > 0 && t.last() == '\n' {
        split_lines(t).drop_last()
    } else {
        split_lines(t)
    }
}

/// What saving the text `t` in style `e` produces: nothing for empty text,
/// else the lines to write joined by the separator, followed by one more
/// separator exactly when `trailing` holds.
pub open spec fn saved_text(t: Seq<char>, e: LineEnding, trailing: bool) -> Seq<char> {
    if t.len() == 0 {
        seq![]
    } else {
        join_lines(content_lines(t, trailing), separator(e)) + if trailing {
            separator(e)
        } else {
            seq![]
        }
    }
}

/// There is one more segment than there are line feeds.
pub proof fn lemma_split_lines_len(t: Seq<char>)
    ensures
        split_lines(t).len() == count_lf(t) + 1,
    decreases t.len(),
{
    if t.len() > 0 {
        lemma_split_lines_len(t.drop_last());
    }
}

/// Text ends with a line feed exactly when it is non-empty and its last
/// segment is empty.
pub proof fn lemma_last_segment(t: Seq<char>)
    ensures
        split_lines(t).last().len() == 0 <==> (t.len() == 0 || t.last() == '\n'),
{
    if t.len() > 0 {
        lemma_split_lines_len(t.drop_last());
    }
}

/// Joining the segments of `t` with `sep` replaces each line feed by `sep`.
pub proof fn lemma_join_split(t: Seq<char>, sep: Seq<char>)
    ensures
        join_lines(split_lines(t), sep) == expand(t, sep),
    decreases t.len(),
{
    if t.len() > 0 {
        let init = t.drop_last();
        let prev = split_lines(init);
        lemma_split_lines_len(init);
        lemma_join_split(init, sep);
        if t.last() == '\n' {
            assert(prev.push(Seq::empty()).drop_last() =~= prev);
            assert(join_lines(prev, sep) + sep + Seq::<char>::empty() =~= join_lines(prev, sep)
                + sep);
        } else {
            let c = t.last();
            let cur = prev.update(prev.len() - 1, prev.last().push(c));
            if prev.len() == 1 {
                assert(join_lines(cur, sep) =~= join_lines(prev, sep) + seq![c]);
            } else {
                assert(cur.drop_last() =~= prev.drop_last());
                assert(join_lines(cur, sep) =~= join_lines(prev, sep) + seq![c]);
            }
        }
    }
}

/// Joining the first `i + 1` lines adds the separator and line `i` to the
/// join of the first `i`.
pub proof fn lemma_join_take_step(ls: Seq<Seq<char>>, i: int, sep: Seq<char>)
    requires
        0 <= i < ls.len(),
    ensures
        join_lines(ls.take(i + 1), sep) == if i == 0 {
            ls[0]
        } else {
            join_lines(ls.take(i), sep) + sep + ls[i]
        },
{
    assert(ls.take(i + 1).drop_last() =~= ls.take(i));
}

/// Expanding one character followed by more text expands each part.
pub proof fn lemma_expand_prepend(c: char, t: Seq<char>, sep: Seq<char>)
    ensures
        expand(seq![c] + t, sep) == expand(seq![c], sep) + expand(t, sep),
    decreases t.len(),
{
    if t.len() > 0 {
        assert((seq![c] + t).drop_last() =~= seq![c] + t.drop_last());
        lemma_expand_prepend(c, t.drop_last(), sep);
    } else {
        assert(seq![c] + t =~= seq![c]);
    }
}

/// Expanding a single character.
proof fn lemma_expand_single(c: char, sep: Seq<char>)
    ensures
        expand(seq![c], sep) == if c == '\n' {
            sep
        } else {
            seq![c]
        },
{
    let t = seq![c];
    assert(t.drop_last() =~= Seq::<char>::empty());
    assert(expand(t.drop_last(), sep) =~= Seq::<char>::empty());
    assert(Seq::<char>::empty() + sep =~= sep);
    assert(Seq::<char>::empty() + seq![c] =~= seq![c]);
}

/// Expanding text followed by text without line feeds leaves the latter as
/// it is.
pub proof fn lemma_expand_append(t: Seq<char>, s: Seq<char>, sep: Seq<char>)
    requires
        forall|i: int| 0 <= i < s.len() ==> #[trigger] s[i] != '\n',
    ensures
        expand(t + s, sep) == expand(t, sep) + s,
    decreases s.len(),
{
    if s.len() == 0 {
        assert(t + s =~= t);
        assert(expand(t, sep) + s =~= expand(t, sep));
    } else {
        let u = t + s;
        assert(u.drop_last() =~= t + s.drop_last());
        lemma_expand_append(t, s.drop_last(), sep);
        assert(expand(t, sep) + s.drop_last() + seq![s.last()] =~= expand(t, sep) + s);
    }
}

/// Replacing each line feed by a line feed changes nothing.
pub proof fn lemma_expand_lf(t: Seq<char>)
    ensures
        expand(t, seq!['\n']) == t,
    decreases t.len(),
{
    if t.len() > 0 {
        lemma_expand_lf(t.drop_last());
        assert(t.drop_last() + seq![t.last()] =~= t);
    }
}

/// Saving text whose trailing state is that of the text replaces each line
/// feed by the separator.
pub proof fn lemma_saved_text_expands(t: Seq<char>, e: LineEnding)
    ensures
        saved_text(t, e, t.len() > 0 && t.last() == '\n') == expand(t, separator(e)),
{
    let sep = separator(e);
    lemma_join_split(t, sep);
    if t.len() > 0 {
        if t.last() == '\n' {
            lemma_join_split(t.drop_last(), sep);
            assert(split_lines(t).drop_last() =~= split_lines(t.drop_last()));
        } else {
            assert(join_lines(split_lines(t), sep) + Seq::<char>::empty() =~= join_lines(
                split_lines(t),
                sep,
            ));
        }
    }
}

/// Text without a CR-LF pair is left as it is by normalization.
pub proof fn lemma_normalize_identity(s: Seq<char>)
    requires
        !has_crlf_chars(s),
    ensures
        normalize(s) == s,
    decreases s.len(),
{
    if s.len() > 0 {
        lemma_normalize_identity(s.drop_first());
        assert(seq![s[0]] + s.drop_first() =~= s);
    }
}

/// The first character of a normalized text.
proof fn lemma_normalize_first(s: Seq<char>)
    requires
        s.len() > 0,
    ensures
        normalize(s).len() > 0,
        normalize(s)[0] == if s.len() >= 2 && s[0] == '\r' && s[1] == '\n' {
            '\n'
        } else {
            s[0]
        },
{
}

/// Normalization keeps whether non-empty text ends with a line feed.
pub proof fn lemma_normalize_last(s: Seq<char>)
    requires
        s.len() > 0,
    ensures
        normalize(s).len() > 0,
        normalize(s).last() == '\n' <==> s.last() == '\n',
    decreases s.len(),
{
    if s.len() >= 2 && s[0] == '\r' && s[1] == '\n' {
        let rest = s.subrange(2, s.len() as int);
        if rest.len() > 0 {
            lemma_normalize_last(rest);
            assert((seq!['\n'] + normalize(rest)).last() == normalize(rest).last());
        } else {
            assert(seq!['\n'] + normalize(rest) =~= seq!['\n']);
        }
    } else if s.len() > 1 {
        let rest = s.drop_first();
        lemma_normalize_last(rest);
        assert((seq![s[0]] + normalize(rest)).last() == normalize(rest).last());
    } else {
        assert(seq![s[0]] + normalize(s.drop_first()) =~= seq![s[0]]);
    }
}

/// After normalization no CR-LF pair is left, unless the text held a carriage
/// return directly before a CR-LF pair.
pub proof fn lemma_normalize_no_crlf(s: Seq<char>)
    requires
        !has_cr_crlf(s),
    ensures
        !has_crlf_chars(normalize(s)),
    decreases s.len(),
{
    if s.len() >= 2 && s[0] == '\r' && s[1] == '\n' {
        let rest = s.subrange(2, s.len() as int);
        assert(rest =~= s.drop_first().drop_first());
        assert(!has_cr_crlf(s.drop_first()));
        assert(!has_cr_crlf(rest));
        lemma_normalize_no_crlf(rest);
        assert((seq!['\n'] + normalize(rest)).drop_first() =~= normalize(rest));
    } else if s.len() > 0 {
        let rest = s.drop_first();
        lemma_normalize_no_crlf(rest);
        assert((seq![s[0]] + normalize(rest)).drop_first() =~= normalize(rest));
        if rest.len() > 0 {
            lemma_normalize_first(rest);
        }
    }
}

/// Text whose line feeds all follow a carriage return comes back from
/// normalization when each line feed is expanded to CR-LF again.
pub proof fn lemma_restore_crlf(d: Seq<char>)
    requires
        lf_only_after_cr(d),
    ensures
        expand(normalize(d), seq!['\r', '\n']) == d,
    decreases d.len(),
{
    let sep = seq!['\r', '\n'];
    if d.len() >= 2 && d[0] == '\r' && d[1] == '\n' {
        let rest = d.subrange(2, d.len() as int);
        assert forall|i: int| 0 <= i < rest.len() && #[trigger] rest[i] == '\n' implies i > 0
            && rest[i - 1] == '\r' by {
            assert(d[i + 2] == '\n');
        }
        lemma_restore_crlf(rest);
        lemma_expand_prepend('\n', normalize(rest), sep);
        assert(expand(seq!['\n'], sep) =~= sep) by {
            lemma_expand_single('\n', sep);
        }
        assert(sep + rest =~= d);
    } else if d.len() > 0 {
        let rest = d.drop_first();
        assert(d[0] != '\n');
        assert forall|i: int| 0 <= i < rest.len() && #[trigger] rest[i] == '\n' implies i > 0
            && rest[i - 1] == '\r' by {
            assert(d[i + 1] == '\n');
        }
        lemma_restore_crlf(rest);
        lemma_expand_prepend(d[0], normalize(rest), sep);
        assert(expand(seq![d[0]], sep) =~= seq![d[0]]) by {
            lemma_expand_single(d[0], sep);
        }
        assert(seq![d[0]] + rest =~= d);
    }
}

/// A character other than a carriage return or a line feed survives
/// normalization.
pub proof fn lemma_normalize_keeps(s: Seq<char>, i: int)
    requires
        0 <= i < s.len(),
        s[i] != '\r',
        s[i] != '\n',
    ensures
        normalize(s).contains(s[i]),
    decreases s.len(),
{
    if s.len() >= 2 && s[0] == '\r' && s[1] == '\n' {
        let rest = s.subrange(2, s.len() as int);
        assert(rest[i - 2] == s[i]);
        lemma_normalize_keeps(rest, i - 2);
        let j = choose|j: int| 0 <= j < normalize(rest).len() && normalize(rest)[j] == s[i];
        assert((seq!['\n'] + normalize(rest))[j + 1] == s[i]);
    } else if i == 0 {
        assert(normalize(s)[0] == s[i]);
    } else {
        let rest = s.drop_first();
        assert(rest[i - 1] == s[i]);
        lemma_normalize_keeps(rest, i - 1);
        let j = choose|j: int| 0 <= j < normalize(rest).len() && normalize(rest)[j] == s[i];
        assert((seq![s[0]] + normalize(rest))[j + 1] == s[i]);
    }
}

/// No CR-LF pair is left once the carriage returns before line feeds are
/// dropped, whatever the text.
pub proof fn lemma_no_crlf_after_drop(s: Seq<char>)
    ensures
        !has_crlf_chars(drop_cr_before_lf(s)),
    decreases s.len(),
{
    if s.len() > 0 {
        let rest = s.drop_first();
        let x = drop_cr_before_lf(rest);
        lemma_no_crlf_after_drop(rest);
        if !(s[0] == '\r' && lf_after_crs(rest)) {
            assert((seq![s[0]] + x).drop_first() =~= x);
            if x.len() > 0 && rest.len() > 0 {
                assert(x[0] == '\n' ==> lf_after_crs(rest));
            }
        }
    }
}

/// In text without a CR-LF pair, no line feed follows a carriage return
/// after carriage returns only.
proof fn lemma_no_lf_after_crs(s: Seq<char>)
    requires
        s.len() > 0,
        s[0] == '\r',
        !has_crlf_chars(s),
    ensures
        !lf_after_crs(s.drop_first()),
    decreases s.len(),
{
    let u = s.drop_first();
    if u.len() > 0 && u[0] == '\r' {
        lemma_no_lf_after_crs(u);
    }
}

/// Text without a CR-LF pair has no carriage return to drop.
pub proof fn lemma_drop_identity(s: Seq<char>)
    requires
        !has_crlf_chars(s),
    ensures
        drop_cr_before_lf(s) == s,
    decreases s.len(),
{
    if s.len() > 0 {
        if s[0] == '\r' {
            lemma_no_lf_after_crs(s);
        }
        lemma_drop_identity(s.drop_first());
        assert(seq![s[0]] + s.drop_first() =~= s);
    }
}

/// Dropping carriage returns keeps a final line feed.
pub proof fn lemma_drop_last(s: Seq<char>)
    requires
        s.len() > 0,
        s.last() == '\n',
    ensures
        drop_cr_before_lf(s).len() > 0,
        drop_cr_before_lf(s).last() == '\n',
    decreases s.len(),
{
    let rest = s.drop_first();
    if s.len() == 1 {
        assert(seq![s[0]] + drop_cr_before_lf(rest) =~= seq![s[0]]);
    } else {
        assert(rest.last() == '\n');
        lemma_drop_last(rest);
        assert((seq![s[0]] + drop_cr_before_lf(rest)).last() == drop_cr_before_lf(rest).last());
    }
}

/// A character other than a carriage return survives the dropping.
pub proof fn lemma_drop_keeps(s: Seq<char>, i: int)
    requires
        0 <= i < s.len(),
        s[i] != '\r',
    ensures
        drop_cr_before_lf(s).contains(s[i]),
    decreases s.len(),
{
    let rest = s.drop_first();
    if i == 0 {
        assert(drop_cr_before_lf(s)[0] == s[i]);
    } else {
        assert(rest[i - 1] == s[i]);
        lemma_drop_keeps(rest, i - 1);
        let x = drop_cr_before_lf(rest);
        let j = choose|j: int| 0 <= j < x.len() && x[j] == s[i];
        if !(s[0] == '\r' && lf_after_crs(rest)) {
            assert((seq![s[0]] + x)[j + 1] == s[i]);
        }
    }
}

/// A run of `r` carriage returns at the start of `u` is dropped as a whole
/// when a line feed follows it, and kept as a whole otherwise.
proof fn lemma_cr_run(u: Seq<char>, r: int)
    requires
        0 <= r <= u.len(),
        forall|k: int| 0 <= k < r ==> #[trigger] u[k] == '\r',
        r < u.len() ==> u[r] != '\r',
    ensures
        drop_cr_before_lf(u) == (if r < u.len() && u[r] == '\n' {
            Seq::<char>::empty()
        } else {
            u.take(r)
        }) + drop_cr_before_lf(u.skip(r)),
        r > 0 ==> lf_after_crs(u) == (r < u.len() && u[r] == '\n'),
    decreases r,
{
    if r == 0 {
        assert(u.skip(0) =~= u);
        assert(u.take(0) =~= Seq::<char>::empty());
        assert(Seq::<char>::empty() + drop_cr_before_lf(u) =~= drop_cr_before_lf(u));
    } else {
        let v = u.drop_first();
        assert forall|k: int| 0 <= k < r - 1 implies #[trigger] v[k] == '\r' by {
            assert(u[k + 1] == '\r');
        }
        lemma_cr_run(v, r - 1);
        assert(v.skip(r - 1) =~= u.skip(r));
        let tail = drop_cr_before_lf(u.skip(r));
        if r < u.len() && u[r] == '\n' {
            assert(Seq::<char>::empty() + tail =~= tail);
        } else {
            assert(seq![u[0]] + (v.take(r - 1) + tail) =~= u.take(r) + tail);
        }
    }
}

/// Rewrites every CR-LF pair of `text` to a single line feed.
pub fn normalize_line_endings(text: &Vec<char>) -> (r: Vec<char>)
    ensures
        r@ == normalize(text@),
{
    let n = text.len();
    let mut out: Vec<char> = Vec::new();
    let mut i: usize = 0;
    assert(text@.subrange(0, n as int) =~= text@);
    while i < n
        invariant
            n == text@.len(),
            i <= n,
            normalize(text@) == out@ + normalize(text@.subrange(i as int, n as int)),
        decreases n - i,
    {
        let ghost rest = text@.subrange(i as int, n as int);
        if i + 1 < n && text[i] == '\r' && text[i + 1] == '\n' {
            assert(rest.subrange(2, rest.len() as int) =~= text@.subrange(i + 2, n as int));
            out.push('\n');
            i = i + 2;
        } else {
            assert(rest.drop_first() =~= text@.subrange(i + 1, n as int));
            out.push(text[i]);
            i = i + 1;
        }
    }
    assert(out@ + normalize(Seq::<char>::empty()) =~= out@);
    out
}

/// Drops every carriage return that stands before a line feed, with nothing
/// but carriage returns between.
pub fn remove_cr_before_lf(text: &Vec<char>) -> (r: Vec<char>)
    ensures
        r@ == drop_cr_before_lf(text@),
{
    let n = text.len();
    let mut out: Vec<char> = Vec::new();
    let mut i: usize = 0;
    assert(text@.subrange(0, n as int) =~= text@);
    while i < n
        invariant
            n == text@.len(),
            i <= n,
            drop_cr_before_lf(text@) == out@ + drop_cr_before_lf(text@.subrange(i as int, n as int)),
        decreases n - i,
    {
        let ghost u = text@.subrange(i as int, n as int);
        if text[i] == '\r' {
            let mut j: usize = i;
            while j < n && text[j] == '\r'
                invariant
                    i <= j <= n,
                    n == text@.len(),
                    forall|k: int| i <= k < j ==> #[trigger] text@[k] == '\r',
                decreases n - j,
            {
                j = j + 1;
            }
            proof {
                assert forall|k: int| 0 <= k < j - i implies #[trigger] u[k] == '\r' by {
                    assert(text@[i + k] == '\r');
                }
                lemma_cr_run(u, j - i);
                assert(u.skip(j - i) =~= text@.subrange(j as int, n as int));
            }
            let lf = j < n && text[j] == '\n';
            if !lf {
                let ghost before = out@;
                let mut k: usize = i;
                while k < j
                    invariant
                        i <= k <= j,
                        out@ == before + u.take(k - i),
                        forall|q: int| 0 <= q < j - i ==> #[trigger] u[q] == '\r',
                        j - i <= u.len(),
                    decreases j - k,
                {
                    out.push('\r');
                    k = k + 1;
                    assert(out@ =~= before + u.take(k - i));
                }
            } else {
                assert(out@ + Seq::<char>::empty() =~= out@);
            }
            assert(drop_cr_before_lf(text@) == out@ + drop_cr_before_lf(text@.subrange(j as int, n as int)));
            i = j;
        } else {
            assert(u.drop_first() =~= text@.subrange(i + 1, n as int));
            out.push(text[i]);
            i = i + 1;
        }
    }
    assert(out@ + drop_cr_before_lf(Seq::<char>::empty()) =~= out@);
    out
}

} // verus!
