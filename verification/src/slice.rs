//! Display width of a text, and slicing of a text by display column.

use vstd::prelude::*;
use crate::scan::{collect, lemma_scan_end_bounds, scan, scan_end, starts_escape, visible_at, Scanned};
use crate::sgr::{link_update, opt_view, seqs_view, sgr_update, update_link, update_sgr};
use crate::text::{chars_of, string_of};
use crate::token::{
    glyph_end, lemma_glyph_end_bounds, tok_text, tok_width, tokenize, tokens, tokens_from,
    toks_view, text_width, width_from, Tok, TokView,
};
use crate::unicode::{column_widths, columns_of, known_columns};

verus! {

/// Sum of the columns `cw[i..]`.
pub open spec fn cols_sum(cw: Seq<usize>, i: int) -> int
    decreases cw.len() - i,
{
    if i < 0 || i >= cw.len() {
        0
    } else {
        cw[i] + cols_sum(cw, i + 1)
    }
}

/// Columns taken by the glyphs among the first `k` tokens: the column at which
/// token `k` starts.
pub open spec fn col_before(toks: Seq<TokView>, k: int) -> int
    decreases k,
{
    if k <= 0 {
        0
    } else {
        col_before(toks, k - 1) + tok_width(toks[k - 1])
    }
}

/// Token `k` is a glyph that lies inside the columns `[start, end)`.
pub open spec fn kept(toks: Seq<TokView>, k: int, start: int, end: int) -> bool {
    &&& toks[k] is Ch
    &&& start <= col_before(toks, k) < end
    &&& col_before(toks, k) + tok_width(toks[k]) <= end
}

/// The first kept token among the first `n`.
pub open spec fn first_kept(toks: Seq<TokView>, n: int, start: int, end: int) -> Option<int>
    decreases n,
{
    if n <= 0 {
        None
    } else {
        match first_kept(toks, n - 1, start, end) {
            Some(l) => Some(l),
            None => if kept(toks, n - 1, start, end) {
                Some(n - 1)
            } else {
                None
            },
        }
    }
}

/// One past the last kept token among the first `n` (0 if none is kept).
pub open spec fn kept_end(toks: Seq<TokView>, n: int, start: int, end: int) -> int
    decreases n,
{
    if n <= 0 {
        0
    } else if kept(toks, n - 1, start, end) {
        n
    } else {
        kept_end(toks, n - 1, start, end)
    }
}

/// The active SGR sequences after the first `n` tokens.
pub open spec fn sgr_after(toks: Seq<TokView>, n: int) -> Seq<Seq<char>>
    decreases n,
{
    if n <= 0 {
        Seq::empty()
    } else {
        match toks[n - 1] {
            TokView::Esc(q) => sgr_update(sgr_after(toks, n - 1), q),
            TokView::Ch(_, _) => sgr_after(toks, n - 1),
        }
    }
}

/// The open hyperlink after the first `n` tokens.
pub open spec fn link_after(toks: Seq<TokView>, n: int) -> Option<Seq<char>>
    decreases n,
{
    if n <= 0 {
        None
    } else {
        match toks[n - 1] {
            TokView::Esc(q) => link_update(link_after(toks, n - 1), q),
            TokView::Ch(_, _) => link_after(toks, n - 1),
        }
    }
}

/// The chars of a run of tokens, in order.
pub open spec fn texts(toks: Seq<TokView>) -> Seq<char>
    decreases toks.len(),
{
    if toks.len() == 0 {
        Seq::empty()
    } else {
        texts(toks.drop_last()) + tok_text(toks.last())
    }
}

/// The sequences of `qs` one after the other.
pub open spec fn concat_all(qs: Seq<Seq<char>>) -> Seq<char>
    decreases qs.len(),
{
    if qs.len() == 0 {
        Seq::empty()
    } else {
        concat_all(qs.drop_last()) + qs.last()
    }
}

/// The chars of an optional sequence (none for `None`).
pub open spec fn opt_chars(o: Option<Seq<char>>) -> Seq<char> {
    match o {
        Some(q) => q,
        None => Seq::empty(),
    }
}

/// The SGR sequence that resets all styling, `ESC [ 0 m`.
pub open spec fn reset_seq() -> Seq<char> {
    seq!['\u{1b}', '[', '0', 'm']
}

/// The OSC 8 sequence that closes an open hyperlink, `ESC ] 8 ; ; ESC \`.
pub open spec fn osc8_close_seq() -> Seq<char> {
    seq!['\u{1b}', ']', '8', ';', ';', '\u{1b}', '\\']
}

/// The slice of a token sequence to the columns `[start, end)`: the hyperlink and
/// the SGR sequences active at the first kept glyph, the tokens from the first to
/// the last kept glyph, then a reset if styling is still open and a hyperlink close
/// if a link is still open. Empty when `start >= end` or no glyph is kept.
pub open spec fn slice_tokens(toks: Seq<TokView>, start: int, end: int) -> Seq<char> {
    if start >= end {
        Seq::empty()
    } else {
        match first_kept(toks, toks.len() as int, start, end) {
            None => Seq::empty(),
            Some(lo) => {
                let hi = kept_end(toks, toks.len() as int, start, end);
                opt_chars(link_after(toks, lo)) + concat_all(sgr_after(toks, lo)) + texts(
                    toks.subrange(lo, hi),
                ) + (if sgr_after(toks, hi).len() > 0 {
                    reset_seq()
                } else {
                    Seq::empty()
                }) + (if link_after(toks, hi) is Some {
                    osc8_close_seq()
                } else {
                    Seq::empty()
                })
            },
        }
    }
}

/// `end` clamped to the display width of `s`.
pub open spec fn clamp_end(s: Seq<char>, cw: Seq<usize>, end: int) -> int {
    if end < text_width(s, cw) {
        end
    } else {
        text_width(s, cw)
    }
}

/// The slice of `s` (with `cw[k]` the columns of `s[k]`) to the display columns
/// `[start, end)`, with `end` clamped to the display width of `s`.
pub open spec fn text_slice(s: Seq<char>, cw: Seq<usize>, start: int, end: int) -> Seq<char> {
    slice_tokens(tokens(s, cw), start, clamp_end(s, cw, end))
}

pub proof fn lemma_cols_sum_mono(cw: Seq<usize>, i: int, j: int)
    requires
        0 <= i <= j,
    ensures
        cols_sum(cw, i) >= cols_sum(cw, j) >= 0,
    decreases j - i,
{
    if i < j {
        lemma_cols_sum_mono(cw, i + 1, j);
    } else {
        lemma_cols_sum_nonneg(cw, i);
    }
}

pub proof fn lemma_cols_sum_nonneg(cw: Seq<usize>, i: int)
    ensures
        cols_sum(cw, i) >= 0,
    decreases cw.len() - i,
{
    if 0 <= i < cw.len() {
        lemma_cols_sum_nonneg(cw, i + 1);
    }
}

/// The display width from `i` is at most the sum of the columns from `i`.
pub proof fn lemma_width_le_cols(s: Seq<char>, cw: Seq<usize>, i: int)
    requires
        0 <= i,
        cw.len() == s.len(),
    ensures
        0 <= width_from(s, cw, i) <= cols_sum(cw, i),
    decreases s.len() - i,
{
    if i < s.len() {
        lemma_scan_end_bounds(s, i);
        let n = scan_end(s, i);
        lemma_width_le_cols(s, cw, n);
        lemma_cols_sum_mono(cw, i + 1, n);
    }
}

pub proof fn lemma_col_before_mono(toks: Seq<TokView>, a: int, b: int)
    requires
        0 <= a <= b,
    ensures
        0 <= col_before(toks, a) <= col_before(toks, b),
    decreases b,
{
    if a < b {
        lemma_col_before_mono(toks, a, b - 1);
    } else {
        lemma_col_before_nonneg(toks, a);
    }
}

pub proof fn lemma_col_before_nonneg(toks: Seq<TokView>, a: int)
    ensures
        0 <= col_before(toks, a),
    decreases a,
{
    if a > 0 {
        lemma_col_before_nonneg(toks, a - 1);
    }
}

/// The column of a token does not depend on what follows.
pub proof fn lemma_col_before_cons(x: TokView, r: Seq<TokView>, k: int)
    requires
        0 <= k <= r.len(),
    ensures
        col_before(seq![x] + r, k + 1) == tok_width(x) + col_before(r, k),
    decreases k,
{
    let xr = seq![x] + r;
    assert(col_before(xr, k + 1) == col_before(xr, k) + tok_width(xr[k]));
    if k > 0 {
        lemma_col_before_cons(x, r, k - 1);
        assert(xr[k] == r[k - 1]);
        assert(col_before(r, k) == col_before(r, k - 1) + tok_width(r[k - 1]));
    } else {
        assert(xr[0] == x);
        assert(col_before(xr, 0) == 0);
        assert(col_before(r, 0) == 0);
    }
}

/// The zero-width chars folded into a glyph add no width.
pub proof fn lemma_glyph_width(s: Seq<char>, cw: Seq<usize>, j: int)
    requires
        0 <= j <= s.len(),
        cw.len() == s.len(),
    ensures
        width_from(s, cw, j) == width_from(s, cw, glyph_end(s, cw, j)),
    decreases s.len() - j,
{
    if 0 <= j < s.len() && visible_at(s, j) && cw[j] == 0 {
        lemma_glyph_width(s, cw, j + 1);
    }
}

/// The width of a text is the total width of its glyph tokens.
pub proof fn lemma_tokens_width(s: Seq<char>, cw: Seq<usize>, i: int)
    requires
        0 <= i,
        cw.len() == s.len(),
    ensures
        col_before(tokens_from(s, cw, i), tokens_from(s, cw, i).len() as int) == width_from(
            s,
            cw,
            i,
        ),
    decreases s.len() - i,
{
    if i < s.len() {
        lemma_scan_end_bounds(s, i);
        if starts_escape(s[i]) {
            let n = scan_end(s, i);
            lemma_tokens_width(s, cw, n);
            let r = tokens_from(s, cw, n);
            lemma_col_before_cons(TokView::Esc(s.subrange(i, n)), r, r.len() as int);
        } else if crate::scan::is_control_char(s[i]) {
            lemma_tokens_width(s, cw, i + 1);
        } else {
            lemma_glyph_end_bounds(s, cw, i + 1);
            let g = glyph_end(s, cw, i + 1);
            lemma_tokens_width(s, cw, g);
            lemma_glyph_width(s, cw, i + 1);
            let r = tokens_from(s, cw, g);
            lemma_col_before_cons(TokView::Ch(s.subrange(i, g), cw[i]), r, r.len() as int);
        }
    }
}

pub proof fn lemma_first_kept(toks: Seq<TokView>, n: int, start: int, end: int)
    requires
        0 <= n <= toks.len(),
    ensures
        first_kept(toks, n, start, end) matches Some(l) ==> 0 <= l < kept_end(toks, n, start, end)
            <= n && kept(toks, l, start, end),
        kept_end(toks, n, start, end) <= n,
    decreases n,
{
    if n > 0 {
        lemma_first_kept(toks, n - 1, start, end);
    }
}

/// Where the first and the last kept tokens stand among the first `n`.
pub proof fn lemma_first_kept_facts(t: Seq<TokView>, n: int, start: int, end: int)
    requires
        0 <= n <= t.len(),
    ensures
        kept_end(t, n, start, end) > 0 ==> kept(t, kept_end(t, n, start, end) - 1, start, end),
        forall|k: int| 0 <= k < n && kept(t, k, start, end) ==> k < kept_end(t, n, start, end),
        first_kept(t, n, start, end) matches Some(l) ==> forall|k: int|
            0 <= k < l ==> !kept(t, k, start, end),
        first_kept(t, n, start, end) is None ==> forall|k: int|
            0 <= k < n ==> !kept(t, k, start, end),
    decreases n,
{
    if n > 0 {
        lemma_first_kept_facts(t, n - 1, start, end);
    }
}

/// Once a glyph starts at or past `end`, no later token is kept.
pub proof fn lemma_none_kept_past_end(toks: Seq<TokView>, idx: int, m: int, start: int, end: int)
    requires
        0 <= idx <= m <= toks.len(),
        col_before(toks, idx) >= end,
    ensures
        first_kept(toks, m, start, end) == first_kept(toks, idx, start, end),
        kept_end(toks, m, start, end) == kept_end(toks, idx, start, end),
    decreases m - idx,
{
    if m > idx {
        lemma_none_kept_past_end(toks, idx, m - 1, start, end);
        lemma_col_before_mono(toks, idx, m - 1);
    }
}

/// Appends the chars of `src` to `out`.
fn append_chars(out: &mut Vec<char>, src: &[char])
    ensures
        final(out)@ == old(out)@ + src@,
{
    let mut k: usize = 0;
    while k < src.len()
        invariant
            k <= src@.len(),
            out@ == old(out)@ + src@.take(k as int),
        decreases src@.len() - k,
    {
        out.push(src[k]);
        k += 1;
        assert(out@ =~= old(out)@ + src@.take(k as int));
    }
    assert(src@.take(src@.len() as int) =~= src@);
}

/// A copy of a stack of SGR sequences.
fn copy_seqs(v: &Vec<Vec<char>>) -> (r: Vec<Vec<char>>)
    ensures
        seqs_view(r@) == seqs_view(v@),
{
    let mut r: Vec<Vec<char>> = Vec::new();
    let mut k: usize = 0;
    while k < v.len()
        invariant
            k <= v@.len(),
            seqs_view(r@) == seqs_view(v@).take(k as int),
        decreases v@.len() - k,
    {
        let x = collect(v[k].as_slice(), 0, v[k].len());
        assert(x@ =~= v@[k as int]@);
        let ghost old_r = r@;
        r.push(x);
        assert(r@ == old_r.push(x));
        assert(seqs_view(r@) =~= seqs_view(old_r).push(x@));
        k += 1;
        assert(seqs_view(r@) =~= seqs_view(v@).take(k as int));
    }
    assert(seqs_view(v@).take(v@.len() as int) =~= seqs_view(v@));
    r
}

/// A copy of an optional hyperlink.
fn copy_opt(o: &Option<Vec<char>>) -> (r: Option<Vec<char>>)
    ensures
        opt_view(r) == opt_view(*o),
{
    match o {
        Some(v) => Some(collect(v.as_slice(), 0, v.len())),
        None => None,
    }
}

/// Display width of `chars` with `cols[k]` the columns of `chars[k]`, or `None`
/// when it does not fit in a `usize`.
fn fitting_width(chars: &[char], cols: &[usize]) -> (r: Option<usize>)
    requires
        cols@.len() == chars@.len(),
    ensures
        r is Some <==> text_width(chars@, cols@) <= usize::MAX,
        r matches Some(v) ==> v == text_width(chars@, cols@),
{
    let ghost s = chars@;
    let ghost cw = cols@;
    let mut total: usize = 0;
    let mut i: usize = 0;
    while i < chars.len()
        invariant
            i <= s.len(),
            s == chars@,
            cw == cols@,
            cw.len() == s.len(),
            total + width_from(s, cw, i as int) == width_from(s, cw, 0),
        decreases s.len() - i,
    {
        let (scanned, next) = scan(chars, i);
        proof {
            lemma_width_le_cols(s, cw, next as int);
        }
        if let Scanned::Visible(_c) = scanned {
            match total.checked_add(cols[i]) {
                Some(v) => {
                    total = v;
                },
                None => {
                    return None;
                },
            }
        }
        i = next;
    }
    Some(total)
}

/// Locate the visible glyphs fully inside `[start, end)`, and the SGR + hyperlink
/// state at the first kept glyph (so styling opened before the slice carries in).
/// Returns the first kept token, one past the last, and that state.
fn locate(toks: &Vec<Tok>, start: usize, end: usize) -> (r: (
    Option<usize>,
    usize,
    Vec<Vec<char>>,
    Option<Vec<char>>,
))
    requires
        start < end,
        col_before(toks_view(toks@), toks@.len() as int) <= usize::MAX,
    ensures
        ({
            let t = toks_view(toks@);
            let len = toks@.len() as int;
            &&& r.0 matches Some(l) ==> (Some(l as int) == first_kept(t, len, start as int, end as int))
            &&& r.0 is None ==> first_kept(t, len, start as int, end as int) is None
            &&& r.1 == kept_end(t, len, start as int, end as int)
            &&& r.0 matches Some(l) ==> seqs_view(r.2@) == sgr_after(t, l as int) && opt_view(r.3)
                == link_after(t, l as int)
        }),
{
    let ghost t = toks_view(toks@);
    let ghost len = t.len() as int;
    let mut col: usize = 0;
    let mut sgr: Vec<Vec<char>> = Vec::new();
    let mut link: Option<Vec<char>> = None;
    let mut lo: Option<usize> = None;
    let mut hi: usize = 0;
    let mut sgr_at_lo: Vec<Vec<char>> = Vec::new();
    let mut link_at_lo: Option<Vec<char>> = None;
    let mut idx: usize = 0;
    while idx < toks.len()
        invariant_except_break
            idx <= len,
            t == toks_view(toks@),
            len == toks@.len(),
            start < end,
            col_before(t, len) <= usize::MAX,
            col == col_before(t, idx as int),
            seqs_view(sgr@) == sgr_after(t, idx as int),
            opt_view(link) == link_after(t, idx as int),
            lo matches Some(l) ==> (Some(l as int) == first_kept(t, idx as int, start as int, end as int)),
            lo is None ==> first_kept(t, idx as int, start as int, end as int) is None,
            hi == kept_end(t, idx as int, start as int, end as int),
            lo matches Some(l) ==> seqs_view(sgr_at_lo@) == sgr_after(t, l as int) && opt_view(
                link_at_lo,
            ) == link_after(t, l as int),
        ensures
            lo matches Some(l) ==> (Some(l as int) == first_kept(t, len, start as int, end as int)),
            lo is None ==> first_kept(t, len, start as int, end as int) is None,
            hi == kept_end(t, len, start as int, end as int),
            lo matches Some(l) ==> seqs_view(sgr_at_lo@) == sgr_after(t, l as int) && opt_view(
                link_at_lo,
            ) == link_after(t, l as int),
        decreases len - idx,
    {
        assert(t[idx as int] == toks@[idx as int]@);
        match &toks[idx] {
            Tok::Esc(s) => {
                update_sgr(&mut sgr, s.as_slice());
                update_link(&mut link, s.as_slice());
            },
            Tok::Ch(_, w) => {
                proof {
                    lemma_col_before_mono(t, idx + 1, len);
                }
                let cs = col;
                let ce = col + *w;
                if cs >= end {
                    proof {
                        lemma_none_kept_past_end(t, idx as int, len, start as int, end as int);
                    }
                    break;
                }
                if cs >= start && ce <= end {
                    if lo.is_none() {
                        lo = Some(idx);
                        sgr_at_lo = copy_seqs(&sgr);
                        link_at_lo = copy_opt(&link);
                    }
                    hi = idx + 1;
                }
                col = ce;
            },
        }
        idx += 1;
    }
    (lo, hi, sgr_at_lo, link_at_lo)
}

/// Emit the slice: the hyperlink and SGR sequences active at `lo`, the tokens
/// `lo..hi`, then a reset and a hyperlink close where styling is still open.
#[verifier::rlimit(30)]
fn emit(
    toks: &Vec<Tok>,
    lo: usize,
    hi: usize,
    sgr_at_lo: Vec<Vec<char>>,
    link_at_lo: Option<Vec<char>>,
) -> (out: Vec<char>)
    requires
        lo <= hi <= toks@.len(),
        seqs_view(sgr_at_lo@) == sgr_after(toks_view(toks@), lo as int),
        opt_view(link_at_lo) == link_after(toks_view(toks@), lo as int),
    ensures
        ({
            let t = toks_view(toks@);
            out@ == opt_chars(link_after(t, lo as int)) + concat_all(sgr_after(t, lo as int)) + texts(
                t.subrange(lo as int, hi as int),
            ) + (if sgr_after(t, hi as int).len() > 0 {
                reset_seq()
            } else {
                Seq::empty()
            }) + (if link_after(t, hi as int) is Some {
                osc8_close_seq()
            } else {
                Seq::empty()
            })
        }),
{
    let ghost t = toks_view(toks@);
    let ghost len = t.len() as int;
    let mut out: Vec<char> = Vec::new();
    if let Some(l) = &link_at_lo {
        append_chars(&mut out, l.as_slice());
    }
    let ghost link_part = out@;
    assert(link_part == opt_chars(link_after(t, lo as int)));
    let mut j: usize = 0;
    while j < sgr_at_lo.len()
        invariant
            j <= sgr_at_lo@.len(),
            out@ == link_part + concat_all(seqs_view(sgr_at_lo@).take(j as int)),
        decreases sgr_at_lo@.len() - j,
    {
        append_chars(&mut out, sgr_at_lo[j].as_slice());
        proof {
            assert(seqs_view(sgr_at_lo@).take(j + 1).drop_last() =~= seqs_view(sgr_at_lo@).take(
                j as int,
            ));
            assert(out@ =~= link_part + concat_all(seqs_view(sgr_at_lo@).take(j + 1)));
        }
        j += 1;
    }
    assert(seqs_view(sgr_at_lo@).take(sgr_at_lo@.len() as int) =~= seqs_view(sgr_at_lo@));
    let ghost prefix = out@;
    let mut open_sgr = sgr_at_lo;
    let mut open_link = link_at_lo;
    let mut k: usize = lo;
    assert(t.subrange(lo as int, lo as int) =~= Seq::<TokView>::empty());
    while k < hi
        invariant
            lo <= k <= hi <= len,
            t == toks_view(toks@),
            len == toks@.len(),
            out@ == prefix + texts(t.subrange(lo as int, k as int)),
            seqs_view(open_sgr@) == sgr_after(t, k as int),
            opt_view(open_link) == link_after(t, k as int),
        decreases hi - k,
    {
        assert(t[k as int] == toks@[k as int]@);
        assert(t.subrange(lo as int, k + 1).drop_last() =~= t.subrange(lo as int, k as int));
        match &toks[k] {
            Tok::Esc(s) => {
                append_chars(&mut out, s.as_slice());
                update_sgr(&mut open_sgr, s.as_slice());
                update_link(&mut open_link, s.as_slice());
            },
            Tok::Ch(g, _) => {
                append_chars(&mut out, g.as_slice());
            },
        }
        proof {
            assert(out@ =~= prefix + texts(t.subrange(lo as int, k + 1)));
        }
        k += 1;
    }
    let ghost body = out@;
    if open_sgr.len() > 0 {
        out.push('\u{1b}');
        out.push('[');
        out.push('0');
        out.push('m');
    }
    let ghost styled = out@;
    assert(styled =~= body + (if sgr_after(t, hi as int).len() > 0 {
        reset_seq()
    } else {
        Seq::empty()
    }));
    if open_link.is_some() {
        out.push('\u{1b}');
        out.push(']');
        out.push('8');
        out.push(';');
        out.push(';');
        out.push('\u{1b}');
        out.push('\\');
    }
    assert(out@ =~= styled + (if link_after(t, hi as int) is Some {
        osc8_close_seq()
    } else {
        Seq::empty()
    }));
    out
}

/// Slice `chars` (with `cols[k]` the columns of `chars[k]`) to the display
/// columns `[start, end)`, preserving ANSI styling.
fn slice_chars(chars: &[char], cols: &[usize], start: usize, end: usize) -> (r: Vec<char>)
    requires
        cols@.len() == chars@.len(),
        text_width(chars@, cols@) <= usize::MAX,
    ensures
        r@ == text_slice(chars@, cols@, start as int, end as int),
{
    let total = match fitting_width(chars, cols) {
        Some(v) => v,
        None => 0,
    };
    let end = if end < total {
        end
    } else {
        total
    };
    if start >= end {
        return Vec::new();
    }
    let toks = tokenize(chars, cols);
    proof {
        lemma_tokens_width(chars@, cols@, 0);
    }
    let (lo, hi, sgr_at_lo, link_at_lo) = locate(&toks, start, end);
    let lo = match lo {
        Some(l) => l,
        None => {
            return Vec::new();
        },
    };
    proof {
        lemma_first_kept(toks_view(toks@), toks@.len() as int, start as int, end as int);
    }
    emit(&toks, lo, hi, sgr_at_lo, link_at_lo)
}

/// The display width of `text` in terminal columns, ignoring escape sequences and
/// counting wide characters as two. The width must fit in a `usize`.
pub fn width(text: &str) -> (r: usize)
    requires
        text_width(text@, columns_of(text@)) <= usize::MAX,
    ensures
        r == text_width(text@, columns_of(text@)),
        forall|i: int| 0 <= i < text@.len() ==> #[trigger] known_columns(text@[i]),
{
    let chars = chars_of(text);
    let cols = column_widths(chars.as_slice());
    match fitting_width(chars.as_slice(), cols.as_slice()) {
        Some(v) => v,
        None => 0,
    }
}

/// The display width of `text`, or `None` when it does not fit in a `usize`.
pub fn checked_width(text: &str) -> (r: Option<usize>)
    ensures
        r is Some <==> text_width(text@, columns_of(text@)) <= usize::MAX,
        r matches Some(v) ==> v == text_width(text@, columns_of(text@)),
        forall|i: int| 0 <= i < text@.len() ==> #[trigger] known_columns(text@[i]),
{
    let chars = chars_of(text);
    let cols = column_widths(chars.as_slice());
    match fitting_width(chars.as_slice(), cols.as_slice()) {
        Some(_) => Some(width(text)),
        None => None,
    }
}

/// The display width of `text` when `cols[k]` columns are taken by its `k`-th char.
pub fn width_with(text: &str, cols: &[usize]) -> (r: usize)
    requires
        cols@.len() == text@.len(),
        text_width(text@, cols@) <= usize::MAX,
    ensures
        r == text_width(text@, cols@),
{
    let chars = chars_of(text);
    match fitting_width(chars.as_slice(), cols) {
        Some(v) => v,
        None => 0,
    }
}

/// Slice `text` to the display columns `[start, end)`, preserving ANSI styling.
///
/// `end` is clamped to the string's display width; `start >= end` returns `""`.
/// The width must fit in a `usize`.
pub fn slice(text: &str, start: usize, end: usize) -> (r: String)
    requires
        text_width(text@, columns_of(text@)) <= usize::MAX,
    ensures
        r@ == text_slice(text@, columns_of(text@), start as int, end as int),
        start >= end ==> r@ == Seq::<char>::empty(),
        forall|i: int| 0 <= i < text@.len() ==> #[trigger] known_columns(text@[i]),
{
    let chars = chars_of(text);
    let cols = column_widths(chars.as_slice());
    let out = slice_chars(chars.as_slice(), cols.as_slice(), start, end);
    string_of(out.as_slice())
}

/// The slice of `text` to the display columns `[start, end)`, or `None` when the
/// width of `text` does not fit in a `usize`.
pub fn checked_slice(text: &str, start: usize, end: usize) -> (r: Option<String>)
    ensures
        r is Some <==> text_width(text@, columns_of(text@)) <= usize::MAX,
        r matches Some(v) ==> v@ == text_slice(text@, columns_of(text@), start as int, end as int),
        forall|i: int| 0 <= i < text@.len() ==> #[trigger] known_columns(text@[i]),
{
    match checked_width(text) {
        Some(_) => Some(slice(text, start, end)),
        None => None,
    }
}

/// Slice `text` to the display columns `[start, end)` when `cols[k]` columns are
/// taken by its `k`-th char.
pub fn slice_with(text: &str, cols: &[usize], start: usize, end: usize) -> (r: String)
    requires
        cols@.len() == text@.len(),
        text_width(text@, cols@) <= usize::MAX,
    ensures
        r@ == text_slice(text@, cols@, start as int, end as int),
        start >= end ==> r@ == Seq::<char>::empty(),
{
    let chars = chars_of(text);
    let out = slice_chars(chars.as_slice(), cols, start, end);
    string_of(out.as_slice())
}

/// Slice `text` from display column `start` to the end of the string. The width
/// must fit in a `usize`.
pub fn slice_from(text: &str, start: usize) -> (r: String)
    requires
        text_width(text@, columns_of(text@)) <= usize::MAX,
    ensures
        r@ == text_slice(
            text@,
            columns_of(text@),
            start as int,
            text_width(text@, columns_of(text@)),
        ),
        forall|i: int| 0 <= i < text@.len() ==> #[trigger] known_columns(text@[i]),
{
    slice(text, start, width(text))
}

/// The slice of `text` from display column `start` to its end, or `None` when
/// the width of `text` does not fit in a `usize`.
pub fn checked_slice_from(text: &str, start: usize) -> (r: Option<String>)
    ensures
        r is Some <==> text_width(text@, columns_of(text@)) <= usize::MAX,
        r matches Some(v) ==> v@ == text_slice(
            text@,
            columns_of(text@),
            start as int,
            text_width(text@, columns_of(text@)),
        ),
        forall|i: int| 0 <= i < text@.len() ==> #[trigger] known_columns(text@[i]),
{
    match checked_width(text) {
        Some(_) => Some(slice_from(text, start)),
        None => None,
    }
}

} // verus!
