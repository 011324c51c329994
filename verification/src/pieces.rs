//! Text assembled from pieces (glyphs and escape sequences taken from tokenized
//! input): its display width is at most the total width of its glyphs.

use vstd::prelude::*;
use crate::rescan::{
    after_terminator, agree, all_printable, escape_token_at, is_st_char, lemma_rescan,
    lemma_token_no_early, no_early_terminator, printable_ascii,
};
use crate::scan::{is_control_char, lemma_scan_end_bounds, scan_end, starts_escape, visible_at};
use crate::slice::{col_before, concat_all, lemma_col_before_mono, link_after, sgr_after, texts};
use crate::token::{glyph_end, lemma_glyph_end_bounds, tok_text, tok_width, tokens_from, width_from, TokView};
use crate::unicode::{char_columns, columns_of};

verus! {

/// Where piece `k` starts in the text of `ps`.
pub open spec fn piece_start(ps: Seq<TokView>, k: int) -> int {
    texts(ps.take(k)).len() as int
}

/// A glyph: at least one char, none a control char, `w` the columns of the first
/// and none for the others.
pub open spec fn glyph_ok(g: Seq<char>, w: usize) -> bool {
    &&& g.len() >= 1
    &&& forall|j: int| 0 <= j < g.len() ==> !is_control_char(#[trigger] g[j])
    &&& w == char_columns(g[0])
    &&& forall|j: int| 1 <= j < g.len() ==> char_columns(#[trigger] g[j]) == 0
}

/// An escape sequence as the scanner cut it from some input that went on after it.
pub open spec fn escape_ok(e: Seq<char>) -> bool {
    exists|x: Seq<char>, i: int|
        escape_token_at(x, i) && e == #[trigger] x.subrange(i, scan_end(x, i))
}

/// A well-formed piece.
pub open spec fn piece_ok(t: TokView) -> bool {
    match t {
        TokView::Ch(g, w) => glyph_ok(g, w),
        TokView::Esc(e) => escape_ok(e),
    }
}

pub proof fn lemma_escape_start_is_control(c: char)
    ensures
        starts_escape(c) ==> is_control_char(c) && !printable_ascii(c),
        is_st_char(c) ==> is_control_char(c),
{
}

pub proof fn lemma_texts_concat(a: Seq<TokView>, b: Seq<TokView>)
    ensures
        texts(a + b) == texts(a) + texts(b),
    decreases b.len(),
{
    if b.len() == 0 {
        assert(a + b =~= a);
        assert(texts(a) + texts(b) =~= texts(a));
    } else {
        lemma_texts_concat(a, b.drop_last());
        assert((a + b).drop_last() =~= a + b.drop_last());
        assert((a + b).last() == b.last());
        assert(texts(a + b) =~= texts(a) + texts(b));
    }
}

/// Piece `k` occupies `[piece_start(k), piece_start(k + 1))` of the text.
pub proof fn lemma_piece_layout(ps: Seq<TokView>, k: int)
    requires
        0 <= k < ps.len(),
    ensures
        piece_start(ps, k + 1) == piece_start(ps, k) + tok_text(ps[k]).len(),
        piece_start(ps, k + 1) <= texts(ps).len(),
        texts(ps).subrange(piece_start(ps, k), piece_start(ps, k + 1)) == tok_text(ps[k]),
{
    assert(ps.take(k + 1).drop_last() =~= ps.take(k));
    assert(ps.take(k + 1).last() == ps[k]);
    assert(ps =~= ps.take(k + 1) + ps.skip(k + 1));
    lemma_texts_concat(ps.take(k + 1), ps.skip(k + 1));
    let t = texts(ps);
    assert(t.subrange(piece_start(ps, k), piece_start(ps, k + 1)) =~= tok_text(ps[k]));
}

pub proof fn lemma_piece_start_mono(ps: Seq<TokView>, a: int, b: int)
    requires
        0 <= a <= b <= ps.len(),
    ensures
        piece_start(ps, a) <= piece_start(ps, b),
    decreases b - a,
{
    if a < b {
        lemma_piece_layout(ps, b - 1);
        lemma_piece_start_mono(ps, a, b - 1);
    }
}

pub proof fn lemma_piece_start_ends(ps: Seq<TokView>)
    ensures
        piece_start(ps, 0) == 0,
        piece_start(ps, ps.len() as int) == texts(ps).len(),
{
    assert(ps.take(0) =~= Seq::<TokView>::empty());
    assert(ps.take(ps.len() as int) =~= ps);
}

/// The piece that holds position `q` of the text.
pub proof fn lemma_locate(ps: Seq<TokView>, q: int, n: int) -> (m: int)
    requires
        0 <= n <= ps.len(),
        0 <= q < piece_start(ps, n),
    ensures
        0 <= m < n,
        piece_start(ps, m) <= q < piece_start(ps, m + 1),
    decreases n,
{
    if n == 0 {
        assert(ps.take(0) =~= Seq::<TokView>::empty());
        0
    } else if q >= piece_start(ps, n - 1) {
        n - 1
    } else {
        lemma_locate(ps, q, n - 1)
    }
}

/// Visible chars of no columns add no width.
pub proof fn lemma_zero_run(s: Seq<char>, cw: Seq<usize>, a: int, b: int)
    requires
        0 <= a <= b <= s.len(),
        forall|q: int| #![trigger s[q]] a <= q < b ==> visible_at(s, q) && cw[q] == 0,
    ensures
        width_from(s, cw, a) == width_from(s, cw, b),
    decreases b - a,
{
    if a < b {
        assert(visible_at(s, a) && cw[a] == 0);
        lemma_zero_run(s, cw, a + 1, b);
    }
}

/// The rest of the text from piece `k` is no wider than the glyphs from piece `k`.
pub proof fn lemma_pieces_width(ps: Seq<TokView>, k: int)
    requires
        0 <= k <= ps.len(),
        forall|m: int| 0 <= m < ps.len() ==> piece_ok(#[trigger] ps[m]),
    ensures
        width_from(texts(ps), columns_of(texts(ps)), piece_start(ps, k)) <= col_before(
            ps,
            ps.len() as int,
        ) - col_before(ps, k),
    decreases ps.len() - k,
{
    let o = texts(ps);
    let cw = columns_of(o);
    let total = col_before(ps, ps.len() as int);
    lemma_piece_start_ends(ps);
    lemma_col_before_mono(ps, k, ps.len() as int);
    if k == ps.len() {
        return ;
    }
    lemma_piece_layout(ps, k);
    let p = piece_start(ps, k);
    let nx = piece_start(ps, k + 1);
    assert(piece_ok(ps[k]));
    assert(col_before(ps, k + 1) == col_before(ps, k) + tok_width(ps[k]));
    match ps[k] {
        TokView::Ch(g, w) => {
            assert(o[p + 0] == g[0]);
            lemma_escape_start_is_control(g[0]);
            assert forall|q: int| #![trigger o[q]] p + 1 <= q < nx implies visible_at(o, q) && cw[q] == 0 by {
                assert(o[p + (q - p)] == g[q - p]);
                lemma_escape_start_is_control(o[q]);
            }
            lemma_zero_run(o, cw, p + 1, nx);
            lemma_pieces_width(ps, k + 1);
        },
        TokView::Esc(e) => {
            let (x, i) = choose|x: Seq<char>, i: int|
                escape_token_at(x, i) && e == #[trigger] x.subrange(i, scan_end(x, i));
            let len = e.len() as int;
            crate::scan::lemma_scan_end_bounds(x, i);
            assert(agree(x, i, o, p, len)) by {
                assert forall|d: int| 0 <= d < len implies x[i + d] == #[trigger] o[p + d] by {
                    assert(o.subrange(p, nx)[d] == o[p + d]);
                    assert(x.subrange(i, scan_end(x, i))[d] == x[i + d]);
                }
            }
            lemma_rescan(x, i, o, p);
            let r = scan_end(o, p);
            assert(o[p + 0] == e[0]);
            lemma_escape_start_is_control(o[p]);
            assert(width_from(o, cw, p) == width_from(o, cw, r));
            lemma_piece_width_at(ps, k, r);
        },
    }
}

/// From wherever the scanner stops after the escape piece `k`, the rest of the
/// text is no wider than the glyphs after piece `k`.
proof fn lemma_piece_width_at(ps: Seq<TokView>, k: int, r: int)
    requires
        0 <= k < ps.len(),
        forall|m: int| 0 <= m < ps.len() ==> piece_ok(#[trigger] ps[m]),
        ps[k] is Esc,
        piece_start(ps, k + 1) <= r <= texts(ps).len(),
        r == piece_start(ps, k + 1) || all_printable(texts(ps), piece_start(ps, k + 1), r)
            || after_terminator(texts(ps), piece_start(ps, k + 1), r),
    ensures
        width_from(texts(ps), columns_of(texts(ps)), r) <= col_before(ps, ps.len() as int)
            - col_before(ps, k),
    decreases ps.len() - k, 0int,
{
    let o = texts(ps);
    let cw = columns_of(o);
    let n = ps.len() as int;
    let nx = piece_start(ps, k + 1);
    lemma_piece_start_ends(ps);
    lemma_piece_layout(ps, k);
    assert(col_before(ps, k + 1) == col_before(ps, k) + tok_width(ps[k]));
    lemma_col_before_mono(ps, k + 1, n);
    if r == nx {
        lemma_pieces_width(ps, k + 1);
        return ;
    }
    if r == o.len() {
        return ;
    }
    // The piece `m` holding a position `q` at or after `nx` lies after piece `k`.
    if all_printable(o, nx, r) {
        let m = lemma_locate(ps, r, n);
        if m < k + 1 {
            lemma_piece_start_mono(ps, m + 1, k + 1);
        }
        lemma_piece_layout(ps, m);
        lemma_col_before_mono(ps, k, m);
        lemma_col_before_mono(ps, m + 1, n);
        assert(col_before(ps, m + 1) == col_before(ps, m) + tok_width(ps[m]));
        assert(piece_ok(ps[m]));
        let sm = piece_start(ps, m);
        match ps[m] {
            TokView::Esc(e2) => {
                if sm < r {
                    lemma_piece_start_mono(ps, k + 1, m);
                    assert(o[sm + 0] == e2[0]);
                    assert(printable_ascii(o[sm]));
                    let (x2, i2) = choose|x: Seq<char>, i: int|
                        escape_token_at(x, i) && e2 == #[trigger] x.subrange(i, scan_end(x, i));
                    crate::scan::lemma_scan_end_bounds(x2, i2);
                    assert(x2.subrange(i2, scan_end(x2, i2))[0] == x2[i2]);
                    lemma_escape_start_is_control(e2[0]);
                }
                lemma_pieces_width(ps, m);
            },
            TokView::Ch(g, w) => {
                if sm == r {
                    lemma_pieces_width(ps, m);
                } else {
                    lemma_glyph_tail(ps, m, r);
                    lemma_pieces_width(ps, m + 1);
                }
            },
        }
        return ;
    }
    // `r` lies just past a terminator that starts at or after `nx`.
    let q = r - 1;
    let m = lemma_locate(ps, q, n);
    if m < k + 1 {
        lemma_piece_start_mono(ps, m + 1, k + 1);
    }
    lemma_piece_layout(ps, m);
    lemma_col_before_mono(ps, k, m);
    lemma_col_before_mono(ps, m + 1, n);
    assert(col_before(ps, m + 1) == col_before(ps, m) + tok_width(ps[m]));
    assert(piece_ok(ps[m]));
    let sm = piece_start(ps, m);
    match ps[m] {
        TokView::Ch(g, w) => {
            assert(o[sm + (q - sm)] == g[q - sm]);
            lemma_escape_start_is_control(o[q]);
            if r == piece_start(ps, m + 1) {
                lemma_pieces_width(ps, m + 1);
            } else {
                lemma_glyph_tail(ps, m, r);
                lemma_pieces_width(ps, m + 1);
            }
        },
        TokView::Esc(e2) => {
            let (x2, i2) = choose|x: Seq<char>, i: int|
                escape_token_at(x, i) && e2 == #[trigger] x.subrange(i, scan_end(x, i));
            lemma_token_no_early(x2, i2);
            assert(no_early_terminator(e2));
            let idx = q - sm;
            assert(o[sm + idx] == e2[idx]);
            crate::scan::lemma_scan_end_bounds(x2, i2);
            assert(x2.subrange(i2, scan_end(x2, i2))[0] == x2[i2]);
            lemma_escape_start_is_control(e2[0]);
            if idx < e2.len() - 1 {
                if idx >= 1 {
                    assert(o[sm + (idx - 1)] == e2[idx - 1]);
                }
                assert(!is_st_char(e2[idx]));
                if idx >= 1 {
                    assert(!(e2[idx - 1] == crate::scan::esc() && e2[idx] == '\\'));
                }
                assert(false);
            }
            lemma_pieces_width(ps, m + 1);
        },
    }
}

/// Inside a glyph piece, past its first char, the rest of the text is as wide as
/// it is from the next piece.
proof fn lemma_glyph_tail(ps: Seq<TokView>, m: int, r: int)
    requires
        0 <= m < ps.len(),
        piece_ok(ps[m]),
        ps[m] is Ch,
        piece_start(ps, m) < r <= piece_start(ps, m + 1),
    ensures
        width_from(texts(ps), columns_of(texts(ps)), r) == width_from(
            texts(ps),
            columns_of(texts(ps)),
            piece_start(ps, m + 1),
        ),
{
    let o = texts(ps);
    let cw = columns_of(o);
    lemma_piece_layout(ps, m);
    let sm = piece_start(ps, m);
    let nx = piece_start(ps, m + 1);
    let g = tok_text(ps[m]);
    assert forall|q: int| #![trigger o[q]] r <= q < nx implies visible_at(o, q) && cw[q] == 0 by {
        assert(o[sm + (q - sm)] == g[q - sm]);
        lemma_escape_start_is_control(o[q]);
    }
    lemma_zero_run(o, cw, r, nx);
}

/// The tokens of a text are well-formed pieces, escape tokens that some token follows.
pub proof fn lemma_tokens_are_pieces(s: Seq<char>, i: int)
    requires
        0 <= i,
    ensures
        forall|k: int|
            0 <= k < tokens_from(s, columns_of(s), i).len() ==> (#[trigger] tokens_from(
                s,
                columns_of(s),
                i,
            )[k] is Ch || k + 1 < tokens_from(s, columns_of(s), i).len()) ==> piece_ok(
                tokens_from(s, columns_of(s), i)[k],
            ),
    decreases s.len() - i,
{
    let cw = columns_of(s);
    let tf = tokens_from(s, cw, i);
    if i < s.len() {
        lemma_scan_end_bounds(s, i);
        if starts_escape(s[i]) {
            let n = scan_end(s, i);
            lemma_tokens_are_pieces(s, n);
            let r = tokens_from(s, cw, n);
            assert forall|k: int| 0 <= k < tf.len() && (#[trigger] tf[k] is Ch || k + 1 < tf.len()) implies piece_ok(tf[k]) by {
                if k == 0 {
                    if n >= s.len() {
                        assert(r.len() == 0);
                    }
                    assert(escape_token_at(s, i));
                    assert(tf[0] == TokView::Esc(s.subrange(i, n)));
                } else {
                    assert(tf[k] == r[k - 1]);
                }
            }
        } else if is_control_char(s[i]) {
            lemma_tokens_are_pieces(s, i + 1);
        } else {
            lemma_glyph_end_bounds(s, cw, i + 1);
            let g = glyph_end(s, cw, i + 1);
            lemma_tokens_are_pieces(s, g);
            let r = tokens_from(s, cw, g);
            let gl = s.subrange(i, g);
            assert(glyph_ok(gl, cw[i])) by {
                assert forall|j: int| 0 <= j < gl.len() implies !is_control_char(#[trigger] gl[j]) by {
                    assert(gl[j] == s[i + j]);
                    if j > 0 {
                        assert(visible_at(s, i + j));
                    }
                }
                assert forall|j: int| 1 <= j < gl.len() implies char_columns(#[trigger] gl[j]) == 0 by {
                    assert(gl[j] == s[i + j]);
                    assert(cw[i + j] == 0);
                }
            }
            assert forall|k: int| 0 <= k < tf.len() && (#[trigger] tf[k] is Ch || k + 1 < tf.len()) implies piece_ok(tf[k]) by {
                if k > 0 {
                    assert(tf[k] == r[k - 1]);
                }
            }
        }
    }
}

/// Every active SGR sequence is the text of an earlier escape token.
pub proof fn lemma_sgr_from_tokens(t: Seq<TokView>, n: int)
    requires
        0 <= n <= t.len(),
    ensures
        forall|m: int|
            0 <= m < sgr_after(t, n).len() ==> exists|j: int|
                0 <= j < n && t[j] == TokView::Esc(#[trigger] sgr_after(t, n)[m]),
    decreases n,
{
    if n > 0 {
        lemma_sgr_from_tokens(t, n - 1);
        let prev = sgr_after(t, n - 1);
        let cur = sgr_after(t, n);
        if let TokView::Esc(q) = t[n - 1] {
            assert forall|m: int| 0 <= m < cur.len() implies exists|j: int|
                0 <= j < n && t[j] == TokView::Esc(#[trigger] cur[m]) by {
                if m < prev.len() && cur[m] == prev[m] {
                    let j = choose|j: int| 0 <= j < n - 1 && t[j] == TokView::Esc(#[trigger] prev[m]);
                    assert(t[j] == TokView::Esc(cur[m]));
                } else {
                    assert(cur[m] == q);
                    assert(t[n - 1] == TokView::Esc(cur[m]));
                }
            }
        }
    }
}

/// The open hyperlink is the text of an earlier escape token.
pub proof fn lemma_link_from_tokens(t: Seq<TokView>, n: int)
    requires
        0 <= n <= t.len(),
    ensures
        link_after(t, n) matches Some(l) ==> exists|j: int|
            0 <= j < n && t[j] == TokView::Esc(l),
    decreases n,
{
    if n > 0 {
        lemma_link_from_tokens(t, n - 1);
    }
}

/// A run of escape pieces.
pub open spec fn esc_pieces(qs: Seq<Seq<char>>) -> Seq<TokView> {
    qs.map_values(|q: Seq<char>| TokView::Esc(q))
}

pub proof fn lemma_esc_pieces(qs: Seq<Seq<char>>)
    ensures
        texts(esc_pieces(qs)) == concat_all(qs),
        col_before(esc_pieces(qs), qs.len() as int) == 0,
    decreases qs.len(),
{
    if qs.len() > 0 {
        lemma_esc_pieces(qs.drop_last());
        assert(esc_pieces(qs).drop_last() =~= esc_pieces(qs.drop_last()));
        lemma_col_prefix(esc_pieces(qs), qs.len() - 1);
    }
}

/// Column of the `k`-th token depends only on the tokens before it.
pub proof fn lemma_col_prefix(t: Seq<TokView>, k: int)
    requires
        0 <= k <= t.len(),
    ensures
        col_before(t, k) == col_before(t.take(k), k),
    decreases k,
{
    if k > 0 {
        lemma_col_prefix(t, k - 1);
        lemma_col_prefix(t.take(k), k - 1);
        assert(t.take(k).take(k - 1) =~= t.take(k - 1));
    }
}

pub proof fn lemma_col_concat(a: Seq<TokView>, b: Seq<TokView>)
    ensures
        col_before(a + b, (a + b).len() as int) == col_before(a, a.len() as int) + col_before(
            b,
            b.len() as int,
        ),
    decreases b.len(),
{
    if b.len() == 0 {
        assert(a + b =~= a);
    } else {
        lemma_col_concat(a, b.drop_last());
        assert((a + b).drop_last() =~= a + b.drop_last());
        lemma_col_prefix(a + b, (a + b).len() - 1);
        lemma_col_prefix(b, b.len() - 1);
        assert((a + b).take((a + b).len() - 1) =~= a + b.drop_last());
        assert(b.take(b.len() - 1) =~= b.drop_last());
    }
}

/// Columns over a run of tokens are the difference of the columns at its ends.
pub proof fn lemma_col_subrange(t: Seq<TokView>, lo: int, k: int)
    requires
        0 <= lo,
        0 <= k,
        lo + k <= t.len(),
    ensures
        col_before(t.subrange(lo, lo + k), k) == col_before(t, lo + k) - col_before(t, lo),
    decreases k,
{
    if k > 0 {
        lemma_col_subrange(t, lo, k - 1);
        lemma_col_prefix(t.subrange(lo, lo + k), k - 1);
        lemma_col_prefix(t.subrange(lo, lo + k - 1), k - 1);
        assert(t.subrange(lo, lo + k).take(k - 1) =~= t.subrange(lo, lo + k - 1));
        assert(t.subrange(lo, lo + k - 1).take(k - 1) =~= t.subrange(lo, lo + k - 1));
        assert(t.subrange(lo, lo + k)[k - 1] == t[lo + k - 1]);
    }
}

} // verus!
