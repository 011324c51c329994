//! Properties of the library as a whole, proved over the specifications that
//! the functions' contracts use.

use vstd::prelude::*;
use crate::pieces::{
    escape_ok, esc_pieces, lemma_col_concat, lemma_col_subrange,
    lemma_esc_pieces, lemma_link_from_tokens, lemma_piece_start_ends, lemma_pieces_width,
    lemma_sgr_from_tokens, lemma_texts_concat, lemma_tokens_are_pieces, piece_ok, piece_start,
};
use crate::balance::{
    lemma_after_is_run, lemma_close_effect, lemma_link_opens, lemma_reopen_effect,
    lemma_replay_stack, lemma_reset_effect, lemma_run_concat, lemma_stack_ok_after, link_run,
    link_step, sgr_run, sgr_step,
};
use crate::readback::{
    closed_escape, lemma_escape_piece_reads_back, lemma_token_at, lemma_tokens_of_pieces,
    piece_reads_back,
};
use crate::rescan::escape_token_at;
use crate::sgr::{
    is_reset, link_update, next_param, osc8_kind_of, reset_walk, sgr_params_of, sgr_update,
    split_params,
};
use crate::token::lemma_glyph_end_bounds;
use crate::scan::{csi_end, run_end, scan_end, string_seq_end};
use crate::slice::{
    clamp_end, col_before, first_kept, kept, kept_end, lemma_col_before_mono, lemma_first_kept,
    lemma_first_kept_facts,
    lemma_tokens_width, link_after, osc8_close_seq, reset_seq, sgr_after, slice_tokens, text_slice,
    texts,
};
use crate::token::{tok_text, tok_width, tokens, text_width, width_from, TokView};
use crate::unicode::{char_columns, columns_of, known_columns, wide_char};
use crate::plain::{
    lemma_glyphs_leave_no_state, lemma_narrow_slice, lemma_plain_tokens,
    lemma_width_prefix, lemma_width_shift, plain,
};
use crate::scan::starts_escape;

verus! {

/// The display width of a text is the total width of its glyph tokens: `width`
/// and the tokenizer that `slice` uses agree on every column.
pub proof fn law_width_is_total_of_glyphs(s: Seq<char>, cw: Seq<usize>)
    requires
        cw.len() == s.len(),
    ensures
        col_before(tokens(s, cw), tokens(s, cw).len() as int) == text_width(s, cw),
{
    lemma_tokens_width(s, cw, 0);
}

/// A slice holds exactly the glyphs that lie inside the requested columns: every
/// glyph between the first and the last kept one starts at or after `start` and
/// ends at or before `end`, so a wide char straddling a boundary is left out; and
/// every glyph that starts before `end` and lies inside `[start, end)` is kept.
pub proof fn law_slice_keeps_glyphs_inside_span(s: Seq<char>, cw: Seq<usize>, start: int, end: int)
    requires
        cw.len() == s.len(),
    ensures
        ({
            let t = tokens(s, cw);
            let n = t.len() as int;
            match first_kept(t, n, start, end) {
                Some(lo) => {
                    &&& forall|k: int|
                        lo <= k < kept_end(t, n, start, end) && #[trigger] t[k] is Ch ==> start
                            <= col_before(t, k) && col_before(t, k) + tok_width(t[k]) <= end
                    &&& forall|k: int|
                        0 <= k < n && #[trigger] t[k] is Ch && start <= col_before(t, k) < end
                            && col_before(t, k) + tok_width(t[k]) <= end ==> lo <= k
                            < kept_end(t, n, start, end)
                },
                None => forall|k: int|
                    0 <= k < n && #[trigger] t[k] is Ch && start <= col_before(t, k) ==> !(
                    col_before(t, k) < end && col_before(t, k) + tok_width(t[k]) <= end),
            }
        }),
{
    let t = tokens(s, cw);
    let n = t.len() as int;
    lemma_first_kept(t, n, start, end);
    lemma_first_kept_facts(t, n, start, end);
    let hi = kept_end(t, n, start, end);
    if let Some(lo) = first_kept(t, n, start, end) {
        assert forall|k: int| lo <= k < hi && #[trigger] t[k] is Ch implies start <= col_before(
            t,
            k,
        ) && col_before(t, k) + tok_width(t[k]) <= end by {
            lemma_col_before_mono(t, lo, k);
            lemma_col_before_mono(t, k + 1, hi);
            assert(col_before(t, k + 1) == col_before(t, k) + tok_width(t[k]));
            assert(col_before(t, hi) == col_before(t, hi - 1) + tok_width(t[hi - 1]));
        }
        assert forall|k: int|
            0 <= k < n && #[trigger] t[k] is Ch && start <= col_before(t, k) < end && col_before(
                t,
                k,
            ) + tok_width(t[k]) <= end implies lo <= k < hi by {
            assert(kept(t, k, start, end));
        }
    } else {
        assert forall|k: int| 0 <= k < n && #[trigger] t[k] is Ch && start <= col_before(t, k) implies !(
        col_before(t, k) < end && col_before(t, k) + tok_width(t[k]) <= end) by {
            if col_before(t, k) < end && col_before(t, k) + tok_width(t[k]) <= end {
                assert(kept(t, k, start, end));
            }
        }
    }
}

/// `end` is clamped to the display width: cutting at any `end` at or past the
/// width gives what cutting at the width gives, and so what `slice_from` gives.
pub proof fn law_end_clamped_to_width(s: Seq<char>, cw: Seq<usize>, start: int, end: int)
    requires
        cw.len() == s.len(),
        end >= text_width(s, cw),
    ensures
        text_slice(s, cw, start, end) == text_slice(s, cw, start, text_width(s, cw)),
{
}

/// In plain text whose chars take at most one column each, slices of adjacent
/// column ranges join up: cutting `[start, mid)` and `[mid, end)` and putting the
/// two together gives the slice `[start, end)`.
pub proof fn law_narrow_slices_concatenate(s: Seq<char>, start: int, mid: int, end: int)
    requires
        plain(s),
        forall|q: int| 0 <= q < s.len() ==> char_columns(#[trigger] s[q]) <= 1,
        start <= mid <= end,
    ensures
        text_slice(s, columns_of(s), start, mid) + text_slice(s, columns_of(s), mid, end)
            == text_slice(s, columns_of(s), start, end),
{
    let cw = columns_of(s);
    let t = tokens(s, cw);
    let n = t.len() as int;
    let w = text_width(s, cw);
    lemma_plain_tokens(s, cw, 0, 1);
    let e = clamp_end(s, cw, end);
    if mid <= w {
        lemma_narrow_slice(t, start, mid);
        lemma_narrow_slice(t, mid, e);
        lemma_narrow_slice(t, start, e);
        let a = crate::plain::count_before(t, n, start);
        let m = crate::plain::count_before(t, n, mid);
        let b = crate::plain::count_before(t, n, e);
        assert(t.subrange(a, m) + t.subrange(m, b) =~= t.subrange(a, b));
        lemma_texts_concat(t.subrange(a, m), t.subrange(m, b));
    } else {
        assert(slice_tokens(t, mid, e) == Seq::<char>::empty());
        assert(text_slice(s, cw, start, mid) + Seq::<char>::empty() =~= text_slice(
            s,
            cw,
            start,
            mid,
        ));
    }
}

/// Display width adds up over a join whose left part holds no escape
/// introducer: the width of `a + b` is the width of `a` plus the width of `b`.
pub proof fn law_width_adds_up(a: Seq<char>, b: Seq<char>)
    requires
        forall|q: int| 0 <= q < a.len() ==> !starts_escape(#[trigger] a[q]),
    ensures
        text_width(a + b, columns_of(a + b)) == text_width(a, columns_of(a)) + text_width(
            b,
            columns_of(b),
        ),
{
    let ca = columns_of(a);
    let cb = columns_of(b);
    assert(columns_of(a + b) =~= ca + cb);
    lemma_width_prefix(a, b, ca, cb, 0);
    lemma_width_shift(a, b, ca, cb, 0);
}

/// Plain text of some width, sliced from column 0 to its end, is given back
/// whole.
pub proof fn law_plain_text_slices_whole(s: Seq<char>)
    requires
        plain(s),
        text_width(s, columns_of(s)) > 0,
    ensures
        text_slice(s, columns_of(s), 0, text_width(s, columns_of(s))) == s,
{
    let cw = columns_of(s);
    let t = tokens(s, cw);
    let n = t.len() as int;
    let w = text_width(s, cw);
    lemma_plain_tokens(s, cw, 0, 0);
    lemma_tokens_width(s, cw, 0);
    assert(n >= 1);
    assert forall|k: int| 0 <= k < n implies kept(t, k, 0, w) by {
        lemma_col_before_mono(t, k + 1, n);
        lemma_col_before_mono(t, 0, k);
        assert(col_before(t, k + 1) == col_before(t, k) + tok_width(t[k]));
    }
    lemma_first_kept(t, n, 0, w);
    lemma_first_kept_facts(t, n, 0, w);
    assert(kept(t, 0, 0, w));
    assert(kept(t, n - 1, 0, w));
    assert(first_kept(t, n, 0, w) is Some);
    let lo = first_kept(t, n, 0, w).unwrap();
    assert(lo == 0);
    assert(kept_end(t, n, 0, w) == n);
    lemma_glyphs_leave_no_state(t, 0);
    lemma_glyphs_leave_no_state(t, n);
    assert(t.subrange(0, n) =~= t);
    assert(s.subrange(0, s.len() as int) =~= s);
    assert(text_slice(s, cw, 0, w) =~= s);
}

proof fn lemma_reset_is_escape()
    ensures
        escape_ok(reset_seq()),
{
    lemma_reset_token(reset_seq().push('x'));
}

proof fn lemma_close_is_escape()
    ensures
        escape_ok(osc8_close_seq()),
{
    lemma_close_token(osc8_close_seq().push('x'));
}

/// All pieces of `ps` are well-formed.
spec fn all_ok(ps: Seq<TokView>) -> bool {
    forall|m: int| 0 <= m < ps.len() ==> piece_ok(#[trigger] ps[m])
}

proof fn lemma_all_ok_concat(a: Seq<TokView>, b: Seq<TokView>)
    requires
        all_ok(a),
        all_ok(b),
    ensures
        all_ok(a + b),
{
    assert forall|m: int| 0 <= m < (a + b).len() implies piece_ok(#[trigger] (a + b)[m]) by {
        if m < a.len() {
            assert((a + b)[m] == a[m]);
        } else {
            assert((a + b)[m] == b[m - a.len()]);
        }
    }
}

/// An escape piece alone: its text, and no columns.
proof fn lemma_single_escape(q: Seq<char>)
    ensures
        texts(seq![TokView::Esc(q)]) == q,
        col_before(seq![TokView::Esc(q)], 1) == 0,
{
    let ps = seq![TokView::Esc(q)];
    assert(ps.len() == 1);
    assert(ps[0] == TokView::Esc(q));
    assert(ps.last() == TokView::Esc(q));
    assert(ps.drop_last() =~= Seq::<TokView>::empty());
    assert(texts(ps.drop_last()) == Seq::<char>::empty());
    assert(tok_text(ps.last()) == q);
    assert(Seq::<char>::empty() + q =~= q);
    assert(col_before(ps, 0) == 0);
    assert(tok_width(ps[0]) == 0);
}

/// The pieces a slice is made of: the hyperlink and SGR sequences active at the
/// first kept glyph, the tokens from it to the last kept glyph, then the reset and
/// the hyperlink close where styling is still open.
pub open spec fn slice_pieces(t: Seq<TokView>, start: int, end: int) -> Seq<TokView> {
    let n = t.len() as int;
    let lo = first_kept(t, n, start, end).unwrap();
    let hi = kept_end(t, n, start, end);
    let a = match link_after(t, lo) {
        Some(l) => seq![TokView::Esc(l)],
        None => Seq::<TokView>::empty(),
    };
    let b = esc_pieces(sgr_after(t, lo));
    let c = t.subrange(lo, hi);
    let d = if sgr_after(t, hi).len() > 0 {
        seq![TokView::Esc(reset_seq())]
    } else {
        Seq::<TokView>::empty()
    };
    let e = if link_after(t, hi) is Some {
        seq![TokView::Esc(osc8_close_seq())]
    } else {
        Seq::<TokView>::empty()
    };
    a + b + c + d + e
}

/// The pieces of a slice spell it, are well-formed, and only the glyphs between
/// the first and the last kept one take columns, at most `end - start`.
proof fn lemma_slice_pieces(s: Seq<char>, start: int, end: int)
    requires
        start < end,
        first_kept(tokens(s, columns_of(s)), tokens(s, columns_of(s)).len() as int, start, end) is Some,
    ensures
        texts(slice_pieces(tokens(s, columns_of(s)), start, end)) == slice_tokens(tokens(s, columns_of(s)), start, end),
        all_ok(slice_pieces(tokens(s, columns_of(s)), start, end)),
        col_before(
            slice_pieces(tokens(s, columns_of(s)), start, end),
            slice_pieces(tokens(s, columns_of(s)), start, end).len() as int,
        ) <= end - start,
{
    let cw = columns_of(s);
    let t = tokens(s, cw);
    let n = t.len() as int;
    let o = slice_tokens(t, start, end);
    let lo = first_kept(t, n, start, end).unwrap();
    let hi = kept_end(t, n, start, end);
    lemma_first_kept(t, n, start, end);
    lemma_first_kept_facts(t, n, start, end);
    lemma_tokens_are_pieces(s, 0);
    let link = link_after(t, lo);
    let sgr = sgr_after(t, lo);
    let a = match link {
        Some(l) => seq![TokView::Esc(l)],
        None => Seq::<TokView>::empty(),
    };
    let b = esc_pieces(sgr);
    let c = t.subrange(lo, hi);
    let d = if sgr_after(t, hi).len() > 0 {
        seq![TokView::Esc(reset_seq())]
    } else {
        Seq::<TokView>::empty()
    };
    let e = if link_after(t, hi) is Some {
        seq![TokView::Esc(osc8_close_seq())]
    } else {
        Seq::<TokView>::empty()
    };
    let ps = a + b + c + d + e;
    assert(ps == slice_pieces(t, start, end));
    // Each piece is well-formed.
    lemma_link_from_tokens(t, lo);
    lemma_sgr_from_tokens(t, lo);
    assert(all_ok(a)) by {
        if let Some(l) = link {
            let j = choose|j: int| 0 <= j < lo && t[j] == TokView::Esc(l);
            assert(piece_ok(t[j]));
            assert(a[0] == TokView::Esc(l));
        }
    }
    assert(all_ok(b)) by {
        assert forall|m: int| 0 <= m < b.len() implies piece_ok(#[trigger] b[m]) by {
            let j = choose|j: int| 0 <= j < lo && t[j] == TokView::Esc(#[trigger] sgr[m]);
            assert(piece_ok(t[j]));
        }
    }
    assert(all_ok(c)) by {
        assert forall|m: int| 0 <= m < c.len() implies piece_ok(#[trigger] c[m]) by {
            assert(c[m] == t[lo + m]);
            assert(t[hi - 1] is Ch);
        }
    }
    assert(all_ok(d)) by {
        lemma_reset_is_escape();
    }
    assert(all_ok(e)) by {
        lemma_close_is_escape();
    }
    lemma_all_ok_concat(a, b);
    lemma_all_ok_concat(a + b, c);
    lemma_all_ok_concat(a + b + c, d);
    lemma_all_ok_concat(a + b + c + d, e);
    // The pieces spell the slice.
    lemma_texts_concat(a, b);
    lemma_texts_concat(a + b, c);
    lemma_texts_concat(a + b + c, d);
    lemma_texts_concat(a + b + c + d, e);
    lemma_esc_pieces(sgr);
    lemma_single_escape(reset_seq());
    lemma_single_escape(osc8_close_seq());
    if let Some(l) = link {
        lemma_single_escape(l);
    }
    assert(texts(Seq::<TokView>::empty()) == Seq::<char>::empty());
    assert(texts(ps) =~= o);
    // Only the glyphs between the first and last kept one take columns.
    lemma_col_concat(a, b);
    lemma_col_concat(a + b, c);
    lemma_col_concat(a + b + c, d);
    lemma_col_concat(a + b + c + d, e);
    lemma_col_subrange(t, lo, hi - lo);
    assert(col_before(Seq::<TokView>::empty(), 0) == 0);
    assert(col_before(t, hi) == col_before(t, hi - 1) + tok_width(t[hi - 1]));
}

/// A slice, read again, is never wider than the columns asked for: its display
/// width is at most `end - start`. Escape sequences carried into the slice take
/// no columns even once they stand next to other text.
pub proof fn law_slice_width_within_span(s: Seq<char>, start: int, end: int)
    requires
        start <= end,
    ensures
        text_width(
            text_slice(s, columns_of(s), start, end),
            columns_of(text_slice(s, columns_of(s), start, end)),
        ) <= end - start,
{
    let cw = columns_of(s);
    let t = tokens(s, cw);
    let n = t.len() as int;
    let e = clamp_end(s, cw, end);
    let o = text_slice(s, cw, start, end);
    if start >= e || first_kept(t, n, start, e) is None {
        assert(o.len() == 0);
        return ;
    }
    lemma_slice_pieces(s, start, e);
    let ps = slice_pieces(t, start, e);
    lemma_pieces_width(ps, 0);
    lemma_piece_start_ends(ps);
}

/// In a text that its tokens spell whole, token `j` that some token follows is
/// an escape token at its place in the text.
proof fn lemma_escape_token_place(s: Seq<char>, j: int)
    requires
        texts(tokens(s, columns_of(s))) == s,
        0 <= j,
        j + 1 < tokens(s, columns_of(s)).len(),
        tokens(s, columns_of(s))[j] is Esc,
    ensures
        ({
            let t = tokens(s, columns_of(s));
            let pj = piece_start(t, j);
            &&& escape_token_at(s, pj)
            &&& t[j] == TokView::Esc(s.subrange(pj, scan_end(s, pj)))
            &&& scan_end(s, pj) == piece_start(t, j + 1)
        }),
{
    let t = tokens(s, columns_of(s));
    lemma_token_at(s, j);
    lemma_token_at(s, j + 1);
}

/// Each piece of a slice of a text that its tokens spell whole is read back as
/// itself.
proof fn lemma_slice_pieces_read_back(s: Seq<char>, start: int, end: int)
    requires
        texts(tokens(s, columns_of(s))) == s,
        start < end,
        first_kept(tokens(s, columns_of(s)), tokens(s, columns_of(s)).len() as int, start, end) is Some,
    ensures
        forall|m: int|
            0 <= m < slice_pieces(tokens(s, columns_of(s)), start, end).len() ==> #[trigger] piece_reads_back(
                slice_pieces(tokens(s, columns_of(s)), start, end),
                m,
            ),
{
    let ps = slice_pieces(tokens(s, columns_of(s)), start, end);
    assert forall|m: int| 0 <= m < ps.len() implies #[trigger] piece_reads_back(ps, m) by {
        lemma_slice_piece_reads_back(s, start, end, m);
    }
}

/// Piece `m` of a slice of a text that its tokens spell whole is read back as
/// itself.
#[verifier::spinoff_prover]
#[verifier::rlimit(40)]
proof fn lemma_slice_piece_reads_back(s: Seq<char>, start: int, end: int, m: int)
    requires
        texts(tokens(s, columns_of(s))) == s,
        start < end,
        first_kept(tokens(s, columns_of(s)), tokens(s, columns_of(s)).len() as int, start, end) is Some,
        0 <= m < slice_pieces(tokens(s, columns_of(s)), start, end).len(),
    ensures
        piece_reads_back(slice_pieces(tokens(s, columns_of(s)), start, end), m),
{
    let cw = columns_of(s);
    let t = tokens(s, cw);
    let n = t.len() as int;
    let lo = first_kept(t, n, start, end).unwrap();
    let hi = kept_end(t, n, start, end);
    lemma_first_kept(t, n, start, end);
    lemma_first_kept_facts(t, n, start, end);
    lemma_tokens_are_pieces(s, 0);
    lemma_link_from_tokens(t, lo);
    lemma_link_opens(t, lo);
    lemma_sgr_from_tokens(t, lo);
    lemma_stack_ok_after(t, lo);
    let link = link_after(t, lo);
    let sgr = sgr_after(t, lo);
    let a = match link {
        Some(l) => seq![TokView::Esc(l)],
        None => Seq::<TokView>::empty(),
    };
    let b = esc_pieces(sgr);
    let c = t.subrange(lo, hi);
    let d = if sgr_after(t, hi).len() > 0 {
        seq![TokView::Esc(reset_seq())]
    } else {
        Seq::<TokView>::empty()
    };
    let e = if link_after(t, hi) is Some {
        seq![TokView::Esc(osc8_close_seq())]
    } else {
        Seq::<TokView>::empty()
    };
    let ps = a + b + c + d + e;
    assert(ps == slice_pieces(t, start, end));
    let la = a.len() as int;
    let lb = b.len() as int;
    let lc = c.len() as int;
    let ld = d.len() as int;
    {
        if m < la {
            let l = link.unwrap();
            assert(ps[m] == TokView::Esc(l));
            let j = choose|j: int| 0 <= j < lo && t[j] == TokView::Esc(l);
            lemma_escape_token_place(s, j);
            let pj = piece_start(t, j);
            assert(osc8_kind_of(l) == Some(true));
            assert(closed_escape(s.subrange(pj, scan_end(s, pj))));
            lemma_escape_piece_reads_back(ps, m, s, pj);
        } else if m < la + lb {
            let q = sgr[m - la];
            assert(ps[m] == TokView::Esc(q));
            let j = choose|j: int| 0 <= j < lo && t[j] == TokView::Esc(#[trigger] sgr[m - la]);
            lemma_escape_token_place(s, j);
            let pj = piece_start(t, j);
            assert(sgr_params_of(sgr[m - la]) is Some);
            assert(closed_escape(s.subrange(pj, scan_end(s, pj))));
            lemma_escape_piece_reads_back(ps, m, s, pj);
        } else if m < la + lb + lc {
            let k = lo + (m - la - lb);
            assert(ps[m] == t[k]);
            assert(t[hi - 1] is Ch);
            if t[k] is Esc {
                lemma_escape_token_place(s, k);
                lemma_token_at(s, k + 1);
                let pk = piece_start(t, k);
                assert(ps[m + 1] == t[k + 1]);
                let pk1 = piece_start(t, k + 1);
                assert(s.subrange(pk1, piece_start(t, k + 2))[0] == s[pk1]);
                lemma_escape_piece_reads_back(ps, m, s, pk);
            } else {
                assert(piece_ok(t[k]));
                if m + 1 < ps.len() && ps[m + 1] is Ch {
                    assert(m + 1 < la + lb + lc) by {
                        if m + 1 >= la + lb + lc {
                            assert(ps[m + 1] is Esc);
                        }
                    }
                    assert(ps[m + 1] == t[k + 1]);
                    lemma_token_at(s, k);
                    lemma_token_at(s, k + 1);
                    let pk = piece_start(t, k);
                    let pk1 = piece_start(t, k + 1);
                    lemma_glyph_end_bounds(s, cw, pk + 1);
                    assert(s.subrange(pk1, piece_start(t, k + 2))[0] == s[pk1]);
                }
            }
        } else if m < la + lb + lc + ld {
            assert(ps[m] == TokView::Esc(reset_seq()));
            let x = reset_seq().push('x');
            lemma_reset_token(x);
            lemma_escape_piece_reads_back(ps, m, x, 0);
        } else {
            assert(ps[m] == TokView::Esc(osc8_close_seq()));
            let x = osc8_close_seq().push('x');
            lemma_close_token(x);
            lemma_escape_piece_reads_back(ps, m, x, 0);
        }
    }
}

proof fn lemma_reset_token(x: Seq<char>)
    requires
        x == reset_seq().push('x'),
    ensures
        escape_token_at(x, 0),
        x.subrange(0, scan_end(x, 0)) == reset_seq(),
        closed_escape(reset_seq()),
{
    assert(run_end(x, 3, '\u{30}', '\u{3f}') == 3);
    assert(run_end(x, 2, '\u{30}', '\u{3f}') == 3);
    assert(run_end(x, 3, '\u{20}', '\u{2f}') == 3);
    assert(csi_end(x, 2) == 4);
    assert(scan_end(x, 0) == 4);
    assert(x.subrange(0, scan_end(x, 0)) =~= reset_seq());
}

proof fn lemma_close_token(x: Seq<char>)
    requires
        x == osc8_close_seq().push('x'),
    ensures
        escape_token_at(x, 0),
        x.subrange(0, scan_end(x, 0)) == osc8_close_seq(),
        closed_escape(osc8_close_seq()),
{
    assert(string_seq_end(x, 5) == 7);
    assert(string_seq_end(x, 4) == 7);
    assert(string_seq_end(x, 3) == 7);
    assert(string_seq_end(x, 2) == 7);
    assert(scan_end(x, 0) == 7);
    assert(x.subrange(0, scan_end(x, 0)) =~= osc8_close_seq());
}

proof fn lemma_run_single(st: Seq<Seq<char>>, l: Option<Seq<char>>, x: TokView)
    ensures
        sgr_run(st, seq![x]) == sgr_step(st, x),
        link_run(l, seq![x]) == link_step(l, x),
{
    let ps = seq![x];
    assert(ps.len() == 1);
    assert(ps.drop_last() =~= Seq::<TokView>::empty());
    assert(ps.last() == x);
    assert(sgr_run(st, ps.drop_last()) == st);
    assert(link_run(l, ps.drop_last()) == l);
}

/// What the tokens of `s` spell: `s` with its dropped control chars left out.
pub open spec fn spelled(s: Seq<char>) -> Seq<char> {
    texts(tokens(s, columns_of(s)))
}

/// Color cannot leak out of a slice and hyperlinks stay balanced: read again, a
/// slice leaves no SGR styling and no OSC 8 hyperlink open. This holds of every
/// text whose tokens, spelled out without the control chars that were dropped,
/// read back as the same tokens. (A dropped control char can instead join an
/// escape sequence cut short by it to the text after it.)
pub proof fn law_slice_leaves_nothing_open(s: Seq<char>, start: int, end: int)
    requires
        tokens(spelled(s), columns_of(spelled(s))) == tokens(s, columns_of(s)),
    ensures
        sgr_after(
            tokens(text_slice(s, columns_of(s), start, end), columns_of(text_slice(s, columns_of(s), start, end))),
            tokens(text_slice(s, columns_of(s), start, end), columns_of(text_slice(s, columns_of(s), start, end))).len() as int,
        ).len() == 0,
        link_after(
            tokens(text_slice(s, columns_of(s), start, end), columns_of(text_slice(s, columns_of(s), start, end))),
            tokens(text_slice(s, columns_of(s), start, end), columns_of(text_slice(s, columns_of(s), start, end))).len() as int,
        ) is None,
{
    let x = spelled(s);
    let t = tokens(s, columns_of(s));
    lemma_tokens_width(s, columns_of(s), 0);
    lemma_tokens_width(x, columns_of(x), 0);
    assert(texts(tokens(x, columns_of(x))) == x);
    assert(text_slice(x, columns_of(x), start, end) == text_slice(s, columns_of(s), start, end));
    lemma_spelled_slice_leaves_nothing_open(x, start, end);
}

/// A slice of a text that its tokens spell whole leaves no SGR styling and no
/// OSC 8 hyperlink open.
proof fn lemma_spelled_slice_leaves_nothing_open(s: Seq<char>, start: int, end: int)
    requires
        texts(tokens(s, columns_of(s))) == s,
    ensures
        sgr_after(
            tokens(text_slice(s, columns_of(s), start, end), columns_of(text_slice(s, columns_of(s), start, end))),
            tokens(text_slice(s, columns_of(s), start, end), columns_of(text_slice(s, columns_of(s), start, end))).len() as int,
        ).len() == 0,
        link_after(
            tokens(text_slice(s, columns_of(s), start, end), columns_of(text_slice(s, columns_of(s), start, end))),
            tokens(text_slice(s, columns_of(s), start, end), columns_of(text_slice(s, columns_of(s), start, end))).len() as int,
        ) is None,
{
    let cw = columns_of(s);
    let t = tokens(s, cw);
    let n = t.len() as int;
    let o = text_slice(s, cw, start, end);
    let to = tokens(o, columns_of(o));
    let end = clamp_end(s, cw, end);
    if start >= end || first_kept(t, n, start, end) is None {
        assert(o.len() == 0);
        assert(to.len() == 0);
        return ;
    }
    lemma_slice_pieces(s, start, end);
    lemma_slice_pieces_read_back(s, start, end);
    let ps = slice_pieces(t, start, end);
    lemma_tokens_of_pieces(ps, 0);
    lemma_piece_start_ends(ps);
    assert(ps.skip(0) =~= ps);
    assert(to == ps);
    lemma_slice_pieces_balanced(t, start, end);
    lemma_after_is_run(ps, ps.len() as int);
    assert(ps.take(ps.len() as int) =~= ps);
}

/// The pieces of a slice, run from no styling and no link, leave no styling and
/// no link open.
proof fn lemma_slice_pieces_balanced(t: Seq<TokView>, start: int, end: int)
    requires
        first_kept(t, t.len() as int, start, end) is Some,
    ensures
        sgr_run(Seq::empty(), slice_pieces(t, start, end)).len() == 0,
        link_run(None, slice_pieces(t, start, end)) is None,
{
    let n = t.len() as int;
    let ps = slice_pieces(t, start, end);
    let lo = first_kept(t, n, start, end).unwrap();
    let hi = kept_end(t, n, start, end);
    lemma_first_kept(t, n, start, end);
    let link = link_after(t, lo);
    let sgr = sgr_after(t, lo);
    let a = match link {
        Some(l) => seq![TokView::Esc(l)],
        None => Seq::<TokView>::empty(),
    };
    let b = esc_pieces(sgr);
    let c = t.subrange(lo, hi);
    let d = if sgr_after(t, hi).len() > 0 {
        seq![TokView::Esc(reset_seq())]
    } else {
        Seq::<TokView>::empty()
    };
    let e = if link_after(t, hi) is Some {
        seq![TokView::Esc(osc8_close_seq())]
    } else {
        Seq::<TokView>::empty()
    };
    assert(ps == a + b + c + d + e);
    let empty = Seq::<Seq<char>>::empty();
    lemma_run_concat(empty, None, a + b + c + d, e);
    lemma_run_concat(empty, None, a + b + c, d);
    lemma_run_concat(empty, None, a + b, c);
    lemma_run_concat(empty, None, a, b);
    // The reopened link: the link is set, the stack stays empty.
    lemma_link_opens(t, lo);
    if let Some(l) = link {
        lemma_run_single(empty, None, TokView::Esc(l));
        lemma_reopen_effect(empty, l);
    }
    assert(sgr_run(empty, a) == empty);
    assert(link_run(None, a) == link);
    // The replayed SGR stack.
    lemma_stack_ok_after(t, lo);
    lemma_replay_stack(sgr);
    assert(sgr_run(empty, a + b) == sgr);
    assert(link_run(None, a + b) == link);
    // The kept tokens bring the state to where the sliced text had it.
    lemma_after_is_run(t, lo);
    lemma_after_is_run(t, hi);
    assert(t.take(hi) =~= t.take(lo) + c);
    lemma_run_concat(empty, None, t.take(lo), c);
    assert(sgr_run(empty, a + b + c) == sgr_after(t, hi));
    assert(link_run(None, a + b + c) == link_after(t, hi));
    // The reset and the close.
    if sgr_after(t, hi).len() > 0 {
        lemma_run_single(sgr_after(t, hi), link_after(t, hi), TokView::Esc(reset_seq()));
        lemma_reset_effect(sgr_after(t, hi), link_after(t, hi));
    }
    assert(sgr_run(empty, a + b + c + d).len() == 0);
    assert(link_run(None, a + b + c + d) == link_after(t, hi));
    if link_after(t, hi) is Some {
        lemma_run_single(sgr_run(empty, a + b + c + d), link_after(t, hi), TokView::Esc(osc8_close_seq()));
        lemma_close_effect(sgr_run(empty, a + b + c + d), link_after(t, hi));
    }
}

/// The pieces that `slice` puts together: none where nothing is kept, else those
/// of `slice_pieces` for `end` clamped to the width.
pub open spec fn slice_parts(s: Seq<char>, start: int, end: int) -> Seq<TokView> {
    let t = tokens(s, columns_of(s));
    let e = clamp_end(s, columns_of(s), end);
    if start < e && first_kept(t, t.len() as int, start, e) is Some {
        slice_pieces(t, start, e)
    } else {
        Seq::empty()
    }
}

/// Color cannot leak out of a slice and hyperlinks stay balanced, for every
/// text: the pieces a slice is built from (the re-opened link, the replayed SGR
/// stack, the copied tokens, the reset and the close) spell the slice, and run
/// one after the other from no styling and no link, they leave no styling and no
/// link open.
pub proof fn law_slice_closes_what_it_opens(s: Seq<char>, start: int, end: int)
    ensures
        texts(slice_parts(s, start, end)) == text_slice(s, columns_of(s), start, end),
        sgr_run(Seq::empty(), slice_parts(s, start, end)).len() == 0,
        link_run(None, slice_parts(s, start, end)) is None,
{
    let cw = columns_of(s);
    let t = tokens(s, cw);
    let n = t.len() as int;
    let e = clamp_end(s, cw, end);
    if start < e && first_kept(t, n, start, e) is Some {
        lemma_slice_pieces(s, start, e);
        lemma_slice_pieces_balanced(t, start, e);
    } else {
        assert(texts(Seq::<TokView>::empty()) == Seq::<char>::empty());
    }
}

/// The reset walk stays where it is when no parameter from `k` on resets.
proof fn lemma_walk_without_reset(ps: Seq<Seq<char>>, k: int, after: bool)
    requires
        0 <= k,
        forall|m: int| k <= m < ps.len() ==> !is_reset(#[trigger] ps[m]),
    ensures
        reset_walk(ps, k, false, after).0 == false,
    decreases ps.len() - k,
{
    if k < ps.len() {
        assert(!is_reset(ps[k]));
        lemma_walk_without_reset(ps, next_param(ps, k), true);
    }
}

/// Once the reset walk has seen a reset, it keeps it.
proof fn lemma_walk_keeps_reset(ps: Seq<Seq<char>>, k: int, after: bool)
    ensures
        reset_walk(ps, k, true, after).0 == true,
    decreases ps.len() - k,
{
    if 0 <= k < ps.len() {
        if is_reset(ps[k]) {
            lemma_walk_keeps_reset(ps, next_param(ps, k), false);
        } else {
            lemma_walk_keeps_reset(ps, next_param(ps, k), true);
        }
    }
}

/// `p` holds a char other than `0`: an SGR parameter that is neither empty nor
/// all zeros.
pub open spec fn has_nonzero(p: Seq<char>) -> bool {
    exists|j: int| 0 <= j < p.len() && p[j] != '0'
}

/// An SGR sequence none of whose `;`-separated parameters is empty or all
/// zeros (such as `39`, `49` or `1;31`) resets nothing: it is pushed on top of
/// the active styling, which stays as it was beneath it.
pub proof fn law_sgr_without_reset_pushes(active: Seq<Seq<char>>, q: Seq<char>)
    requires
        sgr_params_of(q) is Some,
        forall|m: int|
            0 <= m < split_params(sgr_params_of(q).unwrap()).len() ==> has_nonzero(
                #[trigger] split_params(sgr_params_of(q).unwrap())[m],
            ),
    ensures
        sgr_update(active, q) == active.push(q),
{
    let ps = split_params(sgr_params_of(q).unwrap());
    assert forall|m: int| 0 <= m < ps.len() implies !is_reset(#[trigger] ps[m]) by {
        assert(has_nonzero(ps[m]));
        let j = choose|j: int| 0 <= j < ps[m].len() && ps[m][j] != '0';
    }
    lemma_walk_without_reset(ps, 0, false);
}

/// An SGR sequence whose first parameter is empty or all zeros (`ESC [ m`,
/// `ESC [ 0 ; 1 m`, ...) clears the active styling: what is left is nothing, or
/// the sequence alone where it sets styles after its reset.
pub proof fn law_sgr_leading_reset_clears(active: Seq<Seq<char>>, q: Seq<char>)
    requires
        sgr_params_of(q) is Some,
        forall|j: int|
            0 <= j < split_params(sgr_params_of(q).unwrap())[0].len() ==> #[trigger] split_params(
                sgr_params_of(q).unwrap(),
            )[0][j] == '0',
    ensures
        sgr_update(active, q) == Seq::<Seq<char>>::empty() || sgr_update(active, q) == seq![q],
{
    let ps = split_params(sgr_params_of(q).unwrap());
    crate::sgr::lemma_split_params_nonempty(sgr_params_of(q).unwrap());
    assert(is_reset(ps[0]));
    lemma_walk_keeps_reset(ps, next_param(ps, 0), false);
}

/// The open hyperlink after the first `n` tokens is the last OSC 8 open among
/// them when no OSC 8 sequence follows it: a later open replaces an earlier link.
pub proof fn law_link_is_last_open(t: Seq<TokView>, j: int, n: int)
    requires
        0 <= j < n <= t.len(),
        t[j] is Esc,
        osc8_kind_of(tok_text(t[j])) == Some(true),
        forall|k: int| j < k < n ==> (#[trigger] t[k] is Ch || osc8_kind_of(tok_text(t[k])) is None),
    ensures
        link_after(t, n) == Some(tok_text(t[j])),
    decreases n,
{
    if n - 1 > j {
        law_link_is_last_open(t, j, n - 1);
        assert(t[n - 1] is Ch || osc8_kind_of(tok_text(t[n - 1])) is None);
    }
}

/// No hyperlink is open after the first `n` tokens when the last OSC 8 sequence
/// among them closes a link, or when there is none.
pub proof fn law_link_closed_after_close(t: Seq<TokView>, j: int, n: int)
    requires
        -1 <= j < n <= t.len(),
        j >= 0 ==> t[j] is Esc && osc8_kind_of(tok_text(t[j])) == Some(false),
        forall|k: int| j < k < n ==> (#[trigger] t[k] is Ch || osc8_kind_of(tok_text(t[k])) is None),
    ensures
        link_after(t, n) is None,
    decreases n,
{
    if n - 1 > j && n > 0 {
        law_link_closed_after_close(t, j, n - 1);
        assert(t[n - 1] is Ch || osc8_kind_of(tok_text(t[n - 1])) is None);
    }
}

/// A text of wide chars (East Asian Width W or F, such as CJK ideographs or
/// emoticons) takes two columns a char.
pub proof fn law_wide_text_width(s: Seq<char>)
    requires
        forall|i: int| 0 <= i < s.len() ==> known_columns(#[trigger] s[i]) && wide_char(s[i]),
    ensures
        text_width(s, columns_of(s)) == 2 * s.len(),
{
    lemma_wide_width_from(s, 0);
}

proof fn lemma_wide_width_from(s: Seq<char>, i: int)
    requires
        0 <= i <= s.len(),
        forall|i: int| 0 <= i < s.len() ==> known_columns(#[trigger] s[i]) && wide_char(s[i]),
    ensures
        width_from(s, columns_of(s), i) == 2 * (s.len() - i),
    decreases s.len() - i,
{
    if i < s.len() {
        assert(known_columns(s[i]) && wide_char(s[i]));
        assert(!starts_escape(s[i]));
        assert(!crate::scan::is_control_char(s[i]));
        assert(scan_end(s, i) == i + 1);
        lemma_wide_width_from(s, i + 1);
    }
}

} // verus!
