//! Reading text back into tokens: where the tokens of a text stand, and when a
//! text assembled from pieces tokenizes into exactly those pieces.

use vstd::prelude::*;
use crate::rescan::{agree, escape_token_at, lemma_rescan_exact, lemma_rescan_exact_closed};
use crate::pieces::{glyph_ok, lemma_escape_start_is_control, lemma_piece_layout, lemma_piece_start_ends, lemma_texts_concat, piece_start};
use crate::scan::{is_control_char, lemma_scan_end_bounds, scan_end, starts_escape, visible_at};
use crate::slice::texts;
use crate::token::{glyph_end, lemma_glyph_end_bounds, tok_text, tokens_from, TokView};
use crate::unicode::{char_columns, columns_of};

verus! {

pub proof fn lemma_texts_cons(x: TokView, r: Seq<TokView>)
    ensures
        texts(seq![x] + r) == tok_text(x) + texts(r),
{
    lemma_texts_concat(seq![x], r);
    let ps = seq![x];
    assert(ps.len() == 1);
    assert(ps.last() == x);
    assert(ps.drop_last() =~= Seq::<TokView>::empty());
    assert(texts(ps.drop_last()) == Seq::<char>::empty());
    assert(texts(ps) =~= tok_text(x));
}

pub proof fn lemma_piece_start_cons(x: TokView, r: Seq<TokView>, k: int)
    requires
        0 <= k <= r.len(),
    ensures
        piece_start(seq![x] + r, k + 1) == tok_text(x).len() + piece_start(r, k),
{
    assert((seq![x] + r).take(k + 1) =~= seq![x] + r.take(k));
    lemma_texts_cons(x, r.take(k));
}

/// The tokens of `s[i..]` spell at most `s[i..]`: control chars are dropped.
pub proof fn lemma_tokens_text_len(s: Seq<char>, cw: Seq<usize>, i: int)
    requires
        0 <= i <= s.len(),
    ensures
        texts(tokens_from(s, cw, i)).len() <= s.len() - i,
    decreases s.len() - i,
{
    if i < s.len() {
        lemma_scan_end_bounds(s, i);
        if starts_escape(s[i]) {
            let n = scan_end(s, i);
            lemma_tokens_text_len(s, cw, n);
            lemma_texts_cons(TokView::Esc(s.subrange(i, n)), tokens_from(s, cw, n));
        } else if is_control_char(s[i]) {
            lemma_tokens_text_len(s, cw, i + 1);
        } else {
            lemma_glyph_end_bounds(s, cw, i + 1);
            let g = glyph_end(s, cw, i + 1);
            lemma_tokens_text_len(s, cw, g);
            lemma_texts_cons(TokView::Ch(s.subrange(i, g), cw[i]), tokens_from(s, cw, g));
        }
    }
}

/// In a text whose tokens spell it whole, each token starts where the text of the
/// tokens before it ends.
pub proof fn lemma_token_positions(s: Seq<char>, cw: Seq<usize>, i: int)
    requires
        0 <= i <= s.len(),
        texts(tokens_from(s, cw, i)) == s.subrange(i, s.len() as int),
    ensures
        forall|k: int|
            0 <= k <= tokens_from(s, cw, i).len() ==> tokens_from(
                s,
                cw,
                i + #[trigger] piece_start(tokens_from(s, cw, i), k),
            ) == tokens_from(s, cw, i).skip(k),
    decreases s.len() - i,
{
    let tf = tokens_from(s, cw, i);
    if i == s.len() {
        assert forall|k: int| 0 <= k <= tf.len() implies tokens_from(
            s,
            cw,
            i + #[trigger] piece_start(tf, k),
        ) == tf.skip(k) by {
            assert(tf.take(0) =~= Seq::<TokView>::empty());
            assert(tf.skip(0) =~= tf);
        }
        return ;
    }
    lemma_scan_end_bounds(s, i);
    if starts_escape(s[i]) || !is_control_char(s[i]) {
        let n = if starts_escape(s[i]) {
            scan_end(s, i)
        } else {
            lemma_glyph_end_bounds(s, cw, i + 1);
            glyph_end(s, cw, i + 1)
        };
        let x = tf[0];
        let r = tokens_from(s, cw, n);
        assert(tf == seq![x] + r);
        assert(tok_text(x) == s.subrange(i, n));
        lemma_texts_cons(x, r);
        assert(texts(r) =~= s.subrange(n, s.len() as int)) by {
            let a = tok_text(x);
            assert(texts(tf) == a + texts(r));
            assert(texts(r) =~= (a + texts(r)).subrange(a.len() as int, (a + texts(r)).len() as int));
            assert(s.subrange(i, s.len() as int).subrange(n - i, s.len() - i) =~= s.subrange(n, s.len() as int));
        }
        lemma_token_positions(s, cw, n);
        assert forall|k: int| 0 <= k <= tf.len() implies tokens_from(
            s,
            cw,
            i + #[trigger] piece_start(tf, k),
        ) == tf.skip(k) by {
            if k == 0 {
                assert(tf.take(0) =~= Seq::<TokView>::empty());
                assert(tf.skip(0) =~= tf);
            } else {
                lemma_piece_start_cons(x, r, k - 1);
                assert(tf.skip(k) =~= r.skip(k - 1));
                assert(tokens_from(s, cw, n + piece_start(r, k - 1)) == r.skip(k - 1));
            }
        }
    } else {
        lemma_tokens_text_len(s, cw, i + 1);
        assert(texts(tf).len() == s.len() - i);
        assert(false);
    }
}

/// Where the `k`-th token of a text that its tokens spell whole stands.
pub proof fn lemma_token_at(s: Seq<char>, k: int)
    requires
        texts(tokens_from(s, columns_of(s), 0)) == s,
        0 <= k < tokens_from(s, columns_of(s), 0).len(),
    ensures
        ({
            let t = tokens_from(s, columns_of(s), 0);
            let pk = piece_start(t, k);
            let pn = piece_start(t, k + 1);
            &&& 0 <= pk < pn <= s.len()
            &&& s.subrange(pk, pn) == tok_text(t[k])
            &&& t[k] is Esc ==> starts_escape(s[pk]) && scan_end(s, pk) == pn
            &&& t[k] is Ch ==> visible_at(s, pk) && glyph_end(s, columns_of(s), pk + 1) == pn
        }),
{
    let cw = columns_of(s);
    let t = tokens_from(s, cw, 0);
    assert(s.subrange(0, s.len() as int) =~= s);
    lemma_token_positions(s, cw, 0);
    let pk = piece_start(t, k);
    let pn = piece_start(t, k + 1);
    lemma_piece_layout(t, k);
    lemma_piece_start_ends(t);
    assert(tokens_from(s, cw, 0 + pk) == t.skip(k));
    assert(tokens_from(s, cw, 0 + pn) == t.skip(k + 1));
    let tk = t.skip(k);
    assert(tk[0] == t[k]);
    // The token text is not empty.
    if pk >= s.len() {
        assert(tk.len() == 0);
    }
    lemma_scan_end_bounds(s, pk);
    if starts_escape(s[pk]) {
        let n = scan_end(s, pk);
        assert(t[k] == TokView::Esc(s.subrange(pk, n)));
    } else if is_control_char(s[pk]) {
        // A dropped char would leave the tokens short of the text.
        lemma_tokens_text_len(s, cw, pk + 1);
        assert(t =~= t.take(k) + t.skip(k));
        lemma_texts_concat(t.take(k), t.skip(k));
        assert(false);
    } else {
        lemma_glyph_end_bounds(s, cw, pk + 1);
        let g = glyph_end(s, cw, pk + 1);
        assert(t[k] == TokView::Ch(s.subrange(pk, g), cw[pk]));
    }
}

/// Piece `k` is read back as itself: a glyph whose follower, if a glyph, takes
/// columns; or an escape sequence that the scanner ends where the piece ends.
pub open spec fn piece_reads_back(ps: Seq<TokView>, k: int) -> bool {
    match ps[k] {
        TokView::Ch(g, w) => glyph_ok(g, w) && (k + 1 < ps.len() && ps[k + 1] is Ch
            ==> char_columns(tok_text(ps[k + 1])[0]) != 0),
        TokView::Esc(e) => e.len() >= 1 && starts_escape(e[0]) && scan_end(
            texts(ps),
            piece_start(ps, k),
        ) == piece_start(ps, k + 1),
    }
}

pub proof fn lemma_glyph_end_exact(s: Seq<char>, cw: Seq<usize>, a: int, b: int)
    requires
        0 <= a <= b <= s.len(),
        forall|q: int| #![trigger s[q]] a <= q < b ==> visible_at(s, q) && cw[q] == 0,
        b == s.len() || !(visible_at(s, b) && cw[b] == 0),
    ensures
        glyph_end(s, cw, a) == b,
    decreases b - a,
{
    if a < b {
        assert(visible_at(s, a) && cw[a] == 0);
        lemma_glyph_end_exact(s, cw, a + 1, b);
    }
}

/// A text assembled from pieces that each read back as themselves tokenizes into
/// exactly those pieces.
pub proof fn lemma_tokens_of_pieces(ps: Seq<TokView>, k: int)
    requires
        0 <= k <= ps.len(),
        forall|m: int| 0 <= m < ps.len() ==> #[trigger] piece_reads_back(ps, m),
    ensures
        tokens_from(texts(ps), columns_of(texts(ps)), piece_start(ps, k)) == ps.skip(k),
    decreases ps.len() - k,
{
    let o = texts(ps);
    let cw = columns_of(o);
    lemma_piece_start_ends(ps);
    if k == ps.len() {
        assert(ps.skip(k) =~= Seq::<TokView>::empty());
        return ;
    }
    lemma_piece_layout(ps, k);
    let p = piece_start(ps, k);
    let nx = piece_start(ps, k + 1);
    assert(piece_reads_back(ps, k));
    lemma_tokens_of_pieces(ps, k + 1);
    assert(ps.skip(k) =~= seq![ps[k]] + ps.skip(k + 1));
    match ps[k] {
        TokView::Ch(g, w) => {
            assert(o[p + 0] == g[0]);
            lemma_escape_start_is_control(g[0]);
            assert forall|q: int| #![trigger o[q]] p + 1 <= q < nx implies visible_at(o, q) && cw[q]
                == 0 by {
                assert(o[p + (q - p)] == g[q - p]);
                lemma_escape_start_is_control(o[q]);
            }
            if nx < o.len() {
                assert(k + 1 < ps.len()) by {
                    if k + 1 >= ps.len() {
                        assert(nx == o.len());
                    }
                }
                lemma_piece_layout(ps, k + 1);
                let t2 = tok_text(ps[k + 1]);
                assert(piece_reads_back(ps, k + 1));
                assert(t2.len() >= 1);
                assert(o.subrange(nx, piece_start(ps, k + 2))[0] == o[nx]);
                assert(o[nx] == t2[0]);
                lemma_escape_start_is_control(o[nx]);
            }
            lemma_glyph_end_exact(o, cw, p + 1, nx);
            assert(o.subrange(p, nx) == g);
        },
        TokView::Esc(e) => {
            assert(o[p + 0] == e[0]);
        },
    }
}

/// An escape sequence that is a string sequence or an SGR-style CSI closed by `m`.
pub open spec fn closed_escape(e: Seq<char>) -> bool {
    ||| (e.len() >= 3 && e[0] == crate::scan::esc() && e[1] == '[' && e[e.len() - 1] == 'm')
    ||| (e.len() >= 2 && e[0] == '\u{9b}' && e[e.len() - 1] == 'm')
    ||| (e.len() >= 2 && e[0] == crate::scan::esc() && e[1] == ']')
    ||| (e.len() >= 1 && e[0] == '\u{9d}')
}

/// An escape piece cut from some input is read back as itself when it is closed,
/// or when the piece after it starts with the char that followed it there.
pub proof fn lemma_escape_piece_reads_back(ps: Seq<TokView>, m: int, x: Seq<char>, i: int)
    requires
        0 <= m < ps.len(),
        escape_token_at(x, i),
        ps[m] == TokView::Esc(x.subrange(i, scan_end(x, i))),
        closed_escape(x.subrange(i, scan_end(x, i))) || (m + 1 < ps.len() && tok_text(
            ps[m + 1],
        ).len() >= 1 && tok_text(ps[m + 1])[0] == x[scan_end(x, i)]),
    ensures
        piece_reads_back(ps, m),
{
    let o = texts(ps);
    let n = scan_end(x, i);
    let len = n - i;
    let e = x.subrange(i, n);
    lemma_scan_end_bounds(x, i);
    lemma_piece_layout(ps, m);
    let p = piece_start(ps, m);
    let nx = piece_start(ps, m + 1);
    assert(agree(x, i, o, p, len)) by {
        assert forall|d: int| 0 <= d < len implies x[i + d] == #[trigger] o[p + d] by {
            assert(o.subrange(p, nx)[d] == o[p + d]);
            assert(e[d] == x[i + d]);
        }
    }
    assert(e[0] == x[i]);
    if closed_escape(e) {
        lemma_rescan_exact_closed(x, i, o, p);
    } else {
        lemma_piece_layout(ps, m + 1);
        assert(o.subrange(nx, piece_start(ps, m + 2))[0] == o[nx]);
        assert(agree(x, i, o, p, len + 1)) by {
            assert forall|d: int| 0 <= d < len + 1 implies x[i + d] == #[trigger] o[p + d] by {
                if d < len {
                    assert(o.subrange(p, nx)[d] == o[p + d]);
                    assert(e[d] == x[i + d]);
                }
            }
        }
        lemma_rescan_exact(x, i, o, p);
    }
}

} // verus!
