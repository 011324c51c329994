//! Plain text, which holds no control char and so no escape sequence: its tokens
//! are its glyphs, one after the other; and the scanner reads the text after such
//! a prefix as it reads it alone.

use vstd::prelude::*;
use crate::pieces::lemma_escape_start_is_control;
use crate::readback::lemma_texts_cons;
use crate::scan::{
    csi_end, escape_end, is_control_char, lemma_scan_end_bounds, run_end, scan_end,
    starts_escape, string_seq_end, visible_at,
};
use crate::slice::{
    col_before, concat_all, first_kept, kept, kept_end, lemma_first_kept_facts, link_after, opt_chars,
    sgr_after, slice_tokens, texts,
};
use crate::token::{glyph_end, lemma_glyph_end_bounds, tok_width, tokens_from, width_from, TokView};

verus! {

/// No char of `s` is a control char.
pub open spec fn plain(s: Seq<char>) -> bool {
    forall|q: int| 0 <= q < s.len() ==> !is_control_char(#[trigger] s[q])
}

/// The tokens of plain text from `i` are glyphs that spell it; the first takes the
/// columns of `s[i]`, each later one takes some columns, and where no char of `s`
/// takes more than `most` columns, no glyph does.
pub proof fn lemma_plain_tokens(s: Seq<char>, cw: Seq<usize>, i: int, most: int)
    requires
        plain(s),
        cw.len() == s.len(),
        0 <= i <= s.len(),
    ensures
        ({
            let t = tokens_from(s, cw, i);
            &&& texts(t) == s.subrange(i, s.len() as int)
            &&& forall|k: int| 0 <= k < t.len() ==> #[trigger] t[k] is Ch
            &&& (forall|q: int| 0 <= q < s.len() ==> cw[q] <= most) ==> forall|k: int|
                0 <= k < t.len() ==> tok_width(#[trigger] t[k]) <= most
            &&& forall|k: int| 1 <= k < t.len() ==> tok_width(#[trigger] t[k]) != 0
            &&& i < s.len() ==> t.len() >= 1 && tok_width(t[0]) == cw[i]
        }),
    decreases s.len() - i,
{
    let t = tokens_from(s, cw, i);
    if i >= s.len() {
        assert(s.subrange(i, s.len() as int) =~= Seq::<char>::empty());
    } else {
        lemma_escape_start_is_control(s[i]);
        assert(!is_control_char(s[i]));
        lemma_glyph_end_bounds(s, cw, i + 1);
        let g = glyph_end(s, cw, i + 1);
        let x = TokView::Ch(s.subrange(i, g), cw[i]);
        let r = tokens_from(s, cw, g);
        lemma_plain_tokens(s, cw, g, most);
        assert(t == seq![x] + r);
        lemma_texts_cons(x, r);
        assert(s.subrange(i, s.len() as int) =~= s.subrange(i, g) + s.subrange(g, s.len() as int));
        assert forall|k: int| 1 <= k < t.len() implies tok_width(#[trigger] t[k]) != 0 by {
            assert(t[k] == r[k - 1]);
            if k == 1 {
                assert(g < s.len());
                assert(!is_control_char(s[g]));
                lemma_escape_start_is_control(s[g]);
                assert(visible_at(s, g));
            }
        }
        assert forall|k: int| 0 <= k < t.len() implies #[trigger] t[k] is Ch by {
            if k > 0 {
                assert(t[k] == r[k - 1]);
            }
        }
        if forall|q: int| 0 <= q < s.len() ==> cw[q] <= most {
            assert forall|k: int| 0 <= k < t.len() implies tok_width(#[trigger] t[k]) <= most by {
                if k > 0 {
                    assert(t[k] == r[k - 1]);
                }
            }
        }
    }
}

/// A run of glyphs opens no styling and no hyperlink.
pub proof fn lemma_glyphs_leave_no_state(t: Seq<TokView>, n: int)
    requires
        0 <= n <= t.len(),
        forall|k: int| 0 <= k < t.len() ==> #[trigger] t[k] is Ch,
    ensures
        sgr_after(t, n) == Seq::<Seq<char>>::empty(),
        link_after(t, n) is None,
    decreases n,
{
    if n > 0 {
        lemma_glyphs_leave_no_state(t, n - 1);
        assert(t[n - 1] is Ch);
    }
}

/// The number of tokens among the first `n` that start before column `c`.
pub open spec fn count_before(t: Seq<TokView>, n: int, c: int) -> int
    decreases n,
{
    if n <= 0 {
        0
    } else if col_before(t, n - 1) < c {
        n
    } else {
        count_before(t, n - 1, c)
    }
}

/// The tokens that start before column `c` are exactly the first
/// `count_before(t, n, c)` ones.
pub proof fn lemma_count_before(t: Seq<TokView>, n: int, c: int)
    requires
        0 <= n <= t.len(),
    ensures
        0 <= count_before(t, n, c) <= n,
        forall|k: int| 0 <= k < n ==> (col_before(t, k) < c <==> k < count_before(t, n, c)),
    decreases n,
{
    if n > 0 {
        lemma_count_before(t, n - 1, c);
        if col_before(t, n - 1) < c {
            assert forall|k: int| 0 <= k < n implies col_before(t, k) < c by {
                crate::slice::lemma_col_before_mono(t, k, n - 1);
            }
        }
    }
}

pub proof fn lemma_count_before_mono(t: Seq<TokView>, n: int, c: int, d: int)
    requires
        0 <= n <= t.len(),
        c <= d,
    ensures
        count_before(t, n, c) <= count_before(t, n, d),
{
    lemma_count_before(t, n, c);
    lemma_count_before(t, n, d);
    if count_before(t, n, c) > count_before(t, n, d) {
        let k = count_before(t, n, d);
        assert(col_before(t, k) < c);
    }
}

/// Among glyphs of at most one column, those kept by `[start, end)` are the ones
/// from `count_before(start)` up to `count_before(end)`.
pub proof fn lemma_narrow_kept(t: Seq<TokView>, start: int, end: int)
    requires
        start < end,
        forall|k: int| 0 <= k < t.len() ==> #[trigger] t[k] is Ch,
        forall|k: int| 0 <= k < t.len() ==> tok_width(#[trigger] t[k]) <= 1,
    ensures
        ({
            let n = t.len() as int;
            let a = count_before(t, n, start);
            let b = count_before(t, n, end);
            &&& a <= b
            &&& a < b ==> first_kept(t, n, start, end) == Some(a) && kept_end(t, n, start, end)
                == b
            &&& a == b ==> first_kept(t, n, start, end) is None
        }),
{
    let n = t.len() as int;
    let a = count_before(t, n, start);
    let b = count_before(t, n, end);
    lemma_count_before(t, n, start);
    lemma_count_before(t, n, end);
    lemma_count_before_mono(t, n, start, end);
    assert forall|k: int| 0 <= k < n implies kept(t, k, start, end) == (a <= k < b) by {
        assert(t[k] is Ch);
        assert(tok_width(t[k]) <= 1);
    }
    crate::slice::lemma_first_kept(t, n, start, end);
    lemma_first_kept_facts(t, n, start, end);
    if a < b {
        assert(kept(t, a, start, end));
        assert(kept(t, b - 1, start, end));
    }
}

/// A slice of glyphs of at most one column is the run of glyphs from
/// `count_before(start)` up to `count_before(end)`.
pub proof fn lemma_narrow_slice(t: Seq<TokView>, start: int, end: int)
    requires
        start <= end,
        forall|k: int| 0 <= k < t.len() ==> #[trigger] t[k] is Ch,
        forall|k: int| 0 <= k < t.len() ==> tok_width(#[trigger] t[k]) <= 1,
    ensures
        0 <= count_before(t, t.len() as int, start) <= count_before(t, t.len() as int, end)
            <= t.len(),
        slice_tokens(t, start, end) == texts(
            t.subrange(count_before(t, t.len() as int, start), count_before(t, t.len() as int, end)),
        ),
{
    let n = t.len() as int;
    let a = count_before(t, n, start);
    let b = count_before(t, n, end);
    lemma_count_before(t, n, start);
    lemma_count_before(t, n, end);
    lemma_count_before_mono(t, n, start, end);
    if start == end || a == b {
        assert(t.subrange(a, b) =~= Seq::<TokView>::empty());
        assert(texts(Seq::<TokView>::empty()) == Seq::<char>::empty());
        if start < end {
            lemma_narrow_kept(t, start, end);
        }
    } else {
        lemma_narrow_kept(t, start, end);
        lemma_glyphs_leave_no_state(t, a);
        lemma_glyphs_leave_no_state(t, b);
        assert(concat_all(Seq::<Seq<char>>::empty()) == Seq::<char>::empty());
        assert(opt_chars(None) == Seq::<char>::empty());
        assert(slice_tokens(t, start, end) =~= texts(t.subrange(a, b)));
    }
}

pub proof fn lemma_run_end_shift(p: Seq<char>, s: Seq<char>, j: int, lo: char, hi: char)
    requires
        0 <= j,
    ensures
        run_end(p + s, p.len() + j, lo, hi) == p.len() + run_end(s, j, lo, hi),
    decreases s.len() - j,
{
    if j < s.len() {
        assert((p + s)[p.len() + j] == s[j]);
        lemma_run_end_shift(p, s, j + 1, lo, hi);
    }
}

pub proof fn lemma_string_seq_end_shift(p: Seq<char>, s: Seq<char>, j: int)
    requires
        0 <= j,
    ensures
        string_seq_end(p + s, p.len() + j) == p.len() + string_seq_end(s, j),
    decreases s.len() - j,
{
    if j < s.len() {
        assert((p + s)[p.len() + j] == s[j]);
        if j + 1 < s.len() {
            assert((p + s)[p.len() + j + 1] == s[j + 1]);
        }
        lemma_string_seq_end_shift(p, s, j + 1);
    }
}

pub proof fn lemma_csi_end_shift(p: Seq<char>, s: Seq<char>, j: int)
    requires
        0 <= j,
    ensures
        csi_end(p + s, p.len() + j) == p.len() + csi_end(s, j),
{
    let x = p + s;
    lemma_run_end_shift(p, s, j, '\u{30}', '\u{3f}');
    let a = run_end(s, j, '\u{30}', '\u{3f}');
    if j <= s.len() {
        crate::scan::lemma_run_end_bounds(s, j, '\u{30}', '\u{3f}');
    } else {
        assert(a == j);
    }
    lemma_run_end_shift(p, s, a, '\u{20}', '\u{2f}');
    let b = run_end(s, a, '\u{20}', '\u{2f}');
    if a <= s.len() {
        crate::scan::lemma_run_end_bounds(s, a, '\u{20}', '\u{2f}');
    } else {
        assert(b == a);
    }
    assert(run_end(x, p.len() + j, '\u{30}', '\u{3f}') == p.len() + a);
    assert(run_end(x, p.len() + a, '\u{20}', '\u{2f}') == p.len() + b);
    if b < s.len() {
        assert(x[p.len() + b] == s[b]);
    }
}

/// The scanner reads `s` after any prefix `p` as it reads `s` alone.
pub proof fn lemma_scan_end_shift(p: Seq<char>, s: Seq<char>, i: int)
    requires
        0 <= i < s.len(),
    ensures
        scan_end(p + s, p.len() + i) == p.len() + scan_end(s, i),
{
    let x = p + s;
    let q = p.len() + i;
    assert(x[q] == s[i]);
    if s[i] == crate::scan::esc() {
        if i + 1 < s.len() {
            assert(x[q + 1] == s[i + 1]);
            lemma_csi_end_shift(p, s, i + 2);
            lemma_string_seq_end_shift(p, s, i + 2);
            lemma_run_end_shift(p, s, i + 2, '\u{20}', '\u{2f}');
            crate::scan::lemma_run_end_bounds(s, i + 2, '\u{20}', '\u{2f}');
            let j = run_end(s, i + 2, '\u{20}', '\u{2f}');
            if j < s.len() && j >= 0 {
                assert(x[p.len() + j] == s[j]);
            }
        }
        assert(escape_end(x, q) == p.len() + escape_end(s, i));
    } else if s[i] == '\u{9b}' {
        lemma_csi_end_shift(p, s, i + 1);
    } else if crate::scan::is_string_intro(s[i]) {
        lemma_string_seq_end_shift(p, s, i + 1);
    }
}

/// The width of `p + s` from inside `s` is the width of `s` from there.
pub proof fn lemma_width_shift(p: Seq<char>, s: Seq<char>, cp: Seq<usize>, cs: Seq<usize>, i: int)
    requires
        0 <= i,
        cp.len() == p.len(),
        cs.len() == s.len(),
    ensures
        width_from(p + s, cp + cs, p.len() + i) == width_from(s, cs, i),
    decreases s.len() - i,
{
    if i < s.len() {
        lemma_scan_end_bounds(s, i);
        lemma_scan_end_shift(p, s, i);
        assert((p + s)[p.len() + i] == s[i]);
        assert((cp + cs)[p.len() + i] == cs[i]);
        lemma_width_shift(p, s, cp, cs, scan_end(s, i));
    }
}

/// Over a prefix with no escape introducer, the width of `p + s` is the width of
/// `p` and then the width of `s`.
pub proof fn lemma_width_prefix(p: Seq<char>, s: Seq<char>, cp: Seq<usize>, cs: Seq<usize>, i: int)
    requires
        0 <= i <= p.len(),
        cp.len() == p.len(),
        cs.len() == s.len(),
        forall|q: int| 0 <= q < p.len() ==> !starts_escape(#[trigger] p[q]),
    ensures
        width_from(p + s, cp + cs, i) == width_from(p, cp, i) + width_from(p + s, cp + cs, p.len() as int),
    decreases p.len() - i,
{
    if i < p.len() {
        assert((p + s)[i] == p[i]);
        assert((cp + cs)[i] == cp[i]);
        assert(!starts_escape(p[i]));
        lemma_width_prefix(p, s, cp, cs, i + 1);
    }
}

} // verus!
