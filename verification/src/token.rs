//! Tokens: escape sequences kept verbatim, and visible glyphs (a base char with
//! the zero-width chars that follow it) with their column width.

use vstd::prelude::*;
use crate::scan::{is_control_char, lemma_scan_end_bounds, scan, scan_end, starts_escape, visible_at, Scanned};

verus! {

/// A parsed token: a zero-width escape sequence (preserved verbatim) or a visible
/// glyph (a base char plus any trailing zero-width chars) with its column width.
pub enum Tok {
    Esc(Vec<char>),
    Ch(Vec<char>, usize),
}

/// The mathematical value of a token.
pub enum TokView {
    Esc(Seq<char>),
    Ch(Seq<char>, usize),
}

impl View for Tok {
    type V = TokView;

    open spec fn view(&self) -> TokView {
        match self {
            Tok::Esc(v) => TokView::Esc(v@),
            Tok::Ch(v, w) => TokView::Ch(v@, *w),
        }
    }
}

/// The values of a sequence of tokens.
pub open spec fn toks_view(v: Seq<Tok>) -> Seq<TokView> {
    v.map_values(|t: Tok| t@)
}

/// The columns a token takes: its width for a glyph, 0 for an escape.
pub open spec fn tok_width(t: TokView) -> int {
    match t {
        TokView::Esc(_) => 0,
        TokView::Ch(_, w) => w as int,
    }
}

/// The chars a token stands for.
pub open spec fn tok_text(t: TokView) -> Seq<char> {
    match t {
        TokView::Esc(q) => q,
        TokView::Ch(g, _) => g,
    }
}

/// End of the glyph whose trailing chars start at `j`: the run of visible chars
/// of zero columns that follows.
pub open spec fn glyph_end(s: Seq<char>, cw: Seq<usize>, j: int) -> int
    decreases s.len() - j,
{
    if 0 <= j < s.len() && visible_at(s, j) && cw[j] == 0 {
        glyph_end(s, cw, j + 1)
    } else {
        j
    }
}

pub proof fn lemma_glyph_end_bounds(s: Seq<char>, cw: Seq<usize>, j: int)
    requires
        0 <= j <= s.len(),
    ensures
        j <= glyph_end(s, cw, j) <= s.len(),
        forall|k: int| j <= k < glyph_end(s, cw, j) ==> visible_at(s, k) && cw[k] == 0,
        glyph_end(s, cw, j) < s.len() ==> !(visible_at(s, glyph_end(s, cw, j)) && cw[glyph_end(
            s,
            cw,
            j,
        )] == 0),
    decreases s.len() - j,
{
    if 0 <= j < s.len() && visible_at(s, j) && cw[j] == 0 {
        lemma_glyph_end_bounds(s, cw, j + 1);
    }
}

/// The tokens of `s` from index `i`, with `cw[k]` the columns of `s[k]`:
/// escapes are kept verbatim, control chars dropped, and zero-width chars
/// folded into the glyph before them.
pub open spec fn tokens_from(s: Seq<char>, cw: Seq<usize>, i: int) -> Seq<TokView>
    decreases s.len() - i,
{
    if i < 0 || i >= s.len() {
        Seq::empty()
    } else if starts_escape(s[i]) {
        proof {
            lemma_scan_end_bounds(s, i);
        }
        seq![TokView::Esc(s.subrange(i, scan_end(s, i)))] + tokens_from(s, cw, scan_end(s, i))
    } else if is_control_char(s[i]) {
        tokens_from(s, cw, i + 1)
    } else {
        proof {
            lemma_glyph_end_bounds(s, cw, i + 1);
        }
        seq![TokView::Ch(s.subrange(i, glyph_end(s, cw, i + 1)), cw[i])] + tokens_from(
            s,
            cw,
            glyph_end(s, cw, i + 1),
        )
    }
}

/// The tokens of `s`.
pub open spec fn tokens(s: Seq<char>, cw: Seq<usize>) -> Seq<TokView> {
    tokens_from(s, cw, 0)
}

/// Display width of `s` from index `i`: the columns of each visible char,
/// escape sequences and control chars taking none.
pub open spec fn width_from(s: Seq<char>, cw: Seq<usize>, i: int) -> int
    decreases s.len() - i,
{
    if i < 0 || i >= s.len() {
        0
    } else {
        proof {
            lemma_scan_end_bounds(s, i);
        }
        (if visible_at(s, i) {
            cw[i] as int
        } else {
            0
        }) + width_from(s, cw, scan_end(s, i))
    }
}

/// Display width of `s`.
pub open spec fn text_width(s: Seq<char>, cw: Seq<usize>) -> int {
    width_from(s, cw, 0)
}

/// Tokenize `chars` (with `cols[k]` the columns of `chars[k]`), preserving escape
/// sequences, dropping control characters, and folding trailing zero-width chars
/// (combining marks, ZWJ) into the preceding glyph.
pub fn tokenize(chars: &[char], cols: &[usize]) -> (toks: Vec<Tok>)
    requires
        cols@.len() == chars@.len(),
    ensures
        toks_view(toks@) == tokens(chars@, cols@),
{
    let ghost s = chars@;
    let ghost cw = cols@;
    let mut toks: Vec<Tok> = Vec::new();
    let mut i: usize = 0;
    while i < chars.len()
        invariant
            i <= s.len(),
            s == chars@,
            cw == cols@,
            cw.len() == s.len(),
            toks_view(toks@) + tokens_from(s, cw, i as int) == tokens(s, cw),
        decreases s.len() - i,
    {
        let ghost prev = toks_view(toks@);
        let (scanned, next) = scan(chars, i);
        match scanned {
            Scanned::Escape(seq) => {
                let ghost t = TokView::Esc(seq@);
                toks.push(Tok::Esc(seq));
                proof {
                    assert(tokens_from(s, cw, i as int) == seq![t] + tokens_from(s, cw, next as int));
                    assert(toks_view(toks@) =~= prev.push(t));
                    assert(prev + tokens_from(s, cw, i as int) =~= prev.push(t) + tokens_from(
                        s,
                        cw,
                        next as int,
                    ));
                }
                i = next;
            },
            Scanned::Control => {
                i = next;
            },
            Scanned::Visible(c) => {
                let w = cols[i];
                let start = i;
                let mut glyph: Vec<char> = Vec::new();
                glyph.push(c);
                i = next;
                proof {
                    lemma_glyph_end_bounds(s, cw, i as int);
                    assert(glyph@ =~= s.subrange(start as int, i as int));
                }
                // Absorb following zero-width visible chars into this glyph.
                while i < chars.len()
                    invariant_except_break
                        start < i <= s.len(),
                        s == chars@,
                        cw == cols@,
                        cw.len() == s.len(),
                        glyph@ == s.subrange(start as int, i as int),
                        glyph_end(s, cw, i as int) == glyph_end(s, cw, start + 1),
                    ensures
                        start < i <= s.len(),
                        glyph@ == s.subrange(start as int, i as int),
                        i == glyph_end(s, cw, start + 1),
                    decreases s.len() - i,
                {
                    let (sc, nx) = scan(chars, i);
                    match sc {
                        Scanned::Visible(c2) => {
                            if cols[i] == 0 {
                                glyph.push(c2);
                                proof {
                                    assert(glyph@ =~= s.subrange(start as int, nx as int));
                                }
                                i = nx;
                            } else {
                                break;
                            }
                        },
                        _ => {
                            break;
                        },
                    }
                }
                let ghost t = TokView::Ch(glyph@, w);
                toks.push(Tok::Ch(glyph, w));
                proof {
                    assert(tokens_from(s, cw, start as int) == seq![t] + tokens_from(
                        s,
                        cw,
                        i as int,
                    ));
                    assert(toks_view(toks@) =~= prev.push(t));
                    assert(prev + tokens_from(s, cw, start as int) =~= prev.push(t)
                        + tokens_from(s, cw, i as int));
                }
            },
        }
    }
    proof {
        assert(toks_view(toks@) + tokens_from(s, cw, i as int) =~= toks_view(toks@));
    }
    toks
}

} // verus!
