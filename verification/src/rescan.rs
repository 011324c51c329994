//! How the scanner reads an escape sequence again once it is copied into other
//! text: it takes at least the whole sequence, and whatever it takes beyond is
//! printable ASCII or ends right after a string terminator.

use vstd::prelude::*;
use crate::scan::{
    csi_end, esc, escape_end, is_string_intro, lemma_run_end_bounds, lemma_string_seq_end_bounds,
    run_end, scan_end, starts_escape, string_seq_end,
};

verus! {

/// A char in the printable ASCII range `0x20..=0x7E`.
pub open spec fn printable_ascii(c: char) -> bool {
    '\u{20}' <= c && c <= '\u{7e}'
}

/// All chars of `s[a..b]` are printable ASCII.
pub open spec fn all_printable(s: Seq<char>, a: int, b: int) -> bool {
    forall|q: int| a <= q < b ==> printable_ascii(#[trigger] s[q])
}

/// A one-char string terminator: `BEL` or the 8-bit `ST`.
pub open spec fn is_st_char(c: char) -> bool {
    c == '\u{07}' || c == '\u{9c}'
}

/// `r` is the end of the input, or lies just past a string terminator that
/// starts at or after `from`.
pub open spec fn after_terminator(s: Seq<char>, from: int, r: int) -> bool {
    ||| r == s.len()
    ||| from <= r - 1 && is_st_char(s[r - 1])
    ||| from <= r - 2 && s[r - 2] == esc() && s[r - 1] == '\\'
}

/// No string terminator ends before the last char of `e`.
pub open spec fn no_early_terminator(e: Seq<char>) -> bool {
    forall|j: int|
        0 <= j < e.len() - 1 ==> !is_st_char(#[trigger] e[j]) && (j + 2 < e.len() ==> !(e[j]
            == esc() && e[j + 1] == '\\'))
}

/// `x[i..i + len]` and `y[p..p + len]` hold the same chars.
pub open spec fn agree(x: Seq<char>, i: int, y: Seq<char>, p: int, len: int) -> bool {
    &&& 0 <= i && 0 <= p && 0 <= len
    &&& i + len <= x.len() && p + len <= y.len()
    &&& forall|d: int| 0 <= d < len ==> x[i + d] == #[trigger] y[p + d]
}

pub proof fn lemma_string_seq_terminator(s: Seq<char>, j: int)
    requires
        0 <= j <= s.len(),
    ensures
        after_terminator(s, j, string_seq_end(s, j)),
    decreases s.len() - j,
{
    if j < s.len() && !(s[j] == '\u{07}' || s[j] == '\u{9c}') && !(s[j] == esc() && j + 1
        < s.len() && s[j + 1] == '\\') {
        lemma_string_seq_terminator(s, j + 1);
    }
}

/// A CSI body is printable ASCII.
pub proof fn lemma_csi_printable(s: Seq<char>, body: int)
    requires
        0 <= body <= s.len(),
    ensures
        all_printable(s, body, csi_end(s, body)),
        body <= csi_end(s, body) <= s.len(),
{
    let a = run_end(s, body, '\u{30}', '\u{3f}');
    lemma_run_end_bounds(s, body, '\u{30}', '\u{3f}');
    lemma_run_end_bounds(s, a, '\u{20}', '\u{2f}');
}

/// Wherever an `ESC` stands, the escape that starts there is the `ESC` alone,
/// or printable ASCII after it, or a string sequence ending after a terminator.
pub proof fn lemma_escape_shape(s: Seq<char>, p: int)
    requires
        0 <= p < s.len(),
        s[p] == esc(),
    ensures
        p + 1 <= escape_end(s, p) <= s.len(),
        escape_end(s, p) == p + 1 || all_printable(s, p + 1, escape_end(s, p)) || after_terminator(
            s,
            p + 2,
            escape_end(s, p),
        ),
{
    if p + 1 < s.len() {
        let c = s[p + 1];
        if c == '[' {
            lemma_csi_printable(s, p + 2);
        } else if c == ']' || c == 'P' || c == 'X' || c == '^' || c == '_' {
            lemma_string_seq_end_bounds(s, p + 2);
            lemma_string_seq_terminator(s, p + 2);
        } else if '\u{20}' <= c && c <= '\u{2f}' {
            lemma_run_end_bounds(s, p + 2, '\u{20}', '\u{2f}');
        }
    }
}

pub proof fn lemma_run_agree(
    x: Seq<char>,
    i: int,
    y: Seq<char>,
    p: int,
    len: int,
    q: int,
    lo: char,
    hi: char,
)
    requires
        agree(x, i, y, p, len),
        0 <= q <= len,
    ensures
        run_end(x, i + q, lo, hi) < i + len ==> run_end(y, p + q, lo, hi) == p + (run_end(
            x,
            i + q,
            lo,
            hi,
        ) - i),
        run_end(x, i + q, lo, hi) >= i + len ==> run_end(y, p + q, lo, hi) >= p + len,
    decreases len - q,
{
    lemma_run_end_bounds(x, i + q, lo, hi);
    lemma_run_end_bounds(y, p + q, lo, hi);
    if q < len {
        assert(x[i + q] == y[p + q]);
        lemma_run_agree(x, i, y, p, len, q + 1, lo, hi);
    }
}

pub proof fn lemma_string_agree(x: Seq<char>, i: int, y: Seq<char>, p: int, len: int, q: int)
    requires
        agree(x, i, y, p, len),
        0 <= q <= len,
        string_seq_end(x, i + q) == i + len,
        i + len < x.len(),
    ensures
        string_seq_end(y, p + q) == p + len,
    decreases len - q,
{
    lemma_string_seq_end_bounds(x, i + q);
    if q < len {
        assert(x[i + q] == y[p + q]);
        if q + 1 < len {
            assert(x[i + (q + 1)] == y[p + (q + 1)]);
        }
        if !(x[i + q] == '\u{07}' || x[i + q] == '\u{9c}') && !(x[i + q] == esc() && i + q + 1
            < x.len() && x[i + q + 1] == '\\') {
            lemma_string_seq_end_bounds(x, i + q + 1);
            if q + 1 == len {
                assert(false);
            }
            lemma_string_agree(x, i, y, p, len, q + 1);
        }
    }
}

/// A CSI body read again takes at least the same chars.
pub proof fn lemma_csi_agree(x: Seq<char>, i: int, y: Seq<char>, p: int, len: int, b: int)
    requires
        agree(x, i, y, p, len),
        0 <= b <= len,
        csi_end(x, i + b) == i + len,
    ensures
        csi_end(y, p + b) >= p + len,
{
    let ax = run_end(x, i + b, '\u{30}', '\u{3f}');
    lemma_run_end_bounds(x, i + b, '\u{30}', '\u{3f}');
    lemma_run_agree(x, i, y, p, len, b, '\u{30}', '\u{3f}');
    let ay = run_end(y, p + b, '\u{30}', '\u{3f}');
    lemma_run_end_bounds(y, p + b, '\u{30}', '\u{3f}');
    lemma_run_end_bounds(y, ay, '\u{20}', '\u{2f}');
    if ax < i + len {
        let bx = run_end(x, ax, '\u{20}', '\u{2f}');
        lemma_run_end_bounds(x, ax, '\u{20}', '\u{2f}');
        lemma_run_agree(x, i, y, p, len, ax - i, '\u{20}', '\u{2f}');
        if bx < i + len {
            assert(x[i + (bx - i)] == y[p + (bx - i)]);
        }
    }
}

/// The 7-bit intermediate (nF) escape read again takes at least the same chars.
pub proof fn lemma_nf_agree(x: Seq<char>, i: int, y: Seq<char>, p: int, len: int)
    requires
        agree(x, i, y, p, len),
        2 <= len,
        ({
            let j = run_end(x, i + 2, '\u{20}', '\u{2f}');
            i + len == if j < x.len() && '\u{30}' <= x[j] && x[j] <= '\u{7e}' {
                j + 1
            } else {
                j
            }
        }),
    ensures
        ({
            let j = run_end(y, p + 2, '\u{20}', '\u{2f}');
            p + len <= if j < y.len() && '\u{30}' <= y[j] && y[j] <= '\u{7e}' {
                j + 1
            } else {
                j
            }
        }),
{
    let jx = run_end(x, i + 2, '\u{20}', '\u{2f}');
    lemma_run_end_bounds(x, i + 2, '\u{20}', '\u{2f}');
    lemma_run_end_bounds(y, p + 2, '\u{20}', '\u{2f}');
    lemma_run_agree(x, i, y, p, len, 2, '\u{20}', '\u{2f}');
    if jx < i + len {
        assert(x[i + (jx - i)] == y[p + (jx - i)]);
    }
}

/// At `i` starts an escape sequence that more input follows.
pub open spec fn escape_token_at(x: Seq<char>, i: int) -> bool {
    0 <= i < x.len() && starts_escape(x[i]) && scan_end(x, i) < x.len()
}

/// An escape sequence that more input followed, copied to `y[p..]`, is read
/// there again as at least itself; what the scanner takes beyond it is printable
/// ASCII, or ends right after a string terminator or at the end of `y`.
pub proof fn lemma_rescan(x: Seq<char>, i: int, y: Seq<char>, p: int)
    requires
        escape_token_at(x, i),
        agree(x, i, y, p, scan_end(x, i) - i),
    ensures
        ({
            let len = scan_end(x, i) - i;
            let r = scan_end(y, p);
            &&& p + len <= r <= y.len()
            &&& r == p + len || all_printable(y, p + len, r) || after_terminator(y, p + len, r)
        }),
{
    let n = scan_end(x, i);
    let len = n - i;
    crate::scan::lemma_scan_end_bounds(x, i);
    crate::scan::lemma_scan_end_bounds(y, p);
    assert(x[i + 0] == y[p + 0]);
    let c = x[i];
    if c == esc() {
        let c1 = x[i + 1];
        if len >= 2 {
            assert(x[i + 1] == y[p + 1]);
        }
        if c1 == '[' {
            lemma_csi_printable(x, i + 2);
            lemma_csi_agree(x, i, y, p, len, 2);
            lemma_csi_printable(y, p + 2);
        } else if c1 == ']' || c1 == 'P' || c1 == 'X' || c1 == '^' || c1 == '_' {
            lemma_string_seq_end_bounds(x, i + 2);
            lemma_string_agree(x, i, y, p, len, 2);
        } else if '\u{20}' <= c1 && c1 <= '\u{2f}' {
            lemma_run_end_bounds(x, i + 2, '\u{20}', '\u{2f}');
            lemma_nf_agree(x, i, y, p, len);
            lemma_run_end_bounds(y, p + 2, '\u{20}', '\u{2f}');
        } else if '\u{30}' <= c1 && c1 <= '\u{7e}' {
        } else {
            lemma_escape_shape(y, p);
        }
    } else if c == '\u{9b}' {
        lemma_csi_printable(x, i + 1);
        lemma_csi_agree(x, i, y, p, len, 1);
        lemma_csi_printable(y, p + 1);
    } else {
        lemma_string_seq_end_bounds(x, i + 1);
        lemma_string_agree(x, i, y, p, len, 1);
    }
}

proof fn lemma_string_no_early(s: Seq<char>, j: int)
    requires
        0 <= j <= s.len(),
    ensures
        forall|q: int|
            j <= q < string_seq_end(s, j) - 1 ==> !is_st_char(#[trigger] s[q]) && (q + 2
                < string_seq_end(s, j) ==> !(s[q] == esc() && s[q + 1] == '\\')),
    decreases s.len() - j,
{
    lemma_string_seq_end_bounds(s, j);
    if j < s.len() && !(s[j] == '\u{07}' || s[j] == '\u{9c}') && !(s[j] == esc() && j + 1
        < s.len() && s[j + 1] == '\\') {
        lemma_string_no_early(s, j + 1);
        lemma_string_seq_end_bounds(s, j + 1);
    }
}

/// No string terminator ends inside an escape sequence before its last char.
pub proof fn lemma_token_no_early(x: Seq<char>, i: int)
    requires
        escape_token_at(x, i),
    ensures
        no_early_terminator(x.subrange(i, scan_end(x, i))),
{
    let n = scan_end(x, i);
    let e = x.subrange(i, n);
    crate::scan::lemma_scan_end_bounds(x, i);
    let c = x[i];
    if c == esc() && (x[i + 1] == ']' || x[i + 1] == 'P' || x[i + 1] == 'X' || x[i + 1] == '^'
        || x[i + 1] == '_') {
        lemma_string_no_early(x, i + 2);
        lemma_string_seq_end_bounds(x, i + 2);
        assert forall|j: int| 0 <= j < e.len() - 1 implies !is_st_char(#[trigger] e[j]) && (j + 2
            < e.len() ==> !(e[j] == esc() && e[j + 1] == '\\')) by {
            assert(e[j] == x[i + j]);
            if j + 1 < e.len() {
                assert(e[j + 1] == x[i + j + 1]);
            }
        }
    } else if is_string_intro(c) {
        lemma_string_no_early(x, i + 1);
        lemma_string_seq_end_bounds(x, i + 1);
        assert forall|j: int| 0 <= j < e.len() - 1 implies !is_st_char(#[trigger] e[j]) && (j + 2
            < e.len() ==> !(e[j] == esc() && e[j + 1] == '\\')) by {
            assert(e[j] == x[i + j]);
            if j + 1 < e.len() {
                assert(e[j + 1] == x[i + j + 1]);
            }
        }
    } else {
        // Everything after the introducer is printable ASCII.
        if c == esc() {
            if x[i + 1] == '[' {
                lemma_csi_printable(x, i + 2);
            } else if '\u{20}' <= x[i + 1] && x[i + 1] <= '\u{2f}' {
                lemma_run_end_bounds(x, i + 2, '\u{20}', '\u{2f}');
            }
        } else {
            lemma_csi_printable(x, i + 1);
        }
        assert(all_printable(x, i + 1, n));
        assert forall|j: int| 0 <= j < e.len() - 1 implies !is_st_char(#[trigger] e[j]) && (j + 2
            < e.len() ==> !(e[j] == esc() && e[j + 1] == '\\')) by {
            assert(e[j] == x[i + j]);
            if j + 1 < e.len() {
                assert(e[j + 1] == x[i + j + 1]);
            }
            if j > 0 {
                assert(printable_ascii(x[i + j]));
            }
            if j + 1 < e.len() {
                assert(printable_ascii(x[i + j + 1]));
            }
        }
    }
}

/// A CSI body that ends before the agreeing chars do is read again exactly.
pub proof fn lemma_csi_exact(x: Seq<char>, i: int, y: Seq<char>, p: int, len: int, b: int)
    requires
        agree(x, i, y, p, len),
        0 <= b <= len,
        csi_end(x, i + b) < i + len,
    ensures
        csi_end(y, p + b) == p + (csi_end(x, i + b) - i),
{
    let ax = run_end(x, i + b, '\u{30}', '\u{3f}');
    lemma_run_end_bounds(x, i + b, '\u{30}', '\u{3f}');
    lemma_run_agree(x, i, y, p, len, b, '\u{30}', '\u{3f}');
    let bx = run_end(x, ax, '\u{20}', '\u{2f}');
    lemma_run_end_bounds(x, ax, '\u{20}', '\u{2f}');
    lemma_run_agree(x, i, y, p, len, ax - i, '\u{20}', '\u{2f}');
    assert(x[i + (bx - i)] == y[p + (bx - i)]);
}

/// A CSI sequence closed by its final byte is read again exactly.
pub proof fn lemma_csi_exact_final(x: Seq<char>, i: int, y: Seq<char>, p: int, len: int, b: int)
    requires
        agree(x, i, y, p, len),
        0 <= b < len,
        csi_end(x, i + b) == i + len,
        '\u{40}' <= x[i + len - 1] && x[i + len - 1] <= '\u{7e}',
    ensures
        csi_end(y, p + b) == p + len,
{
    let ax = run_end(x, i + b, '\u{30}', '\u{3f}');
    lemma_run_end_bounds(x, i + b, '\u{30}', '\u{3f}');
    lemma_run_agree(x, i, y, p, len, b, '\u{30}', '\u{3f}');
    let bx = run_end(x, ax, '\u{20}', '\u{2f}');
    lemma_run_end_bounds(x, ax, '\u{20}', '\u{2f}');
    assert(ax < i + len);
    lemma_run_agree(x, i, y, p, len, ax - i, '\u{20}', '\u{2f}');
    assert(bx < i + len);
    assert(x[i + (bx - i)] == y[p + (bx - i)]);
}

/// The 7-bit intermediate (nF) escape that ends before the agreeing chars do is
/// read again exactly.
pub proof fn lemma_nf_exact(x: Seq<char>, i: int, y: Seq<char>, p: int, len: int, n: int)
    requires
        agree(x, i, y, p, len),
        2 <= len,
        n == ({
            let j = run_end(x, i + 2, '\u{20}', '\u{2f}');
            if j < x.len() && '\u{30}' <= x[j] && x[j] <= '\u{7e}' {
                j + 1
            } else {
                j
            }
        }),
        n < i + len,
    ensures
        ({
            let j = run_end(y, p + 2, '\u{20}', '\u{2f}');
            p + (n - i) == if j < y.len() && '\u{30}' <= y[j] && y[j] <= '\u{7e}' {
                j + 1
            } else {
                j
            }
        }),
{
    let jx = run_end(x, i + 2, '\u{20}', '\u{2f}');
    lemma_run_end_bounds(x, i + 2, '\u{20}', '\u{2f}');
    lemma_run_agree(x, i, y, p, len, 2, '\u{20}', '\u{2f}');
    assert(x[i + (jx - i)] == y[p + (jx - i)]);
}

/// An escape sequence copied to `y[p..]` together with the char that followed it
/// is read there again exactly.
pub proof fn lemma_rescan_exact(x: Seq<char>, i: int, y: Seq<char>, p: int)
    requires
        escape_token_at(x, i),
        agree(x, i, y, p, scan_end(x, i) - i + 1),
    ensures
        scan_end(y, p) == p + (scan_end(x, i) - i),
{
    let n = scan_end(x, i);
    let len = n - i;
    crate::scan::lemma_scan_end_bounds(x, i);
    assert(x[i + 0] == y[p + 0]);
    assert(x[i + 1] == y[p + 1]);
    let c = x[i];
    if c == esc() {
        let c1 = x[i + 1];
        if c1 == '[' {
            lemma_csi_printable(x, i + 2);
            lemma_csi_exact(x, i, y, p, len + 1, 2);
        } else if c1 == ']' || c1 == 'P' || c1 == 'X' || c1 == '^' || c1 == '_' {
            lemma_string_seq_end_bounds(x, i + 2);
            assert(agree(x, i, y, p, len));
            lemma_string_agree(x, i, y, p, len, 2);
        } else if '\u{20}' <= c1 && c1 <= '\u{2f}' {
            lemma_run_end_bounds(x, i + 2, '\u{20}', '\u{2f}');
            lemma_nf_exact(x, i, y, p, len + 1, n);
        }
    } else if c == '\u{9b}' {
        lemma_csi_printable(x, i + 1);
        lemma_csi_exact(x, i, y, p, len + 1, 1);
    } else {
        lemma_string_seq_end_bounds(x, i + 1);
        assert(agree(x, i, y, p, len));
        lemma_string_agree(x, i, y, p, len, 1);
    }
}

/// A string sequence, or a CSI sequence closed by its final byte, is read again
/// exactly wherever it is copied.
pub proof fn lemma_rescan_exact_closed(x: Seq<char>, i: int, y: Seq<char>, p: int)
    requires
        escape_token_at(x, i),
        agree(x, i, y, p, scan_end(x, i) - i),
        ({
            let e = x.subrange(i, scan_end(x, i));
            ||| (e.len() >= 3 && e[0] == esc() && e[1] == '[' && e[e.len() - 1] == 'm')
            ||| (e.len() >= 2 && e[0] == '\u{9b}' && e[e.len() - 1] == 'm')
            ||| (e.len() >= 2 && e[0] == esc() && e[1] == ']')
            ||| (e.len() >= 1 && e[0] == '\u{9d}')
        }),
    ensures
        scan_end(y, p) == p + (scan_end(x, i) - i),
{
    let n = scan_end(x, i);
    let len = n - i;
    let e = x.subrange(i, n);
    crate::scan::lemma_scan_end_bounds(x, i);
    assert(x[i + 0] == y[p + 0]);
    assert(e[0] == x[i]);
    assert(e[e.len() - 1] == x[i + len - 1]);
    let c = x[i];
    if c == esc() {
        assert(e[1] == x[i + 1]);
        assert(x[i + 1] == y[p + 1]);
        if x[i + 1] == '[' {
            lemma_csi_exact_final(x, i, y, p, len, 2);
        } else {
            lemma_string_seq_end_bounds(x, i + 2);
            lemma_string_agree(x, i, y, p, len, 2);
        }
    } else if c == '\u{9b}' {
        lemma_csi_exact_final(x, i, y, p, len, 1);
    } else {
        lemma_string_seq_end_bounds(x, i + 1);
        lemma_string_agree(x, i, y, p, len, 1);
    }
}

} // verus!
