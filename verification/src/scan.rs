//! The scanner: classifies the token that starts at a given index of a char
//! sequence as an escape sequence, a visible char or a control char.

use vstd::prelude::*;

verus! {

/// The escape char `ESC`.
pub open spec fn esc() -> char {
    '\u{1b}'
}

/// A C0 or C1 control char (general category `Cc`).
pub open spec fn is_control_char(c: char) -> bool {
    c <= '\u{1f}' || ('\u{7f}' <= c && c <= '\u{9f}')
}

/// An 8-bit introducer of a string sequence (DCS, OSC, SOS, PM, APC).
pub open spec fn is_string_intro(c: char) -> bool {
    c == '\u{90}' || c == '\u{9d}' || c == '\u{98}' || c == '\u{9e}' || c == '\u{9f}'
}

/// A char that opens an escape sequence.
pub open spec fn starts_escape(c: char) -> bool {
    c == esc() || c == '\u{9b}' || is_string_intro(c)
}

/// The index just past the run of chars in `[lo, hi]` that starts at `j`.
pub open spec fn run_end(s: Seq<char>, j: int, lo: char, hi: char) -> int
    decreases s.len() - j,
{
    if 0 <= j < s.len() && lo <= s[j] && s[j] <= hi {
        run_end(s, j + 1, lo, hi)
    } else {
        j
    }
}

/// End of a CSI sequence whose body starts at `body`: parameter bytes,
/// intermediate bytes, then an optional final byte.
pub open spec fn csi_end(s: Seq<char>, body: int) -> int {
    let a = run_end(s, body, '\u{30}', '\u{3f}');
    let b = run_end(s, a, '\u{20}', '\u{2f}');
    if 0 <= b < s.len() && '\u{40}' <= s[b] && s[b] <= '\u{7e}' {
        b + 1
    } else {
        b
    }
}

/// End of a string sequence whose body starts at `j`: just past the first
/// `BEL`, 8-bit `ST` or `ESC \`, or the end of the input.
pub open spec fn string_seq_end(s: Seq<char>, j: int) -> int
    decreases s.len() - j,
{
    if j < 0 || j >= s.len() {
        j
    } else if s[j] == '\u{07}' || s[j] == '\u{9c}' {
        j + 1
    } else if s[j] == esc() && j + 1 < s.len() && s[j + 1] == '\\' {
        j + 2
    } else {
        string_seq_end(s, j + 1)
    }
}

/// End of the 7-bit escape sequence whose `ESC` stands at `i`.
pub open spec fn escape_end(s: Seq<char>, i: int) -> int {
    if i + 1 < s.len() {
        let c = s[i + 1];
        if c == '[' {
            csi_end(s, i + 2)
        } else if c == ']' || c == 'P' || c == 'X' || c == '^' || c == '_' {
            string_seq_end(s, i + 2)
        } else if '\u{20}' <= c && c <= '\u{2f}' {
            let j = run_end(s, i + 2, '\u{20}', '\u{2f}');
            if j < s.len() && '\u{30}' <= s[j] && s[j] <= '\u{7e}' {
                j + 1
            } else {
                j
            }
        } else if '\u{30}' <= c && c <= '\u{7e}' {
            i + 2
        } else {
            i + 1
        }
    } else {
        i + 1
    }
}

/// The index just past the token that starts at `i`.
pub open spec fn scan_end(s: Seq<char>, i: int) -> int {
    let c = s[i];
    if c == esc() {
        escape_end(s, i)
    } else if c == '\u{9b}' {
        csi_end(s, i + 1)
    } else if is_string_intro(c) {
        string_seq_end(s, i + 1)
    } else {
        i + 1
    }
}

/// The char at `i` starts a visible token.
pub open spec fn visible_at(s: Seq<char>, i: int) -> bool {
    !starts_escape(s[i]) && !is_control_char(s[i])
}

/// The char at `i` is a control char that is dropped.
pub open spec fn control_at(s: Seq<char>, i: int) -> bool {
    !starts_escape(s[i]) && is_control_char(s[i])
}

pub proof fn lemma_run_end_bounds(s: Seq<char>, j: int, lo: char, hi: char)
    requires
        0 <= j <= s.len(),
    ensures
        j <= run_end(s, j, lo, hi) <= s.len(),
        forall|k: int| j <= k < run_end(s, j, lo, hi) ==> lo <= #[trigger] s[k] && s[k] <= hi,
        run_end(s, j, lo, hi) < s.len() ==> !(lo <= s[run_end(s, j, lo, hi)] && s[run_end(s, j, lo, hi)] <= hi),
    decreases s.len() - j,
{
    if j < s.len() && lo <= s[j] && s[j] <= hi {
        lemma_run_end_bounds(s, j + 1, lo, hi);
    }
}

pub proof fn lemma_string_seq_end_bounds(s: Seq<char>, j: int)
    requires
        0 <= j <= s.len(),
    ensures
        j <= string_seq_end(s, j) <= s.len(),
        j < s.len() ==> j < string_seq_end(s, j),
    decreases s.len() - j,
{
    if j < s.len() && !(s[j] == '\u{07}' || s[j] == '\u{9c}') && !(s[j] == esc() && j + 1
        < s.len() && s[j + 1] == '\\') {
        lemma_string_seq_end_bounds(s, j + 1);
    }
}

pub proof fn lemma_csi_end_bounds(s: Seq<char>, body: int)
    requires
        0 <= body <= s.len(),
    ensures
        body <= csi_end(s, body) <= s.len(),
{
    lemma_run_end_bounds(s, body, '\u{30}', '\u{3f}');
    let a = run_end(s, body, '\u{30}', '\u{3f}');
    lemma_run_end_bounds(s, a, '\u{20}', '\u{2f}');
}

/// Every token is non-empty and lies within the input.
pub proof fn lemma_scan_end_bounds(s: Seq<char>, i: int)
    requires
        0 <= i < s.len(),
    ensures
        i < scan_end(s, i) <= s.len(),
{
    let c = s[i];
    if c == esc() {
        if i + 1 < s.len() {
            lemma_csi_end_bounds(s, i + 2);
            lemma_string_seq_end_bounds(s, i + 2);
            lemma_run_end_bounds(s, i + 2, '\u{20}', '\u{2f}');
        }
    } else if c == '\u{9b}' {
        lemma_csi_end_bounds(s, i + 1);
    } else if is_string_intro(c) {
        lemma_string_seq_end_bounds(s, i + 1);
    }
}

/// Whether `c` is a control char (general category `Cc`).
pub fn is_control(c: char) -> (r: bool)
    ensures
        r == is_control_char(c),
{
    c <= '\u{1f}' || ('\u{7f}' <= c && c <= '\u{9f}')
}

/// The classification of the token starting at a given index.
pub enum Scanned {
    /// A complete escape sequence (zero display width), preserved verbatim.
    Escape(Vec<char>),
    /// A visible char.
    Visible(char),
    /// A C0/C1 control char with no defined column width.
    Control,
}

/// `chars[start..end]` as a vector.
pub fn collect(chars: &[char], start: usize, end: usize) -> (r: Vec<char>)
    requires
        start <= end <= chars@.len(),
    ensures
        r@ == chars@.subrange(start as int, end as int),
{
    let mut v: Vec<char> = Vec::new();
    let mut k: usize = start;
    while k < end
        invariant
            start <= k <= end <= chars@.len(),
            v@ == chars@.subrange(start as int, k as int),
        decreases end - k,
    {
        v.push(chars[k]);
        k += 1;
    }
    v
}

/// Index just past the run of chars in `[lo, hi]` starting at `j`.
fn skip_run(chars: &[char], j: usize, lo: char, hi: char) -> (r: usize)
    requires
        j <= chars@.len(),
    ensures
        r == run_end(chars@, j as int, lo, hi),
        j <= r <= chars@.len(),
{
    proof {
        lemma_run_end_bounds(chars@, j as int, lo, hi);
    }
    let mut k: usize = j;
    while k < chars.len() && lo <= chars[k] && chars[k] <= hi
        invariant
            j <= k <= chars@.len(),
            run_end(chars@, k as int, lo, hi) == run_end(chars@, j as int, lo, hi),
        decreases chars@.len() - k,
    {
        k += 1;
    }
    k
}

/// Scan a CSI body (params 0x30–0x3F, intermediates 0x20–0x2F, final 0x40–0x7E),
/// starting at `body` and reporting the sequence from `start`.
pub fn scan_csi(chars: &[char], body: usize, start: usize) -> (r: (Scanned, usize))
    requires
        start <= body <= chars@.len(),
    ensures
        r.1 == csi_end(chars@, body as int),
        body <= r.1 <= chars@.len(),
        r.0 matches Scanned::Escape(v) && v@ == chars@.subrange(start as int, r.1 as int),
{
    let a = skip_run(chars, body, '\u{30}', '\u{3f}');
    let mut j = skip_run(chars, a, '\u{20}', '\u{2f}');
    if j < chars.len() && '\u{40}' <= chars[j] && chars[j] <= '\u{7e}' {
        j += 1;
    }
    (Scanned::Escape(collect(chars, start, j)), j)
}

/// Scan a string sequence (OSC/DCS/SOS/PM/APC) up to and including its terminator:
/// `BEL` (0x07), 8-bit `ST` (0x9C), or 7-bit `ST` (`ESC \`).
pub fn scan_string_sequence(chars: &[char], body: usize, start: usize) -> (r: (Scanned, usize))
    requires
        start <= body <= chars@.len(),
    ensures
        r.1 == string_seq_end(chars@, body as int),
        body <= r.1 <= chars@.len(),
        r.0 matches Scanned::Escape(v) && v@ == chars@.subrange(start as int, r.1 as int),
{
    proof {
        lemma_string_seq_end_bounds(chars@, body as int);
    }
    let mut j: usize = body;
    while j < chars.len()
        invariant_except_break
            body <= j <= chars@.len(),
            string_seq_end(chars@, j as int) == string_seq_end(chars@, body as int),
        ensures
            body <= j <= chars@.len(),
            j == string_seq_end(chars@, body as int),
        decreases chars@.len() - j,
    {
        let c = chars[j];
        if c == '\u{07}' || c == '\u{9c}' {
            j += 1;
            break;
        }
        if c == '\u{1b}' && j + 1 < chars.len() && chars[j + 1] == '\\' {
            j += 2;
            break;
        }
        j += 1;
    }
    (Scanned::Escape(collect(chars, start, j)), j)
}

/// Scan a 7-bit escape beginning with `ESC` at `chars[i]`.
pub fn scan_escape(chars: &[char], i: usize) -> (r: (Scanned, usize))
    requires
        i < chars@.len(),
        chars@[i as int] == esc(),
    ensures
        r.1 == escape_end(chars@, i as int),
        i < r.1 <= chars@.len(),
        r.0 matches Scanned::Escape(v) && v@ == chars@.subrange(i as int, r.1 as int),
{
    let n = chars.len();
    if i + 1 < n {
        let c = chars[i + 1];
        if c == '[' {
            return scan_csi(chars, i + 2, i);
        } else if c == ']' || c == 'P' || c == 'X' || c == '^' || c == '_' {
            return scan_string_sequence(chars, i + 2, i);
        } else if '\u{20}' <= c && c <= '\u{2f}' {
            let mut j = skip_run(chars, i + 2, '\u{20}', '\u{2f}');
            if j < chars.len() && '\u{30}' <= chars[j] && chars[j] <= '\u{7e}' {
                j += 1;
            }
            return (Scanned::Escape(collect(chars, i, j)), j);
        } else if '\u{30}' <= c && c <= '\u{7e}' {
            return (Scanned::Escape(collect(chars, i, i + 2)), i + 2);
        }
    }
    (Scanned::Escape(collect(chars, i, i + 1)), i + 1)
}

/// Scan one token starting at `chars[i]`, returning it and the index just past it.
/// Always advances.
pub fn scan(chars: &[char], i: usize) -> (r: (Scanned, usize))
    requires
        i < chars@.len(),
    ensures
        r.1 == scan_end(chars@, i as int),
        i < r.1 <= chars@.len(),
        match r.0 {
            Scanned::Escape(v) => starts_escape(chars@[i as int]) && v@ == chars@.subrange(
                i as int,
                r.1 as int,
            ),
            Scanned::Visible(c) => c == chars@[i as int] && visible_at(chars@, i as int),
            Scanned::Control => control_at(chars@, i as int),
        },
{
    proof {
        lemma_scan_end_bounds(chars@, i as int);
    }
    let c = chars[i];
    if c == '\u{1b}' {
        return scan_escape(chars, i);
    }
    if c == '\u{9b}' {
        return scan_csi(chars, i + 1, i);
    }
    if c == '\u{90}' || c == '\u{9d}' || c == '\u{98}' || c == '\u{9e}' || c == '\u{9f}' {
        return scan_string_sequence(chars, i + 1, i);
    }
    if is_control(c) {
        return (Scanned::Control, i + 1);
    }
    (Scanned::Visible(c), i + 1)
}

} // verus!
