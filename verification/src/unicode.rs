//! Column widths of single chars, as the `unicode_width` crate assigns them.

use unicode_width::UnicodeWidthChar;
use vstd::prelude::*;
use crate::scan::is_control_char;

verus! {

/// What `unicode_width`'s `UnicodeWidthChar::width` returns for `c`.
pub uninterp spec fn unicode_char_width(c: char) -> Option<usize>;

/// Chars of East Asian Width W or F that the width table gives two columns:
/// Hangul leading jamo, hiragana, the CJK unified ideographs, Hangul syllables,
/// the fullwidth forms, the emoticons, and all of planes 2 and 3 (the CJK
/// extensions from B on).
pub open spec fn wide_char(c: char) -> bool {
    ||| '\u{1100}' <= c && c <= '\u{115f}'
    ||| '\u{3041}' <= c && c <= '\u{3096}'
    ||| '\u{4e00}' <= c && c <= '\u{9fff}'
    ||| '\u{ac00}' <= c && c <= '\u{d7a3}'
    ||| '\u{ff01}' <= c && c <= '\u{ff60}'
    ||| '\u{1f600}' <= c && c <= '\u{1f64f}'
    ||| '\u{20000}' <= c && c <= '\u{2fffd}'
    ||| '\u{30000}' <= c && c <= '\u{3fffd}'
}

/// Chars that the width table gives no columns: the combining diacritical marks
/// and the variation selectors.
pub open spec fn zero_width_mark(c: char) -> bool {
    ||| '\u{300}' <= c && c <= '\u{36f}'
    ||| '\u{fe00}' <= c && c <= '\u{fe0f}'
}

/// Calls `UnicodeWidthChar::width` of the `unicode_width` crate. Trusted: the
/// result is the value that crate's tables give for `c`; it is `None` exactly for
/// the control chars U+0000..U+001F and U+007F..U+009F, it is 1 for the printable
/// ASCII chars, 2 for the wide chars of `wide_char` (East Asian Width W or F,
/// which the crate gives two columns), 0 for the combining marks and variation
/// selectors of `zero_width_mark`, and no width exceeds 3 (the lookup yields 0 to
/// 3). Which width each other char has is left to the name `unicode_char_width`.
#[verifier::external_body]
fn unicode_width(c: char) -> (r: Option<usize>)
    ensures
        r == unicode_char_width(c),
        r is None <==> is_control_char(c),
        '\u{20}' <= c && c < '\u{7f}' ==> r == Some(1usize),
        wide_char(c) ==> r == Some(2usize),
        zero_width_mark(c) ==> r == Some(0usize),
        r matches Some(w) ==> w <= 3,
{
    UnicodeWidthChar::width(c)
}

/// Columns taken by `c`: its Unicode width, or 0 where it has none.
pub open spec fn char_columns(c: char) -> usize {
    match unicode_char_width(c) {
        Some(w) => w,
        None => 0,
    }
}

/// What the width table is known to give `c`: no columns for a control char or
/// a zero-width mark, one for a printable ASCII char, two for a wide char, and
/// never more than 3.
pub open spec fn known_columns(c: char) -> bool {
    &&& is_control_char(c) ==> char_columns(c) == 0
    &&& '\u{20}' <= c && c < '\u{7f}' ==> char_columns(c) == 1
    &&& wide_char(c) ==> char_columns(c) == 2
    &&& zero_width_mark(c) ==> char_columns(c) == 0
    &&& char_columns(c) <= 3
}

/// The columns of each char of `s`, position by position.
pub open spec fn columns_of(s: Seq<char>) -> Seq<usize> {
    Seq::new(s.len(), |i: int| char_columns(s[i]))
}

/// Display width of a single visible char (zero-width chars → 0).
pub fn char_width(c: char) -> (r: usize)
    ensures
        r == char_columns(c),
        known_columns(c),
{
    unicode_width(c).unwrap_or(0)
}

/// The column width of each char of `chars`.
pub fn column_widths(chars: &[char]) -> (cols: Vec<usize>)
    ensures
        cols@ == columns_of(chars@),
        forall|i: int| 0 <= i < chars@.len() ==> #[trigger] known_columns(chars@[i]),
        forall|i: int| 0 <= i < cols@.len() ==> cols@[i] <= 3,
{
    let mut cols: Vec<usize> = Vec::new();
    let mut k: usize = 0;
    while k < chars.len()
        invariant
            k <= chars@.len(),
            cols@ == columns_of(chars@).take(k as int),
            forall|i: int| 0 <= i < k ==> #[trigger] known_columns(chars@[i]),
            forall|i: int| 0 <= i < cols@.len() ==> cols@[i] <= 3,
        decreases chars@.len() - k,
    {
        cols.push(char_width(chars[k]));
        k += 1;
    }
    cols
}

} // verus!
