//! The styling state carried across a cut: the active SGR sequences and the open
//! OSC 8 hyperlink.

use vstd::prelude::*;
use crate::scan::{collect, esc};

verus! {

/// The values of a sequence of char vectors.
pub open spec fn seqs_view(v: Seq<Vec<char>>) -> Seq<Seq<char>> {
    v.map_values(|x: Vec<char>| x@)
}

/// The value of an optional char vector.
pub open spec fn opt_view(o: Option<Vec<char>>) -> Option<Seq<char>> {
    match o {
        Some(v) => Some(v@),
        None => None,
    }
}

/// Where the parameters of a CSI sequence start: after `ESC [` or the 8-bit CSI.
pub open spec fn csi_body_start(q: Seq<char>) -> Option<int> {
    if q.len() >= 2 && q[0] == esc() && q[1] == '[' {
        Some(2)
    } else if q.len() >= 1 && q[0] == '\u{9b}' {
        Some(1)
    } else {
        None
    }
}

/// The parameter text of an SGR sequence (`CSI … m`), or `None` if `q` is not SGR.
pub open spec fn sgr_params_of(q: Seq<char>) -> Option<Seq<char>> {
    match csi_body_start(q) {
        Some(b) => if q.len() > b && q[q.len() - 1] == 'm' {
            Some(q.subrange(b, q.len() - 1))
        } else {
            None
        },
        None => None,
    }
}

/// The `;`-separated pieces of `p`, in order (one empty piece for an empty `p`).
pub open spec fn split_params(p: Seq<char>) -> Seq<Seq<char>>
    decreases p.len(),
{
    if p.len() == 0 {
        seq![Seq::<char>::empty()]
    } else {
        let r = split_params(p.drop_last());
        if p.last() == ';' {
            r.push(Seq::<char>::empty())
        } else {
            r.update(r.len() - 1, r.last().push(p.last()))
        }
    }
}

/// An SGR parameter that resets: empty, or all zeros.
pub open spec fn is_reset(p: Seq<char>) -> bool {
    forall|k: int| 0 <= k < p.len() ==> p[k] == '0'
}

/// An extended-colour parameter (`38`, `48` or `58`): the parameters after it
/// give a colour (`5;n` or `2;r;g;b`), not attributes of their own.
pub open spec fn is_colour_intro(p: Seq<char>) -> bool {
    p == seq!['3', '8'] || p == seq!['4', '8'] || p == seq!['5', '8']
}

/// The index of the parameter that follows the one at `k`, past the colour
/// values that an extended-colour parameter takes.
pub open spec fn next_param(ps: Seq<Seq<char>>, k: int) -> int {
    if is_colour_intro(ps[k]) && k + 1 < ps.len() && ps[k + 1] == seq!['5'] {
        if k + 3 < ps.len() {
            k + 3
        } else {
            ps.len() as int
        }
    } else if is_colour_intro(ps[k]) && k + 1 < ps.len() && ps[k + 1] == seq!['2'] {
        if k + 5 < ps.len() {
            k + 5
        } else {
            ps.len() as int
        }
    } else {
        k + 1
    }
}

/// Reading the parameters of `ps` from `k`, with `seen` and `after` the state so
/// far: whether a reset stands in parameter position, and whether a parameter
/// follows the last such reset.
pub open spec fn reset_walk(ps: Seq<Seq<char>>, k: int, seen: bool, after: bool) -> (bool, bool)
    decreases ps.len() - k,
{
    if k < 0 || k >= ps.len() {
        (seen, after)
    } else if is_reset(ps[k]) {
        reset_walk(ps, next_param(ps, k), true, false)
    } else {
        reset_walk(ps, next_param(ps, k), seen, true)
    }
}

/// The SGR parameters `p` hold a reset in parameter position.
pub open spec fn sgr_resets(p: Seq<char>) -> bool {
    reset_walk(split_params(p), 0, false, false).0
}

/// The SGR parameters `p` set styles after their last reset.
pub open spec fn sgr_sets_after_reset(p: Seq<char>) -> bool {
    reset_walk(split_params(p), 0, false, false).1
}

/// The active SGR stack after the escape `q`. A reset in parameter position
/// clears the stack (the values of an extended colour are no resets); a sequence
/// that also sets styles after its last reset is kept; other SGR sequences are
/// pushed; other escapes change nothing.
pub open spec fn sgr_update(active: Seq<Seq<char>>, q: Seq<char>) -> Seq<Seq<char>> {
    match sgr_params_of(q) {
        None => active,
        Some(p) => if sgr_resets(p) {
            if sgr_sets_after_reset(p) {
                seq![q]
            } else {
                Seq::empty()
            }
        } else {
            active.push(q)
        },
    }
}

/// Where the body of an OSC sequence starts: after `ESC ]` or the 8-bit OSC.
pub open spec fn osc_body_start(q: Seq<char>) -> Option<int> {
    if q.len() >= 2 && q[0] == esc() && q[1] == ']' {
        Some(2)
    } else if q.len() >= 1 && q[0] == '\u{9d}' {
        Some(1)
    } else {
        None
    }
}

/// What follows `8;` in an OSC 8 sequence.
pub open spec fn osc8_payload(q: Seq<char>) -> Option<Seq<char>> {
    match osc_body_start(q) {
        Some(b) => if q.len() >= b + 2 && q[b] == '8' && q[b + 1] == ';' {
            Some(q.subrange(b + 2, q.len() as int))
        } else {
            None
        },
        None => None,
    }
}

/// `b` without its string terminator: `BEL`, else `ESC \`, else the 8-bit `ST`.
pub open spec fn strip_terminator(b: Seq<char>) -> Option<Seq<char>> {
    if b.len() >= 1 && b[b.len() - 1] == '\u{07}' {
        Some(b.subrange(0, b.len() - 1))
    } else if b.len() >= 2 && b[b.len() - 2] == esc() && b[b.len() - 1] == '\\' {
        Some(b.subrange(0, b.len() - 2))
    } else if b.len() >= 1 && b[b.len() - 1] == '\u{9c}' {
        Some(b.subrange(0, b.len() - 1))
    } else {
        None
    }
}

/// The text after the first `;` of `s`, if it has one.
pub open spec fn after_first_semi(s: Seq<char>) -> Option<Seq<char>>
    decreases s.len(),
{
    if s.len() == 0 {
        None
    } else if s[0] == ';' {
        Some(s.drop_first())
    } else {
        after_first_semi(s.drop_first())
    }
}

/// `Some(true)` if `q` opens an OSC 8 hyperlink (non-empty URI), `Some(false)` if
/// it closes one (empty URI), `None` if it is not an OSC 8 sequence.
pub open spec fn osc8_kind_of(q: Seq<char>) -> Option<bool> {
    match osc8_payload(q) {
        None => None,
        Some(p) => match strip_terminator(p) {
            None => None,
            Some(b) => match after_first_semi(b) {
                None => None,
                Some(uri) => Some(uri.len() > 0),
            },
        },
    }
}

/// The open hyperlink after the escape `q`: an OSC 8 open sets it, a close clears
/// it, and any other escape leaves it unchanged.
pub open spec fn link_update(link: Option<Seq<char>>, q: Seq<char>) -> Option<Seq<char>> {
    match osc8_kind_of(q) {
        Some(true) => Some(q),
        Some(false) => None,
        None => link,
    }
}

/// The parameter substring of an SGR sequence (`CSI … m`), or `None` if not SGR.
pub fn sgr_params(seq: &[char]) -> (r: Option<Vec<char>>)
    ensures
        opt_view(r) == sgr_params_of(seq@),
{
    let n = seq.len();
    let body: usize;
    if n >= 2 && seq[0] == '\u{1b}' && seq[1] == '[' {
        body = 2;
    } else if n >= 1 && seq[0] == '\u{9b}' {
        body = 1;
    } else {
        return None;
    }
    if n > body && seq[n - 1] == 'm' {
        Some(collect(seq, body, n - 1))
    } else {
        None
    }
}

/// Whether the SGR parameter `p[from..to]` is a reset (empty, or all zeros).
pub fn is_reset_param(p: &[char], from: usize, to: usize) -> (r: bool)
    requires
        from <= to <= p@.len(),
    ensures
        r == is_reset(p@.subrange(from as int, to as int)),
{
    let mut k: usize = from;
    while k < to
        invariant
            from <= k <= to <= p@.len(),
            forall|j: int| from <= j < k ==> p@[j] == '0',
        decreases to - k,
    {
        if p[k] != '0' {
            assert(p@.subrange(from as int, to as int)[k - from] != '0');
            return false;
        }
        k += 1;
    }
    assert forall|j: int| 0 <= j < to - from implies #[trigger] p@.subrange(
        from as int,
        to as int,
    )[j] == '0' by {
        assert(p@[from + j] == '0');
    }
    true
}

pub proof fn lemma_split_params_nonempty(p: Seq<char>)
    ensures
        split_params(p).len() >= 1,
    decreases p.len(),
{
    if p.len() > 0 {
        lemma_split_params_nonempty(p.drop_last());
    }
}

/// Whether `p[from..to]` is the single char `c`.
fn is_param(p: &[char], from: usize, to: usize, c: char) -> (r: bool)
    requires
        from <= to <= p@.len(),
    ensures
        r == (p@.subrange(from as int, to as int) == seq![c]),
{
    let ghost q = p@.subrange(from as int, to as int);
    let ghost one = seq![c];
    assert(one.len() == 1 && one[0] == c);
    if to - from == 1 && p[from] == c {
        assert(q =~= one);
        true
    } else {
        if to - from == 1 {
            assert(q[0] == p@[from as int]);
            assert(q[0] != one[0]);
        }
        assert(q != one);
        false
    }
}

/// Whether `p[from..to]` is an extended-colour parameter (`38`, `48`, `58`).
fn is_colour_intro_param(p: &[char], from: usize, to: usize) -> (r: bool)
    requires
        from <= to <= p@.len(),
    ensures
        r == is_colour_intro(p@.subrange(from as int, to as int)),
{
    let ghost q = p@.subrange(from as int, to as int);
    let ghost a = seq!['3', '8'];
    let ghost b = seq!['4', '8'];
    let ghost c = seq!['5', '8'];
    assert(a.len() == 2 && a[0] == '3' && a[1] == '8');
    assert(b.len() == 2 && b[0] == '4' && b[1] == '8');
    assert(c.len() == 2 && c[0] == '5' && c[1] == '8');
    if to - from == 2 && (p[from] == '3' || p[from] == '4' || p[from] == '5') && p[from + 1]
        == '8' {
        assert(q[0] == p@[from as int] && q[1] == p@[from + 1]);
        assert(q =~= a || q =~= b || q =~= c);
        true
    } else {
        if to - from == 2 {
            assert(q[0] == p@[from as int] && q[1] == p@[from + 1]);
            assert(q != a && q != b && q != c);
        } else {
            assert(q.len() != 2);
        }
        false
    }
}

/// The `;`-separated pieces of `p`, as index ranges.
fn param_ranges(p: &[char]) -> (r: Vec<(usize, usize)>)
    ensures
        r@.len() == split_params(p@).len(),
        forall|j: int| #![trigger r@[j]] 0 <= j < r@.len() ==> r@[j].0 <= r@[j].1 <= p@.len(),
        forall|j: int|
            #![trigger r@[j]]
            0 <= j < r@.len() ==> p@.subrange(r@[j].0 as int, r@[j].1 as int) == split_params(
                p@,
            )[j],
{
    let ghost q = p@;
    let mut r: Vec<(usize, usize)> = Vec::new();
    let mut piece_start: usize = 0;
    let mut k: usize = 0;
    proof {
        assert(q.take(0) =~= Seq::<char>::empty());
    }
    while k < p.len()
        invariant
            q == p@,
            piece_start <= k <= q.len(),
            r@.len() + 1 == split_params(q.take(k as int)).len(),
            split_params(q.take(k as int)).last() == q.subrange(piece_start as int, k as int),
            forall|j: int| #![trigger r@[j]] 0 <= j < r@.len() ==> r@[j].0 <= r@[j].1 <= q.len(),
            forall|j: int|
                #![trigger r@[j]]
                0 <= j < r@.len() ==> q.subrange(r@[j].0 as int, r@[j].1 as int) == split_params(
                    q.take(k as int),
                )[j],
        decreases q.len() - k,
    {
        let ghost ps = split_params(q.take(k as int));
        let ghost old_r = r@;
        let ghost ps2 = split_params(q.take(k + 1));
        proof {
            assert(q.take(k + 1).drop_last() =~= q.take(k as int));
            assert(q.take(k + 1).last() == q[k as int]);
            lemma_split_params_nonempty(q.take(k as int));
        }
        if p[k] == ';' {
            r.push((piece_start, k));
            proof {
                assert(ps2 == ps.push(Seq::<char>::empty()));
                assert forall|j: int| 0 <= j < r@.len() implies q.subrange(
                    r@[j].0 as int,
                    r@[j].1 as int,
                ) == #[trigger] ps2[j] by {
                    if j < old_r.len() {
                        assert(r@[j] == old_r[j]);
                        assert(ps2[j] == ps[j]);
                    }
                }
            }
            piece_start = k + 1;
            proof {
                assert(q.subrange(piece_start as int, k + 1) =~= Seq::<char>::empty());
            }
        } else {
            proof {
                assert(ps2 == ps.update(ps.len() - 1, ps.last().push(q[k as int])));
                assert(q.subrange(piece_start as int, k + 1) =~= ps.last().push(q[k as int]));
                assert forall|j: int| 0 <= j < r@.len() implies q.subrange(
                    r@[j].0 as int,
                    r@[j].1 as int,
                ) == #[trigger] ps2[j] by {
                    assert(ps2[j] == ps[j]);
                }
            }
        }
        k += 1;
    }
    let ghost ps = split_params(q);
    let ghost old_r = r@;
    proof {
        assert(q.take(k as int) =~= q);
        lemma_split_params_nonempty(q);
    }
    r.push((piece_start, p.len()));
    assert forall|j: int| 0 <= j < r@.len() implies q.subrange(
        r@[j].0 as int,
        r@[j].1 as int,
    ) == #[trigger] ps[j] by {
        if j < old_r.len() {
            assert(r@[j] == old_r[j]);
        }
    }
    r
}

/// Update the active SGR stack from an escape. A reset parameter clears the
/// stack, while the values of an extended colour (`38`/`48`/`58` followed by
/// `5;n` or `2;r;g;b`) are no resets; a sequence that also sets styles after its
/// last reset is kept (it self-resets on re-emit); other SGR sequences are pushed.
pub fn update_sgr(active: &mut Vec<Vec<char>>, seq: &[char])
    ensures
        seqs_view(final(active)@) == sgr_update(seqs_view(old(active)@), seq@),
{
    let params = match sgr_params(seq) {
        Some(p) => p,
        None => {
            return ;
        },
    };
    let ghost p = params@;
    let pslice = params.as_slice();
    assert(pslice@ == p);
    let ranges = param_ranges(pslice);
    let ghost ps = split_params(p);
    let count = ranges.len();
    let mut seen = false;
    let mut after = false;
    let mut k: usize = 0;
    while k < count
        invariant
            count == ranges@.len() == ps.len(),
            p == params@,
            pslice@ == p,
            ps == split_params(p),
            k <= count,
            forall|j: int|
                #![trigger ranges@[j]]
                0 <= j < ranges@.len() ==> ranges@[j].0 <= ranges@[j].1 <= p.len(),
            forall|j: int|
                #![trigger ranges@[j]]
                0 <= j < ranges@.len() ==> p.subrange(ranges@[j].0 as int, ranges@[j].1 as int)
                    == ps[j],
            reset_walk(ps, k as int, seen, after) == reset_walk(ps, 0, false, false),
        decreases count - k,
    {
        let (from, to) = ranges[k];
        assert(p.subrange(from as int, to as int) == ps[k as int]);
        let mut next = k + 1;
        if is_colour_intro_param(pslice, from, to) && k + 1 < count {
            let (f1, t1) = ranges[k + 1];
            assert(p.subrange(f1 as int, t1 as int) == ps[k + 1]);
            if is_param(pslice, f1, t1, '5') {
                next = if count - k > 3 {
                    k + 3
                } else {
                    count
                };
            } else if is_param(pslice, f1, t1, '2') {
                next = if count - k > 5 {
                    k + 5
                } else {
                    count
                };
            }
        }
        assert(next == next_param(ps, k as int));
        if is_reset_param(pslice, from, to) {
            seen = true;
            after = false;
        } else {
            after = true;
        }
        k = next;
    }
    let ghost old_active = seqs_view(active@);
    if seen {
        active.clear();
        if after {
            active.push(collect(seq, 0, seq.len()));
            assert(seq@.subrange(0, seq@.len() as int) =~= seq@);
            assert(seqs_view(active@) =~= seq![seq@]);
        } else {
            assert(seqs_view(active@) =~= Seq::<Seq<char>>::empty());
        }
    } else {
        active.push(collect(seq, 0, seq.len()));
        assert(seq@.subrange(0, seq@.len() as int) =~= seq@);
        assert(seqs_view(active@) =~= old_active.push(seq@));
    }
}

/// Classify an OSC 8 hyperlink sequence: `Some(true)` if it opens a link (non-empty
/// URI), `Some(false)` if it closes one (empty URI), `None` if not an OSC 8 sequence.
pub fn osc8_kind(seq: &[char]) -> (r: Option<bool>)
    ensures
        r == osc8_kind_of(seq@),
{
    let n = seq.len();
    let body: usize;
    if n >= 2 && seq[0] == '\u{1b}' && seq[1] == ']' {
        body = 2;
    } else if n >= 1 && seq[0] == '\u{9d}' {
        body = 1;
    } else {
        return None;
    }
    if !(n >= body + 2 && seq[body] == '8' && seq[body + 1] == ';') {
        return None;
    }
    let from = body + 2;
    let ghost pl = seq@.subrange(from as int, n as int);
    assert(osc8_payload(seq@) == Some(pl));
    let to: usize;
    if n - from >= 1 && seq[n - 1] == '\u{07}' {
        to = n - 1;
    } else if n - from >= 2 && seq[n - 2] == '\u{1b}' && seq[n - 1] == '\\' {
        to = n - 2;
    } else if n - from >= 1 && seq[n - 1] == '\u{9c}' {
        to = n - 1;
    } else {
        return None;
    }
    let ghost b = seq@.subrange(from as int, to as int);
    assert(strip_terminator(pl) == Some(b)) by {
        assert(pl.subrange(0, to - from) =~= b);
    }
    let mut k: usize = from;
    while k < to
        invariant
            from <= k <= to <= n,
            n == seq@.len(),
            b == seq@.subrange(from as int, to as int),
            after_first_semi(b) == after_first_semi(seq@.subrange(k as int, to as int)),
            osc8_payload(seq@) == Some(pl),
            strip_terminator(pl) == Some(b),
        decreases to - k,
    {
        assert(seq@.subrange(k as int, to as int)[0] == seq@[k as int]);
        assert(seq@.subrange(k as int, to as int).drop_first() =~= seq@.subrange(k + 1, to as int));
        if seq[k] == ';' {
            assert(after_first_semi(b) == Some(seq@.subrange(k + 1, to as int)));
            assert(osc8_payload(seq@) == Some(pl));
            assert(strip_terminator(pl) == Some(b));
            assert(osc8_kind_of(seq@) == Some(k + 1 < to));
            return Some(k + 1 < to);
        }
        k += 1;
    }
    None
}

/// Update the active hyperlink from an escape: an OSC 8 open sets it, a close
/// clears it, and any other escape leaves it unchanged.
pub fn update_link(link: &mut Option<Vec<char>>, seq: &[char])
    ensures
        opt_view(*final(link)) == link_update(opt_view(*old(link)), seq@),
{
    match osc8_kind(seq) {
        Some(true) => {
            *link = Some(collect(seq, 0, seq.len()));
            assert(seq@.subrange(0, seq@.len() as int) =~= seq@);
        },
        Some(false) => {
            *link = None;
        },
        None => {},
    }
}

} // verus!
