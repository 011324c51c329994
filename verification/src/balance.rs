//! The styling state that a run of tokens leaves: replaying the active SGR
//! stack rebuilds it, a reset empties it, and an OSC 8 close ends the link.

use vstd::prelude::*;
use crate::pieces::esc_pieces;
use crate::scan::esc;
use crate::sgr::{
    after_first_semi, csi_body_start, is_reset, link_update, next_param, osc8_kind_of, reset_walk,
    sgr_resets, sgr_sets_after_reset,
    osc8_payload, osc_body_start, sgr_params_of, sgr_update, split_params, strip_terminator,
};
use crate::slice::{link_after, osc8_close_seq, reset_seq, sgr_after};
use crate::token::TokView;

verus! {

/// The SGR stack after a token.
pub open spec fn sgr_step(st: Seq<Seq<char>>, t: TokView) -> Seq<Seq<char>> {
    match t {
        TokView::Esc(q) => sgr_update(st, q),
        TokView::Ch(_, _) => st,
    }
}

/// The SGR stack after running `ts` from `st`.
pub open spec fn sgr_run(st: Seq<Seq<char>>, ts: Seq<TokView>) -> Seq<Seq<char>>
    decreases ts.len(),
{
    if ts.len() == 0 {
        st
    } else {
        sgr_step(sgr_run(st, ts.drop_last()), ts.last())
    }
}

/// The open hyperlink after a token.
pub open spec fn link_step(l: Option<Seq<char>>, t: TokView) -> Option<Seq<char>> {
    match t {
        TokView::Esc(q) => link_update(l, q),
        TokView::Ch(_, _) => l,
    }
}

/// The open hyperlink after running `ts` from `l`.
pub open spec fn link_run(l: Option<Seq<char>>, ts: Seq<TokView>) -> Option<Seq<char>>
    decreases ts.len(),
{
    if ts.len() == 0 {
        l
    } else {
        link_step(link_run(l, ts.drop_last()), ts.last())
    }
}

pub proof fn lemma_after_is_run(t: Seq<TokView>, n: int)
    requires
        0 <= n <= t.len(),
    ensures
        sgr_after(t, n) == sgr_run(Seq::empty(), t.take(n)),
        link_after(t, n) == link_run(None, t.take(n)),
    decreases n,
{
    if n > 0 {
        lemma_after_is_run(t, n - 1);
        assert(t.take(n).drop_last() =~= t.take(n - 1));
        assert(t.take(n).last() == t[n - 1]);
    } else {
        assert(t.take(0).len() == 0);
    }
}

pub proof fn lemma_run_concat(st: Seq<Seq<char>>, l: Option<Seq<char>>, a: Seq<TokView>, b: Seq<TokView>)
    ensures
        sgr_run(st, a + b) == sgr_run(sgr_run(st, a), b),
        link_run(l, a + b) == link_run(link_run(l, a), b),
    decreases b.len(),
{
    if b.len() == 0 {
        assert(a + b =~= a);
    } else {
        lemma_run_concat(st, l, a, b.drop_last());
        assert((a + b).drop_last() =~= a + b.drop_last());
        assert((a + b).last() == b.last());
    }
}

/// A well-formed SGR stack: only SGR sequences; only the bottom one may hold a
/// reset, and then sets styles after it.
pub open spec fn stack_ok(st: Seq<Seq<char>>) -> bool {
    forall|m: int|
        0 <= m < st.len() ==> (#[trigger] sgr_params_of(st[m])) is Some && (m >= 1 ==> !sgr_resets(
            sgr_params_of(st[m]).unwrap(),
        )) && (sgr_resets(sgr_params_of(st[m]).unwrap()) ==> sgr_sets_after_reset(
            sgr_params_of(st[m]).unwrap(),
        ))
}

pub proof fn lemma_stack_ok_after(t: Seq<TokView>, n: int)
    requires
        0 <= n <= t.len(),
    ensures
        stack_ok(sgr_after(t, n)),
    decreases n,
{
    if n > 0 {
        lemma_stack_ok_after(t, n - 1);
        let prev = sgr_after(t, n - 1);
        let cur = sgr_after(t, n);
        if let TokView::Esc(q) = t[n - 1] {
            assert forall|m: int| 0 <= m < cur.len() implies (#[trigger] sgr_params_of(cur[m])) is Some
                && (m >= 1 ==> !sgr_resets(sgr_params_of(cur[m]).unwrap())) && (
            sgr_resets(sgr_params_of(cur[m]).unwrap()) ==> sgr_sets_after_reset(
                sgr_params_of(cur[m]).unwrap(),
            )) by {
                if m < prev.len() && cur[m] == prev[m] {
                    assert(sgr_params_of(prev[m]) is Some);
                } else {
                    assert(cur[m] == q);
                }
            }
        }
    }
}

/// Replaying a well-formed SGR stack from nothing rebuilds it.
pub proof fn lemma_replay_stack(st: Seq<Seq<char>>)
    requires
        stack_ok(st),
    ensures
        sgr_run(Seq::empty(), esc_pieces(st)) == st,
        forall|l: Option<Seq<char>>| link_run(l, esc_pieces(st)) == l,
    decreases st.len(),
{
    if st.len() > 0 {
        let init = st.drop_last();
        assert(stack_ok(init)) by {
            assert forall|m: int| 0 <= m < init.len() implies (#[trigger] sgr_params_of(init[m])) is Some
                && (m >= 1 ==> !sgr_resets(sgr_params_of(init[m]).unwrap())) && (
            sgr_resets(sgr_params_of(init[m]).unwrap()) ==> sgr_sets_after_reset(
                sgr_params_of(init[m]).unwrap(),
            )) by {
                assert(init[m] == st[m]);
                assert(sgr_params_of(st[m]) is Some);
            }
        }
        lemma_replay_stack(init);
        assert(esc_pieces(st).drop_last() =~= esc_pieces(init));
        let q = st.last();
        assert(esc_pieces(st).last() == TokView::Esc(q));
        assert(sgr_params_of(st[st.len() - 1]) is Some);
        if st.len() >= 2 {
            assert(init.push(q) =~= st);
        } else {
            assert(init =~= Seq::<Seq<char>>::empty());
            assert(seq![q] =~= st);
            assert(Seq::<Seq<char>>::empty().push(q) =~= st);
        }
        // An SGR sequence is no OSC sequence, so the link stays.
        assert(csi_body_start(q) is Some);
        assert(osc_body_start(q) is None);
        assert forall|l: Option<Seq<char>>| link_run(l, esc_pieces(st)) == l by {
            assert(link_run(l, esc_pieces(init)) == l);
        }
    }
}

/// Every open hyperlink was opened by an OSC 8 open.
pub proof fn lemma_link_opens(t: Seq<TokView>, n: int)
    requires
        0 <= n <= t.len(),
    ensures
        link_after(t, n) matches Some(l) ==> osc8_kind_of(l) == Some(true),
    decreases n,
{
    if n > 0 {
        lemma_link_opens(t, n - 1);
    }
}

/// The SGR reset empties the stack and leaves the link.
pub proof fn lemma_reset_effect(st: Seq<Seq<char>>, l: Option<Seq<char>>)
    ensures
        sgr_update(st, reset_seq()) == Seq::<Seq<char>>::empty(),
        link_update(l, reset_seq()) == l,
{
    let r = reset_seq();
    assert(csi_body_start(r) == Some(2int));
    let p = r.subrange(2, 3);
    assert(sgr_params_of(r) == Some(p));
    assert(p.len() == 1 && p[0] == '0');
    assert(p.drop_last() =~= Seq::<char>::empty());
    let ps = split_params(p);
    assert(split_params(p.drop_last()) == seq![Seq::<char>::empty()]);
    assert(ps =~= seq![seq!['0']]);
    assert(is_reset(ps[0]));
    assert(next_param(ps, 0) == 1);
    assert(reset_walk(ps, 1, true, false) == (true, false));
    assert(reset_walk(ps, 0, false, false) == (true, false));
    assert(osc_body_start(r) is None);
}

/// The OSC 8 close ends the link and leaves the SGR stack.
pub proof fn lemma_close_effect(st: Seq<Seq<char>>, l: Option<Seq<char>>)
    ensures
        sgr_update(st, osc8_close_seq()) == st,
        link_update(l, osc8_close_seq()) is None,
{
    let c = osc8_close_seq();
    assert(csi_body_start(c) is None);
    assert(osc_body_start(c) == Some(2int));
    let pl = c.subrange(4, 7);
    assert(osc8_payload(c) == Some(pl));
    assert(pl[1] == esc() && pl[2] == '\\');
    let b = pl.subrange(0, 1);
    assert(strip_terminator(pl) == Some(b));
    assert(b[0] == ';');
    assert(b.drop_first() =~= Seq::<char>::empty());
    assert(after_first_semi(b) == Some(Seq::<char>::empty()));
    assert(osc8_kind_of(c) == Some(false));
}

/// Reopening a hyperlink sets it and leaves the SGR stack.
pub proof fn lemma_reopen_effect(st: Seq<Seq<char>>, l: Seq<char>)
    requires
        osc8_kind_of(l) == Some(true),
    ensures
        sgr_update(st, l) == st,
        link_update(None, l) == Some(l),
{
    assert(osc_body_start(l) is Some);
    assert(csi_body_start(l) is None);
}

} // verus!
