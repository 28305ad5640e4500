//! Edits that the GEMMA editor makes: drawing and deleting links and states,
//! and changing a condition or an action.
use vstd::prelude::*;
use vstd::string::*;
use crate::gemma::{
    Expr, ExprView, Gemma, GemmaStateView, GemmaTransitionView, GemmaView,
    expr_from_text, gemma_state_index, is_state_name, lemma_gemma_state_index,
};
use crate::text::{same_text, str_eq, string_of};
use crate::grafcet::{Grafcet, GrafcetView, StepView, TransitionView};
use crate::generate::{join_names, joined};

verus! {

/// The transitions whose identifier is not `tid`, in their order.
pub open spec fn without_transition(ts: Seq<GemmaTransitionView>, tid: u32) -> Seq<GemmaTransitionView>
    decreases ts.len(),
{
    if ts.len() == 0 {
        Seq::empty()
    } else {
        let r = without_transition(ts.drop_last(), tid);
        if ts.last().id != tid {
            r.push(ts.last())
        } else {
            r
        }
    }
}

/// The transitions that neither leave nor reach state `sid`, in their order.
pub open spec fn away_from(ts: Seq<GemmaTransitionView>, sid: Seq<char>) -> Seq<GemmaTransitionView>
    decreases ts.len(),
{
    if ts.len() == 0 {
        Seq::empty()
    } else {
        let r = away_from(ts.drop_last(), sid);
        if ts.last().from != sid && ts.last().to != sid {
            r.push(ts.last())
        } else {
            r
        }
    }
}

/// The states not named `sid`, in their order.
pub open spec fn other_states(states: Seq<GemmaStateView>, sid: Seq<char>) -> Seq<GemmaStateView>
    decreases states.len(),
{
    if states.len() == 0 {
        Seq::empty()
    } else {
        let r = other_states(states.drop_last(), sid);
        if states.last().id != sid {
            r.push(states.last())
        } else {
            r
        }
    }
}

/// Index of the first transition with identifier `tid`, or -1.
pub open spec fn gemma_transition_index(ts: Seq<GemmaTransitionView>, tid: u32) -> int
    decreases ts.len(),
{
    if ts.len() == 0 {
        -1
    } else {
        let r = gemma_transition_index(ts.drop_last(), tid);
        if r >= 0 {
            r
        } else if ts.last().id == tid {
            ts.len() - 1
        } else {
            -1
        }
    }
}

proof fn lemma_without_len(ts: Seq<GemmaTransitionView>, tid: u32)
    ensures
        without_transition(ts, tid).len() <= ts.len(),
    decreases ts.len(),
{
    if ts.len() > 0 {
        lemma_without_len(ts.drop_last(), tid);
    }
}

proof fn lemma_away_len(ts: Seq<GemmaTransitionView>, sid: Seq<char>)
    ensures
        away_from(ts, sid).len() <= ts.len(),
    decreases ts.len(),
{
    if ts.len() > 0 {
        lemma_away_len(ts.drop_last(), sid);
    }
}

proof fn lemma_others_len(ss: Seq<GemmaStateView>, sid: Seq<char>)
    ensures
        other_states(ss, sid).len() <= ss.len(),
    decreases ss.len(),
{
    if ss.len() > 0 {
        lemma_others_len(ss.drop_last(), sid);
    }
}

proof fn lemma_transition_index(ts: Seq<GemmaTransitionView>, tid: u32)
    ensures
        -1 <= gemma_transition_index(ts, tid) < ts.len(),
        gemma_transition_index(ts, tid) >= 0 ==> ts[gemma_transition_index(ts, tid)].id == tid,
    decreases ts.len(),
{
    if ts.len() > 0 {
        lemma_transition_index(ts.drop_last(), tid);
    }
}

proof fn lemma_prefix_transition_index(s: Seq<GemmaTransitionView>, tid: u32, k: int)
    requires
        0 <= k <= s.len(),
        gemma_transition_index(s.take(k), tid) >= 0,
    ensures
        gemma_transition_index(s, tid) == gemma_transition_index(s.take(k), tid),
    decreases s.len() - k,
{
    if k < s.len() {
        assert(s.take(k + 1).drop_last() =~= s.take(k));
        lemma_prefix_transition_index(s, tid, k + 1);
    } else {
        assert(s.take(k) =~= s);
    }
}

impl Gemma {
    /// Removes every transition with identifier `tid`.
    pub fn remove_transition(&mut self, tid: u32)
        ensures
            final(self)@ == (GemmaView { transitions: without_transition(old(self)@.transitions, tid), ..old(self)@ }),
    {
        let ghost ts0 = old(self)@.transitions;
        let n = self.transitions.len();
        let mut i: usize = 0;
        let mut p: usize = 0;
        while p < n
            invariant
                n == ts0.len(),
                0 <= i <= p <= n,
                self@.transitions =~= without_transition(ts0.take(p as int), tid) + ts0.skip(p as int),
                i == without_transition(ts0.take(p as int), tid).len(),
                self@.states == old(self)@.states,
                self.next_trans_id == old(self).next_trans_id,
                self.name == old(self).name,
                self.description == old(self).description,
            decreases n - p,
        {
            assert(ts0.take(p + 1).drop_last() =~= ts0.take(p as int));
            assert(ts0.take(p + 1).last() == ts0[p as int]);
            assert(self@.transitions.len() == i + (n - p));
            assert(self.transitions@.len() == self@.transitions.len());
            assert(self@.transitions[i as int] == ts0[p as int]);
            let ghost before = self@.transitions;
            if self.transitions[i].id == tid {
                self.transitions.remove(i);
                assert(self@.transitions =~= before.remove(i as int));
            } else {
                i = i + 1;
            }
            p = p + 1;
        }
        assert(ts0.take(n as int) =~= ts0);
    }

    /// Removes every transition.
    pub fn clear_transitions(&mut self)
        ensures
            final(self)@ == (GemmaView { transitions: Seq::empty(), ..old(self)@ }),
    {
        self.transitions = Vec::new();
        assert(self@.transitions =~= Seq::<GemmaTransitionView>::empty());
    }

    /// Removes state `sid` (every state of that name) and every transition
    /// that leaves or reaches it.
    pub fn remove_state(&mut self, sid: &str)
        ensures
            final(self)@ == (GemmaView {
                states: other_states(old(self)@.states, sid@),
                transitions: away_from(old(self)@.transitions, sid@),
                ..old(self)@
            }),
    {
        let ghost ss0 = old(self)@.states;
        let n = self.states.len();
        let mut i: usize = 0;
        let mut p: usize = 0;
        while p < n
            invariant
                n == ss0.len(),
                0 <= i <= p <= n,
                self@.states =~= other_states(ss0.take(p as int), sid@) + ss0.skip(p as int),
                i == other_states(ss0.take(p as int), sid@).len(),
                self@.transitions == old(self)@.transitions,
                self.next_trans_id == old(self).next_trans_id,
                self.name == old(self).name,
                self.description == old(self).description,
            decreases n - p,
        {
            assert(ss0.take(p + 1).drop_last() =~= ss0.take(p as int));
            assert(ss0.take(p + 1).last() == ss0[p as int]);
            assert(self@.states.len() == i + (n - p));
            assert(self.states@.len() == self@.states.len());
            assert(self@.states[i as int] == ss0[p as int]);
            let ghost before = self@.states;
            if str_eq(self.states[i].id.as_str(), sid) {
                self.states.remove(i);
                assert(self@.states =~= before.remove(i as int));
            } else {
                i = i + 1;
            }
            p = p + 1;
        }
        assert(ss0.take(n as int) =~= ss0);
        let ghost ts0 = old(self)@.transitions;
        let m = self.transitions.len();
        let mut i: usize = 0;
        let mut p: usize = 0;
        while p < m
            invariant
                m == ts0.len(),
                0 <= i <= p <= m,
                self@.transitions =~= away_from(ts0.take(p as int), sid@) + ts0.skip(p as int),
                i == away_from(ts0.take(p as int), sid@).len(),
                self@.states == other_states(old(self)@.states, sid@),
                self.next_trans_id == old(self).next_trans_id,
                self.name == old(self).name,
                self.description == old(self).description,
            decreases m - p,
        {
            assert(ts0.take(p + 1).drop_last() =~= ts0.take(p as int));
            assert(ts0.take(p + 1).last() == ts0[p as int]);
            assert(self@.transitions.len() == i + (m - p));
            assert(self.transitions@.len() == self@.transitions.len());
            assert(self@.transitions[i as int] == ts0[p as int]);
            let ghost before = self@.transitions;
            if str_eq(self.transitions[i].from.as_str(), sid) || str_eq(self.transitions[i].to.as_str(), sid) {
                self.transitions.remove(i);
                assert(self@.transitions =~= before.remove(i as int));
            } else {
                i = i + 1;
            }
            p = p + 1;
        }
        assert(ts0.take(m as int) =~= ts0);
    }

    /// Index of the first transition with identifier `tid`.
    pub fn transition_position(&self, tid: u32) -> (r: Option<usize>)
        ensures
            match r {
                Some(k) => k as int == gemma_transition_index(self@.transitions, tid),
                None => gemma_transition_index(self@.transitions, tid) == -1,
            },
    {
        let ghost ts = self@.transitions;
        let n = self.transitions.len();
        let mut k: usize = 0;
        while k < n
            invariant
                n == ts.len(),
                ts == self@.transitions,
                0 <= k <= n,
                gemma_transition_index(ts.take(k as int), tid) == -1,
            decreases n - k,
        {
            assert(ts.take(k + 1).drop_last() =~= ts.take(k as int));
            assert(ts.take(k + 1).last() == ts[k as int]);
            if self.transitions[k].id == tid {
                proof {
                    lemma_prefix_transition_index(ts, tid, k + 1);
                }
                return Some(k);
            }
            k = k + 1;
        }
        assert(ts.take(n as int) =~= ts);
        None
    }

    /// Gives the first transition with identifier `tid` the condition that
    /// `text` stands for (see `Expr::from_str`); nothing happens when there
    /// is no such transition.
    pub fn set_condition(&mut self, tid: u32, text: &str)
        ensures
            ({
                let k = gemma_transition_index(old(self)@.transitions, tid);
                if k >= 0 {
                    final(self)@ == (GemmaView {
                        transitions: old(self)@.transitions.update(
                            k,
                            GemmaTransitionView { condition: expr_from_text(text@), ..old(self)@.transitions[k] },
                        ),
                        ..old(self)@
                    })
                } else {
                    final(self)@ == old(self)@
                }
            }),
    {
        proof {
            lemma_transition_index(self@.transitions, tid);
        }
        match self.transition_position(tid) {
            Some(k) => {
                let e = Expr::from_str(text);
                let ghost before = self.transitions@;
                self.transitions[k].condition = e;
                assert(self@.transitions =~= old(self)@.transitions.update(
                    k as int,
                    GemmaTransitionView { condition: expr_from_text(text@), ..old(self)@.transitions[k as int] },
                ));
            },
            None => {},
        }
    }

    /// Gives the first state named `sid` the action `action`; nothing happens
    /// when there is no such state.
    pub fn set_action(&mut self, sid: &str, action: String)
        ensures
            ({
                let k = gemma_state_index(old(self)@.states, sid@);
                if k >= 0 {
                    final(self)@ == (GemmaView {
                        states: old(self)@.states.update(k, GemmaStateView { action: action@, ..old(self)@.states[k] }),
                        ..old(self)@
                    })
                } else {
                    final(self)@ == old(self)@
                }
            }),
    {
        proof {
            lemma_gemma_state_index(self@.states, sid@);
        }
        match self.state_position(sid) {
            Some(k) => {
                self.states[k].action = action;
                assert(self@.states =~= old(self)@.states.update(
                    k as int,
                    GemmaStateView { action: action@, ..old(self)@.states[k as int] },
                ));
            },
            None => {},
        }
    }

    /// Draws a link from `from` to `to` under the next identifier. Its
    /// condition is `TRUE`, or the one that a remembered non-empty condition
    /// text stands for. Returns the new identifier.
    pub fn add_link(&mut self, from: String, to: String, remembered: Option<String>) -> (id: u32)
        requires
            old(self).next_trans_id < u32::MAX,
        ensures
            id == old(self).next_trans_id,
            final(self)@ == old(self)@.after_add_transition(
                from@,
                to@,
                match remembered {
                    Some(c) => if c@.len() > 0 {
                        expr_from_text(c@)
                    } else {
                        ExprView::True
                    },
                    None => ExprView::True,
                },
            ),
    {
        let cond = match &remembered {
            Some(c) => if c.as_str().unicode_len() > 0 {
                Expr::from_str(c.as_str())
            } else {
                Expr::True
            },
            None => Expr::True,
        };
        self.add_transition(from, to, cond)
    }
}

// ── What the GEMMA editor keeps ───────────────────────────────────────────────

/// Every transition joins two states of the GEMMA, no two transitions share
/// an identifier, and every identifier is below the counter.
pub open spec fn gemma_sound(g: GemmaView) -> bool {
    &&& forall|k: int| 0 <= k < g.transitions.len() ==> is_state_name(g.states, #[trigger] g.transitions[k].from)
        && is_state_name(g.states, g.transitions[k].to)
    &&& forall|a: int, b: int| 0 <= a < b < g.transitions.len() ==> #[trigger] g.transitions[a].id != #[trigger] g.transitions[b].id
    &&& forall|k: int| 0 <= k < g.transitions.len() ==> #[trigger] g.transitions[k].id < g.next_trans_id
}

/// The identifiers of `ts` are pairwise distinct.
pub open spec fn ids_distinct(ts: Seq<GemmaTransitionView>) -> bool {
    forall|a: int, b: int| 0 <= a < b < ts.len() ==> #[trigger] ts[a].id != #[trigger] ts[b].id
}

proof fn lemma_without_sub(ts: Seq<GemmaTransitionView>, tid: u32)
    ensures
        forall|j: int| 0 <= j < without_transition(ts, tid).len() ==> ts.contains(#[trigger] without_transition(ts, tid)[j]),
        ids_distinct(ts) ==> ids_distinct(without_transition(ts, tid)),
    decreases ts.len(),
{
    if ts.len() > 0 {
        let d = ts.drop_last();
        lemma_without_sub(d, tid);
        let r = without_transition(d, tid);
        let w = without_transition(ts, tid);
        assert forall|j: int| 0 <= j < w.len() implies ts.contains(#[trigger] w[j]) by {
            if j < r.len() {
                assert(w[j] == r[j]);
                let i = choose|i: int| 0 <= i < d.len() && d[i] == r[j];
                assert(ts[i] == d[i]);
            } else {
                assert(w[j] == ts[ts.len() - 1]);
            }
        }
        if ids_distinct(ts) {
            assert(ids_distinct(d)) by {
                assert forall|a: int, b: int| 0 <= a < b < d.len() implies #[trigger] d[a].id != #[trigger] d[b].id by {
                    assert(d[a] == ts[a] && d[b] == ts[b]);
                }
            }
            assert forall|a: int, b: int| 0 <= a < b < w.len() implies #[trigger] w[a].id != #[trigger] w[b].id by {
                if b < r.len() {
                    assert(w[a] == r[a] && w[b] == r[b]);
                } else {
                    assert(w[a] == r[a]);
                    let i = choose|i: int| 0 <= i < d.len() && d[i] == r[a];
                    assert(ts[i] == d[i]);
                    assert(w[b] == ts[ts.len() - 1]);
                }
            }
        }
    }
}

proof fn lemma_away_sub(ts: Seq<GemmaTransitionView>, sid: Seq<char>)
    ensures
        forall|j: int| 0 <= j < away_from(ts, sid).len() ==> ts.contains(#[trigger] away_from(ts, sid)[j])
            && away_from(ts, sid)[j].from != sid && away_from(ts, sid)[j].to != sid,
        ids_distinct(ts) ==> ids_distinct(away_from(ts, sid)),
    decreases ts.len(),
{
    if ts.len() > 0 {
        let d = ts.drop_last();
        lemma_away_sub(d, sid);
        let r = away_from(d, sid);
        let w = away_from(ts, sid);
        assert forall|j: int| 0 <= j < w.len() implies ts.contains(#[trigger] w[j]) && w[j].from != sid && w[j].to != sid by {
            if j < r.len() {
                assert(w[j] == r[j]);
                let i = choose|i: int| 0 <= i < d.len() && d[i] == r[j];
                assert(ts[i] == d[i]);
            } else {
                assert(w[j] == ts[ts.len() - 1]);
            }
        }
        if ids_distinct(ts) {
            assert(ids_distinct(d)) by {
                assert forall|a: int, b: int| 0 <= a < b < d.len() implies #[trigger] d[a].id != #[trigger] d[b].id by {
                    assert(d[a] == ts[a] && d[b] == ts[b]);
                }
            }
            assert forall|a: int, b: int| 0 <= a < b < w.len() implies #[trigger] w[a].id != #[trigger] w[b].id by {
                if b < r.len() {
                    assert(w[a] == r[a] && w[b] == r[b]);
                } else {
                    assert(w[a] == r[a]);
                    let i = choose|i: int| 0 <= i < d.len() && d[i] == r[a];
                    assert(ts[i] == d[i]);
                    assert(w[b] == ts[ts.len() - 1]);
                }
            }
        }
    }
}

proof fn lemma_other_states_keep(ss: Seq<GemmaStateView>, sid: Seq<char>, x: Seq<char>)
    requires
        is_state_name(ss, x),
        x != sid,
    ensures
        is_state_name(other_states(ss, sid), x),
    decreases ss.len(),
{
    let d = ss.drop_last();
    let r = other_states(d, sid);
    let i = choose|i: int| 0 <= i < ss.len() && #[trigger] ss[i].id == x;
    if i < ss.len() - 1 {
        assert(d[i].id == x);
        lemma_other_states_keep(d, sid, x);
        let k = choose|k: int| 0 <= k < r.len() && #[trigger] r[k].id == x;
        assert(other_states(ss, sid)[k] == r[k]);
    } else {
        assert(other_states(ss, sid)[r.len() as int] == ss.last());
    }
}

/// The edits of the GEMMA editor keep it sound (see `gemma_sound`): removing
/// a transition, all transitions or a state (with its transitions), changing
/// a condition or an action, and drawing a link between two of its states.
pub proof fn law_gemma_edits_keep_sound(
    g: GemmaView,
    tid: u32,
    sid: Seq<char>,
    text: Seq<char>,
    action: Seq<char>,
    from: Seq<char>,
    to: Seq<char>,
    cond: ExprView,
)
    requires
        gemma_sound(g),
    ensures
        gemma_sound(GemmaView { transitions: without_transition(g.transitions, tid), ..g }),
        gemma_sound(GemmaView { transitions: Seq::empty(), ..g }),
        gemma_sound(GemmaView { states: other_states(g.states, sid), transitions: away_from(g.transitions, sid), ..g }),
        gemma_transition_index(g.transitions, tid) >= 0 ==> gemma_sound(GemmaView {
            transitions: g.transitions.update(
                gemma_transition_index(g.transitions, tid),
                GemmaTransitionView {
                    condition: expr_from_text(text),
                    ..g.transitions[gemma_transition_index(g.transitions, tid)]
                },
            ),
            ..g
        }),
        gemma_state_index(g.states, sid) >= 0 ==> gemma_sound(GemmaView {
            states: g.states.update(
                gemma_state_index(g.states, sid),
                GemmaStateView { action, ..g.states[gemma_state_index(g.states, sid)] },
            ),
            ..g
        }),
        is_state_name(g.states, from) && is_state_name(g.states, to) && g.next_trans_id < u32::MAX
            ==> gemma_sound(g.after_add_transition(from, to, cond)),
{
    let ts = g.transitions;
    // removing a transition
    lemma_without_sub(ts, tid);
    let w = without_transition(ts, tid);
    assert(ids_distinct(ts));
    assert forall|k: int| 0 <= k < w.len() implies is_state_name(g.states, #[trigger] w[k].from)
        && is_state_name(g.states, w[k].to) && w[k].id < g.next_trans_id by {
        assert(ts.contains(w[k]));
        let i = choose|i: int| 0 <= i < ts.len() && ts[i] == w[k];
        assert(is_state_name(g.states, ts[i].from) && is_state_name(g.states, ts[i].to));
        assert(ts[i].id < g.next_trans_id);
    }
    // removing a state
    lemma_away_sub(ts, sid);
    let a = away_from(ts, sid);
    let os = other_states(g.states, sid);
    assert forall|k: int| 0 <= k < a.len() implies is_state_name(os, #[trigger] a[k].from) && is_state_name(os, a[k].to)
        && a[k].id < g.next_trans_id by {
        assert(ts.contains(a[k]));
        let i = choose|i: int| 0 <= i < ts.len() && ts[i] == a[k];
        assert(is_state_name(g.states, ts[i].from) && is_state_name(g.states, ts[i].to));
        assert(ts[i].id < g.next_trans_id);
        lemma_other_states_keep(g.states, sid, a[k].from);
        lemma_other_states_keep(g.states, sid, a[k].to);
    }
    // changing a condition
    lemma_transition_index(ts, tid);
    // changing an action
    lemma_gemma_state_index(g.states, sid);
    let k = gemma_state_index(g.states, sid);
    if k >= 0 {
        let ss2 = g.states.update(k, GemmaStateView { action, ..g.states[k] });
        assert forall|x: Seq<char>| is_state_name(g.states, x) implies is_state_name(ss2, x) by {
            let i = choose|i: int| 0 <= i < g.states.len() && #[trigger] g.states[i].id == x;
            assert(ss2[i].id == x);
        }
    }
    // drawing a link
    if is_state_name(g.states, from) && is_state_name(g.states, to) && g.next_trans_id < u32::MAX {
        let h = g.after_add_transition(from, to, cond);
        assert forall|k: int| 0 <= k < h.transitions.len() implies is_state_name(h.states, #[trigger] h.transitions[k].from)
            && is_state_name(h.states, h.transitions[k].to) by {
            if k < ts.len() {
                assert(h.transitions[k] == ts[k]);
            }
        }
        assert forall|x: int, y: int| 0 <= x < y < h.transitions.len() implies #[trigger] h.transitions[x].id
            != #[trigger] h.transitions[y].id by {
            assert(h.transitions[x] == ts[x]);
            if y < ts.len() {
                assert(h.transitions[y] == ts[y]);
            }
        }
        assert forall|x: int| 0 <= x < h.transitions.len() implies #[trigger] h.transitions[x].id < h.next_trans_id by {
            if x < ts.len() {
                assert(h.transitions[x] == ts[x]);
            }
        }
    }
}

/// What a click with the link tool does on the GEMMA canvas.
pub enum LinkClick {
    /// Remember this state as the source of the next link.
    Source(String),
    /// Draw a link from the first state to the second.
    Link(String, String),
    /// Forget the remembered source.
    Cancel,
}

/// A click with the link tool, on state `clicked` (or outside every state),
/// while `pending` is the remembered source: a first click remembers the
/// source, a click on another state draws the link, a click on the same
/// state remembers it again, and a click outside cancels.
pub fn link_click(pending: &Option<String>, clicked: &Option<String>) -> (r: LinkClick)
    ensures
        match clicked {
            None => r is Cancel,
            Some(c) => match pending {
                Some(p) => if p@ != c@ {
                    r matches LinkClick::Link(a, b) && a@ == p@ && b@ == c@
                } else {
                    r matches LinkClick::Source(s) && s@ == c@
                },
                None => r matches LinkClick::Source(s) && s@ == c@,
            },
        },
{
    match clicked {
        None => LinkClick::Cancel,
        Some(c) => match pending {
            Some(p) => if !same_text(p, c) {
                LinkClick::Link(p.clone(), c.clone())
            } else {
                LinkClick::Source(c.clone())
            },
            None => LinkClick::Source(c.clone()),
        },
    }
}

// ── GRAFCET editor ────────────────────────────────────────────────────────────

/// A click with the connect tool on step `clicked` of the GRAFCET editor,
/// while `pending` is the remembered source step: the first click remembers
/// the source; a click on another step asks for the transition from the
/// source to it and forgets the source; a click on the source itself changes
/// nothing. Returns the remembered source afterwards and the transition to
/// add, if any; a step is never linked to itself.
pub fn connect_click(pending: Option<u32>, clicked: u32) -> (r: (Option<u32>, Option<(u32, u32)>))
    ensures
        match pending {
            None => r == (Some(clicked), Option::<(u32, u32)>::None),
            Some(p) => if p != clicked {
                r == (Option::<u32>::None, Some((p, clicked)))
            } else {
                r == (Some(p), Option::<(u32, u32)>::None)
            },
        },
        r.1 matches Some(l) ==> l.0 != l.1,
{
    match pending {
        None => (Some(clicked), None),
        Some(p) => if p != clicked {
            (None, Some((p, clicked)))
        } else {
            (Some(p), None)
        },
    }
}

/// An action that forces another GRAFCET: it starts with `F/`.
pub open spec fn is_forcing(a: Seq<char>) -> bool {
    a.len() >= 2 && a[0] == 'F' && a[1] == '/'
}

/// The actions of `s` that are forcing orders (`forcing`) or the others, in
/// their order.
pub open spec fn actions_kept(s: Seq<Seq<char>>, forcing: bool) -> Seq<Seq<char>>
    decreases s.len(),
{
    if s.len() == 0 {
        Seq::empty()
    } else {
        let r = actions_kept(s.drop_last(), forcing);
        if is_forcing(s.last()) == forcing {
            r.push(s.last())
        } else {
            r
        }
    }
}

fn forcing_order(a: &str) -> (r: bool)
    ensures
        r == is_forcing(a@),
{
    a.unicode_len() >= 2 && a.get_char(0) == 'F' && a.get_char(1) == '/'
}

/// Splits the actions of a step into the normal actions and the forcing
/// orders (`F/...`), each in their order, as a step shows them.
pub fn split_forcing(actions: &[String]) -> (r: (Vec<String>, Vec<String>))
    ensures
        r.0.deep_view() == actions_kept(actions.deep_view(), false),
        r.1.deep_view() == actions_kept(actions.deep_view(), true),
{
    let ghost s = actions.deep_view();
    let mut normal: Vec<String> = Vec::new();
    let mut forcing: Vec<String> = Vec::new();
    let n = actions.len();
    let mut i: usize = 0;
    while i < n
        invariant
            n == s.len(),
            s == actions.deep_view(),
            0 <= i <= n,
            normal.deep_view() == actions_kept(s.take(i as int), false),
            forcing.deep_view() == actions_kept(s.take(i as int), true),
        decreases n - i,
    {
        assert(s.take(i + 1).drop_last() =~= s.take(i as int));
        assert(s.take(i + 1).last() == s[i as int]);
        let a = actions[i].clone();
        assert(a@ == s[i as int]);
        if forcing_order(a.as_str()) {
            let ghost before = forcing.deep_view();
            forcing.push(a);
            assert(forcing.deep_view() =~= before.push(s[i as int]));
        } else {
            let ghost before = normal.deep_view();
            normal.push(a);
            assert(normal.deep_view() =~= before.push(s[i as int]));
        }
        i = i + 1;
    }
    assert(s.take(n as int) =~= s);
    (normal, forcing)
}

/// The lines of a text: the pieces between line feeds, a carriage return
/// that ends a piece before a line feed removed, and no last empty piece.
pub open spec fn text_lines(s: Seq<char>) -> Seq<Seq<char>>
    decreases s.len(),
{
    lines_from(s, Seq::empty(), Seq::empty())
}

/// `done` are the lines already cut, `cur` the piece being read.
pub open spec fn lines_from(s: Seq<char>, done: Seq<Seq<char>>, cur: Seq<char>) -> Seq<Seq<char>>
    decreases s.len(),
{
    if s.len() == 0 {
        if cur.len() == 0 {
            done
        } else {
            done.push(cur)
        }
    } else if s[0] == '\n' {
        let line = if cur.len() > 0 && cur.last() == '\r' {
            cur.drop_last()
        } else {
            cur
        };
        lines_from(s.drop_first(), done.push(line), Seq::empty())
    } else {
        lines_from(s.drop_first(), done, cur.push(s[0]))
    }
}

/// The non-empty strings of `ls`, in their order.
pub open spec fn non_empty(ls: Seq<Seq<char>>) -> Seq<Seq<char>>
    decreases ls.len(),
{
    if ls.len() == 0 {
        Seq::empty()
    } else {
        let r = non_empty(ls.drop_last());
        if ls.last().len() > 0 {
            r.push(ls.last())
        } else {
            r
        }
    }
}

/// Actions typed one per line: the non-empty lines of the text.
pub open spec fn actions_of_text(s: Seq<char>) -> Seq<Seq<char>> {
    non_empty(text_lines(s))
}

proof fn lemma_non_empty_push(ls: Seq<Seq<char>>, l: Seq<char>)
    ensures
        non_empty(ls.push(l)) == if l.len() > 0 {
            non_empty(ls).push(l)
        } else {
            non_empty(ls)
        },
{
    assert(ls.push(l).drop_last() =~= ls);
}

/// The actions typed one per line in `text` (see `actions_of_text`).
pub fn actions_from_text(text: &str) -> (r: Vec<String>)
    ensures
        r.deep_view() == actions_of_text(text@),
{
    let n = text.unicode_len();
    let ghost s = text@;
    let mut r: Vec<String> = Vec::new();
    let mut cur = String::new();
    let ghost mut done: Seq<Seq<char>> = Seq::empty();
    let mut i: usize = 0;
    assert(s.skip(0) =~= s);
    assert(r.deep_view() =~= non_empty(done));
    while i < n
        invariant
            n == s.len(),
            s == text@,
            0 <= i <= n,
            lines_from(s.skip(i as int), done, cur@) == text_lines(s),
            r.deep_view() == non_empty(done),
        decreases n - i,
    {
        let c = text.get_char(i);
        assert(s.skip(i as int)[0] == c);
        assert(s.skip(i as int).drop_first() =~= s.skip(i + 1));
        if c == '\n' {
            let k = cur.as_str().unicode_len();
            let line = if k > 0 && cur.as_str().get_char(k - 1) == '\r' {
                string_of(cur.as_str().substring_char(0, k - 1))
            } else {
                cur
            };
            proof {
                if k > 0 && cur@.last() == '\r' {
                    assert(cur@.subrange(0, k - 1) =~= cur@.drop_last());
                }
                lemma_non_empty_push(done, line@);
                done = done.push(line@);
            }
            if line.as_str().unicode_len() > 0 {
                let ghost before = r.deep_view();
                r.push(line);
                assert(r.deep_view() =~= before.push(done.last()));
            } else {
            }
            cur = String::new();
        } else {
            crate::text::string_push(&mut cur, c);
        }
        i = i + 1;
    }
    assert(s.skip(n as int) =~= Seq::<char>::empty());
    proof {
        lemma_non_empty_push(done, cur@);
    }
    if cur.as_str().unicode_len() > 0 {
        let ghost before = r.deep_view();
        r.push(cur);
        proof {
            assert(r.deep_view() =~= before.push(r@[r@.len() - 1]@));
        }
    }
    r
}

/// The actions of a step as edited: one per line.
pub fn actions_to_text(actions: &[String]) -> (r: String)
    ensures
        r@ == joined(actions.deep_view(), "\n"@),
{
    join_names(actions, "\n")
}

impl Grafcet {
    /// Removes every step and transition; step and transition identifiers
    /// start again from 0.
    pub fn clear(&mut self)
        ensures
            final(self)@ == (GrafcetView {
                steps: Seq::empty(),
                transitions: Seq::empty(),
                next_step_id: 0,
                next_trans_id: 0,
                next_and_group_id: old(self)@.next_and_group_id,
            }),
    {
        self.steps = Vec::new();
        self.transitions = Vec::new();
        self.next_step_id = 0;
        self.next_trans_id = 0;
        assert(self@.steps =~= Seq::<StepView>::empty());
        assert(self@.transitions =~= Seq::<TransitionView>::empty());
    }

    /// The transitions that leave or reach step `sid`, in their order:
    /// identifier, source, target and condition.
    pub fn linked_transitions(&self, sid: u32) -> (r: Vec<(u32, u32, u32, String)>)
        ensures
            r@.len() == linked(self@.transitions, sid).len(),
            forall|i: int| 0 <= i < r@.len() ==> {
                let e = #[trigger] r@[i];
                let t = linked(self@.transitions, sid)[i];
                e.0 == t.id && e.1 == t.from_step && e.2 == t.to_step && e.3@ == t.condition
            },
    {
        let ghost ts = self@.transitions;
        let n = self.transitions.len();
        let mut r: Vec<(u32, u32, u32, String)> = Vec::new();
        let mut i: usize = 0;
        while i < n
            invariant
                n == ts.len(),
                ts == self@.transitions,
                0 <= i <= n,
                r@.len() == linked(ts.take(i as int), sid).len(),
                forall|j: int| 0 <= j < r@.len() ==> {
                    let e = #[trigger] r@[j];
                    let t = linked(ts.take(i as int), sid)[j];
                    e.0 == t.id && e.1 == t.from_step && e.2 == t.to_step && e.3@ == t.condition
                },
            decreases n - i,
        {
            assert(ts.take(i + 1).drop_last() =~= ts.take(i as int));
            assert(ts.take(i + 1).last() == ts[i as int]);
            let t = &self.transitions[i];
            if t.from_step == sid || t.to_step == sid {
                r.push((t.id, t.from_step, t.to_step, t.condition.clone()));
            }
            i = i + 1;
        }
        assert(ts.take(n as int) =~= ts);
        r
    }
}

/// The transitions that leave or reach step `sid`, in their order.
pub open spec fn linked(ts: Seq<TransitionView>, sid: u32) -> Seq<TransitionView>
    decreases ts.len(),
{
    if ts.len() == 0 {
        Seq::empty()
    } else {
        let r = linked(ts.drop_last(), sid);
        if ts.last().from_step == sid || ts.last().to_step == sid {
            r.push(ts.last())
        } else {
            r
        }
    }
}

} // verus!
