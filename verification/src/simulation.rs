//! Step-by-step simulation of a GEMMA: one active state, moved along the
//! GEMMA transitions, with a history of the moves.
use vstd::prelude::*;
use vstd::string::*;
use crate::gemma::{Gemma, GemmaStateView, GemmaTransitionView, display_text, is_state_name};
use crate::questionnaire::first_link_index;
use crate::text::{append_str, same_text, str_eq, string_of};

verus! {

/// A running (or stopped) simulation.
pub struct Simulation {
    pub active: bool,
    /// Name of the active state.
    pub state: String,
    /// One line per event, oldest first.
    pub history: Vec<String>,
}

pub struct SimulationView {
    pub active: bool,
    pub state: Seq<char>,
    pub history: Seq<Seq<char>>,
}

impl View for Simulation {
    type V = SimulationView;

    open spec fn view(&self) -> SimulationView {
        SimulationView { active: self.active, state: self.state@, history: self.history.deep_view() }
    }
}

/// The state a simulation starts from: `A1` when the GEMMA has it, else its
/// first state, else none (the empty name).
pub open spec fn start_state(states: Seq<GemmaStateView>) -> Seq<char> {
    if is_state_name(states, "A1"@) {
        "A1"@
    } else if states.len() > 0 {
        states[0].id
    } else {
        Seq::empty()
    }
}

/// The transitions that leave `state`, in order: identifier, target and
/// displayed condition.
pub open spec fn leaving(ts: Seq<GemmaTransitionView>, state: Seq<char>) -> Seq<(u32, Seq<char>, Seq<char>)>
    decreases ts.len(),
{
    if ts.len() == 0 {
        Seq::empty()
    } else {
        let r = leaving(ts.drop_last(), state);
        let t = ts.last();
        if t.from == state {
            r.push((t.id, t.to, display_text(t.condition)))
        } else {
            r
        }
    }
}

/// History line of a move.
pub open spec fn move_line(from: Seq<char>, cond: Seq<char>, to: Seq<char>) -> Seq<char> {
    from + " →["@ + cond + "]→ "@ + to
}

/// Status line of a move.
pub open spec fn move_status(from: Seq<char>, to: Seq<char>) -> Seq<char> {
    "Transition : "@ + from + " → "@ + to
}

/// Text of the button that fires a transition: the condition in brackets, or
/// `condition libre` when it is `TRUE` or `FALSE`.
pub open spec fn condition_button(cond: Seq<char>) -> Seq<char> {
    if cond != "TRUE"@ && cond != "FALSE"@ {
        "[ "@ + cond + " ]"@
    } else {
        "[ condition libre ]"@
    }
}

impl Default for Simulation {
    fn default() -> (s: Self)
        ensures
            !s.active,
            s@.state.len() == 0,
            s@.history.len() == 0,
    {
        let s = Simulation { active: false, state: String::new(), history: Vec::new() };
        assert(s@.history =~= Seq::<Seq<char>>::empty());
        s
    }
}

impl Simulation {
    /// Starts the simulation from `start_state`; the history holds the start
    /// alone. Returns the status line.
    pub fn start(&mut self, gemma: &Gemma) -> (status: String)
        ensures
            final(self)@.active,
            final(self)@.state == start_state(gemma@.states),
            final(self)@.history == seq!["▶ Départ : "@ + start_state(gemma@.states)],
            status@ == "Simulation démarrée — état actif : "@ + start_state(gemma@.states),
    {
        let start = if gemma.has_state("A1") {
            string_of("A1")
        } else if gemma.states.len() > 0 {
            gemma.states[0].id.clone()
        } else {
            String::new()
        };
        let mut line = string_of("▶ Départ : ");
        append_str(&mut line, start.as_str());
        let mut status = string_of("Simulation démarrée — état actif : ");
        append_str(&mut status, start.as_str());
        self.active = true;
        self.state = start;
        self.history = Vec::new();
        self.history.push(line);
        assert(self@.history =~= seq!["▶ Départ : "@ + start_state(gemma@.states)]);
        status
    }

    /// Stops the simulation: no active state, empty history.
    pub fn stop(&mut self) -> (status: String)
        ensures
            !final(self)@.active,
            final(self)@.state.len() == 0,
            final(self)@.history.len() == 0,
            status@ == "Simulation arrêtée"@,
    {
        self.active = false;
        self.state = String::new();
        self.history = Vec::new();
        string_of("Simulation arrêtée")
    }

    /// Empties the history.
    pub fn clear_history(&mut self)
        ensures
            final(self)@.active == old(self)@.active,
            final(self)@.state == old(self)@.state,
            final(self)@.history.len() == 0,
    {
        self.history = Vec::new();
    }

    /// The transitions that leave the active state (see `leaving`).
    pub fn available(&self, gemma: &Gemma) -> (r: Vec<(u32, String, String)>)
        ensures
            r@.len() == leaving(gemma@.transitions, self@.state).len(),
            forall|i: int| 0 <= i < r@.len() ==> {
                let e = #[trigger] r@[i];
                let s = leaving(gemma@.transitions, self@.state)[i];
                e.0 == s.0 && e.1@ == s.1 && e.2@ == s.2
            },
    {
        gemma.outgoing(&self.state)
    }

    /// Moves to `to` along a transition of condition `cond`: the move is
    /// appended to the history and `to` becomes the active state. Returns the
    /// status line.
    fn fire(&mut self, to: String, cond: String) -> (status: String)
        ensures
            final(self)@.active == old(self)@.active,
            final(self)@.state == to@,
            final(self)@.history == old(self)@.history.push(move_line(old(self)@.state, cond@, to@)),
            status@ == move_status(old(self)@.state, to@),
    {
        let mut line = self.state.clone();
        append_str(&mut line, " →[");
        append_str(&mut line, cond.as_str());
        append_str(&mut line, "]→ ");
        append_str(&mut line, to.as_str());
        let mut status = string_of("Transition : ");
        append_str(&mut status, self.state.as_str());
        append_str(&mut status, " → ");
        append_str(&mut status, to.as_str());
        let ghost before = self@.history;
        self.history.push(line);
        assert(self@.history =~= before.push(move_line(old(self)@.state, cond@, to@)));
        self.state = to;
        status
    }

    /// Fires the `k`-th transition that leaves the active state (in the order
    /// of `available`): its target becomes the active state and the move, with
    /// the transition's condition, is appended to the history. When there is
    /// no such transition, nothing changes and `None` is returned.
    pub fn fire_available(&mut self, gemma: &Gemma, k: usize) -> (status: Option<String>)
        ensures
            ({
                let av = leaving(gemma@.transitions, old(self)@.state);
                if k < av.len() {
                    &&& status matches Some(m) && m@ == move_status(old(self)@.state, av[k as int].1)
                    &&& final(self)@.active == old(self)@.active
                    &&& final(self)@.state == av[k as int].1
                    &&& final(self)@.history == old(self)@.history.push(
                        move_line(old(self)@.state, av[k as int].2, av[k as int].1),
                    )
                } else {
                    &&& status.is_none()
                    &&& final(self)@ == old(self)@
                }
            }),
    {
        let av = self.available(gemma);
        if k < av.len() {
            let to = av[k].1.clone();
            let cond = av[k].2.clone();
            Some(self.fire(to, cond))
        } else {
            None
        }
    }

    /// A click on state `target`: when a transition leads there from the
    /// active state, the move is made with the condition of the first such
    /// transition and its status line is returned; otherwise nothing changes.
    pub fn move_to(&mut self, gemma: &Gemma, target: &String) -> (status: Option<String>)
        ensures
            ({
                let k = first_link_index(gemma@.transitions, old(self)@.state, target@);
                if k >= 0 {
                    &&& status matches Some(m) && m@ == move_status(old(self)@.state, target@)
                    &&& final(self)@.active == old(self)@.active
                    &&& final(self)@.state == target@
                    &&& final(self)@.history == old(self)@.history.push(
                        move_line(old(self)@.state, display_text(gemma@.transitions[k].condition), target@),
                    )
                } else {
                    &&& status.is_none()
                    &&& final(self)@ == old(self)@
                }
            }),
    {
        let ghost ts = gemma@.transitions;
        let n = gemma.transitions.len();
        let mut i: usize = 0;
        while i < n
            invariant
                n == gemma.transitions@.len(),
                ts == gemma@.transitions,
                self@ == old(self)@,
                0 <= i <= n,
                first_link_index(ts.take(i as int), self@.state, target@) == -1,
            decreases n - i,
        {
            assert(ts.take(i + 1).drop_last() =~= ts.take(i as int));
            assert(ts.take(i + 1).last() == ts[i as int]);
            let t = &gemma.transitions[i];
            if same_text(&t.from, &self.state) && same_text(&t.to, target) {
                proof {
                    lemma_prefix_link_s(ts, self@.state, target@, i + 1);
                }
                let cond = t.condition.to_display();
                assert(t@ == ts[i as int]);
                let status = self.fire(target.clone(), cond);
                return Some(status);
            }
            i = i + 1;
        }
        assert(ts.take(n as int) =~= ts);
        None
    }
}

proof fn lemma_prefix_link_s(s: Seq<GemmaTransitionView>, from: Seq<char>, to: Seq<char>, k: int)
    requires
        0 <= k <= s.len(),
        first_link_index(s.take(k), from, to) >= 0,
    ensures
        first_link_index(s, from, to) == first_link_index(s.take(k), from, to),
    decreases s.len() - k,
{
    if k < s.len() {
        assert(s.take(k + 1).drop_last() =~= s.take(k));
        lemma_prefix_link_s(s, from, to, k + 1);
    } else {
        assert(s.take(k) =~= s);
    }
}

impl Gemma {
    /// The transitions that leave state `sid` (see `leaving`).
    pub fn outgoing(&self, sid: &String) -> (r: Vec<(u32, String, String)>)
        ensures
            r@.len() == leaving(self@.transitions, sid@).len(),
            forall|i: int| 0 <= i < r@.len() ==> {
                let e = #[trigger] r@[i];
                let s = leaving(self@.transitions, sid@)[i];
                e.0 == s.0 && e.1@ == s.1 && e.2@ == s.2
            },
    {
        let ghost ts = self@.transitions;
        let ghost st = sid@;
        let mut r: Vec<(u32, String, String)> = Vec::new();
        let n = self.transitions.len();
        let mut i: usize = 0;
        while i < n
            invariant
                n == self.transitions@.len(),
                ts == self@.transitions,
                st == sid@,
                0 <= i <= n,
                r@.len() == leaving(ts.take(i as int), st).len(),
                forall|j: int| 0 <= j < r@.len() ==> {
                    let e = #[trigger] r@[j];
                    let s = leaving(ts.take(i as int), st)[j];
                    e.0 == s.0 && e.1@ == s.1 && e.2@ == s.2
                },
            decreases n - i,
        {
            assert(ts.take(i + 1).drop_last() =~= ts.take(i as int));
            assert(ts.take(i + 1).last() == ts[i as int]);
            let t = &self.transitions[i];
            if same_text(&t.from, sid) {
                let e = (t.id, t.to.clone(), t.condition.to_display());
                r.push(e);
            }
            i = i + 1;
        }
        assert(ts.take(n as int) =~= ts);
        r
    }
}

/// Text of the button that fires a transition (see `condition_button`).
pub fn condition_button_text(cond: &str) -> (r: String)
    ensures
        r@ == condition_button(cond@),
{
    if !str_eq(cond, "TRUE") && !str_eq(cond, "FALSE") {
        let mut r = string_of("[ ");
        append_str(&mut r, cond);
        append_str(&mut r, " ]");
        r
    } else {
        string_of("[ condition libre ]")
    }
}

} // verus!
