//! The GEMMA model (modes of running and stopping): condition expressions,
//! typed states and the transitions between them.
use vstd::prelude::*;
use vstd::string::*;
use crate::text::{decimal, push_decimal, string_of, append_str, str_eq, str_trim, trim_spec};

verus! {

// ── Conditions ────────────────────────────────────────────────────────────────

/// Boolean condition carried by a GEMMA transition.
pub enum Expr {
    And(Box<Expr>, Box<Expr>),
    Or(Box<Expr>, Box<Expr>),
    Not(Box<Expr>),
    Var(String),
    True,
    False,
    /// Finished timer: `T#<name>`.
    TimerDone(String),
}

/// Mathematical model of a condition.
pub enum ExprView {
    And(Box<ExprView>, Box<ExprView>),
    Or(Box<ExprView>, Box<ExprView>),
    Not(Box<ExprView>),
    Var(Seq<char>),
    True,
    False,
    TimerDone(Seq<char>),
}

pub open spec fn expr_view(e: Expr) -> ExprView
    decreases e,
{
    match e {
        Expr::And(a, b) => ExprView::And(Box::new(expr_view(*a)), Box::new(expr_view(*b))),
        Expr::Or(a, b) => ExprView::Or(Box::new(expr_view(*a)), Box::new(expr_view(*b))),
        Expr::Not(a) => ExprView::Not(Box::new(expr_view(*a))),
        Expr::Var(v) => ExprView::Var(v@),
        Expr::True => ExprView::True,
        Expr::False => ExprView::False,
        Expr::TimerDone(t) => ExprView::TimerDone(t@),
    }
}

impl View for Expr {
    type V = ExprView;

    open spec fn view(&self) -> ExprView {
        expr_view(*self)
    }
}

/// The condition that a text stands for: after trimming, the empty text,
/// `false` and `FALSE` are false; `true`, `TRUE` and `1` are true; any other
/// text is a variable of that name.
pub open spec fn expr_from_text(s: Seq<char>) -> ExprView {
    let t = trim_spec(s);
    if t == ""@ || t == "false"@ || t == "FALSE"@ {
        ExprView::False
    } else if t == "true"@ || t == "TRUE"@ || t == "1"@ {
        ExprView::True
    } else {
        ExprView::Var(t)
    }
}

/// Display text of a condition.
pub open spec fn display_text(e: ExprView) -> Seq<char>
    decreases e,
{
    match e {
        ExprView::And(a, b) => "("@ + display_text(*a) + ") AND ("@ + display_text(*b) + ")"@,
        ExprView::Or(a, b) => "("@ + display_text(*a) + ") OR ("@ + display_text(*b) + ")"@,
        ExprView::Not(a) => "NOT ("@ + display_text(*a) + ")"@,
        ExprView::Var(v) => v,
        ExprView::True => "TRUE"@,
        ExprView::False => "FALSE"@,
        ExprView::TimerDone(t) => "T#"@ + t,
    }
}

/// Structured Text rendering of a condition.
pub open spec fn st_text(e: ExprView) -> Seq<char>
    decreases e,
{
    match e {
        ExprView::And(a, b) => "("@ + st_text(*a) + ") AND ("@ + st_text(*b) + ")"@,
        ExprView::Or(a, b) => "("@ + st_text(*a) + ") OR ("@ + st_text(*b) + ")"@,
        ExprView::Not(a) => "NOT ("@ + st_text(*a) + ")"@,
        ExprView::Var(v) => v,
        ExprView::True => "TRUE"@,
        ExprView::False => "FALSE"@,
        ExprView::TimerDone(t) => "TON_"@ + t + ".Q"@,
    }
}

impl Expr {
    /// The condition that a plain text stands for (see `expr_from_text`).
    pub fn from_str(s: &str) -> (e: Expr)
        ensures
            e@ == expr_from_text(s@),
    {
        let t = str_trim(s);
        if str_eq(t, "") || str_eq(t, "false") || str_eq(t, "FALSE") {
            Expr::False
        } else if str_eq(t, "true") || str_eq(t, "TRUE") || str_eq(t, "1") {
            Expr::True
        } else {
            Expr::Var(string_of(t))
        }
    }

    /// Text shown and edited in the editor.
    pub fn to_display(&self) -> (r: String)
        ensures
            r@ == display_text(self@),
        decreases self,
    {
        match self {
            Expr::And(a, b) => {
                let mut r = string_of("(");
                append_str(&mut r, a.to_display().as_str());
                append_str(&mut r, ") AND (");
                append_str(&mut r, b.to_display().as_str());
                append_str(&mut r, ")");
                r
            },
            Expr::Or(a, b) => {
                let mut r = string_of("(");
                append_str(&mut r, a.to_display().as_str());
                append_str(&mut r, ") OR (");
                append_str(&mut r, b.to_display().as_str());
                append_str(&mut r, ")");
                r
            },
            Expr::Not(a) => {
                let mut r = string_of("NOT (");
                append_str(&mut r, a.to_display().as_str());
                append_str(&mut r, ")");
                r
            },
            Expr::Var(v) => v.clone(),
            Expr::True => string_of("TRUE"),
            Expr::False => string_of("FALSE"),
            Expr::TimerDone(t) => {
                let mut r = string_of("T#");
                append_str(&mut r, t.as_str());
                r
            },
        }
    }

    /// Structured Text code of the condition.
    pub fn to_st(&self) -> (r: String)
        ensures
            r@ == st_text(self@),
        decreases self,
    {
        match self {
            Expr::And(a, b) => {
                let mut r = string_of("(");
                append_str(&mut r, a.to_st().as_str());
                append_str(&mut r, ") AND (");
                append_str(&mut r, b.to_st().as_str());
                append_str(&mut r, ")");
                r
            },
            Expr::Or(a, b) => {
                let mut r = string_of("(");
                append_str(&mut r, a.to_st().as_str());
                append_str(&mut r, ") OR (");
                append_str(&mut r, b.to_st().as_str());
                append_str(&mut r, ")");
                r
            },
            Expr::Not(a) => {
                let mut r = string_of("NOT (");
                append_str(&mut r, a.to_st().as_str());
                append_str(&mut r, ")");
                r
            },
            Expr::Var(v) => v.clone(),
            Expr::True => string_of("TRUE"),
            Expr::False => string_of("FALSE"),
            Expr::TimerDone(t) => {
                let mut r = string_of("TON_");
                append_str(&mut r, t.as_str());
                append_str(&mut r, ".Q");
                r
            },
        }
    }
}

// ── State types ───────────────────────────────────────────────────────────────

/// The three kinds of GEMMA states.
#[derive(PartialEq, Eq, Structural, Clone, Copy, Debug, Hash)]
pub enum StateType {
    /// Safety GRAFCET (GS).
    Safety,
    /// Command GRAFCET (GC).
    Command,
    /// Normal production GRAFCET (GPN).
    Production,
}

/// Label of a state type.
pub open spec fn state_type_label(t: StateType) -> Seq<char> {
    match t {
        StateType::Safety => "Sécurité"@,
        StateType::Command => "Commande"@,
        StateType::Production => "Production"@,
    }
}

impl StateType {
    /// Human-readable name of the state type.
    pub fn label(self) -> (r: &'static str)
        ensures
            r@ == state_type_label(self),
    {
        match self {
            StateType::Safety => "Sécurité",
            StateType::Command => "Commande",
            StateType::Production => "Production",
        }
    }

    /// Red, green and blue of the colour of the state type on the canvas.
    pub fn rgb(self) -> (r: (u8, u8, u8))
        ensures
            r == state_type_rgb(self),
    {
        match self {
            StateType::Safety => (180, 50, 50),
            StateType::Command => (50, 100, 180),
            StateType::Production => (40, 140, 70),
        }
    }
}

/// Red, green and blue of the colour of a state type: red for safety, blue
/// for command, green for production.
pub open spec fn state_type_rgb(t: StateType) -> (u8, u8, u8) {
    match t {
        StateType::Safety => (180, 50, 50),
        StateType::Command => (50, 100, 180),
        StateType::Production => (40, 140, 70),
    }
}

// ── States and transitions ────────────────────────────────────────────────────

/// A GEMMA state. Its geometry on the canvas is kept by the editor.
pub struct GemmaState {
    pub id: String,
    pub state_type: StateType,
    /// Short description.
    pub description: String,
    /// Action shown while the state is active.
    pub action: String,
}

/// Mathematical model of a GEMMA state.
pub struct GemmaStateView {
    pub id: Seq<char>,
    pub state_type: StateType,
    pub description: Seq<char>,
    pub action: Seq<char>,
}

impl View for GemmaState {
    type V = GemmaStateView;

    open spec fn view(&self) -> GemmaStateView {
        GemmaStateView {
            id: self.id@,
            state_type: self.state_type,
            description: self.description@,
            action: self.action@,
        }
    }
}

/// A GEMMA transition. Its route on the canvas is kept by the editor.
pub struct GemmaTransition {
    pub id: u32,
    pub from: String,
    pub to: String,
    pub condition: Expr,
}

/// Mathematical model of a GEMMA transition.
pub struct GemmaTransitionView {
    pub id: u32,
    pub from: Seq<char>,
    pub to: Seq<char>,
    pub condition: ExprView,
}

impl View for GemmaTransition {
    type V = GemmaTransitionView;

    open spec fn view(&self) -> GemmaTransitionView {
        GemmaTransitionView {
            id: self.id,
            from: self.from@,
            to: self.to@,
            condition: self.condition@,
        }
    }
}

/// A complete GEMMA.
pub struct Gemma {
    pub states: Vec<GemmaState>,
    pub transitions: Vec<GemmaTransition>,
    pub next_trans_id: u32,
    pub name: String,
    pub description: String,
}

/// Mathematical model of a GEMMA.
pub struct GemmaView {
    pub states: Seq<GemmaStateView>,
    pub transitions: Seq<GemmaTransitionView>,
    pub next_trans_id: u32,
    pub name: Seq<char>,
    pub description: Seq<char>,
}

impl View for Gemma {
    type V = GemmaView;

    open spec fn view(&self) -> GemmaView {
        GemmaView {
            states: self.states@.map_values(|s: GemmaState| s@),
            transitions: self.transitions@.map_values(|t: GemmaTransition| t@),
            next_trans_id: self.next_trans_id,
            name: self.name@,
            description: self.description@,
        }
    }
}

/// Index of the first state named `id`, or -1.
pub open spec fn gemma_state_index(states: Seq<GemmaStateView>, id: Seq<char>) -> int
    decreases states.len(),
{
    if states.len() == 0 {
        -1
    } else {
        let r = gemma_state_index(states.drop_last(), id);
        if r >= 0 {
            r
        } else if states.last().id == id {
            states.len() - 1
        } else {
            -1
        }
    }
}

/// Whether some state is named `id`.
pub open spec fn is_state_name(states: Seq<GemmaStateView>, id: Seq<char>) -> bool {
    exists|i: int| 0 <= i < states.len() && #[trigger] states[i].id == id
}

/// Message for a transition whose source is unknown.
pub open spec fn unknown_source_message(t: GemmaTransitionView) -> Seq<char> {
    "Transition "@ + decimal(t.id as nat) + ": état source '"@ + t.from + "' inconnu"@
}

/// Message for a transition whose destination is unknown.
pub open spec fn unknown_target_message(t: GemmaTransitionView) -> Seq<char> {
    "Transition "@ + decimal(t.id as nat) + ": état destination '"@ + t.to + "' inconnu"@
}

/// The validation messages, transition by transition: first the unknown
/// source, then the unknown destination.
pub open spec fn validation_errors(
    states: Seq<GemmaStateView>,
    ts: Seq<GemmaTransitionView>,
) -> Seq<Seq<char>>
    decreases ts.len(),
{
    if ts.len() == 0 {
        Seq::empty()
    } else {
        let t = ts.last();
        let a = validation_errors(states, ts.drop_last());
        let b = if !is_state_name(states, t.from) {
            a.push(unknown_source_message(t))
        } else {
            a
        };
        if !is_state_name(states, t.to) {
            b.push(unknown_target_message(t))
        } else {
            b
        }
    }
}

/// The states of type `t`, in their order.
pub open spec fn states_of_type(states: Seq<GemmaStateView>, t: StateType) -> Seq<GemmaStateView>
    decreases states.len(),
{
    if states.len() == 0 {
        Seq::empty()
    } else {
        let r = states_of_type(states.drop_last(), t);
        if states.last().state_type == t {
            r.push(states.last())
        } else {
            r
        }
    }
}

impl GemmaView {
    /// The model after `add_transition(from, to, condition)`.
    pub open spec fn after_add_transition(
        self,
        from: Seq<char>,
        to: Seq<char>,
        condition: ExprView,
    ) -> GemmaView {
        GemmaView {
            transitions: self.transitions.push(
                GemmaTransitionView { id: self.next_trans_id, from, to, condition },
            ),
            next_trans_id: (self.next_trans_id + 1) as u32,
            ..self
        }
    }
}

pub proof fn lemma_gemma_state_index(states: Seq<GemmaStateView>, id: Seq<char>)
    ensures
        -1 <= gemma_state_index(states, id) < states.len(),
        gemma_state_index(states, id) >= 0 ==> states[gemma_state_index(states, id)].id == id,
        forall|j: int|
            0 <= j < states.len() && (gemma_state_index(states, id) == -1 || j
                < gemma_state_index(states, id)) ==> #[trigger] states[j].id != id,
        gemma_state_index(states, id) >= 0 <==> is_state_name(states, id),
    decreases states.len(),
{
    if states.len() > 0 {
        lemma_gemma_state_index(states.drop_last(), id);
        assert forall|j: int|
            0 <= j < states.len() && (gemma_state_index(states, id) == -1 || j
                < gemma_state_index(states, id)) implies #[trigger] states[j].id != id by {
            if j < states.len() - 1 {
                assert(states.drop_last()[j] == states[j]);
            }
        }
        if is_state_name(states, id) {
            let k = choose|k: int| 0 <= k < states.len() && #[trigger] states[k].id == id;
            assert(gemma_state_index(states, id) >= 0);
        }
    }
}

proof fn lemma_prefix_state_index(s: Seq<GemmaStateView>, id: Seq<char>, k: int)
    requires
        0 <= k <= s.len(),
        gemma_state_index(s.take(k), id) >= 0,
    ensures
        gemma_state_index(s, id) == gemma_state_index(s.take(k), id),
    decreases s.len() - k,
{
    if k < s.len() {
        assert(s.take(k + 1).drop_last() =~= s.take(k));
        lemma_prefix_state_index(s, id, k + 1);
    } else {
        assert(s.take(k) =~= s);
    }
}

impl Gemma {
    /// An empty GEMMA.
    pub fn new() -> (g: Gemma)
        ensures
            g@ == (GemmaView {
                states: Seq::empty(),
                transitions: Seq::empty(),
                next_trans_id: 0,
                name: Seq::empty(),
                description: Seq::empty(),
            }),
    {
        let g = Gemma {
            states: Vec::new(),
            transitions: Vec::new(),
            next_trans_id: 0,
            name: String::new(),
            description: String::new(),
        };
        assert(g@.states =~= Seq::<GemmaStateView>::empty());
        assert(g@.transitions =~= Seq::<GemmaTransitionView>::empty());
        g
    }

    /// Removes every state and transition; transition identifiers start again
    /// from 0. The name and description stay.
    pub fn clear_diagram(&mut self)
        ensures
            final(self)@ == (GemmaView {
                states: Seq::empty(),
                transitions: Seq::empty(),
                next_trans_id: 0,
                ..old(self)@
            }),
    {
        self.states = Vec::new();
        self.transitions = Vec::new();
        self.next_trans_id = 0;
        assert(self@.states =~= Seq::<GemmaStateView>::empty());
        assert(self@.transitions =~= Seq::<GemmaTransitionView>::empty());
    }

    /// Appends a transition under the next identifier and returns that
    /// identifier.
    pub fn add_transition(&mut self, from: String, to: String, cond: Expr) -> (id: u32)
        requires
            old(self).next_trans_id < u32::MAX,
        ensures
            id == old(self).next_trans_id,
            final(self)@ == old(self)@.after_add_transition(from@, to@, cond@),
    {
        let id = self.next_trans_id;
        self.next_trans_id = self.next_trans_id + 1;
        let ghost tv = GemmaTransitionView { id, from: from@, to: to@, condition: cond@ };
        self.transitions.push(GemmaTransition { id, from, to, condition: cond });
        assert(self@.transitions =~= old(self)@.transitions.push(tv));
        id
    }

    /// Index of the first state named `id`.
    pub fn state_position(&self, id: &str) -> (r: Option<usize>)
        ensures
            match r {
                Some(i) => i as int == gemma_state_index(self@.states, id@),
                None => gemma_state_index(self@.states, id@) == -1,
            },
    {
        let n = self.states.len();
        let mut i: usize = 0;
        while i < n
            invariant
                n == self.states@.len(),
                0 <= i <= n,
                gemma_state_index(self@.states.take(i as int), id@) == -1,
            decreases n - i,
        {
            assert(self@.states.take(i + 1).drop_last() =~= self@.states.take(i as int));
            if str_eq(self.states[i].id.as_str(), id) {
                assert(gemma_state_index(self@.states.take(i + 1), id@) == i);
                proof {
                    lemma_prefix_state_index(self@.states, id@, i + 1);
                }
                return Some(i);
            }
            i = i + 1;
        }
        assert(self@.states.take(n as int) =~= self@.states);
        None
    }

    /// The first state named `id`, if any.
    pub fn state(&self, id: &str) -> (r: Option<&GemmaState>)
        ensures
            match r {
                Some(s) => gemma_state_index(self@.states, id@) >= 0 && s@ == self@.states[gemma_state_index(self@.states, id@)],
                None => !is_state_name(self@.states, id@),
            },
    {
        proof {
            lemma_gemma_state_index(self@.states, id@);
        }
        match self.state_position(id) {
            Some(i) => Some(&self.states[i]),
            None => None,
        }
    }

    /// The first state named `id`, for modification.
    pub fn state_mut(&mut self, id: &str) -> (r: Option<&mut GemmaState>)
        ensures
            match r {
                Some(s) => {
                    &&& gemma_state_index(old(self)@.states, id@) >= 0
                    &&& *s == old(self).states@[gemma_state_index(old(self)@.states, id@)]
                    &&& final(self).states@ == old(self).states@.update(
                        gemma_state_index(old(self)@.states, id@),
                        *final(s),
                    )
                    &&& final(self).transitions == old(self).transitions
                    &&& final(self).next_trans_id == old(self).next_trans_id
                    &&& final(self).name == old(self).name
                    &&& final(self).description == old(self).description
                },
                None => !is_state_name(old(self)@.states, id@) && *final(self) == *old(self),
            },
    {
        proof {
            lemma_gemma_state_index(old(self)@.states, id@);
        }
        match self.state_position(id) {
            Some(i) => Some(&mut self.states[i]),
            None => None,
        }
    }

    /// Whether some state is named `id`.
    pub fn has_state(&self, id: &str) -> (r: bool)
        ensures
            r == is_state_name(self@.states, id@),
    {
        proof {
            lemma_gemma_state_index(self@.states, id@);
        }
        self.state_position(id).is_some()
    }

    /// Checks that every transition joins two existing states. On failure the
    /// messages list, transition by transition, each unknown source and each
    /// unknown destination.
    pub fn validate(&self) -> (r: Result<(), Vec<String>>)
        ensures
            match r {
                Ok(()) => validation_errors(self@.states, self@.transitions).len() == 0,
                Err(v) => validation_errors(self@.states, self@.transitions).len() > 0
                    && v.deep_view() == validation_errors(self@.states, self@.transitions),
            },
    {
        let mut errors: Vec<String> = Vec::new();
        let n = self.transitions.len();
        let mut i: usize = 0;
        while i < n
            invariant
                n == self.transitions@.len(),
                0 <= i <= n,
                errors.deep_view() == validation_errors(
                    self@.states,
                    self@.transitions.take(i as int),
                ),
            decreases n - i,
        {
            let t = &self.transitions[i];
            assert(self@.transitions.take(i + 1).drop_last() =~= self@.transitions.take(
                i as int,
            ));
            assert(self@.transitions.take(i + 1).last() == t@);
            if !self.has_state(t.from.as_str()) {
                let mut m = string_of("Transition ");
                push_decimal(&mut m, t.id);
                append_str(&mut m, ": état source '");
                append_str(&mut m, t.from.as_str());
                append_str(&mut m, "' inconnu");
                let ghost before = errors.deep_view();
                errors.push(m);
                assert(errors.deep_view() =~= before.push(unknown_source_message(t@)));
            }
            if !self.has_state(t.to.as_str()) {
                let mut m = string_of("Transition ");
                push_decimal(&mut m, t.id);
                append_str(&mut m, ": état destination '");
                append_str(&mut m, t.to.as_str());
                append_str(&mut m, "' inconnu");
                let ghost before = errors.deep_view();
                errors.push(m);
                assert(errors.deep_view() =~= before.push(unknown_target_message(t@)));
            }
            i = i + 1;
        }
        assert(self@.transitions.take(n as int) =~= self@.transitions);
        if errors.len() == 0 {
            Ok(())
        } else {
            Err(errors)
        }
    }

    /// The states of type `t`, in their order.
    fn states_of(&self, t: StateType) -> (r: Vec<&GemmaState>)
        ensures
            r@.len() == states_of_type(self@.states, t).len(),
            forall|i: int| 0 <= i < r@.len() ==> (#[trigger] r@[i])@ == states_of_type(self@.states, t)[i],
    {
        let mut r: Vec<&GemmaState> = Vec::new();
        let n = self.states.len();
        let mut i: usize = 0;
        while i < n
            invariant
                n == self.states@.len(),
                0 <= i <= n,
                r@.len() == states_of_type(self@.states.take(i as int), t).len(),
                forall|j: int| 0 <= j < r@.len() ==> (#[trigger] r@[j])@ == states_of_type(self@.states.take(i as int), t)[j],
            decreases n - i,
        {
            assert(self@.states.take(i + 1).drop_last() =~= self@.states.take(i as int));
            assert(self@.states.take(i + 1).last() == self@.states[i as int]);
            if self.states[i].state_type == t {
                r.push(&self.states[i]);
            }
            i = i + 1;
        }
        assert(self@.states.take(n as int) =~= self@.states);
        r
    }

    /// The safety states (GS), in their order.
    pub fn safety_states(&self) -> (r: Vec<&GemmaState>)
        ensures
            r@.len() == states_of_type(self@.states, StateType::Safety).len(),
            forall|i: int| 0 <= i < r@.len() ==> (#[trigger] r@[i])@ == states_of_type(self@.states, StateType::Safety)[i],
    {
        self.states_of(StateType::Safety)
    }

    /// The command states (GC), in their order.
    pub fn command_states(&self) -> (r: Vec<&GemmaState>)
        ensures
            r@.len() == states_of_type(self@.states, StateType::Command).len(),
            forall|i: int| 0 <= i < r@.len() ==> (#[trigger] r@[i])@ == states_of_type(self@.states, StateType::Command)[i],
    {
        self.states_of(StateType::Command)
    }

    /// The production states (GPN), in their order.
    pub fn production_states(&self) -> (r: Vec<&GemmaState>)
        ensures
            r@.len() == states_of_type(self@.states, StateType::Production).len(),
            forall|i: int| 0 <= i < r@.len() ==> (#[trigger] r@[i])@ == states_of_type(self@.states, StateType::Production)[i],
    {
        self.states_of(StateType::Production)
    }
}

} // verus!
