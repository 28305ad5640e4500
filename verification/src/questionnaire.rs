//! The guided GEMMA questionnaire (yes / no / unanswered) and how its answers
//! are applied to a GEMMA.
use vstd::prelude::*;
use vstd::string::*;
use crate::gemma::{
    Expr, Gemma, GemmaState, GemmaStateView, GemmaTransitionView, GemmaView, StateType,
    expr_from_text, is_state_name,
};
use crate::closing::{close_open_circuits, closed_gemma, transition_ids, law_closing_adds_only_allowed};
use crate::circuits::has_edge;
use crate::text::{append_str, same_text, string_of};
use crate::generate::{join_names, joined};

verus! {

/// A possible answer.
#[derive(PartialEq, Eq, Structural, Clone, Copy, Debug)]
pub enum Answer {
    Yes,
    No,
    Unanswered,
}

impl Default for Answer {
    fn default() -> (r: Self)
        ensures
            r == Answer::Unanswered,
    {
        Answer::Unanswered
    }
}

/// A transition that an answer asks for: source, destination, condition text.
pub struct RuleTransition {
    pub from: String,
    pub to: String,
    pub condition: String,
}

impl View for RuleTransition {
    type V = (Seq<char>, Seq<char>, Seq<char>);

    open spec fn view(&self) -> (Seq<char>, Seq<char>, Seq<char>) {
        (self.from@, self.to@, self.condition@)
    }
}

/// Models of a list of requested transitions.
pub open spec fn rules_view(v: Seq<RuleTransition>) -> Seq<(Seq<char>, Seq<char>, Seq<char>)> {
    Seq::new(v.len(), |i: int| v[i]@)
}

/// A question of the questionnaire, with the states and transitions that
/// each answer brings.
pub struct Question {
    pub id: u32,
    pub titre: String,
    pub question: String,
    pub conditions: Vec<String>,
    pub answer: Answer,
    etats_si_oui: Vec<String>,
    etats_si_non: Vec<String>,
    transitions_si_oui: Vec<RuleTransition>,
    transitions_si_non: Vec<RuleTransition>,
}

/// Mathematical model of a question.
pub struct QuestionView {
    pub id: u32,
    pub titre: Seq<char>,
    pub question: Seq<char>,
    pub conditions: Seq<Seq<char>>,
    pub answer: Answer,
    pub states_yes: Seq<Seq<char>>,
    pub states_no: Seq<Seq<char>>,
    pub transitions_yes: Seq<(Seq<char>, Seq<char>, Seq<char>)>,
    pub transitions_no: Seq<(Seq<char>, Seq<char>, Seq<char>)>,
}

impl View for Question {
    type V = QuestionView;

    closed spec fn view(&self) -> QuestionView {
        QuestionView {
            id: self.id,
            titre: self.titre@,
            question: self.question@,
            conditions: self.conditions.deep_view(),
            answer: self.answer,
            states_yes: self.etats_si_oui.deep_view(),
            states_no: self.etats_si_non.deep_view(),
            transitions_yes: rules_view(self.transitions_si_oui@),
            transitions_no: rules_view(self.transitions_si_non@),
        }
    }
}

impl Question {
    /// The conditions of the question as shown beside its answers:
    /// `[a, b, …]`, nothing when it has none.
    pub fn conditions_preview(&self) -> (r: Option<String>)
        ensures
            self@.conditions.len() == 0 ==> r.is_none(),
            self@.conditions.len() > 0 ==> (r matches Some(t) && t@ == "["@ + joined(self@.conditions, ", "@) + "]"@),
    {
        if self.conditions.len() == 0 {
            None
        } else {
            let mut t = string_of("[");
            let j = join_names(self.conditions.as_slice(), ", ");
            append_str(&mut t, j.as_str());
            append_str(&mut t, "]");
            Some(t)
        }
    }
}

impl Question {
    /// An unanswered question.
    pub fn new(
        id: u32,
        titre: String,
        question: String,
        conditions: Vec<String>,
        etats_si_oui: Vec<String>,
        etats_si_non: Vec<String>,
        transitions_si_oui: Vec<RuleTransition>,
        transitions_si_non: Vec<RuleTransition>,
    ) -> (q: Question)
        ensures
            q@ == (QuestionView {
                id,
                titre: titre@,
                question: question@,
                conditions: conditions.deep_view(),
                answer: Answer::Unanswered,
                states_yes: etats_si_oui.deep_view(),
                states_no: etats_si_non.deep_view(),
                transitions_yes: rules_view(transitions_si_oui@),
                transitions_no: rules_view(transitions_si_non@),
            }),
    {
        Question {
            id,
            titre,
            question,
            conditions,
            answer: Answer::Unanswered,
            etats_si_oui,
            etats_si_non,
            transitions_si_oui,
            transitions_si_non,
        }
    }
}

/// The questionnaire.
pub struct Questionnaire {
    pub questions: Vec<Question>,
}

impl View for Questionnaire {
    type V = Seq<QuestionView>;

    open spec fn view(&self) -> Seq<QuestionView> {
        Seq::new(self.questions@.len(), |i: int| self.questions@[i]@)
    }
}

// ── Specification of the answers ──────────────────────────────────────────────

/// The state type that a standard GEMMA name gives: D… safety, A… command,
/// anything else production (the case of the letter does not matter).
pub open spec fn state_type_of_name(id: Seq<char>) -> StateType {
    if id.len() > 0 && (id[0] == 'D' || id[0] == 'd') {
        StateType::Safety
    } else if id.len() > 0 && (id[0] == 'A' || id[0] == 'a') {
        StateType::Command
    } else {
        StateType::Production
    }
}

/// Number of answered questions.
pub open spec fn answered(qs: Seq<QuestionView>) -> nat
    decreases qs.len(),
{
    if qs.len() == 0 {
        0
    } else {
        answered(qs.drop_last()) + if qs.last().answer != Answer::Unanswered {
            1nat
        } else {
            0nat
        }
    }
}

/// The states that the answer of `q` brings.
pub open spec fn chosen_states(q: QuestionView) -> Seq<Seq<char>> {
    match q.answer {
        Answer::Yes => q.states_yes,
        Answer::No => q.states_no,
        Answer::Unanswered => Seq::empty(),
    }
}

/// The transitions that the answer of `q` brings.
pub open spec fn chosen_transitions(q: QuestionView) -> Seq<(Seq<char>, Seq<char>, Seq<char>)> {
    match q.answer {
        Answer::Yes => q.transitions_yes,
        Answer::No => q.transitions_no,
        Answer::Unanswered => Seq::empty(),
    }
}

pub open spec fn is_listed(acc: Seq<(Seq<char>, StateType)>, sid: Seq<char>) -> bool {
    exists|i: int| 0 <= i < acc.len() && #[trigger] acc[i].0 == sid
}

/// `acc` with `sid` appended unless it is already listed.
pub open spec fn with_name(acc: Seq<(Seq<char>, StateType)>, sid: Seq<char>) -> Seq<(Seq<char>, StateType)> {
    if is_listed(acc, sid) {
        acc
    } else {
        acc.push((sid, state_type_of_name(sid)))
    }
}

pub open spec fn with_names(acc: Seq<(Seq<char>, StateType)>, names: Seq<Seq<char>>) -> Seq<(Seq<char>, StateType)>
    decreases names.len(),
{
    if names.len() == 0 {
        acc
    } else {
        with_name(with_names(acc, names.drop_last()), names.last())
    }
}

pub open spec fn with_rule_names(
    acc: Seq<(Seq<char>, StateType)>,
    rs: Seq<(Seq<char>, Seq<char>, Seq<char>)>,
) -> Seq<(Seq<char>, StateType)>
    decreases rs.len(),
{
    if rs.len() == 0 {
        acc
    } else {
        let a = with_rule_names(acc, rs.drop_last());
        with_name(with_name(a, rs.last().0), rs.last().1)
    }
}

/// The states named by the answers, each once, in order of appearance: for
/// each answered question its states, then the ends of its transitions.
pub open spec fn collected_states(qs: Seq<QuestionView>) -> Seq<(Seq<char>, StateType)>
    decreases qs.len(),
{
    if qs.len() == 0 {
        Seq::empty()
    } else {
        let q = qs.last();
        with_rule_names(
            with_names(collected_states(qs.drop_last()), chosen_states(q)),
            chosen_transitions(q),
        )
    }
}

/// The transitions asked for by the answers, in order.
pub open spec fn collected_transitions(qs: Seq<QuestionView>) -> Seq<(Seq<char>, Seq<char>, Seq<char>)>
    decreases qs.len(),
{
    if qs.len() == 0 {
        Seq::empty()
    } else {
        collected_transitions(qs.drop_last()) + chosen_transitions(qs.last())
    }
}

/// `states` extended by the listed states that are not present yet.
pub open spec fn with_missing_states(
    states: Seq<GemmaStateView>,
    list: Seq<(Seq<char>, StateType)>,
) -> Seq<GemmaStateView>
    decreases list.len(),
{
    if list.len() == 0 {
        states
    } else {
        let s = with_missing_states(states, list.drop_last());
        let sid = list.last().0;
        if is_state_name(s, sid) {
            s
        } else {
            s.push(GemmaStateView { id: sid, state_type: list.last().1, description: Seq::empty(), action: Seq::empty() })
        }
    }
}

/// Index of the first transition from `from` to `to`, or -1.
pub open spec fn first_link_index(ts: Seq<GemmaTransitionView>, from: Seq<char>, to: Seq<char>) -> int
    decreases ts.len(),
{
    if ts.len() == 0 {
        -1
    } else {
        let r = first_link_index(ts.drop_last(), from, to);
        if r >= 0 {
            r
        } else if ts.last().from == from && ts.last().to == to {
            ts.len() - 1
        } else {
            -1
        }
    }
}

/// Applies one requested transition: the first existing transition with the
/// same ends takes the new condition, otherwise a new transition is added.
pub open spec fn with_rule_transition(g: GemmaView, r: (Seq<char>, Seq<char>, Seq<char>)) -> GemmaView {
    let k = first_link_index(g.transitions, r.0, r.1);
    if k >= 0 {
        GemmaView {
            transitions: g.transitions.update(
                k,
                GemmaTransitionView { condition: expr_from_text(r.2), ..g.transitions[k] },
            ),
            ..g
        }
    } else {
        g.after_add_transition(r.0, r.1, expr_from_text(r.2))
    }
}

/// The identifier of the transition that `with_rule_transition` sets.
pub open spec fn rule_transition_id(g: GemmaView, r: (Seq<char>, Seq<char>, Seq<char>)) -> u32 {
    let k = first_link_index(g.transitions, r.0, r.1);
    if k >= 0 {
        g.transitions[k].id
    } else {
        g.next_trans_id
    }
}

pub open spec fn with_rule_transitions(g: GemmaView, rs: Seq<(Seq<char>, Seq<char>, Seq<char>)>) -> GemmaView
    decreases rs.len(),
{
    if rs.len() == 0 {
        g
    } else {
        with_rule_transition(with_rule_transitions(g, rs.drop_last()), rs.last())
    }
}

pub open spec fn rule_transition_ids(g: GemmaView, rs: Seq<(Seq<char>, Seq<char>, Seq<char>)>) -> Seq<u32>
    decreases rs.len(),
{
    if rs.len() == 0 {
        Seq::empty()
    } else {
        rule_transition_ids(g, rs.drop_last()).push(
            rule_transition_id(with_rule_transitions(g, rs.drop_last()), rs.last()),
        )
    }
}

/// The GEMMA with the answers applied, before its circuits are closed.
pub open spec fn answers_applied(g: GemmaView, qs: Seq<QuestionView>) -> GemmaView {
    with_rule_transitions(
        GemmaView { states: with_missing_states(g.states, collected_states(qs)), ..g },
        collected_transitions(qs),
    )
}

/// Identifiers of the transitions set by the answers, in order (the editor
/// gives them their saved routes).
pub struct AppliedRoutes {
    pub rule_transitions: Vec<u32>,
    pub closing_transitions: Vec<u32>,
}

// ── Lemmas ────────────────────────────────────────────────────────────────────

proof fn lemma_first_link_index(ts: Seq<GemmaTransitionView>, from: Seq<char>, to: Seq<char>)
    ensures
        -1 <= first_link_index(ts, from, to) < ts.len(),
        first_link_index(ts, from, to) >= 0 ==> ts[first_link_index(ts, from, to)].from == from
            && ts[first_link_index(ts, from, to)].to == to,
    decreases ts.len(),
{
    if ts.len() > 0 {
        lemma_first_link_index(ts.drop_last(), from, to);
    }
}

proof fn lemma_prefix_link(s: Seq<GemmaTransitionView>, from: Seq<char>, to: Seq<char>, k: int)
    requires
        0 <= k <= s.len(),
        first_link_index(s.take(k), from, to) >= 0,
    ensures
        first_link_index(s, from, to) == first_link_index(s.take(k), from, to),
    decreases s.len() - k,
{
    if k < s.len() {
        assert(s.take(k + 1).drop_last() =~= s.take(k));
        lemma_prefix_link(s, from, to, k + 1);
    } else {
        assert(s.take(k) =~= s);
    }
}

proof fn lemma_with_missing_len(states: Seq<GemmaStateView>, list: Seq<(Seq<char>, StateType)>)
    ensures
        with_missing_states(states, list).len() <= states.len() + list.len(),
        with_missing_states(states, list).len() >= states.len(),
        with_missing_states(states, list).take(states.len() as int) == states,
    decreases list.len(),
{
    if list.len() > 0 {
        lemma_with_missing_len(states, list.drop_last());
        let s = with_missing_states(states, list.drop_last());
        assert(s.push(GemmaStateView { id: list.last().0, state_type: list.last().1, description: Seq::empty(), action: Seq::empty() }).take(states.len() as int) =~= s.take(states.len() as int));
    } else {
        assert(states.take(states.len() as int) =~= states);
    }
}

proof fn lemma_with_rule_transitions_bounds(g: GemmaView, rs: Seq<(Seq<char>, Seq<char>, Seq<char>)>)
    ensures
        with_rule_transitions(g, rs).next_trans_id <= g.next_trans_id + rs.len() || g.next_trans_id + rs.len() >= u32::MAX,
        with_rule_transitions(g, rs).states == g.states,
    decreases rs.len(),
{
    if rs.len() > 0 {
        lemma_with_rule_transitions_bounds(g, rs.drop_last());
    }
}

// ── Executable parts ──────────────────────────────────────────────────────────

/// The state type that a standard GEMMA name gives (see `state_type_of_name`).
pub fn state_type_from_id(id: &str) -> (t: StateType)
    ensures
        t == state_type_of_name(id@),
{
    if id.unicode_len() == 0 {
        return StateType::Production;
    }
    let c = id.get_char(0);
    if c == 'D' || c == 'd' {
        StateType::Safety
    } else if c == 'A' || c == 'a' {
        StateType::Command
    } else {
        StateType::Production
    }
}

/// Models of a list of pending states.
pub open spec fn pending_view(v: Seq<(String, StateType)>) -> Seq<(Seq<char>, StateType)> {
    Seq::new(v.len(), |i: int| (v[i].0@, v[i].1))
}

/// Appends `sid` to the pending states unless it is already there.
fn add_pending(list: &mut Vec<(String, StateType)>, sid: &String)
    ensures
        pending_view(final(list)@) == with_name(pending_view(old(list)@), sid@),
{
    let ghost pv = pending_view(list@);
    let n = list.len();
    let mut i: usize = 0;
    while i < n
        invariant
            n == list@.len(),
            pv == pending_view(list@),
            list@ == old(list)@,
            0 <= i <= n,
            forall|j: int| 0 <= j < i ==> pv[j].0 != sid@,
        decreases n - i,
    {
        if same_text(&list[i].0, sid) {
            assert(pv[i as int].0 == sid@);
            return;
        }
        i = i + 1;
    }
    assert(!is_listed(pv, sid@));
    let t = state_type_from_id(sid.as_str());
    list.push((sid.clone(), t));
    assert(pending_view(list@) =~= pv.push((sid@, state_type_of_name(sid@))));
}

/// Copy of a requested transition.
fn copy_rule(r: &RuleTransition) -> (c: RuleTransition)
    ensures
        c@ == r@,
{
    RuleTransition { from: r.from.clone(), to: r.to.clone(), condition: r.condition.clone() }
}

impl Questionnaire {
    /// Clears every answer.
    pub fn reset_answers(&mut self)
        ensures
            final(self)@.len() == old(self)@.len(),
            forall|i: int| 0 <= i < old(self)@.len() ==> #[trigger] final(self)@[i] == (QuestionView { answer: Answer::Unanswered, ..old(self)@[i] }),
    {
        let n = self.questions.len();
        let mut i: usize = 0;
        while i < n
            invariant
                n == self.questions@.len(),
                n == old(self)@.len(),
                0 <= i <= n,
                forall|j: int| 0 <= j < i ==> #[trigger] self@[j] == (QuestionView { answer: Answer::Unanswered, ..old(self)@[j] }),
                forall|j: int| i <= j < n ==> #[trigger] self@[j] == old(self)@[j],
            decreases n - i,
        {
            let ghost before = self.questions@;
            assert(self@[i as int] == old(self)@[i as int]);
            assert(self@[i as int] == before[i as int]@);
            let ghost prev_view = self@;
            self.questions[i].answer = Answer::Unanswered;
            assert forall|j: int| 0 <= j < n && j != i implies #[trigger] self@[j] == prev_view[j] by {
                assert(self.questions@[j] == before[j]);
            }
            assert(self.questions@.len() == n);
            assert(forall|j: int| 0 <= j < n && j != i ==> self.questions@[j] == before[j]);
            assert(self.questions@[i as int] == Question { answer: Answer::Unanswered, ..before[i as int] });
            assert(before[i as int]@ == old(self)@[i as int]);
            assert(self@[i as int] =~= (QuestionView { answer: Answer::Unanswered, ..old(self)@[i as int] }));
            i = i + 1;
        }
    }

    /// Gives every question the answer `a`.
    pub fn set_all_answers(&mut self, a: Answer)
        ensures
            final(self)@.len() == old(self)@.len(),
            forall|i: int| 0 <= i < old(self)@.len() ==> #[trigger] final(self)@[i] == (QuestionView { answer: a, ..old(self)@[i] }),
    {
        let n = self.questions.len();
        let mut i: usize = 0;
        while i < n
            invariant
                n == self.questions@.len(),
                n == old(self)@.len(),
                0 <= i <= n,
                forall|j: int| 0 <= j < i ==> #[trigger] self@[j] == (QuestionView { answer: a, ..old(self)@[j] }),
                forall|j: int| i <= j < n ==> #[trigger] self@[j] == old(self)@[j],
            decreases n - i,
        {
            let ghost before = self.questions@;
            assert(self@[i as int] == old(self)@[i as int]);
            assert(self@[i as int] == before[i as int]@);
            let ghost prev_view = self@;
            self.questions[i].answer = a;
            assert forall|j: int| 0 <= j < n && j != i implies #[trigger] self@[j] == prev_view[j] by {
                assert(self.questions@[j] == before[j]);
            }
            assert(self.questions@.len() == n);
            assert(self.questions@[i as int] == Question { answer: a, ..before[i as int] });
            assert(before[i as int]@ == old(self)@[i as int]);
            assert(self@[i as int] =~= (QuestionView { answer: a, ..old(self)@[i as int] }));
            i = i + 1;
        }
    }

    /// Gives question `idx` the answer `a`; nothing happens when there is no
    /// such question.
    pub fn set_answer(&mut self, idx: usize, a: Answer)
        ensures
            final(self)@.len() == old(self)@.len(),
            forall|i: int| 0 <= i < old(self)@.len() ==> #[trigger] final(self)@[i] == if i == idx {
                QuestionView { answer: a, ..old(self)@[i] }
            } else {
                old(self)@[i]
            },
    {
        if idx < self.questions.len() {
            let ghost before = self.questions@;
            let ghost prev_view = self@;
            self.questions[idx].answer = a;
            assert forall|j: int| 0 <= j < before.len() && j != idx implies #[trigger] self@[j] == prev_view[j] by {
                assert(self.questions@[j] == before[j]);
            }
            assert(self.questions@[idx as int] == Question { answer: a, ..before[idx as int] });
            assert(self@[idx as int] =~= (QuestionView { answer: a, ..old(self)@[idx as int] }));
        }
    }

    /// Number of answered questions.
    pub fn answered_count(&self) -> (r: usize)
        ensures
            r as nat == answered(self@),
    {
        let n = self.questions.len();
        let mut i: usize = 0;
        let mut c: usize = 0;
        while i < n
            invariant
                n == self.questions@.len(),
                0 <= i <= n,
                c <= i,
                c as nat == answered(self@.take(i as int)),
            decreases n - i,
        {
            assert(self@.take(i + 1).drop_last() =~= self@.take(i as int));
            assert(self@.take(i + 1).last() == self@[i as int]);
            if self.questions[i].answer != Answer::Unanswered {
                c = c + 1;
            }
            i = i + 1;
        }
        assert(self@.take(n as int) =~= self@);
        c
    }

    /// The pending states and transitions of the answers.
    fn collect(&self) -> (r: (Vec<(String, StateType)>, Vec<RuleTransition>))
        ensures
            pending_view(r.0@) == collected_states(self@),
            rules_view(r.1@) == collected_transitions(self@),
    {
        let mut states: Vec<(String, StateType)> = Vec::new();
        let mut rules: Vec<RuleTransition> = Vec::new();
        let n = self.questions.len();
        let mut i: usize = 0;
        assert(pending_view(states@) =~= Seq::<(Seq<char>, StateType)>::empty());
        assert(rules_view(rules@) =~= Seq::<(Seq<char>, Seq<char>, Seq<char>)>::empty());
        while i < n
            invariant
                n == self.questions@.len(),
                0 <= i <= n,
                pending_view(states@) == collected_states(self@.take(i as int)),
                rules_view(rules@) == collected_transitions(self@.take(i as int)),
            decreases n - i,
        {
            let q = &self.questions[i];
            assert(self@.take(i + 1).drop_last() =~= self@.take(i as int));
            assert(self@.take(i + 1).last() == q@);
            if q.answer != Answer::Unanswered {
                let (names, trans) = if q.answer == Answer::Yes {
                    (&q.etats_si_oui, &q.transitions_si_oui)
                } else {
                    (&q.etats_si_non, &q.transitions_si_non)
                };
                assert(names.deep_view() == chosen_states(q@));
                assert(rules_view(trans@) == chosen_transitions(q@));
                let ghost base = pending_view(states@);
                let m = names.len();
                let mut j: usize = 0;
                while j < m
                    invariant
                        m == names@.len(),
                        0 <= j <= m,
                        pending_view(states@) == with_names(base, names.deep_view().take(j as int)),
                    decreases m - j,
                {
                    assert(names.deep_view().take(j + 1).drop_last() =~= names.deep_view().take(j as int));
                    assert(names.deep_view().take(j + 1).last() == names@[j as int]@);
                    add_pending(&mut states, &names[j]);
                    j = j + 1;
                }
                assert(names.deep_view().take(m as int) =~= names.deep_view());
                let ghost base2 = pending_view(states@);
                let ghost rv = rules_view(trans@);
                let ghost rules0 = rules_view(rules@);
                let m2 = trans.len();
                let mut j: usize = 0;
                while j < m2
                    invariant
                        m2 == trans@.len(),
                        rv == rules_view(trans@),
                        0 <= j <= m2,
                        pending_view(states@) == with_rule_names(base2, rv.take(j as int)),
                        rules_view(rules@) == rules0 + rv.take(j as int),
                    decreases m2 - j,
                {
                    assert(rv.take(j + 1).drop_last() =~= rv.take(j as int));
                    assert(rv.take(j + 1).last() == trans@[j as int]@);
                    let r = &trans[j];
                    add_pending(&mut states, &r.from);
                    add_pending(&mut states, &r.to);
                    let ghost before = rules@;
                    rules.push(copy_rule(r));
                    assert(rules_view(rules@) =~= rules_view(before).push(r@));
                    j = j + 1;
                    assert(rules0 + rv.take(j as int) =~= (rules0 + rv.take(j - 1)).push(r@));
                }
                assert(rv.take(m2 as int) =~= rv);
            } else {
                assert(chosen_states(q@) =~= Seq::<Seq<char>>::empty());
                assert(chosen_transitions(q@) =~= Seq::<(Seq<char>, Seq<char>, Seq<char>)>::empty());
                assert(collected_transitions(self@.take(i + 1)) =~= collected_transitions(self@.take(i as int)));
            }
            i = i + 1;
        }
        assert(self@.take(n as int) =~= self@);
        (states, rules)
    }

    /// Applies the answers to the GEMMA: adds the states and transitions that
    /// the answers ask for and that are missing, gives existing transitions
    /// the conditions of the answers, then closes the open circuits (see
    /// `close_open_circuits`). States already present are not duplicated.
    /// Returns the identifiers of the transitions set by the answers and of
    /// those added to close circuits, for the editor to route them.
    pub fn apply_to_gemma(&self, gemma: &mut Gemma) -> (r: AppliedRoutes)
        requires
            old(gemma).next_trans_id + collected_transitions(self@).len() + 2 * (old(gemma)@.states.len()
                + collected_states(self@).len()) < u32::MAX,
        ensures
            final(gemma)@ == closed_gemma(answers_applied(old(gemma)@, self@)),
            r.rule_transitions@ == rule_transition_ids(
                GemmaView { states: with_missing_states(old(gemma)@.states, collected_states(self@)), ..old(gemma)@ },
                collected_transitions(self@),
            ),
            r.closing_transitions@ == transition_ids(
                final(gemma)@.transitions.skip(answers_applied(old(gemma)@, self@).transitions.len() as int),
            ),
    {
        let ghost g0 = gemma@;
        let (pending, rules) = self.collect();
        let ghost pv = pending_view(pending@);
        // Missing states.
        let n = pending.len();
        let mut i: usize = 0;
        while i < n
            invariant
                n == pending@.len(),
                pv == pending_view(pending@),
                0 <= i <= n,
                gemma@ == (GemmaView { states: with_missing_states(g0.states, pv.take(i as int)), ..g0 }),
            decreases n - i,
        {
            assert(pv.take(i + 1).drop_last() =~= pv.take(i as int));
            assert(pv.take(i + 1).last() == pv[i as int]);
            let (sid, t) = (&pending[i].0, pending[i].1);
            if !gemma.has_state(sid.as_str()) {
                let ghost before = gemma@;
                gemma.states.push(GemmaState { id: sid.clone(), state_type: t, description: String::new(), action: String::new() });
                assert(gemma@.states =~= before.states.push(GemmaStateView { id: sid@, state_type: t, description: Seq::empty(), action: Seq::empty() }));
            }
            i = i + 1;
        }
        assert(pv.take(n as int) =~= pv);
        let ghost g1 = gemma@;
        proof {
            lemma_with_missing_len(g0.states, pv);
        }
        // Requested transitions.
        let ghost rv = rules_view(rules@);
        let mut ids: Vec<u32> = Vec::new();
        let m = rules.len();
        let mut j: usize = 0;
        while j < m
            invariant
                m == rules@.len(),
                rv == rules_view(rules@),
                0 <= j <= m,
                gemma@ == with_rule_transitions(g1, rv.take(j as int)),
                ids@ == rule_transition_ids(g1, rv.take(j as int)),
                gemma.next_trans_id <= g1.next_trans_id + j,
                g1.next_trans_id + m < u32::MAX,
            decreases m - j,
        {
            assert(rv.take(j + 1).drop_last() =~= rv.take(j as int));
            assert(rv.take(j + 1).last() == rules@[j as int]@);
            let r = &rules[j];
            let ghost gb = gemma@;
            // First transition with the same ends.
            let nt = gemma.transitions.len();
            let mut k: usize = 0;
            let mut found: Option<usize> = None;
            while k < nt && found.is_none()
                invariant
                    nt == gemma.transitions@.len(),
                    gemma@ == gb,
                    0 <= k <= nt,
                    match found {
                        None => first_link_index(gb.transitions.take(k as int), r.from@, r.to@) == -1,
                        Some(f) => f as int == first_link_index(gb.transitions, r.from@, r.to@) && f < nt,
                    },
                decreases nt - k,
            {
                assert(gb.transitions.take(k + 1).drop_last() =~= gb.transitions.take(k as int));
                assert(gb.transitions.take(k + 1).last() == gb.transitions[k as int]);
                if same_text(&gemma.transitions[k].from, &r.from) && same_text(&gemma.transitions[k].to, &r.to) {
                    proof {
                        lemma_prefix_link(gb.transitions, r.from@, r.to@, k + 1);
                    }
                    found = Some(k);
                }
                k = k + 1;
            }
            if found.is_none() {
                assert(gb.transitions.take(nt as int) =~= gb.transitions);
            }
            proof {
                lemma_first_link_index(gb.transitions, r.from@, r.to@);
            }
            match found {
                Some(k) => {
                    let e = Expr::from_str(r.condition.as_str());
                    gemma.transitions[k].condition = e;
                    let id = gemma.transitions[k].id;
                    assert(gemma@.transitions =~= gb.transitions.update(k as int, GemmaTransitionView { condition: expr_from_text(r.condition@), ..gb.transitions[k as int] }));
                    assert(gemma@ == with_rule_transition(gb, r@));
                    assert(id == rule_transition_id(gb, r@));
                    ids.push(id);
                },
                None => {
                    let id = gemma.add_transition(r.from.clone(), r.to.clone(), Expr::from_str(r.condition.as_str()));
                    assert(gemma@ == with_rule_transition(gb, r@));
                    assert(id == rule_transition_id(gb, r@));
                    ids.push(id);
                },
            }
            assert(rule_transition_ids(g1, rv.take(j + 1)) == rule_transition_ids(g1, rv.take(j as int)).push(rule_transition_id(gb, r@)));
            j = j + 1;
        }
        assert(rv.take(m as int) =~= rv);
        let ghost g2 = gemma@;
        proof {
            lemma_with_rule_transitions_bounds(g1, rv);
        }
        let closing = close_open_circuits(gemma);
        AppliedRoutes { rule_transitions: ids, closing_transitions: closing }
    }
}

/// The names of `states` are pairwise distinct.
pub open spec fn distinct_names(states: Seq<GemmaStateView>) -> bool {
    forall|i: int, j: int| 0 <= i < j < states.len() ==> #[trigger] states[i].id != #[trigger] states[j].id
}

proof fn lemma_with_missing_distinct(states: Seq<GemmaStateView>, list: Seq<(Seq<char>, StateType)>)
    requires
        distinct_names(states),
    ensures
        distinct_names(with_missing_states(states, list)),
        forall|i: int| 0 <= i < list.len() ==> is_state_name(with_missing_states(states, list), #[trigger] list[i].0),
    decreases list.len(),
{
    if list.len() > 0 {
        let p = list.drop_last();
        lemma_with_missing_distinct(states, p);
        let s = with_missing_states(states, p);
        let sid = list.last().0;
        if !is_state_name(s, sid) {
            let s2 = s.push(GemmaStateView { id: sid, state_type: list.last().1, description: Seq::empty(), action: Seq::empty() });
            assert forall|i: int, j: int| 0 <= i < j < s2.len() implies #[trigger] s2[i].id != #[trigger] s2[j].id by {
                if j == s.len() {
                    assert(s2[i] == s[i]);
                } else {
                    assert(s2[i] == s[i]);
                    assert(s2[j] == s[j]);
                }
            }
        }
        let w = with_missing_states(states, list);
        assert forall|i: int| 0 <= i < list.len() implies is_state_name(w, #[trigger] list[i].0) by {
            if i < p.len() {
                assert(p[i] == list[i]);
                let k = choose|k: int| 0 <= k < s.len() && #[trigger] s[k].id == p[i].0;
                assert(w[k] == s[k]);
            } else if is_state_name(s, sid) {
            } else {
                assert(w[s.len() as int].id == sid);
            }
        }
    }
}

proof fn lemma_with_rule_transition_keeps_edges(g: GemmaView, r: (Seq<char>, Seq<char>, Seq<char>), a: Seq<char>, b: Seq<char>)
    requires
        has_edge(g.transitions, a, b),
    ensures
        has_edge(with_rule_transition(g, r).transitions, a, b),
        has_edge(with_rule_transition(g, r).transitions, r.0, r.1),
        with_rule_transition(g, r).states == g.states,
{
    lemma_first_link_index(g.transitions, r.0, r.1);
    let h = with_rule_transition(g, r);
    let k0 = choose|k: int| 0 <= k < g.transitions.len() && #[trigger] g.transitions[k].from == a && g.transitions[k].to == b;
    assert(h.transitions[k0].from == a && h.transitions[k0].to == b);
    let k = first_link_index(g.transitions, r.0, r.1);
    if k >= 0 {
        assert(h.transitions[k].from == r.0 && h.transitions[k].to == r.1);
    } else {
        assert(h.transitions[g.transitions.len() as int].from == r.0);
    }
}

proof fn lemma_with_rule_transitions_edges(g: GemmaView, rs: Seq<(Seq<char>, Seq<char>, Seq<char>)>)
    ensures
        forall|i: int| 0 <= i < rs.len() ==> has_edge(with_rule_transitions(g, rs).transitions, #[trigger] rs[i].0, rs[i].1),
        forall|a: Seq<char>, b: Seq<char>| has_edge(g.transitions, a, b) ==> has_edge(with_rule_transitions(g, rs).transitions, a, b),
    decreases rs.len(),
{
    if rs.len() > 0 {
        let p = rs.drop_last();
        lemma_with_rule_transitions_edges(g, p);
        let h = with_rule_transitions(g, p);
        lemma_first_link_index(h.transitions, rs.last().0, rs.last().1);
        assert forall|a: Seq<char>, b: Seq<char>| has_edge(h.transitions, a, b) implies has_edge(with_rule_transition(h, rs.last()).transitions, a, b) by {
            lemma_with_rule_transition_keeps_edges(h, rs.last(), a, b);
        }
        let k = first_link_index(h.transitions, rs.last().0, rs.last().1);
        let h2 = with_rule_transition(h, rs.last());
        if k >= 0 {
            assert(h2.transitions[k].from == rs.last().0 && h2.transitions[k].to == rs.last().1);
        } else {
            assert(h2.transitions[h.transitions.len() as int].from == rs.last().0 && h2.transitions[h.transitions.len() as int].to == rs.last().1);
        }
        assert forall|i: int| 0 <= i < rs.len() implies has_edge(h2.transitions, #[trigger] rs[i].0, rs[i].1) by {
            if i < p.len() {
                assert(p[i] == rs[i]);
                assert(has_edge(h.transitions, p[i].0, p[i].1));
            }
        }
    }
}

/// Law: applying the answers never duplicates a state: when the names of the
/// GEMMA are distinct they stay distinct, the existing states stay first and
/// unchanged, and every state named by the answers is present afterwards.
pub proof fn law_apply_keeps_states_unique(g: GemmaView, qs: Seq<QuestionView>)
    requires
        distinct_names(g.states),
        g.next_trans_id + collected_transitions(qs).len() + 2 * (g.states.len() + collected_states(qs).len()) < u32::MAX,
    ensures
        distinct_names(closed_gemma(answers_applied(g, qs)).states),
        closed_gemma(answers_applied(g, qs)).states.take(g.states.len() as int) == g.states,
        forall|i: int| 0 <= i < collected_states(qs).len() ==> is_state_name(
            closed_gemma(answers_applied(g, qs)).states,
            #[trigger] collected_states(qs)[i].0,
        ),
{
    let cs = collected_states(qs);
    let g1 = GemmaView { states: with_missing_states(g.states, cs), ..g };
    lemma_with_missing_len(g.states, cs);
    lemma_with_missing_distinct(g.states, cs);
    lemma_with_rule_transitions_bounds(g1, collected_transitions(qs));
    let g2 = answers_applied(g, qs);
    law_closing_adds_only_allowed(g2);
}

/// Law: after applying the answers, every transition that an answer asks for
/// joins its two states in the GEMMA, and every transition that was there
/// still joins its states.
pub proof fn law_apply_links_requested(g: GemmaView, qs: Seq<QuestionView>)
    requires
        g.next_trans_id + collected_transitions(qs).len() + 2 * (g.states.len() + collected_states(qs).len()) < u32::MAX,
    ensures
        forall|i: int| 0 <= i < collected_transitions(qs).len() ==> has_edge(
            closed_gemma(answers_applied(g, qs)).transitions,
            #[trigger] collected_transitions(qs)[i].0,
            collected_transitions(qs)[i].1,
        ),
        forall|a: Seq<char>, b: Seq<char>| has_edge(g.transitions, a, b) ==> has_edge(
            closed_gemma(answers_applied(g, qs)).transitions,
            a,
            b,
        ),
{
    let cs = collected_states(qs);
    let ct = collected_transitions(qs);
    let g1 = GemmaView { states: with_missing_states(g.states, cs), ..g };
    lemma_with_missing_len(g.states, cs);
    lemma_with_rule_transitions_bounds(g1, ct);
    lemma_with_rule_transitions_edges(g1, ct);
    let g2 = answers_applied(g, qs);
    law_closing_adds_only_allowed(g2);
    let h = closed_gemma(g2);
    assert forall|a: Seq<char>, b: Seq<char>| has_edge(g2.transitions, a, b) implies has_edge(h.transitions, a, b) by {
        let k = choose|k: int| 0 <= k < g2.transitions.len() && #[trigger] g2.transitions[k].from == a && g2.transitions[k].to == b;
        assert(h.transitions.take(g2.transitions.len() as int)[k] == g2.transitions[k]);
        assert(h.transitions[k] == g2.transitions[k]);
    }
    assert forall|i: int| 0 <= i < ct.len() implies has_edge(h.transitions, #[trigger] ct[i].0, ct[i].1) by {
        assert(has_edge(g2.transitions, ct[i].0, ct[i].1));
    }
    assert forall|a: Seq<char>, b: Seq<char>| has_edge(g.transitions, a, b) implies has_edge(h.transitions, a, b) by {
        assert(g1.transitions == g.transitions);
        assert(has_edge(g1.transitions, a, b));
        assert(has_edge(g2.transitions, a, b));
    }
}

/// `x` is one end of a transition of `rs`.
pub open spec fn rule_end(rs: Seq<(Seq<char>, Seq<char>, Seq<char>)>, x: Seq<char>) -> bool {
    exists|j: int| 0 <= j < rs.len() && (#[trigger] rs[j].0 == x || rs[j].1 == x)
}

/// `x` is named by the answer of `q`: among its states or the ends of its
/// transitions for `Yes` (the `yes` lists) or for `No` (the `no` lists);
/// nothing for a question not answered.
pub open spec fn named_by_answer(q: QuestionView, x: Seq<char>) -> bool {
    ||| q.answer == Answer::Yes && (q.states_yes.contains(x) || rule_end(q.transitions_yes, x))
    ||| q.answer == Answer::No && (q.states_no.contains(x) || rule_end(q.transitions_no, x))
}

proof fn lemma_with_names_listed(acc: Seq<(Seq<char>, StateType)>, ns: Seq<Seq<char>>, x: Seq<char>)
    ensures
        is_listed(with_names(acc, ns), x) <==> is_listed(acc, x) || ns.contains(x),
    decreases ns.len(),
{
    if ns.len() > 0 {
        let p = ns.drop_last();
        lemma_with_names_listed(acc, p, x);
        let a = with_names(acc, p);
        if ns.contains(x) && !p.contains(x) {
            let j = choose|j: int| 0 <= j < ns.len() && ns[j] == x;
            if j < p.len() {
                assert(p[j] == x);
            }
        }
        if p.contains(x) {
            let j = choose|j: int| 0 <= j < p.len() && p[j] == x;
            assert(ns[j] == x);
        }
        if !is_listed(a, ns.last()) {
            let b = a.push((ns.last(), state_type_of_name(ns.last())));
            if is_listed(a, x) {
                let k = choose|k: int| 0 <= k < a.len() && #[trigger] a[k].0 == x;
                assert(b[k].0 == x);
            }
            if is_listed(b, x) {
                let k = choose|k: int| 0 <= k < b.len() && #[trigger] b[k].0 == x;
                if k < a.len() {
                    assert(a[k].0 == x);
                } else {
                    assert(ns[ns.len() - 1] == x);
                }
            }
            assert(b[a.len() as int].0 == ns.last());
        } else {
            if x == ns.last() {
                assert(ns[ns.len() - 1] == x);
            }
        }
    }
}

proof fn lemma_with_name_listed(acc: Seq<(Seq<char>, StateType)>, n: Seq<char>, x: Seq<char>)
    ensures
        is_listed(with_name(acc, n), x) <==> is_listed(acc, x) || n == x,
{
    if !is_listed(acc, n) {
        let b = acc.push((n, state_type_of_name(n)));
        if is_listed(acc, x) {
            let k = choose|k: int| 0 <= k < acc.len() && #[trigger] acc[k].0 == x;
            assert(b[k].0 == x);
        }
        if is_listed(b, x) {
            let k = choose|k: int| 0 <= k < b.len() && #[trigger] b[k].0 == x;
            if k < acc.len() {
                assert(acc[k].0 == x);
            }
        }
        assert(b[acc.len() as int].0 == n);
    }
}

proof fn lemma_with_rule_names_listed(acc: Seq<(Seq<char>, StateType)>, rs: Seq<(Seq<char>, Seq<char>, Seq<char>)>, x: Seq<char>)
    ensures
        is_listed(with_rule_names(acc, rs), x) <==> is_listed(acc, x) || rule_end(rs, x),
    decreases rs.len(),
{
    if rs.len() > 0 {
        let p = rs.drop_last();
        let l = rs[rs.len() - 1];
        lemma_with_rule_names_listed(acc, p, x);
        let a = with_rule_names(acc, p);
        lemma_with_name_listed(a, l.0, x);
        lemma_with_name_listed(with_name(a, l.0), l.1, x);
        assert(rule_end(rs, x) <==> (rule_end(p, x) || l.0 == x || l.1 == x)) by {
            if rule_end(p, x) {
                let j = choose|j: int| 0 <= j < p.len() && (#[trigger] p[j].0 == x || p[j].1 == x);
                assert(p[j] == rs[j]);
            }
            if l.0 == x || l.1 == x {
                assert(rs[rs.len() - 1].0 == x || rs[rs.len() - 1].1 == x);
            }
            if rule_end(rs, x) {
                let j = choose|j: int| 0 <= j < rs.len() && (#[trigger] rs[j].0 == x || rs[j].1 == x);
                if j < p.len() {
                    assert(p[j] == rs[j]);
                    assert(p[j].0 == x || p[j].1 == x);
                }
            }
        }
    }
}

proof fn lemma_collected_listed(qs: Seq<QuestionView>, x: Seq<char>)
    ensures
        is_listed(collected_states(qs), x) <==> exists|i: int| 0 <= i < qs.len() && named_by_answer(#[trigger] qs[i], x),
    decreases qs.len(),
{
    if qs.len() > 0 {
        let p = qs.drop_last();
        let q = qs.last();
        lemma_collected_listed(p, x);
        lemma_with_names_listed(collected_states(p), chosen_states(q), x);
        lemma_with_rule_names_listed(with_names(collected_states(p), chosen_states(q)), chosen_transitions(q), x);
        assert((chosen_states(q).contains(x) || rule_end(chosen_transitions(q), x)) <==> named_by_answer(q, x));
        if exists|i: int| 0 <= i < p.len() && named_by_answer(#[trigger] p[i], x) {
            let i = choose|i: int| 0 <= i < p.len() && named_by_answer(#[trigger] p[i], x);
            assert(qs[i] == p[i]);
        }
        if exists|i: int| 0 <= i < qs.len() && named_by_answer(#[trigger] qs[i], x) {
            let i = choose|i: int| 0 <= i < qs.len() && named_by_answer(#[trigger] qs[i], x);
            if i < p.len() {
                assert(qs[i] == p[i]);
            } else {
                assert(qs[i] == q);
            }
        }
        assert(named_by_answer(q, x) ==> named_by_answer(qs[qs.len() - 1], x));
    }
}

proof fn lemma_with_missing_names(states: Seq<GemmaStateView>, list: Seq<(Seq<char>, StateType)>, x: Seq<char>)
    ensures
        is_state_name(with_missing_states(states, list), x) <==> is_state_name(states, x) || is_listed(list, x),
    decreases list.len(),
{
    if list.len() > 0 {
        let p = list.drop_last();
        lemma_with_missing_names(states, p, x);
        let s = with_missing_states(states, p);
        let sid = list.last().0;
        if is_listed(p, x) {
            let k = choose|k: int| 0 <= k < p.len() && #[trigger] p[k].0 == x;
            assert(list[k] == p[k]);
        }
        if is_listed(list, x) {
            let k = choose|k: int| 0 <= k < list.len() && #[trigger] list[k].0 == x;
            if k < p.len() {
                assert(list[k] == p[k]);
            }
        }
        assert(list[list.len() - 1].0 == sid);
        if !is_state_name(s, sid) {
            let s2 = s.push(GemmaStateView { id: sid, state_type: list.last().1, description: Seq::empty(), action: Seq::empty() });
            if is_state_name(s, x) {
                let k = choose|k: int| 0 <= k < s.len() && #[trigger] s[k].id == x;
                assert(s2[k].id == x);
            }
            if is_state_name(s2, x) {
                let k = choose|k: int| 0 <= k < s2.len() && #[trigger] s2[k].id == x;
                if k < s.len() {
                    assert(s[k].id == x);
                }
            }
            assert(s2[s.len() as int].id == sid);
        }
    }
}

proof fn lemma_collected_transitions_has(qs: Seq<QuestionView>, i: int, j: int)
    requires
        0 <= i < qs.len(),
        0 <= j < chosen_transitions(qs[i]).len(),
    ensures
        collected_transitions(qs).contains(chosen_transitions(qs[i])[j]),
    decreases qs.len(),
{
    let p = qs.drop_last();
    let c = collected_transitions(qs);
    if i < p.len() {
        assert(qs[i] == p[i]);
        lemma_collected_transitions_has(p, i, j);
        let k = choose|k: int| 0 <= k < collected_transitions(p).len() && collected_transitions(p)[k] == chosen_transitions(qs[i])[j];
        assert(c[k] == collected_transitions(p)[k]);
    } else {
        let k = collected_transitions(p).len() + j;
        assert(c[k] == chosen_transitions(qs.last())[j]);
    }
}

/// Law: applying the answers brings what each answer names. For a question
/// answered `Yes` its `yes` states are states of the GEMMA afterwards and its
/// `yes` transitions join their states; for one answered `No`, the same with
/// its `no` lists. Conversely, every state afterwards was a state before or is
/// named by an answer: a question not answered brings nothing.
pub proof fn law_apply_brings_answered(g: GemmaView, qs: Seq<QuestionView>)
    requires
        g.next_trans_id + collected_transitions(qs).len() + 2 * (g.states.len() + collected_states(qs).len()) < u32::MAX,
    ensures
        forall|i: int, j: int|
            0 <= i < qs.len() && qs[i].answer == Answer::No && 0 <= j < qs[i].states_no.len() ==> is_state_name(
                closed_gemma(answers_applied(g, qs)).states,
                #[trigger] qs[i].states_no[j],
            ),
        forall|i: int, j: int|
            0 <= i < qs.len() && qs[i].answer == Answer::Yes && 0 <= j < qs[i].states_yes.len() ==> is_state_name(
                closed_gemma(answers_applied(g, qs)).states,
                #[trigger] qs[i].states_yes[j],
            ),
        forall|i: int, j: int|
            0 <= i < qs.len() && qs[i].answer == Answer::No && 0 <= j < qs[i].transitions_no.len() ==> has_edge(
                closed_gemma(answers_applied(g, qs)).transitions,
                (#[trigger] qs[i].transitions_no[j]).0,
                qs[i].transitions_no[j].1,
            ),
        forall|i: int, j: int|
            0 <= i < qs.len() && qs[i].answer == Answer::Yes && 0 <= j < qs[i].transitions_yes.len() ==> has_edge(
                closed_gemma(answers_applied(g, qs)).transitions,
                (#[trigger] qs[i].transitions_yes[j]).0,
                qs[i].transitions_yes[j].1,
            ),
        forall|x: Seq<char>|
            is_state_name(closed_gemma(answers_applied(g, qs)).states, x) ==> is_state_name(g.states, x) || exists|i: int|
                0 <= i < qs.len() && named_by_answer(#[trigger] qs[i], x),
{
    let cs = collected_states(qs);
    let ct = collected_transitions(qs);
    let g1 = GemmaView { states: with_missing_states(g.states, cs), ..g };
    lemma_with_missing_len(g.states, cs);
    lemma_with_rule_transitions_bounds(g1, ct);
    let g2 = answers_applied(g, qs);
    law_closing_adds_only_allowed(g2);
    law_apply_links_requested(g, qs);
    let h = closed_gemma(g2);
    assert(h.states == g1.states);
    assert forall|x: Seq<char>| is_state_name(h.states, x) <==> (is_state_name(g.states, x) || exists|i: int|
        0 <= i < qs.len() && named_by_answer(#[trigger] qs[i], x)) by {
        lemma_with_missing_names(g.states, cs, x);
        lemma_collected_listed(qs, x);
    }
    assert forall|i: int, j: int|
        0 <= i < qs.len() && qs[i].answer == Answer::No && 0 <= j < qs[i].states_no.len() implies is_state_name(
            h.states,
            #[trigger] qs[i].states_no[j],
        ) by {
        let x = qs[i].states_no[j];
        assert(qs[i].states_no.contains(x));
        assert(named_by_answer(qs[i], x));
    }
    assert forall|i: int, j: int|
        0 <= i < qs.len() && qs[i].answer == Answer::Yes && 0 <= j < qs[i].states_yes.len() implies is_state_name(
            h.states,
            #[trigger] qs[i].states_yes[j],
        ) by {
        let x = qs[i].states_yes[j];
        assert(qs[i].states_yes.contains(x));
        assert(named_by_answer(qs[i], x));
    }
    assert forall|i: int, j: int|
        0 <= i < qs.len() && qs[i].answer == Answer::No && 0 <= j < qs[i].transitions_no.len() implies has_edge(
            h.transitions,
            (#[trigger] qs[i].transitions_no[j]).0,
            qs[i].transitions_no[j].1,
        ) by {
        assert(chosen_transitions(qs[i]) == qs[i].transitions_no);
        lemma_collected_transitions_has(qs, i, j);
        let k = choose|k: int| 0 <= k < ct.len() && ct[k] == qs[i].transitions_no[j];
        assert(has_edge(h.transitions, ct[k].0, ct[k].1));
    }
    assert forall|i: int, j: int|
        0 <= i < qs.len() && qs[i].answer == Answer::Yes && 0 <= j < qs[i].transitions_yes.len() implies has_edge(
            h.transitions,
            (#[trigger] qs[i].transitions_yes[j]).0,
            qs[i].transitions_yes[j].1,
        ) by {
        assert(chosen_transitions(qs[i]) == qs[i].transitions_yes);
        lemma_collected_transitions_has(qs, i, j);
        let k = choose|k: int| 0 <= k < ct.len() && ct[k] == qs[i].transitions_yes[j];
        assert(has_edge(h.transitions, ct[k].0, ct[k].1));
    }
}

/// Law: a transition asked for by an answer, from `r.0` to `r.1` with the
/// condition text `r.2`, never adds a second link between the same two
/// states: when they are already joined, the first transition joining them
/// (in their order) takes the new condition and nothing else changes; when
/// they are not, one transition is appended under the next identifier.
pub proof fn law_rule_transition_no_duplicate(g: GemmaView, r: (Seq<char>, Seq<char>, Seq<char>))
    ensures
        ({
            let h = with_rule_transition(g, r);
            &&& h.states == g.states
            &&& has_edge(g.transitions, r.0, r.1) ==> {
                &&& h.transitions.len() == g.transitions.len()
                &&& h.next_trans_id == g.next_trans_id
                &&& exists|k: int|
                    0 <= k < g.transitions.len() && #[trigger] g.transitions[k].from == r.0 && g.transitions[k].to == r.1
                        && (forall|j: int| 0 <= j < k ==> !(g.transitions[j].from == r.0 && g.transitions[j].to == r.1))
                        && h.transitions[k] == (GemmaTransitionView { condition: expr_from_text(r.2), ..g.transitions[k] })
                        && (forall|j: int| 0 <= j < g.transitions.len() && j != k ==> h.transitions[j] == g.transitions[j])
            }
            &&& !has_edge(g.transitions, r.0, r.1) ==> h.transitions == g.transitions.push(
                GemmaTransitionView { id: g.next_trans_id, from: r.0, to: r.1, condition: expr_from_text(r.2) },
            )
        }),
{
    let ts = g.transitions;
    lemma_first_link_index(ts, r.0, r.1);
    lemma_first_link_earlier(ts, r.0, r.1);
    let k = first_link_index(ts, r.0, r.1);
    if has_edge(ts, r.0, r.1) {
        let w = choose|w: int| 0 <= w < ts.len() && #[trigger] ts[w].from == r.0 && ts[w].to == r.1;
        assert(k >= 0);
        assert(ts[k].from == r.0);
    } else {
        if k >= 0 {
            assert(ts[k].from == r.0 && ts[k].to == r.1);
        }
    }
}

proof fn lemma_first_link_earlier(ts: Seq<GemmaTransitionView>, a: Seq<char>, b: Seq<char>)
    ensures
        forall|j: int| 0 <= j < ts.len() && (first_link_index(ts, a, b) == -1 || j < first_link_index(ts, a, b))
            ==> !(#[trigger] ts[j].from == a && ts[j].to == b),
    decreases ts.len(),
{
    if ts.len() > 0 {
        let p = ts.drop_last();
        lemma_first_link_earlier(p, a, b);
        lemma_first_link_index(p, a, b);
        assert forall|j: int| 0 <= j < ts.len() && (first_link_index(ts, a, b) == -1 || j < first_link_index(ts, a, b))
            implies !(#[trigger] ts[j].from == a && ts[j].to == b) by {
            if j < p.len() {
                assert(p[j] == ts[j]);
            }
        }
    }
}

/// Once every question has the same answer (as `reset_answers` and
/// `set_all_answers` leave them), the answered count is 0 for no answer and
/// the number of questions otherwise.
pub proof fn law_uniform_answers_count(qs: Seq<QuestionView>, a: Answer)
    requires
        forall|i: int| 0 <= i < qs.len() ==> #[trigger] qs[i].answer == a,
    ensures
        answered(qs) == if a == Answer::Unanswered {
            0
        } else {
            qs.len()
        },
    decreases qs.len(),
{
    if qs.len() > 0 {
        let q0 = qs.drop_last();
        assert forall|i: int| 0 <= i < q0.len() implies #[trigger] q0[i].answer == a by {
            assert(q0[i] == qs[i]);
        }
        law_uniform_answers_count(q0, a);
        assert(qs.last() == qs[qs.len() - 1]);
    }
}

} // verus!
