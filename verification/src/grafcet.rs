//! The GRAFCET model: steps, transitions and the identifier counters.
use vstd::prelude::*;
use crate::text::{decimal, push_decimal, string_of};

verus! {

/// Kind of a GRAFCET step.
#[derive(PartialEq, Eq, Structural, Clone, Copy, Debug)]
pub enum StepKind {
    Normal,
    /// Drawn with a double border.
    Initial,
    MacroStep,
}

impl Default for StepKind {
    fn default() -> (r: Self)
        ensures
            r == StepKind::Normal,
    {
        StepKind::Normal
    }
}

/// A GRAFCET step. Its position on the canvas is kept by the editor.
pub struct Step {
    pub id: u32,
    pub label: String,
    pub actions: Vec<String>,
    pub kind: StepKind,
    /// Active during a simulation.
    pub active: bool,
}

/// Mathematical model of a step.
pub struct StepView {
    pub id: u32,
    pub label: Seq<char>,
    pub actions: Seq<Seq<char>>,
    pub kind: StepKind,
    pub active: bool,
}

impl View for Step {
    type V = StepView;

    open spec fn view(&self) -> StepView {
        StepView {
            id: self.id,
            label: self.label@,
            actions: self.actions.deep_view(),
            kind: self.kind,
            active: self.active,
        }
    }
}

/// The label that a new step receives: `E` followed by its identifier.
pub open spec fn default_step_label(id: u32) -> Seq<char> {
    seq!['E'] + decimal(id as nat)
}

/// The model of `Step::new(id)`.
pub open spec fn new_step_view(id: u32) -> StepView {
    StepView {
        id,
        label: default_step_label(id),
        actions: Seq::empty(),
        kind: StepKind::Normal,
        active: false,
    }
}

impl Step {
    /// A normal, inactive step labelled `E<id>` with no action.
    pub fn new(id: u32) -> (s: Step)
        ensures
            s@ == new_step_view(id),
    {
        let mut label = string_of("E");
        proof {
            reveal_strlit("E");
        }
        push_decimal(&mut label, id);
        let actions: Vec<String> = Vec::new();
        let s = Step { id, label, actions, kind: StepKind::Normal, active: false };
        assert(s@.actions =~= Seq::<Seq<char>>::empty());
        assert(s@.label =~= default_step_label(id));
        s
    }
}

/// A GRAFCET transition from one step to another, guarded by a condition.
/// The position of its bar on the canvas is kept by the editor.
pub struct Transition {
    pub id: u32,
    pub from_step: u32,
    pub to_step: u32,
    pub condition: String,
}

/// Mathematical model of a transition.
pub struct TransitionView {
    pub id: u32,
    pub from_step: u32,
    pub to_step: u32,
    pub condition: Seq<char>,
}

impl View for Transition {
    type V = TransitionView;

    open spec fn view(&self) -> TransitionView {
        TransitionView {
            id: self.id,
            from_step: self.from_step,
            to_step: self.to_step,
            condition: self.condition@,
        }
    }
}

/// The model of `Transition::new(id, from, to)`: its condition is `1`.
pub open spec fn new_transition_view(id: u32, from_step: u32, to_step: u32) -> TransitionView {
    TransitionView { id, from_step, to_step, condition: seq!['1'] }
}

impl Transition {
    /// A transition whose condition is the constant `1`.
    pub fn new(id: u32, from_step: u32, to_step: u32) -> (t: Transition)
        ensures
            t@ == new_transition_view(id, from_step, to_step),
    {
        let condition = string_of("1");
        proof {
            reveal_strlit("1");
        }
        let t = Transition { id, from_step, to_step, condition };
        assert(t@.condition =~= seq!['1']);
        t
    }
}

/// A complete GRAFCET.
pub struct Grafcet {
    pub steps: Vec<Step>,
    pub transitions: Vec<Transition>,
    pub next_step_id: u32,
    pub next_trans_id: u32,
    /// Counter that makes AND groups unique.
    pub next_and_group_id: u32,
}

/// Mathematical model of a GRAFCET.
pub struct GrafcetView {
    pub steps: Seq<StepView>,
    pub transitions: Seq<TransitionView>,
    pub next_step_id: u32,
    pub next_trans_id: u32,
    pub next_and_group_id: u32,
}

impl View for Grafcet {
    type V = GrafcetView;

    open spec fn view(&self) -> GrafcetView {
        GrafcetView {
            steps: self.steps@.map_values(|s: Step| s@),
            transitions: self.transitions@.map_values(|t: Transition| t@),
            next_step_id: self.next_step_id,
            next_trans_id: self.next_trans_id,
            next_and_group_id: self.next_and_group_id,
        }
    }
}

/// Index of the first step whose identifier is `id`, or -1.
pub open spec fn step_index(steps: Seq<StepView>, id: u32) -> int
    decreases steps.len(),
{
    if steps.len() == 0 {
        -1
    } else {
        let r = step_index(steps.drop_last(), id);
        if r >= 0 {
            r
        } else if steps.last().id == id {
            steps.len() - 1
        } else {
            -1
        }
    }
}

/// Index of the first transition whose identifier is `id`, or -1.
pub open spec fn transition_index(ts: Seq<TransitionView>, id: u32) -> int
    decreases ts.len(),
{
    if ts.len() == 0 {
        -1
    } else {
        let r = transition_index(ts.drop_last(), id);
        if r >= 0 {
            r
        } else if ts.last().id == id {
            ts.len() - 1
        } else {
            -1
        }
    }
}

/// The steps whose identifier differs from `id`, in their order.
pub open spec fn steps_without(steps: Seq<StepView>, id: u32) -> Seq<StepView>
    decreases steps.len(),
{
    if steps.len() == 0 {
        Seq::empty()
    } else {
        let r = steps_without(steps.drop_last(), id);
        if steps.last().id != id {
            r.push(steps.last())
        } else {
            r
        }
    }
}

/// The transitions that neither leave nor reach step `id`, in their order.
pub open spec fn transitions_apart_from(ts: Seq<TransitionView>, id: u32) -> Seq<TransitionView>
    decreases ts.len(),
{
    if ts.len() == 0 {
        Seq::empty()
    } else {
        let r = transitions_apart_from(ts.drop_last(), id);
        if ts.last().from_step != id && ts.last().to_step != id {
            r.push(ts.last())
        } else {
            r
        }
    }
}

/// The transitions whose identifier differs from `id`, in their order.
pub open spec fn transitions_without(ts: Seq<TransitionView>, id: u32) -> Seq<TransitionView>
    decreases ts.len(),
{
    if ts.len() == 0 {
        Seq::empty()
    } else {
        let r = transitions_without(ts.drop_last(), id);
        if ts.last().id != id {
            r.push(ts.last())
        } else {
            r
        }
    }
}

/// Number of transitions that leave step `from`.
pub open spec fn count_leaving(ts: Seq<TransitionView>, from: u32) -> nat
    decreases ts.len(),
{
    if ts.len() == 0 {
        0
    } else {
        count_leaving(ts.drop_last(), from) + if ts.last().from_step == from {
            1nat
        } else {
            0nat
        }
    }
}

impl GrafcetView {
    /// Identifiers are unique and below their counters.
    pub open spec fn wf(self) -> bool {
        &&& forall|i: int| 0 <= i < self.steps.len() ==> #[trigger] self.steps[i].id < self.next_step_id
        &&& forall|i: int, j: int|
            0 <= i < j < self.steps.len() ==> #[trigger] self.steps[i].id != #[trigger] self.steps[j].id
        &&& forall|i: int|
            0 <= i < self.transitions.len() ==> #[trigger] self.transitions[i].id < self.next_trans_id
        &&& forall|i: int, j: int|
            0 <= i < j < self.transitions.len() ==> #[trigger] self.transitions[i].id
                != #[trigger] self.transitions[j].id
    }

    pub open spec fn has_step(self, id: u32) -> bool {
        exists|i: int| 0 <= i < self.steps.len() && #[trigger] self.steps[i].id == id
    }

    pub open spec fn has_transition(self, id: u32) -> bool {
        exists|i: int| 0 <= i < self.transitions.len() && #[trigger] self.transitions[i].id == id
    }

    /// The model after `add_step`.
    pub open spec fn after_add_step(self) -> GrafcetView {
        GrafcetView {
            steps: self.steps.push(new_step_view(self.next_step_id)),
            next_step_id: (self.next_step_id + 1) as u32,
            ..self
        }
    }

    /// The model after `remove_step(id)`.
    pub open spec fn after_remove_step(self, id: u32) -> GrafcetView {
        GrafcetView {
            steps: steps_without(self.steps, id),
            transitions: transitions_apart_from(self.transitions, id),
            ..self
        }
    }

    /// The model after `add_transition(from, to)`.
    pub open spec fn after_add_transition(self, from: u32, to: u32) -> GrafcetView {
        GrafcetView {
            transitions: self.transitions.push(new_transition_view(self.next_trans_id, from, to)),
            next_trans_id: (self.next_trans_id + 1) as u32,
            ..self
        }
    }

    /// The model after `remove_transition(id)`.
    pub open spec fn after_remove_transition(self, id: u32) -> GrafcetView {
        GrafcetView { transitions: transitions_without(self.transitions, id), ..self }
    }
}

pub proof fn lemma_step_index(steps: Seq<StepView>, id: u32)
    ensures
        -1 <= step_index(steps, id) < steps.len(),
        step_index(steps, id) >= 0 ==> steps[step_index(steps, id)].id == id,
        forall|j: int|
            0 <= j < steps.len() && (step_index(steps, id) == -1 || j < step_index(steps, id))
                ==> #[trigger] steps[j].id != id,
    decreases steps.len(),
{
    if steps.len() > 0 {
        lemma_step_index(steps.drop_last(), id);
        assert forall|j: int|
            0 <= j < steps.len() && (step_index(steps, id) == -1 || j < step_index(steps, id))
                implies #[trigger] steps[j].id != id by {
            if j < steps.len() - 1 {
                assert(steps.drop_last()[j] == steps[j]);
            }
        }
    }
}

pub proof fn lemma_transition_index(ts: Seq<TransitionView>, id: u32)
    ensures
        -1 <= transition_index(ts, id) < ts.len(),
        transition_index(ts, id) >= 0 ==> ts[transition_index(ts, id)].id == id,
        forall|j: int|
            0 <= j < ts.len() && (transition_index(ts, id) == -1 || j < transition_index(ts, id))
                ==> #[trigger] ts[j].id != id,
    decreases ts.len(),
{
    if ts.len() > 0 {
        lemma_transition_index(ts.drop_last(), id);
        assert forall|j: int|
            0 <= j < ts.len() && (transition_index(ts, id) == -1 || j < transition_index(ts, id))
                implies #[trigger] ts[j].id != id by {
            if j < ts.len() - 1 {
                assert(ts.drop_last()[j] == ts[j]);
            }
        }
    }
}

pub proof fn lemma_steps_without(steps: Seq<StepView>, id: u32)
    ensures
        forall|i: int|
            0 <= i < steps_without(steps, id).len() ==> #[trigger] steps_without(steps, id)[i].id
                != id,
        forall|i: int|
            0 <= i < steps_without(steps, id).len() ==> steps.contains(
                #[trigger] steps_without(steps, id)[i],
            ),
        forall|i: int|
            0 <= i < steps.len() && #[trigger] steps[i].id != id ==> steps_without(
                steps,
                id,
            ).contains(steps[i]),
        steps_without(steps, id).len() <= steps.len(),
    decreases steps.len(),
{
    if steps.len() > 0 {
        let p = steps.drop_last();
        lemma_steps_without(p, id);
        let r = steps_without(p, id);
        assert forall|i: int|
            0 <= i < steps_without(steps, id).len() implies steps.contains(
                #[trigger] steps_without(steps, id)[i],
            ) by {
            if i < r.len() {
                let k = choose|k: int| 0 <= k < p.len() && p[k] == r[i];
                assert(steps[k] == p[k]);
            } else {
                assert(steps[steps.len() - 1] == steps.last());
            }
        }
        assert forall|i: int|
            0 <= i < steps.len() && #[trigger] steps[i].id != id implies steps_without(
                steps,
                id,
            ).contains(steps[i]) by {
            if i < steps.len() - 1 {
                assert(p[i] == steps[i]);
                let k = choose|k: int| 0 <= k < r.len() && r[k] == p[i];
                assert(steps_without(steps, id)[k] == steps[i]);
            } else {
                assert(steps_without(steps, id)[r.len() as int] == steps[i]);
            }
        }
    }
}

pub proof fn lemma_transitions_apart_from(ts: Seq<TransitionView>, id: u32)
    ensures
        forall|i: int|
            0 <= i < transitions_apart_from(ts, id).len() ==> (#[trigger] transitions_apart_from(
                ts,
                id,
            )[i]).from_step != id && transitions_apart_from(ts, id)[i].to_step != id,
        forall|i: int|
            0 <= i < transitions_apart_from(ts, id).len() ==> ts.contains(
                #[trigger] transitions_apart_from(ts, id)[i],
            ),
        transitions_apart_from(ts, id).len() <= ts.len(),
    decreases ts.len(),
{
    if ts.len() > 0 {
        let p = ts.drop_last();
        lemma_transitions_apart_from(p, id);
        let r = transitions_apart_from(p, id);
        assert forall|i: int|
            0 <= i < transitions_apart_from(ts, id).len() implies ts.contains(
                #[trigger] transitions_apart_from(ts, id)[i],
            ) by {
            if i < r.len() {
                let k = choose|k: int| 0 <= k < p.len() && p[k] == r[i];
                assert(ts[k] == p[k]);
            } else {
                assert(ts[ts.len() - 1] == ts.last());
            }
        }
    }
}

pub proof fn lemma_transitions_without(ts: Seq<TransitionView>, id: u32)
    ensures
        forall|i: int|
            0 <= i < transitions_without(ts, id).len() ==> (#[trigger] transitions_without(
                ts,
                id,
            )[i]).id != id,
        forall|i: int|
            0 <= i < transitions_without(ts, id).len() ==> ts.contains(
                #[trigger] transitions_without(ts, id)[i],
            ),
        transitions_without(ts, id).len() <= ts.len(),
    decreases ts.len(),
{
    if ts.len() > 0 {
        let p = ts.drop_last();
        lemma_transitions_without(p, id);
        let r = transitions_without(p, id);
        assert forall|i: int|
            0 <= i < transitions_without(ts, id).len() implies ts.contains(
                #[trigger] transitions_without(ts, id)[i],
            ) by {
            if i < r.len() {
                let k = choose|k: int| 0 <= k < p.len() && p[k] == r[i];
                assert(ts[k] == p[k]);
            } else {
                assert(ts[ts.len() - 1] == ts.last());
            }
        }
    }
}

impl Grafcet {
    /// An empty GRAFCET whose counters start at 0.
    pub fn new() -> (g: Grafcet)
        ensures
            g@ == (GrafcetView {
                steps: Seq::empty(),
                transitions: Seq::empty(),
                next_step_id: 0,
                next_trans_id: 0,
                next_and_group_id: 0,
            }),
    {
        let g = Grafcet {
            steps: Vec::new(),
            transitions: Vec::new(),
            next_step_id: 0,
            next_trans_id: 0,
            next_and_group_id: 0,
        };
        assert(g@.steps =~= Seq::<StepView>::empty());
        assert(g@.transitions =~= Seq::<TransitionView>::empty());
        g
    }

    /// Appends a new step (see `Step::new`) under the next step identifier and
    /// returns that identifier.
    pub fn add_step(&mut self) -> (id: u32)
        requires
            old(self).next_step_id < u32::MAX,
        ensures
            id == old(self).next_step_id,
            final(self)@ == old(self)@.after_add_step(),
    {
        let id = self.next_step_id;
        self.next_step_id = self.next_step_id + 1;
        self.steps.push(Step::new(id));
        assert(self@.steps =~= old(self)@.steps.push(new_step_view(id)));
        id
    }

    /// Removes the steps with identifier `id` and every transition that leaves
    /// or reaches it.
    pub fn remove_step(&mut self, id: u32)
        ensures
            final(self)@ == old(self)@.after_remove_step(id),
    {
        let ghost os = old(self)@.steps;
        let ghost ot = old(self)@.transitions;
        let mut i: usize = 0;
        let ghost mut k: int = 0;
        while i < self.steps.len()
            invariant
                0 <= k <= os.len(),
                self@.steps =~= steps_without(os.take(k), id) + os.skip(k),
                i == steps_without(os.take(k), id).len(),
                self@.transitions == ot,
                self.next_step_id == old(self).next_step_id,
                self.next_trans_id == old(self).next_trans_id,
                self.next_and_group_id == old(self).next_and_group_id,
            decreases os.len() - k,
        {
            assert(os.take(k + 1).drop_last() =~= os.take(k));
            assert(os.take(k + 1).last() == os[k]);
            assert(os.skip(k)[0] == os[k]);
            assert(os.skip(k + 1) =~= os.skip(k).drop_first());
            assert(self@.steps[i as int] == os[k]);
            if self.steps[i].id == id {
                let ghost before = self@.steps;
                let _ = self.steps.remove(i);
                assert(self@.steps =~= before.remove(i as int));
            } else {
                i = i + 1;
            }
            proof {
                k = k + 1;
            }
            assert(self@.steps =~= steps_without(os.take(k), id) + os.skip(k));
        }
        assert(k == os.len()) by {
            if k < os.len() {
                assert(self@.steps.len() == i + os.skip(k).len());
            }
        }
        assert(os.take(k) =~= os);
        let mut i: usize = 0;
        let ghost mut k: int = 0;
        while i < self.transitions.len()
            invariant
                0 <= k <= ot.len(),
                self@.transitions =~= transitions_apart_from(ot.take(k), id) + ot.skip(k),
                i == transitions_apart_from(ot.take(k), id).len(),
                self@.steps == steps_without(os, id),
                self.next_step_id == old(self).next_step_id,
                self.next_trans_id == old(self).next_trans_id,
                self.next_and_group_id == old(self).next_and_group_id,
            decreases ot.len() - k,
        {
            assert(ot.take(k + 1).drop_last() =~= ot.take(k));
            assert(ot.take(k + 1).last() == ot[k]);
            assert(ot.skip(k)[0] == ot[k]);
            assert(ot.skip(k + 1) =~= ot.skip(k).drop_first());
            assert(self@.transitions[i as int] == ot[k]);
            if self.transitions[i].from_step != id && self.transitions[i].to_step != id {
                i = i + 1;
            } else {
                let ghost before = self@.transitions;
                let _ = self.transitions.remove(i);
                assert(self@.transitions =~= before.remove(i as int));
            }
            proof {
                k = k + 1;
            }
            assert(self@.transitions =~= transitions_apart_from(ot.take(k), id) + ot.skip(k));
        }
        assert(k == ot.len()) by {
            if k < ot.len() {
                assert(self@.transitions.len() == i + ot.skip(k).len());
            }
        }
        assert(ot.take(k) =~= ot);
        assert(self@.transitions =~= transitions_apart_from(ot, id));
    }

    /// Index of the first step with identifier `id`.
    pub(crate) fn find_step(&self, id: u32) -> (r: Option<usize>)
        ensures
            match r {
                Some(i) => i as int == step_index(self@.steps, id),
                None => step_index(self@.steps, id) == -1,
            },
    {
        let n = self.steps.len();
        let mut i: usize = 0;
        while i < n
            invariant
                n == self.steps@.len(),
                0 <= i <= n,
                step_index(self@.steps.take(i as int), id) == -1,
            decreases n - i,
        {
            assert(self@.steps.take(i + 1).drop_last() =~= self@.steps.take(i as int));
            if self.steps[i].id == id {
                assert(step_index(self@.steps.take(i + 1), id) == i);
                proof {
                    lemma_prefix_index_steps(self@.steps, id, i + 1);
                }
                return Some(i);
            }
            i = i + 1;
        }
        assert(self@.steps.take(n as int) =~= self@.steps);
        None
    }

    /// The first step with identifier `id`, if any.
    pub fn step(&self, id: u32) -> (r: Option<&Step>)
        ensures
            match r {
                Some(s) => step_index(self@.steps, id) >= 0 && s@ == self@.steps[step_index(
                    self@.steps,
                    id,
                )],
                None => step_index(self@.steps, id) == -1,
            },
    {
        proof {
            lemma_step_index(self@.steps, id);
        }
        match self.find_step(id) {
            Some(i) => Some(&self.steps[i]),
            None => None,
        }
    }

    /// The first step with identifier `id`, for modification.
    pub fn step_mut(&mut self, id: u32) -> (r: Option<&mut Step>)
        ensures
            match r {
                Some(s) => {
                    &&& step_index(old(self)@.steps, id) >= 0
                    &&& *s == old(self).steps@[step_index(old(self)@.steps, id)]
                    &&& final(self).steps@ == old(self).steps@.update(
                        step_index(old(self)@.steps, id),
                        *final(s),
                    )
                    &&& final(self).transitions == old(self).transitions
                    &&& final(self).next_step_id == old(self).next_step_id
                    &&& final(self).next_trans_id == old(self).next_trans_id
                    &&& final(self).next_and_group_id == old(self).next_and_group_id
                },
                None => step_index(old(self)@.steps, id) == -1 && *final(self) == *old(self),
            },
    {
        proof {
            lemma_step_index(old(self)@.steps, id);
        }
        match self.find_step(id) {
            Some(i) => Some(&mut self.steps[i]),
            None => None,
        }
    }

    /// Number of transitions that already leave step `from`. The editor offsets
    /// the bar of a new transition by this count (OR divergence).
    pub fn outgoing_count(&self, from: u32) -> (r: usize)
        ensures
            r as nat == count_leaving(self@.transitions, from),
    {
        let n = self.transitions.len();
        let mut i: usize = 0;
        let mut c: usize = 0;
        while i < n
            invariant
                n == self.transitions@.len(),
                0 <= i <= n,
                c as nat == count_leaving(self@.transitions.take(i as int), from),
                c <= i,
            decreases n - i,
        {
            assert(self@.transitions.take(i + 1).drop_last() =~= self@.transitions.take(
                i as int,
            ));
            if self.transitions[i].from_step == from {
                c = c + 1;
            }
            i = i + 1;
        }
        assert(self@.transitions.take(n as int) =~= self@.transitions);
        c
    }

    /// Appends a transition from `from_step` to `to_step` (condition `1`) under
    /// the next transition identifier and returns that identifier.
    pub fn add_transition(&mut self, from_step: u32, to_step: u32) -> (id: u32)
        requires
            old(self).next_trans_id < u32::MAX,
        ensures
            id == old(self).next_trans_id,
            final(self)@ == old(self)@.after_add_transition(from_step, to_step),
    {
        let id = self.next_trans_id;
        self.next_trans_id = self.next_trans_id + 1;
        self.transitions.push(Transition::new(id, from_step, to_step));
        assert(self@.transitions =~= old(self)@.transitions.push(
            new_transition_view(id, from_step, to_step),
        ));
        id
    }

    /// Index of the first transition with identifier `id`.
    fn find_transition(&self, id: u32) -> (r: Option<usize>)
        ensures
            match r {
                Some(i) => i as int == transition_index(self@.transitions, id),
                None => transition_index(self@.transitions, id) == -1,
            },
    {
        let n = self.transitions.len();
        let mut i: usize = 0;
        while i < n
            invariant
                n == self.transitions@.len(),
                0 <= i <= n,
                transition_index(self@.transitions.take(i as int), id) == -1,
            decreases n - i,
        {
            assert(self@.transitions.take(i + 1).drop_last() =~= self@.transitions.take(
                i as int,
            ));
            if self.transitions[i].id == id {
                assert(transition_index(self@.transitions.take(i + 1), id) == i);
                proof {
                    lemma_prefix_index_transitions(self@.transitions, id, i + 1);
                }
                return Some(i);
            }
            i = i + 1;
        }
        assert(self@.transitions.take(n as int) =~= self@.transitions);
        None
    }

    /// The first transition with identifier `id`, if any.
    pub fn transition(&self, id: u32) -> (r: Option<&Transition>)
        ensures
            match r {
                Some(t) => transition_index(self@.transitions, id) >= 0 && t@
                    == self@.transitions[transition_index(self@.transitions, id)],
                None => transition_index(self@.transitions, id) == -1,
            },
    {
        proof {
            lemma_transition_index(self@.transitions, id);
        }
        match self.find_transition(id) {
            Some(i) => Some(&self.transitions[i]),
            None => None,
        }
    }

    /// Removes every transition with identifier `id`.
    pub fn remove_transition(&mut self, id: u32)
        ensures
            final(self)@ == old(self)@.after_remove_transition(id),
    {
        let ghost ot = old(self)@.transitions;
        let mut i: usize = 0;
        let ghost mut k: int = 0;
        while i < self.transitions.len()
            invariant
                0 <= k <= ot.len(),
                self@.transitions =~= transitions_without(ot.take(k), id) + ot.skip(k),
                i == transitions_without(ot.take(k), id).len(),
                self@.steps == old(self)@.steps,
                self.next_step_id == old(self).next_step_id,
                self.next_trans_id == old(self).next_trans_id,
                self.next_and_group_id == old(self).next_and_group_id,
            decreases ot.len() - k,
        {
            assert(ot.take(k + 1).drop_last() =~= ot.take(k));
            assert(ot.take(k + 1).last() == ot[k]);
            assert(ot.skip(k)[0] == ot[k]);
            assert(ot.skip(k + 1) =~= ot.skip(k).drop_first());
            assert(self@.transitions[i as int] == ot[k]);
            if self.transitions[i].id != id {
                i = i + 1;
            } else {
                let ghost before = self@.transitions;
                let _ = self.transitions.remove(i);
                assert(self@.transitions =~= before.remove(i as int));
            }
            proof {
                k = k + 1;
            }
            assert(self@.transitions =~= transitions_without(ot.take(k), id) + ot.skip(k));
        }
        assert(k == ot.len()) by {
            if k < ot.len() {
                assert(self@.transitions.len() == i + ot.skip(k).len());
            }
        }
        assert(ot.take(k) =~= ot);
        assert(self@.transitions =~= transitions_without(ot, id));
    }

    /// The first transition with identifier `id`, for modification.
    pub fn transition_mut(&mut self, id: u32) -> (r: Option<&mut Transition>)
        ensures
            match r {
                Some(t) => {
                    &&& transition_index(old(self)@.transitions, id) >= 0
                    &&& *t == old(self).transitions@[transition_index(old(self)@.transitions, id)]
                    &&& final(self).transitions@ == old(self).transitions@.update(
                        transition_index(old(self)@.transitions, id),
                        *final(t),
                    )
                    &&& final(self).steps == old(self).steps
                    &&& final(self).next_step_id == old(self).next_step_id
                    &&& final(self).next_trans_id == old(self).next_trans_id
                    &&& final(self).next_and_group_id == old(self).next_and_group_id
                },
                None => transition_index(old(self)@.transitions, id) == -1 && *final(self)
                    == *old(self),
            },
    {
        proof {
            lemma_transition_index(old(self)@.transitions, id);
        }
        match self.find_transition(id) {
            Some(i) => Some(&mut self.transitions[i]),
            None => None,
        }
    }

    /// Hands out a new AND-group identifier, unique within this GRAFCET.
    pub fn new_and_group(&mut self) -> (id: u32)
        requires
            old(self).next_and_group_id < u32::MAX,
        ensures
            id == old(self).next_and_group_id,
            final(self)@ == (GrafcetView {
                next_and_group_id: (old(self).next_and_group_id + 1) as u32,
                ..old(self)@
            }),
    {
        let id = self.next_and_group_id;
        self.next_and_group_id = self.next_and_group_id + 1;
        id
    }
}

/// A prefix index that was found stays the index of the whole sequence.
proof fn lemma_prefix_index_steps(s: Seq<StepView>, id: u32, k: int)
    requires
        0 <= k <= s.len(),
        step_index(s.take(k), id) >= 0,
    ensures
        step_index(s, id) == step_index(s.take(k), id),
    decreases s.len() - k,
{
    if k < s.len() {
        assert(s.take(k + 1).drop_last() =~= s.take(k));
        lemma_prefix_index_steps(s, id, k + 1);
    } else {
        assert(s.take(k) =~= s);
    }
}

/// A prefix index that was found stays the index of the whole sequence.
proof fn lemma_prefix_index_transitions(s: Seq<TransitionView>, id: u32, k: int)
    requires
        0 <= k <= s.len(),
        transition_index(s.take(k), id) >= 0,
    ensures
        transition_index(s, id) == transition_index(s.take(k), id),
    decreases s.len() - k,
{
    if k < s.len() {
        assert(s.take(k + 1).drop_last() =~= s.take(k));
        lemma_prefix_index_transitions(s, id, k + 1);
    } else {
        assert(s.take(k) =~= s);
    }
}

/// A step removal keeps identifiers unique and below the counter.
proof fn lemma_steps_without_wf(steps: Seq<StepView>, id: u32, next: u32)
    requires
        forall|i: int| 0 <= i < steps.len() ==> #[trigger] steps[i].id < next,
        forall|i: int, j: int| 0 <= i < j < steps.len() ==> #[trigger] steps[i].id != #[trigger] steps[j].id,
    ensures
        forall|i: int| 0 <= i < steps_without(steps, id).len() ==> #[trigger] steps_without(steps, id)[i].id < next,
        forall|i: int, j: int| 0 <= i < j < steps_without(steps, id).len()
            ==> #[trigger] steps_without(steps, id)[i].id != #[trigger] steps_without(steps, id)[j].id,
    decreases steps.len(),
{
    lemma_steps_without(steps, id);
    if steps.len() > 0 {
        let p = steps.drop_last();
        lemma_steps_without(p, id);
        lemma_steps_without_wf(p, id, next);
        let r = steps_without(p, id);
        let w = steps_without(steps, id);
        assert forall|i: int, j: int| 0 <= i < j < w.len() implies #[trigger] w[i].id != #[trigger] w[j].id by {
            if j >= r.len() {
                let k = choose|k: int| 0 <= k < p.len() && p[k] == r[i];
                assert(steps[k] == p[k]);
                assert(w[j] == steps.last());
            }
        }
    }
}

/// A transition filter keeps identifiers unique and below the counter.
proof fn lemma_transitions_apart_wf(ts: Seq<TransitionView>, id: u32, next: u32)
    requires
        forall|i: int| 0 <= i < ts.len() ==> #[trigger] ts[i].id < next,
        forall|i: int, j: int| 0 <= i < j < ts.len() ==> #[trigger] ts[i].id != #[trigger] ts[j].id,
    ensures
        forall|i: int| 0 <= i < transitions_apart_from(ts, id).len() ==> #[trigger] transitions_apart_from(ts, id)[i].id < next,
        forall|i: int, j: int| 0 <= i < j < transitions_apart_from(ts, id).len()
            ==> #[trigger] transitions_apart_from(ts, id)[i].id != #[trigger] transitions_apart_from(ts, id)[j].id,
    decreases ts.len(),
{
    lemma_transitions_apart_from(ts, id);
    if ts.len() > 0 {
        let p = ts.drop_last();
        lemma_transitions_apart_from(p, id);
        lemma_transitions_apart_wf(p, id, next);
        let r = transitions_apart_from(p, id);
        let w = transitions_apart_from(ts, id);
        assert forall|i: int, j: int| 0 <= i < j < w.len() implies #[trigger] w[i].id != #[trigger] w[j].id by {
            if j >= r.len() {
                let k = choose|k: int| 0 <= k < p.len() && p[k] == r[i];
                assert(ts[k] == p[k]);
                assert(w[j] == ts.last());
            }
        }
    }
}

/// A transition filter keeps identifiers unique and below the counter.
proof fn lemma_transitions_without_wf(ts: Seq<TransitionView>, id: u32, next: u32)
    requires
        forall|i: int| 0 <= i < ts.len() ==> #[trigger] ts[i].id < next,
        forall|i: int, j: int| 0 <= i < j < ts.len() ==> #[trigger] ts[i].id != #[trigger] ts[j].id,
    ensures
        forall|i: int| 0 <= i < transitions_without(ts, id).len() ==> #[trigger] transitions_without(ts, id)[i].id < next,
        forall|i: int, j: int| 0 <= i < j < transitions_without(ts, id).len()
            ==> #[trigger] transitions_without(ts, id)[i].id != #[trigger] transitions_without(ts, id)[j].id,
    decreases ts.len(),
{
    lemma_transitions_without(ts, id);
    if ts.len() > 0 {
        let p = ts.drop_last();
        lemma_transitions_without(p, id);
        lemma_transitions_without_wf(p, id, next);
        let r = transitions_without(p, id);
        let w = transitions_without(ts, id);
        assert forall|i: int, j: int| 0 <= i < j < w.len() implies #[trigger] w[i].id != #[trigger] w[j].id by {
            if j >= r.len() {
                let k = choose|k: int| 0 <= k < p.len() && p[k] == r[i];
                assert(ts[k] == p[k]);
                assert(w[j] == ts.last());
            }
        }
    }
}

/// Law: a new step receives an identifier that no step has yet, keeps the
/// identifiers unique, and is then the step that a lookup of its identifier
/// finds.
pub proof fn law_add_step_fresh(g: GrafcetView)
    requires
        g.wf(),
        g.next_step_id < u32::MAX,
    ensures
        !g.has_step(g.next_step_id),
        g.after_add_step().wf(),
        step_index(g.after_add_step().steps, g.next_step_id) == g.steps.len(),
        g.after_add_step().steps[g.steps.len() as int] == new_step_view(g.next_step_id),
{
    let a = g.after_add_step();
    lemma_step_index(a.steps, g.next_step_id);
    assert(a.steps.drop_last() =~= g.steps);
    lemma_step_index(g.steps, g.next_step_id);
}

/// Law: after removing a step, no step has its identifier and no transition
/// leaves or reaches it; every other step and transition is kept, and the
/// identifiers stay unique.
pub proof fn law_remove_step_cascades(g: GrafcetView, id: u32)
    ensures
        !g.after_remove_step(id).has_step(id),
        forall|i: int| 0 <= i < g.after_remove_step(id).transitions.len() ==>
            (#[trigger] g.after_remove_step(id).transitions[i]).from_step != id
            && g.after_remove_step(id).transitions[i].to_step != id,
        forall|i: int| 0 <= i < g.steps.len() && #[trigger] g.steps[i].id != id
            ==> g.after_remove_step(id).steps.contains(g.steps[i]),
        g.wf() ==> g.after_remove_step(id).wf(),
{
    lemma_steps_without(g.steps, id);
    lemma_transitions_apart_from(g.transitions, id);
    if g.wf() {
        lemma_steps_without_wf(g.steps, id, g.next_step_id);
        lemma_transitions_apart_wf(g.transitions, id, g.next_trans_id);
    }
}

/// Law: a new transition receives an identifier that no transition has yet,
/// keeps the identifiers unique, and is then the transition that a lookup of
/// its identifier finds.
pub proof fn law_add_transition_fresh(g: GrafcetView, from: u32, to: u32)
    requires
        g.wf(),
        g.next_trans_id < u32::MAX,
    ensures
        !g.has_transition(g.next_trans_id),
        g.after_add_transition(from, to).wf(),
        transition_index(g.after_add_transition(from, to).transitions, g.next_trans_id)
            == g.transitions.len(),
        g.after_add_transition(from, to).transitions[g.transitions.len() as int]
            == new_transition_view(g.next_trans_id, from, to),
{
    let a = g.after_add_transition(from, to);
    lemma_transition_index(a.transitions, g.next_trans_id);
    assert(a.transitions.drop_last() =~= g.transitions);
    lemma_transition_index(g.transitions, g.next_trans_id);
}

/// Law: after removing a transition, no transition has its identifier, the
/// steps are untouched and the identifiers stay unique.
pub proof fn law_remove_transition(g: GrafcetView, id: u32)
    ensures
        !g.after_remove_transition(id).has_transition(id),
        g.after_remove_transition(id).steps == g.steps,
        g.wf() ==> g.after_remove_transition(id).wf(),
{
    lemma_transitions_without(g.transitions, id);
    if g.wf() {
        lemma_transitions_without_wf(g.transitions, id, g.next_trans_id);
    }
}

/// Every transition leaves and reaches a step of the GRAFCET.
pub open spec fn links_between_steps(g: GrafcetView) -> bool {
    forall|i: int| 0 <= i < g.transitions.len() ==> g.has_step(#[trigger] g.transitions[i].from_step)
        && g.has_step(g.transitions[i].to_step)
}

/// Law: the edits of the GRAFCET editor keep every transition between steps
/// of the GRAFCET: adding a step, removing a step (with its transitions),
/// removing a transition, and adding a transition between two of its steps.
pub proof fn law_edits_keep_links_between_steps(g: GrafcetView, id: u32, from: u32, to: u32)
    requires
        links_between_steps(g),
    ensures
        g.next_step_id < u32::MAX ==> links_between_steps(g.after_add_step()),
        links_between_steps(g.after_remove_step(id)),
        links_between_steps(g.after_remove_transition(id)),
        g.has_step(from) && g.has_step(to) && g.next_trans_id < u32::MAX ==> links_between_steps(
            g.after_add_transition(from, to),
        ),
{
    let a = g.after_add_step();
    assert forall|x: u32| g.has_step(x) implies a.has_step(x) by {
        let i = choose|i: int| 0 <= i < g.steps.len() && #[trigger] g.steps[i].id == x;
        assert(a.steps[i] == g.steps[i]);
    }
    assert forall|i: int| 0 <= i < a.transitions.len() implies a.has_step(#[trigger] a.transitions[i].from_step)
        && a.has_step(a.transitions[i].to_step) by {
        assert(g.has_step(g.transitions[i].from_step));
        assert(g.has_step(g.transitions[i].to_step));
    }
    let r = g.after_remove_step(id);
    lemma_steps_without(g.steps, id);
    lemma_transitions_apart_from(g.transitions, id);
    assert forall|x: u32| g.has_step(x) && x != id implies r.has_step(x) by {
        let i = choose|i: int| 0 <= i < g.steps.len() && #[trigger] g.steps[i].id == x;
        assert(r.steps.contains(g.steps[i]));
        let k = choose|k: int| 0 <= k < r.steps.len() && r.steps[k] == g.steps[i];
        assert(r.steps[k].id == x);
    }
    assert forall|i: int| 0 <= i < r.transitions.len() implies r.has_step(#[trigger] r.transitions[i].from_step)
        && r.has_step(r.transitions[i].to_step) by {
        let t = r.transitions[i];
        assert(g.transitions.contains(t));
        let k = choose|k: int| 0 <= k < g.transitions.len() && g.transitions[k] == t;
        assert(g.has_step(g.transitions[k].from_step) && g.has_step(g.transitions[k].to_step));
    }
    let w = g.after_remove_transition(id);
    lemma_transitions_without(g.transitions, id);
    assert forall|i: int| 0 <= i < w.transitions.len() implies w.has_step(#[trigger] w.transitions[i].from_step)
        && w.has_step(w.transitions[i].to_step) by {
        let t = w.transitions[i];
        assert(g.transitions.contains(t));
        let k = choose|k: int| 0 <= k < g.transitions.len() && g.transitions[k] == t;
        assert(g.has_step(g.transitions[k].from_step) && g.has_step(g.transitions[k].to_step));
    }
    if g.has_step(from) && g.has_step(to) && g.next_trans_id < u32::MAX {
        let h = g.after_add_transition(from, to);
        assert forall|i: int| 0 <= i < h.transitions.len() implies h.has_step(#[trigger] h.transitions[i].from_step)
            && h.has_step(h.transitions[i].to_step) by {
            if i < g.transitions.len() {
                assert(h.transitions[i] == g.transitions[i]);
            }
        }
    }
}

} // verus!
