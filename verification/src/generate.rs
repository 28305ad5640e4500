//! GRAFCETs made from a GEMMA: the safety and command GRAFCETs, the
//! GRAFCET of one closed circuit, circuit names and a text summary.
use vstd::prelude::*;
use vstd::string::*;
use crate::grafcet::{
    Grafcet, GrafcetView, Step, StepKind, StepView, Transition, TransitionView, step_index,
    lemma_step_index,
};
use crate::gemma::{Gemma, GemmaStateView, GemmaTransitionView, GemmaView, display_text, validation_errors, is_state_name};
use crate::circuits::{last_name_index, lemma_last_name_index};
use crate::questionnaire::first_link_index;
use crate::project::{NamedGrafcet, NamedGrafcetView};
use crate::text::{append_str, decimal, push_decimal, same_text, str_eq, string_of};

verus! {

// ── Safety GRAFCET (GS) ───────────────────────────────────────────────────────

/// Index of the first transition that reaches `name`, or -1.
pub open spec fn first_into(ts: Seq<GemmaTransitionView>, name: Seq<char>) -> int
    decreases ts.len(),
{
    if ts.len() == 0 {
        -1
    } else {
        let r = first_into(ts.drop_last(), name);
        if r >= 0 {
            r
        } else if ts.last().to == name {
            ts.len() - 1
        } else {
            -1
        }
    }
}

/// The emergency-stop condition: that of the first transition into D1,
/// `AU` when there is none or when it is empty or `TRUE`.
pub open spec fn aru_condition(ts: Seq<GemmaTransitionView>) -> Seq<char> {
    let k = first_into(ts, "D1"@);
    if k >= 0 {
        let c = display_text(ts[k].condition);
        if c.len() == 0 || c == "TRUE"@ {
            "AU"@
        } else {
            c
        }
    } else {
        "AU"@
    }
}

/// The safety GRAFCET: `Repos` (initial, forcing GC to its initial step) and
/// `En_service`, joined by the released emergency stop and its trigger.
pub open spec fn safety_grafcet(g: GemmaView) -> GrafcetView {
    let cond = aru_condition(g.transitions);
    GrafcetView {
        steps: seq![
            StepView { id: 0, label: "Repos"@, actions: seq!["F/GC:(0)"@], kind: StepKind::Initial, active: false },
            StepView { id: 1, label: "En_service"@, actions: Seq::empty(), kind: StepKind::Normal, active: false },
        ],
        transitions: seq![
            TransitionView { id: 0, from_step: 0, to_step: 1, condition: "/"@ + cond + "  .  Valider"@ },
            TransitionView { id: 1, from_step: 1, to_step: 0, condition: cond },
        ],
        next_step_id: 2,
        next_trans_id: 2,
        next_and_group_id: 0,
    }
}

proof fn lemma_first_into_props(ts: Seq<GemmaTransitionView>, name: Seq<char>)
    ensures
        -1 <= first_into(ts, name) < ts.len(),
        first_into(ts, name) >= 0 ==> ts[first_into(ts, name)].to == name,
        forall|j: int| 0 <= j < ts.len() && (first_into(ts, name) == -1 || j < first_into(ts, name)) ==> #[trigger] ts[j].to != name,
    decreases ts.len(),
{
    if ts.len() > 0 {
        let p = ts.drop_last();
        lemma_first_into_props(p, name);
        assert forall|j: int| 0 <= j < ts.len() && (first_into(ts, name) == -1 || j < first_into(ts, name)) implies #[trigger] ts[j].to != name by {
            if j < p.len() {
                assert(p[j] == ts[j]);
            }
        }
    }
}

/// Law: the emergency stop of the safety GRAFCET follows the first GEMMA
/// transition into D1, in the order of the transitions: its displayed
/// condition, or `AU` when that is empty or `TRUE`; `AU` when no transition
/// reaches D1. The step `Repos` leaves on the released stop and `Valider`,
/// and `En_service` returns on the stop.
pub proof fn law_safety_stop_condition(g: GemmaView)
    ensures
        (forall|k: int| 0 <= k < g.transitions.len() ==> #[trigger] g.transitions[k].to != "D1"@) ==> safety_grafcet(
            g,
        ).transitions[1].condition == "AU"@,
        forall|k: int|
            0 <= k < g.transitions.len() && #[trigger] g.transitions[k].to == "D1"@ && (forall|j: int|
                0 <= j < k ==> g.transitions[j].to != "D1"@) ==> {
                let c = display_text(g.transitions[k].condition);
                safety_grafcet(g).transitions[1].condition == if c.len() == 0 || c == "TRUE"@ {
                    "AU"@
                } else {
                    c
                }
            },
        safety_grafcet(g).transitions[0].condition == "/"@ + safety_grafcet(g).transitions[1].condition
            + "  .  Valider"@,
{
    let ts = g.transitions;
    lemma_first_into_props(ts, "D1"@);
    let r = first_into(ts, "D1"@);
    assert forall|k: int|
        0 <= k < ts.len() && #[trigger] ts[k].to == "D1"@ && (forall|j: int| 0 <= j < k ==> ts[j].to != "D1"@) implies r == k by {
        if r != k {
            if r == -1 || k < r {
            } else {
                assert(ts[r].to == "D1"@);
            }
        }
    }
    if r >= 0 {
        assert(ts[r].to == "D1"@);
    }
}

// ── Command GRAFCET (GC) ──────────────────────────────────────────────────────

/// Display order of the GEMMA states in the command GRAFCET.
pub open spec fn gc_order() -> Seq<Seq<char>> {
    seq![
        "A1"@, "A6"@, "A7"@, "F1"@, "F2"@, "F3"@, "F4"@, "F5"@, "F6"@,
        "D3"@, "D1"@, "D2"@, "A2"@, "A3"@, "A4"@, "A5"@,
    ]
}

/// Law: the command GRAFCET shows the standard states in the display order
/// of the norm: A1 A6 A7 F1 F2 F3 F4 F5 F6 D3 D1 D2 A2 A3 A4 A5.
pub proof fn law_command_display_order()
    ensures
        gc_order() == seq![
            "A1"@, "A6"@, "A7"@, "F1"@, "F2"@, "F3"@, "F4"@, "F5"@, "F6"@,
            "D3"@, "D1"@, "D2"@, "A2"@, "A3"@, "A4"@, "A5"@,
        ],
{
}

/// The codes of `codes` that name a state, in their order.
pub open spec fn present_codes(codes: Seq<Seq<char>>, states: Seq<GemmaStateView>) -> Seq<Seq<char>>
    decreases codes.len(),
{
    if codes.len() == 0 {
        Seq::empty()
    } else {
        let r = present_codes(codes.drop_last(), states);
        if is_state_name(states, codes.last()) {
            r.push(codes.last())
        } else {
            r
        }
    }
}

/// The names of the states that are not in the display order, in their order.
pub open spec fn extra_names(states: Seq<GemmaStateView>) -> Seq<Seq<char>>
    decreases states.len(),
{
    if states.len() == 0 {
        Seq::empty()
    } else {
        let r = extra_names(states.drop_last());
        if !gc_order().contains(states.last().id) {
            r.push(states.last().id)
        } else {
            r
        }
    }
}

/// The state names of the command GRAFCET, one per step.
pub open spec fn gc_names(g: GemmaView) -> Seq<Seq<char>> {
    present_codes(gc_order(), g.states) + extra_names(g.states)
}

/// Action of the step of a state: `Start_G_PN` for F1, `Start_G_<name>`
/// otherwise.
pub open spec fn start_action(name: Seq<char>) -> Seq<char> {
    if name == "F1"@ {
        "Start_G_PN"@
    } else {
        "Start_G_"@ + name
    }
}

/// The step of the command GRAFCET for state `name`.
pub open spec fn gc_step(i: int, name: Seq<char>) -> StepView {
    StepView {
        id: i as u32,
        label: "\""@ + name + "\""@,
        actions: seq![start_action(name)],
        kind: if name == "A1"@ {
            StepKind::Initial
        } else {
            StepKind::Normal
        },
        active: false,
    }
}

/// Condition of a command transition: `1` when the GEMMA condition is empty or
/// `TRUE`.
pub open spec fn gc_condition(c: Seq<char>) -> Seq<char> {
    if c.len() == 0 || c == "TRUE"@ {
        "1"@
    } else {
        c
    }
}

/// The command transitions: one per GEMMA transition whose two states have a
/// step (the last step of that name).
pub open spec fn gc_transitions(names: Seq<Seq<char>>, ts: Seq<GemmaTransitionView>) -> Seq<TransitionView>
    decreases ts.len(),
{
    if ts.len() == 0 {
        Seq::empty()
    } else {
        let r = gc_transitions(names, ts.drop_last());
        let t = ts.last();
        let a = last_name_index(names, t.from);
        let b = last_name_index(names, t.to);
        if a >= 0 && b >= 0 {
            r.push(TransitionView {
                id: r.len() as u32,
                from_step: a as u32,
                to_step: b as u32,
                condition: gc_condition(display_text(t.condition)),
            })
        } else {
            r
        }
    }
}

/// The command GRAFCET: one step per GEMMA state, every GEMMA transition.
pub open spec fn command_grafcet(g: GemmaView) -> GrafcetView {
    let names = gc_names(g);
    GrafcetView {
        steps: Seq::new(names.len(), |i: int| gc_step(i, names[i])),
        transitions: gc_transitions(names, g.transitions),
        next_step_id: names.len() as u32,
        next_trans_id: gc_transitions(names, g.transitions).len() as u32,
        next_and_group_id: 0,
    }
}

/// A generated GRAFCET of the given name.
pub open spec fn generated_named(name: Seq<char>, g: GrafcetView) -> NamedGrafcetView {
    NamedGrafcetView { name, short_name: None, description: None, grafcet: g, generated: true }
}

proof fn lemma_present_codes_len(codes: Seq<Seq<char>>, states: Seq<GemmaStateView>)
    ensures
        present_codes(codes, states).len() <= codes.len(),
    decreases codes.len(),
{
    if codes.len() > 0 {
        lemma_present_codes_len(codes.drop_last(), states);
    }
}

proof fn lemma_extra_names_len(states: Seq<GemmaStateView>)
    ensures
        extra_names(states).len() <= states.len(),
    decreases states.len(),
{
    if states.len() > 0 {
        lemma_extra_names_len(states.drop_last());
    }
}

proof fn lemma_gc_transitions_len(names: Seq<Seq<char>>, ts: Seq<GemmaTransitionView>)
    ensures
        gc_transitions(names, ts).len() <= ts.len(),
    decreases ts.len(),
{
    if ts.len() > 0 {
        lemma_gc_transitions_len(names, ts.drop_last());
    }
}

/// A step with one action.
fn make_step(id: u32, label: String, action: Option<String>, kind: StepKind) -> (s: Step)
    ensures
        s@ == (StepView {
            id,
            label: label@,
            actions: match action {
                Some(a) => seq![a@],
                None => Seq::empty(),
            },
            kind,
            active: false,
        }),
{
    let mut actions: Vec<String> = Vec::new();
    let ghost av = match &action {
        Some(a) => seq![a@],
        None => Seq::<Seq<char>>::empty(),
    };
    match action {
        Some(a) => {
            actions.push(a);
        },
        None => {},
    }
    assert(actions.deep_view() =~= av);
    Step { id, label, actions, kind, active: false }
}

/// A transition with the given condition.
fn make_transition(id: u32, from_step: u32, to_step: u32, condition: String) -> (t: Transition)
    ensures
        t@ == (TransitionView { id, from_step, to_step, condition: condition@ }),
{
    Transition { id, from_step, to_step, condition }
}

/// The emergency-stop condition of the GEMMA (see `aru_condition`).
fn aru_condition_of(gemma: &Gemma) -> (r: String)
    ensures
        r@ == aru_condition(gemma@.transitions),
{
    let ghost ts = gemma@.transitions;
    let n = gemma.transitions.len();
    let mut i: usize = 0;
    while i < n
        invariant
            n == gemma.transitions@.len(),
            ts == gemma@.transitions,
            0 <= i <= n,
            first_into(ts.take(i as int), "D1"@) == -1,
        decreases n - i,
    {
        assert(ts.take(i + 1).drop_last() =~= ts.take(i as int));
        assert(ts.take(i + 1).last() == ts[i as int]);
        if str_eq(gemma.transitions[i].to.as_str(), "D1") {
            proof {
                lemma_prefix_into(ts, "D1"@, i + 1);
            }
            let c = gemma.transitions[i].condition.to_display();
            if c.as_str().unicode_len() == 0 || str_eq(c.as_str(), "TRUE") {
                return string_of("AU");
            } else {
                return c;
            }
        }
        i = i + 1;
    }
    assert(ts.take(n as int) =~= ts);
    string_of("AU")
}

proof fn lemma_prefix_into(s: Seq<GemmaTransitionView>, name: Seq<char>, k: int)
    requires
        0 <= k <= s.len(),
        first_into(s.take(k), name) >= 0,
    ensures
        first_into(s, name) == first_into(s.take(k), name),
    decreases s.len() - k,
{
    if k < s.len() {
        assert(s.take(k + 1).drop_last() =~= s.take(k));
        lemma_prefix_into(s, name, k + 1);
    } else {
        assert(s.take(k) =~= s);
    }
}

/// The safety GRAFCET of the GEMMA (see `safety_grafcet`).
fn safety_grafcet_of(gemma: &Gemma) -> (ng: NamedGrafcet)
    ensures
        ng@ == generated_named("GS"@, safety_grafcet(gemma@)),
{
    let cond = aru_condition_of(gemma);
    let ghost sg = safety_grafcet(gemma@);
    let mut g = Grafcet::new();
    g.steps.push(make_step(0, string_of("Repos"), Some(string_of("F/GC:(0)")), StepKind::Initial));
    assert(g@.steps =~= seq![sg.steps[0]]);
    g.steps.push(make_step(1, string_of("En_service"), None, StepKind::Normal));
    assert(g@.steps =~= seq![sg.steps[0]].push(sg.steps[1]));
    g.next_step_id = 2;
    let mut c0 = string_of("/");
    append_str(&mut c0, cond.as_str());
    append_str(&mut c0, "  .  Valider");
    g.transitions.push(make_transition(0, 0, 1, c0));
    assert(g@.transitions =~= seq![sg.transitions[0]]);
    g.transitions.push(make_transition(1, 1, 0, cond));
    assert(g@.transitions =~= seq![sg.transitions[0]].push(sg.transitions[1]));
    g.next_trans_id = 2;
    let ng = NamedGrafcet { name: string_of("GS"), short_name: None, description: None, grafcet: g, generated: true };
    assert(ng@.grafcet.steps =~~= safety_grafcet(gemma@).steps);
    assert(ng@.grafcet.transitions =~~= safety_grafcet(gemma@).transitions);
    ng
}

/// The display order of the command GRAFCET.
fn gc_order_codes() -> (r: Vec<&'static str>)
    ensures
        r@.len() == gc_order().len(),
        forall|i: int| 0 <= i < r@.len() ==> (#[trigger] r@[i])@ == gc_order()[i],
{
    vec!["A1", "A6", "A7", "F1", "F2", "F3", "F4", "F5", "F6", "D3", "D1", "D2", "A2", "A3", "A4", "A5"]
}

/// The state names of the command GRAFCET (see `gc_names`).
fn gc_names_of(gemma: &Gemma) -> (r: Vec<String>)
    ensures
        r.deep_view() == gc_names(gemma@),
{
    let ghost g = gemma@;
    let codes = gc_order_codes();
    let ghost co = gc_order();
    let mut names: Vec<String> = Vec::new();
    let nc = codes.len();
    let mut i: usize = 0;
    while i < nc
        invariant
            nc == codes@.len(),
            co == gc_order(),
            co.len() == nc,
            forall|j: int| 0 <= j < nc ==> (#[trigger] codes@[j])@ == co[j],
            g == gemma@,
            0 <= i <= nc,
            names.deep_view() == present_codes(co.take(i as int), g.states),
        decreases nc - i,
    {
        assert(co.take(i + 1).drop_last() =~= co.take(i as int));
        assert(co.take(i + 1).last() == co[i as int]);
        if gemma.has_state(codes[i]) {
            let ghost before = names.deep_view();
            names.push(string_of(codes[i]));
            assert(names.deep_view() =~= before.push(co[i as int]));
        }
        i = i + 1;
    }
    assert(co.take(nc as int) =~= co);
    let ghost base = names.deep_view();
    let ns = gemma.states.len();
    let mut k: usize = 0;
    while k < ns
        invariant
            ns == gemma.states@.len(),
            nc == codes@.len(),
            co == gc_order(),
            co.len() == nc,
            forall|j: int| 0 <= j < nc ==> (#[trigger] codes@[j])@ == co[j],
            g == gemma@,
            0 <= k <= ns,
            names.deep_view() == base + extra_names(g.states.take(k as int)),
        decreases ns - k,
    {
        assert(g.states.take(k + 1).drop_last() =~= g.states.take(k as int));
        assert(g.states.take(k + 1).last() == g.states[k as int]);
        let id = &gemma.states[k].id;
        let mut listed = false;
        let mut j: usize = 0;
        while j < nc
            invariant
                nc == codes@.len(),
                co.len() == nc,
                forall|m: int| 0 <= m < nc ==> (#[trigger] codes@[m])@ == co[m],
                0 <= j <= nc,
                listed == exists|m: int| 0 <= m < j && co[m] == id@,
            decreases nc - j,
        {
            if str_eq(codes[j], id.as_str()) {
                listed = true;
            }
            j = j + 1;
        }
        assert(listed == co.contains(id@));
        if !listed {
            let ghost before = names.deep_view();
            names.push(id.clone());
            assert(names.deep_view() =~= before.push(id@));
        }
        k = k + 1;
        assert(names.deep_view() =~= base + extra_names(g.states.take(k as int)));
    }
    assert(g.states.take(ns as int) =~= g.states);
    names
}

/// Index of the last name equal to `s` in `names`.
fn last_position(names: &Vec<String>, s: &String) -> (r: Option<usize>)
    ensures
        match r {
            Some(i) => i as int == last_name_index(names.deep_view(), s@),
            None => last_name_index(names.deep_view(), s@) == -1,
        },
{
    let ghost ids = names.deep_view();
    let n = names.len();
    let mut r: Option<usize> = None;
    let mut i: usize = 0;
    while i < n
        invariant
            n == names@.len(),
            ids == names.deep_view(),
            0 <= i <= n,
            match r {
                Some(j) => j as int == last_name_index(ids.take(i as int), s@),
                None => last_name_index(ids.take(i as int), s@) == -1,
            },
        decreases n - i,
    {
        assert(ids.take(i + 1).drop_last() =~= ids.take(i as int));
        assert(ids.take(i + 1).last() == names@[i as int]@);
        if same_text(&names[i], s) {
            r = Some(i);
        }
        i = i + 1;
    }
    assert(ids.take(n as int) =~= ids);
    r
}

proof fn lemma_last_name_index_bound(ids: Seq<Seq<char>>, s: Seq<char>)
    ensures
        -1 <= last_name_index(ids, s) < ids.len(),
    decreases ids.len(),
{
    if ids.len() > 0 {
        lemma_last_name_index_bound(ids.drop_last(), s);
    }
}

/// The command GRAFCET of the GEMMA (see `command_grafcet`).
fn command_grafcet_of(gemma: &Gemma) -> (ng: NamedGrafcet)
    requires
        gemma@.states.len() + 16 < u32::MAX,
        gemma@.transitions.len() < u32::MAX,
    ensures
        ng@ == generated_named("GC"@, command_grafcet(gemma@)),
{
    let ghost g = gemma@;
    let names = gc_names_of(gemma);
    let ghost nv = names.deep_view();
    proof {
        lemma_present_codes_len(gc_order(), g.states);
        lemma_extra_names_len(g.states);
    }
    let mut gr = Grafcet::new();
    let n = names.len();
    let mut i: usize = 0;
    while i < n
        invariant
            n == names@.len(),
            nv == names.deep_view(),
            nv == gc_names(g),
            n < u32::MAX,
            0 <= i <= n,
            gr@.steps =~= Seq::new(i as nat, |k: int| gc_step(k, nv[k])),
            gr@.transitions.len() == 0,
            gr.next_step_id == i,
            gr.next_trans_id == 0,
            gr.next_and_group_id == 0,
        decreases n - i,
    {
        let name = &names[i];
        assert(name@ == nv[i as int]);
        let mut label = string_of("\"");
        append_str(&mut label, name.as_str());
        append_str(&mut label, "\"");
        let action = if str_eq(name.as_str(), "F1") {
            string_of("Start_G_PN")
        } else {
            let mut a = string_of("Start_G_");
            append_str(&mut a, name.as_str());
            a
        };
        let kind = if str_eq(name.as_str(), "A1") {
            StepKind::Initial
        } else {
            StepKind::Normal
        };
        let ghost before = gr@.steps;
        gr.steps.push(make_step(i as u32, label, Some(action), kind));
        gr.next_step_id = (i + 1) as u32;
        i = i + 1;
        assert(gr@.steps =~= before.push(gc_step(i - 1, nv[i - 1])));
        assert(gr@.steps =~= Seq::new(i as nat, |k: int| gc_step(k, nv[k])));
    }
    let ghost ts = g.transitions;
    let nt = gemma.transitions.len();
    let mut j: usize = 0;
    while j < nt
        invariant
            nt == gemma.transitions@.len(),
            nt < u32::MAX,
            ts == gemma@.transitions,
            g == gemma@,
            nv == names.deep_view(),
            nv == gc_names(g),
            n == names@.len(),
            n < u32::MAX,
            0 <= j <= nt,
            gr@.steps =~= Seq::new(n as nat, |k: int| gc_step(k, nv[k])),
            gr@.transitions == gc_transitions(nv, ts.take(j as int)),
            gr.next_step_id == n,
            gr.next_trans_id as nat == gr@.transitions.len(),
            gr.next_and_group_id == 0,
        decreases nt - j,
    {
        proof {
            lemma_gc_transitions_len(nv, ts.take(j as int));
        }
        assert(ts.take(j + 1).drop_last() =~= ts.take(j as int));
        assert(ts.take(j + 1).last() == ts[j as int]);
        let t = &gemma.transitions[j];
        assert(t@ == ts[j as int]);
        let a = last_position(&names, &t.from);
        let b = last_position(&names, &t.to);
        proof {
            lemma_last_name_index_bound(nv, t.from@);
            lemma_last_name_index_bound(nv, t.to@);
        }
        match (a, b) {
            (Some(a), Some(b)) => {
                let c = t.condition.to_display();
                let cond = if c.as_str().unicode_len() == 0 || str_eq(c.as_str(), "TRUE") {
                    string_of("1")
                } else {
                    c
                };
                let id = gr.next_trans_id;
                let ghost before = gr@.transitions;
                gr.transitions.push(make_transition(id, a as u32, b as u32, cond));
                gr.next_trans_id = id + 1;
                assert(gr@.transitions =~= before.push(TransitionView {
                    id: before.len() as u32,
                    from_step: a as u32,
                    to_step: b as u32,
                    condition: gc_condition(display_text(ts[j as int].condition)),
                }));
            },
            _ => {},
        }
        j = j + 1;
    }
    assert(ts.take(nt as int) =~= ts);
    let ng = NamedGrafcet { name: string_of("GC"), short_name: None, description: None, grafcet: gr, generated: true };
    assert(ng@.grafcet.steps =~= command_grafcet(g).steps);
    ng
}

/// Regenerates the GRAFCETs of the GEMMA: fails with the validation
/// messages when the GEMMA is not valid (see `Gemma::validate`); otherwise
/// the safety GRAFCET `GS` and the command GRAFCET `GC`, both marked as
/// generated.
pub fn generate_grafcets(gemma: &Gemma) -> (r: Result<Vec<NamedGrafcet>, Vec<String>>)
    requires
        gemma@.states.len() + 16 < u32::MAX,
        gemma@.transitions.len() < u32::MAX,
    ensures
        match r {
            Err(v) => validation_errors(gemma@.states, gemma@.transitions).len() > 0
                && v.deep_view() == validation_errors(gemma@.states, gemma@.transitions),
            Ok(v) => {
                &&& validation_errors(gemma@.states, gemma@.transitions).len() == 0
                &&& v@.len() == 2
                &&& v@[0]@ == generated_named("GS"@, safety_grafcet(gemma@))
                &&& v@[1]@ == generated_named("GC"@, command_grafcet(gemma@))
            },
        },
{
    match gemma.validate() {
        Err(errors) => Err(errors),
        Ok(()) => {
            let mut out: Vec<NamedGrafcet> = Vec::new();
            out.push(safety_grafcet_of(gemma));
            out.push(command_grafcet_of(gemma));
            Ok(out)
        },
    }
}

/// Status line when the GEMMA is refused: its messages joined by ` | `.
pub fn invalid_gemma_status(errors: &[String]) -> (r: String)
    ensures
        r@ == "GEMMA invalide : "@ + joined(errors.deep_view(), " | "@),
{
    let mut r = string_of("GEMMA invalide : ");
    let j = join_names(errors, " | ");
    append_str(&mut r, j.as_str());
    r
}

// ── GRAFCET of one circuit ────────────────────────────────────────────────────

/// Condition of the first GEMMA transition from `a` to `b` as displayed, `1`
/// when there is none.
pub open spec fn link_condition(ts: Seq<GemmaTransitionView>, a: Seq<char>, b: Seq<char>) -> Seq<char> {
    let k = first_link_index(ts, a, b);
    if k >= 0 {
        display_text(ts[k].condition)
    } else {
        "1"@
    }
}

/// The GRAFCET of a circuit: one step per state (the first one initial), and
/// a transition from each step to the next, the last back to the first.
pub open spec fn circuit_grafcet(g: GemmaView, c: Seq<Seq<char>>) -> GrafcetView {
    let n = c.len();
    GrafcetView {
        steps: Seq::new(n, |i: int| StepView {
            id: i as u32,
            label: c[i],
            actions: Seq::empty(),
            kind: if i == 0 { StepKind::Initial } else { StepKind::Normal },
            active: false,
        }),
        transitions: Seq::new(n, |i: int| TransitionView {
            id: i as u32,
            from_step: i as u32,
            to_step: ((i + 1) % (n as int)) as u32,
            condition: link_condition(g.transitions, c[i], c[(i + 1) % (n as int)]),
        }),
        next_step_id: n as u32,
        next_trans_id: n as u32,
        next_and_group_id: 0,
    }
}

proof fn lemma_first_link_props(ts: Seq<GemmaTransitionView>, a: Seq<char>, b: Seq<char>)
    ensures
        -1 <= first_link_index(ts, a, b) < ts.len(),
        first_link_index(ts, a, b) >= 0 ==> ts[first_link_index(ts, a, b)].from == a && ts[first_link_index(ts, a, b)].to == b,
        forall|j: int| 0 <= j < ts.len() && (first_link_index(ts, a, b) == -1 || j < first_link_index(ts, a, b))
            ==> !(#[trigger] ts[j].from == a && ts[j].to == b),
    decreases ts.len(),
{
    if ts.len() > 0 {
        let p = ts.drop_last();
        lemma_first_link_props(p, a, b);
        assert forall|j: int| 0 <= j < ts.len() && (first_link_index(ts, a, b) == -1 || j < first_link_index(ts, a, b))
            implies !(#[trigger] ts[j].from == a && ts[j].to == b) by {
            if j < p.len() {
                assert(p[j] == ts[j]);
            }
        }
    }
}

/// Law: the GRAFCET of a circuit has one transition per state of the
/// circuit, from its step to the next one and from the last back to the
/// first, each with the displayed condition of the first GEMMA transition
/// (in their order) between the two states, or `1` when there is none.
pub proof fn law_circuit_transition_conditions(g: GemmaView, c: Seq<Seq<char>>)
    requires
        c.len() < u32::MAX,
    ensures
        circuit_grafcet(g, c).transitions.len() == c.len(),
        circuit_grafcet(g, c).steps.len() == c.len(),
        forall|i: int| 0 <= i < c.len() ==> {
            let st = #[trigger] circuit_grafcet(g, c).steps[i];
            &&& st.id == i
            &&& st.label == c[i]
            &&& st.actions.len() == 0
            &&& (st.kind == StepKind::Initial <==> i == 0)
        },
        forall|i: int| 0 <= i < c.len() ==> {
            let t = #[trigger] circuit_grafcet(g, c).transitions[i];
            let a = c[i];
            let b = c[(i + 1) % (c.len() as int)];
            &&& t.from_step == i
            &&& t.to_step == (if i + 1 < c.len() { i + 1 } else { 0 })
            &&& (forall|k: int| 0 <= k < g.transitions.len() ==> !(#[trigger] g.transitions[k].from == a
                && g.transitions[k].to == b)) ==> t.condition == "1"@
            &&& forall|k: int|
                0 <= k < g.transitions.len() && #[trigger] g.transitions[k].from == a && g.transitions[k].to == b
                    && (forall|j: int| 0 <= j < k ==> !(g.transitions[j].from == a && g.transitions[j].to == b))
                    ==> t.condition == display_text(g.transitions[k].condition)
        },
{
    let n = c.len() as int;
    let ts = g.transitions;
    assert forall|i: int| 0 <= i < n implies {
        let t = #[trigger] circuit_grafcet(g, c).transitions[i];
        let a = c[i];
        let b = c[(i + 1) % n];
        &&& t.from_step == i
        &&& t.to_step == (if i + 1 < n { i + 1 } else { 0 })
        &&& (forall|k: int| 0 <= k < ts.len() ==> !(#[trigger] ts[k].from == a && ts[k].to == b)) ==> t.condition == "1"@
        &&& forall|k: int|
            0 <= k < ts.len() && #[trigger] ts[k].from == a && ts[k].to == b && (forall|j: int|
                0 <= j < k ==> !(ts[j].from == a && ts[j].to == b)) ==> t.condition == display_text(ts[k].condition)
    } by {
        let a = c[i];
        let b = c[(i + 1) % n];
        if i + 1 < n {
            vstd::arithmetic::div_mod::lemma_small_mod((i + 1) as nat, n as nat);
        } else {
            vstd::arithmetic::div_mod::lemma_mod_self_0(n);
        }
        lemma_first_link_props(ts, a, b);
        let r = first_link_index(ts, a, b);
        if r >= 0 {
            assert(ts[r].from == a && ts[r].to == b);
        }
        assert forall|k: int|
            0 <= k < ts.len() && #[trigger] ts[k].from == a && ts[k].to == b && (forall|j: int|
                0 <= j < k ==> !(ts[j].from == a && ts[j].to == b)) implies r == k by {
            if r != k {
                if r == -1 || k < r {
                    assert(!(ts[k].from == a && ts[k].to == b));
                } else {
                    assert(ts[r].from == a && ts[r].to == b);
                }
            }
        }
    }
}

/// Condition of the first transition from `a` to `b` (see `link_condition`).
fn link_condition_of(gemma: &Gemma, a: &String, b: &String) -> (r: String)
    ensures
        r@ == link_condition(gemma@.transitions, a@, b@),
{
    let ghost ts = gemma@.transitions;
    let n = gemma.transitions.len();
    let mut i: usize = 0;
    while i < n
        invariant
            n == gemma.transitions@.len(),
            ts == gemma@.transitions,
            0 <= i <= n,
            first_link_index(ts.take(i as int), a@, b@) == -1,
        decreases n - i,
    {
        assert(ts.take(i + 1).drop_last() =~= ts.take(i as int));
        assert(ts.take(i + 1).last() == ts[i as int]);
        let t = &gemma.transitions[i];
        if same_text(&t.from, a) && same_text(&t.to, b) {
            proof {
                lemma_prefix_link_g(ts, a@, b@, i + 1);
            }
            return t.condition.to_display();
        }
        i = i + 1;
    }
    assert(ts.take(n as int) =~= ts);
    string_of("1")
}

proof fn lemma_prefix_link_g(s: Seq<GemmaTransitionView>, from: Seq<char>, to: Seq<char>, k: int)
    requires
        0 <= k <= s.len(),
        first_link_index(s.take(k), from, to) >= 0,
    ensures
        first_link_index(s, from, to) == first_link_index(s.take(k), from, to),
    decreases s.len() - k,
{
    if k < s.len() {
        assert(s.take(k + 1).drop_last() =~= s.take(k));
        lemma_prefix_link_g(s, from, to, k + 1);
    } else {
        assert(s.take(k) =~= s);
    }
}

/// Turns a GEMMA circuit (ordered state names, implicit return to the first)
/// into a GRAFCET laid out vertically (see `circuit_grafcet`); the empty
/// circuit gives an empty GRAFCET.
pub fn circuit_to_grafcet(gemma: &Gemma, circuit: &[String]) -> (g: Grafcet)
    requires
        circuit@.len() < u32::MAX,
    ensures
        g@ == circuit_grafcet(gemma@, circuit.deep_view()),
{
    let ghost c = circuit.deep_view();
    let n = circuit.len();
    let mut g = Grafcet::new();
    if n == 0 {
        assert(g@.steps =~= circuit_grafcet(gemma@, c).steps);
        assert(g@.transitions =~= circuit_grafcet(gemma@, c).transitions);
        return g;
    }
    let mut i: usize = 0;
    while i < n
        invariant
            n == circuit@.len(),
            c == circuit.deep_view(),
            n < u32::MAX,
            0 <= i <= n,
            g@.steps =~= Seq::new(i as nat, |k: int| StepView {
                id: k as u32,
                label: c[k],
                actions: Seq::empty(),
                kind: if k == 0 { StepKind::Initial } else { StepKind::Normal },
                active: false,
            }),
            g@.transitions.len() == 0,
            g.next_step_id == i,
            g.next_trans_id == 0,
            g.next_and_group_id == 0,
        decreases n - i,
    {
        let kind = if i == 0 {
            StepKind::Initial
        } else {
            StepKind::Normal
        };
        assert(circuit@[i as int]@ == c[i as int]);
        let ghost before = g@.steps;
        let label = circuit[i].clone();
        g.steps.push(make_step(i as u32, label, None, kind));
        g.next_step_id = (i + 1) as u32;
        i = i + 1;
        assert(g@.steps =~= before.push(StepView {
            id: (i - 1) as u32,
            label: c[i - 1],
            actions: Seq::empty(),
            kind: if i - 1 == 0 { StepKind::Initial } else { StepKind::Normal },
            active: false,
        }));
    }
    let mut i: usize = 0;
    while i < n
        invariant
            n == circuit@.len(),
            n > 0,
            c == circuit.deep_view(),
            n < u32::MAX,
            0 <= i <= n,
            g@.steps =~= circuit_grafcet(gemma@, c).steps,
            g@.transitions =~= circuit_grafcet(gemma@, c).transitions.take(i as int),
            g.next_step_id == n,
            g.next_trans_id == i,
            g.next_and_group_id == 0,
        decreases n - i,
    {
        let next = if i + 1 == n { 0 } else { i + 1 };
        assert(next as int == (i + 1) % (n as int)) by (nonlinear_arith)
            requires
                next == (if i + 1 == n { 0 } else { i + 1 }),
                0 <= i < n,
        ;
        assert(circuit@[i as int]@ == c[i as int]);
        assert(circuit@[next as int]@ == c[next as int]);
        let cond = link_condition_of(gemma, &circuit[i], &circuit[next]);
        let ghost before = g@.transitions;
        g.transitions.push(make_transition(i as u32, i as u32, next as u32, cond));
        g.next_trans_id = (i + 1) as u32;
        i = i + 1;
        assert(g@.transitions =~= before.push(circuit_grafcet(gemma@, c).transitions[i - 1]));
    }
    assert(circuit_grafcet(gemma@, c).transitions.take(n as int) =~= circuit_grafcet(gemma@, c).transitions);
    g
}

// ── Circuit names ─────────────────────────────────────────────────────────────

/// `names` joined by `sep`.
pub open spec fn joined(names: Seq<Seq<char>>, sep: Seq<char>) -> Seq<char>
    decreases names.len(),
{
    if names.len() == 0 {
        Seq::empty()
    } else if names.len() == 1 {
        names[0]
    } else {
        joined(names.drop_last(), sep) + sep + names.last()
    }
}

/// Short tab name of a circuit: its states joined by `→` when there are at
/// most four, otherwise `first→…→last`.
pub open spec fn short_circuit_name(c: Seq<Seq<char>>) -> Seq<char> {
    if c.len() <= 4 {
        joined(c, "→"@)
    } else {
        c[0] + "→…→"@ + c.last()
    }
}

/// `names` joined by `sep`.
pub(crate) fn join_names(names: &[String], sep: &str) -> (r: String)
    ensures
        r@ == joined(names.deep_view(), sep@),
{
    let ghost nv = names.deep_view();
    let mut r = String::new();
    let n = names.len();
    let mut i: usize = 0;
    while i < n
        invariant
            n == names@.len(),
            nv == names.deep_view(),
            0 <= i <= n,
            r@ == joined(nv.take(i as int), sep@),
        decreases n - i,
    {
        assert(nv.take(i + 1).drop_last() =~= nv.take(i as int));
        assert(nv.take(i + 1).last() == names@[i as int]@);
        if i > 0 {
            append_str(&mut r, sep);
        } else {
            assert(nv.take(1)[0] == nv[0]);
        }
        append_str(&mut r, names[i].as_str());
        i = i + 1;
    }
    assert(nv.take(n as int) =~= nv);
    r
}

/// Short tab name of a circuit (see `short_circuit_name`).
pub fn circuit_short_name(circuit: &[String]) -> (r: String)
    ensures
        r@ == short_circuit_name(circuit.deep_view()),
{
    let n = circuit.len();
    if n <= 4 {
        join_names(circuit, "→")
    } else {
        let mut r = circuit[0].clone();
        append_str(&mut r, "→…→");
        append_str(&mut r, circuit[n - 1].as_str());
        r
    }
}

pub open spec fn has_name(c: Seq<Seq<char>>, id: Seq<char>) -> bool {
    c.contains(id)
}

/// Whether some name of the circuit starts with `letter`.
pub open spec fn some_starts_with(c: Seq<Seq<char>>, letter: char) -> bool {
    exists|i: int| 0 <= i < c.len() && (#[trigger] c[i]).len() > 0 && c[i][0] == letter
}

/// The name of the circuit in the list of possible closed circuits of a
/// GEMMA, if it is one of them.
pub open spec fn listed_title(c: Seq<Seq<char>>) -> Option<Seq<char>> {
    let n = c.len();
    if n == 2 && has_name(c, "A1"@) && has_name(c, "F1"@) {
        Some("Production continue"@)
    } else if n == 3 && has_name(c, "A1"@) && has_name(c, "F1"@) && has_name(c, "A2"@) {
        Some("Cycle principal de production"@)
    } else if n == 3 && has_name(c, "A1"@) && has_name(c, "F1"@) && has_name(c, "F3"@) {
        Some("Clôture de cycle"@)
    } else if n == 3 && has_name(c, "F1"@) && has_name(c, "A3"@) && has_name(c, "A4"@) {
        Some("Arrêt immédiat sécurisé"@)
    } else if n == 2 && has_name(c, "F1"@) && has_name(c, "D3"@) {
        Some("Défaut mineur"@)
    } else if n == 2 && has_name(c, "A7"@) && has_name(c, "F6"@) {
        Some("Mode test"@)
    } else if n == 2 && has_name(c, "A1"@) && has_name(c, "F4"@) {
        Some("Vérification libre"@)
    } else if n == 2 && has_name(c, "A1"@) && has_name(c, "F5"@) {
        Some("Vérification séquentielle"@)
    } else if n == 4 && has_name(c, "A5"@) && has_name(c, "A7"@) && has_name(c, "A4"@) && has_name(c, "F1"@) {
        Some("Mode réglage via A4"@)
    } else if n == 4 && has_name(c, "A1"@) && has_name(c, "F2"@) && has_name(c, "F1"@) && has_name(c, "A2"@) {
        Some("Préparation machine"@)
    } else if has_name(c, "F1"@) && has_name(c, "D1"@) && has_name(c, "D2"@) && has_name(c, "A5"@) && has_name(c, "A6"@) {
        Some("Gestion des défauts"@)
    } else if has_name(c, "A5"@) && has_name(c, "A7"@) && has_name(c, "A6"@) && has_name(c, "A1"@) && has_name(c, "F1"@) {
        Some("Mode réglage via A6"@)
    } else {
        None
    }
}

/// The category of a circuit that is not listed: a fault when one of its
/// states starts with `D`, a stop when it holds A3 or A4, running when one of
/// its states starts with `F`, a cycle otherwise.
pub open spec fn circuit_category(c: Seq<Seq<char>>) -> Seq<char> {
    if some_starts_with(c, 'D') {
        "Défaut"@
    } else if has_name(c, "A3"@) || has_name(c, "A4"@) {
        "Arrêt"@
    } else if some_starts_with(c, 'F') {
        "Fonctionnement"@
    } else {
        "Cycle"@
    }
}

/// Descriptive name of a circuit, after the list of possible closed circuits
/// of a GEMMA; otherwise a category and the path.
pub open spec fn circuit_title(c: Seq<Seq<char>>) -> Seq<char> {
    match listed_title(c) {
        Some(t) => t,
        None => circuit_category(c) + ": "@ + joined(c, " → "@),
    }
}

/// The name of a circuit does not depend on the order of its states: two
/// circuits with the same states (counted with their repetitions) have the
/// same listed name, or none and the same category.
pub proof fn law_circuit_name_order_free(c1: Seq<Seq<char>>, c2: Seq<Seq<char>>)
    requires
        c1.to_multiset() == c2.to_multiset(),
    ensures
        listed_title(c1) == listed_title(c2),
        circuit_category(c1) == circuit_category(c2),
        listed_title(c1) matches Some(t) ==> circuit_title(c1) == t && circuit_title(c2) == t,
{
    broadcast use vstd::seq_lib::to_multiset_len, vstd::seq_lib::to_multiset_contains;
    assert(c1.len() == c2.len()) by {
        vstd::seq_lib::to_multiset_len(c1);
        vstd::seq_lib::to_multiset_len(c2);
    }
    assert forall|x: Seq<char>| has_name(c1, x) <==> has_name(c2, x) by {
        assert(c1.contains(x) <==> c1.to_multiset().count(x) > 0);
        assert(c2.contains(x) <==> c2.to_multiset().count(x) > 0);
    }
    assert forall|l: char| some_starts_with(c1, l) <==> some_starts_with(c2, l) by {
        if some_starts_with(c1, l) {
            let i = choose|i: int| 0 <= i < c1.len() && (#[trigger] c1[i]).len() > 0 && c1[i][0] == l;
            assert(has_name(c1, c1[i]));
            assert(has_name(c2, c1[i]));
            let j = choose|j: int| 0 <= j < c2.len() && c2[j] == c1[i];
            assert(c2[j].len() > 0 && c2[j][0] == l);
        }
        if some_starts_with(c2, l) {
            let i = choose|i: int| 0 <= i < c2.len() && (#[trigger] c2[i]).len() > 0 && c2[i][0] == l;
            assert(has_name(c2, c2[i]));
            assert(has_name(c1, c2[i]));
            let j = choose|j: int| 0 <= j < c1.len() && c1[j] == c2[i];
            assert(c1[j].len() > 0 && c1[j][0] == l);
        }
    }
}

/// Whether the circuit holds `id`.
fn holds(circuit: &[String], id: &str) -> (r: bool)
    ensures
        r == has_name(circuit.deep_view(), id@),
{
    let n = circuit.len();
    let mut i: usize = 0;
    while i < n
        invariant
            n == circuit@.len(),
            0 <= i <= n,
            forall|j: int| 0 <= j < i ==> circuit.deep_view()[j] != id@,
        decreases n - i,
    {
        if str_eq(circuit[i].as_str(), id) {
            assert(circuit.deep_view()[i as int] == id@);
            return true;
        }
        i = i + 1;
    }
    false
}

/// Whether some name of the circuit starts with `letter`.
fn any_starts_with(circuit: &[String], letter: char) -> (r: bool)
    ensures
        r == some_starts_with(circuit.deep_view(), letter),
{
    let n = circuit.len();
    let mut i: usize = 0;
    while i < n
        invariant
            n == circuit@.len(),
            0 <= i <= n,
            forall|j: int| 0 <= j < i ==> !((#[trigger] circuit.deep_view()[j]).len() > 0 && circuit.deep_view()[j][0] == letter),
        decreases n - i,
    {
        let s = circuit[i].as_str();
        assert(s@ == circuit.deep_view()[i as int]);
        if s.unicode_len() > 0 && s.get_char(0) == letter {
            return true;
        }
        i = i + 1;
    }
    false
}

/// Descriptive name of a circuit (see `circuit_title`).
pub fn circuit_name(circuit: &[String]) -> (r: String)
    ensures
        r@ == circuit_title(circuit.deep_view()),
{
    let n = circuit.len();
    let a1 = holds(circuit, "A1");
    let f1 = holds(circuit, "F1");
    let a2 = holds(circuit, "A2");
    let f3 = holds(circuit, "F3");
    let a3 = holds(circuit, "A3");
    let a4 = holds(circuit, "A4");
    let d3 = holds(circuit, "D3");
    let a7 = holds(circuit, "A7");
    let f6 = holds(circuit, "F6");
    let f4 = holds(circuit, "F4");
    let f5 = holds(circuit, "F5");
    let a5 = holds(circuit, "A5");
    let f2 = holds(circuit, "F2");
    let d1 = holds(circuit, "D1");
    let d2 = holds(circuit, "D2");
    let a6 = holds(circuit, "A6");
    if n == 2 && a1 && f1 {
        string_of("Production continue")
    } else if n == 3 && a1 && f1 && a2 {
        string_of("Cycle principal de production")
    } else if n == 3 && a1 && f1 && f3 {
        string_of("Clôture de cycle")
    } else if n == 3 && f1 && a3 && a4 {
        string_of("Arrêt immédiat sécurisé")
    } else if n == 2 && f1 && d3 {
        string_of("Défaut mineur")
    } else if n == 2 && a7 && f6 {
        string_of("Mode test")
    } else if n == 2 && a1 && f4 {
        string_of("Vérification libre")
    } else if n == 2 && a1 && f5 {
        string_of("Vérification séquentielle")
    } else if n == 4 && a5 && a7 && a4 && f1 {
        string_of("Mode réglage via A4")
    } else if n == 4 && a1 && f2 && f1 && a2 {
        string_of("Préparation machine")
    } else if f1 && d1 && d2 && a5 && a6 {
        string_of("Gestion des défauts")
    } else if a5 && a7 && a6 && a1 && f1 {
        string_of("Mode réglage via A6")
    } else {
        let mut r = if any_starts_with(circuit, 'D') {
            string_of("Défaut")
        } else if a3 || a4 {
            string_of("Arrêt")
        } else if any_starts_with(circuit, 'F') {
            string_of("Fonctionnement")
        } else {
            string_of("Cycle")
        };
        append_str(&mut r, ": ");
        let j = join_names(circuit, " → ");
        append_str(&mut r, j.as_str());
        r
    }
}

// ── Text summary of a GRAFCET ─────────────────────────────────────────────────

/// The lines of the actions of a step.
pub open spec fn actions_text(actions: Seq<Seq<char>>) -> Seq<char>
    decreases actions.len(),
{
    if actions.len() == 0 {
        Seq::empty()
    } else {
        actions_text(actions.drop_last()) + "         → "@ + actions.last() + "\n"@
    }
}

/// The lines of a step: identifier, label, initial mark, then its actions.
pub open spec fn step_text(s: StepView) -> Seq<char> {
    "  ["@ + decimal(s.id as nat) + "]  "@ + s.label + (if s.kind == StepKind::Initial {
        "  ◉ initiale"@
    } else {
        Seq::empty()
    }) + "\n"@ + actions_text(s.actions)
}

pub open spec fn steps_text(steps: Seq<StepView>) -> Seq<char>
    decreases steps.len(),
{
    if steps.len() == 0 {
        Seq::empty()
    } else {
        steps_text(steps.drop_last()) + step_text(steps.last())
    }
}

/// Label of the first step with identifier `id`, `?` when there is none.
pub open spec fn label_or_unknown(steps: Seq<StepView>, id: u32) -> Seq<char> {
    let k = step_index(steps, id);
    if k >= 0 {
        steps[k].label
    } else {
        "?"@
    }
}

pub open spec fn transitions_text(steps: Seq<StepView>, ts: Seq<TransitionView>) -> Seq<char>
    decreases ts.len(),
{
    if ts.len() == 0 {
        Seq::empty()
    } else {
        let t = ts.last();
        transitions_text(steps, ts.drop_last()) + "  "@ + label_or_unknown(steps, t.from_step) + "->"@
            + label_or_unknown(steps, t.to_step) + " :["@ + t.condition + "]\n"@
    }
}

/// Readable summary of a GRAFCET: its steps, then its transitions.
pub open spec fn summary_text(g: GrafcetView) -> Seq<char> {
    "═══ ÉTAPES ══════════════════════════════\n"@ + steps_text(g.steps) + "\n"@ + "═══ TRANSITIONS ═════════════════════════\n"@ + transitions_text(g.steps, g.transitions)
}

/// Label of the first step with identifier `id`, `?` when there is none.
fn label_or_unknown_of<'a>(g: &'a Grafcet, id: u32) -> (r: &'a str)
    ensures
        r@ == label_or_unknown(g@.steps, id),
{
    proof {
        lemma_step_index(g@.steps, id);
    }
    match g.step(id) {
        Some(s) => s.label.as_str(),
        None => "?",
    }
}

/// Readable summary of a GRAFCET (see `summary_text`).
pub fn grafcet_summary(g: &Grafcet) -> (r: String)
    ensures
        r@ == summary_text(g@),
{
    let mut out = string_of("═══ ÉTAPES ══════════════════════════════\n");
    let ghost head = out@;
    let ghost ss = g@.steps;
    let n = g.steps.len();
    let mut i: usize = 0;
    while i < n
        invariant
            n == g.steps@.len(),
            ss == g@.steps,
            0 <= i <= n,
            out@ == head + steps_text(ss.take(i as int)),
        decreases n - i,
    {
        assert(ss.take(i + 1).drop_last() =~= ss.take(i as int));
        assert(ss.take(i + 1).last() == ss[i as int]);
        let step = &g.steps[i];
        let ghost line_start = out@;
        append_str(&mut out, "  [");
        push_decimal(&mut out, step.id);
        append_str(&mut out, "]  ");
        append_str(&mut out, step.label.as_str());
        if step.kind == StepKind::Initial {
            append_str(&mut out, "  ◉ initiale");
        }
        append_str(&mut out, "\n");
        let ghost av = step.actions.deep_view();
        let ghost mid = out@;
        let m = step.actions.len();
        let mut k: usize = 0;
        while k < m
            invariant
                m == step.actions@.len(),
                av == step.actions.deep_view(),
                0 <= k <= m,
                out@ == mid + actions_text(av.take(k as int)),
            decreases m - k,
        {
            assert(av.take(k + 1).drop_last() =~= av.take(k as int));
            assert(av.take(k + 1).last() == step.actions@[k as int]@);
            append_str(&mut out, "         → ");
            append_str(&mut out, step.actions[k].as_str());
            append_str(&mut out, "\n");
            k = k + 1;
            assert(out@ =~= mid + actions_text(av.take(k as int)));
        }
        assert(av.take(m as int) =~= av);
        i = i + 1;
        assert(out@ =~= head + steps_text(ss.take(i as int)));
    }
    assert(ss.take(n as int) =~= ss);
    append_str(&mut out, "\n");
    append_str(&mut out, "═══ TRANSITIONS ═════════════════════════\n");
    let ghost head2 = out@;
    let ghost ts = g@.transitions;
    let nt = g.transitions.len();
    let mut j: usize = 0;
    while j < nt
        invariant
            nt == g.transitions@.len(),
            ss == g@.steps,
            ts == g@.transitions,
            0 <= j <= nt,
            out@ == head2 + transitions_text(ss, ts.take(j as int)),
        decreases nt - j,
    {
        assert(ts.take(j + 1).drop_last() =~= ts.take(j as int));
        assert(ts.take(j + 1).last() == ts[j as int]);
        let tr = &g.transitions[j];
        append_str(&mut out, "  ");
        append_str(&mut out, label_or_unknown_of(g, tr.from_step));
        append_str(&mut out, "->");
        append_str(&mut out, label_or_unknown_of(g, tr.to_step));
        append_str(&mut out, " :[");
        append_str(&mut out, tr.condition.as_str());
        append_str(&mut out, "]\n");
        j = j + 1;
        assert(out@ =~= head2 + transitions_text(ss, ts.take(j as int)));
    }
    assert(ts.take(nt as int) =~= ts);
    assert(out@ =~= summary_text(g@));
    out
}


// ── Laws of the command GRAFCET ───────────────────────────────────────────────

/// Code of the name at place `i` of the display order: its two characters.
pub open spec fn gc_code_key(i: int) -> int {
    if i == 0 {
        65049
    } else if i == 1 {
        65054
    } else if i == 2 {
        65055
    } else if i == 3 {
        70049
    } else if i == 4 {
        70050
    } else if i == 5 {
        70051
    } else if i == 6 {
        70052
    } else if i == 7 {
        70053
    } else if i == 8 {
        70054
    } else if i == 9 {
        68051
    } else if i == 10 {
        68049
    } else if i == 11 {
        68050
    } else if i == 12 {
        65050
    } else if i == 13 {
        65051
    } else if i == 14 {
        65052
    } else {
        65053
    }
}

proof fn lemma_gc_code(i: int)
    requires
        0 <= i < 16,
    ensures
        gc_order()[i].len() == 2,
        (gc_order()[i][0] as int) * 1000 + (gc_order()[i][1] as int) == gc_code_key(i),
{
    reveal_strlit("A1");
    reveal_strlit("A6");
    reveal_strlit("A7");
    reveal_strlit("F1");
    reveal_strlit("F2");
    reveal_strlit("F3");
    reveal_strlit("F4");
    reveal_strlit("F5");
    reveal_strlit("F6");
    reveal_strlit("D3");
    reveal_strlit("D1");
    reveal_strlit("D2");
    reveal_strlit("A2");
    reveal_strlit("A3");
    reveal_strlit("A4");
    reveal_strlit("A5");
    if i == 0 {
        assert(gc_order()[0] == "A1"@);
    } else if i == 1 {
        assert(gc_order()[1] == "A6"@);
    } else if i == 2 {
        assert(gc_order()[2] == "A7"@);
    } else if i == 3 {
        assert(gc_order()[3] == "F1"@);
    } else if i == 4 {
        assert(gc_order()[4] == "F2"@);
    } else if i == 5 {
        assert(gc_order()[5] == "F3"@);
    } else if i == 6 {
        assert(gc_order()[6] == "F4"@);
    } else if i == 7 {
        assert(gc_order()[7] == "F5"@);
    } else if i == 8 {
        assert(gc_order()[8] == "F6"@);
    } else if i == 9 {
        assert(gc_order()[9] == "D3"@);
    } else if i == 10 {
        assert(gc_order()[10] == "D1"@);
    } else if i == 11 {
        assert(gc_order()[11] == "D2"@);
    } else if i == 12 {
        assert(gc_order()[12] == "A2"@);
    } else if i == 13 {
        assert(gc_order()[13] == "A3"@);
    } else if i == 14 {
        assert(gc_order()[14] == "A4"@);
    } else {
        assert(gc_order()[15] == "A5"@);
    }
}

proof fn lemma_gc_order_distinct()
    ensures
        gc_order().len() == 16,
        forall|i: int, j: int| 0 <= i < j < 16 ==> #[trigger] gc_order()[i] != #[trigger] gc_order()[j],
{
    assert forall|i: int, j: int| 0 <= i < j < 16 implies #[trigger] gc_order()[i] != #[trigger] gc_order()[j] by {
        lemma_gc_code(i);
        lemma_gc_code(j);
    }
}

/// Number of states whose name is one of `codes`.
pub open spec fn count_listed(states: Seq<GemmaStateView>, codes: Seq<Seq<char>>) -> nat
    decreases states.len(),
{
    if states.len() == 0 {
        0
    } else {
        count_listed(states.drop_last(), codes) + if codes.contains(states.last().id) {
            1nat
        } else {
            0nat
        }
    }
}

/// No two states share a name.
pub open spec fn distinct_state_names(states: Seq<GemmaStateView>) -> bool {
    forall|i: int, j: int| 0 <= i < j < states.len() ==> #[trigger] states[i].id != #[trigger] states[j].id
}

proof fn lemma_extra_count(states: Seq<GemmaStateView>)
    ensures
        extra_names(states).len() + count_listed(states, gc_order()) == states.len(),
    decreases states.len(),
{
    if states.len() > 0 {
        lemma_extra_count(states.drop_last());
    }
}

proof fn lemma_name_push(states: Seq<GemmaStateView>, s: GemmaStateView, x: Seq<char>)
    ensures
        is_state_name(states.push(s), x) == (is_state_name(states, x) || s.id == x),
{
    if is_state_name(states.push(s), x) {
        let k = choose|k: int| 0 <= k < states.len() + 1 && #[trigger] states.push(s)[k].id == x;
        if k < states.len() {
            assert(states[k].id == x);
        }
    }
    if is_state_name(states, x) {
        let k = choose|k: int| 0 <= k < states.len() && #[trigger] states[k].id == x;
        assert(states.push(s)[k].id == x);
    }
    if s.id == x {
        assert(states.push(s)[states.len() as int].id == x);
    }
}

proof fn lemma_present_push(codes: Seq<Seq<char>>, states: Seq<GemmaStateView>, s: GemmaStateView)
    requires
        forall|i: int, j: int| 0 <= i < j < codes.len() ==> #[trigger] codes[i] != #[trigger] codes[j],
        !is_state_name(states, s.id),
    ensures
        present_codes(codes, states.push(s)).len() == present_codes(codes, states).len() + if codes.contains(s.id) {
            1int
        } else {
            0int
        },
    decreases codes.len(),
{
    if codes.len() > 0 {
        let c0 = codes.drop_last();
        assert forall|i: int, j: int| 0 <= i < j < c0.len() implies #[trigger] c0[i] != #[trigger] c0[j] by {
            assert(c0[i] == codes[i] && c0[j] == codes[j]);
        }
        lemma_present_push(c0, states, s);
        lemma_name_push(states, s, codes.last());
        if codes.last() == s.id {
            assert(!c0.contains(s.id)) by {
                if c0.contains(s.id) {
                    let k = choose|k: int| 0 <= k < c0.len() && c0[k] == s.id;
                    assert(codes[k] != codes[codes.len() - 1]);
                }
            }
            assert(codes.contains(s.id)) by {
                assert(codes[codes.len() - 1] == s.id);
            }
        } else {
            assert(codes.contains(s.id) == c0.contains(s.id)) by {
                if codes.contains(s.id) {
                    let k = choose|k: int| 0 <= k < codes.len() && codes[k] == s.id;
                    assert(c0[k] == s.id);
                }
                if c0.contains(s.id) {
                    let k = choose|k: int| 0 <= k < c0.len() && c0[k] == s.id;
                    assert(codes[k] == s.id);
                }
            }
        }
    }
}

proof fn lemma_present_none(codes: Seq<Seq<char>>)
    ensures
        present_codes(codes, Seq::<GemmaStateView>::empty()).len() == 0,
    decreases codes.len(),
{
    if codes.len() > 0 {
        lemma_present_none(codes.drop_last());
    }
}

proof fn lemma_present_count(codes: Seq<Seq<char>>, states: Seq<GemmaStateView>)
    requires
        forall|i: int, j: int| 0 <= i < j < codes.len() ==> #[trigger] codes[i] != #[trigger] codes[j],
        distinct_state_names(states),
    ensures
        present_codes(codes, states).len() == count_listed(states, codes),
    decreases states.len(),
{
    if states.len() == 0 {
        lemma_present_none(codes);
        assert(states =~= Seq::<GemmaStateView>::empty());
    } else {
        let s0 = states.drop_last();
        let s = states.last();
        assert forall|i: int, j: int| 0 <= i < j < s0.len() implies #[trigger] s0[i].id != #[trigger] s0[j].id by {
            assert(s0[i] == states[i] && s0[j] == states[j]);
        }
        lemma_present_count(codes, s0);
        assert(!is_state_name(s0, s.id)) by {
            if is_state_name(s0, s.id) {
                let k = choose|k: int| 0 <= k < s0.len() && #[trigger] s0[k].id == s.id;
                assert(states[k].id != states[states.len() - 1].id);
            }
        }
        assert(s0.push(s) =~= states);
        lemma_present_push(codes, s0, s);
    }
}

proof fn lemma_present_has(codes: Seq<Seq<char>>, states: Seq<GemmaStateView>, x: Seq<char>)
    requires
        codes.contains(x),
        is_state_name(states, x),
    ensures
        present_codes(codes, states).contains(x),
    decreases codes.len(),
{
    if codes.last() == x {
        let p = present_codes(codes, states);
        assert(p[p.len() - 1] == x);
    } else {
        let c0 = codes.drop_last();
        let k = choose|k: int| 0 <= k < codes.len() && codes[k] == x;
        assert(c0[k] == x);
        lemma_present_has(c0, states, x);
        let p0 = present_codes(c0, states);
        let j = choose|j: int| 0 <= j < p0.len() && p0[j] == x;
        assert(present_codes(codes, states)[j] == x);
    }
}

proof fn lemma_extra_has(states: Seq<GemmaStateView>, k: int)
    requires
        0 <= k < states.len(),
        !gc_order().contains(states[k].id),
    ensures
        extra_names(states).contains(states[k].id),
    decreases states.len(),
{
    if k == states.len() - 1 {
        let e = extra_names(states);
        assert(e[e.len() - 1] == states[k].id);
    } else {
        let s0 = states.drop_last();
        assert(s0[k] == states[k]);
        lemma_extra_has(s0, k);
        let e0 = extra_names(s0);
        let j = choose|j: int| 0 <= j < e0.len() && e0[j] == states[k].id;
        assert(extra_names(states)[j] == states[k].id);
    }
}

/// Some step has label `l`.
pub open spec fn has_label(steps: Seq<StepView>, l: Seq<char>) -> bool {
    exists|i: int| 0 <= i < steps.len() && #[trigger] steps[i].label == l
}

/// One step per GEMMA state: when no two states share a name, the command
/// GRAFCET has as many steps as the GEMMA has states, and each state has
/// the step labelled with its name in quotes.
pub proof fn law_command_grafcet_one_step_per_state(g: GemmaView)
    requires
        distinct_state_names(g.states),
    ensures
        command_grafcet(g).steps.len() == g.states.len(),
        forall|k: int| 0 <= k < g.states.len() ==> has_label(command_grafcet(g).steps, "\""@ + (#[trigger] g.states[k]).id + "\""@),
{
    lemma_gc_order_distinct();
    lemma_extra_count(g.states);
    lemma_present_count(gc_order(), g.states);
    let names = gc_names(g);
    assert forall|k: int| 0 <= k < g.states.len() implies has_label(command_grafcet(g).steps, "\""@ + (#[trigger] g.states[k]).id + "\""@) by {
        let id = g.states[k].id;
        assert(g.states[k].id == id);
        assert(is_state_name(g.states, id));
        let p = present_codes(gc_order(), g.states);
        let e = extra_names(g.states);
        if gc_order().contains(id) {
            lemma_present_has(gc_order(), g.states, id);
            let j = choose|j: int| 0 <= j < p.len() && p[j] == id;
            assert(names[j] == id);
            assert(command_grafcet(g).steps[j] == gc_step(j, names[j]));
            assert(command_grafcet(g).steps[j].label == "\""@ + id + "\""@);
        } else {
            lemma_extra_has(g.states, k);
            let j = choose|j: int| 0 <= j < e.len() && e[j] == id;
            assert(names[p.len() + j] == id);
            assert(command_grafcet(g).steps[p.len() + j] == gc_step(p.len() + j, names[p.len() + j]));
            assert(command_grafcet(g).steps[p.len() + j].label == "\""@ + id + "\""@);
        }
    }
}

/// Every GEMMA transition is in the command GRAFCET: when the GEMMA is valid,
/// the command GRAFCET has one transition per GEMMA transition, in the same
/// order, with the same condition (`1` for an empty or `TRUE` one).
pub proof fn law_command_grafcet_all_transitions(g: GemmaView)
    requires
        validation_errors(g.states, g.transitions).len() == 0,
    ensures
        command_grafcet(g).transitions.len() == g.transitions.len(),
        forall|i: int| 0 <= i < g.transitions.len() ==> (#[trigger] command_grafcet(g).transitions[i]).condition
            == gc_condition(display_text(g.transitions[i].condition)),
{
    lemma_transitions_kept(g, g.transitions);
}

/// The command GRAFCET in detail, when its steps can be numbered: each
/// GEMMA transition, in their order, gives the command transition from the
/// step labelled with its source in quotes to the step labelled with its
/// destination in quotes, with its displayed condition (`1` for an empty or
/// `TRUE` one); each step is labelled with its state in quotes, starts the
/// GRAFCET of its state (`Start_G_PN` for F1, `Start_G_<name>` otherwise),
/// and is initial exactly for A1.
pub proof fn law_command_grafcet_in_detail(g: GemmaView)
    requires
        validation_errors(g.states, g.transitions).len() == 0,
        g.states.len() + 16 < u32::MAX,
    ensures
        command_grafcet(g).transitions.len() == g.transitions.len(),
        forall|i: int| 0 <= i < g.transitions.len() ==> {
            let t = #[trigger] command_grafcet(g).transitions[i];
            let c = display_text(g.transitions[i].condition);
            &&& t.condition == if c.len() == 0 || c == "TRUE"@ {
                "1"@
            } else {
                c
            }
            &&& t.from_step < command_grafcet(g).steps.len()
            &&& command_grafcet(g).steps[t.from_step as int].label == "\""@ + g.transitions[i].from + "\""@
            &&& t.to_step < command_grafcet(g).steps.len()
            &&& command_grafcet(g).steps[t.to_step as int].label == "\""@ + g.transitions[i].to + "\""@
        },
        forall|j: int| 0 <= j < command_grafcet(g).steps.len() ==> {
            let st = #[trigger] command_grafcet(g).steps[j];
            let name = gc_names(g)[j];
            &&& st.id == j
            &&& st.label == "\""@ + name + "\""@
            &&& st.actions == seq![if name == "F1"@ { "Start_G_PN"@ } else { "Start_G_"@ + name }]
            &&& (st.kind == StepKind::Initial <==> name == "A1"@)
        },
{
    lemma_extra_count(g.states);
    lemma_present_codes_len(gc_order(), g.states);
    assert(gc_order().len() == 16);
    lemma_transitions_kept(g, g.transitions);
}

proof fn lemma_valid_prefix(states: Seq<GemmaStateView>, ts: Seq<GemmaTransitionView>)
    requires
        validation_errors(states, ts).len() == 0,
    ensures
        forall|i: int| 0 <= i < ts.len() ==> is_state_name(states, #[trigger] ts[i].from) && is_state_name(states, ts[i].to),
    decreases ts.len(),
{
    if ts.len() > 0 {
        let t0 = ts.drop_last();
        assert(validation_errors(states, t0).len() == 0);
        lemma_valid_prefix(states, t0);
        assert forall|i: int| 0 <= i < ts.len() implies is_state_name(states, #[trigger] ts[i].from) && is_state_name(states, ts[i].to) by {
            if i < ts.len() - 1 {
                assert(t0[i] == ts[i]);
            }
        }
    }
}

proof fn lemma_name_in_gc(g: GemmaView, x: Seq<char>)
    requires
        is_state_name(g.states, x),
    ensures
        last_name_index(gc_names(g), x) >= 0,
{
    let names = gc_names(g);
    let p = present_codes(gc_order(), g.states);
    let k = choose|k: int| 0 <= k < g.states.len() && #[trigger] g.states[k].id == x;
    let j: int = if gc_order().contains(x) {
        lemma_present_has(gc_order(), g.states, x);
        let j = choose|j: int| 0 <= j < p.len() && p[j] == x;
        assert(names[j] == x);
        j
    } else {
        lemma_extra_has(g.states, k);
        let e = extra_names(g.states);
        let j = choose|j: int| 0 <= j < e.len() && e[j] == x;
        assert(names[p.len() + j] == x);
        p.len() + j
    };
    crate::circuits::lemma_last_name_index(names, x);
}

proof fn lemma_transitions_kept(g: GemmaView, ts: Seq<GemmaTransitionView>)
    requires
        validation_errors(g.states, ts).len() == 0,
    ensures
        gc_transitions(gc_names(g), ts).len() == ts.len(),
        forall|i: int| 0 <= i < ts.len() ==> (#[trigger] gc_transitions(gc_names(g), ts)[i]).condition
            == gc_condition(display_text(ts[i].condition)),
        gc_names(g).len() < u32::MAX ==> forall|i: int| 0 <= i < ts.len() ==> {
            let t = #[trigger] gc_transitions(gc_names(g), ts)[i];
            &&& t.from_step < gc_names(g).len() && gc_names(g)[t.from_step as int] == ts[i].from
            &&& t.to_step < gc_names(g).len() && gc_names(g)[t.to_step as int] == ts[i].to
        },
    decreases ts.len(),
{
    if ts.len() > 0 {
        let t0 = ts.drop_last();
        assert(validation_errors(g.states, t0).len() == 0);
        lemma_transitions_kept(g, t0);
        lemma_valid_prefix(g.states, ts);
        let t = ts.last();
        assert(ts[ts.len() - 1] == t);
        lemma_name_in_gc(g, t.from);
        lemma_name_in_gc(g, t.to);
        let r = gc_transitions(gc_names(g), ts);
        assert forall|i: int| 0 <= i < ts.len() implies (#[trigger] r[i]).condition
            == gc_condition(display_text(ts[i].condition)) by {
            if i < ts.len() - 1 {
                assert(t0[i] == ts[i]);
                assert(r[i] == gc_transitions(gc_names(g), t0)[i]);
            }
        }
        lemma_last_name_index(gc_names(g), t.from);
        lemma_last_name_index(gc_names(g), t.to);
        assert forall|i: int| 0 <= i < ts.len() && gc_names(g).len() < u32::MAX implies {
            let tt = #[trigger] r[i];
            &&& tt.from_step < gc_names(g).len() && gc_names(g)[tt.from_step as int] == ts[i].from
            &&& tt.to_step < gc_names(g).len() && gc_names(g)[tt.to_step as int] == ts[i].to
        } by {
            if i < ts.len() - 1 {
                assert(t0[i] == ts[i]);
                assert(r[i] == gc_transitions(gc_names(g), t0)[i]);
            }
        }
    }
}

} // verus!
