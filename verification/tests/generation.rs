use gemma_suite::circuits::extract_closed_circuits;
use gemma_suite::closing::close_open_circuits;
use gemma_suite::gemma::{Expr, Gemma, GemmaState, StateType};
use gemma_suite::generate::{
    circuit_name, circuit_short_name, circuit_to_grafcet, generate_grafcets, grafcet_summary,
    invalid_gemma_status,
};
use gemma_suite::grafcet::{Grafcet, StepKind};
use gemma_suite::questionnaire::{state_type_from_id, Answer, Question, Questionnaire, RuleTransition};

fn state(id: &str, t: StateType) -> GemmaState {
    GemmaState { id: id.to_string(), state_type: t, description: String::new(), action: String::new() }
}

fn gemma_of(states: &[&str], links: &[(&str, &str, Expr)]) -> Gemma {
    let mut g = Gemma::new();
    for s in states {
        g.states.push(state(s, state_type_from_id(s)));
    }
    for (a, b, c) in links {
        let c2 = match c {
            Expr::True => Expr::True,
            Expr::False => Expr::False,
            Expr::Var(v) => Expr::Var(v.clone()),
            _ => Expr::True,
        };
        g.add_transition(a.to_string(), b.to_string(), c2);
    }
    g
}

fn names(v: &[&str]) -> Vec<String> {
    v.iter().map(|s| s.to_string()).collect()
}

fn var(s: &str) -> Expr {
    Expr::Var(s.to_string())
}

fn rule(a: &str, b: &str, c: &str) -> RuleTransition {
    RuleTransition { from: a.to_string(), to: b.to_string(), condition: c.to_string() }
}

fn question(id: u32, yes_states: &[&str], yes_links: Vec<RuleTransition>, no_states: &[&str]) -> Question {
    Question::new(
        id,
        format!("Q{id}"),
        "?".to_string(),
        Vec::new(),
        names(yes_states),
        names(no_states),
        yes_links,
        Vec::new(),
    )
}

#[test]
fn closed_circuits_are_found_once_from_their_first_state() {
    let g = gemma_of(
        &["A1", "F1", "A2"],
        &[("A1", "F1", Expr::True), ("F1", "A2", Expr::True), ("A2", "A1", Expr::True), ("F1", "A1", Expr::True)],
    );
    let c = extract_closed_circuits(&g);
    assert_eq!(c, vec![names(&["A1", "F1", "A2"]), names(&["A1", "F1"])]);
}

#[test]
fn parallel_links_give_a_circuit_once() {
    let g = gemma_of(
        &["A1", "F1"],
        &[("A1", "F1", Expr::True), ("A1", "F1", var("Bis")), ("F1", "A1", Expr::True)],
    );
    assert_eq!(extract_closed_circuits(&g), vec![names(&["A1", "F1"])]);
}

#[test]
fn a_self_loop_is_no_circuit() {
    let g = gemma_of(&["A1"], &[("A1", "A1", Expr::True)]);
    assert!(extract_closed_circuits(&g).is_empty());
    let empty = Gemma::new();
    assert!(extract_closed_circuits(&empty).is_empty());
}

#[test]
fn circuit_short_names() {
    assert_eq!(circuit_short_name(&names(&["A1", "F1", "A2"])), "A1→F1→A2");
    assert_eq!(circuit_short_name(&names(&["A1", "F1", "A2", "A3"])), "A1→F1→A2→A3");
    assert_eq!(circuit_short_name(&names(&["A1", "F1", "A2", "A3", "A4"])), "A1→…→A4");
    assert_eq!(circuit_short_name(&[]), "");
}

#[test]
fn circuit_names_do_not_depend_on_order() {
    assert_eq!(circuit_name(&names(&["A2", "F1", "A1"])), circuit_name(&names(&["A1", "F1", "A2"])));
    assert_eq!(circuit_name(&names(&["D1", "X9"])), "Défaut: D1 → X9");
    assert_eq!(circuit_name(&names(&["X9", "D1"])), "Défaut: X9 → D1");
}

#[test]
fn circuit_names_known_and_fallback() {
    assert_eq!(circuit_name(&names(&["A1", "F1"])), "Production continue");
    assert_eq!(circuit_name(&names(&["F1", "A1"])), "Production continue");
    assert_eq!(circuit_name(&names(&["A1", "F1", "A2"])), "Cycle principal de production");
    assert_eq!(circuit_name(&names(&["A1", "F1", "F3"])), "Clôture de cycle");
    assert_eq!(circuit_name(&names(&["F1", "A3", "A4"])), "Arrêt immédiat sécurisé");
    assert_eq!(circuit_name(&names(&["F1", "D3"])), "Défaut mineur");
    assert_eq!(circuit_name(&names(&["A7", "F6"])), "Mode test");
    assert_eq!(circuit_name(&names(&["A1", "F4"])), "Vérification libre");
    assert_eq!(circuit_name(&names(&["A1", "F5"])), "Vérification séquentielle");
    assert_eq!(circuit_name(&names(&["A5", "A7", "A4", "F1"])), "Mode réglage via A4");
    assert_eq!(circuit_name(&names(&["A1", "F2", "F1", "A2"])), "Préparation machine");
    assert_eq!(circuit_name(&names(&["F1", "D1", "D2", "A5", "A6"])), "Gestion des défauts");
    assert_eq!(circuit_name(&names(&["A5", "A7", "A6", "A1", "F1"])), "Mode réglage via A6");
    assert_eq!(circuit_name(&names(&["D1", "D2"])), "Défaut: D1 → D2");
    assert_eq!(circuit_name(&names(&["A6", "A3"])), "Arrêt: A6 → A3");
    assert_eq!(circuit_name(&names(&["A6", "F2"])), "Fonctionnement: A6 → F2");
    assert_eq!(circuit_name(&names(&["A1", "A6"])), "Cycle: A1 → A6");
}

#[test]
fn circuit_grafcet_follows_the_circuit() {
    let g = gemma_of(&["A1", "F1"], &[("A1", "F1", var("Cycle"))]);
    let gr = circuit_to_grafcet(&g, &names(&["A1", "F1"]));
    assert_eq!(gr.steps.len(), 2);
    assert_eq!(gr.steps[0].label, "A1");
    assert_eq!(gr.steps[0].kind, StepKind::Initial);
    assert_eq!(gr.steps[1].label, "F1");
    assert_eq!(gr.steps[1].kind, StepKind::Normal);
    assert_eq!(gr.transitions.len(), 2);
    assert_eq!((gr.transitions[0].from_step, gr.transitions[0].to_step), (0, 1));
    assert_eq!(gr.transitions[0].condition, "Cycle");
    assert_eq!((gr.transitions[1].from_step, gr.transitions[1].to_step), (1, 0));
    assert_eq!(gr.transitions[1].condition, "1");
    assert_eq!((gr.next_step_id, gr.next_trans_id), (2, 2));
    let empty = circuit_to_grafcet(&g, &[]);
    assert!(empty.steps.is_empty() && empty.transitions.is_empty());
}

#[test]
fn summary_lists_steps_then_transitions() {
    let g = gemma_of(&["A1", "F1"], &[("A1", "F1", var("Cycle"))]);
    let mut gr = circuit_to_grafcet(&g, &names(&["A1", "F1"]));
    gr.step_mut(1).unwrap().actions.push("Moteur".to_string());
    gr.add_transition(1, 9);
    let expected = "═══ ÉTAPES ══════════════════════════════\n\
                    \x20 [0]  A1  ◉ initiale\n\
                    \x20 [1]  F1\n\
                    \x20        → Moteur\n\
                    \n\
                    ═══ TRANSITIONS ═════════════════════════\n\
                    \x20 A1->F1 :[Cycle]\n\
                    \x20 F1->A1 :[1]\n\
                    \x20 F1->? :[1]\n";
    assert_eq!(grafcet_summary(&gr), expected);
    let empty = Grafcet::new();
    assert_eq!(
        grafcet_summary(&empty),
        "═══ ÉTAPES ══════════════════════════════\n\n═══ TRANSITIONS ═════════════════════════\n"
    );
}

#[test]
fn generation_of_safety_and_command_grafcets() {
    let g = gemma_of(
        &["A1", "F1", "D1"],
        &[("A1", "F1", var("Depart")), ("F1", "D1", var("AU_press")), ("D1", "A1", Expr::True)],
    );
    let out = match generate_grafcets(&g) {
        Ok(v) => v,
        Err(_) => panic!("the GEMMA is valid"),
    };
    assert_eq!(out.len(), 2);
    let gs = &out[0];
    assert_eq!(gs.name, "GS");
    assert!(gs.generated);
    assert_eq!(gs.grafcet.steps[0].label, "Repos");
    assert_eq!(gs.grafcet.steps[0].kind, StepKind::Initial);
    assert_eq!(gs.grafcet.steps[0].actions, vec!["F/GC:(0)".to_string()]);
    assert_eq!(gs.grafcet.steps[1].label, "En_service");
    assert_eq!(gs.grafcet.transitions[0].condition, "/AU_press  .  Valider");
    assert_eq!((gs.grafcet.transitions[0].from_step, gs.grafcet.transitions[0].to_step), (0, 1));
    assert_eq!(gs.grafcet.transitions[1].condition, "AU_press");
    let gc = &out[1];
    assert_eq!(gc.name, "GC");
    let labels: Vec<&str> = gc.grafcet.steps.iter().map(|s| s.label.as_str()).collect();
    assert_eq!(labels, vec!["\"A1\"", "\"F1\"", "\"D1\""]);
    assert_eq!(gc.grafcet.steps[0].kind, StepKind::Initial);
    assert_eq!(gc.grafcet.steps[0].actions, vec!["Start_G_A1".to_string()]);
    assert_eq!(gc.grafcet.steps[1].actions, vec!["Start_G_PN".to_string()]);
    assert_eq!(gc.grafcet.steps[2].actions, vec!["Start_G_D1".to_string()]);
    let ends: Vec<(u32, u32, &str)> =
        gc.grafcet.transitions.iter().map(|t| (t.from_step, t.to_step, t.condition.as_str())).collect();
    assert_eq!(ends, vec![(0, 1, "Depart"), (1, 2, "AU_press"), (2, 0, "1")]);
}

#[test]
fn command_grafcet_puts_unlisted_states_last() {
    let g = gemma_of(&["X9", "F2", "A2"], &[("X9", "F2", Expr::True)]);
    let out = match generate_grafcets(&g) {
        Ok(v) => v,
        Err(_) => panic!("the GEMMA is valid"),
    };
    let labels: Vec<&str> = out[1].grafcet.steps.iter().map(|s| s.label.as_str()).collect();
    assert_eq!(labels, vec!["\"F2\"", "\"A2\"", "\"X9\""]);
    assert!(out[1].grafcet.steps.iter().all(|s| s.kind == StepKind::Normal));
    assert_eq!(out[1].grafcet.transitions[0].from_step, 2);
    // no transition into D1: the emergency stop is `AU`
    assert_eq!(out[0].grafcet.transitions[1].condition, "AU");
}

#[test]
fn emergency_stop_condition_true_becomes_au() {
    let g = gemma_of(&["F1", "D1"], &[("F1", "D1", Expr::True)]);
    let out = match generate_grafcets(&g) {
        Ok(v) => v,
        Err(_) => panic!("the GEMMA is valid"),
    };
    assert_eq!(out[0].grafcet.transitions[0].condition, "/AU  .  Valider");
}

#[test]
fn generation_refuses_an_invalid_gemma() {
    let g = gemma_of(&["A1"], &[("A1", "X", Expr::True)]);
    match generate_grafcets(&g) {
        Ok(_) => panic!("the GEMMA is not valid"),
        Err(e) => {
            assert_eq!(e, vec!["Transition 0: état destination 'X' inconnu".to_string()]);
            assert_eq!(invalid_gemma_status(&e), "GEMMA invalide : Transition 0: état destination 'X' inconnu");
        },
    }
    assert_eq!(invalid_gemma_status(&names(&["a", "b"])), "GEMMA invalide : a | b");
}

#[test]
fn state_types_from_names() {
    assert_eq!(state_type_from_id("D1"), StateType::Safety);
    assert_eq!(state_type_from_id("d9"), StateType::Safety);
    assert_eq!(state_type_from_id("A3"), StateType::Command);
    assert_eq!(state_type_from_id("a1"), StateType::Command);
    assert_eq!(state_type_from_id("F1"), StateType::Production);
    assert_eq!(state_type_from_id("X"), StateType::Production);
    assert_eq!(state_type_from_id(""), StateType::Production);
}

#[test]
fn answers_counted_reset_and_set() {
    let mut q = Questionnaire {
        questions: vec![question(1, &[], Vec::new(), &[]), question(2, &[], Vec::new(), &[])],
    };
    assert_eq!(q.answered_count(), 0);
    q.set_answer(1, Answer::No);
    assert_eq!(q.answered_count(), 1);
    assert_eq!(q.questions[1].answer, Answer::No);
    q.set_answer(5, Answer::Yes);
    q.set_all_answers(Answer::Yes);
    assert_eq!(q.answered_count(), 2);
    q.reset_answers();
    assert_eq!(q.answered_count(), 0);
    assert_eq!(Answer::default(), Answer::Unanswered);
}

#[test]
fn conditions_preview_of_a_question() {
    let mut q = question(1, &[], Vec::new(), &[]);
    assert!(q.conditions_preview().is_none());
    q.conditions = names(&["A1", "présence pièce"]);
    assert_eq!(q.conditions_preview().as_deref(), Some("[A1, présence pièce]"));
}

#[test]
fn answers_add_states_and_transitions() {
    let mut q1 = question(1, &["A1", "F1"], vec![rule("A1", "F1", "Depart")], &["D3"]);
    q1.answer = Answer::Yes;
    let q2 = question(2, &["F5"], Vec::new(), &[]);
    let qs = Questionnaire { questions: vec![q1, q2] };
    let mut g = Gemma::new();
    let r = qs.apply_to_gemma(&mut g);
    let ids: Vec<&str> = g.states.iter().map(|s| s.id.as_str()).collect();
    assert_eq!(ids, vec!["A1", "F1"]);
    assert_eq!(g.states[0].state_type, StateType::Command);
    assert_eq!(g.states[1].state_type, StateType::Production);
    assert_eq!(g.transitions.len(), 1);
    assert!(matches!(&g.transitions[0].condition, Expr::Var(v) if v == "Depart"));
    assert_eq!(r.rule_transitions, vec![0]);
    assert!(r.closing_transitions.is_empty());
}

#[test]
fn answers_update_an_existing_transition_and_close_circuits() {
    let mut q1 = question(
        1,
        &["A1", "F1", "A2"],
        vec![rule("A1", "F1", "Depart"), rule("F1", "A2", "Arret")],
        &[],
    );
    q1.answer = Answer::Yes;
    let qs = Questionnaire { questions: vec![q1] };
    let mut g = gemma_of(&["A1"], &[]);
    g.states.push(state("F1", StateType::Production));
    g.add_transition("A1".to_string(), "F1".to_string(), Expr::True);
    let r = qs.apply_to_gemma(&mut g);
    let ids: Vec<&str> = g.states.iter().map(|s| s.id.as_str()).collect();
    assert_eq!(ids, vec!["A1", "F1", "A2"]);
    let ends: Vec<(u32, &str, &str)> =
        g.transitions.iter().map(|t| (t.id, t.from.as_str(), t.to.as_str())).collect();
    assert_eq!(ends, vec![(0, "A1", "F1"), (1, "F1", "A2"), (2, "A2", "A1")]);
    assert!(matches!(&g.transitions[0].condition, Expr::Var(v) if v == "Depart"));
    assert!(matches!(&g.transitions[2].condition, Expr::Var(v) if v == "Fin_cycle"));
    assert_eq!(r.rule_transitions, vec![0, 1]);
    assert_eq!(r.closing_transitions, vec![2]);
}

#[test]
fn closing_adds_missing_exits_and_entries() {
    // D1 has no exit (D2 present), D2 no entry then fixed by D1→D2.
    let mut g = gemma_of(&["F1", "D1", "D2", "A5"], &[("F1", "D1", Expr::True), ("D2", "A5", Expr::True), ("A5", "F1", Expr::True)]);
    let added = close_open_circuits(&mut g);
    assert_eq!(added, vec![3]);
    assert_eq!(g.transitions[3].from, "D1");
    assert_eq!(g.transitions[3].to, "D2");
    assert!(matches!(&g.transitions[3].condition, Expr::Var(v) if v == "EU_relachee"));
}

#[test]
fn closing_never_adds_a_forbidden_link() {
    // A3 has no exit; its only rule (A4) is absent; F1 is forbidden anyway.
    let mut g = gemma_of(&["F1", "A3"], &[("F1", "A3", Expr::True)]);
    let added = close_open_circuits(&mut g);
    assert!(added.is_empty());
    assert_eq!(g.transitions.len(), 1);
}

#[test]
fn closing_goes_past_a_state_without_usable_rule() {
    // A1 has no exit and no drain rule; A2 still gets its exit A2→A1.
    let mut g = gemma_of(&["A1", "A2"], &[]);
    let added = close_open_circuits(&mut g);
    assert_eq!(added, vec![0]);
    assert_eq!((g.transitions[0].from.as_str(), g.transitions[0].to.as_str()), ("A2", "A1"));
    assert!(matches!(&g.transitions[0].condition, Expr::Var(v) if v == "Fin_cycle"));
}

#[test]
fn closing_adds_an_entry_to_a_source_state() {
    // F2 has an exit but no entry: A1→F2 is added.
    let mut g = gemma_of(&["A1", "F2", "F1"], &[("F2", "F1", Expr::True), ("F1", "A1", Expr::True), ("A1", "F1", Expr::True)]);
    let added = close_open_circuits(&mut g);
    assert_eq!(added, vec![3]);
    assert_eq!((g.transitions[3].from.as_str(), g.transitions[3].to.as_str()), ("A1", "F2"));
    assert!(matches!(&g.transitions[3].condition, Expr::Var(v) if v == "Mode_preparation"));
}
