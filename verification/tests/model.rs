use gemma_suite::editing::{actions_from_text, actions_to_text};
use gemma_suite::gemma::{Expr, Gemma, GemmaState, StateType};
use gemma_suite::grafcet::{Grafcet, Step, StepKind, Transition};
use gemma_suite::project::{
    last_project_file, project_dir, sanitize, NamedGrafcet, Project, ProjectAction, ProjectPage,
};

fn state(id: &str, t: StateType) -> GemmaState {
    GemmaState { id: id.to_string(), state_type: t, description: String::new(), action: String::new() }
}

fn three_steps() -> Grafcet {
    let mut g = Grafcet::new();
    g.add_step();
    g.add_step();
    g.add_step();
    g
}

#[test]
fn add_step_gives_fresh_identifiers_and_default_labels() {
    let mut g = Grafcet::new();
    let a = g.add_step();
    let b = g.add_step();
    assert_eq!(a, 0);
    assert_eq!(b, 1);
    assert_eq!(g.next_step_id, 2);
    let s = g.step(1).unwrap();
    assert_eq!(s.label, "E1");
    assert_eq!(s.kind, StepKind::Normal);
    assert!(s.actions.is_empty());
    assert!(!s.active);
}

#[test]
fn step_and_transition_constructors() {
    let s = Step::new(12);
    assert_eq!(s.id, 12);
    assert_eq!(s.label, "E12");
    let t = Transition::new(3, 1, 2);
    assert_eq!((t.id, t.from_step, t.to_step), (3, 1, 2));
    assert_eq!(t.condition, "1");
    assert_eq!(StepKind::default(), StepKind::Normal);
}

#[test]
fn add_transition_starts_with_condition_one() {
    let mut g = three_steps();
    let t0 = g.add_transition(0, 1);
    let t1 = g.add_transition(0, 2);
    assert_eq!((t0, t1), (0, 1));
    assert_eq!(g.transition(0).unwrap().condition, "1");
    assert_eq!(g.outgoing_count(0), 2);
    assert_eq!(g.outgoing_count(1), 0);
    assert_eq!(g.next_trans_id, 2);
}

#[test]
fn remove_step_removes_its_transitions() {
    let mut g = three_steps();
    g.add_transition(0, 1);
    g.add_transition(1, 2);
    g.add_transition(2, 0);
    g.remove_step(1);
    let ids: Vec<u32> = g.steps.iter().map(|s| s.id).collect();
    assert_eq!(ids, vec![0, 2]);
    assert_eq!(g.transitions.len(), 1);
    assert_eq!(g.transitions[0].id, 2);
    assert!(g.step(1).is_none());
    // identifiers are never reused
    assert_eq!(g.add_step(), 3);
}

#[test]
fn remove_transition_keeps_the_others() {
    let mut g = three_steps();
    g.add_transition(0, 1);
    g.add_transition(1, 2);
    g.remove_transition(0);
    assert!(g.transition(0).is_none());
    assert_eq!(g.transition(1).unwrap().from_step, 1);
    g.remove_transition(7);
    assert_eq!(g.transitions.len(), 1);
}

#[test]
fn transition_mut_and_step_mut_edit_in_place() {
    let mut g = three_steps();
    let t = g.add_transition(0, 1);
    g.transition_mut(t).unwrap().condition = "Depart".to_string();
    g.step_mut(2).unwrap().kind = StepKind::Initial;
    assert_eq!(g.transition(t).unwrap().condition, "Depart");
    assert_eq!(g.step(2).unwrap().kind, StepKind::Initial);
    assert!(g.step_mut(9).is_none());
    assert!(g.transition_mut(9).is_none());
}

#[test]
fn and_groups_are_numbered_in_turn() {
    let mut g = Grafcet::new();
    assert_eq!(g.new_and_group(), 0);
    assert_eq!(g.new_and_group(), 1);
    assert_eq!(g.next_and_group_id, 2);
}

#[test]
fn clear_empties_and_restarts_identifiers() {
    let mut g = three_steps();
    g.add_transition(0, 1);
    g.new_and_group();
    g.clear();
    assert!(g.steps.is_empty());
    assert!(g.transitions.is_empty());
    assert_eq!(g.next_step_id, 0);
    assert_eq!(g.next_trans_id, 0);
    assert_eq!(g.next_and_group_id, 1);
    assert_eq!(g.add_step(), 0);
}

#[test]
fn linked_transitions_of_a_step() {
    let mut g = three_steps();
    g.add_transition(0, 1);
    g.add_transition(1, 2);
    g.add_transition(2, 0);
    let l = g.linked_transitions(1);
    assert_eq!(l.len(), 2);
    assert_eq!((l[0].0, l[0].1, l[0].2, l[0].3.as_str()), (0, 0, 1, "1"));
    assert_eq!((l[1].0, l[1].1, l[1].2), (1, 1, 2));
}

#[test]
fn actions_text_round_trip() {
    let a = actions_from_text("Pompe\n\nVanne\r\nMoteur");
    assert_eq!(a, vec!["Pompe".to_string(), "Vanne".to_string(), "Moteur".to_string()]);
    assert!(actions_from_text("").is_empty());
    assert!(actions_from_text("\n\n").is_empty());
    assert_eq!(actions_from_text("x\r"), vec!["x\r".to_string()]);
    assert_eq!(actions_from_text("a\n"), vec!["a".to_string()]);
    assert_eq!(actions_to_text(&["a".to_string(), "b".to_string()]), "a\nb");
    assert_eq!(actions_to_text(&[]), "");
}

#[test]
fn expr_from_text() {
    assert!(matches!(Expr::from_str("  cycle  "), Expr::Var(v) if v == "cycle"));
    assert!(matches!(Expr::from_str(""), Expr::False));
    assert!(matches!(Expr::from_str("   "), Expr::False));
    assert!(matches!(Expr::from_str("false"), Expr::False));
    assert!(matches!(Expr::from_str("FALSE"), Expr::False));
    assert!(matches!(Expr::from_str("true"), Expr::True));
    assert!(matches!(Expr::from_str("TRUE"), Expr::True));
    assert!(matches!(Expr::from_str(" 1 "), Expr::True));
    assert!(matches!(Expr::from_str("True"), Expr::Var(v) if v == "True"));
}

#[test]
fn expr_display_and_structured_text() {
    let e = Expr::And(
        Box::new(Expr::Var("a".to_string())),
        Box::new(Expr::Not(Box::new(Expr::Var("b".to_string())))),
    );
    assert_eq!(e.to_display(), "(a) AND (NOT (b))");
    assert_eq!(e.to_st(), "(a) AND (NOT (b))");
    let t = Expr::Or(Box::new(Expr::TimerDone("T1".to_string())), Box::new(Expr::False));
    assert_eq!(t.to_display(), "(T#T1) OR (FALSE)");
    assert_eq!(t.to_st(), "(TON_T1.Q) OR (FALSE)");
    assert_eq!(Expr::True.to_display(), "TRUE");
}

#[test]
fn state_type_labels() {
    assert_eq!(StateType::Safety.label(), "Sécurité");
    assert_eq!(StateType::Command.label(), "Commande");
    assert_eq!(StateType::Production.label(), "Production");
}

#[test]
fn gemma_transitions_and_lookup() {
    let mut g = Gemma::new();
    g.states.push(state("A1", StateType::Command));
    g.states.push(state("F1", StateType::Production));
    let id0 = g.add_transition("A1".to_string(), "F1".to_string(), Expr::True);
    let id1 = g.add_transition("F1".to_string(), "A1".to_string(), Expr::False);
    assert_eq!((id0, id1), (0, 1));
    assert_eq!(g.next_trans_id, 2);
    assert!(g.has_state("F1"));
    assert!(!g.has_state("D1"));
    assert_eq!(g.state_position("F1"), Some(1));
    assert_eq!(g.state("A1").unwrap().state_type, StateType::Command);
    g.state_mut("F1").unwrap().description = "Production".to_string();
    assert_eq!(g.states[1].description, "Production");
    assert!(g.state("X").is_none());
}

#[test]
fn validate_reports_unknown_ends() {
    let mut g = Gemma::new();
    g.states.push(state("A1", StateType::Command));
    g.states.push(state("F1", StateType::Production));
    g.add_transition("A1".to_string(), "F1".to_string(), Expr::True);
    assert!(g.validate().is_ok());
    g.add_transition("A1".to_string(), "X".to_string(), Expr::True);
    g.add_transition("Y".to_string(), "Z".to_string(), Expr::True);
    let errors = g.validate().unwrap_err();
    assert_eq!(
        errors,
        vec![
            "Transition 1: état destination 'X' inconnu".to_string(),
            "Transition 2: état source 'Y' inconnu".to_string(),
            "Transition 2: état destination 'Z' inconnu".to_string(),
        ]
    );
}

#[test]
fn states_by_type() {
    let mut g = Gemma::new();
    g.states.push(state("A1", StateType::Command));
    g.states.push(state("D1", StateType::Safety));
    g.states.push(state("F1", StateType::Production));
    g.states.push(state("A2", StateType::Command));
    let c: Vec<&str> = g.command_states().iter().map(|s| s.id.as_str()).collect();
    assert_eq!(c, vec!["A1", "A2"]);
    assert_eq!(g.safety_states().len(), 1);
    assert_eq!(g.production_states()[0].id, "F1");
}

#[test]
fn clear_diagram_keeps_the_name() {
    let mut g = Gemma::new();
    g.name = "Machine".to_string();
    g.states.push(state("A1", StateType::Command));
    g.add_transition("A1".to_string(), "A1".to_string(), Expr::True);
    g.clear_diagram();
    assert!(g.states.is_empty());
    assert!(g.transitions.is_empty());
    assert_eq!(g.next_trans_id, 0);
    assert_eq!(g.name, "Machine");
}

#[test]
fn sanitize_and_project_folder() {
    assert_eq!(sanitize("  Mon Projet!  "), "Mon_Projet");
    assert_eq!(sanitize("__a b__"), "a_b");
    assert_eq!(sanitize("été-2024"), "été-2024");
    assert_eq!(sanitize("***"), "");
    assert_eq!(project_dir("  Mon Projet!  "), "data/projets/Mon_Projet");
    assert_eq!(last_project_file(), "data/last_project.txt");
}

#[test]
fn new_project_and_grafcets() {
    let mut p = Project::new("Presse".to_string());
    assert_eq!(p.name, "Presse");
    assert_eq!(p.gemma.name, "Presse");
    assert!(p.grafcets.is_empty());
    let i = p.add_grafcet("Poinçon".to_string());
    assert_eq!(i, 0);
    let ng = &p.grafcets[0];
    assert_eq!(ng.name, "Poinçon");
    assert!(!ng.generated);
    assert_eq!(ng.grafcet.steps.len(), 1);
    assert_eq!(ng.grafcet.steps[0].kind, StepKind::Initial);
    assert_eq!(ng.grafcet.steps[0].label, "E0");
    assert_eq!(ng.grafcet.next_step_id, 1);
    p.grafcet_mut(0).unwrap().short_name = Some("P".to_string());
    assert_eq!(p.grafcets[0].short_name.as_deref(), Some("P"));
    assert!(p.grafcet_mut(3).is_none());
    let other = NamedGrafcet::new("X".to_string());
    assert!(other.short_name.is_none() && other.description.is_none());
}

#[test]
fn project_page_refuses_an_empty_name() {
    let mut page = ProjectPage::default();
    page.new_name = "   ".to_string();
    assert!(page.create_clicked().is_none());
    assert_eq!(page.name_error.as_deref(), Some("Le nom ne peut pas être vide."));
    assert_eq!(page.new_name, "   ");
    page.new_name = "  Ligne 2  ".to_string();
    match page.create_clicked() {
        Some(ProjectAction::New(n)) => assert_eq!(n, "Ligne 2"),
        _ => panic!("a project should be asked for"),
    }
    assert!(page.new_name.is_empty());
    assert!(page.name_error.is_none());
}
