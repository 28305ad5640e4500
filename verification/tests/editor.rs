use gemma_suite::diagram::{is_horiz, seg_handle_range, state_name, state_name_split, Side};
use gemma_suite::editing::{connect_click, link_click, split_forcing, LinkClick};
use gemma_suite::gemma::{Expr, Gemma, GemmaState, StateType};
use gemma_suite::grafcet::{Grafcet, StepKind};
use gemma_suite::layout::layout_plan;
use gemma_suite::project::Project;
use gemma_suite::simulation::{condition_button_text, Simulation};
use gemma_suite::tabs::{arrows, scroll_offset, shown_tab, tab_after_delete, visible_offset, TABS_PAGE};

fn state(id: &str, t: StateType) -> GemmaState {
    GemmaState { id: id.to_string(), state_type: t, description: String::new(), action: String::new() }
}

fn small_gemma() -> Gemma {
    let mut g = Gemma::new();
    g.states.push(state("A1", StateType::Command));
    g.states.push(state("F1", StateType::Production));
    g.states.push(state("D1", StateType::Safety));
    g.add_transition("A1".to_string(), "F1".to_string(), Expr::Var("Depart".to_string()));
    g.add_transition("F1".to_string(), "A1".to_string(), Expr::True);
    g.add_transition("F1".to_string(), "D1".to_string(), Expr::Var("AU".to_string()));
    g
}

fn grafcet_with(n: u32, links: &[(u32, u32)], initial: Option<u32>) -> Grafcet {
    let mut g = Grafcet::new();
    for _ in 0..n {
        g.add_step();
    }
    if let Some(i) = initial {
        g.step_mut(i).unwrap().kind = StepKind::Initial;
    }
    for (a, b) in links {
        g.add_transition(*a, *b);
    }
    g
}

#[test]
fn state_titles() {
    assert_eq!(state_name("A1"), "Arrêt dans\nl'état initial");
    assert_eq!(state_name("F1"), "Production normale");
    assert_eq!(state_name("F6"), "Marches\nde test");
    assert_eq!(state_name("Z9"), "");
}

#[test]
fn titles_cut_after_the_first_word() {
    assert_eq!(state_name_split("Arrêt dans\nl'état initial"), ("Arrêt dans", "l'état initial"));
    assert_eq!(state_name_split("Production normale"), ("Production", "normale"));
    assert_eq!(state_name_split("A\n\nB"), ("A", "B"));
    assert_eq!(state_name_split("x   y"), ("x", "y"));
    assert_eq!(state_name_split("Seul"), ("Seul", ""));
    assert_eq!(state_name_split(""), ("", ""));
}

#[test]
fn draggable_segments() {
    assert_eq!(seg_handle_range(4), 1..2);
    assert_eq!(seg_handle_range(6), 2..3);
    assert_eq!(seg_handle_range(9), 2..6);
    assert_eq!(seg_handle_range(5), 0..0);
    assert_eq!(seg_handle_range(2), 0..0);
    assert!(is_horiz(Side::E) && is_horiz(Side::W));
    assert!(!is_horiz(Side::N) && !is_horiz(Side::S));
}

#[test]
fn simulation_starts_from_a1() {
    let g = small_gemma();
    let mut sim = Simulation::default();
    assert!(!sim.active);
    let status = sim.start(&g);
    assert_eq!(status, "Simulation démarrée — état actif : A1");
    assert!(sim.active);
    assert_eq!(sim.state, "A1");
    assert_eq!(sim.history, vec!["▶ Départ : A1".to_string()]);
}

#[test]
fn simulation_starts_from_the_first_state_without_a1() {
    let mut g = Gemma::new();
    g.states.push(state("F2", StateType::Production));
    g.states.push(state("F1", StateType::Production));
    let mut sim = Simulation::default();
    sim.start(&g);
    assert_eq!(sim.state, "F2");
    let mut sim2 = Simulation::default();
    sim2.start(&Gemma::new());
    assert_eq!(sim2.state, "");
}

#[test]
fn simulation_moves_only_along_transitions() {
    let g = small_gemma();
    let mut sim = Simulation::default();
    sim.start(&g);
    let av = sim.available(&g);
    assert_eq!(av.len(), 1);
    assert_eq!((av[0].0, av[0].1.as_str(), av[0].2.as_str()), (0, "F1", "Depart"));
    assert_eq!(sim.move_to(&g, &"D1".to_string()), None);
    assert_eq!(sim.state, "A1");
    assert_eq!(sim.move_to(&g, &"F1".to_string()).as_deref(), Some("Transition : A1 → F1"));
    assert_eq!(sim.state, "F1");
    assert_eq!(sim.history.last().unwrap(), "A1 →[Depart]→ F1");
    assert_eq!(sim.fire_available(&g, 2), None);
    assert_eq!(sim.state, "F1");
    assert_eq!(sim.history.len(), 2);
    let status = sim.fire_available(&g, 0).unwrap();
    assert_eq!(status, "Transition : F1 → A1");
    assert_eq!(sim.history.len(), 3);
    assert_eq!(sim.history[2], "F1 →[TRUE]→ A1");
    sim.clear_history();
    assert!(sim.history.is_empty() && sim.active);
    assert_eq!(sim.stop(), "Simulation arrêtée");
    assert!(!sim.active && sim.state.is_empty() && sim.history.is_empty());
}

#[test]
fn condition_buttons() {
    assert_eq!(condition_button_text("Depart"), "[ Depart ]");
    assert_eq!(condition_button_text("TRUE"), "[ condition libre ]");
    assert_eq!(condition_button_text("FALSE"), "[ condition libre ]");
}

#[test]
fn tab_window() {
    assert_eq!(TABS_PAGE, 8);
    assert_eq!(visible_offset(10, 0, 12, 8), 3);
    assert_eq!(visible_offset(11, 0, 12, 8), 4);
    assert_eq!(visible_offset(2, 5, 12, 8), 2);
    assert_eq!(visible_offset(0, 3, 5, 8), 0);
    assert_eq!(visible_offset(4, 4, 20, 8), 4);
    assert_eq!(arrows(0, 12, 8), (false, true));
    assert_eq!(arrows(4, 12, 8), (true, false));
    assert_eq!(arrows(0, 5, 8), (false, false));
    assert_eq!(scroll_offset(0, -1, 12, 8), 0);
    assert_eq!(scroll_offset(3, 1, 12, 8), 4);
    assert_eq!(scroll_offset(4, 1, 12, 8), 4);
    assert_eq!(scroll_offset(2, 1, 5, 8), 0);
    assert_eq!(scroll_offset(3, 0, 12, 8), 3);
    assert_eq!(shown_tab(5, 3), 2);
    assert_eq!(shown_tab(1, 3), 1);
    assert_eq!(shown_tab(0, 0), 0);
    assert_eq!(tab_after_delete(3, 1), 2);
    assert_eq!(tab_after_delete(3, 3), 2);
    assert_eq!(tab_after_delete(3, 5), 3);
    assert_eq!(tab_after_delete(0, 0), 0);
}

#[test]
fn creating_and_deleting_grafcet_tabs() {
    let mut p = Project::new("P".to_string());
    assert_eq!(p.create_grafcet("   "), None);
    assert!(p.grafcets.is_empty());
    assert_eq!(p.create_grafcet("  Vérin  "), Some(0));
    assert_eq!(p.create_grafcet("Tapis"), Some(1));
    assert_eq!(p.grafcets[0].name, "Vérin");
    assert_eq!(p.delete_grafcet(5), None);
    assert_eq!(p.delete_grafcet(0).as_deref(), Some("Vérin"));
    assert_eq!(p.grafcets.len(), 1);
    assert_eq!(p.grafcets[0].name, "Tapis");
}

#[test]
fn gemma_edits() {
    let mut g = small_gemma();
    g.set_condition(1, "Fin");
    assert!(matches!(&g.transitions[1].condition, Expr::Var(v) if v == "Fin"));
    g.set_condition(9, "x");
    g.set_action("F1", "Dosage".to_string());
    assert_eq!(g.states[1].action, "Dosage");
    g.set_action("Z", "x".to_string());
    let out = g.outgoing(&"F1".to_string());
    assert_eq!(out.len(), 2);
    assert_eq!((out[1].0, out[1].1.as_str(), out[1].2.as_str()), (2, "D1", "AU"));
    assert_eq!(g.transition_position(2), Some(2));
    g.remove_transition(0);
    let ids: Vec<u32> = g.transitions.iter().map(|t| t.id).collect();
    assert_eq!(ids, vec![1, 2]);
    g.remove_state("F1");
    let names: Vec<&str> = g.states.iter().map(|s| s.id.as_str()).collect();
    assert_eq!(names, vec!["A1", "D1"]);
    assert!(g.transitions.is_empty());
    assert_eq!(g.next_trans_id, 3);
}

#[test]
fn drawn_links_take_a_remembered_condition() {
    let mut g = small_gemma();
    let a = g.add_link("D1".to_string(), "A1".to_string(), Some("Reset".to_string()));
    let b = g.add_link("A1".to_string(), "D1".to_string(), Some(String::new()));
    let c = g.add_link("D1".to_string(), "F1".to_string(), None);
    assert_eq!((a, b, c), (3, 4, 5));
    assert!(matches!(&g.transitions[3].condition, Expr::Var(v) if v == "Reset"));
    assert!(matches!(g.transitions[4].condition, Expr::True));
    assert!(matches!(g.transitions[5].condition, Expr::True));
    g.clear_transitions();
    assert!(g.transitions.is_empty());
    assert_eq!(g.next_trans_id, 6);
}

#[test]
fn layout_of_an_empty_grafcet() {
    assert!(layout_plan(&Grafcet::new()).is_none());
}

#[test]
fn layout_of_a_loop() {
    let g = grafcet_with(3, &[(0, 1), (1, 2), (2, 0)], Some(0));
    let p = layout_plan(&g).unwrap();
    assert_eq!(p.start, 0);
    assert_eq!(p.back, vec![false, false, true]);
    assert_eq!(p.finish, vec![2, 1, 0]);
    assert_eq!(p.reached, 3);
    assert_eq!(p.levels, vec![(0, 0), (1, 1), (2, 2)]);
    assert_eq!(p.places, vec![(0, 0, 1), (1, 0, 1), (2, 0, 1)]);
    assert_eq!(p.divergent, vec![false, false, false]);
    assert_eq!(p.route_rank, vec![0, 0, 0]);
}

#[test]
fn layout_with_a_divergence_and_an_unreached_step() {
    let g = grafcet_with(4, &[(0, 1), (0, 2), (1, 0), (2, 0)], Some(0));
    let p = layout_plan(&g).unwrap();
    assert_eq!(p.back, vec![false, false, true, true]);
    assert_eq!(p.finish, vec![2, 0, 1, 3]);
    assert_eq!(p.reached, 3);
    assert_eq!(p.levels, vec![(0, 0), (1, 1), (2, 1), (3, 2)]);
    assert_eq!(p.places, vec![(0, 0, 1), (1, 0, 2), (1, 1, 2), (2, 0, 1)]);
    assert_eq!(p.divergent, vec![true, true, false, false]);
    assert_eq!(p.route_rank, vec![0, 0, 0, 1]);
}

#[test]
fn layout_starts_from_the_first_initial_step() {
    let g = grafcet_with(3, &[(1, 0), (0, 2)], Some(1));
    let p = layout_plan(&g).unwrap();
    assert_eq!(p.start, 1);
    assert_eq!(p.levels, vec![(1, 0), (0, 1), (2, 2)]);
    let h = grafcet_with(2, &[(1, 0)], None);
    let q = layout_plan(&h).unwrap();
    assert_eq!(q.start, 0);
    assert_eq!(q.levels, vec![(0, 0), (1, 1)]);
    assert_eq!(q.reached, 1);
}

#[test]
fn layout_counts_targets_that_are_not_steps() {
    let g = grafcet_with(2, &[(0, 7), (0, 1)], Some(0));
    let p = layout_plan(&g).unwrap();
    assert_eq!(p.back, vec![false, false]);
    assert_eq!(p.levels, vec![(0, 0), (7, 1), (1, 1)]);
    assert_eq!(p.places[1], (1, 0, 2));
    assert_eq!(p.divergent, vec![true, true]);
}

#[test]
fn layout_levels_have_no_gap() {
    let g = grafcet_with(6, &[(0, 1), (1, 2), (2, 3), (3, 1), (0, 3)], Some(0));
    let p = layout_plan(&g).unwrap();
    let top = p.levels.iter().map(|e| e.1).max().unwrap();
    for l in 0..=top {
        assert!(p.levels.iter().any(|e| e.1 == l));
    }
    // a transition that does not go back never reaches a step finished later
    for (i, t) in g.transitions.iter().enumerate() {
        if !p.back[i] {
            let a = g.steps.iter().position(|s| s.id == t.from_step).unwrap();
            let b = g.steps.iter().position(|s| s.id == t.to_step).unwrap();
            assert!(p.finish[b] < p.finish[a]);
        }
    }
}

#[test]
fn link_tool_clicks() {
    let a = Some("A1".to_string());
    let f = Some("F1".to_string());
    assert!(matches!(link_click(&None, &a), LinkClick::Source(s) if s == "A1"));
    assert!(matches!(link_click(&a, &f), LinkClick::Link(x, y) if x == "A1" && y == "F1"));
    assert!(matches!(link_click(&a, &a), LinkClick::Source(s) if s == "A1"));
    assert!(matches!(link_click(&a, &None), LinkClick::Cancel));
    assert!(matches!(link_click(&None, &None), LinkClick::Cancel));
}

#[test]
fn connect_tool_clicks() {
    assert_eq!(connect_click(None, 3), (Some(3), None));
    assert_eq!(connect_click(Some(3), 5), (None, Some((3, 5))));
    assert_eq!(connect_click(Some(3), 3), (Some(3), None));
}

#[test]
fn state_type_colours() {
    assert_eq!(StateType::Safety.rgb(), (180, 50, 50));
    assert_eq!(StateType::Command.rgb(), (50, 100, 180));
    assert_eq!(StateType::Production.rgb(), (40, 140, 70));
}

#[test]
fn forcing_orders_are_split_from_actions() {
    let a: Vec<String> = vec!["Moteur".to_string(), "F/GC:(0)".to_string(), "F".to_string(), "F/G1:{}".to_string()];
    let (normal, forcing) = split_forcing(&a);
    assert_eq!(normal, vec!["Moteur".to_string(), "F".to_string()]);
    assert_eq!(forcing, vec!["F/GC:(0)".to_string(), "F/G1:{}".to_string()]);
}

#[test]
fn an_unreached_step_goes_below_the_start() {
    let g = grafcet_with(3, &[(1, 2)], Some(0));
    let p = layout_plan(&g).unwrap();
    assert_eq!(p.reached, 1);
    assert_eq!(p.levels[0], (0, 0));
    assert!(p.levels.iter().all(|e| e.0 == 0 || e.1 >= 1));
}

#[test]
fn an_acyclic_grafcet_has_no_return_route() {
    let g = grafcet_with(4, &[(0, 1), (0, 2), (1, 3), (2, 3)], Some(0));
    let p = layout_plan(&g).unwrap();
    assert!(p.back.iter().all(|b| !b));
    assert!(p.route_rank.iter().all(|r| *r == 0));
}
