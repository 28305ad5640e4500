use gemma_suite::gemma::{Expr, GemmaState, StateType};
use gemma_suite::grafcet::Grafcet;
use gemma_suite::layout::distinct_ids_of;
use gemma_suite::project::{project_dir, sanitize, Project, Section};
use gemma_suite::session::App;
use gemma_suite::storage::{grafcet_file_name, order_grafcet_files};

fn state(id: &str, t: StateType) -> GemmaState {
    GemmaState { id: id.to_string(), state_type: t, description: String::new(), action: String::new() }
}

fn names(v: &[&str]) -> Vec<String> {
    v.iter().map(|s| s.to_string()).collect()
}

#[test]
fn a_new_application_shows_the_project_page() {
    let app = App::new();
    assert_eq!(app.section, Section::Project);
    assert!(app.project.is_none());
    assert!(app.current_path.is_none());
    assert_eq!(app.status, "Bienvenue dans Gemma Suite");
}

#[test]
fn creating_a_project() {
    let mut app = App::new();
    let dir = app.open_new_project("Ligne A".to_string());
    assert_eq!(dir, "data/projets/Ligne_A");
    assert_eq!(app.current_path.as_deref(), Some("data/projets/Ligne_A"));
    assert_eq!(app.section, Section::Gemma);
    assert_eq!(app.project.as_ref().unwrap().name, "Ligne A");
    app.new_project_saved("Ligne A", Ok(()));
    assert_eq!(app.status, "Projet « Ligne A » créé");
    app.new_project_saved("Ligne A", Err("disque plein".to_string()));
    assert_eq!(app.status, "Projet créé (erreur sauvegarde: disque plein)");
}

#[test]
fn loading_a_project() {
    let mut app = App::new();
    let p = Project::new("Vide".to_string());
    assert!(!app.project_loaded(p, "d".to_string()));
    assert_eq!(app.status, "Projet « Vide » chargé — GEMMA vide, utilisez le Questionnaire pour générer");
    assert_eq!(app.section, Section::Gemma);
    let mut q = Project::new("Plein".to_string());
    q.gemma.states.push(state("A1", StateType::Command));
    assert!(app.project_loaded(q, "e".to_string()));
    assert_eq!(app.status, "Projet « Plein » chargé");
    assert_eq!(app.current_path.as_deref(), Some("e"));
    app.load_failed("fichier absent");
    assert_eq!(app.status, "Erreur chargement : fichier absent");
    let r = Project::new("R".to_string());
    assert!(!app.project_restored(r, "f".to_string()));
    assert_eq!(app.status, "Dernier projet « R » rechargé");
}

#[test]
fn saving_a_project() {
    let mut app = App::new();
    assert!(app.save_target().is_none());
    assert_eq!(app.status, "Aucun projet à sauvegarder");
    app.project = Some(Project::new("Mon projet".to_string()));
    assert_eq!(app.save_target().as_deref(), Some("data/projets/Mon_projet"));
    app.current_path = Some("ailleurs".to_string());
    assert_eq!(app.save_target().as_deref(), Some("ailleurs"));
    app.project_saved("ici".to_string(), Ok(()));
    assert_eq!(app.status, "Sauvegardé : ici");
    assert_eq!(app.current_path.as_deref(), Some("ici"));
    app.project_saved("là".to_string(), Err("refus".to_string()));
    assert_eq!(app.status, "Erreur sauvegarde : refus");
    assert_eq!(app.current_path.as_deref(), Some("ici"));
}

#[test]
fn regenerating_grafcets() {
    let mut app = App::new();
    assert!(!app.regenerate_grafcets());
    assert_eq!(app.status, "Aucun projet ouvert");
    let mut p = Project::new("P".to_string());
    p.add_grafcet("Manuel".to_string());
    p.gemma.states.push(state("A1", StateType::Command));
    p.gemma.add_transition("A1".to_string(), "X".to_string(), Expr::True);
    app.project = Some(p);
    assert!(!app.regenerate_grafcets());
    assert_eq!(app.status, "GEMMA invalide : Transition 0: état destination 'X' inconnu");
    assert_eq!(app.project.as_ref().unwrap().grafcets.len(), 1);
    app.project.as_mut().unwrap().gemma.transitions.clear();
    assert!(app.regenerate_grafcets());
    let q = app.project.as_ref().unwrap();
    assert_eq!(q.grafcets.len(), 3);
    assert_eq!(q.grafcets[0].name, "Manuel");
    assert!(!q.grafcets[0].generated);
    assert_eq!(q.grafcets[1].name, "GS");
    assert_eq!(q.grafcets[2].name, "GC");
    assert_eq!(app.section, Section::Grafcets);
    assert_eq!(app.status, "Grafcets générés : GS (2 étapes) + GC (GEMMA complet) ✓");
}

#[test]
fn regenerating_again_replaces_only_the_generated_grafcets() {
    let mut app = App::new();
    let mut p = Project::new("P".to_string());
    p.add_grafcet("Premier".to_string());
    p.gemma.states.push(state("A1", StateType::Command));
    app.project = Some(p);
    assert!(app.regenerate_grafcets());
    app.project.as_mut().unwrap().add_grafcet("Second".to_string());
    assert!(app.regenerate_grafcets());
    let q = app.project.as_ref().unwrap();
    let got: Vec<&str> = q.grafcets.iter().map(|g| g.name.as_str()).collect();
    assert_eq!(got, vec!["Premier", "Second", "GS", "GC"]);
}

#[test]
fn a_new_project_is_empty() {
    let mut app = App::new();
    let dir = app.open_new_project("Ma ligne".to_string());
    assert_eq!(dir, "data/projets/Ma_ligne");
    let p = app.project.as_ref().unwrap();
    assert_eq!((p.description.as_str(), p.documentation.as_str()), ("", ""));
    assert_eq!(p.gemma.name, "Ma ligne");
    assert_eq!(p.gemma.next_trans_id, 0);
}

#[test]
fn stored_grafcet_files() {
    assert_eq!(grafcet_file_name("Mon grafcet"), "Mon_grafcet.json");
    assert_eq!(grafcet_file_name("GS"), "GS.json");
    let order = order_grafcet_files(names(&["Zeta", "GPN", "alpha", "GC", "Beta", "GS"]));
    assert_eq!(order, names(&["GS", "GC", "GPN", "Beta", "Zeta", "alpha"]));
    assert!(order_grafcet_files(Vec::new()).is_empty());
    assert_eq!(order_grafcet_files(names(&["b", "a", "ab"])), names(&["a", "ab", "b"]));
}

#[test]
fn distinct_step_identifiers() {
    let mut g = Grafcet::new();
    g.add_step();
    g.add_step();
    assert!(distinct_ids_of(&g));
    g.steps[1].id = 0;
    assert!(!distinct_ids_of(&g));
    assert!(distinct_ids_of(&Grafcet::new()));
}

#[test]
fn folder_names_keep_no_separator_dot_or_space() {
    assert_eq!(sanitize("  ../Ma ligne/v1.2 "), "Ma_ligne_v1_2");
    assert_eq!(project_dir("a\\b c"), "data/projets/a_b_c");
}

#[test]
fn regenerating_without_project_keeps_the_section() {
    let mut app = App::new();
    app.section = Section::Grafcets;
    assert!(!app.regenerate_grafcets());
    assert_eq!(app.section, Section::Grafcets);
}
