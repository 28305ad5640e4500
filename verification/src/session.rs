//! What the application keeps besides its pages: the open project, where it
//! is stored, the section shown and the status line, and how they change
//! when a project is created, loaded, saved or its GRAFCETs regenerated.
use vstd::prelude::*;
use vstd::string::*;
use crate::generate::{
    command_grafcet, generate_grafcets, generated_named, invalid_gemma_status, joined, safety_grafcet,
};
use crate::gemma::{validation_errors, GemmaView};
use crate::project::{hand_made, keep_hand_made, project_dir, sanitized, Project, Section};
use crate::text::{append_str, string_of};

verus! {

/// The application state that does not belong to a page.
pub struct App {
    pub section: Section,
    pub project: Option<Project>,
    /// Folder of the open project.
    pub current_path: Option<String>,
    pub status: String,
}

/// `« name »`, as the status line quotes a project.
pub open spec fn quoted(name: Seq<char>) -> Seq<char> {
    "« "@ + name + " »"@
}

fn push_quoted(s: &mut String, name: &str)
    ensures
        final(s)@ == old(s)@ + quoted(name@),
{
    append_str(s, "« ");
    append_str(s, name);
    append_str(s, " »");
}

impl App {
    /// No project open, the project section shown, a welcome line.
    pub fn new() -> (a: App)
        ensures
            a.section == Section::Project,
            a.project.is_none(),
            a.current_path.is_none(),
            a.status@ == "Bienvenue dans Gemma Suite"@,
    {
        App { section: Section::Project, project: None, current_path: None, status: string_of("Bienvenue dans Gemma Suite") }
    }

    /// Opens a new empty project named `name` and shows its GEMMA. Returns
    /// the folder where it is to be saved, which becomes the current path.
    pub fn open_new_project(&mut self, name: String) -> (dir: String)
        ensures
            dir@ == "data/projets/"@ + sanitized(name@),
            final(self).current_path matches Some(d) && d@ == dir@,
            final(self).section == Section::Gemma,
            final(self).project matches Some(p) && {
                &&& p.name@ == name@
                &&& p.description@ == Seq::<char>::empty()
                &&& p.documentation@ == Seq::<char>::empty()
                &&& p.grafcets@.len() == 0
                &&& p.gemma@ == (GemmaView {
                    states: Seq::empty(),
                    transitions: Seq::empty(),
                    next_trans_id: 0,
                    name: name@,
                    description: Seq::empty(),
                })
            },
            final(self).status == old(self).status,
    {
        let dir = project_dir(name.as_str());
        self.project = Some(Project::new(name));
        self.current_path = Some(dir.clone());
        self.section = Section::Gemma;
        dir
    }

    /// Status after the new project `name` was saved, or failed to be.
    pub fn new_project_saved(&mut self, name: &str, result: Result<(), String>)
        ensures
            final(self).status@ == match result {
                Ok(()) => "Projet "@ + quoted(name@) + " créé"@,
                Err(e) => "Projet créé (erreur sauvegarde: "@ + e@ + ")"@,
            },
            final(self).section == old(self).section,
            final(self).current_path == old(self).current_path,
    {
        match result {
            Ok(()) => {
                let mut s = string_of("Projet ");
                push_quoted(&mut s, name);
                append_str(&mut s, " créé");
                self.status = s;
            },
            Err(e) => {
                let mut s = string_of("Projet créé (erreur sauvegarde: ");
                append_str(&mut s, e.as_str());
                append_str(&mut s, ")");
                self.status = s;
            },
        }
    }

    /// A project was loaded from folder `dir`: it becomes the open project
    /// and its GEMMA is shown. Returns whether the GEMMA has states (then
    /// the editor fits it to the canvas); the status says so otherwise.
    pub fn project_loaded(&mut self, p: Project, dir: String) -> (fit: bool)
        ensures
            fit == (p.gemma@.states.len() > 0),
            final(self).project == Some(p),
            final(self).current_path == Some(dir),
            final(self).section == Section::Gemma,
            final(self).status@ == if fit {
                "Projet "@ + quoted(p.name@) + " chargé"@
            } else {
                "Projet "@ + quoted(p.name@) + " chargé — GEMMA vide, utilisez le Questionnaire pour générer"@
            },
    {
        let fit = p.gemma.states.len() > 0;
        let mut s = string_of("Projet ");
        push_quoted(&mut s, p.name.as_str());
        if fit {
            append_str(&mut s, " chargé");
        } else {
            append_str(&mut s, " chargé — GEMMA vide, utilisez le Questionnaire pour générer");
        }
        self.status = s;
        self.project = Some(p);
        self.current_path = Some(dir);
        self.section = Section::Gemma;
        fit
    }

    /// The last project was reloaded at start-up from folder `dir`. Returns
    /// whether its GEMMA has states.
    pub fn project_restored(&mut self, p: Project, dir: String) -> (fit: bool)
        ensures
            fit == (p.gemma@.states.len() > 0),
            final(self).status@ == "Dernier projet "@ + quoted(p.name@) + " rechargé"@,
            final(self).project == Some(p),
            final(self).current_path == Some(dir),
            final(self).section == Section::Gemma,
    {
        let fit = p.gemma.states.len() > 0;
        let mut s = string_of("Dernier projet ");
        push_quoted(&mut s, p.name.as_str());
        append_str(&mut s, " rechargé");
        self.status = s;
        self.project = Some(p);
        self.current_path = Some(dir);
        self.section = Section::Gemma;
        fit
    }

    /// A project could not be loaded.
    pub fn load_failed(&mut self, error: &str)
        ensures
            final(self).status@ == "Erreur chargement : "@ + error@,
            final(self).project == old(self).project,
            final(self).section == old(self).section,
            final(self).current_path == old(self).current_path,
    {
        let mut s = string_of("Erreur chargement : ");
        append_str(&mut s, error);
        self.status = s;
    }

    /// Where the open project is to be saved: its current folder, else the
    /// folder of its name. Without a project, the status says there is
    /// nothing to save.
    pub fn save_target(&mut self) -> (r: Option<String>)
        ensures
            old(self).project.is_none() ==> r.is_none() && final(self).status@ == "Aucun projet à sauvegarder"@,
            old(self).project matches Some(p) ==> {
                &&& r matches Some(d) && d@ == match old(self).current_path {
                    Some(c) => c@,
                    None => "data/projets/"@ + sanitized(p.name@),
                }
                &&& final(self).status == old(self).status
            },
            final(self).project == old(self).project,
            final(self).current_path == old(self).current_path,
            final(self).section == old(self).section,
    {
        match &self.project {
            None => {
                self.status = string_of("Aucun projet à sauvegarder");
                None
            },
            Some(p) => match &self.current_path {
                Some(c) => Some(c.clone()),
                None => Some(project_dir(p.name.as_str())),
            },
        }
    }

    /// The open project was saved to `dir`, or failed to be.
    pub fn project_saved(&mut self, dir: String, result: Result<(), String>)
        ensures
            match result {
                Ok(()) => {
                    &&& final(self).current_path == Some(dir)
                    &&& final(self).status@ == "Sauvegardé : "@ + dir@
                },
                Err(e) => {
                    &&& final(self).current_path == old(self).current_path
                    &&& final(self).status@ == "Erreur sauvegarde : "@ + e@
                },
            },
            final(self).project == old(self).project,
            final(self).section == old(self).section,
    {
        match result {
            Ok(()) => {
                let mut s = string_of("Sauvegardé : ");
                append_str(&mut s, dir.as_str());
                self.status = s;
                self.current_path = Some(dir);
            },
            Err(e) => {
                let mut s = string_of("Erreur sauvegarde : ");
                append_str(&mut s, e.as_str());
                self.status = s;
            },
        }
    }

    /// Regenerates the generated GRAFCETs of the open project from its GEMMA:
    /// the GRAFCETs made by hand stay, in their order, the generated ones are
    /// dropped, and the safety and the command GRAFCET (see
    /// `generate_grafcets`) follow them; the GRAFCET section is shown. Without
    /// a project, or with a GEMMA that is not valid, only the status changes.
    /// Returns whether the GRAFCETs were regenerated.
    pub fn regenerate_grafcets(&mut self) -> (done: bool)
        requires
            old(self).project matches Some(p) ==> p.gemma@.states.len() + 16 < u32::MAX
                && p.gemma@.transitions.len() < u32::MAX,
        ensures
            old(self).project.is_none() ==> !done && final(self).status@ == "Aucun projet ouvert"@
                && final(self).project.is_none() && final(self).section == old(self).section,
            old(self).project matches Some(p) ==> {
                let g = p.gemma@;
                let errors = validation_errors(g.states, g.transitions);
                &&& done == (errors.len() == 0)
                &&& !done ==> final(self).project == old(self).project
                &&& done ==> (final(self).project matches Some(q) && {
                    let kept = hand_made(p.grafcets@);
                    &&& q.name == p.name
                    &&& q.description == p.description
                    &&& q.documentation == p.documentation
                    &&& q.gemma == p.gemma
                    &&& q.grafcets@.len() == kept.len() + 2
                    &&& q.grafcets@.take(kept.len() as int) == kept
                    &&& q.grafcets@[kept.len() as int]@ == generated_named("GS"@, safety_grafcet(g))
                    &&& q.grafcets@[kept.len() as int + 1]@ == generated_named("GC"@, command_grafcet(g))
                })
                &&& done ==> final(self).section == Section::Grafcets
                    && final(self).status@ == "Grafcets générés : GS (2 étapes) + GC (GEMMA complet) ✓"@
                &&& !done ==> final(self).section == old(self).section
                    && final(self).status@ == "GEMMA invalide : "@ + joined(errors, " | "@)
            },
            final(self).current_path == old(self).current_path,
    {
        match self.project.take() {
            None => {
                self.status = string_of("Aucun projet ouvert");
                false
            },
            Some(mut p) => {
                let r = generate_grafcets(&p.gemma);
                let done = match r {
                    Err(errors) => {
                        self.status = invalid_gemma_status(errors.as_slice());
                        false
                    },
                    Ok(v) => {
                        let ghost kept_before = hand_made(p.grafcets@);
                        keep_hand_made(&mut p.grafcets);
                        let ghost n = p.grafcets@.len();
                        let mut v = v;
                        let c = v.pop();
                        let s = v.pop();
                        match (s, c) {
                            (Some(s), Some(c)) => {
                                p.grafcets.push(s);
                                p.grafcets.push(c);
                            },
                            _ => {},
                        }
                        assert(p.grafcets@.take(n as int) =~= kept_before);
                        self.status = string_of("Grafcets générés : GS (2 étapes) + GC (GEMMA complet) ✓");
                        self.section = Section::Grafcets;
                        true
                    },
                };
                self.project = Some(p);
                done
            },
        }
    }
}

} // verus!
