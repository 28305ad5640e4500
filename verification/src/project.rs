//! A project: a GEMMA, named GRAFCETs, and where it is stored.
use vstd::prelude::*;
use vstd::string::*;
use crate::grafcet::{Grafcet, GrafcetView, StepKind, StepView, new_step_view, step_index};
use crate::gemma::{Gemma, GemmaView};
use crate::text::{
    append_str, char_is_alphanumeric, str_trim, str_trim_char, string_of, string_push,
    is_ascii_alphanumeric, strip_end_char, strip_start_char, trim_spec, unicode_alphanumeric,
};

verus! {

/// A named GRAFCET of the project.
pub struct NamedGrafcet {
    pub name: String,
    /// Short symbolic name shown in the tab (for example `A1→F1`); `None`
    /// for GRAFCETs made by hand.
    pub short_name: Option<String>,
    /// Full description of the circuit, shown when hovering the tab.
    pub description: Option<String>,
    pub grafcet: Grafcet,
    /// Made from the GEMMA: shown as text until it is laid out.
    pub generated: bool,
}

/// Mathematical model of a named GRAFCET.
pub struct NamedGrafcetView {
    pub name: Seq<char>,
    pub short_name: Option<Seq<char>>,
    pub description: Option<Seq<char>>,
    pub grafcet: GrafcetView,
    pub generated: bool,
}

pub open spec fn opt_text(o: Option<String>) -> Option<Seq<char>> {
    match o {
        Some(s) => Some(s@),
        None => None,
    }
}

impl View for NamedGrafcet {
    type V = NamedGrafcetView;

    open spec fn view(&self) -> NamedGrafcetView {
        NamedGrafcetView {
            name: self.name@,
            short_name: opt_text(self.short_name),
            description: opt_text(self.description),
            grafcet: self.grafcet@,
            generated: self.generated,
        }
    }
}

/// The GRAFCET of a new named GRAFCET: one initial step `E0`.
pub open spec fn starter_grafcet() -> GrafcetView {
    GrafcetView {
        steps: seq![StepView { kind: StepKind::Initial, ..new_step_view(0) }],
        transitions: Seq::empty(),
        next_step_id: 1,
        next_trans_id: 0,
        next_and_group_id: 0,
    }
}

impl NamedGrafcet {
    /// A hand-made GRAFCET holding one initial step.
    pub fn new(name: String) -> (ng: NamedGrafcet)
        ensures
            ng@ == (NamedGrafcetView {
                name: name@,
                short_name: None,
                description: None,
                grafcet: starter_grafcet(),
                generated: false,
            }),
    {
        let mut grafcet = Grafcet::new();
        let id = grafcet.add_step();
        assert(grafcet@.steps.drop_last() =~= Seq::<StepView>::empty());
        assert(step_index(Seq::<StepView>::empty(), id) == -1);
        assert(grafcet@.steps.last().id == 0);
        assert(step_index(grafcet@.steps, id) == 0);
        if let Some(s) = grafcet.step_mut(id) {
            s.kind = StepKind::Initial;
        }
        assert(grafcet.steps@[0]@ == StepView { kind: StepKind::Initial, ..new_step_view(0) });
        assert(grafcet@.steps =~= seq![StepView { kind: StepKind::Initial, ..new_step_view(0) }]);
        NamedGrafcet { name, short_name: None, description: None, grafcet, generated: false }
    }
}

/// A complete project.
pub struct Project {
    pub name: String,
    pub description: String,
    /// Free documentation of the project (Markdown page).
    pub documentation: String,
    pub gemma: Gemma,
    pub grafcets: Vec<NamedGrafcet>,
}

impl Project {
    /// An empty project whose GEMMA bears the project's name.
    pub fn new(name: String) -> (p: Project)
        ensures
            p.name@ == name@,
            p.description@ == Seq::<char>::empty(),
            p.documentation@ == Seq::<char>::empty(),
            p.gemma@ == (GemmaView {
                states: Seq::empty(),
                transitions: Seq::empty(),
                next_trans_id: 0,
                name: name@,
                description: Seq::empty(),
            }),
            p.grafcets@.len() == 0,
    {
        let mut gemma = Gemma::new();
        gemma.name = name.clone();
        Project {
            name,
            description: String::new(),
            documentation: String::new(),
            gemma,
            grafcets: Vec::new(),
        }
    }

    /// Appends a new hand-made GRAFCET and returns its index.
    pub fn add_grafcet(&mut self, name: String) -> (idx: usize)
        ensures
            idx == old(self).grafcets@.len(),
            final(self).grafcets@.len() == old(self).grafcets@.len() + 1,
            forall|i: int| 0 <= i < idx ==> final(self).grafcets@[i] == old(self).grafcets@[i],
            final(self).grafcets@[idx as int]@ == (NamedGrafcetView {
                name: name@,
                short_name: None,
                description: None,
                grafcet: starter_grafcet(),
                generated: false,
            }),
            final(self).name == old(self).name,
            final(self).description == old(self).description,
            final(self).documentation == old(self).documentation,
            final(self).gemma == old(self).gemma,
    {
        self.grafcets.push(NamedGrafcet::new(name));
        self.grafcets.len() - 1
    }

    /// The GRAFCET at index `idx`, for modification.
    pub fn grafcet_mut(&mut self, idx: usize) -> (r: Option<&mut NamedGrafcet>)
        ensures
            match r {
                Some(g) => {
                    &&& idx < old(self).grafcets@.len()
                    &&& *g == old(self).grafcets@[idx as int]
                    &&& final(self).grafcets@ == old(self).grafcets@.update(idx as int, *final(g))
                    &&& final(self).name == old(self).name
                    &&& final(self).description == old(self).description
                    &&& final(self).documentation == old(self).documentation
                    &&& final(self).gemma == old(self).gemma
                },
                None => idx >= old(self).grafcets@.len() && *final(self) == *old(self),
            },
    {
        if idx < self.grafcets.len() {
            Some(&mut self.grafcets[idx])
        } else {
            None
        }
    }
}

/// The GRAFCETs of `s` made by hand (not generated), in their order.
pub open spec fn hand_made(s: Seq<NamedGrafcet>) -> Seq<NamedGrafcet>
    decreases s.len(),
{
    if s.len() == 0 {
        Seq::empty()
    } else if s.last().generated {
        hand_made(s.drop_last())
    } else {
        hand_made(s.drop_last()).push(s.last())
    }
}

/// Drops the generated GRAFCETs of `v` and keeps the others in their order.
pub(crate) fn keep_hand_made(v: &mut Vec<NamedGrafcet>)
    ensures
        final(v)@ == hand_made(old(v)@),
{
    let ghost orig = v@;
    let ghost mut k: int = 0;
    let mut i: usize = 0;
    while i < v.len()
        invariant
            0 <= i <= v@.len(),
            i <= k <= orig.len(),
            v@.take(i as int) == hand_made(orig.take(k)),
            v@.skip(i as int) == orig.skip(k),
            v@.len() - i == orig.len() - k,
        decreases v@.len() - i,
    {
        let ghost before = v@;
        proof {
            assert(orig.take(k + 1).drop_last() =~= orig.take(k));
            assert(orig[k] == before.skip(i as int)[0]);
            assert(orig.take(k + 1).last() == orig[k]);
        }
        if v[i].generated {
            v.remove(i);
            proof {
                assert(v@ =~= before.remove(i as int));
                assert(v@.take(i as int) =~= before.take(i as int));
                assert forall|j: int| 0 <= j < v@.len() - i implies #[trigger] v@.skip(i as int)[j] == orig.skip(k + 1)[j] by {
                    assert(before.skip(i as int)[j + 1] == orig.skip(k)[j + 1]);
                }
                assert(v@.skip(i as int) =~= orig.skip(k + 1));
                k = k + 1;
            }
        } else {
            proof {
                assert(v@.take(i + 1) =~= before.take(i as int).push(before[i as int]));
                assert forall|j: int| 0 <= j < v@.len() - i - 1 implies #[trigger] v@.skip(i + 1)[j] == orig.skip(k + 1)[j] by {
                    assert(before.skip(i as int)[j + 1] == orig.skip(k)[j + 1]);
                }
                assert(v@.skip(i + 1) =~= orig.skip(k + 1));
                k = k + 1;
            }
            i = i + 1;
        }
    }
    proof {
        assert(orig.take(k) =~= orig);
        assert(v@.take(i as int) =~= v@);
    }
}

// ── Storage paths ─────────────────────────────────────────────────────────────

/// What a name becomes in a folder name: letters, digits and `-` stay, any
/// other character becomes `_`.
pub open spec fn folder_char(c: char) -> char {
    if unicode_alphanumeric(c) || c == '-' {
        c
    } else {
        '_'
    }
}

pub open spec fn folder_chars(s: Seq<char>) -> Seq<char> {
    Seq::new(s.len(), |i: int| folder_char(s[i]))
}

/// A name made fit for a folder: trimmed, its characters mapped by
/// `folder_char`, then stripped of leading and trailing `_`.
pub open spec fn sanitized(name: Seq<char>) -> Seq<char> {
    strip_end_char(strip_start_char(folder_chars(trim_spec(name)), '_'), '_')
}

/// What a folder name keeps of ASCII: letters, digits, `-` and `_` only (so no
/// path separator, no `.` and no white space), and it neither starts nor
/// ends with `_`.
pub open spec fn folder_safe(s: Seq<char>) -> bool {
    &&& forall|j: int| 0 <= j < s.len() && (#[trigger] s[j] as u32) < 128 ==> is_ascii_alphanumeric(s[j])
        || s[j] == '-' || s[j] == '_'
    &&& s.len() > 0 ==> s[0] != '_' && s.last() != '_'
}

proof fn lemma_strip_start(s: Seq<char>, c: char)
    ensures
        strip_start_char(s, c).len() <= s.len(),
        strip_start_char(s, c) == s.skip(s.len() - strip_start_char(s, c).len()),
        strip_start_char(s, c).len() > 0 ==> strip_start_char(s, c)[0] != c,
    decreases s.len(),
{
    if s.len() > 0 && s[0] == c {
        lemma_strip_start(s.drop_first(), c);
        let r = strip_start_char(s, c);
        assert(r =~= s.skip(s.len() - r.len()));
    } else {
        assert(s =~= s.skip(0));
    }
}

proof fn lemma_strip_end(s: Seq<char>, c: char)
    ensures
        strip_end_char(s, c).len() <= s.len(),
        strip_end_char(s, c) == s.take(strip_end_char(s, c).len() as int),
        strip_end_char(s, c).len() > 0 ==> strip_end_char(s, c).last() != c,
    decreases s.len(),
{
    if s.len() > 0 && s.last() == c {
        lemma_strip_end(s.drop_last(), c);
        let r = strip_end_char(s, c);
        assert(r =~= s.take(r.len() as int));
    } else {
        assert(s =~= s.take(s.len() as int));
    }
}

/// A name made fit for a folder (see `sanitized` and `folder_safe`).
pub fn sanitize(name: &str) -> (r: String)
    ensures
        r@ == sanitized(name@),
        folder_safe(r@),
{
    let t = str_trim(name);
    let n = t.unicode_len();
    let mut s = String::new();
    let mut i: usize = 0;
    while i < n
        invariant
            n == t@.len(),
            0 <= i <= n,
            s@ == folder_chars(t@).take(i as int),
            forall|j: int| 0 <= j < i && (#[trigger] t@[j] as u32) < 128 ==> (unicode_alphanumeric(t@[j])
                <==> is_ascii_alphanumeric(t@[j])),
        decreases n - i,
    {
        let c = t.get_char(i);
        let d = if char_is_alphanumeric(c) || c == '-' {
            c
        } else {
            '_'
        };
        string_push(&mut s, d);
        i = i + 1;
        assert(s@ =~= folder_chars(t@).take(i as int));
    }
    assert(folder_chars(t@).take(n as int) =~= folder_chars(t@));
    let r = str_trim_char(s.as_str(), '_');
    proof {
        let f = folder_chars(t@);
        let a = strip_start_char(f, '_');
        lemma_strip_start(f, '_');
        lemma_strip_end(a, '_');
        let b = strip_end_char(a, '_');
        assert forall|j: int| 0 <= j < b.len() && (#[trigger] b[j] as u32) < 128 implies is_ascii_alphanumeric(b[j])
            || b[j] == '-' || b[j] == '_' by {
            let i = j + (f.len() - a.len());
            assert(b[j] == a[j]);
            assert(a[j] == f[i]);
            assert(f[i] == folder_char(t@[i]));
        }
        if b.len() > 0 {
            assert(b[0] == a[0]);
        }
    }
    string_of(r)
}

/// Folder of a project: `data/projets/<sanitized name>`.
pub fn project_dir(name: &str) -> (r: String)
    ensures
        r@ == "data/projets/"@ + sanitized(name@),
        folder_safe(sanitized(name@)),
{
    let mut r = string_of("data/projets/");
    let s = sanitize(name);
    append_str(&mut r, s.as_str());
    r
}

/// File that remembers the last opened project.
pub fn last_project_file() -> (r: String)
    ensures
        r@ == "data/last_project.txt"@,
{
    string_of("data/last_project.txt")
}

// ── Application navigation ────────────────────────────────────────────────────

/// The section shown by the application.
#[derive(PartialEq, Eq, Structural, Clone, Copy, Debug)]
pub enum Section {
    Project,
    Gemma,
    Grafcets,
    Doc,
}

/// What the project page asks the application to do.
pub enum ProjectAction {
    /// Create a project of this name.
    New(String),
    /// Load the project file at this path.
    Load(String),
    /// Load the project of this folder (its `project.json`).
    LoadDir(String),
}

/// The message shown when a project is to be created without a name.
pub open spec fn empty_name_message() -> Seq<char> {
    "Le nom ne peut pas être vide."@
}

/// What the project page keeps between two frames: the name typed for a new
/// project, and the message shown when that name was refused.
pub struct ProjectPage {
    pub new_name: String,
    pub name_error: Option<String>,
}

impl Default for ProjectPage {
    fn default() -> (p: Self)
        ensures
            p.new_name@.len() == 0,
            p.name_error.is_none(),
    {
        ProjectPage { new_name: String::new(), name_error: None }
    }
}

impl ProjectPage {
    /// The "create" button was pressed. A name that is empty once trimmed is
    /// refused with a message, and the typed text stays; otherwise the message
    /// and the typed text are cleared and the page asks for a new project of
    /// the trimmed name.
    pub fn create_clicked(&mut self) -> (r: Option<ProjectAction>)
        ensures
            trim_spec(old(self).new_name@).len() == 0 ==> {
                &&& r.is_none()
                &&& final(self).new_name@ == old(self).new_name@
                &&& final(self).name_error matches Some(m) && m@ == empty_name_message()
            },
            trim_spec(old(self).new_name@).len() > 0 ==> {
                &&& r matches Some(ProjectAction::New(n)) && n@ == trim_spec(old(self).new_name@)
                &&& final(self).new_name@.len() == 0
                &&& final(self).name_error.is_none()
            },
    {
        let name = string_of(str_trim(self.new_name.as_str()));
        if name.as_str().unicode_len() == 0 {
            self.name_error = Some(string_of("Le nom ne peut pas être vide."));
            None
        } else {
            self.name_error = None;
            self.new_name = String::new();
            Some(ProjectAction::New(name))
        }
    }
}

} // verus!
