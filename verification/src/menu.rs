//! The `/menu` overlay: projects, their sessions, and an editable settings page.
//!
//! A small state machine over four pages with one row model. What is on disk
//! comes in as values: a session listing, a settings snapshot. What has to be
//! written goes out as a [`SettingsWrite`], and the result comes back in.
//!
//! Projects are derived, not stored: a project is a distinct working directory
//! among the sessions.
use crate::paths::{
    is_parts_le,
    is_same_place,
    lemma_parts_le_total,
    lemma_parts_le_trans,
    parts_le,
    parts_of,
    path_parts,
    place_name,
    place_name_of,
    same_parts,
    same_place,
};
use crate::text::{copy_option, decimal, number, strings, text_option, texts};
use vstd::prelude::*;
use vstd::string::*;

verus! {

/// What the menu asks the host to do after it closes.
#[derive(Debug, PartialEq, Eq)]
pub enum Outcome {
    /// Resume the session stored at this path.
    Resume(String),
    /// Start a fresh session with this working directory.
    NewIn(String),
}

/// What an outcome holds.
#[verifier::ext_equal]
pub enum OutcomeView {
    Resume(Seq<char>),
    NewIn(Seq<char>),
}

impl View for Outcome {
    type V = OutcomeView;

    open spec fn view(&self) -> OutcomeView {
        match self {
            Outcome::Resume(p) => OutcomeView::Resume(p@),
            Outcome::NewIn(p) => OutcomeView::NewIn(p@),
        }
    }
}

/// Which page is showing.
#[derive(Debug, PartialEq, Eq)]
pub enum MenuPage {
    Root,
    Projects,
    /// Sessions belonging to one project directory.
    Sessions(String),
    Settings,
}

/// What a page holds.
#[verifier::ext_equal]
pub enum PageView {
    Root,
    Projects,
    Sessions(Seq<char>),
    Settings,
}

impl View for MenuPage {
    type V = PageView;

    open spec fn view(&self) -> PageView {
        match self {
            MenuPage::Root => PageView::Root,
            MenuPage::Projects => PageView::Projects,
            MenuPage::Sessions(d) => PageView::Sessions(d@),
            MenuPage::Settings => PageView::Settings,
        }
    }
}

impl Clone for MenuPage {
    fn clone(&self) -> (r: Self)
        ensures
            r@ == self@,
    {
        match self {
            MenuPage::Root => MenuPage::Root,
            MenuPage::Projects => MenuPage::Projects,
            MenuPage::Sessions(d) => MenuPage::Sessions(d.clone()),
            MenuPage::Settings => MenuPage::Settings,
        }
    }
}

/// One stored session.
#[derive(Debug, PartialEq, Eq)]
pub struct SessionInfo {
    pub path: String,
    pub id: String,
    pub cwd: String,
    pub model: String,
    /// When it was last written, in nanoseconds since the epoch.
    pub modified: u64,
    pub first_prompt: Option<String>,
}

/// What a session record holds.
#[verifier::ext_equal]
pub struct SessionView {
    pub path: Seq<char>,
    pub id: Seq<char>,
    pub cwd: Seq<char>,
    pub model: Seq<char>,
    pub modified: u64,
    pub first_prompt: Option<Seq<char>>,
}

impl View for SessionInfo {
    type V = SessionView;

    open spec fn view(&self) -> SessionView {
        SessionView {
            path: self.path@,
            id: self.id@,
            cwd: self.cwd@,
            model: self.model@,
            modified: self.modified,
            first_prompt: text_option(self.first_prompt),
        }
    }
}

impl Clone for SessionInfo {
    fn clone(&self) -> (r: Self)
        ensures
            r@ == self@,
    {
        SessionInfo {
            path: self.path.clone(),
            id: self.id.clone(),
            cwd: self.cwd.clone(),
            model: self.model.clone(),
            modified: self.modified,
            first_prompt: copy_option(&self.first_prompt),
        }
    }
}

/// What some session records hold.
pub open spec fn session_views(v: Seq<SessionInfo>) -> Seq<SessionView> {
    v.map_values(|s: SessionInfo| s@)
}

/// A project: one working directory, with the sessions recorded against it.
#[derive(Debug, PartialEq, Eq)]
pub struct Project {
    pub dir: String,
    pub sessions: Vec<SessionInfo>,
    /// When its latest session was written.
    pub last: u64,
}

/// What a project holds.
#[verifier::ext_equal]
pub struct ProjectView {
    pub dir: Seq<char>,
    pub sessions: Seq<SessionView>,
    pub last: u64,
}

impl View for Project {
    type V = ProjectView;

    open spec fn view(&self) -> ProjectView {
        ProjectView { dir: self.dir@, sessions: session_views(self.sessions@), last: self.last }
    }
}

/// What some projects hold.
pub open spec fn project_views(v: Seq<Project>) -> Seq<ProjectView> {
    v.map_values(|p: Project| p@)
}

impl Project {
    /// The directory's last part, or the whole path for a root-like directory.
    pub fn name(&self) -> (r: String)
        ensures
            r@ == place_name(self@.dir),
    {
        place_name_of(self.dir.as_str())
    }
}

/// One selectable line.
#[derive(Debug, PartialEq, Eq)]
pub enum Row {
    /// Go to another page.
    Goto(MenuPage),
    Project(String),
    Session(String),
    /// Start a fresh session in this project's directory.
    NewSession(String),
    /// A settings field, by its position.
    Field(usize),
    ChangeApiKey,
    Close,
}

/// What a row holds.
#[verifier::ext_equal]
pub enum RowView {
    Goto(PageView),
    Project(Seq<char>),
    Session(Seq<char>),
    NewSession(Seq<char>),
    Field(int),
    ChangeApiKey,
    Close,
}

impl View for Row {
    type V = RowView;

    open spec fn view(&self) -> RowView {
        match self {
            Row::Goto(p) => RowView::Goto(p@),
            Row::Project(d) => RowView::Project(d@),
            Row::Session(p) => RowView::Session(p@),
            Row::NewSession(d) => RowView::NewSession(d@),
            Row::Field(i) => RowView::Field(*i as int),
            Row::ChangeApiKey => RowView::ChangeApiKey,
            Row::Close => RowView::Close,
        }
    }
}

/// What some rows hold.
pub open spec fn row_views(v: Seq<Row>) -> Seq<RowView> {
    v.map_values(|r: Row| r@)
}

/// How a settings field is edited.
#[derive(Debug, Clone, Copy, PartialEq, Eq, Structural)]
pub enum FieldKind {
    Text,
    Number,
    Bool,
    Choice,
    Model,
}

/// One editable setting as it stands.
#[derive(Debug, PartialEq, Eq)]
pub struct Field {
    pub name: String,
    pub help: String,
    /// The environment variable that outranks the saved value.
    pub env: String,
    pub kind: FieldKind,
    /// The value in force.
    pub value: String,
    /// The environment variable is set.
    pub overridden: bool,
    /// What one step forward would choose.
    pub next: Option<String>,
    /// What one step back would choose.
    pub previous: Option<String>,
}

/// What a field holds.
#[verifier::ext_equal]
pub struct FieldView {
    pub name: Seq<char>,
    pub help: Seq<char>,
    pub env: Seq<char>,
    pub kind: FieldKind,
    pub value: Seq<char>,
    pub overridden: bool,
    pub next: Option<Seq<char>>,
    pub previous: Option<Seq<char>>,
}

impl View for Field {
    type V = FieldView;

    open spec fn view(&self) -> FieldView {
        FieldView {
            name: self.name@,
            help: self.help@,
            env: self.env@,
            kind: self.kind,
            value: self.value@,
            overridden: self.overridden,
            next: text_option(self.next),
            previous: text_option(self.previous),
        }
    }
}

/// What some fields hold.
pub open spec fn field_views(v: Seq<Field>) -> Seq<FieldView> {
    v.map_values(|f: Field| f@)
}

/// Where the API key in force comes from.
#[derive(Debug, Clone, Copy, PartialEq, Eq, Structural)]
pub enum KeySource {
    /// The environment variable is set.
    Environment,
    /// The key file exists.
    File,
    Unset,
}

/// The settings in force.
#[derive(Debug, PartialEq, Eq)]
pub struct Settings {
    pub fields: Vec<Field>,
    /// The saved models.
    pub models: Vec<String>,
    /// The environment variable that holds the API key.
    pub api_key_env: String,
    pub key_source: KeySource,
}

/// What the settings hold.
#[verifier::ext_equal]
pub struct SettingsView {
    pub fields: Seq<FieldView>,
    pub models: Seq<Seq<char>>,
    pub api_key_env: Seq<char>,
    pub key_source: KeySource,
}

impl View for Settings {
    type V = SettingsView;

    open spec fn view(&self) -> SettingsView {
        SettingsView {
            fields: field_views(self.fields@),
            models: strings(self.models@),
            api_key_env: self.api_key_env@,
            key_source: self.key_source,
        }
    }
}

/// Something to write to the settings on disk.
#[derive(Debug, PartialEq, Eq)]
pub enum SettingsWrite {
    /// Check the value against the field and save it.
    Assign { field: usize, value: String },
    /// Check the name against the field, select the model and remember it.
    AddModel { field: usize, value: String },
    /// Forget a saved model.
    RemoveModel { value: String },
    /// Save the API key.
    SaveKey { value: String },
}

/// What such a request holds.
#[verifier::ext_equal]
pub enum WriteView {
    Assign { field: int, value: Seq<char> },
    AddModel { field: int, value: Seq<char> },
    RemoveModel { value: Seq<char> },
    SaveKey { value: Seq<char> },
}

impl View for SettingsWrite {
    type V = WriteView;

    open spec fn view(&self) -> WriteView {
        match self {
            SettingsWrite::Assign { field, value } => WriteView::Assign {
                field: *field as int,
                value: value@,
            },
            SettingsWrite::AddModel { field, value } => WriteView::AddModel {
                field: *field as int,
                value: value@,
            },
            SettingsWrite::RemoveModel { value } => WriteView::RemoveModel { value: value@ },
            SettingsWrite::SaveKey { value } => WriteView::SaveKey { value: value@ },
        }
    }
}

/// What an optional request holds.
pub open spec fn write_view(w: Option<SettingsWrite>) -> Option<WriteView> {
    match w {
        Some(x) => Some(x@),
        None => None,
    }
}

/// The open menu.
#[derive(Debug, PartialEq, Eq)]
pub struct MenuState {
    pub page: MenuPage,
    /// Selected row on the current page.
    pub selected: usize,
    /// The sessions, grouped into projects.
    pub projects: Vec<Project>,
    pub settings: Settings,
    /// The text being typed into a field, if any.
    pub editing: Option<String>,
    /// What is being typed is the API key.
    pub editing_api_key: bool,
    /// A line under the page: a confirmation or an error.
    pub status: Option<String>,
    /// What the host is to do once the menu has been left.
    pub pending_outcome: Option<Outcome>,
}

/// What the open menu holds.
#[verifier::ext_equal]
pub struct MenuView {
    pub page: PageView,
    pub selected: int,
    pub projects: Seq<ProjectView>,
    pub settings: SettingsView,
    pub editing: Option<Seq<char>>,
    pub editing_api_key: bool,
    pub status: Option<Seq<char>>,
    pub pending_outcome: Option<OutcomeView>,
}

/// What an optional outcome holds.
pub open spec fn outcome_view(o: Option<Outcome>) -> Option<OutcomeView> {
    match o {
        Some(x) => Some(x@),
        None => None,
    }
}

impl View for MenuState {
    type V = MenuView;

    open spec fn view(&self) -> MenuView {
        MenuView {
            page: self.page@,
            selected: self.selected as int,
            projects: project_views(self.projects@),
            settings: self.settings@,
            editing: text_option(self.editing),
            editing_api_key: self.editing_api_key,
            status: text_option(self.status),
            pending_outcome: outcome_view(self.pending_outcome),
        }
    }
}

/// The first of the projects from position `i` on whose directory is `dir`.
pub open spec fn project_from(projects: Seq<ProjectView>, dir: Seq<char>, i: int) -> Option<int>
    decreases projects.len() - i,
{
    if i < 0 || i >= projects.len() {
        None
    } else if same_place(projects[i].dir, dir) {
        Some(i)
    } else {
        project_from(projects, dir, i + 1)
    }
}

/// The rows of a project's sessions.
pub open spec fn session_rows(sessions: Seq<SessionView>) -> Seq<RowView> {
    sessions.map_values(|s: SessionView| RowView::Session(s.path))
}

impl MenuView {
    /// Where a project's directory stands among the projects.
    pub open spec fn find_project(self, dir: Seq<char>) -> Option<int> {
        project_from(self.projects, dir, 0)
    }

    /// The rows of the page, in display order.
    pub open spec fn rows(self) -> Seq<RowView> {
        match self.page {
            PageView::Root => seq![
                RowView::Goto(PageView::Projects),
                RowView::Goto(PageView::Settings),
                RowView::ChangeApiKey,
                RowView::Close,
            ],
            PageView::Projects => self.projects.map_values(
                |p: ProjectView| RowView::Project(p.dir),
            ),
            PageView::Sessions(dir) => {
                let listed = match self.find_project(dir) {
                    Some(i) => session_rows(self.projects[i].sessions),
                    None => Seq::empty(),
                };
                listed.push(RowView::NewSession(dir))
            },
            PageView::Settings => Seq::new(
                self.settings.fields.len(),
                |i: int| RowView::Field(i),
            ),
        }
    }

    /// The selected row.
    pub open spec fn current_row(self) -> Option<RowView> {
        if self.selected < self.rows().len() {
            Some(self.rows()[self.selected])
        } else {
            None
        }
    }

    /// The position of the settings field under the cursor.
    pub open spec fn current_field(self) -> Option<int> {
        match self.current_row() {
            Some(RowView::Field(i)) => Some(i),
            _ => None,
        }
    }

    /// The menu with the selection moved, wrapping at both ends.
    pub open spec fn moved(self, delta: int) -> MenuView {
        let n = self.rows().len() as int;
        MenuView {
            selected: if n == 0 {
                0
            } else {
                (self.selected + delta) % n
            },
            ..self
        }
    }

    /// The menu on another page.
    pub open spec fn on(self, page: PageView) -> MenuView {
        MenuView { page, selected: 0, editing: None, status: None, ..self }
    }

    /// The page above; the root has none.
    pub open spec fn above(self) -> Option<PageView> {
        match self.page {
            PageView::Root => None,
            PageView::Projects => Some(PageView::Root),
            PageView::Settings => Some(PageView::Root),
            PageView::Sessions(_) => Some(PageView::Projects),
        }
    }

    /// The menu with the selected field's editor open. Fields that cycle open
    /// none; a model starts from nothing, other fields from their value.
    pub open spec fn editing_current(self) -> MenuView {
        match self.current_field() {
            None => self,
            Some(i) => {
                let f = self.settings.fields[i];
                if f.kind == FieldKind::Choice || f.kind == FieldKind::Bool {
                    self
                } else {
                    MenuView {
                        editing: Some(
                            if f.kind == FieldKind::Model {
                                Seq::empty()
                            } else {
                                f.value
                            },
                        ),
                        status: None,
                        ..self
                    }
                }
            },
        }
    }

    /// The menu over a fresh listing and fresh settings, the selection kept
    /// inside its page.
    pub open spec fn reloaded(self, projects: Seq<ProjectView>, settings: SettingsView) -> MenuView {
        let loaded = MenuView { projects, settings, ..self };
        let n = loaded.rows().len() as int;
        MenuView {
            selected: if self.selected < n {
                self.selected
            } else if n == 0 {
                0
            } else {
                n - 1
            },
            status: Some("refreshed"@),
            ..loaded
        }
    }

    /// What committing a value asks to be written.
    pub open spec fn commitment(self, value: Seq<char>) -> Option<WriteView> {
        if self.editing_api_key {
            Some(WriteView::SaveKey { value })
        } else {
            match self.current_field() {
                None => None,
                Some(i) => Some(
                    if self.settings.fields[i].kind == FieldKind::Model {
                        WriteView::AddModel { field: i, value }
                    } else {
                        WriteView::Assign { field: i, value }
                    },
                ),
            }
        }
    }

    /// What a step through the selected field's values asks to be written.
    pub open spec fn step(self, forward: bool) -> Option<Seq<char>> {
        match self.current_field() {
            None => None,
            Some(i) => if forward {
                self.settings.fields[i].next
            } else {
                self.settings.fields[i].previous
            },
        }
    }
}

/// The projects of a session listing: the sessions of one directory together,
/// the newest first.
pub open spec fn listing(s: Seq<SessionView>, projects: Seq<ProjectView>) -> bool {
    exists|layout: Seq<Seq<int>>| #[trigger] grouped(s, layout, projects)
}

/// The index of a record comes before another's: newer, or as new and listed
/// earlier.
pub open spec fn newer(s: Seq<SessionView>, i: int, j: int) -> bool {
    s[i].modified > s[j].modified || (s[i].modified == s[j].modified && i < j)
}

/// The records belong to one directory.
pub open spec fn same_dir(s: Seq<SessionView>, i: int, j: int) -> bool {
    same_place(s[i].cwd, s[j].cwd)
}

/// A project comes before another: worked on later, or at the same time and in
/// a directory that comes first.
pub open spec fn before(p: ProjectView, q: ProjectView) -> bool {
    p.last > q.last || (p.last == q.last && parts_le(path_parts(p.dir), path_parts(q.dir)))
}

/// The project holds exactly these records, in this order, under the directory
/// of the one listed first.
pub open spec fn project_of(s: Seq<SessionView>, ids: Seq<int>, p: ProjectView) -> bool {
    &&& ids.len() > 0
    &&& forall|k: int| 0 <= k < ids.len() ==> 0 <= #[trigger] ids[k] < s.len()
    &&& p.sessions == ids.map_values(|i: int| s[i])
    &&& p.last == s[ids[0]].modified
    &&& exists|k: int|
        0 <= k < ids.len() && p.dir == s[#[trigger] ids[k]].cwd && forall|m: int|
            0 <= m < ids.len() ==> ids[k] <= #[trigger] ids[m]
}

/// The records of a group are those of one directory, newest first.
pub open spec fn group_of(s: Seq<SessionView>, ids: Seq<int>) -> bool {
    &&& ids.len() > 0
    &&& forall|k: int|
        0 <= k < ids.len() ==> 0 <= #[trigger] ids[k] < s.len() && same_dir(s, ids[k], ids[0])
    &&& forall|a: int, b: int| 0 <= a < b < ids.len() ==> newer(s, #[trigger] ids[a], #[trigger] ids[b])
}

/// The record is in a group.
pub open spec fn placed(layout: Seq<Seq<int>>, i: int) -> bool {
    exists|g: int| 0 <= g < layout.len() && #[trigger] layout[g].contains(i)
}

/// `out` is the records grouped by directory: every record is in a group of its
/// directory, no two groups share a directory, a group's records are newest
/// first, and the projects are those of the groups, latest first.
pub open spec fn grouped(s: Seq<SessionView>, layout: Seq<Seq<int>>, out: Seq<ProjectView>) -> bool {
    &&& out.len() == layout.len()
    &&& forall|g: int| 0 <= g < layout.len() ==> group_of(s, #[trigger] layout[g])
    &&& forall|g: int| 0 <= g < layout.len() ==> project_of(s, #[trigger] layout[g], out[g])
    &&& forall|g: int, h: int|
        0 <= g < h < layout.len() ==> !same_dir(s, #[trigger] layout[g][0], #[trigger] layout[h][0])
    &&& forall|i: int| 0 <= i < s.len() ==> #[trigger] placed(layout, i)
    &&& forall|g: int, h: int|
        0 <= g < h < out.len() ==> before(#[trigger] out[g], #[trigger] out[h])
}

/// Positions as mathematical integers.
pub open spec fn ints(v: Seq<usize>) -> Seq<int> {
    v.map_values(|i: usize| i as int)
}

/// Groups of positions as mathematical integers.
pub open spec fn groups_view(v: Seq<Vec<usize>>) -> Seq<Seq<int>> {
    v.map_values(|g: Vec<usize>| ints(g@))
}

/// Put the next record into its group, behind those that are as new.
fn insert_newest(ids: &mut Vec<usize>, i: usize, sessions: &[SessionInfo])
    requires
        i < sessions@.len(),
        group_of(session_views(sessions@), ints(old(ids)@)),
        forall|k: int| 0 <= k < old(ids)@.len() ==> (#[trigger] old(ids)@[k]) < i,
        same_dir(session_views(sessions@), i as int, old(ids)@[0] as int),
    ensures
        group_of(session_views(sessions@), ints(final(ids)@)),
        forall|k: int| 0 <= k < final(ids)@.len() ==> (#[trigger] final(ids)@[k]) <= i,
        ints(final(ids)@).contains(i as int),
        forall|j: int| ints(old(ids)@).contains(j) ==> #[trigger] ints(final(ids)@).contains(j),
        forall|j: int|
            #[trigger] ints(final(ids)@).contains(j) ==> j == i || ints(old(ids)@).contains(j),
        same_dir(session_views(sessions@), final(ids)@[0] as int, old(ids)@[0] as int),
{
    let ghost s = session_views(sessions@);
    let ghost start = ids@;
    let m: u64 = sessions[i].modified;
    let mut k: usize = 0;
    while k < ids.len() && sessions[ids[k]].modified >= m
        invariant
            k <= ids@.len(),
            ids@ == start,
            m == sessions@[i as int].modified,
            s == session_views(sessions@),
            group_of(s, ints(start)),
            forall|j: int| 0 <= j < k ==> s[#[trigger] start[j] as int].modified >= m,
            forall|j: int| 0 <= j < start.len() ==> 0 <= #[trigger] start[j] < sessions@.len(),
        decreases ids@.len() - k,
    {
        k += 1;
    }
    proof {
        assert forall|j: int| 0 <= j < start.len() implies 0 <= #[trigger] start[j] < sessions@.len() by {
            assert(ints(start)[j] == start[j]);
        }
    }
    ids.insert(k, i);
    proof {
        let a = ints(start);
        let b = ints(ids@);
        assert(b =~= a.insert(k as int, i as int));
        assert forall|j: int| 0 <= j < a.len() && j >= k implies s[#[trigger] a[j]].modified < m by {
            if j > k {
                assert(newer(s, a[k as int], a[j]));
            }
        }
        assert forall|j: int| 0 <= j < b.len() implies 0 <= #[trigger] b[j] < s.len() && same_dir(
            s,
            b[j],
            b[0],
        ) by {
            assert(same_dir(s, a[0], a[0]));
            if k == 0 {
                assert(b[0] == i as int);
            } else {
                assert(b[0] == a[0]);
            }
            if j < k {
                assert(b[j] == a[j]);
            } else if j > k {
                assert(b[j] == a[j - 1]);
            }
        }
        assert forall|x: int, y: int| 0 <= x < y < b.len() implies newer(
            s,
            #[trigger] b[x],
            #[trigger] b[y],
        ) by {
            if x < k && y == k {
                assert(b[x] == a[x]);
                assert(a[x] == start[x]);
            } else if x == k {
                assert(b[y] == a[y - 1]);
            } else if y < k {
                assert(newer(s, a[x], a[y]));
            } else if x < k {
                assert(newer(s, a[x], a[y - 1]));
            } else {
                assert(newer(s, a[x - 1], a[y - 1]));
            }
        }
        assert(b[k as int] == i as int);
        assert forall|j: int| a.contains(j) implies #[trigger] b.contains(j) by {
            let x = choose|x: int| 0 <= x < a.len() && a[x] == j;
            if x < k {
                assert(b[x] == j);
            } else {
                assert(b[x + 1] == j);
            }
        }
        assert forall|j: int| #[trigger] b.contains(j) implies j == i || a.contains(j) by {
            let x = choose|x: int| 0 <= x < b.len() && b[x] == j;
            if x < k {
                assert(a[x] == j);
            } else if x > k {
                assert(a[x - 1] == j);
            }
        }
        assert forall|x: int| 0 <= x < ids@.len() implies (#[trigger] ids@[x]) <= i by {
            if x < k {
                assert(ids@[x] == start[x]);
            } else if x > k {
                assert(ids@[x] == start[x - 1]);
            }
        }
        assert(b[0] == ids@[0]);
        assert(a[0] == start[0]);
    }
}

/// The groups hold the first `n` records, by directory; each head is the
/// position of the record of its group that was listed first.
spec fn placed_so_far(s: Seq<SessionView>, n: int, groups: Seq<Vec<usize>>, heads: Seq<usize>) -> bool {
    &&& groups.len() == heads.len()
    &&& forall|g: int| 0 <= g < groups.len() ==> group_of(s, ints((#[trigger] groups[g])@))
    &&& forall|g: int, k: int|
        #![trigger groups[g]@[k]]
        0 <= g < groups.len() && 0 <= k < groups[g]@.len() ==> heads[g] <= groups[g]@[k] < n
    &&& forall|g: int|
        0 <= g < groups.len() ==> ints(groups[g]@).contains((#[trigger] heads[g]) as int)
    &&& forall|g: int, h: int|
        0 <= g < h < groups.len() ==> !same_dir(
            s,
            (#[trigger] groups[g])@[0] as int,
            (#[trigger] groups[h])@[0] as int,
        )
    &&& forall|i: int| 0 <= i < n ==> #[trigger] placed(groups_view(groups), i)
}

/// The directory of a record is that of its group.
proof fn lemma_group_dir(s: Seq<SessionView>, ids: Seq<int>, i: int)
    requires
        group_of(s, ids),
        ids.contains(i),
    ensures
        same_dir(s, i, ids[0]),
{
    let k = choose|k: int| 0 <= k < ids.len() && ids[k] == i;
    assert(same_dir(s, ids[k], ids[0]));
}

/// Sort the records into groups by directory.
fn groups_of(sessions: &[SessionInfo]) -> (r: (Vec<Vec<usize>>, Vec<usize>))
    ensures
        placed_so_far(session_views(sessions@), sessions@.len() as int, r.0@, r.1@),
{
    let ghost s = session_views(sessions@);
    let mut groups: Vec<Vec<usize>> = Vec::new();
    let mut heads: Vec<usize> = Vec::new();
    let mut i: usize = 0;
    while i < sessions.len()
        invariant
            i <= sessions@.len(),
            s == session_views(sessions@),
            placed_so_far(s, i as int, groups@, heads@),
        decreases sessions@.len() - i,
    {
        let parts: Vec<Vec<char>> = parts_of(sessions[i].cwd.as_str());
        let mut g: usize = 0;
        let mut found: bool = false;
        while !found && g < groups.len()
            invariant
                i < sessions@.len(),
                g <= groups@.len(),
                s == session_views(sessions@),
                placed_so_far(s, i as int, groups@, heads@),
                texts(parts@) == path_parts(s[i as int].cwd),
                found ==> g < groups@.len() && same_dir(s, i as int, groups@[g as int]@[0] as int),
                forall|h: int|
                    0 <= h < g ==> !same_dir(s, i as int, (#[trigger] groups@[h])@[0] as int),
            decreases groups@.len() - g, (if found { 0int } else { 1int }),
        {
            assert(group_of(s, ints(groups@[g as int]@)));
            assert(ints(groups@[g as int]@)[0] == groups@[g as int]@[0]);
            let first: usize = groups[g][0];
            let theirs: Vec<Vec<char>> = parts_of(sessions[first].cwd.as_str());
            if same_parts(parts.as_slice(), theirs.as_slice()) {
                found = true;
            } else {
                g += 1;
            }
        }
        let ghost groups0 = groups@;
        let ghost heads0 = heads@;
        if found {
            assert(group_of(s, ints(groups0[g as int]@)));
            insert_newest(&mut groups[g], i, sessions);
            proof {
                assert(groups@ =~= groups0.update(g as int, groups@[g as int]));
                assert forall|a: int, k: int|
                    #![trigger groups@[a]@[k]]
                    0 <= a < groups@.len() && 0 <= k < groups@[a]@.len() implies heads@[a]
                    <= groups@[a]@[k] < i + 1 by {
                    if a == g {
                        let old_ids = ints(groups0[a]@);
                        let e = groups@[a]@[k] as int;
                        assert(ints(groups@[a]@)[k] == e);
                        assert(ints(groups@[a]@).contains(e));
                        let w = if e == i {
                            heads0[a] as int
                        } else {
                            e
                        };
                        assert(old_ids.contains(w));
                        let q = choose|q: int| 0 <= q < old_ids.len() && old_ids[q] == w;
                        assert(groups0[a]@[q] == w);
                    } else {
                        assert(groups@[a] == groups0[a]);
                    }
                }
                assert forall|x: int| 0 <= x < i + 1 implies #[trigger] placed(
                    groups_view(groups@),
                    x,
                ) by {
                    if x == i {
                        assert(groups_view(groups@)[g as int].contains(x));
                    } else {
                        assert(placed(groups_view(groups0), x));
                        let a = choose|a: int|
                            0 <= a < groups_view(groups0).len() && #[trigger] groups_view(
                                groups0,
                            )[a].contains(x);
                        assert(ints(groups0[a]@).contains(x));
                        if a == g {
                            assert(ints(groups@[a]@).contains(x));
                        }
                        assert(groups_view(groups@)[a].contains(x));
                    }
                }
            }
        } else {
            let mut fresh: Vec<usize> = Vec::new();
            fresh.push(i);
            assert(ints(fresh@) =~= seq![i as int]);
            assert(ints(fresh@)[0] == i as int);
            groups.push(fresh);
            heads.push(i);
            proof {
                let n = groups0.len() as int;
                assert(groups@[n]@[0] == i);
                assert(group_of(s, ints(groups@[n]@)));
                assert forall|x: int| 0 <= x < i + 1 implies #[trigger] placed(
                    groups_view(groups@),
                    x,
                ) by {
                    if x == i {
                        assert(ints(groups@[n]@)[0] == x);
                        assert(groups_view(groups@)[n].contains(x));
                    } else {
                        assert(placed(groups_view(groups0), x));
                        let a = choose|a: int|
                            0 <= a < groups_view(groups0).len() && #[trigger] groups_view(
                                groups0,
                            )[a].contains(x);
                        assert(groups@[a] == groups0[a]);
                        assert(groups_view(groups@)[a].contains(x));
                    }
                }
            }
        }
        i += 1;
    }
    (groups, heads)
}

/// The project of a group.
fn make_project(sessions: &[SessionInfo], ids: &Vec<usize>, head: usize) -> (r: Project)
    requires
        group_of(session_views(sessions@), ints(ids@)),
        ints(ids@).contains(head as int),
        forall|k: int| 0 <= k < ids@.len() ==> head <= #[trigger] ids@[k],
    ensures
        project_of(session_views(sessions@), ints(ids@), r@),
        same_place(r@.dir, session_views(sessions@)[ids@[0] as int].cwd),
{
    let ghost s = session_views(sessions@);
    let ghost all = ints(ids@);
    let ghost want = all.map_values(|i: int| s[i]);
    let mut listed: Vec<SessionInfo> = Vec::new();
    let mut k: usize = 0;
    while k < ids.len()
        invariant
            k <= ids@.len(),
            s == session_views(sessions@),
            all == ints(ids@),
            want == all.map_values(|i: int| s[i]),
            group_of(s, all),
            session_views(listed@) =~= want.take(k as int),
        decreases ids@.len() - k,
    {
        assert(all[k as int] == ids@[k as int]);
        let ghost before_push = session_views(listed@);
        let one: SessionInfo = sessions[ids[k]].clone();
        let ghost ov = one@;
        listed.push(one);
        k += 1;
        assert(session_views(listed@) =~= before_push.push(ov));
    }
    assert(want.take(k as int) =~= want);
    assert(all[0] == ids@[0]);
    proof {
        let q = choose|q: int| 0 <= q < all.len() && all[q] == head as int;
        assert(0 <= all[q] < s.len());
        lemma_group_dir(s, all, head as int);
        assert forall|m: int| 0 <= m < all.len() implies all[q] <= #[trigger] all[m] by {
            assert(ids@[m] == all[m]);
        }
    }
    let r = Project {
        dir: sessions[head].cwd.clone(),
        sessions: listed,
        last: sessions[ids[0]].modified,
    };
    proof {
        let q = choose|q: int| 0 <= q < all.len() && all[q] == head as int;
        assert(r@.dir == s[all[q]].cwd);
        assert(r@.sessions == want);
        assert(r@.last == s[all[0]].modified);
    }
    r
}

fn is_before(p: &Project, q: &Project) -> (r: bool)
    ensures
        r == before(p@, q@),
{
    if p.last != q.last {
        p.last > q.last
    } else {
        let a: Vec<Vec<char>> = parts_of(p.dir.as_str());
        let b: Vec<Vec<char>> = parts_of(q.dir.as_str());
        is_parts_le(a.as_slice(), b.as_slice())
    }
}

proof fn lemma_before_order(p: ProjectView, q: ProjectView, r: ProjectView)
    ensures
        before(p, q) || before(q, p),
        before(p, q) && before(q, r) ==> before(p, r),
{
    lemma_parts_le_total(path_parts(p.dir), path_parts(q.dir));
    if before(p, q) && before(q, r) && p.last == q.last && q.last == r.last {
        lemma_parts_le_trans(path_parts(p.dir), path_parts(q.dir), path_parts(r.dir));
    }
}

/// Put a project where it belongs among sorted ones.
fn insert_project(out: &mut Vec<Project>, p: Project) -> (k: usize)
    requires
        forall|g: int, h: int|
            0 <= g < h < old(out)@.len() ==> before(
                (#[trigger] project_views(old(out)@)[g]),
                (#[trigger] project_views(old(out)@)[h]),
            ),
    ensures
        k <= old(out)@.len(),
        project_views(final(out)@) == project_views(old(out)@).insert(k as int, p@),
        forall|g: int, h: int|
            0 <= g < h < final(out)@.len() ==> before(
                (#[trigger] project_views(final(out)@)[g]),
                (#[trigger] project_views(final(out)@)[h]),
            ),
{
    let ghost a = project_views(out@);
    let ghost x = p@;
    let mut k: usize = 0;
    while k < out.len() && is_before(&out[k], &p)
        invariant
            k <= out@.len(),
            a == project_views(out@),
            x == p@,
            forall|j: int| 0 <= j < k ==> before(#[trigger] a[j], x),
        decreases out@.len() - k,
    {
        k += 1;
    }
    proof {
        assert forall|j: int| k <= j < a.len() implies before(x, #[trigger] a[j]) by {
            lemma_before_order(a[k as int], x, x);
            if j > k {
                assert(before(a[k as int], a[j]));
                lemma_before_order(x, a[k as int], a[j]);
            }
        }
    }
    out.insert(k, p);
    proof {
        let b = project_views(out@);
        assert(b =~= a.insert(k as int, x));
        assert forall|g: int, h: int| 0 <= g < h < b.len() implies before(
            #[trigger] b[g],
            #[trigger] b[h],
        ) by {
            if g < k && h == k {
                assert(before(a[g], x));
            } else if g == k {
                assert(before(x, a[h - 1]));
            } else if h < k {
                assert(before(a[g], a[h]));
            } else if g < k {
                assert(before(a[g], a[h - 1]));
            } else {
                assert(before(a[g - 1], a[h - 1]));
            }
        }
    }
    k
}

/// Group sessions by their working directory, newest project first.
pub fn group_projects(sessions: Vec<SessionInfo>) -> (out: Vec<Project>)
    ensures
        exists|layout: Seq<Seq<int>>|
            #[trigger] grouped(session_views(sessions@), layout, project_views(out@)),
{
    let ghost s = session_views(sessions@);
    let (groups, heads) = groups_of(sessions.as_slice());
    let mut out: Vec<Project> = Vec::new();
    let ghost mut order: Seq<int> = Seq::empty();
    let mut g: usize = 0;
    while g < groups.len()
        invariant
            g <= groups@.len(),
            s == session_views(sessions@),
            placed_so_far(s, s.len() as int, groups@, heads@),
            order.len() == g,
            out@.len() == g,
            order.no_duplicates(),
            forall|x: int| 0 <= x < order.len() ==> 0 <= #[trigger] order[x] < g,
            forall|y: int| 0 <= y < g ==> #[trigger] order.contains(y),
            forall|x: int|
                #![trigger order[x]]
                0 <= x < order.len() ==> project_of(
                    s,
                    ints(groups@[order[x]]@),
                    project_views(out@)[x],
                ),
            forall|a: int, b: int|
                0 <= a < b < out@.len() ==> before(
                    (#[trigger] project_views(out@)[a]),
                    (#[trigger] project_views(out@)[b]),
                ),
        decreases groups@.len() - g,
    {
        assert(group_of(s, ints(groups@[g as int]@)));
        assert(ints(groups@[g as int]@).contains(heads@[g as int] as int));
        assert forall|k: int| 0 <= k < groups@[g as int]@.len() implies heads@[g as int]
            <= #[trigger] groups@[g as int]@[k] by {}
        let p: Project = make_project(sessions.as_slice(), &groups[g], heads[g]);
        let ghost pv = p@;
        let ghost before_out = project_views(out@);
        let ghost before_order = order;
        let k: usize = insert_project(&mut out, p);
        proof {
            order = before_order.insert(k as int, g as int);
            assert(project_views(out@).len() == out@.len());
            assert forall|x: int| 0 <= x < order.len() implies 0 <= #[trigger] order[x] < g + 1 by {
                if x < k {
                    assert(order[x] == before_order[x]);
                } else if x > k {
                    assert(order[x] == before_order[x - 1]);
                }
            }
            assert forall|x: int, y: int| 0 <= x < y < order.len() implies order[x] != order[y] by {
                if x < k {
                    assert(order[x] == before_order[x]);
                } else if x > k {
                    assert(order[x] == before_order[x - 1]);
                }
                if y < k {
                    assert(order[y] == before_order[y]);
                } else if y > k {
                    assert(order[y] == before_order[y - 1]);
                }
            }
            assert forall|y: int| 0 <= y < g + 1 implies #[trigger] order.contains(y) by {
                if y == g {
                    assert(order[k as int] == y);
                } else {
                    assert(before_order.contains(y));
                    let x = choose|x: int| 0 <= x < before_order.len() && before_order[x] == y;
                    if x < k {
                        assert(order[x] == y);
                    } else {
                        assert(order[x + 1] == y);
                    }
                }
            }
            assert forall|x: int|
                #![trigger order[x]]
                0 <= x < order.len() implies project_of(
                s,
                ints(groups@[order[x]]@),
                project_views(out@)[x],
            ) by {
                if x < k {
                    assert(order[x] == before_order[x]);
                } else if x > k {
                    assert(order[x] == before_order[x - 1]);
                }
            }
        }
        g += 1;
    }
    proof {
        let layout = order.map_values(|x: int| ints(groups@[x]@));
        assert(project_views(out@).len() == out@.len());
        assert forall|x: int| 0 <= x < layout.len() implies group_of(s, #[trigger] layout[x]) by {
            assert(group_of(s, ints(groups@[order[x]]@)));
        }
        assert forall|x: int| 0 <= x < layout.len() implies project_of(
            s,
            #[trigger] layout[x],
            project_views(out@)[x],
        ) by {
            assert(layout[x] == ints(groups@[order[x]]@));
        }
        assert forall|x: int, y: int| 0 <= x < y < layout.len() implies !same_dir(
            s,
            #[trigger] layout[x][0],
            #[trigger] layout[y][0],
        ) by {
            let a = order[x];
            let b = order[y];
            assert(group_of(s, ints(groups@[a]@)));
            assert(group_of(s, ints(groups@[b]@)));
            assert(ints(groups@[a]@)[0] == groups@[a]@[0]);
            assert(ints(groups@[b]@)[0] == groups@[b]@[0]);
            assert(a != b);
            if a < b {
                assert(!same_dir(s, groups@[a]@[0] as int, groups@[b]@[0] as int));
            } else {
                assert(!same_dir(s, groups@[b]@[0] as int, groups@[a]@[0] as int));
            }
        }
        assert forall|i: int| 0 <= i < s.len() implies #[trigger] placed(layout, i) by {
            assert(placed(groups_view(groups@), i));
            let a = choose|a: int|
                0 <= a < groups_view(groups@).len() && #[trigger] groups_view(groups@)[a].contains(
                    i,
                );
            assert(order.contains(a));
            let x = choose|x: int| 0 <= x < order.len() && order[x] == a;
            assert(layout[x] == groups_view(groups@)[a]);
            assert(layout[x].contains(i));
        }
        assert(grouped(s, layout, project_views(out@)));
    }
    out
}

/// How long ago, coarsely. Times are in nanoseconds since the epoch.
pub open spec fn age(t: int, now: int) -> Seq<char> {
    let secs = (now - t) / 1_000_000_000;
    if now < t || secs < 60 {
        "just now"@
    } else if secs < 3_600 {
        decimal((secs / 60) as nat) + "m ago"@
    } else if secs < 86_400 {
        decimal((secs / 3_600) as nat) + "h ago"@
    } else {
        decimal((secs / 86_400) as nat) + "d ago"@
    }
}

/// A compact "how long ago" for a time: the menu's recency column. A time in
/// the future reads as now.
pub fn ago(t: u64, now: u64) -> (r: String)
    ensures
        r@ == age(t as int, now as int),
{
    if now < t {
        return "just now".to_owned();
    }
    let secs: u64 = (now - t) / 1_000_000_000;
    if secs < 60 {
        "just now".to_owned()
    } else if secs < 3_600 {
        number(secs / 60).concat("m ago")
    } else if secs < 86_400 {
        number(secs / 3_600).concat("h ago")
    } else {
        number(secs / 86_400).concat("d ago")
    }
}

impl MenuState {
    /// A menu on its root page, over a session listing and the settings.
    pub fn new(sessions: Vec<SessionInfo>, settings: Settings) -> (r: Self)
        ensures
            r@.page == PageView::Root,
            r@.selected == 0,
            listing(session_views(sessions@), r@.projects),
            r@.settings == settings@,
            r@.editing is None,
            !r@.editing_api_key,
            r@.status is None,
            r@.pending_outcome is None,
    {
        let ghost s = session_views(sessions@);
        let projects: Vec<Project> = group_projects(sessions);
        let ghost pv = project_views(projects@);
        let ghost layout = choose|layout: Seq<Seq<int>>| #[trigger] grouped(s, layout, pv);
        let r = MenuState {
            page: MenuPage::Root,
            selected: 0,
            projects,
            settings,
            editing: None,
            editing_api_key: false,
            status: None,
            pending_outcome: None,
        };
        assert(r@.projects == pv);
        assert(grouped(s, layout, r@.projects));
        r
    }

    /// Where a project's directory stands among the projects.
    pub fn find_project(&self, dir: &str) -> (r: Option<usize>)
        ensures
            match r {
                Some(i) => self@.find_project(dir@) == Some(i as int) && i < self.projects@.len(),
                None => self@.find_project(dir@) is None,
            },
    {
        let mut i: usize = 0;
        while i < self.projects.len()
            invariant
                i <= self.projects@.len(),
                self@.find_project(dir@) == project_from(self@.projects, dir@, i as int),
            decreases self.projects@.len() - i,
        {
            assert(self@.projects[i as int] == self.projects@[i as int]@);
            if is_same_place(self.projects[i].dir.as_str(), dir) {
                return Some(i);
            }
            i += 1;
        }
        None
    }

    /// The project of a directory.
    pub fn project(&self, dir: &str) -> (r: Option<&Project>)
        ensures
            match r {
                Some(p) => self@.find_project(dir@) matches Some(i) && p@ == self@.projects[i],
                None => self@.find_project(dir@) is None,
            },
    {
        match self.find_project(dir) {
            Some(i) => {
                assert(self@.projects[i as int] == self.projects@[i as int]@);
                Some(&self.projects[i])
            },
            None => None,
        }
    }

    /// The current page's rows, in display order.
    pub fn rows(&self) -> (out: Vec<Row>)
        ensures
            row_views(out@) == self@.rows(),
    {
        let mut out: Vec<Row> = Vec::new();
        match &self.page {
            MenuPage::Root => {
                out.push(Row::Goto(MenuPage::Projects));
                out.push(Row::Goto(MenuPage::Settings));
                out.push(Row::ChangeApiKey);
                out.push(Row::Close);
                assert(row_views(out@) =~= self@.rows());
            },
            MenuPage::Projects => {
                let mut i: usize = 0;
                while i < self.projects.len()
                    invariant
                        i <= self.projects@.len(),
                        self@.page == PageView::Projects,
                        self@.rows().len() == self.projects@.len(),
                        row_views(out@) =~= self@.rows().take(i as int),
                    decreases self.projects@.len() - i,
                {
                    let ghost so_far = row_views(out@);
                    let row = Row::Project(self.projects[i].dir.clone());
                    let ghost rv = row@;
                    assert(self@.projects[i as int] == self.projects@[i as int]@);
                    assert(rv == self@.rows()[i as int]);
                    out.push(row);
                    i += 1;
                    assert(row_views(out@) =~= so_far.push(rv));
                }
                assert(self@.rows().take(i as int) =~= self@.rows());
            },
            MenuPage::Sessions(dir) => {
                let ghost listed: Seq<RowView> = match self@.find_project(dir@) {
                    Some(i) => session_rows(self@.projects[i].sessions),
                    None => Seq::empty(),
                };
                match self.find_project(dir.as_str()) {
                    Some(g) => {
                        let ghost p = self@.projects[g as int];
                        assert(p == self.projects@[g as int]@);
                        let mut i: usize = 0;
                        while i < self.projects[g].sessions.len()
                            invariant
                                g < self.projects@.len(),
                                i <= self.projects@[g as int].sessions@.len(),
                                p == self.projects@[g as int]@,
                                listed == session_rows(p.sessions),
                                listed.len() == self.projects@[g as int].sessions@.len(),
                                row_views(out@) =~= listed.take(i as int),
                            decreases self.projects@[g as int].sessions@.len() - i,
                        {
                            let ghost so_far = row_views(out@);
                            let row = Row::Session(self.projects[g].sessions[i].path.clone());
                            let ghost rv = row@;
                            assert(p.sessions[i as int]
                                == self.projects@[g as int].sessions@[i as int]@);
                            assert(rv == listed[i as int]);
                            out.push(row);
                            i += 1;
                            assert(row_views(out@) =~= so_far.push(rv));
                        }
                        assert(listed.take(i as int) =~= listed);
                    },
                    None => {
                        assert(row_views(out@) =~= listed);
                    },
                }
                let row = Row::NewSession(dir.clone());
                let ghost rv = row@;
                let ghost so_far = row_views(out@);
                out.push(row);
                assert(row_views(out@) =~= so_far.push(rv));
            },
            MenuPage::Settings => {
                let n: usize = self.settings.fields.len();
                let mut i: usize = 0;
                while i < n
                    invariant
                        i <= n,
                        n == self.settings.fields@.len(),
                        self@.page == PageView::Settings,
                        self@.rows().len() == n,
                        row_views(out@) =~= self@.rows().take(i as int),
                    decreases n - i,
                {
                    let ghost so_far = row_views(out@);
                    let row = Row::Field(i);
                    let ghost rv = row@;
                    out.push(row);
                    i += 1;
                    assert(row_views(out@) =~= so_far.push(rv));
                }
                assert(self@.rows().take(i as int) =~= self@.rows());
            },
        }
        out
    }

    /// The selected row, if the page has one.
    pub fn current_row(&self) -> (r: Option<Row>)
        ensures
            match r {
                Some(row) => self@.current_row() == Some(row@),
                None => self@.current_row() is None,
            },
    {
        let mut rows: Vec<Row> = self.rows();
        if self.selected < rows.len() {
            assert(row_views(rows@)[self.selected as int] == rows@[self.selected as int]@);
            Some(rows.remove(self.selected))
        } else {
            None
        }
    }

    /// The settings field under the cursor, if the settings page is open.
    pub fn current_field(&self) -> (r: Option<usize>)
        ensures
            match r {
                Some(i) => self@.current_field() == Some(i as int) && i < self.settings.fields@.len(),
                None => self@.current_field() is None,
            },
    {
        match self.current_row() {
            Some(Row::Field(i)) => Some(i),
            _ => None,
        }
    }

    /// Move the selection by `delta`, wrapping at both ends.
    pub fn move_selection(&mut self, delta: i32)
        ensures
            final(self)@ == old(self)@.moved(delta as int),
    {
        let n: usize = self.rows().len();
        if n == 0 {
            self.selected = 0;
            return;
        }
        let m: i128 = n as i128;
        let at: i128 = self.selected as i128 + delta as i128;
        let wrapped: i128 = if at >= 0 {
            at % m
        } else {
            let r: i128 = (-at) % m;
            if r == 0 {
                0
            } else {
                m - r
            }
        };
        proof {
            if at < 0 {
                let r = (-at) % (m as int);
                let q = (-at) / (m as int);
                vstd::arithmetic::div_mod::lemma_fundamental_div_mod(-at as int, m as int);
                if r == 0 {
                    assert(at == (-q) * m + 0) by (nonlinear_arith)
                        requires
                            -at == m * q + r,
                            r == 0,
                    ;
                    vstd::arithmetic::div_mod::lemma_fundamental_div_mod_converse(
                        at as int,
                        m as int,
                        -q,
                        0,
                    );
                } else {
                    assert(at == (-q - 1) * m + (m - r)) by (nonlinear_arith)
                        requires
                            -at == m * q + r,
                    ;
                    vstd::arithmetic::div_mod::lemma_fundamental_div_mod_converse(
                        at as int,
                        m as int,
                        -q - 1,
                        m - r,
                    );
                }
            }
        }
        self.selected = wrapped as usize;
    }

    /// Switch pages, resetting the selection and clearing transient state.
    pub fn goto(&mut self, page: MenuPage)
        ensures
            final(self)@ == old(self)@.on(page@),
    {
        self.page = page;
        self.selected = 0;
        self.editing = None;
        self.status = None;
    }

    /// Go up one level. `false` from the root means that the menu is to close.
    pub fn back(&mut self) -> (r: bool)
        ensures
            match old(self)@.above() {
                Some(page) => r && final(self)@ == old(self)@.on(page),
                None => !r && final(self)@ == old(self)@,
            },
    {
        match &self.page {
            MenuPage::Root => false,
            MenuPage::Projects => {
                self.goto(MenuPage::Root);
                true
            },
            MenuPage::Settings => {
                self.goto(MenuPage::Root);
                true
            },
            MenuPage::Sessions(_) => {
                self.goto(MenuPage::Projects);
                true
            },
        }
    }

    /// Take in a fresh session listing and settings.
    pub fn refresh(&mut self, sessions: Vec<SessionInfo>, settings: Settings)
        ensures
            listing(session_views(sessions@), final(self)@.projects),
            final(self)@ == old(self)@.reloaded(final(self)@.projects, settings@),
    {
        self.projects = group_projects(sessions);
        self.settings = settings;
        let n: usize = self.rows().len();
        if self.selected >= n {
            self.selected = if n == 0 {
                0
            } else {
                n - 1
            };
        }
        self.status = Some("refreshed".to_owned());
    }

    /// Begin editing the selected field.
    pub fn begin_edit(&mut self)
        ensures
            final(self)@ == old(self)@.editing_current(),
    {
        match self.current_field() {
            None => {},
            Some(i) => {
                assert(self@.settings.fields[i as int] == self.settings.fields@[i as int]@);
                let kind: FieldKind = self.settings.fields[i].kind;
                if kind == FieldKind::Choice || kind == FieldKind::Bool {
                    return;
                }
                let start: String = if kind == FieldKind::Model {
                    String::new()
                } else {
                    self.settings.fields[i].value.clone()
                };
                assert(kind == FieldKind::Model ==> start@ =~= Seq::<char>::empty());
                self.editing = Some(start);
                self.status = None;
            },
        }
    }

    /// Begin typing the API key.
    pub fn begin_api_key_edit(&mut self)
        ensures
            final(self)@ == (MenuView {
                editing: Some(Seq::empty()),
                editing_api_key: true,
                status: None,
                ..old(self)@
            }),
    {
        let start: String = String::new();
        assert(start@ =~= Seq::<char>::empty());
        self.editing = Some(start);
        self.editing_api_key = true;
        self.status = None;
    }

    /// Leave the editor without saving.
    pub fn cancel_edit(&mut self)
        ensures
            final(self)@ == (MenuView {
                editing: None,
                editing_api_key: false,
                status: None,
                ..old(self)@
            }),
    {
        self.editing = None;
        self.editing_api_key = false;
        self.status = None;
    }

    /// Take a pasted text into the open editor; `false` where none is open.
    pub fn paste(&mut self, text: &str) -> (r: bool)
        ensures
            r == (old(self)@.editing is Some),
            final(self)@ == (MenuView {
                editing: match old(self)@.editing {
                    Some(b) => Some(b + text@),
                    None => None,
                },
                ..old(self)@
            }),
    {
        match self.editing.take() {
            None => false,
            Some(b) => {
                self.editing = Some(b.concat(text));
                true
            },
        }
    }

    /// What committing `value` asks to be written.
    pub fn commit(&self, value: &str) -> (r: Option<SettingsWrite>)
        ensures
            write_view(r) == self@.commitment(value@),
    {
        if self.editing_api_key {
            return Some(SettingsWrite::SaveKey { value: value.to_owned() });
        }
        match self.current_field() {
            None => None,
            Some(i) => {
                assert(self@.settings.fields[i as int] == self.settings.fields@[i as int]@);
                if self.settings.fields[i].kind == FieldKind::Model {
                    Some(SettingsWrite::AddModel { field: i, value: value.to_owned() })
                } else {
                    Some(SettingsWrite::Assign { field: i, value: value.to_owned() })
                }
            },
        }
    }

    /// Take in the result of writing a field: the path written to and the
    /// settings as they now stand, or what went wrong.
    pub fn committed(&mut self, field: usize, written: Result<(String, Settings), String>)
        requires
            field < old(self).settings.fields@.len(),
        ensures
            match written {
                Ok((path, settings)) => final(self)@ == (MenuView {
                    editing: None,
                    settings: settings@,
                    status: Some(
                        if old(self)@.settings.fields[field as int].overridden {
                            "saved to "@ + path@ + " — but $"@
                                + old(self)@.settings.fields[field as int].env
                                + " overrides it in this shell"@
                        } else {
                            "saved to "@ + path@
                        },
                    ),
                    ..old(self)@
                }),
                Err(e) => final(self)@ == (MenuView { status: Some(e@), ..old(self)@ }),
            },
    {
        match written {
            Ok((path, settings)) => {
                assert(self@.settings.fields[field as int] == self.settings.fields@[field as int]@);
                let mut note: String = "saved to ".to_owned().concat(path.as_str());
                if self.settings.fields[field].overridden {
                    note = note.concat(" — but $").concat(
                        self.settings.fields[field].env.as_str(),
                    ).concat(" overrides it in this shell");
                }
                self.editing = None;
                self.settings = settings;
                self.status = Some(note);
            },
            Err(e) => {
                self.status = Some(e);
            },
        }
    }

    /// Take in the result of saving the API key: what the host is to do for the
    /// key to take effect, or what went wrong.
    pub fn key_saved(&mut self, written: Result<Outcome, String>)
        ensures
            match written {
                Ok(o) => final(self)@ == (MenuView {
                    editing: None,
                    editing_api_key: false,
                    pending_outcome: Some(o@),
                    ..old(self)@
                }),
                Err(e) => final(self)@ == (MenuView { status: Some(e@), ..old(self)@ }),
            },
    {
        match written {
            Ok(o) => {
                self.editing = None;
                self.editing_api_key = false;
                self.pending_outcome = Some(o);
            },
            Err(e) => {
                self.status = Some(e);
            },
        }
    }

    /// Step a field through its values and ask for the new one to be saved at
    /// once. With nothing to step to, a model field says so.
    pub fn cycle_current(&mut self, forward: bool) -> (r: Option<SettingsWrite>)
        ensures
            match old(self)@.current_field() {
                None => r is None && final(self)@ == old(self)@,
                Some(i) => match old(self)@.step(forward) {
                    Some(v) => final(self)@ == old(self)@ && write_view(r) == old(self)@.commitment(v),
                    None => r is None && final(self)@ == (MenuView {
                        status: if old(self)@.settings.fields[i].kind == FieldKind::Model {
                            Some("only one saved model — press ↵ to add another"@)
                        } else {
                            old(self)@.status
                        },
                        ..old(self)@
                    }),
                },
            },
    {
        match self.current_field() {
            None => None,
            Some(i) => {
                assert(self@.settings.fields[i as int] == self.settings.fields@[i as int]@);
                let next: Option<String> = if forward {
                    copy_option(&self.settings.fields[i].next)
                } else {
                    copy_option(&self.settings.fields[i].previous)
                };
                match next {
                    Some(v) => self.commit(v.as_str()),
                    None => {
                        if self.settings.fields[i].kind == FieldKind::Model {
                            self.status = Some(
                                "only one saved model — press ↵ to add another".to_owned(),
                            );
                        }
                        None
                    },
                }
            },
        }
    }

    /// The model under the cursor, to be forgotten; nothing on any other field.
    pub fn remove_current_model(&self) -> (r: Option<SettingsWrite>)
        ensures
            match self@.current_field() {
                Some(i) => if self@.settings.fields[i].kind == FieldKind::Model {
                    write_view(r) == Some(
                        WriteView::RemoveModel { value: self@.settings.fields[i].value },
                    )
                } else {
                    r is None
                },
                None => r is None,
            },
    {
        match self.current_field() {
            Some(i) => {
                assert(self@.settings.fields[i as int] == self.settings.fields@[i as int]@);
                if self.settings.fields[i].kind == FieldKind::Model {
                    Some(SettingsWrite::RemoveModel { value: self.settings.fields[i].value.clone() })
                } else {
                    None
                }
            },
            None => None,
        }
    }

    /// Take in the result of forgetting a model.
    pub fn model_removed(&mut self, name: &str, written: Result<Settings, String>)
        ensures
            match written {
                Ok(settings) => final(self)@ == (MenuView {
                    settings: settings@,
                    status: Some("removed "@ + name@ + " from the saved list"@),
                    ..old(self)@
                }),
                Err(e) => final(self)@ == (MenuView { status: Some(e@), ..old(self)@ }),
            },
    {
        match written {
            Ok(settings) => {
                self.settings = settings;
                self.status = Some(
                    "removed ".to_owned().concat(name).concat(" from the saved list"),
                );
            },
            Err(e) => {
                self.status = Some(e);
            },
        }
    }
}

/// A step one way and then the other leaves the menu as it was, wherever the
/// selection stands on a row.
pub proof fn stepping_back_undoes_a_step(m: MenuView, delta: int)
    requires
        0 <= m.selected < m.rows().len(),
    ensures
        m.moved(delta).moved(-delta) == m,
{
    let n = m.rows().len() as int;
    let there = m.moved(delta);
    assert(there.rows() == m.rows());
    let a = m.selected + delta;
    vstd::arithmetic::div_mod::lemma_mod_bound(a, n);
    vstd::arithmetic::div_mod::lemma_fundamental_div_mod(a, n);
    let q = a / n;
    assert(a % n - delta == (-q) * n + m.selected) by (nonlinear_arith)
        requires
            a == n * q + a % n,
            a == m.selected + delta,
    ;
    vstd::arithmetic::div_mod::lemma_fundamental_div_mod_converse(a % n - delta, n, -q, m.selected);
}

/// Holding one direction visits every row: some number of steps reaches it.
pub proof fn every_row_is_reachable(m: MenuView, row: int)
    requires
        0 <= m.selected < m.rows().len(),
        0 <= row < m.rows().len(),
    ensures
        m.moved(row - m.selected).selected == row,
{
    vstd::arithmetic::div_mod::lemma_small_mod(row as nat, m.rows().len());
}

/// Going up three times from any page has left the menu.
pub proof fn going_back_ends_at_the_root(m: MenuView)
    ensures
        m.above() matches Some(p) ==> (m.on(p).above() matches Some(q) ==> m.on(p).on(q).above()
            is None),
{
}

} // verus!
