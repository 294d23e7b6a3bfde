//! The tables of the store, and what each statement does to them.
//!
//! [`Tables`] is the mathematical content of a store. [`Store`] keeps such
//! tables in memory and executes statements on them as a database with the
//! same schema would: names are unique, a project has one row at most for
//! each requirement, and a row links only a project and a requirement that
//! are there.

use vstd::prelude::*;
use crate::statement::{texts, Statement, Write};

verus! {

/// What the store holds for one project and one requirement.
pub struct Link {
    pub version: Seq<char>,
    pub updated_at: nat,
}

/// The content of a store: the names of the projects, the names of the
/// requirements, and for each linked pair of a project and a requirement the
/// version and the time of its last update.
#[verifier::ext_equal]
pub struct Tables {
    pub projects: Set<Seq<char>>,
    pub requirements: Set<Seq<char>>,
    pub project_requirements: Map<(Seq<char>, Seq<char>), Link>,
}

impl Tables {
    /// The store without any row.
    pub open spec fn empty() -> Tables {
        Tables {
            projects: Set::empty(),
            requirements: Set::empty(),
            project_requirements: Map::empty(),
        }
    }

    /// Referential integrity: a link joins a project and a requirement that
    /// both have their row.
    pub open spec fn consistent(self) -> bool {
        forall|project: Seq<char>, requirement: Seq<char>|
            #[trigger] self.project_requirements.dom().contains((project, requirement))
                ==> self.projects.contains(project) && self.requirements.contains(requirement)
    }

    /// Why the store refuses `write`, if it does: a link needs its project
    /// and its requirement.
    pub open spec fn objection(self, write: Write) -> Option<Cause> {
        match write {
            Write::ProjectRequirement { project, requirement, .. } => {
                if !self.projects.contains(project) {
                    Some(Cause::MissingProject)
                } else if !self.requirements.contains(requirement) {
                    Some(Cause::MissingRequirement)
                } else {
                    None
                }
            },
            _ => None,
        }
    }

    /// The tables after `write`, made at time `now`, where the store does
    /// not refuse it. A name that is there stays as it is. A link that is
    /// there takes the new version and the new time; one that is not is
    /// added with them.
    pub open spec fn apply(self, write: Write, now: nat) -> Tables {
        match write {
            Write::Project { name } => Tables { projects: self.projects.insert(name), ..self },
            Write::Requirement { name } => Tables {
                requirements: self.requirements.insert(name),
                ..self
            },
            Write::ProjectRequirement { project, requirement, version } => Tables {
                project_requirements: self.project_requirements.insert(
                    (project, requirement),
                    Link { version, updated_at: now },
                ),
                ..self
            },
        }
    }

    /// The tables after an attempt at `write`: a refused write changes
    /// nothing.
    pub open spec fn execute(self, write: Write, now: nat) -> Tables {
        if self.objection(write) is None {
            self.apply(write, now)
        } else {
            self
        }
    }

    /// The tables after an attempt at each of `writes`, in their order.
    pub open spec fn execute_all(self, writes: Seq<Write>, now: nat) -> Tables
        decreases writes.len(),
    {
        if writes.len() == 0 {
            self
        } else {
            self.execute_all(writes.drop_last(), now).execute(writes.last(), now)
        }
    }

    /// The version that each linked pair is at, without the times.
    pub open spec fn versions(self) -> Map<(Seq<char>, Seq<char>), Seq<char>> {
        self.project_requirements.map_values(|link: Link| link.version)
    }
}

/// Referential integrity holds through every statement: tables in which
/// each link joins a project and a requirement that are there stay so,
/// whether the statement is taken or refused.
pub proof fn lemma_execute_consistent(tables: Tables, write: Write, now: nat)
    requires
        tables.consistent(),
    ensures
        tables.execute(write, now).consistent(),
{
    let after = tables.execute(write, now);
    assert forall|project: Seq<char>, requirement: Seq<char>| #[trigger]
        after.project_requirements.dom().contains((project, requirement)) implies after.projects.contains(
        project,
    ) && after.requirements.contains(requirement) by {
        if tables.project_requirements.dom().contains((project, requirement)) {
            assert(tables.projects.contains(project) && tables.requirements.contains(requirement));
        }
    }
}

/// Every statement can be repeated: executed a second time, at whatever time,
/// it leaves the projects, the requirements and the version of every link as
/// the first execution left them.
pub proof fn lemma_execute_idempotent(tables: Tables, write: Write, first: nat, second: nat)
    ensures
        ({
            let once = tables.execute(write, first);
            let twice = once.execute(write, second);
            &&& twice.projects == once.projects
            &&& twice.requirements == once.requirements
            &&& twice.project_requirements.dom() == once.project_requirements.dom()
            &&& twice.versions() == once.versions()
        }),
{
    let once = tables.execute(write, first);
    let twice = once.execute(write, second);
    assert(twice.projects == once.projects);
    assert(twice.requirements == once.requirements);
    assert(twice.project_requirements.dom() == once.project_requirements.dom());
    assert(twice.versions() == once.versions());
}

/// Why a statement failed.
#[derive(Debug, PartialEq, Eq)]
pub enum Fault {
    /// The statement links a project that has no row.
    MissingProject,
    /// The statement links a requirement that has no row.
    MissingRequirement,
    /// The database reported a failure of its own.
    Backend { message: String },
}

/// The mathematical content of a [`Fault`].
pub enum Cause {
    MissingProject,
    MissingRequirement,
    Backend { message: Seq<char> },
}

impl View for Fault {
    type V = Cause;

    open spec fn view(&self) -> Cause {
        match self {
            Fault::MissingProject => Cause::MissingProject,
            Fault::MissingRequirement => Cause::MissingRequirement,
            Fault::Backend { message } => Cause::Backend { message: message@ },
        }
    }
}

impl Clone for Fault {
    fn clone(&self) -> (out: Fault)
        ensures
            out@ == self@,
    {
        match self {
            Fault::MissingProject => Fault::MissingProject,
            Fault::MissingRequirement => Fault::MissingRequirement,
            Fault::Backend { message } => Fault::Backend { message: message.clone() },
        }
    }
}

/// A failed write: the statement, which names the operation and its key, and
/// the reason.
#[derive(Debug, PartialEq, Eq)]
pub struct StoreError {
    pub statement: Statement,
    pub fault: Fault,
}

/// The mathematical content of a [`StoreError`].
pub struct Failure {
    pub write: Write,
    pub cause: Cause,
}

impl View for StoreError {
    type V = Failure;

    open spec fn view(&self) -> Failure {
        Failure { write: self.statement@, cause: self.fault@ }
    }
}

impl Clone for StoreError {
    fn clone(&self) -> (out: StoreError)
        ensures
            out@ == self@,
    {
        StoreError { statement: self.statement.clone(), fault: self.fault.clone() }
    }
}

/// A row of the table that links projects to requirements.
struct ProjectRequirement {
    project_name: String,
    requirement: String,
    current_version: String,
    updated_at: u64,
}

impl ProjectRequirement {
    /// The pair of names that the row is found by.
    spec fn key(self) -> (Seq<char>, Seq<char>) {
        (self.project_name@, self.requirement@)
    }

    /// What the row holds for its pair.
    spec fn link(self) -> Link {
        Link { version: self.current_version@, updated_at: self.updated_at as nat }
    }
}

/// The map that a sequence of rows stands for.
spec fn links(rows: Seq<ProjectRequirement>) -> Map<(Seq<char>, Seq<char>), Link>
    decreases rows.len(),
{
    if rows.len() == 0 {
        Map::empty()
    } else {
        links(rows.drop_last()).insert(rows.last().key(), rows.last().link())
    }
}

/// The keys of a sequence of rows.
spec fn keys(rows: Seq<ProjectRequirement>) -> Seq<(Seq<char>, Seq<char>)> {
    Seq::new(rows.len(), |i: int| rows[i].key())
}

/// A store in memory: the three tables as rows, kept so that no name and no
/// pair of names has two rows and every link has its project and its
/// requirement. What it holds is its view, a [`Tables`].
pub struct Store {
    projects: Vec<String>,
    requirements: Vec<String>,
    project_requirements: Vec<ProjectRequirement>,
}

impl View for Store {
    type V = Tables;

    closed spec fn view(&self) -> Tables {
        Tables {
            projects: texts(self.projects@).to_set(),
            requirements: texts(self.requirements@).to_set(),
            project_requirements: links(self.project_requirements@),
        }
    }
}

/// The index at which `name` stands in `names`.
fn position(names: &Vec<String>, name: &String) -> (found: Option<usize>)
    ensures
        found is Some <==> texts(names@).contains(name@),
        found matches Some(i) ==> i < names.len() && names[i as int]@ == name@,
{
    let mut i: usize = 0;
    while i < names.len()
        invariant
            i <= names.len(),
            forall|j: int| 0 <= j < i ==> names[j]@ != name@,
        decreases names.len() - i,
    {
        if names[i] == *name {
            assert(texts(names@)[i as int] == name@);
            return Some(i);
        }
        i += 1;
    }
    assert forall|j: int| 0 <= j < texts(names@).len() implies texts(names@)[j] != name@ by {
        assert(texts(names@)[j] == names[j]@);
    }
    None
}

/// The index of the row for `project` and `requirement` in `rows`.
fn row_position(rows: &Vec<ProjectRequirement>, project: &String, requirement: &String) -> (found:
    Option<usize>)
    ensures
        found is Some <==> keys(rows@).contains((project@, requirement@)),
        found matches Some(i) ==> i < rows.len() && rows[i as int].key() == (
            project@,
            requirement@,
        ),
{
    let mut i: usize = 0;
    while i < rows.len()
        invariant
            i <= rows.len(),
            forall|j: int| 0 <= j < i ==> rows[j].key() != (project@, requirement@),
        decreases rows.len() - i,
    {
        if rows[i].project_name == *project && rows[i].requirement == *requirement {
            assert(keys(rows@)[i as int] == (project@, requirement@));
            return Some(i);
        }
        i += 1;
    }
    assert forall|j: int| 0 <= j < keys(rows@).len() implies keys(rows@)[j] != (
        project@,
        requirement@,
    ) by {
        assert(keys(rows@)[j] == rows[j].key());
    }
    None
}

/// The pairs that rows stand for are the keys of the rows.
proof fn lemma_links_dom(rows: Seq<ProjectRequirement>)
    ensures
        forall|key: (Seq<char>, Seq<char>)|
            #[trigger] links(rows).dom().contains(key) <==> keys(rows).contains(key),
        links(rows).dom().finite(),
    decreases rows.len(),
{
    if rows.len() > 0 {
        let rest = rows.drop_last();
        lemma_links_dom(rest);
        assert forall|key: (Seq<char>, Seq<char>)| #[trigger]
            links(rows).dom().contains(key) <==> keys(rows).contains(key) by {
            if keys(rows).contains(key) {
                let i = choose|i: int| 0 <= i < keys(rows).len() && keys(rows)[i] == key;
                if i < rest.len() {
                    assert(keys(rest)[i] == key);
                }
            }
            if keys(rest).contains(key) {
                let i = choose|i: int| 0 <= i < keys(rest).len() && keys(rest)[i] == key;
                assert(keys(rows)[i] == key);
            }
            assert(keys(rows)[rows.len() - 1] == rows.last().key());
        }
    }
}

/// Where no two rows have one key, each row is what its key is mapped to.
proof fn lemma_links_at(rows: Seq<ProjectRequirement>, i: int)
    requires
        keys(rows).no_duplicates(),
        0 <= i < rows.len(),
    ensures
        links(rows).dom().contains(rows[i].key()),
        links(rows)[rows[i].key()] == rows[i].link(),
    decreases rows.len(),
{
    let rest = rows.drop_last();
    if i < rows.len() - 1 {
        assert(keys(rest) == keys(rows).drop_last());
        lemma_links_at(rest, i);
        assert(keys(rows)[i] != keys(rows)[rows.len() - 1]);
    }
}

/// Writing a row anew, under its key, maps the key to what the row now holds.
proof fn lemma_links_update(rows: Seq<ProjectRequirement>, i: int, row: ProjectRequirement)
    requires
        keys(rows).no_duplicates(),
        0 <= i < rows.len(),
        row.key() == rows[i].key(),
    ensures
        links(rows.update(i, row)) == links(rows).insert(row.key(), row.link()),
        keys(rows.update(i, row)) == keys(rows),
    decreases rows.len(),
{
    let rest = rows.drop_last();
    assert(keys(rows.update(i, row)) == keys(rows));
    if i < rows.len() - 1 {
        assert(keys(rest) == keys(rows).drop_last());
        lemma_links_update(rest, i, row);
        assert(rows.update(i, row).drop_last() == rest.update(i, row));
        assert(keys(rows)[i] != keys(rows)[rows.len() - 1]);
        assert(links(rows.update(i, row)) == links(rows).insert(row.key(), row.link()));
    } else {
        assert(rows.update(i, row).drop_last() == rest);
        assert(links(rows.update(i, row)) == links(rows).insert(row.key(), row.link()));
    }
}

/// Where no two rows have one key, there are as many pairs as rows.
proof fn lemma_links_len(rows: Seq<ProjectRequirement>)
    requires
        keys(rows).no_duplicates(),
    ensures
        links(rows).dom().finite(),
        links(rows).dom().len() == rows.len(),
    decreases rows.len(),
{
    lemma_links_dom(rows);
    if rows.len() > 0 {
        let rest = rows.drop_last();
        assert(keys(rest) == keys(rows).drop_last());
        lemma_links_len(rest);
        lemma_links_dom(rest);
        if keys(rest).contains(rows.last().key()) {
            let i = choose|i: int| 0 <= i < keys(rest).len() && keys(rest)[i] == rows.last().key();
            assert(keys(rows)[i] == keys(rows)[rows.len() - 1]);
        }
        assert(links(rows).dom() == links(rest).dom().insert(rows.last().key()));
    } else {
        assert(links(rows).dom() == Set::<(Seq<char>, Seq<char>)>::empty());
    }
}

/// A further row maps its key to what it holds.
proof fn lemma_links_push(rows: Seq<ProjectRequirement>, row: ProjectRequirement)
    ensures
        links(rows.push(row)) == links(rows).insert(row.key(), row.link()),
        keys(rows.push(row)) == keys(rows).push(row.key()),
{
    assert(rows.push(row).drop_last() == rows);
    assert(keys(rows.push(row)) == keys(rows).push(row.key()));
}

/// A further name is a further element of the set of names, and a new name
/// leaves the names without duplicates.
proof fn lemma_texts_push(names: Seq<String>, name: String)
    ensures
        texts(names.push(name)) == texts(names).push(name@),
        texts(names.push(name)).to_set() == texts(names).to_set().insert(name@),
        texts(names).no_duplicates() && !texts(names).contains(name@) ==> texts(
            names.push(name),
        ).no_duplicates(),
{
    assert(texts(names.push(name)) == texts(names).push(name@));
    texts(names).lemma_push_to_set_commute(name@);
    if texts(names).no_duplicates() && !texts(names).contains(name@) {
        lemma_push_no_duplicates(texts(names), name@);
    }
}

/// A sequence without duplicates stays so when an element that it lacks is
/// added.
proof fn lemma_push_no_duplicates<A>(items: Seq<A>, item: A)
    requires
        items.no_duplicates(),
        !items.contains(item),
    ensures
        items.push(item).no_duplicates(),
{
    assert forall|i: int, j: int|
        0 <= i < items.len() + 1 && 0 <= j < items.len() + 1 && i != j implies items.push(item)[i]
        != items.push(item)[j] by {
        if i < items.len() {
            assert(items[i] != item);
        }
        if j < items.len() {
            assert(items[j] != item);
        }
    }
}

impl Store {
    #[verifier::type_invariant]
    spec fn well_formed(&self) -> bool {
        &&& texts(self.projects@).no_duplicates()
        &&& texts(self.requirements@).no_duplicates()
        &&& keys(self.project_requirements@).no_duplicates()
        &&& self@.consistent()
    }

    /// A store without any row.
    pub fn new() -> (store: Store)
        ensures
            store@ == Tables::empty(),
            store@.consistent(),
    {
        let store = Store {
            projects: Vec::new(),
            requirements: Vec::new(),
            project_requirements: Vec::new(),
        };
        assert(texts(store.projects@) == Seq::<Seq<char>>::empty());
        assert(texts(store.requirements@) == Seq::<Seq<char>>::empty());
        assert(keys(store.project_requirements@) == Seq::<(Seq<char>, Seq<char>)>::empty());
        assert(store@ == Tables::empty());
        store
    }

    /// Whether a project of this name has its row.
    pub fn has_project(&self, name: &String) -> (found: bool)
        ensures
            found == self@.projects.contains(name@),
    {
        position(&self.projects, name).is_some()
    }

    /// Whether a requirement of this name has its row.
    pub fn has_requirement(&self, name: &String) -> (found: bool)
        ensures
            found == self@.requirements.contains(name@),
    {
        position(&self.requirements, name).is_some()
    }

    /// Moves the rows out, and leaves the store empty.
    fn take(&mut self) -> (rows: (Vec<String>, Vec<String>, Vec<ProjectRequirement>))
        ensures
            rows.0 == old(self).projects,
            rows.1 == old(self).requirements,
            rows.2 == old(self).project_requirements,
            final(self)@ == Tables::empty(),
    {
        let mut taken = Store::new();
        std::mem::swap(self, &mut taken);
        let Store { projects, requirements, project_requirements } = taken;
        (projects, requirements, project_requirements)
    }

    /// Executes one statement at time `now`.
    ///
    /// Fails, and leaves the store as it is, where the statement would link
    /// a project or a requirement that has no row. The error then holds the
    /// statement and names what is missing, the project first.
    pub fn execute(&mut self, statement: &Statement, now: u64) -> (result: Result<(), StoreError>)
        ensures
            final(self)@ == old(self)@.execute(statement@, now as nat),
            old(self)@.consistent() && final(self)@.consistent(),
            match result {
                Ok(_) => old(self)@.objection(statement@) is None,
                Err(error) => error@ == (Failure {
                    write: statement@,
                    cause: old(self)@.objection(statement@)->Some_0,
                }) && old(self)@.objection(statement@) is Some,
            },
    {
        let ghost before = self@;
        proof {
            use_type_invariant(&*self);
            lemma_execute_consistent(before, statement@, now as nat);
        }
        match statement {
            Statement::InsertProject { name } => {
                if position(&self.projects, name).is_none() {
                    let (mut projects, requirements, project_requirements) = self.take();
                    proof {
                        lemma_texts_push(projects@, *name);
                    }
                    projects.push(name.clone());
                    *self = Store { projects, requirements, project_requirements };
                }
                assert(self@ == before.execute(statement@, now as nat));
                Ok(())
            },
            Statement::InsertRequirement { name } => {
                if position(&self.requirements, name).is_none() {
                    let (projects, mut requirements, project_requirements) = self.take();
                    proof {
                        lemma_texts_push(requirements@, *name);
                    }
                    requirements.push(name.clone());
                    *self = Store { projects, requirements, project_requirements };
                }
                assert(self@ == before.execute(statement@, now as nat));
                Ok(())
            },
            Statement::UpsertProjectRequirement { project, requirement, version } => {
                if position(&self.projects, project).is_none() {
                    return Err(
                        StoreError { statement: statement.clone(), fault: Fault::MissingProject },
                    );
                }
                if position(&self.requirements, requirement).is_none() {
                    return Err(
                        StoreError {
                            statement: statement.clone(),
                            fault: Fault::MissingRequirement,
                        },
                    );
                }
                let row = ProjectRequirement {
                    project_name: project.clone(),
                    requirement: requirement.clone(),
                    current_version: version.clone(),
                    updated_at: now,
                };
                let found = row_position(&self.project_requirements, project, requirement);
                let (projects, requirements, mut project_requirements) = self.take();
                match found {
                    Some(i) => {
                        proof {
                            lemma_links_update(project_requirements@, i as int, row);
                        }
                        project_requirements.set(i, row);
                    },
                    None => {
                        proof {
                            lemma_links_push(project_requirements@, row);
                            lemma_push_no_duplicates(keys(project_requirements@), row.key());
                        }
                        project_requirements.push(row);
                    },
                }
                *self = Store { projects, requirements, project_requirements };
                assert(self@ == before.execute(statement@, now as nat));
                Ok(())
            },
        }
    }

    /// The version that `project` currently has of `requirement`, if the two
    /// are linked.
    pub fn current_version(&self, project: &String, requirement: &String) -> (version: Option<
        String,
    >)
        ensures
            match version {
                Some(version) => self@.project_requirements.dom().contains(
                    (project@, requirement@),
                ) && self@.project_requirements[(project@, requirement@)].version == version@,
                None => !self@.project_requirements.dom().contains((project@, requirement@)),
            },
    {
        proof {
            use_type_invariant(self);
            lemma_links_dom(self.project_requirements@);
        }
        match row_position(&self.project_requirements, project, requirement) {
            Some(i) => {
                proof {
                    lemma_links_at(self.project_requirements@, i as int);
                }
                Some(self.project_requirements[i].current_version.clone())
            },
            None => None,
        }
    }

    /// The time at which the link of `project` and `requirement` was last
    /// written, if the two are linked.
    pub fn updated_at(&self, project: &String, requirement: &String) -> (time: Option<u64>)
        ensures
            match time {
                Some(time) => self@.project_requirements.dom().contains((project@, requirement@))
                    && self@.project_requirements[(project@, requirement@)].updated_at == time,
                None => !self@.project_requirements.dom().contains((project@, requirement@)),
            },
    {
        proof {
            use_type_invariant(self);
            lemma_links_dom(self.project_requirements@);
        }
        match row_position(&self.project_requirements, project, requirement) {
            Some(i) => {
                proof {
                    lemma_links_at(self.project_requirements@, i as int);
                }
                Some(self.project_requirements[i].updated_at)
            },
            None => None,
        }
    }

    /// The number of projects.
    pub fn project_count(&self) -> (count: usize)
        ensures
            self@.projects.finite(),
            count == self@.projects.len(),
    {
        proof {
            use_type_invariant(self);
            texts(self.projects@).unique_seq_to_set();
            vstd::seq_lib::seq_to_set_is_finite(texts(self.projects@));
        }
        self.projects.len()
    }

    /// The number of requirements.
    pub fn requirement_count(&self) -> (count: usize)
        ensures
            self@.requirements.finite(),
            count == self@.requirements.len(),
    {
        proof {
            use_type_invariant(self);
            texts(self.requirements@).unique_seq_to_set();
            vstd::seq_lib::seq_to_set_is_finite(texts(self.requirements@));
        }
        self.requirements.len()
    }

    /// The number of links between a project and a requirement.
    pub fn project_requirement_count(&self) -> (count: usize)
        ensures
            self@.project_requirements.dom().finite(),
            count == self@.project_requirements.dom().len(),
    {
        proof {
            use_type_invariant(self);
            lemma_links_len(self.project_requirements@);
        }
        self.project_requirements.len()
    }
}

} // verus!
