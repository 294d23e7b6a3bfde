//! The statements that write to the store.
//!
//! The store is relational: a table of projects, a table of requirements,
//! both keyed by name, and a table that links a project to a requirement,
//! keyed by the pair of names, with the version the project currently has of
//! it. Every write is one statement that can be repeated without harm: the
//! two inserts pass over a name that is already there, and the link is
//! inserted or, where the pair is there already, brought to the new version.

use vstd::prelude::*;

verus! {

/// Adds a project by name; leaves the table as it is if the name is there.
pub const INSERT_PROJECT: &'static str = "INSERT OR IGNORE INTO projects(name) VALUES (?)";

/// Adds a requirement by name; leaves the table as it is if the name is there.
pub const INSERT_REQUIREMENT: &'static str = "INSERT OR IGNORE INTO requirements(name) VALUES (?)";

/// Links a project to a requirement at a version; where the two are linked
/// already, replaces the version and stamps the row anew.
pub const UPSERT_PROJECT_REQUIREMENT: &'static str =
    "INSERT INTO project_requirements(project_name, requirement, current_version) VALUES (?, ?, ?) ON CONFLICT(project_name, requirement) DO UPDATE SET current_version = ?, updated_at = CURRENT_TIMESTAMP";

/// One write to the store.
#[derive(Debug, PartialEq, Eq)]
pub enum Statement {
    InsertProject { name: String },
    InsertRequirement { name: String },
    UpsertProjectRequirement { project: String, requirement: String, version: String },
}

/// The mathematical content of a [`Statement`].
pub enum Write {
    Project { name: Seq<char> },
    Requirement { name: Seq<char> },
    ProjectRequirement { project: Seq<char>, requirement: Seq<char>, version: Seq<char> },
}

impl Write {
    /// The text of the statement, with `?` for each parameter.
    pub open spec fn sql(self) -> Seq<char> {
        match self {
            Write::Project { .. } => INSERT_PROJECT@,
            Write::Requirement { .. } => INSERT_REQUIREMENT@,
            Write::ProjectRequirement { .. } => UPSERT_PROJECT_REQUIREMENT@,
        }
    }

    /// The values that the `?` of the text stand for, in the order of the
    /// text.
    pub open spec fn parameters(self) -> Seq<Seq<char>> {
        match self {
            Write::Project { name } => seq![name],
            Write::Requirement { name } => seq![name],
            Write::ProjectRequirement { project, requirement, version } => seq![
                project,
                requirement,
                version,
                version,
            ],
        }
    }
}

impl View for Statement {
    type V = Write;

    open spec fn view(&self) -> Write {
        match self {
            Statement::InsertProject { name } => Write::Project { name: name@ },
            Statement::InsertRequirement { name } => Write::Requirement { name: name@ },
            Statement::UpsertProjectRequirement { project, requirement, version } => {
                Write::ProjectRequirement {
                    project: project@,
                    requirement: requirement@,
                    version: version@,
                }
            },
        }
    }
}

impl Clone for Statement {
    fn clone(&self) -> (out: Statement)
        ensures
            out@ == self@,
    {
        match self {
            Statement::InsertProject { name } => Statement::InsertProject { name: name.clone() },
            Statement::InsertRequirement { name } => Statement::InsertRequirement {
                name: name.clone(),
            },
            Statement::UpsertProjectRequirement { project, requirement, version } => {
                Statement::UpsertProjectRequirement {
                    project: project.clone(),
                    requirement: requirement.clone(),
                    version: version.clone(),
                }
            },
        }
    }
}

/// The views of a sequence of strings.
pub open spec fn texts(strings: Seq<String>) -> Seq<Seq<char>> {
    Seq::new(strings.len(), |i: int| strings[i]@)
}

impl Statement {
    /// The text to prepare, with `?` for each parameter.
    pub fn sql(&self) -> (text: &'static str)
        ensures
            text@ == self@.sql(),
    {
        match self {
            Statement::InsertProject { .. } => INSERT_PROJECT,
            Statement::InsertRequirement { .. } => INSERT_REQUIREMENT,
            Statement::UpsertProjectRequirement { .. } => UPSERT_PROJECT_REQUIREMENT,
        }
    }

    /// The values to bind, in the order of the `?` in the text.
    pub fn parameters(&self) -> (values: Vec<String>)
        ensures
            texts(values@) == self@.parameters(),
    {
        let mut values: Vec<String> = Vec::new();
        match self {
            Statement::InsertProject { name } => {
                values.push(name.clone());
            },
            Statement::InsertRequirement { name } => {
                values.push(name.clone());
            },
            Statement::UpsertProjectRequirement { project, requirement, version } => {
                values.push(project.clone());
                values.push(requirement.clone());
                values.push(version.clone());
                values.push(version.clone());
            },
        }
        assert(texts(values@) == self@.parameters());
        values
    }
}

/// The statement that makes sure that `project` is among the projects.
pub fn update_projects(project: &String) -> (statement: Statement)
    ensures
        statement@ == (Write::Project { name: project@ }),
{
    Statement::InsertProject { name: project.clone() }
}

/// The statement that makes sure that `requirement` is among the
/// requirements.
pub fn update_requirements(requirement: &String) -> (statement: Statement)
    ensures
        statement@ == (Write::Requirement { name: requirement@ }),
{
    Statement::InsertRequirement { name: requirement.clone() }
}

/// The statement that records `requirement_version` as the version that
/// `project` currently has of `requirement`.
pub fn update_project_requirements(
    project: &String,
    requirement: &String,
    requirement_version: &String,
) -> (statement: Statement)
    ensures
        statement@ == (Write::ProjectRequirement {
            project: project@,
            requirement: requirement@,
            version: requirement_version@,
        }),
{
    Statement::UpsertProjectRequirement {
        project: project.clone(),
        requirement: requirement.clone(),
        version: requirement_version.clone(),
    }
}

} // verus!
