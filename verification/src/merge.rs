//! Merging the requirements of a project into the store.
//!
//! A merge writes the project, and then for each requirement, in the order
//! given, the requirement and its link to the project. It stops at the first
//! statement that fails; what was written before stays written.
//!
//! The statements are executed elsewhere. [`Merge`] says which statement is
//! due and is told how each one ended. [`merge_listing`] runs a whole merge
//! on a [`Store`].

use vstd::prelude::*;
use crate::listing::{views, PyRequirement, Requirement};
use crate::statement::{
    update_project_requirements,
    update_projects,
    update_requirements,
    Statement,
    Write,
};
use crate::store::{Cause, Failure, Fault, Link, Store, StoreError, Tables};

verus! {

/// The statement at place `i` of a merge.
pub open spec fn planned(project: Seq<char>, requirements: Seq<Requirement>, i: int) -> Write {
    if i == 0 {
        Write::Project { name: project }
    } else if i % 2 == 1 {
        Write::Requirement { name: requirements[(i - 1) / 2].name }
    } else {
        Write::ProjectRequirement {
            project,
            requirement: requirements[(i - 2) / 2].name,
            version: requirements[(i - 2) / 2].version,
        }
    }
}

/// The statements of a merge, in their order: the project first, then for
/// each requirement its name and its link.
pub open spec fn plan(project: Seq<char>, requirements: Seq<Requirement>) -> Seq<Write> {
    Seq::new(2 * requirements.len() + 1, |i: int| planned(project, requirements, i))
}

/// The tables after the requirements are merged into them for `project`.
pub open spec fn merged(
    tables: Tables,
    project: Seq<char>,
    requirements: Seq<Requirement>,
    now: nat,
) -> Tables {
    tables.execute_all(plan(project, requirements), now)
}

/// How far a merge has come.
pub struct Run {
    pub project: Seq<char>,
    pub requirements: Seq<Requirement>,
    /// How many statements of the plan have succeeded.
    pub position: nat,
    /// The statement that failed, if one did.
    pub failure: Option<Failure>,
}

impl Run {
    /// A merge of which nothing is written yet.
    pub open spec fn start(project: Seq<char>, requirements: Seq<Requirement>) -> Run {
        Run { project, requirements, position: 0, failure: None }
    }

    /// The statements of the merge.
    pub open spec fn plan(self) -> Seq<Write> {
        plan(self.project, self.requirements)
    }

    /// The statement that is due: the next of the plan, as long as none has
    /// failed.
    pub open spec fn pending(self) -> Option<Write> {
        if self.failure is None && self.position < self.plan().len() {
            Some(self.plan()[self.position as int])
        } else {
            None
        }
    }

    /// The merge after the statement that was due has ended in `outcome`.
    /// Where none was due, the merge stays as it is.
    pub open spec fn after(self, outcome: Result<(), Cause>) -> Run {
        match self.pending() {
            None => self,
            Some(write) => match outcome {
                Ok(_) => Run { position: self.position + 1, ..self },
                Err(cause) => Run { failure: Some(Failure { write, cause }), ..self },
            },
        }
    }

    /// The merge after the statements that were due in turn have ended in
    /// `outcomes`.
    pub open spec fn after_all(self, outcomes: Seq<Result<(), Cause>>) -> Run
        decreases outcomes.len(),
    {
        if outcomes.len() == 0 {
            self
        } else {
            self.after_all(outcomes.drop_last()).after(outcomes.last())
        }
    }

    /// The number of requirements that are merged: those whose name and link
    /// are both written.
    pub open spec fn merged(self) -> nat {
        if self.position == 0 {
            0
        } else {
            ((self.position - 1) / 2) as nat
        }
    }
}

/// How a merge ended, or how far it has come.
#[derive(Debug, PartialEq, Eq)]
pub struct MergeReport {
    /// The number of requirements merged.
    pub merged: usize,
    /// The first statement that failed.
    pub failure: Option<StoreError>,
}

/// Where a merge stands in its plan.
enum Cursor {
    /// The project is to be written.
    Project,
    /// The requirement at this index is to be written.
    Requirement(usize),
    /// The link of the requirement at this index is to be written.
    Link(usize),
}

/// A merge in progress.
pub struct Merge<'a> {
    project: &'a String,
    requirements: &'a Vec<PyRequirement>,
    cursor: Cursor,
    failure: Option<StoreError>,
}

impl<'a> View for Merge<'a> {
    type V = Run;

    closed spec fn view(&self) -> Run {
        Run {
            project: self.project@,
            requirements: views(self.requirements@),
            position: match self.cursor {
                Cursor::Project => 0,
                Cursor::Requirement(index) => 2 * index as nat + 1,
                Cursor::Link(index) => 2 * index as nat + 2,
            },
            failure: match self.failure {
                Some(error) => Some(error@),
                None => None,
            },
        }
    }
}

impl<'a> Merge<'a> {
    #[verifier::type_invariant]
    spec fn well_formed(&self) -> bool {
        &&& match self.cursor {
            Cursor::Project => true,
            Cursor::Requirement(index) => index <= self.requirements.len(),
            Cursor::Link(index) => index < self.requirements.len(),
        }
        &&& self.failure matches Some(error) ==> self@.position < self@.plan().len() && error@.write
            == self@.plan()[self@.position as int]
    }

    /// A merge of `requirements` for `project`, of which nothing is written
    /// yet.
    pub fn new(project: &'a String, requirements: &'a Vec<PyRequirement>) -> (merge: Merge<'a>)
        ensures
            merge@ == Run::start(project@, views(requirements@)),
    {
        Merge { project, requirements, cursor: Cursor::Project, failure: None }
    }

    /// The statement to execute next, if the merge is not over.
    pub fn next_statement(&self) -> (next: Option<Statement>)
        ensures
            match next {
                Some(statement) => self@.pending() == Some(statement@),
                None => self@.pending() is None,
            },
    {
        proof {
            use_type_invariant(self);
        }
        if self.failure.is_some() {
            return None;
        }
        match self.cursor {
            Cursor::Project => Some(update_projects(self.project)),
            Cursor::Requirement(index) => {
                if index < self.requirements.len() {
                    assert(views(self.requirements@)[index as int] == self.requirements[index as int]@);
                    Some(update_requirements(&self.requirements[index].name))
                } else {
                    None
                }
            },
            Cursor::Link(index) => {
                assert(views(self.requirements@)[index as int] == self.requirements[index as int]@);
                Some(
                    update_project_requirements(
                        self.project,
                        &self.requirements[index].name,
                        &self.requirements[index].current_version,
                    ),
                )
            },
        }
    }

    /// Takes note of how the statement that was due has ended.
    ///
    /// After a success the next statement of the plan is due. After a
    /// failure none is, and the failed statement is kept with its reason.
    /// Where no statement was due, nothing changes.
    pub fn record_outcome(&mut self, outcome: Result<(), Fault>)
        ensures
            final(self)@ == old(self)@.after(
                match outcome {
                    Ok(_) => Ok(()),
                    Err(fault) => Err(fault@),
                },
            ),
    {
        proof {
            use_type_invariant(&*self);
        }
        match self.next_statement() {
            None => {},
            Some(statement) => match outcome {
                Ok(_) => {
                    self.cursor =
                    match self.cursor {
                        Cursor::Project => Cursor::Requirement(0),
                        Cursor::Requirement(index) => Cursor::Link(index),
                        Cursor::Link(index) => Cursor::Requirement(index + 1),
                    };
                },
                Err(fault) => {
                    self.failure = Some(StoreError { statement, fault });
                },
            },
        }
    }

    /// Whether the merge is over: all is written, or a statement has failed.
    pub fn is_finished(&self) -> (finished: bool)
        ensures
            finished == self@.pending() is None,
    {
        self.next_statement().is_none()
    }

    /// How far the merge has come: the number of requirements merged, and
    /// the statement that failed, if one did.
    pub fn report(&self) -> (report: MergeReport)
        ensures
            report.merged == self@.merged(),
            match report.failure {
                Some(error) => self@.failure == Some(error@),
                None => self@.failure is None,
            },
    {
        proof {
            use_type_invariant(self);
        }
        MergeReport {
            merged: match self.cursor {
                Cursor::Project => 0,
                Cursor::Requirement(index) => index,
                Cursor::Link(index) => index,
            },
            failure: match &self.failure {
                Some(error) => Some(error.clone()),
                None => None,
            },
        }
    }
}

/// Merges `requirements` into `store` for `project`, at time `now`.
///
/// The statements of the merge are executed on the store in the order of the
/// plan. On a store in memory none of them fails: the project and each
/// requirement are written before the link that needs them. So the report
/// counts every requirement and holds no failure.
pub fn merge_listing(
    project: &String,
    requirements: &Vec<PyRequirement>,
    store: &mut Store,
    now: u64,
) -> (report: MergeReport)
    ensures
        final(store)@ == merged(old(store)@, project@, views(requirements@), now as nat),
        report.merged == requirements.len(),
        report.failure is None,
{
    let ghost before = store@;
    let ghost statements = plan(project@, views(requirements@));
    let mut merge = Merge::new(project, requirements);
    assert(statements.take(0) == Seq::<Write>::empty());
    loop
        invariant
            before == old(store)@,
            merge@.project == project@,
            merge@.requirements == views(requirements@),
            merge@.failure is None,
            merge@.position <= statements.len(),
            statements == plan(project@, views(requirements@)),
            store@ == before.execute_all(statements.take(merge@.position as int), now as nat),
        decreases statements.len() - merge@.position,
    {
        let ghost position = merge@.position as int;
        match merge.next_statement() {
            None => {
                assert(statements.take(position) == statements);
                return merge.report();
            },
            Some(statement) => {
                proof {
                    lemma_plan_is_accepted(
                        before,
                        project@,
                        views(requirements@),
                        now as nat,
                        position,
                    );
                    assert(statements.take(position + 1).drop_last() == statements.take(position));
                }
                match store.execute(&statement, now) {
                    Ok(_) => merge.record_outcome(Ok(())),
                    Err(error) => merge.record_outcome(Err(error.fault)),
                }
            },
        }
    }
}

/// No statement of a merge is refused, if those before it were executed: the
/// project and the requirement of a link are written before the link.
pub proof fn lemma_plan_is_accepted(
    tables: Tables,
    project: Seq<char>,
    requirements: Seq<Requirement>,
    now: nat,
    position: int,
)
    requires
        0 <= position < plan(project, requirements).len(),
    ensures
        tables.execute_all(plan(project, requirements).take(position), now).objection(
            plan(project, requirements)[position],
        ) is None,
{
    let statements = plan(project, requirements);
    if position >= 2 && position % 2 == 0 {
        let reached = tables.execute_all(statements.take(position), now);
        lemma_project_stays(tables, statements, now, 0, position);
        lemma_requirement_stays(tables, statements, now, position - 1, position);
    }
}

/// A project that a statement has written is there after any number of
/// further statements.
proof fn lemma_project_stays(tables: Tables, writes: Seq<Write>, now: nat, at: int, end: int)
    requires
        0 <= at < end <= writes.len(),
        writes[at] is Project,
    ensures
        tables.execute_all(writes.take(end), now).projects.contains(writes[at]->Project_name),
    decreases end - at,
{
    assert(writes.take(end).drop_last() == writes.take(end - 1));
    if at + 1 < end {
        lemma_project_stays(tables, writes, now, at, end - 1);
    }
}

/// A requirement that a statement has written is there after any number of
/// further statements.
proof fn lemma_requirement_stays(tables: Tables, writes: Seq<Write>, now: nat, at: int, end: int)
    requires
        0 <= at < end <= writes.len(),
        writes[at] is Requirement,
    ensures
        tables.execute_all(writes.take(end), now).requirements.contains(
            writes[at]->Requirement_name,
        ),
    decreases end - at,
{
    assert(writes.take(end).drop_last() == writes.take(end - 1));
    if at + 1 < end {
        lemma_requirement_stays(tables, writes, now, at, end - 1);
    }
}

/// The names that occur among the requirements.
pub open spec fn names(requirements: Seq<Requirement>) -> Set<Seq<char>> {
    Set::new(
        |name: Seq<char>|
            exists|i: int| 0 <= i < requirements.len() && #[trigger] requirements[i].name == name,
    )
}

/// The version of the last requirement of this name.
pub open spec fn latest(requirements: Seq<Requirement>, name: Seq<char>) -> Seq<char>
    decreases requirements.len(),
{
    if requirements.len() == 0 {
        Seq::empty()
    } else if requirements.last().name == name {
        requirements.last().version
    } else {
        latest(requirements.drop_last(), name)
    }
}

/// What a merge leaves behind, told table by table.
spec fn content(tables: Tables, project: Seq<char>, requirements: Seq<Requirement>, now: nat) -> Tables {
    Tables {
        projects: tables.projects.insert(project),
        requirements: tables.requirements.union(names(requirements)),
        project_requirements: Map::new(
            |key: (Seq<char>, Seq<char>)|
                tables.project_requirements.dom().contains(key) || (key.0 == project && names(
                    requirements,
                ).contains(key.1)),
            |key: (Seq<char>, Seq<char>)|
                if key.0 == project && names(requirements).contains(key.1) {
                    Link { version: latest(requirements, key.1), updated_at: now }
                } else {
                    tables.project_requirements[key]
                },
        ),
    }
}

/// The plan for one requirement more is the plan so far, and then the
/// requirement and its link.
proof fn lemma_plan_push(project: Seq<char>, requirements: Seq<Requirement>, last: Requirement)
    ensures
        plan(project, requirements.push(last)) == plan(project, requirements).push(
            Write::Requirement { name: last.name },
        ).push(
            Write::ProjectRequirement { project, requirement: last.name, version: last.version },
        ),
{
    let longer = plan(project, requirements.push(last));
    let built = plan(project, requirements).push(Write::Requirement { name: last.name }).push(
        Write::ProjectRequirement { project, requirement: last.name, version: last.version },
    );
    assert(longer.len() == built.len());
    assert forall|i: int| 0 <= i < longer.len() implies longer[i] == built[i] by {
        if 0 < i < 2 * requirements.len() + 1 {
            if i % 2 == 1 {
                assert(requirements.push(last)[(i - 1) / 2] == requirements[(i - 1) / 2]);
            } else {
                assert(requirements.push(last)[(i - 2) / 2] == requirements[(i - 2) / 2]);
            }
        } else if i > 0 {
            assert(requirements.push(last)[requirements.len() as int] == last);
        }
    }
}

/// The names of one requirement more.
proof fn lemma_names_push(requirements: Seq<Requirement>, last: Requirement)
    ensures
        names(requirements.push(last)) == names(requirements).insert(last.name),
{
    let longer = requirements.push(last);
    assert forall|name: Seq<char>|
        names(longer).contains(name) <==> names(requirements).insert(last.name).contains(
            name,
        ) by {
        if names(longer).contains(name) {
            let i = choose|i: int| 0 <= i < longer.len() && #[trigger] longer[i].name == name;
            if i < requirements.len() {
                assert(requirements[i].name == name);
            }
        }
        if names(requirements).contains(name) {
            let i = choose|i: int|
                0 <= i < requirements.len() && #[trigger] requirements[i].name == name;
            assert(longer[i].name == name);
        }
        if name == last.name {
            assert(longer[requirements.len() as int].name == name);
        }
    }
}

/// One statement more is executed on what the statements before it left.
proof fn lemma_execute_all_push(tables: Tables, writes: Seq<Write>, write: Write, now: nat)
    ensures
        tables.execute_all(writes.push(write), now) == tables.execute_all(writes, now).execute(
            write,
            now,
        ),
{
    assert(writes.push(write).drop_last() == writes);
}

/// A merge leaves behind what `content` tells.
proof fn lemma_merged_content(
    tables: Tables,
    project: Seq<char>,
    requirements: Seq<Requirement>,
    now: nat,
)
    ensures
        merged(tables, project, requirements, now) == content(tables, project, requirements, now),
    decreases requirements.len(),
{
    if requirements.len() == 0 {
        let only = plan(project, requirements);
        assert(only == Seq::<Write>::empty().push(Write::Project { name: project }));
        lemma_execute_all_push(tables, Seq::empty(), Write::Project { name: project }, now);
        assert(names(requirements) == Set::<Seq<char>>::empty());
        assert(merged(tables, project, requirements, now) =~= content(
            tables,
            project,
            requirements,
            now,
        ));
    } else {
        let rest = requirements.drop_last();
        let last = requirements.last();
        assert(rest.push(last) == requirements);
        lemma_merged_content(tables, project, rest, now);
        lemma_plan_push(project, rest, last);
        lemma_names_push(rest, last);
        let name = Write::Requirement { name: last.name };
        let link = Write::ProjectRequirement {
            project,
            requirement: last.name,
            version: last.version,
        };
        let so_far = plan(project, rest);
        lemma_execute_all_push(tables, so_far, name, now);
        lemma_execute_all_push(tables, so_far.push(name), link, now);
        let before = content(tables, project, rest, now);
        assert(merged(tables, project, requirements, now) == before.execute(name, now).execute(
            link,
            now,
        ));
        assert(before.execute(name, now).execute(link, now) =~= content(
            tables,
            project,
            requirements,
            now,
        ));
    }
}

/// What a merge leaves behind. The project is there, and so is each
/// requirement. Each requirement is linked to the project, at the version of
/// the last requirement of its name and with the time of the merge. Nothing
/// else is added, and every other row stays as it was.
pub proof fn lemma_merged(
    tables: Tables,
    project: Seq<char>,
    requirements: Seq<Requirement>,
    now: nat,
)
    ensures
        ({
            let after = merged(tables, project, requirements, now);
            &&& after.projects == tables.projects.insert(project)
            &&& after.requirements == tables.requirements.union(names(requirements))
            &&& forall|key: (Seq<char>, Seq<char>)| #[trigger]
                after.project_requirements.dom().contains(key)
                    <==> tables.project_requirements.dom().contains(key) || (key.0 == project
                    && names(requirements).contains(key.1))
            &&& forall|name: Seq<char>| #[trigger]
                names(requirements).contains(name) ==> after.project_requirements[(
                    project,
                    name,
                )] == (Link { version: latest(requirements, name), updated_at: now })
            &&& forall|key: (Seq<char>, Seq<char>)|
                tables.project_requirements.dom().contains(key) && !(key.0 == project && names(
                    requirements,
                ).contains(key.1)) ==> #[trigger] after.project_requirements[key]
                    == tables.project_requirements[key]
        }),
{
    lemma_merged_content(tables, project, requirements, now);
}

/// A requirement that no later one of its name follows is at its own version.
pub proof fn lemma_latest(requirements: Seq<Requirement>, i: int)
    requires
        0 <= i < requirements.len(),
        forall|later: int|
            i < later < requirements.len() ==> requirements[later].name != requirements[i].name,
    ensures
        names(requirements).contains(requirements[i].name),
        latest(requirements, requirements[i].name) == requirements[i].version,
    decreases requirements.len(),
{
    if i < requirements.len() - 1 {
        lemma_latest(requirements.drop_last(), i);
    }
}

/// Merging is idempotent: a second merge of the same requirements for the
/// same project leaves the projects, the requirements and the version of
/// every link as the first merge left them. Only the times of the links may
/// move on. A requirement that no later one of its name follows is linked at
/// its own version after the first merge and after the second.
pub proof fn lemma_merge_idempotent(
    tables: Tables,
    project: Seq<char>,
    requirements: Seq<Requirement>,
    first: nat,
    second: nat,
)
    ensures
        ({
            let once = merged(tables, project, requirements, first);
            let twice = merged(once, project, requirements, second);
            &&& twice.projects == once.projects
            &&& twice.requirements == once.requirements
            &&& twice.project_requirements.dom() == once.project_requirements.dom()
            &&& twice.versions() == once.versions()
            &&& forall|i: int|
                0 <= i < requirements.len() && (forall|later: int|
                    i < later < requirements.len() ==> requirements[later].name
                        != requirements[i].name) ==> {
                    &&& #[trigger] once.versions()[(project, requirements[i].name)]
                        == requirements[i].version
                    &&& twice.versions()[(project, requirements[i].name)] == requirements[i].version
                }
        }),
{
    let once = merged(tables, project, requirements, first);
    let twice = merged(once, project, requirements, second);
    lemma_merged_content(tables, project, requirements, first);
    lemma_merged_content(once, project, requirements, second);
    assert(twice.projects == once.projects);
    assert(twice.requirements == once.requirements);
    assert(twice.project_requirements.dom() == once.project_requirements.dom());
    assert(twice.versions() == once.versions());
    assert forall|i: int|
        0 <= i < requirements.len() && (forall|later: int|
            i < later < requirements.len() ==> requirements[later].name
                != requirements[i].name) implies {
        &&& #[trigger] once.versions()[(project, requirements[i].name)] == requirements[i].version
        &&& twice.versions()[(project, requirements[i].name)] == requirements[i].version
    } by {
        lemma_latest(requirements, i);
    }
}

/// A later version takes the place of an earlier one: when a requirement is
/// merged for a project at one version and then at another, the pair has the
/// one row that the first merge gave it, now at the second version.
pub proof fn lemma_version_overwrite(
    tables: Tables,
    project: Seq<char>,
    earlier: Requirement,
    later: Requirement,
    first: nat,
    second: nat,
)
    requires
        earlier.name == later.name,
    ensures
        ({
            let once = merged(tables, project, seq![earlier], first);
            let twice = merged(once, project, seq![later], second);
            &&& once.project_requirements.dom().contains((project, later.name))
            &&& twice.project_requirements.dom() == once.project_requirements.dom()
            &&& twice.project_requirements[(project, later.name)] == (Link {
                version: later.version,
                updated_at: second,
            })
        }),
{
    let once = merged(tables, project, seq![earlier], first);
    let twice = merged(once, project, seq![later], second);
    lemma_merged_content(tables, project, seq![earlier], first);
    lemma_merged_content(once, project, seq![later], second);
    lemma_latest(seq![earlier], 0);
    lemma_latest(seq![later], 0);
    lemma_names_push(Seq::empty(), earlier);
    lemma_names_push(Seq::empty(), later);
    assert(Seq::<Requirement>::empty().push(earlier) == seq![earlier]);
    assert(Seq::<Requirement>::empty().push(later) == seq![later]);
    assert(twice.project_requirements.dom() == once.project_requirements.dom());
}

/// Projects do not share their links: when a requirement of one name is
/// merged for two projects, the requirements gain that one name, and each
/// project has its own row for it, at its own version.
pub proof fn lemma_projects_apart(
    tables: Tables,
    one: Seq<char>,
    other: Seq<char>,
    for_one: Requirement,
    for_other: Requirement,
    first: nat,
    second: nat,
)
    requires
        one != other,
        for_one.name == for_other.name,
    ensures
        ({
            let name = for_one.name;
            let after = merged(
                merged(tables, one, seq![for_one], first),
                other,
                seq![for_other],
                second,
            );
            &&& after.requirements == tables.requirements.insert(name)
            &&& after.project_requirements.dom() == tables.project_requirements.dom().insert(
                (one, name),
            ).insert((other, name))
            &&& (one, name) != (other, name)
            &&& after.project_requirements[(one, name)] == (Link {
                version: for_one.version,
                updated_at: first,
            })
            &&& after.project_requirements[(other, name)] == (Link {
                version: for_other.version,
                updated_at: second,
            })
        }),
{
    let name = for_one.name;
    let once = merged(tables, one, seq![for_one], first);
    let after = merged(once, other, seq![for_other], second);
    lemma_merged_content(tables, one, seq![for_one], first);
    lemma_merged_content(once, other, seq![for_other], second);
    lemma_latest(seq![for_one], 0);
    lemma_latest(seq![for_other], 0);
    lemma_names_push(Seq::empty(), for_one);
    lemma_names_push(Seq::empty(), for_other);
    assert(Seq::<Requirement>::empty().push(for_one) == seq![for_one]);
    assert(Seq::<Requirement>::empty().push(for_other) == seq![for_other]);
    assert(names(Seq::<Requirement>::empty()) == Set::<Seq<char>>::empty());
    assert(after.requirements == tables.requirements.insert(name));
    assert(after.project_requirements.dom() == tables.project_requirements.dom().insert(
        (one, name),
    ).insert((other, name)));
}

/// A merge fails fast: once a statement has failed, no statement is due any
/// more, however the caller goes on. What had succeeded stays counted, and
/// the failure that is kept is that of the statement that was due.
pub proof fn lemma_fail_fast(run: Run, cause: Cause, further: Seq<Result<(), Cause>>)
    requires
        run.pending() is Some,
    ensures
        ({
            let failed = run.after(Err(cause));
            &&& failed.pending() is None
            &&& failed.position == run.position
            &&& failed.merged() == run.merged()
            &&& failed.failure == Some(Failure { write: run.pending()->Some_0, cause })
            &&& failed.after_all(further) == failed
        }),
    decreases further.len(),
{
    if further.len() > 0 {
        lemma_fail_fast(run, cause, further.drop_last());
    }
}

} // verus!
