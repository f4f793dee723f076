//! The data model: users, projects, tasks, and the derived
//! project-with-recent-tasks aggregate.
//!
//! Identity fields (`id`, `owner`, `owner_proj`) are small positive integers
//! assigned by storage; `id` is `None` until a record is persisted.
//! Timestamps are stored as strings in the storage engine's text format
//! (date, time, optional fractional seconds, optional zone marker).

use vstd::prelude::*;

verus! {

/// A registered user. `admin` gates the admin-only routes; `premium` is a
/// plain attribute with no behaviour attached here.
#[derive(Debug)]
pub struct User {
    pub id: Option<u8>,
    pub email: String,
    pub name: String,
    pub password: String,
    pub created: String,
    pub profile_pic: String,
    pub admin: bool,
    pub premium: bool,
}

/// Mathematical image of a [`User`].
pub struct UserV {
    pub id: Option<u8>,
    pub email: Seq<char>,
    pub name: Seq<char>,
    pub password: Seq<char>,
    pub created: Seq<char>,
    pub profile_pic: Seq<char>,
    pub admin: bool,
    pub premium: bool,
}

impl View for User {
    type V = UserV;

    open spec fn view(&self) -> UserV {
        UserV {
            id: self.id,
            email: self.email@,
            name: self.name@,
            password: self.password@,
            created: self.created@,
            profile_pic: self.profile_pic@,
            admin: self.admin,
            premium: self.premium,
        }
    }
}

impl Clone for User {
    fn clone(&self) -> (r: Self)
        ensures
            r@ == self@,
    {
        User {
            id: self.id,
            email: self.email.clone(),
            name: self.name.clone(),
            password: self.password.clone(),
            created: self.created.clone(),
            profile_pic: self.profile_pic.clone(),
            admin: self.admin,
            premium: self.premium,
        }
    }
}

/// The output of the admin guard: a user that is known to be an admin.
#[derive(Debug)]
pub struct Admin {
    pub user: User,
}

impl View for Admin {
    type V = UserV;

    open spec fn view(&self) -> UserV {
        self.user@
    }
}

impl Clone for Admin {
    fn clone(&self) -> (r: Self)
        ensures
            r@ == self@,
    {
        Admin { user: self.user.clone() }
    }
}

/// A project owned by one user. `participants` is an ordered list of user
/// ids; in storage it lives as one comma-delimited text column, and entries
/// of that column that do not parse are silently dropped, not fatal.
#[derive(Debug)]
pub struct Project {
    pub id: Option<u8>,
    pub name: String,
    pub proj_start_date: String,
    pub proj_end_date: String,
    pub owner: u8,
    pub participants: Vec<u8>,
}

/// Mathematical image of a [`Project`].
pub struct ProjectV {
    pub id: Option<u8>,
    pub name: Seq<char>,
    pub proj_start_date: Seq<char>,
    pub proj_end_date: Seq<char>,
    pub owner: u8,
    pub participants: Seq<u8>,
}

impl View for Project {
    type V = ProjectV;

    open spec fn view(&self) -> ProjectV {
        ProjectV {
            id: self.id,
            name: self.name@,
            proj_start_date: self.proj_start_date@,
            proj_end_date: self.proj_end_date@,
            owner: self.owner,
            participants: self.participants@,
        }
    }
}

impl Clone for Project {
    fn clone(&self) -> (r: Self)
        ensures
            r@ == self@,
    {
        let participants = self.participants.clone();
        proof {
            assert(participants@ =~= self.participants@);
        }
        Project {
            id: self.id,
            name: self.name.clone(),
            proj_start_date: self.proj_start_date.clone(),
            proj_end_date: self.proj_end_date.clone(),
            owner: self.owner,
            participants,
        }
    }
}

/// All projects of one user, as the projects guard yields them.
#[derive(Debug)]
pub struct Projects(pub Vec<Project>);

impl View for Projects {
    type V = Seq<ProjectV>;

    open spec fn view(&self) -> Seq<ProjectV> {
        self.0@.map_values(|p: Project| p@)
    }
}

impl Clone for Projects {
    fn clone(&self) -> (r: Self)
        ensures
            r@ == self@,
    {
        let v = self.0.clone();
        proof {
            assert(v@.map_values(|p: Project| p@) =~= self.0@.map_values(|p: Project| p@));
        }
        Projects(v)
    }
}

/// A task under a project. `task_end_date` is `None` until the task is
/// completed; `time_delta` is `None` until the elapsed seconds are computed.
#[derive(Debug)]
pub struct ProjectTask {
    pub id: Option<u8>,
    pub description: String,
    pub task_start_date: String,
    pub task_end_date: Option<String>,
    pub owner_proj: u8,
    pub time_delta: Option<i64>,
}

/// Mathematical image of a [`ProjectTask`].
pub struct ProjectTaskV {
    pub id: Option<u8>,
    pub description: Seq<char>,
    pub task_start_date: Seq<char>,
    pub task_end_date: Option<Seq<char>>,
    pub owner_proj: u8,
    pub time_delta: Option<i64>,
}

impl View for ProjectTask {
    type V = ProjectTaskV;

    open spec fn view(&self) -> ProjectTaskV {
        ProjectTaskV {
            id: self.id,
            description: self.description@,
            task_start_date: self.task_start_date@,
            task_end_date: match self.task_end_date {
                Some(ref d) => Some(d@),
                None => None,
            },
            owner_proj: self.owner_proj,
            time_delta: self.time_delta,
        }
    }
}

impl Clone for ProjectTask {
    fn clone(&self) -> (r: Self)
        ensures
            r@ == self@,
    {
        ProjectTask {
            id: self.id,
            description: self.description.clone(),
            task_start_date: self.task_start_date.clone(),
            task_end_date: match &self.task_end_date {
                Some(d) => Some(d.clone()),
                None => None,
            },
            owner_proj: self.owner_proj,
            time_delta: self.time_delta,
        }
    }
}

/// All tasks of one project, as the task guard yields them.
#[derive(Debug)]
pub struct ProjectTasks(pub Vec<ProjectTask>);

impl View for ProjectTasks {
    type V = Seq<ProjectTaskV>;

    open spec fn view(&self) -> Seq<ProjectTaskV> {
        self.0@.map_values(|t: ProjectTask| t@)
    }
}

impl Clone for ProjectTasks {
    fn clone(&self) -> (r: Self)
        ensures
            r@ == self@,
    {
        let v = self.0.clone();
        proof {
            assert(v@.map_values(|t: ProjectTask| t@) =~= self.0@.map_values(
                |t: ProjectTask| t@,
            ));
        }
        ProjectTasks(v)
    }
}

/// A project together with its most recent tasks, newest first, at most
/// three. `tasks` is `None` (not an empty list) when the project has no
/// tasks at all, so callers can tell "no tasks" from "tasks not loaded".
#[derive(Debug)]
pub struct ProjectWithTasks {
    pub project: Project,
    pub tasks: Option<ProjectTasks>,
}

/// Mathematical image of a [`ProjectWithTasks`]: `tasks` stays an option,
/// so "no tasks" and "tasks not loaded" remain distinguishable.
pub struct ProjectWithTasksV {
    pub project: ProjectV,
    pub tasks: Option<Seq<ProjectTaskV>>,
}

impl View for ProjectWithTasks {
    type V = ProjectWithTasksV;

    open spec fn view(&self) -> ProjectWithTasksV {
        ProjectWithTasksV {
            project: self.project@,
            tasks: match self.tasks {
                Some(ref ts) => Some(ts@),
                None => None,
            },
        }
    }
}

impl Clone for ProjectWithTasks {
    fn clone(&self) -> (r: Self)
        ensures
            r@ == self@,
    {
        ProjectWithTasks {
            project: self.project.clone(),
            tasks: match &self.tasks {
                Some(t) => Some(t.clone()),
                None => None,
            },
        }
    }
}

/// Marker for a completed task-completion request.
#[derive(Debug)]
pub struct CompleteTask(pub ());


} // verus!
