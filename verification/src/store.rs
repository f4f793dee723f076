//! The storage model: the three tables of the tracker (users, projects,
//! tasks) with their id assignment, lookups, inserts, updates and deletes.
//!
//! Ids are small positive integers handed out by the store itself; a
//! creating insert returns the assigned id directly (the returning-value
//! pattern), so no caller ever has to read back a generated id. A lookup
//! that finds nothing is a distinguished no-op result, never an error.

use vstd::prelude::*;

use crate::auth::{bcrypt_accepts, hash_password};
use crate::user::{Project, ProjectTask, ProjectTaskV, ProjectV, User, UserV};

verus! {

/// The first element of `s` satisfying `p`, scanning left to right.
pub open spec fn find_first<T>(s: Seq<T>, p: spec_fn(T) -> bool) -> Option<T>
    decreases s.len(),
{
    if s.len() == 0 {
        None
    } else if p(s[0]) {
        Some(s[0])
    } else {
        find_first(s.drop_first(), p)
    }
}

/// If nothing before `i` satisfies `p` and `s[i]` does, the scan stops at
/// `s[i]`.
pub proof fn lemma_find_first_match<T>(s: Seq<T>, p: spec_fn(T) -> bool, i: int)
    requires
        0 <= i < s.len(),
        forall|j: int| 0 <= j < i ==> !p(s[j]),
        p(s[i]),
    ensures
        find_first(s, p) == Some(s[i]),
    decreases i,
{
    if i > 0 {
        lemma_find_first_match(s.drop_first(), p, i - 1);
    }
}

/// If nothing in `s` satisfies `p`, the scan comes up empty.
pub proof fn lemma_find_first_none<T>(s: Seq<T>, p: spec_fn(T) -> bool)
    requires
        forall|j: int| 0 <= j < s.len() ==> !p(s[j]),
    ensures
        find_first(s, p) is None,
    decreases s.len(),
{
    if s.len() > 0 {
        lemma_find_first_none(s.drop_first(), p);
    }
}

/// What the scan returns, it returns from the sequence, and it satisfies
/// the predicate.
pub proof fn lemma_find_first_mem<T>(s: Seq<T>, p: spec_fn(T) -> bool)
    ensures
        (match find_first(s, p) {
            Some(x) => s.contains(x) && p(x),
            None => true,
        }),
    decreases s.len(),
{
    if s.len() > 0 && !p(s[0]) {
        lemma_find_first_mem(s.drop_first(), p);
        match find_first(s.drop_first(), p) {
            Some(x) => {
                let w = choose|w: int| 0 <= w < s.drop_first().len() && s.drop_first()[w] == x;
                assert(s[w + 1] == x);
                assert(s.contains(x));
            },
            None => {},
        }
    }
}

/// Matches the user carrying id `id`.
pub open spec fn by_user_id(id: u8) -> spec_fn(UserV) -> bool {
    |u: UserV| u.id == Some(id)
}

/// Matches the user registered under `email`.
pub open spec fn by_user_email(email: Seq<char>) -> spec_fn(UserV) -> bool {
    |u: UserV| u.email == email
}

/// Matches the project carrying id `id`.
pub open spec fn by_project_id(id: u8) -> spec_fn(ProjectV) -> bool {
    |p: ProjectV| p.id == Some(id)
}

/// Matches the task carrying id `id`.
pub open spec fn by_task_id(id: u8) -> spec_fn(ProjectTaskV) -> bool {
    |t: ProjectTaskV| t.id == Some(id)
}

/// The user record stored under `id`, if any.
pub open spec fn find_user(users: Seq<UserV>, id: u8) -> Option<UserV> {
    find_first(users, by_user_id(id))
}

/// The first user record stored under `email`, if any.
pub open spec fn find_user_by_email(users: Seq<UserV>, email: Seq<char>) -> Option<UserV> {
    find_first(users, by_user_email(email))
}

/// The project record stored under `id`, if any.
pub open spec fn find_project(projects: Seq<ProjectV>, id: u8) -> Option<ProjectV> {
    find_first(projects, by_project_id(id))
}

/// The task record stored under `id`, if any.
pub open spec fn find_task(tasks: Seq<ProjectTaskV>, id: u8) -> Option<ProjectTaskV> {
    find_first(tasks, by_task_id(id))
}

/// The three tables and the next id each will assign.
pub struct Store {
    pub users: Vec<User>,
    pub projects: Vec<Project>,
    pub tasks: Vec<ProjectTask>,
    pub next_user_id: u8,
    pub next_project_id: u8,
    pub next_task_id: u8,
}

/// Mathematical image of a [`Store`].
pub struct StoreV {
    pub users: Seq<UserV>,
    pub projects: Seq<ProjectV>,
    pub tasks: Seq<ProjectTaskV>,
    pub next_user_id: u8,
    pub next_project_id: u8,
    pub next_task_id: u8,
}

impl View for Store {
    type V = StoreV;

    open spec fn view(&self) -> StoreV {
        StoreV {
            users: self.users@.map_values(|u: User| u@),
            projects: self.projects@.map_values(|p: Project| p@),
            tasks: self.tasks@.map_values(|t: ProjectTask| t@),
            next_user_id: self.next_user_id,
            next_project_id: self.next_project_id,
            next_task_id: self.next_task_id,
        }
    }
}

impl StoreV {
    /// Well-formedness: every persisted record carries an id, ids are
    /// positive, below the next id to be assigned, and unique per table.
    pub open spec fn wf(self) -> bool {
        &&& 1 <= self.next_user_id
        &&& 1 <= self.next_project_id
        &&& 1 <= self.next_task_id
        &&& forall|i: int|
            0 <= i < self.users.len() ==> ((#[trigger] self.users[i]).id matches Some(uid) && 1
                <= uid < self.next_user_id)
        &&& forall|i: int|
            0 <= i < self.projects.len() ==> ((#[trigger] self.projects[i]).id matches Some(pid)
                && 1 <= pid < self.next_project_id)
        &&& forall|i: int|
            0 <= i < self.tasks.len() ==> ((#[trigger] self.tasks[i]).id matches Some(tid) && 1
                <= tid < self.next_task_id)
        &&& forall|i: int, j: int|
            #![trigger self.users[i], self.users[j]]
            0 <= i < j < self.users.len() ==> self.users[i].id != self.users[j].id
        &&& forall|i: int, j: int|
            #![trigger self.projects[i], self.projects[j]]
            0 <= i < j < self.projects.len() ==> self.projects[i].id != self.projects[j].id
        &&& forall|i: int, j: int|
            #![trigger self.tasks[i], self.tasks[j]]
            0 <= i < j < self.tasks.len() ==> self.tasks[i].id != self.tasks[j].id
    }
}

/// A user record as a creating insert lays it down.
pub open spec fn new_user_v(
    id: u8,
    email: Seq<char>,
    name: Seq<char>,
    password: Seq<char>,
    created: Seq<char>,
) -> UserV {
    UserV {
        id: Some(id),
        email,
        name,
        password,
        created,
        profile_pic: Seq::empty(),
        admin: false,
        premium: false,
    }
}

/// A project record as a creating insert lays it down: no end date yet and
/// no participants.
pub open spec fn new_project_v(id: u8, name: Seq<char>, start: Seq<char>, owner: u8) -> ProjectV {
    ProjectV {
        id: Some(id),
        name,
        proj_start_date: start,
        proj_end_date: Seq::empty(),
        owner,
        participants: Seq::empty(),
    }
}

/// A task record as a creating insert lays it down: not yet completed, no
/// elapsed time computed.
pub open spec fn new_task_v(id: u8, description: Seq<char>, start: Seq<char>, owner_proj: u8) -> ProjectTaskV {
    ProjectTaskV {
        id: Some(id),
        description,
        task_start_date: start,
        task_end_date: None,
        owner_proj,
        time_delta: None,
    }
}

/// Why a user could not be added.
#[derive(Clone, Copy, Debug, PartialEq, Eq, Structural)]
pub enum AddUserError {
    /// A user is already registered under this email.
    EmailExists,
    /// The password hash could not be produced.
    HashFailure,
}

/// The project table after editing project `id`: its name and end date
/// replaced, everything else untouched.
pub open spec fn with_project_edit(
    ps: Seq<ProjectV>,
    id: u8,
    name: Seq<char>,
    end: Seq<char>,
) -> Seq<ProjectV> {
    ps.map_values(
        |p: ProjectV|
            if p.id == Some(id) {
                ProjectV { name: name, proj_end_date: end, ..p }
            } else {
                p
            },
    )
}

/// The task table after completing task `id`: its end date stamped,
/// everything else untouched.
pub open spec fn with_task_end(ts: Seq<ProjectTaskV>, id: u8, end: Seq<char>) -> Seq<ProjectTaskV> {
    ts.map_values(
        |t: ProjectTaskV|
            if t.id == Some(id) {
                ProjectTaskV { task_end_date: Some(end), ..t }
            } else {
                t
            },
    )
}

/// Well-formedness survives any rewrite that keeps every table the same
/// length with the same id in every slot.
pub proof fn lemma_wf_same_ids(a: StoreV, b: StoreV)
    requires
        a.wf(),
        b.next_user_id == a.next_user_id,
        b.next_project_id == a.next_project_id,
        b.next_task_id == a.next_task_id,
        b.users.len() == a.users.len(),
        b.projects.len() == a.projects.len(),
        b.tasks.len() == a.tasks.len(),
        forall|k: int| 0 <= k < a.users.len() ==> (#[trigger] b.users[k]).id == a.users[k].id,
        forall|k: int|
            0 <= k < a.projects.len() ==> (#[trigger] b.projects[k]).id == a.projects[k].id,
        forall|k: int| 0 <= k < a.tasks.len() ==> (#[trigger] b.tasks[k]).id == a.tasks[k].id,
    ensures
        b.wf(),
{
    assert forall|i: int, j: int|
        #![trigger b.users[i], b.users[j]]
        0 <= i < j < b.users.len() implies b.users[i].id != b.users[j].id by {
        assert(a.users[i].id != a.users[j].id);
    }
    assert forall|i: int, j: int|
        #![trigger b.projects[i], b.projects[j]]
        0 <= i < j < b.projects.len() implies b.projects[i].id != b.projects[j].id by {
        assert(a.projects[i].id != a.projects[j].id);
    }
    assert forall|i: int, j: int|
        #![trigger b.tasks[i], b.tasks[j]]
        0 <= i < j < b.tasks.len() implies b.tasks[i].id != b.tasks[j].id by {
        assert(a.tasks[i].id != a.tasks[j].id);
    }
}

/// Law: creating a project and immediately loading it by the returned id
/// yields exactly the freshly created record — owned by the creating
/// user, with an empty participant list. The state written here is the
/// one [`Store::add_project`] ensures, and the lookup is the one
/// [`Store::get_project_by_id`] ensures.
pub proof fn lemma_add_project_round_trip(s: StoreV, name: Seq<char>, start: Seq<char>, owner: u8)
    requires
        s.wf(),
        s.next_project_id < 255,
    ensures
        ({
            let id = s.next_project_id;
            let created = new_project_v(id, name, start, owner);
            let s2 = StoreV {
                projects: s.projects.push(created),
                next_project_id: (s.next_project_id + 1) as u8,
                ..s
            };
            find_project(s2.projects, id) == Some(created) && created.owner == owner
                && created.participants == Seq::<u8>::empty()
        }),
{
    let id = s.next_project_id;
    let created = new_project_v(id, name, start, owner);
    let s2 = StoreV {
        projects: s.projects.push(created),
        next_project_id: (s.next_project_id + 1) as u8,
        ..s
    };
    assert forall|j: int| 0 <= j < s.projects.len() implies !by_project_id(id)(
        s2.projects[j],
    ) by {
        assert(s2.projects[j] == s.projects[j]);
    }
    lemma_find_first_match(s2.projects, by_project_id(id), s.projects.len() as int);
}

/// Well-formedness survives removing one project.
pub proof fn lemma_wf_project_removed(a: StoreV, j: int)
    requires
        a.wf(),
        0 <= j < a.projects.len(),
    ensures
        (StoreV { projects: a.projects.remove(j), ..a }).wf(),
{
    let b = StoreV { projects: a.projects.remove(j), ..a };
    assert forall|i: int|
        0 <= i < b.projects.len() implies ((#[trigger] b.projects[i]).id matches Some(pid) && 1
        <= pid < b.next_project_id) by {
        if i < j {
            assert(b.projects[i] == a.projects[i]);
        } else {
            assert(b.projects[i] == a.projects[i + 1]);
        }
    }
    assert forall|i: int, k: int|
        #![trigger b.projects[i], b.projects[k]]
        0 <= i < k < b.projects.len() implies b.projects[i].id != b.projects[k].id by {
        let oi: int = if i < j { i } else { i + 1 };
        let ok: int = if k < j { k } else { k + 1 };
        assert(b.projects[i] == a.projects[oi]);
        assert(b.projects[k] == a.projects[ok]);
        assert(a.projects[oi].id != a.projects[ok].id);
    }
}

/// Well-formedness survives removing one task.
pub proof fn lemma_wf_task_removed(a: StoreV, j: int)
    requires
        a.wf(),
        0 <= j < a.tasks.len(),
    ensures
        (StoreV { tasks: a.tasks.remove(j), ..a }).wf(),
{
    let b = StoreV { tasks: a.tasks.remove(j), ..a };
    assert forall|i: int|
        0 <= i < b.tasks.len() implies ((#[trigger] b.tasks[i]).id matches Some(tid) && 1 <= tid
        < b.next_task_id) by {
        if i < j {
            assert(b.tasks[i] == a.tasks[i]);
        } else {
            assert(b.tasks[i] == a.tasks[i + 1]);
        }
    }
    assert forall|i: int, k: int|
        #![trigger b.tasks[i], b.tasks[k]]
        0 <= i < k < b.tasks.len() implies b.tasks[i].id != b.tasks[k].id by {
        let oi: int = if i < j { i } else { i + 1 };
        let ok: int = if k < j { k } else { k + 1 };
        assert(b.tasks[i] == a.tasks[oi]);
        assert(b.tasks[k] == a.tasks[ok]);
        assert(a.tasks[oi].id != a.tasks[ok].id);
    }
}

/// The task table after computing task `id`'s elapsed time: its
/// `time_delta` set, everything else untouched.
pub open spec fn with_task_delta(ts: Seq<ProjectTaskV>, id: u8, delta: i64) -> Seq<ProjectTaskV> {
    ts.map_values(
        |t: ProjectTaskV|
            if t.id == Some(id) {
                ProjectTaskV { time_delta: Some(delta), ..t }
            } else {
                t
            },
    )
}

impl Store {
    /// An empty store; the first record of each table will get id 1.
    pub fn new() -> (r: Store)
        ensures
            r@.wf(),
            r@.users == Seq::<UserV>::empty(),
            r@.projects == Seq::<ProjectV>::empty(),
            r@.tasks == Seq::<ProjectTaskV>::empty(),
            r@.next_user_id == 1,
            r@.next_project_id == 1,
            r@.next_task_id == 1,
    {
        let r = Store {
            users: Vec::new(),
            projects: Vec::new(),
            tasks: Vec::new(),
            next_user_id: 1,
            next_project_id: 1,
            next_task_id: 1,
        };
        proof {
            assert(r@.users =~= Seq::<UserV>::empty());
            assert(r@.projects =~= Seq::<ProjectV>::empty());
            assert(r@.tasks =~= Seq::<ProjectTaskV>::empty());
        }
        r
    }

    /// The user stored under `id`, or nothing: exactly one lookup.
    pub fn get_user_by_id(&self, id: u8) -> (r: Option<User>)
        ensures
            match r {
                Some(u) => find_user(self@.users, id) == Some(u@),
                None => find_user(self@.users, id) is None,
            },
    {
        let n = self.users.len();
        let mut i: usize = 0;
        while i < n
            invariant
                0 <= i <= n,
                n == self.users.len(),
                forall|j: int| 0 <= j < i ==> !by_user_id(id)(self@.users[j]),
            decreases n - i,
        {
            let hit = match self.users[i].id {
                Some(uid) => uid == id,
                None => false,
            };
            if hit {
                let u = self.users[i].clone();
                proof {
                    lemma_find_first_match(self@.users, by_user_id(id), i as int);
                }
                return Some(u);
            }
            i += 1;
        }
        proof {
            lemma_find_first_none(self@.users, by_user_id(id));
        }
        None
    }

    /// The first user stored under `email`, or nothing: exactly one lookup.
    pub fn get_user_by_email(&self, email: &str) -> (r: Option<User>)
        ensures
            match r {
                Some(u) => find_user_by_email(self@.users, email@) == Some(u@),
                None => find_user_by_email(self@.users, email@) is None,
            },
    {
        let email_s = email.to_owned();
        let n = self.users.len();
        let mut i: usize = 0;
        while i < n
            invariant
                0 <= i <= n,
                n == self.users.len(),
                email_s@ == email@,
                forall|j: int| 0 <= j < i ==> !by_user_email(email@)(self@.users[j]),
            decreases n - i,
        {
            if self.users[i].email == email_s {
                let u = self.users[i].clone();
                proof {
                    lemma_find_first_match(self@.users, by_user_email(email@), i as int);
                }
                return Some(u);
            }
            i += 1;
        }
        proof {
            lemma_find_first_none(self@.users, by_user_email(email@));
        }
        None
    }

    /// The identity lookup the request guards use: same contract as
    /// [`Store::get_user_by_id`], under the name the guard chain calls.
    pub fn user_req_guard(&self, id: u8) -> (r: Option<User>)
        ensures
            match r {
                Some(u) => find_user(self@.users, id) == Some(u@),
                None => find_user(self@.users, id) is None,
            },
    {
        self.get_user_by_id(id)
    }

    /// The project stored under `id`; an absent id is the error case, as
    /// the single-row fetch reports it.
    pub fn get_project_by_id(&self, id: u8) -> (r: Result<Project, ()>)
        ensures
            match r {
                Ok(p) => find_project(self@.projects, id) == Some(p@),
                Err(()) => find_project(self@.projects, id) is None,
            },
    {
        let n = self.projects.len();
        let mut i: usize = 0;
        while i < n
            invariant
                0 <= i <= n,
                n == self.projects.len(),
                forall|j: int| 0 <= j < i ==> !by_project_id(id)(self@.projects[j]),
            decreases n - i,
        {
            let hit = match self.projects[i].id {
                Some(pid) => pid == id,
                None => false,
            };
            if hit {
                let p = self.projects[i].clone();
                proof {
                    lemma_find_first_match(self@.projects, by_project_id(id), i as int);
                }
                return Ok(p);
            }
            i += 1;
        }
        proof {
            lemma_find_first_none(self@.projects, by_project_id(id));
        }
        Err(())
    }

    /// The task stored under `id`, or nothing.
    pub fn get_task_by_id(&self, id: u8) -> (r: Option<ProjectTask>)
        ensures
            match r {
                Some(t) => find_task(self@.tasks, id) == Some(t@),
                None => find_task(self@.tasks, id) is None,
            },
    {
        let n = self.tasks.len();
        let mut i: usize = 0;
        while i < n
            invariant
                0 <= i <= n,
                n == self.tasks.len(),
                forall|j: int| 0 <= j < i ==> !by_task_id(id)(self@.tasks[j]),
            decreases n - i,
        {
            let hit = match self.tasks[i].id {
                Some(tid) => tid == id,
                None => false,
            };
            if hit {
                let t = self.tasks[i].clone();
                proof {
                    lemma_find_first_match(self@.tasks, by_task_id(id), i as int);
                }
                return Some(t);
            }
            i += 1;
        }
        proof {
            lemma_find_first_none(self@.tasks, by_task_id(id));
        }
        None
    }

    /// Registers a user: hashes the password and appends the record under
    /// the next user id. Fails if the email is taken (the unique-email
    /// constraint) or the hash could not be produced; on failure nothing
    /// changes.
    pub fn add_user(&mut self, name: &str, email: &str, password: &str, created: &str) -> (r:
        Result<u8, AddUserError>)
        requires
            old(self)@.wf(),
            old(self)@.next_user_id < 255,
        ensures
            final(self)@.wf(),
            r matches Err(e) ==> final(self)@ == old(self)@,
            (r == Err::<u8, AddUserError>(AddUserError::EmailExists)) <==> find_user_by_email(
                old(self)@.users,
                email@,
            ) is Some,
            r matches Ok(uid) ==> uid == old(self)@.next_user_id && (exists|h: Seq<char>|
                bcrypt_accepts(password@, h) && final(self)@ == StoreV {
                    users: old(self)@.users.push(new_user_v(uid, email@, name@, h, created@)),
                    next_user_id: (old(self)@.next_user_id + 1) as u8,
                    ..old(self)@
                }),
    {
        if let Some(_existing) = self.get_user_by_email(email) {
            return Err(AddUserError::EmailExists);
        }
        let h = match hash_password(password) {
            Ok(h) => h,
            Err(_) => {
                return Err(AddUserError::HashFailure);
            },
        };
        let uid = self.next_user_id;
        let u = User {
            id: Some(uid),
            email: email.to_owned(),
            name: name.to_owned(),
            password: h,
            created: created.to_owned(),
            profile_pic: String::new(),
            admin: false,
            premium: false,
        };
        let ghost hv = u@.password;
        self.users.push(u);
        self.next_user_id = uid + 1;
        proof {
            assert(self@.users =~= old(self)@.users.push(
                new_user_v(uid, email@, name@, hv, created@),
            ));
            assert(self@ == StoreV {
                users: old(self)@.users.push(new_user_v(uid, email@, name@, hv, created@)),
                next_user_id: (old(self)@.next_user_id + 1) as u8,
                ..old(self)@
            });
        }
        Ok(uid)
    }

    /// Creates a project owned by `owner`, stamped with the given start
    /// date, and returns its assigned id.
    pub fn add_project(&mut self, name: &str, owner: u8, proj_start_date: &str) -> (r: u8)
        requires
            old(self)@.wf(),
            old(self)@.next_project_id < 255,
        ensures
            final(self)@.wf(),
            r == old(self)@.next_project_id,
            final(self)@ == (StoreV {
                projects: old(self)@.projects.push(new_project_v(r, name@, proj_start_date@, owner)),
                next_project_id: (old(self)@.next_project_id + 1) as u8,
                ..old(self)@
            }),
    {
        let pid = self.next_project_id;
        let p = Project {
            id: Some(pid),
            name: name.to_owned(),
            proj_start_date: proj_start_date.to_owned(),
            proj_end_date: String::new(),
            owner,
            participants: Vec::new(),
        };
        proof {
            assert(p@.participants =~= Seq::<u8>::empty());
        }
        self.projects.push(p);
        self.next_project_id = pid + 1;
        proof {
            assert(self@.projects =~= old(self)@.projects.push(
                new_project_v(pid, name@, proj_start_date@, owner),
            ));
            assert(self@ == StoreV {
                projects: old(self)@.projects.push(
                    new_project_v(pid, name@, proj_start_date@, owner),
                ),
                next_project_id: (old(self)@.next_project_id + 1) as u8,
                ..old(self)@
            });
        }
        pid
    }

    /// Creates a task under project `owner_proj`, stamped with the given
    /// start date, and returns its assigned id.
    pub fn add_task(&mut self, description: &str, owner_proj: u8, task_start_date: &str) -> (r: u8)
        requires
            old(self)@.wf(),
            old(self)@.next_task_id < 255,
        ensures
            final(self)@.wf(),
            r == old(self)@.next_task_id,
            final(self)@ == (StoreV {
                tasks: old(self)@.tasks.push(new_task_v(r, description@, task_start_date@, owner_proj)),
                next_task_id: (old(self)@.next_task_id + 1) as u8,
                ..old(self)@
            }),
    {
        let tid = self.next_task_id;
        let t = ProjectTask {
            id: Some(tid),
            description: description.to_owned(),
            task_start_date: task_start_date.to_owned(),
            task_end_date: None,
            owner_proj,
            time_delta: None,
        };
        self.tasks.push(t);
        self.next_task_id = tid + 1;
        proof {
            assert(self@.tasks =~= old(self)@.tasks.push(
                new_task_v(tid, description@, task_start_date@, owner_proj),
            ));
            assert(self@ == StoreV {
                tasks: old(self)@.tasks.push(
                    new_task_v(tid, description@, task_start_date@, owner_proj),
                ),
                next_task_id: (old(self)@.next_task_id + 1) as u8,
                ..old(self)@
            });
        }
        tid
    }

    /// Replaces the name and end date of project `id`. Returns whether a
    /// project with that id existed; when none does, nothing changes.
    pub fn edit_project(&mut self, id: u8, name: &str, proj_end_date: &str) -> (r: bool)
        requires
            old(self)@.wf(),
        ensures
            final(self)@.wf(),
            r <==> (find_project(old(self)@.projects, id) is Some),
            r ==> final(self)@ == (StoreV {
                projects: with_project_edit(old(self)@.projects, id, name@, proj_end_date@),
                ..old(self)@
            }),
            !r ==> final(self)@ == old(self)@,
    {
        let n = self.projects.len();
        let mut i: usize = 0;
        while i < n
            invariant
                0 <= i <= n,
                n == self.projects.len(),
                self@ == old(self)@,
                old(self)@.wf(),
                forall|j: int| 0 <= j < i ==> !by_project_id(id)(self@.projects[j]),
            decreases n - i,
        {
            let hit = match self.projects[i].id {
                Some(pid) => pid == id,
                None => false,
            };
            if hit {
                proof {
                    lemma_find_first_match(self@.projects, by_project_id(id), i as int);
                }
                let mut p = self.projects.remove(i);
                p.name = name.to_owned();
                p.proj_end_date = proj_end_date.to_owned();
                self.projects.insert(i, p);
                proof {
                    assert(old(self)@.projects[i as int].id == Some(id));
                    assert forall|k: int| 0 <= k < old(self)@.projects.len() implies
                        self@.projects[k] == with_project_edit(
                        old(self)@.projects,
                        id,
                        name@,
                        proj_end_date@,
                    )[k] by {
                        if k < i as int {
                            assert(old(self)@.projects[k].id != old(self)@.projects[i as int].id);
                        } else if k > i as int {
                            assert(old(self)@.projects[i as int].id != old(self)@.projects[k].id);
                        }
                    }
                    assert(self@.projects =~= with_project_edit(
                        old(self)@.projects,
                        id,
                        name@,
                        proj_end_date@,
                    ));
                    assert(self@ == StoreV {
                        projects: with_project_edit(old(self)@.projects, id, name@, proj_end_date@),
                        ..old(self)@
                    });
                    lemma_wf_same_ids(old(self)@, self@);
                }
                return true;
            }
            i += 1;
        }
        proof {
            lemma_find_first_none(self@.projects, by_project_id(id));
        }
        false
    }

    /// Deletes project `id`. The distinguished no-op result: nothing found,
    /// nothing changed.
    pub fn delete_project_db(&mut self, id: u8) -> (r: Option<()>)
        requires
            old(self)@.wf(),
        ensures
            final(self)@.wf(),
            r is Some <==> (find_project(old(self)@.projects, id) is Some),
            r is Some ==> (exists|j: int|
                0 <= j < old(self)@.projects.len() && old(self)@.projects[j].id == Some(id)
                    && final(self)@ == (StoreV {
                    projects: old(self)@.projects.remove(j),
                    ..old(self)@
                })),
            r is None ==> final(self)@ == old(self)@,
    {
        let n = self.projects.len();
        let mut i: usize = 0;
        while i < n
            invariant
                0 <= i <= n,
                n == self.projects.len(),
                self@ == old(self)@,
                old(self)@.wf(),
                forall|j: int| 0 <= j < i ==> !by_project_id(id)(self@.projects[j]),
            decreases n - i,
        {
            let hit = match self.projects[i].id {
                Some(pid) => pid == id,
                None => false,
            };
            if hit {
                proof {
                    lemma_find_first_match(self@.projects, by_project_id(id), i as int);
                }
                self.projects.remove(i);
                proof {
                    assert(self@.projects =~= old(self)@.projects.remove(i as int));
                    assert(self@ == StoreV {
                        projects: old(self)@.projects.remove(i as int),
                        ..old(self)@
                    });
                    lemma_wf_project_removed(old(self)@, i as int);
                }
                return Some(());
            }
            i += 1;
        }
        proof {
            lemma_find_first_none(self@.projects, by_project_id(id));
        }
        None
    }

    /// Deletes task `id`. The distinguished no-op result: nothing found,
    /// nothing changed.
    pub fn delete_task_db(&mut self, id: u8) -> (r: Option<()>)
        requires
            old(self)@.wf(),
        ensures
            final(self)@.wf(),
            r is Some <==> (find_task(old(self)@.tasks, id) is Some),
            r is Some ==> (exists|j: int|
                0 <= j < old(self)@.tasks.len() && old(self)@.tasks[j].id == Some(id)
                    && final(self)@ == (StoreV {
                    tasks: old(self)@.tasks.remove(j),
                    ..old(self)@
                })),
            r is None ==> final(self)@ == old(self)@,
    {
        let n = self.tasks.len();
        let mut i: usize = 0;
        while i < n
            invariant
                0 <= i <= n,
                n == self.tasks.len(),
                self@ == old(self)@,
                old(self)@.wf(),
                forall|j: int| 0 <= j < i ==> !by_task_id(id)(self@.tasks[j]),
            decreases n - i,
        {
            let hit = match self.tasks[i].id {
                Some(tid) => tid == id,
                None => false,
            };
            if hit {
                proof {
                    lemma_find_first_match(self@.tasks, by_task_id(id), i as int);
                }
                self.tasks.remove(i);
                proof {
                    assert(self@.tasks =~= old(self)@.tasks.remove(i as int));
                    assert(self@ == StoreV { tasks: old(self)@.tasks.remove(i as int), ..old(self)@ });
                    lemma_wf_task_removed(old(self)@, i as int);
                }
                return Some(());
            }
            i += 1;
        }
        proof {
            lemma_find_first_none(self@.tasks, by_task_id(id));
        }
        None
    }

    /// Stamps task `id` as completed at `now`. Returns whether a task with
    /// that id existed; a missing id is a no-op, not an error, and changes
    /// nothing.
    pub fn complete_task_db(&mut self, id: u8, now: &str) -> (r: bool)
        requires
            old(self)@.wf(),
        ensures
            final(self)@.wf(),
            r <==> (find_task(old(self)@.tasks, id) is Some),
            r ==> final(self)@ == (StoreV {
                tasks: with_task_end(old(self)@.tasks, id, now@),
                ..old(self)@
            }),
            !r ==> final(self)@ == old(self)@,
    {
        let n = self.tasks.len();
        let mut i: usize = 0;
        while i < n
            invariant
                0 <= i <= n,
                n == self.tasks.len(),
                self@ == old(self)@,
                old(self)@.wf(),
                forall|j: int| 0 <= j < i ==> !by_task_id(id)(self@.tasks[j]),
            decreases n - i,
        {
            let hit = match self.tasks[i].id {
                Some(tid) => tid == id,
                None => false,
            };
            if hit {
                proof {
                    lemma_find_first_match(self@.tasks, by_task_id(id), i as int);
                }
                let mut t = self.tasks.remove(i);
                t.task_end_date = Some(now.to_owned());
                self.tasks.insert(i, t);
                proof {
                    assert(old(self)@.tasks[i as int].id == Some(id));
                    assert forall|k: int| 0 <= k < old(self)@.tasks.len() implies self@.tasks[k]
                        == with_task_end(old(self)@.tasks, id, now@)[k] by {
                        if k < i as int {
                            assert(old(self)@.tasks[k].id != old(self)@.tasks[i as int].id);
                        } else if k > i as int {
                            assert(old(self)@.tasks[i as int].id != old(self)@.tasks[k].id);
                        }
                    }
                    assert(self@.tasks =~= with_task_end(old(self)@.tasks, id, now@));
                    assert(self@ == StoreV {
                        tasks: with_task_end(old(self)@.tasks, id, now@),
                        ..old(self)@
                    });
                    lemma_wf_same_ids(old(self)@, self@);
                }
                return true;
            }
            i += 1;
        }
        proof {
            lemma_find_first_none(self@.tasks, by_task_id(id));
        }
        false
    }
}

} // verus!
