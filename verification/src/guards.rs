//! The authorization guard chain: how a request resolves an acting
//! identity and how a route's ranked alternatives are tried in order, each
//! falling through to the next on failure, down to a terminal login
//! redirect.
//!
//! The identity is resolved once per request — the dispatcher computes it
//! a single time and threads it through every guard it evaluates, so a
//! chain of guards costs one storage lookup at most. Guards perform reads
//! only: evaluating one never changes the store.

use vstd::prelude::*;
use vstd::relations::sorted_by;

use crate::aggregate::{
    get_all_projects_for_user, get_all_tasks_for_project, proj_recent_first, project_tasks,
    user_projects,
};
use crate::auth::{bcrypt_accepts, verify_password, AuthError};
use crate::parse::{parse_u8, u8_from_dec};
use crate::store::{find_user, find_user_by_email, lemma_find_first_mem, Store, StoreV};
use crate::user::{Admin, ProjectTaskV, ProjectTasks, ProjectV, Projects, User, UserV};

verus! {

/// What the guard chain reads of an inbound request: the signed session
/// cookie's payload, if the cookie was present and its signature held,
/// and the project-id path parameter, if the route carries one.
#[derive(Debug)]
pub struct RequestContext {
    pub session_cookie: Option<String>,
    pub project_id_param: Option<u8>,
}

/// Mathematical image of a [`RequestContext`].
pub struct RequestContextV {
    pub session_cookie: Option<Seq<char>>,
    pub project_id_param: Option<u8>,
}

impl View for RequestContext {
    type V = RequestContextV;

    open spec fn view(&self) -> RequestContextV {
        RequestContextV {
            session_cookie: match self.session_cookie {
                Some(ref c) => Some(c@),
                None => None,
            },
            project_id_param: self.project_id_param,
        }
    }
}

/// The user a session cookie denotes: none when the cookie is absent or
/// its payload is not a user id, else the user stored under that id, if
/// any.
pub open spec fn session_user(s: StoreV, cookie: Option<Seq<char>>) -> Option<UserV> {
    match cookie {
        None => None,
        Some(c) => match u8_from_dec(c) {
            None => None,
            Some(uid) => find_user(s.users, uid),
        },
    }
}

/// The session resolver: parses the cookie payload as a user id and
/// performs exactly one storage lookup. Absence, a malformed payload and
/// an unknown id all degrade to anonymous, never to an error.
pub fn resolve_session(store: &Store, ctx: &RequestContext) -> (r: Option<User>)
    ensures
        (match r {
            Some(u) => session_user(store@, ctx@.session_cookie) == Some(u@),
            None => session_user(store@, ctx@.session_cookie) is None,
        }),
{
    match &ctx.session_cookie {
        None => None,
        Some(c) => match parse_u8(c.as_str()) {
            None => None,
            Some(uid) => store.user_req_guard(uid),
        },
    }
}

/// The guard variants a route alternative may require, in increasing
/// strictness.
#[derive(Clone, Copy, Debug, PartialEq, Eq, Structural)]
pub enum GuardKind {
    /// Always succeeds; yields the resolved user or nobody.
    MaybeUser,
    /// Requires a resolved user.
    RequireUser,
    /// Requires a resolved user whose `admin` flag is set.
    RequireAdmin,
    /// Requires a resolved user; yields all of that user's projects.
    /// An empty list is a valid success, not a failure.
    RequireProjects,
    /// Requires a project-id path parameter; yields that project's tasks.
    RequireProjectTasks,
}

/// One ranked alternative of a route: lower ranks are tried first.
#[derive(Clone, Copy, Debug, PartialEq, Eq, Structural)]
pub struct Candidate {
    pub rank: u8,
    pub kind: GuardKind,
}

/// What a successful guard hands its handler.
#[derive(Debug)]
pub enum GuardOutcome {
    MaybeUser(Option<User>),
    AuthedUser(User),
    AuthedAdmin(Admin),
    UserProjects(Projects),
    TasksForProject(ProjectTasks),
}

/// Mathematical image of a [`GuardOutcome`].
pub enum GuardOutcomeV {
    MaybeUser(Option<UserV>),
    AuthedUser(UserV),
    AuthedAdmin(UserV),
    UserProjects(Seq<ProjectV>),
    TasksForProject(Seq<ProjectTaskV>),
}

impl View for GuardOutcome {
    type V = GuardOutcomeV;

    open spec fn view(&self) -> GuardOutcomeV {
        match self {
            GuardOutcome::MaybeUser(o) => GuardOutcomeV::MaybeUser(
                match o {
                    Some(u) => Some(u@),
                    None => None,
                },
            ),
            GuardOutcome::AuthedUser(u) => GuardOutcomeV::AuthedUser(u@),
            GuardOutcome::AuthedAdmin(a) => GuardOutcomeV::AuthedAdmin(a@),
            GuardOutcome::UserProjects(ps) => GuardOutcomeV::UserProjects(ps@),
            GuardOutcome::TasksForProject(ts) => GuardOutcomeV::TasksForProject(ts@),
        }
    }
}

/// Whether a guard's prerequisites hold of this request against this
/// store. In the storage model a query cannot fail, so the projects guard
/// needs only a resolved user, and the task guard only its path
/// parameter.
pub open spec fn guard_passes(s: StoreV, ctx: RequestContextV, kind: GuardKind) -> bool {
    match kind {
        GuardKind::MaybeUser => true,
        GuardKind::RequireUser => session_user(s, ctx.session_cookie) is Some,
        GuardKind::RequireAdmin => match session_user(s, ctx.session_cookie) {
            Some(u) => u.admin,
            None => false,
        },
        GuardKind::RequireProjects => session_user(s, ctx.session_cookie) is Some,
        GuardKind::RequireProjectTasks => ctx.project_id_param is Some,
    }
}

/// What a passing guard owes its handler.
pub open spec fn outcome_ok(
    s: StoreV,
    ctx: RequestContextV,
    kind: GuardKind,
    o: GuardOutcomeV,
) -> bool {
    match kind {
        GuardKind::MaybeUser => o == GuardOutcomeV::MaybeUser(session_user(s, ctx.session_cookie)),
        GuardKind::RequireUser => (match o {
            GuardOutcomeV::AuthedUser(u) => Some(u) == session_user(s, ctx.session_cookie),
            _ => false,
        }),
        GuardKind::RequireAdmin => (match o {
            GuardOutcomeV::AuthedAdmin(u) => Some(u) == session_user(s, ctx.session_cookie)
                && u.admin,
            _ => false,
        }),
        GuardKind::RequireProjects => (match o {
            GuardOutcomeV::UserProjects(ps) => (match session_user(s, ctx.session_cookie) {
                Some(u) => u.id is Some && ps.to_multiset() == user_projects(
                    s.projects,
                    u.id->0,
                ).to_multiset() && sorted_by(ps, proj_recent_first()),
                None => false,
            }),
            _ => false,
        }),
        GuardKind::RequireProjectTasks => (match o {
            GuardOutcomeV::TasksForProject(ts) => ctx.project_id_param is Some && ts
                == project_tasks(s.tasks, ctx.project_id_param->0),
            _ => false,
        }),
    }
}

/// Evaluates one guard against the already-resolved identity. Succeeds
/// exactly when the guard's prerequisites hold, and then yields what the
/// guard owes; reads only, so the store is untouched.
fn eval_guard(store: &Store, ctx: &RequestContext, resolved: &Option<User>, kind: GuardKind) -> (r:
    Option<GuardOutcome>)
    requires
        store@.wf(),
        (match resolved {
            Some(u) => session_user(store@, ctx@.session_cookie) == Some(u@),
            None => session_user(store@, ctx@.session_cookie) is None,
        }),
    ensures
        r is Some <==> guard_passes(store@, ctx@, kind),
        (match r {
            Some(o) => outcome_ok(store@, ctx@, kind, o@),
            None => true,
        }),
{
    match kind {
        GuardKind::MaybeUser => {
            let u = match resolved {
                Some(u) => Some(u.clone()),
                None => None,
            };
            Some(GuardOutcome::MaybeUser(u))
        },
        GuardKind::RequireUser => match resolved {
            Some(u) => Some(GuardOutcome::AuthedUser(u.clone())),
            None => None,
        },
        GuardKind::RequireAdmin => match resolved {
            Some(u) => {
                if u.admin {
                    Some(GuardOutcome::AuthedAdmin(Admin { user: u.clone() }))
                } else {
                    None
                }
            },
            None => None,
        },
        GuardKind::RequireProjects => match resolved {
            Some(u) => {
                proof {
                    match ctx@.session_cookie {
                        Some(c) => {
                            match u8_from_dec(c) {
                                Some(uid) => {
                                    lemma_find_first_mem(
                                        store@.users,
                                        crate::store::by_user_id(uid),
                                    );
                                    let w = choose|w: int|
                                        0 <= w < store@.users.len() && store@.users[w] == u@;
                                    assert(store@.users[w].id is Some);
                                },
                                None => {},
                            }
                        },
                        None => {},
                    }
                }
                let uid = match u.id {
                    Some(x) => x,
                    None => 0,
                };
                let projects = get_all_projects_for_user(store, uid);
                Some(GuardOutcome::UserProjects(Projects(projects)))
            },
            None => None,
        },
        GuardKind::RequireProjectTasks => match ctx.project_id_param {
            Some(pid) => {
                let tasks = get_all_tasks_for_project(store, pid);
                Some(GuardOutcome::TasksForProject(ProjectTasks(tasks)))
            },
            None => None,
        },
    }
}

/// How a dispatched request ends: some alternative matched, or none did
/// and the request resolves to the designed login redirect — a fallback,
/// not an error.
#[derive(Debug)]
pub enum DispatchResult {
    Matched(usize, GuardOutcome),
    LoginRedirect,
}

/// Tries a route's alternatives in rank order and executes the first
/// whose guard passes; a failing guard skips only its own alternative.
/// The identity is resolved once, before the chain runs, and shared by
/// every guard. When no alternative passes, the request falls through to
/// the login redirect.
pub fn dispatch(store: &Store, ctx: &RequestContext, candidates: &Vec<Candidate>) -> (r:
    DispatchResult)
    requires
        store@.wf(),
        forall|a: int, b: int|
            #![trigger candidates@[a], candidates@[b]]
            0 <= a < b < candidates@.len() ==> candidates@[a].rank <= candidates@[b].rank,
    ensures
        (match r {
            DispatchResult::Matched(idx, o) => idx < candidates@.len() && guard_passes(
                store@,
                ctx@,
                candidates@[idx as int].kind,
            ) && (forall|j: int|
                0 <= j < idx ==> !guard_passes(store@, ctx@, (#[trigger] candidates@[j]).kind))
                && outcome_ok(store@, ctx@, candidates@[idx as int].kind, o@),
            DispatchResult::LoginRedirect => forall|j: int|
                0 <= j < candidates@.len() ==> !guard_passes(
                    store@,
                    ctx@,
                    (#[trigger] candidates@[j]).kind,
                ),
        }),
{
    let resolved = resolve_session(store, ctx);
    let n = candidates.len();
    let mut i: usize = 0;
    while i < n
        invariant
            0 <= i <= n,
            n == candidates@.len(),
            store@.wf(),
            (match resolved {
                Some(u) => session_user(store@, ctx@.session_cookie) == Some(u@),
                None => session_user(store@, ctx@.session_cookie) is None,
            }),
            forall|j: int|
                0 <= j < i ==> !guard_passes(store@, ctx@, (#[trigger] candidates@[j]).kind),
        decreases n - i,
    {
        let c = candidates[i];
        match eval_guard(store, ctx, &resolved, c.kind) {
            Some(o) => {
                return DispatchResult::Matched(i, o);
            },
            None => {},
        }
        i += 1;
    }
    DispatchResult::LoginRedirect
}

/// The flash message of a request, as its kind/message pair; absence is
/// the error case, so a handler can branch on it directly.
pub fn get_flash_msg(flash: Option<(String, String)>) -> (r: Result<(String, String), ()>)
    ensures
        (match flash {
            Some(m) => r == Ok::<(String, String), ()>(m),
            None => r is Err,
        }),
{
    match flash {
        Some(m) => Ok(m),
        None => Err(()),
    }
}

/// The login decision: looks the user up by email, then checks the
/// password against the stored hash. `Ok(Some(u))` grants a session for
/// exactly the stored record; a wrong password and an unknown email both
/// yield `Ok(None)`; `Err` arises only when the stored hash could not be
/// checked at all.
pub fn authenticate(store: &Store, email: &str, password: &str) -> (r: Result<
    Option<User>,
    AuthError,
>)
    ensures
        (match r {
            Ok(Some(u)) => find_user_by_email(store@.users, email@) == Some(u@) && bcrypt_accepts(
                password@,
                u@.password,
            ),
            Ok(None) => (match find_user_by_email(store@.users, email@) {
                Some(u) => !bcrypt_accepts(password@, u.password),
                None => true,
            }),
            Err(e) => find_user_by_email(store@.users, email@) is Some && e
                == AuthError::BadStoredHash,
        }),
        (find_user_by_email(store@.users, email@) is None) ==> r == Ok::<Option<User>, AuthError>(
            None,
        ),
{
    match store.get_user_by_email(email) {
        None => Ok(None),
        Some(u) => match verify_password(password, u.password.as_str()) {
            Ok(true) => Ok(Some(u)),
            Ok(false) => Ok(None),
            Err(e) => Err(e),
        },
    }
}

/// Law: when the session resolves to a user whose `admin` flag is off —
/// or to nobody at all — the admin guard falls through, whatever the
/// cookie looked like.
pub proof fn lemma_admin_guard_falls_through(s: StoreV, ctx: RequestContextV)
    requires
        (match session_user(s, ctx.session_cookie) {
            Some(u) => !u.admin,
            None => true,
        }),
    ensures
        !guard_passes(s, ctx, GuardKind::RequireAdmin),
{
}

/// Law: a valid session bound to an existing user makes the user guard
/// pass and hand over exactly that stored record; a missing cookie, a
/// malformed payload, and an id bound to no user each make it fall
/// through to the next ranked alternative.
pub proof fn lemma_user_guard_exact(s: StoreV, ctx: RequestContextV)
    ensures
        (match ctx.session_cookie {
            Some(c) => (match u8_from_dec(c) {
                Some(uid) => (match find_user(s.users, uid) {
                    Some(u) => guard_passes(s, ctx, GuardKind::RequireUser) && (forall|
                        o: GuardOutcomeV,
                    |
                        outcome_ok(s, ctx, GuardKind::RequireUser, o) ==> o
                            == GuardOutcomeV::AuthedUser(u)),
                    None => !guard_passes(s, ctx, GuardKind::RequireUser),
                }),
                None => !guard_passes(s, ctx, GuardKind::RequireUser),
            }),
            None => !guard_passes(s, ctx, GuardKind::RequireUser),
        }),
{
}

} // verus!
