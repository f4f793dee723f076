//! The project/task aggregation engine: a user's projects, each with its
//! most recent tasks, assembled into one nested result.
//!
//! Ordering follows the storage engine's text collation: timestamps are
//! compared lexicographically, which for the stored timestamp format is
//! chronological order. "Most recent" always means descending by start
//! date.

use vstd::prelude::*;
use vstd::relations::sorted_by;
use vstd::multiset::Multiset;
use vstd::seq_lib::*;

use crate::parse::{participants_of, parse_participants};
use crate::store::{Store, StoreV};
use crate::user::{Project, ProjectTask, ProjectTaskV, ProjectTasks, ProjectV, ProjectWithTasks, ProjectWithTasksV};

verus! {

/// The projects owned by `uid`, in table order.
pub open spec fn user_projects(ps: Seq<ProjectV>, uid: u8) -> Seq<ProjectV>
    decreases ps.len(),
{
    if ps.len() == 0 {
        Seq::empty()
    } else {
        let rest = user_projects(ps.drop_last(), uid);
        if ps.last().owner == uid {
            rest.push(ps.last())
        } else {
            rest
        }
    }
}

/// The tasks under project `pid`, in table order.
pub open spec fn project_tasks(ts: Seq<ProjectTaskV>, pid: u8) -> Seq<ProjectTaskV>
    decreases ts.len(),
{
    if ts.len() == 0 {
        Seq::empty()
    } else {
        let rest = project_tasks(ts.drop_last(), pid);
        if ts.last().owner_proj == pid {
            rest.push(ts.last())
        } else {
            rest
        }
    }
}

/// Lexicographic order on strings, by code point; the empty string comes
/// first. On the stored timestamp format this is chronological order.
pub open spec fn lex_le(a: Seq<char>, b: Seq<char>) -> bool
    decreases a.len(),
{
    if a.len() == 0 {
        true
    } else if b.len() == 0 {
        false
    } else if (a[0] as u32) < (b[0] as u32) {
        true
    } else if (a[0] as u32) > (b[0] as u32) {
        false
    } else {
        lex_le(a.drop_first(), b.drop_first())
    }
}

/// Any two strings compare one way or the other.
pub proof fn lemma_lex_le_total(a: Seq<char>, b: Seq<char>)
    ensures
        lex_le(a, b) || lex_le(b, a),
    decreases a.len(),
{
    if a.len() > 0 && b.len() > 0 && (a[0] as u32) == (b[0] as u32) {
        lemma_lex_le_total(a.drop_first(), b.drop_first());
    }
}

/// Lexicographic order chains.
pub proof fn lemma_lex_le_trans(a: Seq<char>, b: Seq<char>, c: Seq<char>)
    requires
        lex_le(a, b),
        lex_le(b, c),
    ensures
        lex_le(a, c),
    decreases a.len(),
{
    if a.len() > 0 {
        if (a[0] as u32) == (b[0] as u32) && (b[0] as u32) == (c[0] as u32) {
            lemma_lex_le_trans(a.drop_first(), b.drop_first(), c.drop_first());
        }
    }
}

/// Descending start-date order on projects: `a` is at least as recent as
/// `b`.
pub open spec fn proj_recent_first() -> spec_fn(ProjectV, ProjectV) -> bool {
    |a: ProjectV, b: ProjectV| lex_le(b.proj_start_date, a.proj_start_date)
}

/// Descending start-date order on tasks: `a` is at least as recent as `b`.
pub open spec fn task_recent_first() -> spec_fn(ProjectTaskV, ProjectTaskV) -> bool {
    |a: ProjectTaskV, b: ProjectTaskV| lex_le(b.task_start_date, a.task_start_date)
}

/// String comparison, as the storage engine's text collation orders it.
///
/// Relies on `str`'s `PartialOrd`: std documents that strings compare
/// lexicographically by byte value, which for UTF-8 text coincides with
/// comparing by code point — the order [`lex_le`] states.
#[verifier::external_body]
fn str_le(a: &str, b: &str) -> (r: bool)
    ensures
        r == lex_le(a@, b@),
{
    a <= b
}

/// Inserting an element anywhere adds exactly it to the multiset.
proof fn lemma_insert_to_multiset<A>(s: Seq<A>, k: int, x: A)
    requires
        0 <= k <= s.len(),
    ensures
        s.insert(k, x).to_multiset() == s.to_multiset().insert(x),
{
    broadcast use group_to_multiset_ensures;

    let t = s.insert(k, x);
    assert(t =~= s.take(k) + (seq![x] + s.skip(k)));
    lemma_multiset_commutative(s.take(k), seq![x] + s.skip(k));
    lemma_multiset_commutative(seq![x], s.skip(k));
    assert(s =~= s.take(k) + s.skip(k));
    lemma_multiset_commutative(s.take(k), s.skip(k));
    assert(seq![x] =~= Seq::<A>::empty().push(x));
    assert(seq![x].to_multiset() == Multiset::<A>::empty().insert(x));
    assert(t.to_multiset() =~= s.to_multiset().insert(x));
}

/// Sorts projects most recent first, by insertion into a sorted prefix.
fn sort_projects_recent_first(v: Vec<Project>) -> (r: Vec<Project>)
    ensures
        r@.map_values(|p: Project| p@).to_multiset() == v@.map_values(
            |p: Project| p@,
        ).to_multiset(),
        sorted_by(r@.map_values(|p: Project| p@), proj_recent_first()),
{
    broadcast use group_to_multiset_ensures;

    let ghost vw = v@.map_values(|p: Project| p@);
    let mut out: Vec<Project> = Vec::new();
    let n = v.len();
    let mut i: usize = 0;
    proof {
        assert(out@.map_values(|p: Project| p@) =~= Seq::<ProjectV>::empty());
        assert(vw.take(0) =~= Seq::<ProjectV>::empty());
        assert(Seq::<ProjectV>::empty().to_multiset() =~= Multiset::<ProjectV>::empty());
    }
    while i < n
        invariant
            0 <= i <= n,
            n == v.len(),
            vw == v@.map_values(|p: Project| p@),
            out@.map_values(|p: Project| p@).to_multiset() == vw.take(i as int).to_multiset(),
            sorted_by(out@.map_values(|p: Project| p@), proj_recent_first()),
        decreases n - i,
    {
        let ghost outw = out@.map_values(|p: Project| p@);
        let x = v[i].clone();
        let m = out.len();
        let mut k: usize = 0;
        while k < m && str_le(x.proj_start_date.as_str(), out[k].proj_start_date.as_str())
            invariant
                0 <= k <= m,
                m == out.len(),
                out@.map_values(|p: Project| p@) == outw,
                x@ == vw[i as int],
                i < n,
                n == v.len(),
                vw == v@.map_values(|p: Project| p@),
                forall|j: int| 0 <= j < k ==> proj_recent_first()(outw[j], x@),
            decreases m - k,
        {
            proof {
                assert(lex_le(x@.proj_start_date, outw[k as int].proj_start_date));
            }
            k += 1;
        }
        proof {
            if k < m {
                lemma_lex_le_total(x@.proj_start_date, outw[k as int].proj_start_date);
                assert(proj_recent_first()(x@, outw[k as int]));
            }
        }
        out.insert(k, x);
        proof {
            broadcast use group_to_multiset_ensures;

            let outw2 = out@.map_values(|p: Project| p@);
            assert(outw2 =~= outw.insert(k as int, vw[i as int]));
            lemma_insert_to_multiset(outw, k as int, vw[i as int]);
            assert(vw.take(i + 1 as int).drop_last() =~= vw.take(i as int));
            assert(vw.take(i + 1 as int) == vw.take(i as int).push(vw[i as int]));
            assert(vw.take(i as int).push(vw[i as int]).to_multiset() =~= vw.take(
                i as int,
            ).to_multiset().insert(vw[i as int]));
            assert forall|p: int, q: int| 0 <= p < q < outw2.len() implies proj_recent_first()(
                outw2[p],
                outw2[q],
            ) by {
                let ki = k as int;
                if q < ki {
                    assert(proj_recent_first()(outw[p], outw[q]));
                } else if p < ki && q == ki {
                    assert(proj_recent_first()(outw[p], x@));
                } else if p < ki && q > ki {
                    assert(proj_recent_first()(outw[p], outw[q - 1]));
                } else if p == ki {
                    assert(proj_recent_first()(x@, outw[ki]));
                    if q - 1 > ki {
                        assert(proj_recent_first()(outw[ki], outw[q - 1]));
                        lemma_lex_le_trans(
                            outw[q - 1].proj_start_date,
                            outw[ki].proj_start_date,
                            x@.proj_start_date,
                        );
                    }
                    assert(proj_recent_first()(x@, outw[q - 1]));
                } else {
                    assert(proj_recent_first()(outw[p - 1], outw[q - 1]));
                }
            }
        }
        i += 1;
    }
    proof {
        assert(vw.take(n as int) =~= vw);
    }
    out
}

/// Sorts tasks most recent first, by insertion into a sorted prefix.
fn sort_tasks_recent_first(v: Vec<ProjectTask>) -> (r: Vec<ProjectTask>)
    ensures
        r@.map_values(|t: ProjectTask| t@).to_multiset() == v@.map_values(
            |t: ProjectTask| t@,
        ).to_multiset(),
        sorted_by(r@.map_values(|t: ProjectTask| t@), task_recent_first()),
{
    broadcast use group_to_multiset_ensures;

    let ghost vw = v@.map_values(|t: ProjectTask| t@);
    let mut out: Vec<ProjectTask> = Vec::new();
    let n = v.len();
    let mut i: usize = 0;
    proof {
        assert(out@.map_values(|t: ProjectTask| t@) =~= Seq::<ProjectTaskV>::empty());
        assert(vw.take(0) =~= Seq::<ProjectTaskV>::empty());
        assert(Seq::<ProjectTaskV>::empty().to_multiset() =~= Multiset::<ProjectTaskV>::empty());
    }
    while i < n
        invariant
            0 <= i <= n,
            n == v.len(),
            vw == v@.map_values(|t: ProjectTask| t@),
            out@.map_values(|t: ProjectTask| t@).to_multiset() == vw.take(i as int).to_multiset(),
            sorted_by(out@.map_values(|t: ProjectTask| t@), task_recent_first()),
        decreases n - i,
    {
        let ghost outw = out@.map_values(|t: ProjectTask| t@);
        let x = v[i].clone();
        let m = out.len();
        let mut k: usize = 0;
        while k < m && str_le(x.task_start_date.as_str(), out[k].task_start_date.as_str())
            invariant
                0 <= k <= m,
                m == out.len(),
                out@.map_values(|t: ProjectTask| t@) == outw,
                x@ == vw[i as int],
                i < n,
                n == v.len(),
                vw == v@.map_values(|t: ProjectTask| t@),
                forall|j: int| 0 <= j < k ==> task_recent_first()(outw[j], x@),
            decreases m - k,
        {
            proof {
                assert(lex_le(x@.task_start_date, outw[k as int].task_start_date));
            }
            k += 1;
        }
        proof {
            if k < m {
                lemma_lex_le_total(x@.task_start_date, outw[k as int].task_start_date);
                assert(task_recent_first()(x@, outw[k as int]));
            }
        }
        out.insert(k, x);
        proof {
            broadcast use group_to_multiset_ensures;

            let outw2 = out@.map_values(|t: ProjectTask| t@);
            assert(outw2 =~= outw.insert(k as int, vw[i as int]));
            lemma_insert_to_multiset(outw, k as int, vw[i as int]);
            assert(vw.take(i + 1 as int).drop_last() =~= vw.take(i as int));
            assert(vw.take(i + 1 as int) == vw.take(i as int).push(vw[i as int]));
            assert(vw.take(i as int).push(vw[i as int]).to_multiset() =~= vw.take(
                i as int,
            ).to_multiset().insert(vw[i as int]));
            assert forall|p: int, q: int| 0 <= p < q < outw2.len() implies task_recent_first()(
                outw2[p],
                outw2[q],
            ) by {
                let ki = k as int;
                if q < ki {
                    assert(task_recent_first()(outw[p], outw[q]));
                } else if p < ki && q == ki {
                    assert(task_recent_first()(outw[p], x@));
                } else if p < ki && q > ki {
                    assert(task_recent_first()(outw[p], outw[q - 1]));
                } else if p == ki {
                    assert(task_recent_first()(x@, outw[ki]));
                    if q - 1 > ki {
                        assert(task_recent_first()(outw[ki], outw[q - 1]));
                        lemma_lex_le_trans(
                            outw[q - 1].task_start_date,
                            outw[ki].task_start_date,
                            x@.task_start_date,
                        );
                    }
                    assert(task_recent_first()(x@, outw[q - 1]));
                } else {
                    assert(task_recent_first()(outw[p - 1], outw[q - 1]));
                }
            }
        }
        i += 1;
    }
    proof {
        assert(vw.take(n as int) =~= vw);
    }
    out
}

/// Decodes one project row as the storage engine hands it over: plain
/// columns, with the participant list still in its delimited text form.
pub fn project_from_row(
    id: Option<u8>,
    name: &str,
    proj_start_date: &str,
    proj_end_date: &str,
    owner: u8,
    participants: &str,
) -> (r: Project)
    ensures
        r@ == (ProjectV {
            id,
            name: name@,
            proj_start_date: proj_start_date@,
            proj_end_date: proj_end_date@,
            owner,
            participants: participants_of(participants@),
        }),
{
    Project {
        id,
        name: name.to_owned(),
        proj_start_date: proj_start_date.to_owned(),
        proj_end_date: proj_end_date.to_owned(),
        owner,
        participants: parse_participants(participants),
    }
}

/// All tasks under project `proj_id`, in table order.
pub fn get_all_tasks_for_project(store: &Store, proj_id: u8) -> (r: Vec<ProjectTask>)
    ensures
        r@.map_values(|t: ProjectTask| t@) == project_tasks(store@.tasks, proj_id),
{
    let n = store.tasks.len();
    let mut out: Vec<ProjectTask> = Vec::new();
    let mut i: usize = 0;
    proof {
        assert(store@.tasks.take(0) =~= Seq::<ProjectTaskV>::empty());
        assert(out@.map_values(|t: ProjectTask| t@) =~= Seq::<ProjectTaskV>::empty());
    }
    while i < n
        invariant
            0 <= i <= n,
            n == store.tasks.len(),
            out@.map_values(|t: ProjectTask| t@) == project_tasks(
                store@.tasks.take(i as int),
                proj_id,
            ),
        decreases n - i,
    {
        proof {
            assert(store@.tasks.take(i + 1 as int).drop_last() =~= store@.tasks.take(i as int));
            assert(store@.tasks.take(i + 1 as int).last() == store@.tasks[i as int]);
        }
        if store.tasks[i].owner_proj == proj_id {
            out.push(store.tasks[i].clone());
            proof {
                assert(out@.map_values(|t: ProjectTask| t@) =~= project_tasks(
                    store@.tasks.take(i + 1 as int),
                    proj_id,
                ));
            }
        }
        i += 1;
    }
    proof {
        assert(store@.tasks.take(n as int) =~= store@.tasks);
    }
    out
}

/// One row of the left-outer project/task relationship: a project, and one
/// of its tasks or none. A project with no tasks contributes exactly one
/// row with no task part; rows for one project need not arrive
/// contiguously.
#[derive(Debug)]
pub struct ProjectTaskRow {
    pub project: Project,
    pub task: Option<ProjectTask>,
}

/// Mathematical image of a [`ProjectTaskRow`].
pub struct ProjectTaskRowV {
    pub project: ProjectV,
    pub task: Option<ProjectTaskV>,
}

impl View for ProjectTaskRow {
    type V = ProjectTaskRowV;

    open spec fn view(&self) -> ProjectTaskRowV {
        ProjectTaskRowV {
            project: self.project@,
            task: match self.task {
                Some(ref t) => Some(t@),
                None => None,
            },
        }
    }
}

impl Clone for ProjectTaskRow {
    fn clone(&self) -> (r: Self)
        ensures
            r@ == self@,
    {
        ProjectTaskRow {
            project: self.project.clone(),
            task: match &self.task {
                Some(t) => Some(t.clone()),
                None => None,
            },
        }
    }
}

/// The grouping key of a row: its project's id.
pub open spec fn row_key(r: ProjectTaskRowV) -> u8 {
    r.project.id->0
}

/// Whether some row of `rows` carries key `k`.
pub open spec fn has_key(rows: Seq<ProjectTaskRowV>, k: u8) -> bool
    decreases rows.len(),
{
    if rows.len() == 0 {
        false
    } else {
        has_key(rows.drop_last(), k) || row_key(rows.last()) == k
    }
}

/// The distinct keys of `rows`, each at its first occurrence, in row
/// order.
pub open spec fn keys_in_order(rows: Seq<ProjectTaskRowV>) -> Seq<u8>
    decreases rows.len(),
{
    if rows.len() == 0 {
        Seq::empty()
    } else {
        let rest = keys_in_order(rows.drop_last());
        if has_key(rows.drop_last(), row_key(rows.last())) {
            rest
        } else {
            rest.push(row_key(rows.last()))
        }
    }
}

/// The project of the first row carrying key `k`.
pub open spec fn project_of_key(rows: Seq<ProjectTaskRowV>, k: u8) -> ProjectV
    decreases rows.len(),
{
    if rows.len() == 0 {
        arbitrary()
    } else if !has_key(rows.drop_last(), k) && row_key(rows.last()) == k {
        rows.last().project
    } else {
        project_of_key(rows.drop_last(), k)
    }
}

/// The tasks of the rows carrying key `k`, in row order; rows without a
/// task part contribute nothing.
pub open spec fn tasks_of_key(rows: Seq<ProjectTaskRowV>, k: u8) -> Seq<ProjectTaskV>
    decreases rows.len(),
{
    if rows.len() == 0 {
        Seq::empty()
    } else {
        let rest = tasks_of_key(rows.drop_last(), k);
        if row_key(rows.last()) == k && rows.last().task is Some {
            rest.push(rows.last().task->0)
        } else {
            rest
        }
    }
}

/// The aggregate that grouping owes key `k`: the first row's project, and
/// the key's tasks — absent, not empty, when there are none, so "no
/// tasks" stays distinguishable from "tasks not loaded".
pub open spec fn group_of_key(rows: Seq<ProjectTaskRowV>, k: u8) -> ProjectWithTasksV {
    ProjectWithTasksV {
        project: project_of_key(rows, k),
        tasks: if tasks_of_key(rows, k).len() == 0 {
            None
        } else {
            Some(tasks_of_key(rows, k))
        },
    }
}

/// The key list holds exactly the keys that occur.
proof fn lemma_keys_contains(rows: Seq<ProjectTaskRowV>, k: u8)
    ensures
        keys_in_order(rows).contains(k) == has_key(rows, k),
    decreases rows.len(),
{
    if rows.len() > 0 {
        let prefix = rows.drop_last();
        let rest = keys_in_order(prefix);
        lemma_keys_contains(prefix, k);
        if has_key(prefix, row_key(rows.last())) {
            assert(keys_in_order(rows) == rest);
        } else {
            assert(keys_in_order(rows) == rest.push(row_key(rows.last())));
            if has_key(rows, k) {
                if k == row_key(rows.last()) {
                    assert(keys_in_order(rows)[keys_in_order(rows).len() - 1] == k);
                    assert(keys_in_order(rows).contains(k));
                } else {
                    let i = choose|i: int| 0 <= i < rest.len() && rest[i] == k;
                    assert(keys_in_order(rows)[i] == k);
                    assert(keys_in_order(rows).contains(k));
                }
            } else {
                assert forall|i: int| 0 <= i < keys_in_order(rows).len() implies keys_in_order(
                    rows,
                )[i] != k by {
                    if i < rest.len() {
                        assert(keys_in_order(rows)[i] == rest[i]);
                    }
                }
            }
        }
    }
}

/// Membership in a vector of keys, read off the scan itself.
fn vec_contains_u8(v: &Vec<u8>, x: u8) -> (r: bool)
    ensures
        r == v@.contains(x),
{
    let n = v.len();
    let mut i: usize = 0;
    while i < n
        invariant
            0 <= i <= n,
            n == v@.len(),
            forall|j: int| 0 <= j < i ==> v@[j] != x,
        decreases n - i,
    {
        if v[i] == x {
            assert(v@[i as int] == x);
            return true;
        }
        i += 1;
    }
    proof {
        assert forall|j: int| 0 <= j < v@.len() implies v@[j] != x by {}
    }
    false
}

/// Groups join rows by project id, first occurrence first. Grouping is by
/// key, never by assuming rows of one project arrive contiguously: each
/// project appears exactly once, carrying the project of its first row
/// and its tasks in row order — or no tasks at all for the sentinel row
/// of a task-less project.
pub fn group_rows(rows: &Vec<ProjectTaskRow>) -> (r: Vec<ProjectWithTasks>)
    requires
        forall|i: int| 0 <= i < rows@.len() ==> (#[trigger] rows@[i])@.project.id is Some,
    ensures
        r@.len() == keys_in_order(rows@.map_values(|x: ProjectTaskRow| x@)).len(),
        forall|i: int|
            0 <= i < r@.len() ==> (#[trigger] r@[i])@ == group_of_key(
                rows@.map_values(|x: ProjectTaskRow| x@),
                keys_in_order(rows@.map_values(|x: ProjectTaskRow| x@))[i],
            ),
{
    let ghost rw = rows@.map_values(|x: ProjectTaskRow| x@);
    let n = rows.len();
    let mut keys: Vec<u8> = Vec::new();
    let mut projs: Vec<Project> = Vec::new();
    let mut i: usize = 0;
    proof {
        assert(rw.take(0) =~= Seq::<ProjectTaskRowV>::empty());
    }
    while i < n
        invariant
            0 <= i <= n,
            n == rows@.len(),
            rw == rows@.map_values(|x: ProjectTaskRow| x@),
            forall|j: int| 0 <= j < rw.len() ==> (#[trigger] rw[j]).project.id is Some,
            keys@ == keys_in_order(rw.take(i as int)),
            projs@.len() == keys@.len(),
            forall|j: int|
                0 <= j < keys@.len() ==> (#[trigger] projs@[j])@ == project_of_key(
                    rw.take(i as int),
                    keys@[j],
                ),
        decreases n - i,
    {
        proof {
            assert(rw.take(i + 1 as int).drop_last() =~= rw.take(i as int));
            assert(rw.take(i + 1 as int).last() == rw[i as int]);
        }
        let krow = match rows[i].project.id {
            Some(pid) => pid,
            None => 0,
        };
        proof {
            assert(rw[i as int].project.id is Some);
            assert(krow == row_key(rw[i as int]));
            lemma_keys_contains(rw.take(i as int), krow);
        }
        if !vec_contains_u8(&keys, krow) {
            keys.push(krow);
            projs.push(rows[i].project.clone());
            proof {
                assert(!has_key(rw.take(i as int), krow));
                assert(keys@ =~= keys_in_order(rw.take(i + 1 as int)));
                assert forall|j: int| 0 <= j < keys@.len() implies (#[trigger] projs@[j])@
                    == project_of_key(rw.take(i + 1 as int), keys@[j]) by {
                    if j < keys@.len() - 1 {
                        assert(projs@[j]@ == project_of_key(rw.take(i as int), keys@[j]));
                    } else {
                        assert(keys@[j] == krow);
                        assert(project_of_key(rw.take(i + 1 as int), krow) == rw[i as int].project);
                    }
                }
            }
        } else {
            proof {
                assert(has_key(rw.take(i as int), krow));
                assert(keys@ =~= keys_in_order(rw.take(i + 1 as int)));
                assert forall|j: int| 0 <= j < keys@.len() implies (#[trigger] projs@[j])@
                    == project_of_key(rw.take(i + 1 as int), keys@[j]) by {
                    assert(projs@[j]@ == project_of_key(rw.take(i as int), keys@[j]));
                }
            }
        }
        i += 1;
    }
    proof {
        assert(rw.take(n as int) =~= rw);
    }
    let m = keys.len();
    let mut out: Vec<ProjectWithTasks> = Vec::new();
    let mut gi: usize = 0;
    while gi < m
        invariant
            0 <= gi <= m,
            m == keys@.len(),
            n == rows@.len(),
            rw == rows@.map_values(|x: ProjectTaskRow| x@),
            forall|j: int| 0 <= j < rw.len() ==> (#[trigger] rw[j]).project.id is Some,
            keys@ == keys_in_order(rw),
            projs@.len() == keys@.len(),
            forall|j: int|
                0 <= j < keys@.len() ==> (#[trigger] projs@[j])@ == project_of_key(rw, keys@[j]),
            out@.len() == gi,
            forall|j: int| 0 <= j < gi ==> (#[trigger] out@[j])@ == group_of_key(rw, keys@[j]),
        decreases m - gi,
    {
        let k = keys[gi];
        let mut ts: Vec<ProjectTask> = Vec::new();
        let mut j: usize = 0;
        proof {
            assert(rw.take(0) =~= Seq::<ProjectTaskRowV>::empty());
            assert(ts@.map_values(|t: ProjectTask| t@) =~= Seq::<ProjectTaskV>::empty());
        }
        while j < n
            invariant
                0 <= j <= n,
                n == rows@.len(),
                rw == rows@.map_values(|x: ProjectTaskRow| x@),
                forall|l: int| 0 <= l < rw.len() ==> (#[trigger] rw[l]).project.id is Some,
                ts@.map_values(|t: ProjectTask| t@) == tasks_of_key(rw.take(j as int), k),
            decreases n - j,
        {
            proof {
                assert(rw.take(j + 1 as int).drop_last() =~= rw.take(j as int));
                assert(rw.take(j + 1 as int).last() == rw[j as int]);
            }
            let hit = match rows[j].project.id {
                Some(pid) => pid == k,
                None => false,
            };
            if hit {
                match &rows[j].task {
                    Some(t) => {
                        ts.push(t.clone());
                        proof {
                            assert(ts@.map_values(|t: ProjectTask| t@) =~= tasks_of_key(
                                rw.take(j + 1 as int),
                                k,
                            ));
                        }
                    },
                    None => {},
                }
            }
            j += 1;
        }
        proof {
            assert(rw.take(n as int) =~= rw);
        }
        let tasks_part = if ts.len() == 0 {
            None
        } else {
            Some(ProjectTasks(ts))
        };
        let g = ProjectWithTasks { project: projs[gi].clone(), tasks: tasks_part };
        out.push(g);
        proof {
            assert(out@[gi as int]@ == group_of_key(rw, keys@[gi as int]));
        }
        gi += 1;
    }
    out
}

/// The hard design constant of the aggregate: at most three tasks per
/// project survive the truncation.
pub open spec fn top_task_limit(n: int) -> int {
    if n < 3 {
        n
    } else {
        3
    }
}

/// What the aggregate owes one project entry: the entry carries a
/// persisted project id, and its tasks are exactly a most-recent-first
/// prefix — at most three — of that project's tasks. `tasks` is absent,
/// not empty, when the project has no tasks at all.
pub open spec fn top_tasks_ok(s: StoreV, g: ProjectWithTasksV) -> bool {
    &&& g.project.id is Some
    &&& (match g.tasks {
        None => project_tasks(s.tasks, g.project.id->0).len() == 0,
        Some(ts) => {
            let all = project_tasks(s.tasks, g.project.id->0);
            ts.len() > 0 && (exists|perm: Seq<ProjectTaskV>|
                #[trigger] perm.to_multiset() == all.to_multiset() && sorted_by(
                    perm,
                    task_recent_first(),
                ) && ts == perm.take(top_task_limit(all.len() as int)))
        },
    })
}

/// A key no row carries owns no tasks.
proof fn lemma_no_key_no_tasks(rows: Seq<ProjectTaskRowV>, k: u8)
    requires
        !has_key(rows, k),
    ensures
        tasks_of_key(rows, k) == Seq::<ProjectTaskV>::empty(),
    decreases rows.len(),
{
    if rows.len() > 0 {
        lemma_no_key_no_tasks(rows.drop_last(), k);
    }
}

/// Appending a block of rows that all carry one fresh key `pid` adds that
/// key at the end of the key list, makes the block's first project and
/// the block's tasks that key's group, and disturbs no other key.
proof fn lemma_block_append(rows: Seq<ProjectTaskRowV>, block: Seq<ProjectTaskRowV>, pid: u8)
    requires
        block.len() > 0,
        forall|l: int| 0 <= l < block.len() ==> row_key(#[trigger] block[l]) == pid,
        forall|l: int| 0 <= l < block.len() ==> (#[trigger] block[l]).project == block[0].project,
        !has_key(rows, pid),
    ensures
        keys_in_order(rows + block) == keys_in_order(rows).push(pid),
        project_of_key(rows + block, pid) == block[0].project,
        tasks_of_key(rows + block, pid) == tasks_of_key(block, pid),
        forall|k: u8| k != pid ==> project_of_key(rows + block, k) == project_of_key(rows, k),
        forall|k: u8| k != pid ==> tasks_of_key(rows + block, k) == tasks_of_key(rows, k),
        forall|k: u8| has_key(rows + block, k) == (has_key(rows, k) || k == pid),
    decreases block.len(),
{
    let s2 = rows + block;
    if block.len() == 1 {
        assert(s2 =~= rows.push(block[0]));
        assert(s2.drop_last() =~= rows);
        assert(block.drop_last() =~= Seq::<ProjectTaskRowV>::empty());
        assert(tasks_of_key(Seq::<ProjectTaskRowV>::empty(), pid) =~= Seq::<ProjectTaskV>::empty());
        lemma_no_key_no_tasks(rows, pid);
        assert(keys_in_order(s2) == keys_in_order(rows).push(pid));
        assert(project_of_key(s2, pid) == block[0].project);
        assert(tasks_of_key(s2, pid) == tasks_of_key(block, pid));
    } else {
        let block1 = block.drop_last();
        assert(block1[0] == block[0]);
        lemma_block_append(rows, block1, pid);
        assert(s2 =~= (rows + block1).push(block.last()));
        assert(s2.drop_last() =~= rows + block1);
        assert(has_key(rows + block1, pid));
        assert(keys_in_order(s2) == keys_in_order(rows + block1));
        assert(project_of_key(s2, pid) == project_of_key(rows + block1, pid));
        assert(block.drop_last() == block1);
        assert(tasks_of_key(s2, pid) == tasks_of_key(block, pid));
        assert forall|k: u8| k != pid implies project_of_key(s2, k) == project_of_key(rows, k)
            && tasks_of_key(s2, k) == tasks_of_key(rows, k) && has_key(s2, k) == has_key(
            rows,
            k,
        ) by {
            assert(project_of_key(s2, k) == project_of_key(rows + block1, k));
            assert(tasks_of_key(s2, k) == tasks_of_key(rows + block1, k));
        }
    }
}

/// Everything the owner filter keeps comes from the table and is owned by
/// `uid`.
proof fn lemma_user_projects_contains(ps: Seq<ProjectV>, uid: u8, x: ProjectV)
    requires
        user_projects(ps, uid).contains(x),
    ensures
        ps.contains(x),
        x.owner == uid,
    decreases ps.len(),
{
    let up = user_projects(ps, uid);
    let prefix = ps.drop_last();
    let upp = user_projects(prefix, uid);
    if ps.last().owner == uid && x == ps.last() {
        assert(ps[ps.len() - 1] == x);
        assert(ps.contains(x));
    } else {
        let w = choose|w: int| 0 <= w < up.len() && up[w] == x;
        assert(upp[w] == x);
        assert(upp.contains(x));
        lemma_user_projects_contains(prefix, uid, x);
        let a = choose|a: int| 0 <= a < prefix.len() && prefix[a] == x;
        assert(ps[a] == x);
        assert(ps.contains(x));
    }
}

/// When the table's ids are pairwise distinct, the owner filter repeats no
/// record.
proof fn lemma_user_projects_no_dup(ps: Seq<ProjectV>, uid: u8)
    requires
        forall|a: int, b: int|
            #![trigger ps[a], ps[b]]
            0 <= a < b < ps.len() ==> ps[a].id != ps[b].id,
    ensures
        user_projects(ps, uid).no_duplicates(),
    decreases ps.len(),
{
    if ps.len() > 0 {
        let prefix = ps.drop_last();
        assert forall|a: int, b: int|
            #![trigger prefix[a], prefix[b]]
            0 <= a < b < prefix.len() implies prefix[a].id != prefix[b].id by {
            assert(ps[a].id != ps[b].id);
        }
        lemma_user_projects_no_dup(prefix, uid);
        let upp = user_projects(prefix, uid);
        if ps.last().owner == uid {
            let up = user_projects(ps, uid);
            assert(up == upp.push(ps.last()));
            if upp.contains(ps.last()) {
                lemma_user_projects_contains(prefix, uid, ps.last());
                let a = choose|a: int| 0 <= a < prefix.len() && prefix[a] == ps.last();
                assert(ps[a] == ps.last());
                assert(ps[a].id != ps[ps.len() - 1].id);
                assert(false);
            }
            assert forall|a: int, b: int|
                0 <= a < up.len() && 0 <= b < up.len() && a != b implies up[a] != up[b] by {
                if a < upp.len() && b < upp.len() {
                    assert(upp[a] != upp[b]);
                } else if b == upp.len() {
                    if up[a] == up[b] {
                        assert(upp[a] == ps.last());
                        assert(upp.contains(ps.last()));
                    }
                } else {
                    if up[a] == up[b] {
                        assert(upp[b] == ps.last());
                        assert(upp.contains(ps.last()));
                    }
                }
            }
        }
    }
}

/// Any multiset rearrangement of a user's project list carries persisted,
/// pairwise distinct project ids.
proof fn lemma_loaded_projects_facts(s: StoreV, uid: u8, pw: Seq<ProjectV>)
    requires
        s.wf(),
        pw.to_multiset() == user_projects(s.projects, uid).to_multiset(),
    ensures
        forall|a: int| 0 <= a < pw.len() ==> (#[trigger] pw[a]).id is Some,
        forall|a: int, b: int|
            #![trigger pw[a], pw[b]]
            0 <= a < b < pw.len() ==> pw[a].id != pw[b].id,
{
    broadcast use group_to_multiset_ensures;

    let up = user_projects(s.projects, uid);
    assert forall|a: int, b: int|
        #![trigger s.projects[a], s.projects[b]]
        0 <= a < b < s.projects.len() implies s.projects[a].id != s.projects[b].id by {}
    lemma_user_projects_no_dup(s.projects, uid);
    up.lemma_multiset_has_no_duplicates();
    assert forall|x: ProjectV| pw.to_multiset().contains(x) implies pw.to_multiset().count(x)
        == 1 by {
        assert(up.to_multiset().contains(x));
    }
    pw.lemma_multiset_has_no_duplicates_conv();
    assert forall|a: int| 0 <= a < pw.len() implies (#[trigger] pw[a]).id is Some by {
        assert(pw.contains(pw[a]));
        assert(up.to_multiset().count(pw[a]) > 0);
        assert(up.contains(pw[a]));
        lemma_user_projects_contains(s.projects, uid, pw[a]);
        let w = choose|w: int| 0 <= w < s.projects.len() && s.projects[w] == pw[a];
        assert(s.projects[w].id is Some);
    }
    assert forall|a: int, b: int|
        #![trigger pw[a], pw[b]]
        0 <= a < b < pw.len() implies pw[a].id != pw[b].id by {
        assert(pw[a] != pw[b]);
        assert(pw.contains(pw[a]));
        assert(up.to_multiset().count(pw[a]) > 0);
        assert(up.contains(pw[a]));
        lemma_user_projects_contains(s.projects, uid, pw[a]);
        let wa = choose|w: int| 0 <= w < s.projects.len() && s.projects[w] == pw[a];
        assert(pw.contains(pw[b]));
        assert(up.to_multiset().count(pw[b]) > 0);
        assert(up.contains(pw[b]));
        lemma_user_projects_contains(s.projects, uid, pw[b]);
        let wb = choose|w: int| 0 <= w < s.projects.len() && s.projects[w] == pw[b];
        assert(wa != wb);
        if wa < wb {
            assert(s.projects[wa].id != s.projects[wb].id);
        } else {
            assert(s.projects[wb].id != s.projects[wa].id);
        }
    }
}

/// Equal code points are the same character.
proof fn lemma_char_code_eq(c: char, d: char)
    requires
        c as u32 == d as u32,
    ensures
        c == d,
{
}

/// Two strings each at most the other are the same string.
pub proof fn lemma_lex_le_antisym(a: Seq<char>, b: Seq<char>)
    requires
        lex_le(a, b),
        lex_le(b, a),
    ensures
        a == b,
    decreases a.len(),
{
    if a.len() > 0 {
        assert((a[0] as u32) == (b[0] as u32));
        lemma_char_code_eq(a[0], b[0]);
        assert(a[0] == b[0]);
        lemma_lex_le_antisym(a.drop_first(), b.drop_first());
        assert(a.len() == b.len());
        assert forall|i: int| 0 <= i < a.len() implies a[i] == b[i] by {
            if i > 0 {
                assert(a.drop_first()[i - 1] == b.drop_first()[i - 1]);
            }
        }
        assert(a =~= b);
    } else {
        assert(a =~= b);
    }
}

/// A multiset rearrangement of tasks with pairwise distinct start dates
/// keeps them pairwise distinct.
proof fn lemma_perm_keeps_distinct_dates(all: Seq<ProjectTaskV>, p: Seq<ProjectTaskV>)
    requires
        p.to_multiset() == all.to_multiset(),
        forall|i: int, j: int|
            #![trigger all[i], all[j]]
            0 <= i < j < all.len() ==> all[i].task_start_date != all[j].task_start_date,
    ensures
        forall|i: int, j: int|
            #![trigger p[i], p[j]]
            0 <= i < j < p.len() ==> p[i].task_start_date != p[j].task_start_date,
{
    broadcast use group_to_multiset_ensures;

    assert forall|i: int, j: int|
        0 <= i < j < all.len() && i != j implies all[i] != all[j] by {
        assert(all[i].task_start_date != all[j].task_start_date);
    }
    all.lemma_multiset_has_no_duplicates();
    assert forall|x: ProjectTaskV| p.to_multiset().contains(x) implies p.to_multiset().count(x)
        == 1 by {
        assert(all.to_multiset().contains(x));
    }
    p.lemma_multiset_has_no_duplicates_conv();
    assert forall|i: int, j: int|
        #![trigger p[i], p[j]]
        0 <= i < j < p.len() implies p[i].task_start_date != p[j].task_start_date by {
        assert(p[i] != p[j]);
        assert(p.contains(p[i]));
        assert(all.to_multiset().count(p[i]) > 0);
        assert(all.contains(p[i]));
        let wi = choose|w: int| 0 <= w < all.len() && all[w] == p[i];
        assert(p.contains(p[j]));
        assert(all.to_multiset().count(p[j]) > 0);
        assert(all.contains(p[j]));
        let wj = choose|w: int| 0 <= w < all.len() && all[w] == p[j];
        assert(wi != wj);
        if wi < wj {
            assert(all[wi].task_start_date != all[wj].task_start_date);
        } else {
            assert(all[wj].task_start_date != all[wi].task_start_date);
        }
    }
}

/// Two most-recent-first arrangements of one multiset of tasks with
/// pairwise distinct start dates are the same sequence.
proof fn lemma_sorted_tasks_unique(a: Seq<ProjectTaskV>, b: Seq<ProjectTaskV>)
    requires
        a.to_multiset() == b.to_multiset(),
        sorted_by(a, task_recent_first()),
        sorted_by(b, task_recent_first()),
        forall|i: int, j: int|
            #![trigger a[i], a[j]]
            0 <= i < j < a.len() ==> a[i].task_start_date != a[j].task_start_date,
    ensures
        a == b,
    decreases a.len(),
{
    broadcast use group_to_multiset_ensures;

    to_multiset_len(a);
    to_multiset_len(b);
    assert(a.len() == b.len());
    if a.len() > 0 {
        assert(a.contains(a[0]));
        assert(b.to_multiset().count(a[0]) > 0);
        assert(b.contains(a[0]));
        let k = choose|k: int| 0 <= k < b.len() && b[k] == a[0];
        assert(b.contains(b[0]));
        assert(a.to_multiset().count(b[0]) > 0);
        assert(a.contains(b[0]));
        let m = choose|m: int| 0 <= m < a.len() && a[m] == b[0];
        if b[0] != a[0] {
            assert(k > 0);
            assert(m > 0);
            assert(task_recent_first()(b[0], b[k]));
            assert(task_recent_first()(a[0], a[m]));
            assert(lex_le(a[0].task_start_date, b[0].task_start_date));
            assert(lex_le(b[0].task_start_date, a[0].task_start_date));
            lemma_lex_le_antisym(a[0].task_start_date, b[0].task_start_date);
            assert(a[0].task_start_date != a[m].task_start_date);
            assert(false);
        }
        let a1 = a.drop_first();
        let b1 = b.drop_first();
        assert(a.remove(0) =~= a1);
        assert(b.remove(0) =~= b1);
        assert(a.remove(0).to_multiset() =~= a.to_multiset().remove(a[0]));
        assert(b.remove(0).to_multiset() =~= b.to_multiset().remove(b[0]));
        assert(a1.to_multiset() =~= b1.to_multiset());
        assert forall|i: int, j: int|
            0 <= i < j < a1.len() implies #[trigger] task_recent_first()(a1[i], a1[j]) by {
            assert(task_recent_first()(a[i + 1], a[j + 1]));
        }
        assert forall|i: int, j: int|
            0 <= i < j < b1.len() implies #[trigger] task_recent_first()(b1[i], b1[j]) by {
            assert(task_recent_first()(b[i + 1], b[j + 1]));
        }
        assert forall|i: int, j: int|
            #![trigger a1[i], a1[j]]
            0 <= i < j < a1.len() implies a1[i].task_start_date != a1[j].task_start_date by {
            assert(a[i + 1].task_start_date != a[j + 1].task_start_date);
        }
        lemma_sorted_tasks_unique(a1, b1);
        assert forall|i: int| 0 <= i < a.len() implies a[i] == b[i] by {
            if i > 0 {
                assert(a1[i - 1] == b1[i - 1]);
            }
        }
        assert(a =~= b);
    } else {
        assert(a =~= b);
    }
}

/// Law: when a project's stored tasks carry pairwise distinct start
/// dates, the aggregate's task list for that project is uniquely
/// determined: any two entries meeting the aggregate's task contract for
/// the same project id carry the same tasks, so "the most recent three,
/// newest first" names exactly one list.
pub proof fn lemma_top_tasks_determined(s: StoreV, g1: ProjectWithTasksV, g2: ProjectWithTasksV)
    requires
        top_tasks_ok(s, g1),
        top_tasks_ok(s, g2),
        g1.project.id == g2.project.id,
        forall|i: int, j: int|
            #![trigger project_tasks(s.tasks, g1.project.id->0)[i], project_tasks(s.tasks, g1.project.id->0)[j]]
            0 <= i < j < project_tasks(s.tasks, g1.project.id->0).len() ==> project_tasks(
                s.tasks,
                g1.project.id->0,
            )[i].task_start_date != project_tasks(s.tasks, g1.project.id->0)[j].task_start_date,
    ensures
        g1.tasks == g2.tasks,
{
    broadcast use group_to_multiset_ensures;

    let all = project_tasks(s.tasks, g1.project.id->0);
    match (g1.tasks, g2.tasks) {
        (Some(t1), Some(t2)) => {
            let p1 = choose|perm: Seq<ProjectTaskV>|
                #[trigger] perm.to_multiset() == all.to_multiset() && sorted_by(
                    perm,
                    task_recent_first(),
                ) && t1 == perm.take(top_task_limit(all.len() as int));
            let p2 = choose|perm: Seq<ProjectTaskV>|
                #[trigger] perm.to_multiset() == all.to_multiset() && sorted_by(
                    perm,
                    task_recent_first(),
                ) && t2 == perm.take(top_task_limit(all.len() as int));
            lemma_perm_keeps_distinct_dates(all, p1);
            lemma_sorted_tasks_unique(p1, p2);
            assert(t1 == t2);
        },
        (None, None) => {},
        (Some(t1), None) => {
            let p1 = choose|perm: Seq<ProjectTaskV>|
                #[trigger] perm.to_multiset() == all.to_multiset() && sorted_by(
                    perm,
                    task_recent_first(),
                ) && t1 == perm.take(top_task_limit(all.len() as int));
            assert(t1 =~= Seq::<ProjectTaskV>::empty());
            assert(false);
        },
        (None, Some(t2)) => {
            let p2 = choose|perm: Seq<ProjectTaskV>|
                #[trigger] perm.to_multiset() == all.to_multiset() && sorted_by(
                    perm,
                    task_recent_first(),
                ) && t2 == perm.take(top_task_limit(all.len() as int));
            assert(t2 =~= Seq::<ProjectTaskV>::empty());
            assert(false);
        },
    }
}

/// The predicate [`top_tasks_ok`], read off the grouped rows at key `k`.
pub open spec fn key_group_ok(s: StoreV, rows: Seq<ProjectTaskRowV>, k: u8) -> bool {
    top_tasks_ok(s, group_of_key(rows, k))
}

/// A user's projects, most recent first, each with its up-to-three most
/// recent tasks, newest first. One row per project/task pair is produced
/// through the left-outer relationship — a task-less project keeps one
/// sentinel row — and the rows are then grouped by project id.
pub fn get_all_projects_and_tasks_for_user(store: &Store, id: u8) -> (r: Vec<ProjectWithTasks>)
    requires
        store@.wf(),
    ensures
        r@.map_values(|g: ProjectWithTasks| g@.project).to_multiset() == user_projects(
            store@.projects,
            id,
        ).to_multiset(),
        sorted_by(r@.map_values(|g: ProjectWithTasks| g@.project), proj_recent_first()),
        forall|i: int| 0 <= i < r@.len() ==> top_tasks_ok(store@, (#[trigger] r@[i])@),
{
    broadcast use group_to_multiset_ensures;

    let projs = get_all_projects_for_user(store, id);
    let ghost pw = projs@.map_values(|p: Project| p@);
    let ghost pids = pw.map_values(|p: ProjectV| p.id->0);
    proof {
        lemma_loaded_projects_facts(store@, id, pw);
        assert(pids.take(0) =~= Seq::<u8>::empty());
        assert(Seq::<ProjectTaskRow>::empty().map_values(|x: ProjectTaskRow| x@)
            =~= Seq::<ProjectTaskRowV>::empty());
    }
    let mut rows: Vec<ProjectTaskRow> = Vec::new();
    let np = projs.len();
    let mut i: usize = 0;
    while i < np
        invariant
            0 <= i <= np,
            np == projs@.len(),
            store@.wf(),
            pw == projs@.map_values(|p: Project| p@),
            pids == pw.map_values(|p: ProjectV| p.id->0),
            forall|a: int| 0 <= a < pw.len() ==> (#[trigger] pw[a]).id is Some,
            forall|a: int, b: int|
                #![trigger pw[a], pw[b]]
                0 <= a < b < pw.len() ==> pw[a].id != pw[b].id,
            forall|l: int| 0 <= l < rows@.len() ==> (#[trigger] rows@[l])@.project.id is Some,
            keys_in_order(rows@.map_values(|x: ProjectTaskRow| x@)) == pids.take(i as int),
            forall|j: int|
                0 <= j < i ==> project_of_key(
                    rows@.map_values(|x: ProjectTaskRow| x@),
                    #[trigger] pids[j],
                ) == pw[j],
            forall|j: int|
                0 <= j < i ==> key_group_ok(
                    store@,
                    rows@.map_values(|x: ProjectTaskRow| x@),
                    #[trigger] pids[j],
                ),
        decreases np - i,
    {
        let ghost rw = rows@.map_values(|x: ProjectTaskRow| x@);
        let p = projs[i].clone();
        let pid = match p.id {
            Some(x) => x,
            None => 0,
        };
        proof {
            assert(pw[i as int].id is Some);
            assert(pid == pids[i as int]);
            assert forall|a: int, b: int|
                #![trigger pids[a], pids[b]]
                0 <= a < b < pids.len() implies pids[a] != pids[b] by {
                assert(pw[a].id != pw[b].id);
                assert(pw[a].id is Some && pw[b].id is Some);
            }
            assert forall|l: int| 0 <= l < i implies pids.take(i as int)[l] != pid by {
                assert(pids[l] != pids[i as int]);
            }
            assert(!pids.take(i as int).contains(pid));
            lemma_keys_contains(rw, pid);
            assert(!has_key(rw, pid));
        }
        let all_tasks = get_all_tasks_for_project(store, pid);
        let sorted = sort_tasks_recent_first(all_tasks);
        let ghost allw = project_tasks(store@.tasks, pid);
        let ghost sortedw = sorted@.map_values(|t: ProjectTask| t@);
        proof {
            broadcast use group_to_multiset_ensures;

            assert(sortedw.to_multiset() == allw.to_multiset());
            assert(sortedw.to_multiset().len() == allw.to_multiset().len());
            assert(sortedw.len() == allw.len());
        }
        let nsorted = sorted.len();
        let limit = if nsorted < 3 {
            nsorted
        } else {
            3
        };
        proof {
            assert(limit as int == top_task_limit(allw.len() as int));
        }
        let mut block: Vec<ProjectTaskRow> = Vec::new();
        if nsorted == 0 {
            let row = ProjectTaskRow { project: p, task: None };
            block.push(row);
            proof {
                let bw = block@.map_values(|x: ProjectTaskRow| x@);
                assert(bw.len() == 1);
                assert(bw[0].project == pw[i as int]);
                assert(row_key(bw[0]) == pid);
                assert(bw.drop_last() =~= Seq::<ProjectTaskRowV>::empty());
                assert(tasks_of_key(Seq::<ProjectTaskRowV>::empty(), pid)
                    =~= Seq::<ProjectTaskV>::empty());
                assert(tasks_of_key(bw, pid) =~= Seq::<ProjectTaskV>::empty());
            }
        } else {
            let mut t: usize = 0;
            proof {
                assert(block@.map_values(|x: ProjectTaskRow| x@)
                    =~= Seq::<ProjectTaskRowV>::empty());
                assert(sortedw.take(0) =~= Seq::<ProjectTaskV>::empty());
            }
            while t < limit
                invariant
                    0 <= t <= limit,
                    limit <= sorted@.len(),
                    sortedw == sorted@.map_values(|x: ProjectTask| x@),
                    p@ == pw[i as int],
                    0 <= i < pw.len(),
                    pw[i as int].id is Some,
                    pid == pw[i as int].id->0,
                    block@.len() == t,
                    forall|l: int|
                        0 <= l < t ==> (#[trigger] block@[l])@.project == pw[i as int]
                            && row_key(block@[l]@) == pid && block@[l]@.task == Some(sortedw[l]),
                    tasks_of_key(block@.map_values(|x: ProjectTaskRow| x@), pid) == sortedw.take(
                        t as int,
                    ),
                decreases limit - t,
            {
                let ghost bw = block@.map_values(|x: ProjectTaskRow| x@);
                let row = ProjectTaskRow { project: p.clone(), task: Some(sorted[t].clone()) };
                block.push(row);
                proof {
                    let bw2 = block@.map_values(|x: ProjectTaskRow| x@);
                    assert(bw2 =~= bw.push(row@));
                    assert(bw2.drop_last() =~= bw);
                    assert(row_key(bw2.last()) == pid);
                    assert(tasks_of_key(bw2, pid) == tasks_of_key(bw, pid).push(sortedw[t as int]));
                    assert(sortedw.take(t + 1 as int) =~= sortedw.take(t as int).push(
                        sortedw[t as int],
                    ));
                }
                t += 1;
            }
        }
        let ghost bw = block@.map_values(|x: ProjectTaskRow| x@);
        proof {
            assert(bw.len() > 0);
            assert(bw[0].project == pw[i as int]);
            lemma_block_append(rw, bw, pid);
        }
        rows.append(&mut block);
        proof {
            let rw2 = rows@.map_values(|x: ProjectTaskRow| x@);
            assert(rw2 =~= rw + bw);
            assert(keys_in_order(rw2) == pids.take(i as int).push(pid));
            assert(pids.take(i + 1 as int) =~= pids.take(i as int).push(pids[i as int]));
            assert(project_of_key(rw2, pid) == pw[i as int]);
            assert forall|j: int|
                0 <= j < i + 1 implies project_of_key(rw2, #[trigger] pids[j]) == pw[j] by {
                if j < i as int {
                    assert(pids[j] != pid);
                    assert(project_of_key(rw2, pids[j]) == project_of_key(rw, pids[j]));
                }
            }
            // the new key's group meets the task contract
            assert(tasks_of_key(rw2, pid) == tasks_of_key(bw, pid));
            if allw.len() == 0 {
                assert(tasks_of_key(rw2, pid).len() == 0);
                assert(group_of_key(rw2, pid).tasks is None);
                assert(top_tasks_ok(store@, group_of_key(rw2, pid)));
            } else {
                assert(tasks_of_key(rw2, pid) == sortedw.take(limit as int));
                assert(tasks_of_key(rw2, pid).len() == limit as int);
                assert(limit > 0);
                assert(group_of_key(rw2, pid).tasks == Some(sortedw.take(
                    top_task_limit(allw.len() as int),
                )));
                assert(sortedw.to_multiset() == allw.to_multiset() && sorted_by(
                    sortedw,
                    task_recent_first(),
                ) && sortedw.take(top_task_limit(allw.len() as int)) == sortedw.take(
                    top_task_limit(allw.len() as int),
                ));
                assert(top_tasks_ok(store@, group_of_key(rw2, pid)));
            }
            assert forall|j: int|
                0 <= j < i + 1 implies key_group_ok(store@, rw2, #[trigger] pids[j]) by {
                if j < i as int {
                    assert(pids[j] != pid);
                    assert(project_of_key(rw2, pids[j]) == project_of_key(rw, pids[j]));
                    assert(tasks_of_key(rw2, pids[j]) == tasks_of_key(rw, pids[j]));
                    assert(group_of_key(rw2, pids[j]) == group_of_key(rw, pids[j]));
                }
            }
            assert forall|l: int| 0 <= l < rows@.len() implies (#[trigger] rows@[l])@.project.id
                is Some by {
                assert(rw2[l] == rows@[l]@);
                if l < rw.len() {
                    assert(rw2[l] == rw[l]);
                } else {
                    assert(rw2[l] == bw[l - rw.len()]);
                    assert(bw[l - rw.len()].project == pw[i as int]);
                }
            }
        }
        i += 1;
    }
    proof {
        assert(pids.take(np as int) =~= pids);
    }
    let out = group_rows(&rows);
    proof {
        let rw = rows@.map_values(|x: ProjectTaskRow| x@);
        assert(out@.len() == pids.len());
        assert(pids.len() == pw.len());
        assert forall|j: int| 0 <= j < out@.len() implies (#[trigger] out@[j])@.project
            == pw[j] by {
            assert(out@[j]@ == group_of_key(rw, keys_in_order(rw)[j]));
            assert(keys_in_order(rw)[j] == pids[j]);
            assert(project_of_key(rw, pids[j]) == pw[j]);
        }
        assert(out@.map_values(|g: ProjectWithTasks| g@.project) =~= pw);
        assert forall|j: int| 0 <= j < out@.len() implies top_tasks_ok(
            store@,
            (#[trigger] out@[j])@,
        ) by {
            assert(out@[j]@ == group_of_key(rw, pids[j]));
            assert(key_group_ok(store@, rw, pids[j]));
        }
    }
    out
}

/// All projects owned by `id`, most recent first.
pub fn get_all_projects_for_user(store: &Store, id: u8) -> (r: Vec<Project>)
    ensures
        r@.map_values(|p: Project| p@).to_multiset() == user_projects(
            store@.projects,
            id,
        ).to_multiset(),
        sorted_by(r@.map_values(|p: Project| p@), proj_recent_first()),
{
    let n = store.projects.len();
    let mut mine: Vec<Project> = Vec::new();
    let mut i: usize = 0;
    proof {
        assert(store@.projects.take(0) =~= Seq::<ProjectV>::empty());
        assert(mine@.map_values(|p: Project| p@) =~= Seq::<ProjectV>::empty());
    }
    while i < n
        invariant
            0 <= i <= n,
            n == store.projects.len(),
            mine@.map_values(|p: Project| p@) == user_projects(
                store@.projects.take(i as int),
                id,
            ),
        decreases n - i,
    {
        proof {
            assert(store@.projects.take(i + 1 as int).drop_last() =~= store@.projects.take(
                i as int,
            ));
            assert(store@.projects.take(i + 1 as int).last() == store@.projects[i as int]);
        }
        if store.projects[i].owner == id {
            mine.push(store.projects[i].clone());
            proof {
                assert(mine@.map_values(|p: Project| p@) =~= user_projects(
                    store@.projects.take(i + 1 as int),
                    id,
                ));
            }
        }
        i += 1;
    }
    proof {
        assert(store@.projects.take(n as int) =~= store@.projects);
    }
    sort_projects_recent_first(mine)
}

} // verus!
