//! The task timing engine: stamping a completion time and computing a
//! task's elapsed seconds from its stored start and end timestamps.
//!
//! Timestamps are stored as text in a fixed pattern — date, time, optional
//! fractional seconds, optional zone marker. Reading one back is delegated
//! to chrono; what a given string denotes, in whole seconds since the
//! epoch, is named [`timestamp_of`] and left uninterpreted here. A stored
//! timestamp that does not parse is a fatal error for the operation that
//! reads it, never a wrong number.

use vstd::prelude::*;

use crate::store::{
    find_task, lemma_find_first_match, lemma_find_first_none, by_task_id, with_task_delta,
    with_task_end, Store, StoreV,
};
use crate::user::ProjectTaskV;

verus! {

/// What a stored timestamp string denotes: whole seconds since the epoch,
/// or nothing when the string does not match the expected pattern. A
/// function of the string alone.
pub uninterp spec fn timestamp_of(s: Seq<char>) -> Option<int>;

/// Reads a stored timestamp string.
///
/// Relies on `chrono::NaiveDateTime::parse_from_str` with the pattern
/// `%Y-%m-%d %H:%M:%S%.f %Z` (fractional seconds and zone name both
/// optional in parsing) and on `NaiveDateTime::and_utc().timestamp()`,
/// deterministic functions of the string. The bounds come from chrono's
/// documented representable range, `NaiveDate::MIN` to `NaiveDate::MAX`
/// (roughly year ±262,000, so well within 10^13 seconds of the epoch).
#[verifier::external_body]
pub fn parse_timestamp(s: &str) -> (r: Option<i64>)
    ensures
        (match r {
            Some(v) => timestamp_of(s@) == Some(v as int) && -10_000_000_000_000 < v
                < 10_000_000_000_000,
            None => timestamp_of(s@) is None,
        }),
{
    match chrono::NaiveDateTime::parse_from_str(s, "%Y-%m-%d %H:%M:%S%.f %Z") {
        Ok(dt) => Some(dt.and_utc().timestamp()),
        Err(_) => None,
    }
}

/// The current wall-clock time, in the stored-timestamp text format.
///
/// Relies on `chrono::Utc::now`: the value depends on the clock, so
/// nothing is promised of it.
#[verifier::external_body]
pub fn now_string() -> (r: String) {
    chrono::Utc::now().to_string()
}

/// Why an elapsed-time computation failed. Each case is fatal for the one
/// operation that hit it and is propagated, never swallowed into a wrong
/// stored number.
#[derive(Clone, Copy, Debug, PartialEq, Eq, Structural)]
pub enum TimingError {
    /// The task has no end date yet: nothing to measure.
    EndDateMissing,
    /// The stored start timestamp does not match the expected pattern.
    StartDateUnparsable,
    /// The stored end timestamp does not match the expected pattern.
    EndDateUnparsable,
}

/// The elapsed whole seconds of a task, end minus start — negative if the
/// stored order is inconsistent, which is not validated — or the error
/// that prevents computing it.
pub open spec fn task_delta(t: ProjectTaskV) -> Result<int, TimingError> {
    match t.task_end_date {
        None => Err(TimingError::EndDateMissing),
        Some(e) => match timestamp_of(t.task_start_date) {
            None => Err(TimingError::StartDateUnparsable),
            Some(st) => match timestamp_of(e) {
                None => Err(TimingError::EndDateUnparsable),
                Some(en) => Ok(en - st),
            },
        },
    }
}

/// The elapsed whole seconds between two stored timestamps, end minus
/// start — negative if the order is inconsistent, which is not
/// validated. An unparsable timestamp is a fatal error, never a wrong
/// number; the start is checked first.
pub fn compute_delta_seconds(start: &str, end: &str) -> (r: Result<i64, TimingError>)
    ensures
        (match (timestamp_of(start@), timestamp_of(end@)) {
            (Some(st), Some(en)) => r matches Ok(d) && d as int == en - st,
            (None, _) => r == Err::<i64, TimingError>(TimingError::StartDateUnparsable),
            (Some(_), None) => r == Err::<i64, TimingError>(TimingError::EndDateUnparsable),
        }),
{
    let st = match parse_timestamp(start) {
        Some(v) => v,
        None => {
            return Err(TimingError::StartDateUnparsable);
        },
    };
    let en = match parse_timestamp(end) {
        Some(v) => v,
        None => {
            return Err(TimingError::EndDateUnparsable);
        },
    };
    Ok(en - st)
}

/// Computes and persists the elapsed seconds of task `id`.
///
/// A missing task id is the distinguished no-op result `Ok(None)`; a
/// missing end date or an unparsable timestamp is a fatal error for this
/// operation and nothing is stored. On success the task's `time_delta` is
/// set to end minus start in whole seconds and everything else is
/// untouched.
pub fn add_time_delta(store: &mut Store, id: u8) -> (r: Result<Option<()>, TimingError>)
    requires
        old(store)@.wf(),
    ensures
        final(store)@.wf(),
        (match find_task(old(store)@.tasks, id) {
            None => r == Ok::<Option<()>, TimingError>(None) && final(store)@ == old(store)@,
            Some(t) => match task_delta(t) {
                Err(e) => r == Err::<Option<()>, TimingError>(e) && final(store)@ == old(store)@,
                Ok(d) => r == Ok::<Option<()>, TimingError>(Some(())) && final(store)@ == (StoreV {
                    tasks: with_task_delta(old(store)@.tasks, id, (d as i64)),
                    ..old(store)@
                }),
            },
        }),
{
    let n = store.tasks.len();
    let mut i: usize = 0;
    while i < n
        invariant
            0 <= i <= n,
            n == store.tasks.len(),
            store@ == old(store)@,
            old(store)@.wf(),
            forall|j: int| 0 <= j < i ==> !by_task_id(id)(store@.tasks[j]),
        decreases n - i,
    {
        let hit = match store.tasks[i].id {
            Some(tid) => tid == id,
            None => false,
        };
        if hit {
            proof {
                lemma_find_first_match(store@.tasks, by_task_id(id), i as int);
            }
            let end_s = match &store.tasks[i].task_end_date {
                Some(e) => e.clone(),
                None => {
                    return Err(TimingError::EndDateMissing);
                },
            };
            let delta = match compute_delta_seconds(
                store.tasks[i].task_start_date.as_str(),
                end_s.as_str(),
            ) {
                Ok(d) => d,
                Err(e) => {
                    return Err(e);
                },
            };
            let mut t = store.tasks.remove(i);
            t.time_delta = Some(delta);
            store.tasks.insert(i, t);
            proof {
                assert(old(store)@.tasks[i as int].id == Some(id));
                assert forall|k: int| 0 <= k < old(store)@.tasks.len() implies store@.tasks[k]
                    == with_task_delta(old(store)@.tasks, id, delta)[k] by {
                    if k < i as int {
                        assert(old(store)@.tasks[k].id != old(store)@.tasks[i as int].id);
                    } else if k > i as int {
                        assert(old(store)@.tasks[i as int].id != old(store)@.tasks[k].id);
                    }
                }
                assert(store@.tasks =~= with_task_delta(old(store)@.tasks, id, delta));
                assert(store@ == StoreV {
                    tasks: with_task_delta(old(store)@.tasks, id, delta),
                    ..old(store)@
                });
                crate::store::lemma_wf_same_ids(old(store)@, store@);
            }
            return Ok(Some(()));
        }
        i += 1;
    }
    proof {
        lemma_find_first_none(store@.tasks, by_task_id(id));
    }
    Ok(None)
}

/// A digit character.
pub open spec fn digit_char(d: int) -> char {
    ((48 + d) as u8) as char
}

/// The base-ten digits of a nonnegative number, most significant first.
pub open spec fn dec_str(n: int) -> Seq<char>
    recommends
        n >= 0,
    decreases n,
{
    if n < 10 {
        seq![digit_char(if n < 0 { 0 } else { n })]
    } else {
        dec_str(n / 10).push(digit_char(n % 10))
    }
}

/// Renders a number in base ten.
///
/// Relies on `u64`'s `Display` through `to_string`: the plain base-ten
/// digits, most significant first, no sign and no padding.
#[verifier::external_body]
fn u64_to_string(n: u64) -> (r: String)
    ensures
        r@ == dec_str(n as int),
{
    n.to_string()
}

/// `s` ends in the suffix `t`.
pub open spec fn ends_with(s: Seq<char>, t: Seq<char>) -> bool {
    s.len() >= t.len() && s.subrange(s.len() - t.len(), s.len() as int) == t
}

/// A suffix of the right-hand part is a suffix of the whole.
proof fn lemma_ends_with_append(a: Seq<char>, b: Seq<char>, t: Seq<char>)
    requires
        ends_with(b, t),
    ensures
        ends_with(a + b, t),
{
    let s = a + b;
    assert(s.subrange(s.len() - t.len(), s.len() as int) =~= b.subrange(
        b.len() - t.len(),
        b.len() as int,
    ));
}

/// Concatenating parts that are each empty or end in `t` gives a whole
/// that is empty or ends in `t`.
proof fn lemma_concat_tail(a: Seq<char>, b: Seq<char>, t: Seq<char>)
    requires
        a.len() == 0 || ends_with(a, t),
        b.len() == 0 || ends_with(b, t),
    ensures
        (a + b).len() == 0 || ends_with(a + b, t),
{
    if b.len() == 0 {
        assert(a + b =~= a);
    } else {
        lemma_ends_with_append(a, b, t);
    }
}

/// One unit's phrase of the duration breakdown: the count followed by the
/// unit's wording, or nothing when the count is zero.
pub open spec fn unit_phrase(n: int, unit: Seq<char>) -> Seq<char> {
    if n > 0 {
        dec_str(n) + unit
    } else {
        Seq::empty()
    }
}

/// The phrases of a duration broken into years (365 days), months (30
/// days), weeks, days, hours, minutes and seconds, largest unit first,
/// zero counts skipped. Every phrase but the last carries a trailing
/// comma separator.
pub open spec fn duration_phrases(total: int) -> Seq<char> {
    let years = total / 31536000;
    let r1 = total % 31536000;
    let months = r1 / 2592000;
    let r2 = r1 % 2592000;
    let weeks = r2 / 604800;
    let r3 = r2 % 604800;
    let days = r3 / 86400;
    let r4 = r3 % 86400;
    let hours = r4 / 3600;
    let r5 = r4 % 3600;
    let minutes = r5 / 60;
    let secs = r5 % 60;
    unit_phrase(years, " years, "@) + unit_phrase(months, " months, "@) + unit_phrase(
        weeks,
        " weeks, "@,
    ) + unit_phrase(days, " days, "@) + unit_phrase(hours, " hours, "@) + unit_phrase(
        minutes,
        " minutes, "@,
    ) + unit_phrase(secs, " seconds"@)
}

/// The rendered duration: the phrases, with a dangling comma separator
/// chopped off, and a zero duration spelled out.
pub open spec fn format_duration_spec(total: int) -> Seq<char> {
    let s = duration_phrases(total);
    if s.len() == 0 {
        "0 seconds"@
    } else if ends_with(s, ", "@) {
        s.take(s.len() - 2)
    } else {
        s
    }
}

/// When the seconds phrase is absent and anything was rendered, the
/// rendering ends in the comma separator.
proof fn lemma_phrases_comma_tail(t: int)
    requires
        t % 31536000 % 2592000 % 604800 % 86400 % 3600 % 60 == 0,
        duration_phrases(t).len() > 0,
    ensures
        ends_with(duration_phrases(t), ", "@),
{
    reveal_strlit(", ");
    reveal_strlit(" years, ");
    reveal_strlit(" months, ");
    reveal_strlit(" weeks, ");
    reveal_strlit(" days, ");
    reveal_strlit(" hours, ");
    reveal_strlit(" minutes, ");
    assert(ends_with(" years, "@, ", "@)) by {
        assert(" years, "@.subrange(6, 8) =~= ", "@);
    }
    assert(ends_with(" months, "@, ", "@)) by {
        assert(" months, "@.subrange(7, 9) =~= ", "@);
    }
    assert(ends_with(" weeks, "@, ", "@)) by {
        assert(" weeks, "@.subrange(6, 8) =~= ", "@);
    }
    assert(ends_with(" days, "@, ", "@)) by {
        assert(" days, "@.subrange(5, 7) =~= ", "@);
    }
    assert(ends_with(" hours, "@, ", "@)) by {
        assert(" hours, "@.subrange(6, 8) =~= ", "@);
    }
    assert(ends_with(" minutes, "@, ", "@)) by {
        assert(" minutes, "@.subrange(8, 10) =~= ", "@);
    }
    let py = unit_phrase(t / 31536000, " years, "@);
    let pm = unit_phrase(t % 31536000 / 2592000, " months, "@);
    let pw = unit_phrase(t % 31536000 % 2592000 / 604800, " weeks, "@);
    let pd = unit_phrase(t % 31536000 % 2592000 % 604800 / 86400, " days, "@);
    let ph = unit_phrase(t % 31536000 % 2592000 % 604800 % 86400 / 3600, " hours, "@);
    let pn = unit_phrase(t % 31536000 % 2592000 % 604800 % 86400 % 3600 / 60, " minutes, "@);
    if py.len() > 0 {
        lemma_ends_with_append(dec_str(t / 31536000), " years, "@, ", "@);
    }
    if pm.len() > 0 {
        lemma_ends_with_append(dec_str(t % 31536000 / 2592000), " months, "@, ", "@);
    }
    if pw.len() > 0 {
        lemma_ends_with_append(dec_str(t % 31536000 % 2592000 / 604800), " weeks, "@, ", "@);
    }
    if pd.len() > 0 {
        lemma_ends_with_append(dec_str(t % 31536000 % 2592000 % 604800 / 86400), " days, "@, ", "@);
    }
    if ph.len() > 0 {
        lemma_ends_with_append(
            dec_str(t % 31536000 % 2592000 % 604800 % 86400 / 3600),
            " hours, "@,
            ", "@,
        );
    }
    if pn.len() > 0 {
        lemma_ends_with_append(
            dec_str(t % 31536000 % 2592000 % 604800 % 86400 % 3600 / 60),
            " minutes, "@,
            ", "@,
        );
    }
    lemma_concat_tail(py, pm, ", "@);
    lemma_concat_tail(py + pm, pw, ", "@);
    lemma_concat_tail(py + pm + pw, pd, ", "@);
    lemma_concat_tail(py + pm + pw + pd, ph, ", "@);
    lemma_concat_tail(py + pm + pw + pd + ph, pn, ", "@);
    assert(duration_phrases(t) =~= py + pm + pw + pd + ph + pn);
}

/// When the seconds phrase is present, the rendering ends in it, not in
/// the comma separator.
proof fn lemma_phrases_seconds_tail(t: int)
    requires
        t % 31536000 % 2592000 % 604800 % 86400 % 3600 % 60 > 0,
    ensures
        ends_with(duration_phrases(t), " seconds"@),
        !ends_with(duration_phrases(t), ", "@),
{
    reveal_strlit(", ");
    reveal_strlit(" seconds");
    let sv = t % 31536000 % 2592000 % 604800 % 86400 % 3600 % 60;
    let py = unit_phrase(t / 31536000, " years, "@);
    let pm = unit_phrase(t % 31536000 / 2592000, " months, "@);
    let pw = unit_phrase(t % 31536000 % 2592000 / 604800, " weeks, "@);
    let pd = unit_phrase(t % 31536000 % 2592000 % 604800 / 86400, " days, "@);
    let ph = unit_phrase(t % 31536000 % 2592000 % 604800 % 86400 / 3600, " hours, "@);
    let pn = unit_phrase(t % 31536000 % 2592000 % 604800 % 86400 % 3600 / 60, " minutes, "@);
    let s = duration_phrases(t);
    assert(s =~= (py + pm + pw + pd + ph + pn + dec_str(sv)) + " seconds"@);
    assert(ends_with(" seconds"@, " seconds"@)) by {
        assert(" seconds"@.subrange(0, 8) =~= " seconds"@);
    }
    lemma_ends_with_append(py + pm + pw + pd + ph + pn + dec_str(sv), " seconds"@, " seconds"@);
    assert(s[s.len() - 1] == " seconds"@[7]);
    assert(s[s.len() - 1] == 's');
    if ends_with(s, ", "@) {
        assert(s[s.len() - 1] == ", "@[1]);
        assert(s[s.len() - 1] == ' ');
    }
}

/// Appends one unit phrase — count then wording — when the count is
/// positive.
fn append_phrase(out: &mut String, n: u64, unit: &str) -> (did: bool)
    ensures
        final(out)@ == old(out)@ + unit_phrase(n as int, unit@),
        did <==> n > 0,
        n > 0 ==> unit_phrase(n as int, unit@).len() > 0,
{
    if n > 0 {
        out.append(u64_to_string(n).as_str());
        out.append(unit);
        proof {
            assert(final(out)@ =~= old(out)@ + unit_phrase(n as int, unit@));
        }
        true
    } else {
        proof {
            assert(final(out)@ =~= old(out)@ + unit_phrase(n as int, unit@));
        }
        false
    }
}

/// Renders the nonempty phrases of the breakdown, in order.
fn render_phrases(seconds: i64) -> (r: (String, bool))
    requires
        0 <= seconds,
    ensures
        r.0@ == duration_phrases(seconds as int),
        r.1 <==> r.0@.len() > 0,
{
    let total = seconds as u64;
    let years = total / 31536000;
    let r1 = total % 31536000;
    let months = r1 / 2592000;
    let r2 = r1 % 2592000;
    let weeks = r2 / 604800;
    let r3 = r2 % 604800;
    let days = r3 / 86400;
    let r4 = r3 % 86400;
    let hours = r4 / 3600;
    let r5 = r4 % 3600;
    let minutes = r5 / 60;
    let secs = r5 % 60;
    let ghost t = seconds as int;
    let mut out = String::new();
    let mut has_content = false;
    let d1 = append_phrase(&mut out, years, " years, ");
    has_content = has_content || d1;
    let d2 = append_phrase(&mut out, months, " months, ");
    has_content = has_content || d2;
    let d3 = append_phrase(&mut out, weeks, " weeks, ");
    has_content = has_content || d3;
    let d4 = append_phrase(&mut out, days, " days, ");
    has_content = has_content || d4;
    let d5 = append_phrase(&mut out, hours, " hours, ");
    has_content = has_content || d5;
    let d6 = append_phrase(&mut out, minutes, " minutes, ");
    has_content = has_content || d6;
    let d7 = append_phrase(&mut out, secs, " seconds");
    has_content = has_content || d7;
    proof {
        assert(out@ =~= duration_phrases(t));
    }
    (out, has_content)
}

/// Renders a nonnegative duration of whole seconds in words, largest
/// unit first — years of 365 days and months of 30 days, as the
/// breakdown defines them — skipping zero counts, with `"0 seconds"`
/// for an empty breakdown.
#[verifier::rlimit(60)]
pub fn format_duration(seconds: i64) -> (r: String)
    requires
        0 <= seconds,
    ensures
        r@ == format_duration_spec(seconds as int),
{
    let ghost t = seconds as int;
    let total = seconds as u64;
    let secs = total % 31536000 % 2592000 % 604800 % 86400 % 3600 % 60;
    let rendered = render_phrases(seconds);
    let out = rendered.0;
    let has_content = rendered.1;
    if !has_content {
        let r = String::from_str("0 seconds");
        proof {
            assert(r@ == format_duration_spec(t));
        }
        return r;
    }
    if secs == 0 {
        proof {
            lemma_phrases_comma_tail(t);
            assert(ends_with(out@, ", "@));
        }
        let n = out.as_str().unicode_len();
        proof {
            reveal_strlit(", ");
            assert(", "@.len() == 2);
            assert(out@.len() >= 2);
        }
        let trimmed = out.as_str().substring_char(0, n - 2);
        let r = trimmed.to_owned();
        proof {
            assert(r@ =~= format_duration_spec(t));
        }
        return r;
    }
    proof {
        lemma_phrases_seconds_tail(t);
        assert(out@ == format_duration_spec(t));
    }
    out
}

/// Stamps task `id` as completed at the current wall-clock time. Returns
/// whether a task with that id existed; a missing id changes nothing and
/// is not an error. Whatever text the clock produced, only that task's end
/// date is touched.
pub fn complete_task(store: &mut Store, id: u8) -> (r: bool)
    requires
        old(store)@.wf(),
    ensures
        final(store)@.wf(),
        r <==> (find_task(old(store)@.tasks, id) is Some),
        r ==> (exists|now: Seq<char>|
            final(store)@.tasks == #[trigger] with_task_end(old(store)@.tasks, id, now)),
        r ==> final(store)@ == (StoreV { tasks: final(store)@.tasks, ..old(store)@ }),
        !r ==> final(store)@ == old(store)@,
{
    let now = now_string();
    store.complete_task_db(id, now.as_str())
}

} // verus!
