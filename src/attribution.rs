use vstd::prelude::*;

use crate::record::{Contributions, count_of};

verus! {

/// First second that chrono can represent as a date and time: January 1 of year -262143, UTC.
pub const FIRST_TIMESTAMP: i64 = -8334601228800;

/// Last second that chrono can represent as a date and time: December 31 of year 262142,
/// 23:59:59 UTC.
pub const LAST_TIMESTAMP: i64 = 8210266876799;

/// Relies on chrono::DateTime::from_timestamp: it returns `None` exactly when the seconds fall
/// outside the dates from year -262143 to year 262142.
#[verifier::external_body]
fn timestamp_representable(secs: i64) -> (r: bool)
    ensures
        r == (FIRST_TIMESTAMP <= secs && secs <= LAST_TIMESTAMP),
{
    chrono::DateTime::from_timestamp(secs, 0).is_some()
}

/// Relies on chrono::FixedOffset::east_opt: an offset in seconds is accepted exactly when it
/// lies strictly within one day either way.
#[verifier::external_body]
fn offset_accepted(secs: i32) -> (r: bool)
    ensures
        r == (-86_400 < secs && secs < 86_400),
{
    chrono::FixedOffset::east_opt(secs).is_some()
}

/// A commit's time zone offset is usable: it lies strictly within one day either way.
pub open spec fn offset_valid(offset_minutes: i32) -> bool {
    -86_400 < offset_minutes * 60 < 86_400
}

/// The time zone offset of a commit in seconds; an offset out of range counts as zero.
pub open spec fn offset_seconds(offset_minutes: i32) -> int {
    if offset_valid(offset_minutes) {
        offset_minutes * 60
    } else {
        0
    }
}

/// Whether a commit's time zone offset is usable; where it is not, conversions count it as zero.
pub fn offset_in_range(offset_minutes: i32) -> (r: bool)
    ensures
        r == offset_valid(offset_minutes),
{
    let wide: i64 = offset_minutes as i64 * 60;
    if wide < i32::MIN as i64 || wide > i32::MAX as i64 {
        false
    } else {
        offset_accepted(wide as i32)
    }
}

/// The instant of a commit time, in seconds since the Unix epoch (UTC): the recorded seconds
/// read as local time at the recorded offset. `None` where the time cannot be converted.
pub open spec fn commit_instant(seconds: i64, offset_minutes: i32) -> Option<int> {
    if !(FIRST_TIMESTAMP <= seconds <= LAST_TIMESTAMP) {
        None
    } else {
        let t = seconds - offset_seconds(offset_minutes);
        if i64::MIN <= t <= i64::MAX {
            Some(t)
        } else {
            None
        }
    }
}

/// Converts a commit time to seconds since the Unix epoch (UTC).
pub fn git_time_to_utc_seconds(seconds: i64, offset_minutes: i32) -> (r: Option<i64>)
    ensures
        match r {
            Some(t) => commit_instant(seconds, offset_minutes) == Some(t as int),
            None => commit_instant(seconds, offset_minutes) is None,
        },
{
    if !timestamp_representable(seconds) {
        return None;
    }
    let offset: i64 = if offset_in_range(offset_minutes) {
        offset_minutes as i64 * 60
    } else {
        0
    };
    let t: i128 = seconds as i128 - offset as i128;
    if t < i64::MIN as i128 || t > i64::MAX as i128 {
        None
    } else {
        Some(t as i64)
    }
}

/// Whether content written at `instant` (seconds) is older than `max_age` (nanoseconds) at
/// time `now` (nanoseconds since the epoch).
pub open spec fn too_old(instant: int, now_nanos: int, max_age_nanos: Option<i128>) -> bool {
    match max_age_nanos {
        Some(m) => now_nanos - instant * 1_000_000_000 > m,
        None => false,
    }
}

fn is_too_old(instant: i64, now_nanos: i64, max_age_nanos: Option<i128>) -> (r: bool)
    ensures
        r == too_old(instant as int, now_nanos as int, max_age_nanos),
{
    match max_age_nanos {
        Some(m) => {
            let age: i128 = now_nanos as i128 - instant as i128 * 1_000_000_000;
            age > m
        },
        None => false,
    }
}

/// Whether a commit takes part in history attribution: it has exactly one parent and, where a
/// maximum age is set, a convertible time that is not too old.
pub open spec fn commit_qualifies_spec(
    seconds: i64,
    offset_minutes: i32,
    parent_count: usize,
    now_nanos: i64,
    max_age_nanos: Option<i128>,
) -> bool {
    &&& max_age_nanos is Some ==> match commit_instant(seconds, offset_minutes) {
        Some(t) => !too_old(t, now_nanos as int, max_age_nanos),
        None => false,
    }
    &&& parent_count == 1
}

/// Decides whether a commit is attributed in overwritten-lines mode.
pub fn commit_qualifies(
    seconds: i64,
    offset_minutes: i32,
    parent_count: usize,
    now_nanos: i64,
    max_age_nanos: Option<i128>,
) -> (r: bool)
    ensures
        r == commit_qualifies_spec(seconds, offset_minutes, parent_count, now_nanos, max_age_nanos),
{
    if max_age_nanos.is_some() {
        match git_time_to_utc_seconds(seconds, offset_minutes) {
            Some(t) => {
                if is_too_old(t, now_nanos, max_age_nanos) {
                    return false;
                }
            },
            None => {
                return false;
            },
        }
    }
    parent_count == 1
}

/// One span of the blame of a file: its line count, the time of the commit that wrote it
/// (seconds and offset in minutes), and the author's identity if one is known.
pub struct BlameHunk {
    pub lines: usize,
    pub seconds: i64,
    pub offset_minutes: i32,
    pub email: Option<String>,
}

/// Whether a hunk's lines are credited: its author is known and, where a maximum age is set,
/// its time converts and is not too old. Without a maximum age the time plays no part; with one,
/// a hunk whose time cannot be converted is left out, and only that hunk.
pub open spec fn hunk_counted(h: BlameHunk, now_nanos: int, max_age_nanos: Option<i128>) -> bool {
    &&& h.email is Some
    &&& max_age_nanos is Some ==> match commit_instant(h.seconds, h.offset_minutes) {
        Some(t) => !too_old(t, now_nanos, max_age_nanos),
        None => false,
    }
}

/// Lines per identity credited by the hunks.
pub open spec fn blame_map(hunks: Seq<BlameHunk>, now_nanos: int, max_age_nanos: Option<i128>) -> Map<
    Seq<char>,
    nat,
>
    decreases hunks.len(),
{
    if hunks.len() == 0 {
        Map::empty()
    } else {
        let m = blame_map(hunks.drop_last(), now_nanos, max_age_nanos);
        let h = hunks.last();
        if hunk_counted(h, now_nanos, max_age_nanos) {
            let a = h.email->Some_0@;
            m.insert(a, count_of(m, a) + h.lines as nat)
        } else {
            m
        }
    }
}

/// Lines credited by the hunks in all.
pub open spec fn blame_total(hunks: Seq<BlameHunk>, now_nanos: int, max_age_nanos: Option<i128>) -> nat
    decreases hunks.len(),
{
    if hunks.len() == 0 {
        0
    } else {
        blame_total(hunks.drop_last(), now_nanos, max_age_nanos) + if hunk_counted(
            hunks.last(),
            now_nanos,
            max_age_nanos,
        ) {
            hunks.last().lines as nat
        } else {
            0
        }
    }
}

proof fn lemma_blame_total_prefix(hunks: Seq<BlameHunk>, now_nanos: int, max_age_nanos: Option<i128>, i: int)
    requires
        0 <= i <= hunks.len(),
    ensures
        blame_total(hunks.take(i), now_nanos, max_age_nanos) <= blame_total(hunks, now_nanos, max_age_nanos),
    decreases hunks.len(),
{
    if i < hunks.len() {
        assert(hunks.take(i) == hunks.drop_last().take(i));
        lemma_blame_total_prefix(hunks.drop_last(), now_nanos, max_age_nanos, i);
    } else {
        assert(hunks.take(i) == hunks);
    }
}

/// Folds the blame of one file into a record. Hunks without an author identity, and, where a
/// maximum age is set, hunks older than it at `now_nanos` or whose time cannot be converted,
/// are left out of both the counts and the total.
/// `None` exactly where the credited lines do not fit in a `usize`.
pub fn contributions_from_hunks(hunks: &Vec<BlameHunk>, now_nanos: i64, max_age_nanos: Option<i128>) -> (r:
    Option<Contributions>)
    ensures
        r is Some <==> blame_total(hunks@, now_nanos as int, max_age_nanos) <= usize::MAX,
        r matches Some(c) ==> {
            &&& c.wf()
            &&& c.author_map() == blame_map(hunks@, now_nanos as int, max_age_nanos)
            &&& c.total_lines == blame_total(hunks@, now_nanos as int, max_age_nanos)
        },
{
    let ghost hs = hunks@;
    let mut c = Contributions::new();
    let mut i: usize = 0;
    proof {
        assert(hs.take(0) =~= Seq::<BlameHunk>::empty());
        assert(c.author_map() =~= blame_map(hs.take(0), now_nanos as int, max_age_nanos));
    }
    while i < hunks.len()
        invariant
            hs == hunks@,
            i <= hs.len(),
            c.wf(),
            c.author_map() == blame_map(hs.take(i as int), now_nanos as int, max_age_nanos),
            c.total_lines == blame_total(hs.take(i as int), now_nanos as int, max_age_nanos),
        decreases hs.len() - i,
    {
        let h = &hunks[i];
        proof {
            assert(hs.take(i as int + 1).drop_last() == hs.take(i as int));
            assert(hs.take(i as int + 1).last() == hs[i as int]);
            lemma_blame_total_prefix(hs, now_nanos as int, max_age_nanos, i as int + 1);
        }
        let recent = match max_age_nanos {
            None => true,
            Some(_) => match git_time_to_utc_seconds(h.seconds, h.offset_minutes) {
                Some(t) => !is_too_old(t, now_nanos, max_age_nanos),
                None => false,
            },
        };
        if recent {
            match &h.email {
                Some(email) => {
                    if h.lines > usize::MAX - c.total_lines {
                        return None;
                    }
                    c.add_lines(email.clone(), h.lines);
                },
                None => {},
            }
        }
        i = i + 1;
    }
    proof {
        assert(hs.take(hs.len() as int) == hs);
    }
    Some(c)
}

} // verus!
