//! Sprint model: IDs, states, schedules, and forward-only state transitions.
//!
//! Timestamps are nanoseconds since the Unix epoch (UTC); the calendar day of a timestamp is the
//! number of whole days since the epoch, rounded down.
use crate::error::Error;
use crate::text::{blank, byte_is_alnum, is_ascii_alnum, is_blank, text_eq};
use vstd::prelude::*;

verus! {

/// Characters allowed in a sprint ID: ASCII letters, digits, `-`, and `_`.
pub open spec fn is_slug_char(c: char) -> bool {
    ('0' <= c <= '9') || ('A' <= c <= 'Z') || ('a' <= c <= 'z') || c == '-' || c == '_'
}

/// A sprint ID is a non-empty path-safe slug.
pub open spec fn is_sprint_slug(s: Seq<char>) -> bool {
    s.len() > 0 && forall|i: int| 0 <= i < s.len() ==> is_slug_char(#[trigger] s[i])
}

/// Stable identifier for a sprint, also used in file names.
#[derive(Debug, Clone, PartialEq, Eq, Hash)]
pub struct SprintId(String);

impl View for SprintId {
    type V = Seq<char>;

    closed spec fn view(&self) -> Seq<char> {
        self.0@
    }
}

fn slug_ok(value: &str) -> (r: bool)
    ensures
        r == is_sprint_slug(value@),
{
    if value.unicode_len() == 0 {
        return false;
    }
    if !value.is_ascii() {
        proof {
            let k = choose|k: int| 0 <= k < value@.len() && !('\0' <= #[trigger] value@[k] <= '\u{7f}');
            assert(!is_slug_char(value@[k]));
        }
        return false;
    }
    let n = value.unicode_len();
    for i in 0..n
        invariant
            n == value@.len(),
            value.is_ascii(),
            forall|j: int| 0 <= j < i ==> is_slug_char(#[trigger] value@[j]),
    {
        let b = value.get_ascii(i);
        proof {
            assert('\0' <= value@[i as int] <= '\u{7f}');
        }
        if !(byte_is_alnum(b) || b == 45u8 || b == 95u8) {
            return false;
        }
    }
    true
}

impl SprintId {
    /// Validate a slug and create a sprint ID.
    ///
    /// Fails with [`Error::InvalidSprintId`] when the value is empty or holds anything other than
    /// ASCII letters, digits, `-`, or `_`.
    pub fn new(value: String) -> (r: Result<SprintId, Error>)
        ensures
            match r {
                Ok(id) => is_sprint_slug(value@) && id@ == value@,
                Err(e) => !is_sprint_slug(value@) && e == Error::InvalidSprintId(value),
            },
    {
        if slug_ok(value.as_str()) {
            Ok(SprintId(value))
        } else {
            Err(Error::InvalidSprintId(value))
        }
    }

    /// Return the ID string.
    pub fn as_str(&self) -> (s: &str)
        ensures
            s@ == self@,
    {
        self.0.as_str()
    }

    /// A copy of this ID.
    pub fn copy(&self) -> (r: SprintId)
        ensures
            r == *self,
    {
        SprintId(self.0.clone())
    }
}

impl std::str::FromStr for SprintId {
    type Err = Error;

    fn from_str(s: &str) -> (r: Result<SprintId, Error>)
        ensures
            match r {
                Ok(id) => is_sprint_slug(s@) && id@ == s@,
                Err(e) => !is_sprint_slug(s@) && (e matches Error::InvalidSprintId(t) && t@ == s@),
            },
    {
        SprintId::new(s.to_owned())
    }
}

/// Sprint state. Transitions are allowed only from `planned` to `active` to `closed`.
#[derive(Debug, Clone, Copy, PartialEq, Eq, Structural)]
pub enum SprintState {
    /// Planned and not yet started; the state after creation.
    Planned,
    /// In progress.
    Active,
    /// Finished and closed.
    Closed,
}

impl SprintState {
    /// The lowercase name used for persistence.
    pub open spec fn name(self) -> Seq<char> {
        match self {
            SprintState::Planned => "planned"@,
            SprintState::Active => "active"@,
            SprintState::Closed => "closed"@,
        }
    }

    /// Return the lowercase string used for persistence.
    pub fn as_str(&self) -> (s: &'static str)
        ensures
            s@ == self.name(),
    {
        match self {
            SprintState::Planned => "planned",
            SprintState::Active => "active",
            SprintState::Closed => "closed",
        }
    }

    /// Parse a persisted state name.
    ///
    /// Fails with [`Error::InvalidSprintState`] for anything but `planned`, `active`, or `closed`.
    pub fn parse(s: &str) -> (r: Result<SprintState, Error>)
        ensures
            match r {
                Ok(state) => state.name() == s@,
                Err(e) => (forall|st: SprintState| #[trigger] st.name() != s@) && (
                e matches Error::InvalidSprintState(t) && t@ == s@),
            },
    {
        if text_eq(s, "planned") {
            Ok(SprintState::Planned)
        } else if text_eq(s, "active") {
            Ok(SprintState::Active)
        } else if text_eq(s, "closed") {
            Ok(SprintState::Closed)
        } else {
            Err(Error::InvalidSprintState(s.to_owned()))
        }
    }
}


impl std::str::FromStr for SprintState {
    type Err = Error;

    fn from_str(s: &str) -> (r: Result<SprintState, Error>)
        ensures
            match r {
                Ok(state) => state.name() == s@,
                Err(e) => (forall|st: SprintState| #[trigger] st.name() != s@) && (
                e matches Error::InvalidSprintState(t) && t@ == s@),
            },
    {
        SprintState::parse(s)
    }
}

/// The calendar day (days since the Unix epoch, rounded down) of a timestamp, in nanoseconds
/// since the epoch.
pub open spec fn day_of(ts: i64) -> int {
    ts as int / 86_400_000_000_000
}

/// The calendar day of a timestamp.
pub fn day_number(ts: i64) -> (d: i64)
    ensures
        d == day_of(ts),
{
    let shifted: i128 = (ts as i128) + 9_223_372_800_000_000_000i128;
    assert(shifted >= 0);
    let q: i128 = shifted / 86_400_000_000_000i128;
    let d: i128 = q - 106752i128;
    assert(d == day_of(ts)) by (nonlinear_arith)
        requires
            shifted == ts + 9_223_372_800_000_000_000,
            shifted >= 0,
            q == shifted / 86_400_000_000_000,
            d == q - 106752,
            9_223_372_800_000_000_000 == 86_400_000_000_000 * 106752,
    ;
    assert(-106752 <= d <= 106752) by (nonlinear_arith)
        requires
            d == ts as int / 86_400_000_000_000,
            i64::MIN <= ts <= i64::MAX,
    ;
    d as i64
}


/// A sprint that groups PBIs into a time-boxed work period.
///
/// `start` and `end` are planned times independent of state transitions; editing sets the schedule
/// while [`Sprint::start`] and [`Sprint::close`] advance the state.
#[derive(Debug, Clone, PartialEq)]
pub struct Sprint {
    /// Stable identifier.
    pub id: SprintId,
    /// Display title.
    pub title: String,
    /// Sprint goal (free description, multiple lines allowed).
    pub goal: String,
    /// Planned start time, when set.
    pub start: Option<i64>,
    /// Planned end time, when set.
    pub end: Option<i64>,
    /// Holidays within the period, deducted from the inclusive calendar-day count.
    pub holiday_days: Option<u32>,
    /// Whether the goal was achieved, once that has been evaluated.
    pub goal_achieved: Option<bool>,
    /// Current state.
    pub state: SprintState,
    /// Creation time.
    pub created: i64,
    /// Last update time.
    pub updated: i64,
    /// When the sprint was closed; `None` until then.
    pub closed_at: Option<i64>,
    /// The work left unfinished when the sprint was closed (zero until then).
    pub spillover: SprintSpillover,
}

/// The work a sprint did not finish: points (unestimated items count zero), items, and items
/// without an estimate; each sum saturates at the 32-bit limit.
#[derive(Debug, Clone, Copy, PartialEq, Eq, Default, Structural)]
pub struct SprintSpillover {
    pub points: u32,
    pub items: u32,
    pub unestimated_items: u32,
}

/// A state change allowed by the forward-only workflow.
pub open spec fn allowed_transition(from: SprintState, to: SprintState) -> bool {
    (from == SprintState::Planned && to == SprintState::Active) || (from == SprintState::Active
        && to == SprintState::Closed)
}

/// The inclusive number of calendar days from the day of `start` to the day of `end`.
pub open spec fn calendar_day_count(start: i64, end: i64) -> int {
    day_of(end) - day_of(start) + 1
}

/// What counting the calendar days of a sprint's period gives.
pub open spec fn calendar_days_result(s: Sprint) -> Result<u32, Error> {
    match (s.start, s.end) {
        (Some(a), Some(b)) => if a > b || calendar_day_count(a, b) > u32::MAX {
            Err(Error::InvalidSprintPeriod { start: day_of(a) as i64, end: day_of(b) as i64 })
        } else {
            Ok(calendar_day_count(a, b) as u32)
        },
        _ => Err(Error::SprintCapacityPeriodUnset(s.id)),
    }
}

/// Every timestamp falls on a day within 106752 days of the epoch.
pub proof fn lemma_day_range(ts: i64)
    ensures
        -106752 <= day_of(ts) <= 106752,
{
    assert(-106752 <= ts as int / 86_400_000_000_000 <= 106752) by (nonlinear_arith)
        requires
            i64::MIN <= ts <= i64::MAX,
    ;
}

/// Timestamps later in time fall on the same or a later calendar day.
proof fn lemma_day_monotone(a: i64, b: i64)
    requires
        a <= b,
    ensures
        day_of(a) <= day_of(b),
{
    assert(a as int / 86_400_000_000_000 <= b as int / 86_400_000_000_000) by (nonlinear_arith)
        requires
            a <= b,
    ;
}

impl Sprint {
    /// Create a sprint in [`SprintState::Planned`] with an empty goal and no schedule.
    ///
    /// Fails with [`Error::EmptySprintTitle`] when `title` is empty or only whitespace.
    pub fn new(id: SprintId, title: String, now: i64) -> (r: Result<Sprint, Error>)
        ensures
            match r {
                Ok(s) => {
                    &&& !is_blank(title@)
                    &&& s.id@ == id@
                    &&& s.title@ == title@
                    &&& s.goal@.len() == 0
                    &&& s.start.is_none() && s.end.is_none() && s.holiday_days.is_none()
                    &&& s.goal_achieved.is_none()
                    &&& s.state == SprintState::Planned
                    &&& s.created == now && s.updated == now
                    &&& s.closed_at.is_none()
                    &&& s.spillover == SprintSpillover { points: 0, items: 0, unestimated_items: 0 }
                },
                Err(e) => is_blank(title@) && e == Error::EmptySprintTitle,
            },
    {
        if blank(title.as_str()) {
            return Err(Error::EmptySprintTitle);
        }
        Ok(Sprint {
            id,
            title,
            goal: String::new(),
            start: None,
            end: None,
            holiday_days: None,
            goal_achieved: None,
            state: SprintState::Planned,
            created: now,
            updated: now,
            closed_at: None,
            spillover: SprintSpillover { points: 0, items: 0, unestimated_items: 0 },
        })
    }

    /// Update the editable sprint details and refresh `updated`.
    ///
    /// Fields given as `None` stay unchanged. A blank title or an inverted period is rejected
    /// before any field changes. Fails with [`Error::NothingToUpdate`] when no field is supplied.
    pub fn update_details(
        &mut self,
        title: Option<String>,
        goal: Option<String>,
        period: Option<(i64, i64)>,
        now: i64,
    ) -> (r: Result<(), Error>)
        ensures
            title.is_none() && goal.is_none() && period.is_none() ==> r == Err::<(), Error>(
                Error::NothingToUpdate,
            ),
            !(title.is_none() && goal.is_none() && period.is_none()) ==> (r == Err::<(), Error>(
                Error::EmptySprintTitle,
            ) <==> (title.is_some() && is_blank(title->0@))),
            !(title.is_none() && goal.is_none() && period.is_none()) && !(title.is_some()
                && is_blank(title->0@)) ==> match period {
                Some((a, b)) if a > b => r == Err::<(), Error>(
                    Error::InvalidSprintPeriod { start: day_of(a) as i64, end: day_of(b) as i64 },
                ),
                _ => r.is_ok(),
            },
            r.is_err() ==> *final(self) == *old(self),
            r.is_ok() ==> {
                &&& final(self).title@ == (match title {
                    Some(t) => t@,
                    None => old(self).title@,
                })
                &&& final(self).goal@ == (match goal {
                    Some(g) => g@,
                    None => old(self).goal@,
                })
                &&& final(self).start == (match period {
                    Some((a, _)) => Some(a),
                    None => old(self).start,
                })
                &&& final(self).end == (match period {
                    Some((_, b)) => Some(b),
                    None => old(self).end,
                })
                &&& final(self).updated == now
                &&& final(self).id == old(self).id
                &&& final(self).holiday_days == old(self).holiday_days
                &&& final(self).goal_achieved == old(self).goal_achieved
                &&& final(self).state == old(self).state
                &&& final(self).created == old(self).created
                &&& final(self).closed_at == old(self).closed_at
                &&& final(self).spillover == old(self).spillover
            },
    {
        if title.is_none() && goal.is_none() && period.is_none() {
            return Err(Error::NothingToUpdate);
        }
        match &title {
            Some(t) => {
                if blank(t.as_str()) {
                    return Err(Error::EmptySprintTitle);
                }
            },
            None => {},
        }
        match period {
            Some((a, b)) => {
                if a > b {
                    return Err(
                        Error::InvalidSprintPeriod { start: day_number(a), end: day_number(b) },
                    );
                }
            },
            None => {},
        }
        match title {
            Some(t) => {
                self.title = t;
            },
            None => {},
        }
        match goal {
            Some(g) => {
                self.goal = g;
            },
            None => {},
        }
        match period {
            Some((a, b)) => {
                self.start = Some(a);
                self.end = Some(b);
            },
            None => {},
        }
        self.updated = now;
        Ok(())
    }

    /// Start a sprint (`planned` → `active`) and set `updated`.
    ///
    /// A planned sprint with a blank goal is rejected with [`Error::EmptySprintGoal`]; any other
    /// starting state is rejected with [`Error::InvalidSprintTransition`]. Nothing changes on error.
    pub fn start(&mut self, now: i64) -> (r: Result<(), Error>)
        ensures
            old(self).state == SprintState::Planned && is_blank(old(self).goal@) ==> r == Err::<
                (),
                Error,
            >(Error::EmptySprintGoal),
            old(self).state != SprintState::Planned ==> r == Err::<(), Error>(
                Error::InvalidSprintTransition { from: old(self).state, to: SprintState::Active },
            ),
            old(self).state == SprintState::Planned && !is_blank(old(self).goal@) ==> r.is_ok(),
            r.is_err() ==> *final(self) == *old(self),
            r.is_ok() ==> *final(self) == (Sprint {
                state: SprintState::Active,
                updated: now,
                ..*old(self)
            }),
    {
        if self.state == SprintState::Planned && blank(self.goal.as_str()) {
            return Err(Error::EmptySprintGoal);
        }
        self.transition(SprintState::Active, now)
    }

    /// Close a sprint (`active` → `closed`) and set `updated`.
    ///
    /// Any other state is rejected with [`Error::InvalidSprintTransition`] without changes.
    pub fn close(&mut self, now: i64) -> (r: Result<(), Error>)
        ensures
            old(self).state == SprintState::Active ==> r.is_ok() && *final(self) == (Sprint {
                state: SprintState::Closed,
                updated: now,
                ..*old(self)
            }),
            old(self).state != SprintState::Active ==> r == Err::<(), Error>(
                Error::InvalidSprintTransition { from: old(self).state, to: SprintState::Closed },
            ) && *final(self) == *old(self),
    {
        self.transition(SprintState::Closed, now)
    }

    /// Apply a forward-only state transition: `planned → active → closed`.
    fn transition(&mut self, to: SprintState, now: i64) -> (r: Result<(), Error>)
        ensures
            allowed_transition(old(self).state, to) ==> r.is_ok() && *final(self) == (Sprint {
                state: to,
                updated: now,
                ..*old(self)
            }),
            !allowed_transition(old(self).state, to) ==> r == Err::<(), Error>(
                Error::InvalidSprintTransition { from: old(self).state, to },
            ) && *final(self) == *old(self),
    {
        let allowed = match (self.state, to) {
            (SprintState::Planned, SprintState::Active) => true,
            (SprintState::Active, SprintState::Closed) => true,
            _ => false,
        };
        if !allowed {
            return Err(Error::InvalidSprintTransition { from: self.state, to });
        }
        self.state = to;
        self.updated = now;
        Ok(())
    }

    /// Count the calendar days of the planned period, inclusively.
    ///
    /// Fails with [`Error::SprintCapacityPeriodUnset`] when either end is unset and with
    /// [`Error::InvalidSprintPeriod`] when the period is inverted or too long to count.
    pub fn calendar_days(&self) -> (r: Result<u32, Error>)
        ensures
            r == calendar_days_result(*self),
    {
        match (self.start, self.end) {
            (Some(a), Some(b)) => {
                if a > b {
                    return Err(
                        Error::InvalidSprintPeriod { start: day_number(a), end: day_number(b) },
                    );
                }
                let da = day_number(a);
                let db = day_number(b);
                proof {
                    lemma_day_monotone(a, b);
                }
                let days: i64 = db - da + 1;
                if days > 4294967295i64 {
                    return Err(Error::InvalidSprintPeriod { start: da, end: db });
                }
                Ok(days as u32)
            },
            _ => Err(Error::SprintCapacityPeriodUnset(self.id.copy())),
        }
    }

    /// Record the holidays used for capacity, after checking them against the planned period.
    ///
    /// Fails like [`Sprint::calendar_days`] when the period cannot be counted, and with
    /// [`Error::InvalidSprintHolidays`] when there are more holidays than calendar days. Nothing
    /// changes on error.
    pub fn set_holidays(&mut self, holiday_days: u32) -> (r: Result<(), Error>)
        ensures
            match calendar_days_result(*old(self)) {
                Err(e) => r == Err::<(), Error>(e) && *final(self) == *old(self),
                Ok(days) => if holiday_days > days {
                    r == Err::<(), Error>(
                        Error::InvalidSprintHolidays { holidays: holiday_days, calendar_days: days },
                    ) && *final(self) == *old(self)
                } else {
                    r.is_ok() && *final(self) == (Sprint {
                        holiday_days: Some(holiday_days),
                        ..*old(self)
                    })
                },
            },
    {
        let days = match self.calendar_days() {
            Ok(d) => d,
            Err(e) => {
                return Err(e);
            },
        };
        if holiday_days > days {
            return Err(Error::InvalidSprintHolidays { holidays: holiday_days, calendar_days: days });
        }
        self.holiday_days = Some(holiday_days);
        Ok(())
    }

    /// Working days: inclusive calendar days minus holidays, when the period and the holidays are
    /// set and the holidays fit in the period.
    pub fn working_days(&self) -> (r: Option<u32>)
        ensures
            r == match (calendar_days_result(*self), self.holiday_days) {
                (Ok(days), Some(h)) => if h <= days {
                    Some((days - h) as u32)
                } else {
                    None
                },
                _ => None,
            },
    {
        let days = match self.calendar_days() {
            Ok(d) => d,
            Err(_) => {
                return None;
            },
        };
        match self.holiday_days {
            Some(h) => days.checked_sub(h),
            None => None,
        }
    }
}


/// The sprint invariants: a non-blank title, a period given at both ends or at neither and not
/// inverted, a goal on an active sprint, and no goal outcome without a goal.
pub open spec fn sprint_check(s: Sprint) -> Result<(), Error> {
    if is_blank(s.title@) {
        Err(Error::EmptySprintTitle)
    } else {
        match (s.start, s.end) {
            (Some(a), Some(b)) if a > b => Err(
                Error::InvalidSprintPeriod { start: day_of(a) as i64, end: day_of(b) as i64 },
            ),
            (Some(_), None) | (None, Some(_)) => Err(Error::SprintPeriodIncomplete(s.id)),
            _ => if s.state == SprintState::Active && is_blank(s.goal@) {
                Err(Error::EmptySprintGoal)
            } else if s.goal_achieved is Some && is_blank(s.goal@) {
                Err(Error::GoalOutcomeWithoutGoal(s.id))
            } else {
                Ok(())
            },
        }
    }
}

impl Sprint {
    /// Check the sprint invariants that records read from outside must meet: a non-blank title,
    /// a two-sided non-inverted period (or none), a goal on an active sprint, and no goal outcome
    /// recorded against a blank goal.
    pub fn validate(&self) -> (r: Result<(), Error>)
        ensures
            r == sprint_check(*self),
    {
        if blank(self.title.as_str()) {
            return Err(Error::EmptySprintTitle);
        }
        match (self.start, self.end) {
            (Some(a), Some(b)) => {
                if a > b {
                    return Err(Error::InvalidSprintPeriod { start: day_number(a), end: day_number(b) });
                }
            },
            (None, None) => {},
            _ => {
                return Err(Error::SprintPeriodIncomplete(self.id.copy()));
            },
        }
        let no_goal = blank(self.goal.as_str());
        if self.state == SprintState::Active && no_goal {
            return Err(Error::EmptySprintGoal);
        }
        if self.goal_achieved.is_some() && no_goal {
            return Err(Error::GoalOutcomeWithoutGoal(self.id.copy()));
        }
        Ok(())
    }
}
} // verus!
