use vstd::prelude::*;

verus! {

/// Priority of a task. A new task without an explicit priority tag gets
/// `Medium`; records recovered from the legacy on-disk schema get `Low`.
#[derive(Debug, Clone, Copy, PartialEq, Eq, Structural)]
pub enum Priority {
    Low,
    Medium,
    High,
}

/// Workflow state of a task. The "advance" move cycles
/// Todo -> Doing -> Done -> Todo.
#[derive(Debug, Clone, Copy, PartialEq, Eq, Structural)]
pub enum TaskStatus {
    Todo,
    Doing,
    Done,
}

/// A calendar date (no time of day), used by the due-date filter.
#[derive(Debug, Clone, Copy, PartialEq, Eq, Structural)]
pub struct Date {
    pub year: u16,
    pub month: u8,
    pub day: u8,
}

/// A calendar date with a time of day at minute precision.
#[derive(Debug, Clone, Copy, PartialEq, Eq, Structural)]
pub struct DateTime {
    pub year: u16,
    pub month: u8,
    pub day: u8,
    pub hour: u8,
    pub minute: u8,
}

pub open spec fn is_leap_year(y: int) -> bool {
    y % 4 == 0 && (y % 100 != 0 || y % 400 == 0)
}

pub open spec fn days_in_month(y: int, m: int) -> int {
    if m == 1 || m == 3 || m == 5 || m == 7 || m == 8 || m == 10 || m == 12 {
        31
    } else if m == 4 || m == 6 || m == 9 || m == 11 {
        30
    } else if is_leap_year(y) {
        29
    } else {
        28
    }
}

pub open spec fn date_valid(d: Date) -> bool {
    d.year <= 9999 && 1 <= d.month <= 12 && 1 <= d.day <= days_in_month(
        d.year as int,
        d.month as int,
    )
}

pub open spec fn dt_valid(dt: DateTime) -> bool {
    date_valid(dt.date()) && dt.hour < 24 && dt.minute < 60
}

impl DateTime {
    /// The date component, used when matching against a due-date filter.
    pub open spec fn date(self) -> Date {
        Date { year: self.year, month: self.month, day: self.day }
    }

    pub fn date_of(&self) -> (r: Date)
        ensures
            r == self.date(),
    {
        Date { year: self.year, month: self.month, day: self.day }
    }
}

pub open spec fn spec_next_status(s: TaskStatus) -> TaskStatus {
    match s {
        TaskStatus::Todo => TaskStatus::Doing,
        TaskStatus::Doing => TaskStatus::Done,
        TaskStatus::Done => TaskStatus::Todo,
    }
}

/// One step of the cyclic advance move on a task's status.
pub fn next_status(s: TaskStatus) -> (r: TaskStatus)
    ensures
        r == spec_next_status(s),
{
    match s {
        TaskStatus::Todo => TaskStatus::Doing,
        TaskStatus::Doing => TaskStatus::Done,
        TaskStatus::Done => TaskStatus::Todo,
    }
}

/// The advance move returns to the starting status after exactly three steps,
/// from any status: the Todo -> Doing -> Done cycle wraps and Done is not
/// terminal.
pub proof fn lemma_status_cycle(s: TaskStatus)
    ensures
        spec_next_status(spec_next_status(spec_next_status(s))) == s,
        spec_next_status(s) != s,
        spec_next_status(spec_next_status(s)) != s,
{
}

/// One tracked unit of work. `id` is set at creation and never reassigned;
/// absent category and due time are represented as `None`, never as an empty
/// string or a sentinel date.
pub struct Task {
    pub id: u128,
    pub description: Vec<char>,
    pub status: TaskStatus,
    pub category: Option<Vec<char>>,
    pub due_time: Option<DateTime>,
    pub priority: Priority,
}

/// Mathematical model of a `Task`: text fields as character sequences.
pub ghost struct TaskView {
    pub id: u128,
    pub description: Seq<char>,
    pub status: TaskStatus,
    pub category: Option<Seq<char>>,
    pub due_time: Option<DateTime>,
    pub priority: Priority,
}

impl View for Task {
    type V = TaskView;

    open spec fn view(&self) -> TaskView {
        TaskView {
            id: self.id,
            description: self.description@,
            status: self.status,
            category: match self.category {
                Some(c) => Some(c@),
                None => None,
            },
            due_time: self.due_time,
            priority: self.priority,
        }
    }
}

/// Copies a character vector; the copy has the same view.
pub fn copy_chars(s: &Vec<char>) -> (r: Vec<char>)
    ensures
        r@ == s@,
{
    let mut r: Vec<char> = Vec::new();
    let mut i: usize = 0;
    while i < s.len()
        invariant
            i <= s.len(),
            r@ == s@.subrange(0, i as int),
        decreases s.len() - i,
    {
        r.push(s[i]);
        i += 1;
        assert(r@ =~= s@.subrange(0, i as int));
    }
    assert(r@ =~= s@);
    r
}

impl Task {
    /// Copies a task; the copy has the same view (same id, same fields).
    pub fn duplicate(&self) -> (r: Task)
        ensures
            r@ == self@,
    {
        let category = match &self.category {
            Some(c) => Some(copy_chars(c)),
            None => None,
        };
        Task {
            id: self.id,
            description: copy_chars(&self.description),
            status: self.status,
            category,
            due_time: self.due_time,
            priority: self.priority,
        }
    }
}

} // verus!
