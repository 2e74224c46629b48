//! The task entity: one user-recorded item, its due date, and its canonical
//! display rendering.

use vstd::prelude::*;

use crate::digits::push_digits;
use crate::digits::spec_digits;
use crate::strings::chars_to_string;
use crate::strings::push_str_chars;

verus! {

/// Errors the organizer core can report. All of them are recoverable: nothing
/// in this library panics or aborts.
#[derive(Debug, PartialEq, Eq, Clone, Copy)]
pub enum OrganizerError {
    /// A mutation referenced a task identity that is not in the store.
    NotFound,
    /// A year/month/day triple does not name a real calendar date.
    InvalidDate,
}

/// A calendar date (year, month, day), no time component.
///
/// Values are only handed out by [`DueDate::new`], which rejects triples that
/// do not name a real date, so a `DueDate` held by a task always satisfies
/// [`DueDate::is_valid`].
#[derive(Debug, PartialEq, Eq, Clone, Copy, Structural)]
pub struct DueDate {
    pub year: u32,
    pub month: u8,
    pub day: u8,
}

/// Whether `year` is a leap year (Gregorian rule).
pub open spec fn spec_is_leap_year(year: u32) -> bool {
    (year % 4 == 0 && year % 100 != 0) || year % 400 == 0
}

/// The number of days in `month` of `year`; 0 for a month outside 1..=12.
pub open spec fn spec_days_in_month(year: u32, month: u8) -> u8 {
    if month == 1 || month == 3 || month == 5 || month == 7 || month == 8 || month == 10
        || month == 12 {
        31
    } else if month == 4 || month == 6 || month == 9 || month == 11 {
        30
    } else if month == 2 {
        if spec_is_leap_year(year) {
            29
        } else {
            28
        }
    } else {
        0
    }
}

impl DueDate {
    /// A real calendar date: month in range and day in range for that month.
    pub open spec fn is_valid(self) -> bool {
        1 <= self.month <= 12 && 1 <= self.day <= spec_days_in_month(self.year, self.month)
    }

    /// Builds a date, rejecting triples that name no real calendar date.
    pub fn new(year: u32, month: u8, day: u8) -> (r: Result<DueDate, OrganizerError>)
        ensures
            (DueDate { year, month, day }).is_valid() <==> r is Ok,
            r matches Ok(d) ==> d == (DueDate { year, month, day }),
            r matches Err(e) ==> e == OrganizerError::InvalidDate,
    {
        let candidate = DueDate { year, month, day };
        if 1 <= month && month <= 12 && 1 <= day && day <= days_in_month(year, month) {
            Ok(candidate)
        } else {
            Err(OrganizerError::InvalidDate)
        }
    }
}

/// Executable twin of [`spec_days_in_month`].
pub fn days_in_month(year: u32, month: u8) -> (r: u8)
    ensures
        r == spec_days_in_month(year, month),
{
    if month == 1 || month == 3 || month == 5 || month == 7 || month == 8 || month == 10
        || month == 12 {
        31
    } else if month == 4 || month == 6 || month == 9 || month == 11 {
        30
    } else if month == 2 {
        if (year % 4 == 0 && year % 100 != 0) || year % 400 == 0 {
            29
        } else {
            28
        }
    } else {
        0
    }
}

/// One task: what the user typed, grouping labels, optional due date,
/// done flag and priority.
pub struct Task {
    pub name: String,
    pub category: String,
    pub sub_category: String,
    pub due: Option<DueDate>,
    pub done: bool,
    pub priority: u8,
}

/// The mathematical value of a [`Task`]: every text field as a sequence of
/// characters, everything else as a plain value.
pub struct TaskView {
    pub name: Seq<char>,
    pub category: Seq<char>,
    pub sub_category: Seq<char>,
    pub due: Option<DueDate>,
    pub done: bool,
    pub priority: u8,
}

impl View for Task {
    type V = TaskView;

    open spec fn view(&self) -> TaskView {
        TaskView {
            name: self.name@,
            category: self.category@,
            sub_category: self.sub_category@,
            due: self.due,
            done: self.done,
            priority: self.priority,
        }
    }
}

impl Clone for Task {
    fn clone(&self) -> (r: Task)
        ensures
            r@ == self@,
    {
        Task {
            name: self.name.clone(),
            category: self.category.clone(),
            sub_category: self.sub_category.clone(),
            due: self.due,
            done: self.done,
            priority: self.priority,
        }
    }
}

impl Task {
    /// A fresh task with the given name: no category, no sub-category,
    /// no due date, not done, priority 0.
    pub fn new(name: String) -> (r: Task)
        ensures
            r@.name == name@,
            r@.category.len() == 0,
            r@.sub_category.len() == 0,
            r@.due is None,
            !r@.done,
            r@.priority == 0,
    {
        Task {
            name,
            category: String::new(),
            sub_category: String::new(),
            due: None,
            done: false,
            priority: 0,
        }
    }

    /// Canonical display rendering; see [`spec_formatted`].
    pub fn formatted(&self, full: bool) -> (r: String)
        ensures
            r@ == spec_formatted(self@, full),
    {
        if !full {
            let mut out: Vec<char> = Vec::new();
            push_str_chars(self.name.as_str(), &mut out);
            assert(out@ =~= self@.name);
            chars_to_string(&out)
        } else {
            let mut out: Vec<char> = Vec::new();
            out.push('[');
            if self.done {
                out.push('x');
            } else {
                out.push(' ');
            }
            out.push(']');
            out.push(' ');
            assert(out@ =~= done_marker(self@.done));
            push_str_chars(self.name.as_str(), &mut out);
            if !self.sub_category.as_str().is_empty() {
                out.push(' ');
                out.push('(');
                push_str_chars(self.sub_category.as_str(), &mut out);
                out.push(')');
            }
            out.push(' ');
            out.push('!');
            push_digits(self.priority as u64, &mut out);
            assert(out@ =~= spec_formatted(self@, true));
            chars_to_string(&out)
        }
    }
}

/// The done-marker glyph: `[x] ` for a done task, `[ ] ` otherwise.
pub open spec fn done_marker(done: bool) -> Seq<char> {
    if done {
        seq!['[', 'x', ']', ' ']
    } else {
        seq!['[', ' ', ']', ' ']
    }
}

/// The canonical rendering of a task. With `full` false it is just the name.
/// With `full` true it is the done marker, the name, the sub-category in
/// parentheses when non-empty, and the priority after an exclamation mark.
pub open spec fn spec_formatted(t: TaskView, full: bool) -> Seq<char> {
    if !full {
        t.name
    } else {
        done_marker(t.done) + t.name + (if t.sub_category.len() > 0 {
            seq![' ', '('] + t.sub_category + seq![')']
        } else {
            Seq::<char>::empty()
        }) + seq![' ', '!'] + spec_digits(t.priority as nat)
    }
}

} // verus!
