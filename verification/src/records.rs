//! The record model: a raw leave record, an employee directory entry, and
//! the read-only combination of the two used for presentation, together
//! with the currency test and the return-date calculator.

use vstd::prelude::*;

use crate::date::{
    date_le, day_number, lemma_day_number_injective, lemma_return_date_not_weekend,
    max_day_number, return_gap, spec_return_date, weekday, Date, FRIDAY, SATURDAY, SUNDAY,
};
use crate::text::{after_first_space, first_token, split_at_first_space};

verus! {

/// One reported continuous span of absence for an employee. A single
/// employee may have several overlapping or fragmented records.
#[derive(Debug)]
pub struct TimeOff {
    pub employee_id: u64,
    pub name: String,
    pub start: Date,
    pub end: Date,
}

impl Clone for TimeOff {
    fn clone(&self) -> (r: Self)
        ensures
            r == *self,
    {
        TimeOff {
            employee_id: self.employee_id,
            name: self.name.clone(),
            start: self.start,
            end: self.end,
        }
    }
}

impl TimeOff {
    /// Both boundary dates are well-formed calendar dates.
    pub open spec fn dates_valid(self) -> bool {
        self.start.valid() && self.end.valid()
    }

    /// `date` falls within this period, boundaries included: a period is
    /// current exactly from its start date through its end date.
    pub open spec fn spec_includes(self, date: Date) -> bool {
        date_le(self.start, date) && date_le(date, self.end)
    }

    /// Whether `date` falls within this period, boundaries included.
    pub fn includes(&self, date: &Date) -> (r: bool)
        requires
            self.dates_valid(),
            date.valid(),
        ensures
            r == self.spec_includes(*date),
    {
        self.start.on_or_before(date) && date.on_or_before(&self.end)
    }

    /// The date the employee is expected back: the first working day
    /// strictly after the period's end, skipping a Saturday/Sunday weekend.
    pub fn return_date(&self) -> (r: Date)
        requires
            self.dates_valid(),
            day_number(self.end) + return_gap(self.end) <= max_day_number(),
        ensures
            r.valid(),
            day_number(r) == day_number(self.end) + return_gap(self.end),
            r == spec_return_date(self.end),
            weekday(r) != SATURDAY as int,
            weekday(r) != SUNDAY as int,
    {
        let wd = self.end.weekday_from_monday();
        let r = if wd >= FRIDAY {
            self.end.add_days(7 - wd)
        } else {
            self.end.add_days(1)
        };
        proof {
            lemma_return_date_not_weekend(self.end, r);
            assert(r.valid() && day_number(r) == day_number(self.end) + return_gap(self.end));
            assert(exists|x: Date|
                x.valid() && day_number(x) == day_number(self.end) + return_gap(self.end));
            let c = spec_return_date(self.end);
            assert(c.valid() && day_number(c) == day_number(self.end) + return_gap(self.end));
            lemma_day_number_injective(r, c);
        }
        r
    }
}

/// A directory entry for an employee; the source may withhold any field.
#[derive(Debug)]
pub struct EmployeeInfo {
    pub first_name: Option<String>,
    pub last_name: Option<String>,
    pub preferred_name: Option<String>,
    pub department: Option<String>,
}

fn clone_opt_string(s: &Option<String>) -> (r: Option<String>)
    ensures
        r == *s,
{
    match s {
        Some(v) => Some(v.clone()),
        None => None,
    }
}

impl Clone for EmployeeInfo {
    fn clone(&self) -> (r: Self)
        ensures
            r == *self,
    {
        EmployeeInfo {
            first_name: clone_opt_string(&self.first_name),
            last_name: clone_opt_string(&self.last_name),
            preferred_name: clone_opt_string(&self.preferred_name),
            department: clone_opt_string(&self.department),
        }
    }
}

/// A merged leave period together with the employee's directory entry,
/// when the directory holds one.
#[derive(Debug)]
pub struct TimeOffWithEmployeeInfo {
    pub time_off: TimeOff,
    pub employee_info: Option<EmployeeInfo>,
}

impl Clone for TimeOffWithEmployeeInfo {
    fn clone(&self) -> (r: Self)
        ensures
            r == *self,
    {
        TimeOffWithEmployeeInfo {
            time_off: self.time_off.clone(),
            employee_info: match &self.employee_info {
                Some(info) => Some(info.clone()),
                None => None,
            },
        }
    }
}

impl TimeOffWithEmployeeInfo {
    /// Fallback first name: the raw record's free-text name up to its first
    /// space.
    pub open spec fn spec_first_name_from_time_off(self) -> Seq<char> {
        first_token(self.time_off.name@)
    }

    /// Preferred name from the directory, else the directory first name,
    /// else the fallback from the raw record.
    pub open spec fn spec_first_display_name(self) -> Seq<char> {
        match self.employee_info {
            Some(info) => match info.preferred_name {
                Some(p) => p@,
                None => match info.first_name {
                    Some(f) => f@,
                    None => first_token(self.time_off.name@),
                },
            },
            None => first_token(self.time_off.name@),
        }
    }

    /// Last name from the directory, else the raw record's free-text name
    /// after its first space.
    pub open spec fn spec_last_display_name(self) -> Seq<char> {
        match self.employee_info {
            Some(info) => match info.last_name {
                Some(l) => l@,
                None => after_first_space(self.time_off.name@),
            },
            None => after_first_space(self.time_off.name@),
        }
    }

    /// The computed display name: first name, one space, last name.
    pub open spec fn spec_display_name(self) -> Seq<char> {
        self.spec_first_display_name() + " "@ + self.spec_last_display_name()
    }

    pub fn first_name_from_time_off(&self) -> (r: String)
        ensures
            r@ == self.spec_first_name_from_time_off(),
    {
        let (head, _tail) = split_at_first_space(self.time_off.name.as_str());
        head
    }

    pub fn first_display_name(&self) -> (r: String)
        ensures
            r@ == self.spec_first_display_name(),
    {
        match &self.employee_info {
            Some(info) => match &info.preferred_name {
                Some(p) => p.clone(),
                None => match &info.first_name {
                    Some(f) => f.clone(),
                    None => self.first_name_from_time_off(),
                },
            },
            None => self.first_name_from_time_off(),
        }
    }

    pub fn last_display_name(&self) -> (r: String)
        ensures
            r@ == self.spec_last_display_name(),
    {
        match &self.employee_info {
            Some(info) => match &info.last_name {
                Some(l) => l.clone(),
                None => {
                    let (_head, tail) = split_at_first_space(self.time_off.name.as_str());
                    tail
                },
            },
            None => {
                let (_head, tail) = split_at_first_space(self.time_off.name.as_str());
                tail
            },
        }
    }

    pub fn display_name(&self) -> (r: String)
        ensures
            r@ == self.spec_display_name(),
    {
        let mut s = self.first_display_name();
        s.append(" ");
        let last = self.last_display_name();
        s.append(last.as_str());
        s
    }
}

} // verus!
