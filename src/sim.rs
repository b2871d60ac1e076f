use vstd::prelude::*;

use crate::text::{
    chars_of, decimal_digits, number_field, parse_number, push_decimal, push_str, split_commas,
    split_on, string_from_chars, trim, trim_chars,
};
use crate::ProgramError;

verus! {

/// Which field of a process governs its comparisons.
#[derive(Debug, Clone, Copy, PartialEq, Eq, Structural)]
pub enum OrderKind {
    Burst,
    Priority,
}

/// One schedulable unit and its accumulated timing statistics.
#[derive(Debug)]
pub struct SimProcess {
    pub name: String,
    pub priority: u8,
    pub remaining_burst: u32,
    pub running_time: u32,
    pub wait: u32,
    pub order: OrderKind,
}

/// The record `p` after it was dispatched at time `t` and ran for `b` time units.
pub open spec fn ran(p: SimProcess, t: int, b: int) -> SimProcess {
    SimProcess {
        wait: (t - p.running_time) as u32,
        running_time: (p.running_time + b) as u32,
        remaining_burst: (p.remaining_burst - b) as u32,
        ..p
    }
}

impl SimProcess {
    /// The value that comparisons of this record look at, as its order key selects.
    pub open spec fn key(&self) -> int {
        match self.order {
            OrderKind::Burst => self.remaining_burst as int,
            OrderKind::Priority => self.priority as int,
        }
    }

    /// A fresh record: nothing has run and nothing has waited yet.
    pub fn new(name: String, priority: u8, burst: u32, order: OrderKind) -> (r: Self)
        ensures
            r.name == name,
            r.priority == priority,
            r.remaining_burst == burst,
            r.running_time == 0,
            r.wait == 0,
            r.order == order,
    {
        SimProcess { name, priority, remaining_burst: burst, running_time: 0, wait: 0, order }
    }

    /// Grants the CPU to this record for `burst` time units, starting at `time_at_start`.
    /// The wait is measured before the run: the time at dispatch less the CPU time granted
    /// so far.
    pub fn run_burst(&mut self, time_at_start: u32, burst: u32)
        requires
            burst <= old(self).remaining_burst,
            old(self).running_time <= time_at_start,
            old(self).running_time + burst <= u32::MAX,
        ensures
            *final(self) == ran(*old(self), time_at_start as int, burst as int),
            burst == old(self).remaining_burst ==> final(self).remaining_burst == 0,
    {
        self.wait = time_at_start - self.running_time;
        self.running_time = self.running_time + burst;
        self.remaining_burst = self.remaining_burst - burst;
    }
}

/// The word that names an order key.
pub open spec fn order_name(o: OrderKind) -> Seq<char> {
    match o {
        OrderKind::Burst => "Burst"@,
        OrderKind::Priority => "Priority"@,
    }
}

impl OrderKind {
    /// The word that names this order key.
    pub fn to_string(&self) -> (r: String)
        ensures
            r@ == order_name(*self),
    {
        let mut out: Vec<char> = Vec::new();
        match self {
            OrderKind::Burst => push_str("Burst", &mut out),
            OrderKind::Priority => push_str("Priority", &mut out),
        }
        string_from_chars(&out)
    }
}

/// The one-line report of a process.
pub open spec fn display_of(p: SimProcess) -> Seq<char> {
    "Process: "@ + p.name@ + " | Priority: "@ + decimal_digits(p.priority as nat)
        + " | Running Time: "@ + decimal_digits(p.running_time as nat) + " | Remaining Burst: "@
        + decimal_digits(p.remaining_burst as nat) + " | Wait Time: "@ + decimal_digits(
        p.wait as nat,
    ) + " | Order: "@ + order_name(p.order)
}

/// How a process line can fail to read.
#[derive(Debug, Clone, Copy, PartialEq, Eq, Structural)]
pub enum LineError {
    /// Too few or too many fields, or an order key other than 0 and 1.
    Malformed,
    /// A field that should be a number is not one, or is out of range.
    BadNumber,
}

/// The fields of a process line: the pieces between commas, trimmed of white space.
pub open spec fn line_fields(line: Seq<char>) -> Seq<Seq<char>> {
    split_on(line, ',').map_values(|f: Seq<char>| trim(f))
}

/// What a process line `name, priority, burst, order key` holds, read field by field from
/// the left: the first field found missing or malformed decides the error.
pub open spec fn parse_line(line: Seq<char>) -> Result<(Seq<char>, u8, u32, OrderKind), LineError> {
    let f = line_fields(line);
    if f.len() < 2 {
        Err(LineError::Malformed)
    } else if number_field(f[1], 255) is None {
        Err(LineError::BadNumber)
    } else if f.len() < 3 {
        Err(LineError::Malformed)
    } else if number_field(f[2], u32::MAX as int) is None {
        Err(LineError::BadNumber)
    } else if f.len() < 4 {
        Err(LineError::Malformed)
    } else if number_field(f[3], 255) is None {
        Err(LineError::BadNumber)
    } else if number_field(f[3], 255)->Some_0 > 1 || f.len() > 4 {
        Err(LineError::Malformed)
    } else {
        Ok(
            (
                f[0],
                number_field(f[1], 255)->Some_0 as u8,
                number_field(f[2], u32::MAX as int)->Some_0 as u32,
                if number_field(f[3], 255)->Some_0 == 0 {
                    OrderKind::Burst
                } else {
                    OrderKind::Priority
                },
            ),
        )
    }
}

/// `p` is the fresh record that a line holding `fields` describes.
pub open spec fn read_as(p: SimProcess, fields: (Seq<char>, u8, u32, OrderKind)) -> bool {
    let (name, priority, burst, order) = fields;
    &&& p.name@ == name
    &&& p.priority == priority
    &&& p.remaining_burst == burst
    &&& p.running_time == 0
    &&& p.wait == 0
    &&& p.order == order
}

/// `e` is the error that reports `err` on the line `line`.
pub open spec fn reports(e: ProgramError, err: LineError, line: Seq<char>) -> bool {
    match err {
        LineError::Malformed => e matches ProgramError::InvalidProcessSpecification(l) && l@ == line,
        LineError::BadNumber => e matches ProgramError::InvalidProcessParseError(l) && l@ == line,
    }
}

/// `r` is what reading the line `line` gives.
pub open spec fn parsed_as(r: Result<SimProcess, ProgramError>, line: Seq<char>) -> bool {
    match parse_line(line) {
        Ok(fields) => r matches Ok(p) && read_as(p, fields),
        Err(err) => r matches Err(e) && reports(e, err, line),
    }
}

impl SimProcess {
    /// Reads a process from a line `name, priority, burst, order key`, where the order key
    /// is 0 for burst and 1 for priority.  A rejected line comes back in the error.
    pub fn try_from(value: String) -> (r: Result<SimProcess, ProgramError>)
        ensures
            parsed_as(r, value@),
    {
        let chars = chars_of(value.as_str());
        let pieces = split_commas(&chars);
        let mut fields: Vec<Vec<char>> = Vec::new();
        let mut i: usize = 0;
        while i < pieces.len()
            invariant
                i <= pieces@.len(),
                pieces@.len() == split_on(value@, ',').len(),
                forall|j: int| 0 <= j < pieces@.len() ==> (#[trigger] pieces@[j])@ == split_on(value@, ',')[j],
                fields@.len() == i,
                forall|j: int| 0 <= j < i ==> (#[trigger] fields@[j])@ == line_fields(value@)[j],
            decreases pieces@.len() - i,
        {
            let t = trim_chars(&pieces[i]);
            fields.push(t);
            i = i + 1;
        }
        let ghost f = line_fields(value@);
        proof {
            assert(fields@.len() == f.len());
        }
        if fields.len() < 2 {
            return Err(ProgramError::InvalidProcessSpecification(value));
        }
        let priority = match parse_number(&fields[1], 255) {
            Some(p) => p as u8,
            None => {
                return Err(ProgramError::InvalidProcessParseError(value));
            },
        };
        if fields.len() < 3 {
            return Err(ProgramError::InvalidProcessSpecification(value));
        }
        let burst = match parse_number(&fields[2], u32::MAX) {
            Some(b) => b,
            None => {
                return Err(ProgramError::InvalidProcessParseError(value));
            },
        };
        if fields.len() < 4 {
            return Err(ProgramError::InvalidProcessSpecification(value));
        }
        let code = match parse_number(&fields[3], 255) {
            Some(c) => c,
            None => {
                return Err(ProgramError::InvalidProcessParseError(value));
            },
        };
        if code > 1 || fields.len() > 4 {
            return Err(ProgramError::InvalidProcessSpecification(value));
        }
        let order = if code == 0 {
            OrderKind::Burst
        } else {
            OrderKind::Priority
        };
        let name = string_from_chars(&fields[0]);
        Ok(SimProcess::new(name, priority, burst, order))
    }

    /// The one-line report of this process.
    pub fn to_string(&self) -> (r: String)
        ensures
            r@ == display_of(*self),
    {
        let mut out: Vec<char> = Vec::new();
        push_str("Process: ", &mut out);
        push_str(self.name.as_str(), &mut out);
        push_str(" | Priority: ", &mut out);
        push_decimal(self.priority as u32, &mut out);
        push_str(" | Running Time: ", &mut out);
        push_decimal(self.running_time, &mut out);
        push_str(" | Remaining Burst: ", &mut out);
        push_decimal(self.remaining_burst, &mut out);
        push_str(" | Wait Time: ", &mut out);
        push_decimal(self.wait, &mut out);
        push_str(" | Order: ", &mut out);
        match self.order {
            OrderKind::Burst => push_str("Burst", &mut out),
            OrderKind::Priority => push_str("Priority", &mut out),
        }
        proof {
            assert(out@ =~= display_of(*self));
        }
        string_from_chars(&out)
    }
}

/// Two records compare equal when the field that the left one's order key selects is equal.
impl PartialEq for SimProcess {
    fn eq(&self, other: &SimProcess) -> (r: bool) {
        match self.order {
            OrderKind::Burst => self.remaining_burst == other.remaining_burst,
            OrderKind::Priority => self.priority == other.priority,
        }
    }
}

impl vstd::std_specs::cmp::PartialEqSpecImpl for SimProcess {
    open spec fn obeys_eq_spec() -> bool {
        true
    }

    open spec fn eq_spec(&self, other: &SimProcess) -> bool {
        match self.order {
            OrderKind::Burst => self.remaining_burst == other.remaining_burst,
            OrderKind::Priority => self.priority == other.priority,
        }
    }
}

/// The order of two records is that of the field that the left one's order key selects.
impl PartialOrd for SimProcess {
    fn partial_cmp(&self, other: &SimProcess) -> (r: Option<std::cmp::Ordering>) {
        let (a, b): (u32, u32) = match self.order {
            OrderKind::Burst => (self.remaining_burst, other.remaining_burst),
            OrderKind::Priority => (self.priority as u32, other.priority as u32),
        };
        if a < b {
            Some(std::cmp::Ordering::Less)
        } else if a == b {
            Some(std::cmp::Ordering::Equal)
        } else {
            Some(std::cmp::Ordering::Greater)
        }
    }
}

impl vstd::std_specs::cmp::PartialOrdSpecImpl for SimProcess {
    open spec fn obeys_partial_cmp_spec() -> bool {
        true
    }

    open spec fn partial_cmp_spec(&self, other: &SimProcess) -> Option<std::cmp::Ordering> {
        let (a, b) = match self.order {
            OrderKind::Burst => (self.remaining_burst as int, other.remaining_burst as int),
            OrderKind::Priority => (self.priority as int, other.priority as int),
        };
        if a < b {
            Some(std::cmp::Ordering::Less)
        } else if a == b {
            Some(std::cmp::Ordering::Equal)
        } else {
            Some(std::cmp::Ordering::Greater)
        }
    }
}

} // verus!
