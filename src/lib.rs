use vstd::prelude::*;

/// The scheduling procedures and the stable sort they use.
pub mod algo;
/// The process record and its line format.
pub mod sim;
/// The rotating queue: a doubly-linked list over an arena.
pub mod structures;
/// Character-level helpers: splitting, trimming, decimal numbers.
pub mod text;

use crate::sim::{parse_line, read_as, reports, OrderKind, SimProcess};
use crate::text::{chars_of, number_field, parse_number, string_from_chars};

verus! {

/// `std::io::Error`, carried opaquely inside `ProgramError::IOError`; nothing is assumed of it.
#[verifier::external_type_specification]
#[verifier::external_body]
pub struct ExIoError(std::io::Error);

/// Why a run of the scheduler could not go on.
#[derive(Debug)]
pub enum ProgramError {
    /// The process list could not be read.
    IOError(std::io::Error),
    /// A process line has the wrong number of fields or an unknown order key; holds the line.
    InvalidProcessSpecification(String),
    /// A numeric field of a process line is not a number in range; holds the line.
    InvalidProcessParseError(String),
    /// The command line names no process file, or no known scheduler.
    InvalidCommandInput,
    /// Any other failure, such as bursts too long together for the scheduler's clock.
    GeneralError,
}

impl From<std::io::Error> for ProgramError {
    fn from(value: std::io::Error) -> (r: ProgramError) {
        ProgramError::IOError(value)
    }
}

impl vstd::std_specs::convert::FromSpecImpl<std::io::Error> for ProgramError {
    open spec fn obeys_from_spec() -> bool {
        true
    }

    open spec fn from_spec(value: std::io::Error) -> ProgramError {
        ProgramError::IOError(value)
    }
}

/// The scheduling disciplines on offer.
#[derive(Debug, Clone, Copy, PartialEq, Eq, Structural)]
pub enum ScheduleKind {
    FCFS,
    SJF,
    Priority,
    RR,
    PriorityRR,
}

/// The scheduler that a command-line code selects.
pub open spec fn schedule_kind_of(code: int) -> Option<ScheduleKind> {
    if code == 0 {
        Some(ScheduleKind::FCFS)
    } else if code == 1 {
        Some(ScheduleKind::SJF)
    } else if code == 2 {
        Some(ScheduleKind::Priority)
    } else if code == 3 {
        Some(ScheduleKind::RR)
    } else if code == 4 {
        Some(ScheduleKind::PriorityRR)
    } else {
        None
    }
}

/// What the command line asks for: a process file and a scheduler.
pub struct Configuration {
    pub scheduler: ScheduleKind,
    pub filename: String,
}

impl Configuration {
    /// Reads the command line `program, process-file [, scheduler code]`.  The code is a
    /// decimal number from 0 to 4 and selects FCFS, SJF, Priority, RR or Priority-RR; without
    /// it the scheduler is FCFS.
    pub fn build(args: &Vec<String>) -> (r: Result<Configuration, ProgramError>)
        ensures
            args@.len() < 2 ==> r matches Err(ProgramError::InvalidCommandInput),
            args@.len() == 2 ==> (r matches Ok(c) && c.filename@ == args@[1]@ && c.scheduler
                == ScheduleKind::FCFS),
            args@.len() > 2 ==> match number_field(args@[2]@, 255) {
                Some(code) => match schedule_kind_of(code) {
                    Some(kind) => (r matches Ok(c) && c.filename@ == args@[1]@ && c.scheduler
                        == kind),
                    None => r matches Err(ProgramError::InvalidCommandInput),
                },
                None => r matches Err(ProgramError::InvalidCommandInput),
            },
    {
        if args.len() < 2 {
            return Err(ProgramError::InvalidCommandInput);
        }
        let filename = args[1].clone();
        let scheduler = if args.len() == 2 {
            ScheduleKind::FCFS
        } else {
            let code = match parse_number(&chars_of(args[2].as_str()), 255) {
                Some(c) => c,
                None => {
                    return Err(ProgramError::InvalidCommandInput);
                },
            };
            if code == 0 {
                ScheduleKind::FCFS
            } else if code == 1 {
                ScheduleKind::SJF
            } else if code == 2 {
                ScheduleKind::Priority
            } else if code == 3 {
                ScheduleKind::RR
            } else if code == 4 {
                ScheduleKind::PriorityRR
            } else {
                return Err(ProgramError::InvalidCommandInput);
            }
        };
        Ok(Configuration { scheduler, filename })
    }
}

/// The order key that a schedule kind ranks its processes by: priority for the two
/// priority schedulers, burst for the others.
pub open spec fn order_for(kind: ScheduleKind) -> OrderKind {
    match kind {
        ScheduleKind::Priority | ScheduleKind::PriorityRR => OrderKind::Priority,
        _ => OrderKind::Burst,
    }
}

/// The order key that a schedule kind ranks its processes by.
pub fn order_for_kind(kind: ScheduleKind) -> (r: OrderKind)
    ensures
        r == order_for(kind),
{
    match kind {
        ScheduleKind::Priority | ScheduleKind::PriorityRR => OrderKind::Priority,
        _ => OrderKind::Burst,
    }
}

/// A line of the process list with the order key's code appended as its last field.
pub open spec fn tagged(line: Seq<char>, ordering: OrderKind) -> Seq<char> {
    line + seq![',', if ordering == OrderKind::Burst { '0' } else { '1' }]
}

/// Reads the lines of a process list, each `name, priority, burst`, giving every process the
/// order key `ordering`.  The first line that does not read decides the error.
pub fn parse_processes(lines: &Vec<String>, ordering: OrderKind) -> (r: Result<Vec<SimProcess>, ProgramError>)
    ensures
        (forall|i: int| 0 <= i < lines@.len() ==> #[trigger] parse_line(tagged(lines@[i]@, ordering)) is Ok)
            ==> (r matches Ok(v) && v@.len() == lines@.len() && forall|i: int|
            0 <= i < lines@.len() ==> read_as(#[trigger] v@[i], parse_line(tagged(lines@[i]@, ordering))->Ok_0)),
        r is Ok ==> forall|i: int| 0 <= i < lines@.len() ==> #[trigger] parse_line(tagged(lines@[i]@, ordering)) is Ok,
        r matches Err(e) ==> exists|k: int|
            {
                &&& 0 <= k < lines@.len()
                &&& forall|i: int| 0 <= i < k ==> #[trigger] parse_line(tagged(lines@[i]@, ordering)) is Ok
                &&& parse_line(tagged((#[trigger] lines@[k])@, ordering)) matches Err(err)
                &&& reports(e, err, tagged(lines@[k]@, ordering))
            },
{
    let mut out: Vec<SimProcess> = Vec::new();
    let mut i: usize = 0;
    while i < lines.len()
        invariant
            i <= lines@.len(),
            out@.len() == i,
            forall|j: int| 0 <= j < i ==> #[trigger] parse_line(tagged(lines@[j]@, ordering)) is Ok,
            forall|j: int| 0 <= j < i ==> read_as(#[trigger] out@[j], parse_line(tagged(lines@[j]@, ordering))->Ok_0),
        decreases lines@.len() - i,
    {
        let mut chars = chars_of(lines[i].as_str());
        chars.push(',');
        match ordering {
            OrderKind::Burst => chars.push('0'),
            OrderKind::Priority => chars.push('1'),
        }
        proof {
            assert(chars@ =~= tagged(lines@[i as int]@, ordering));
        }
        let line = string_from_chars(&chars);
        match SimProcess::try_from(line) {
            Ok(p) => {
                out.push(p);
            },
            Err(e) => {
                return Err(e);
            },
        }
        i = i + 1;
    }
    Ok(out)
}

} // verus!
