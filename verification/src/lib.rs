//! Railway deadlock checking: the problem model, its conversion from the
//! benchmark tables, the encodings handed to the SAT and difference-logic
//! back ends, and the plans read back from their models.
use vstd::prelude::*;

pub mod diff_logic;
pub mod plan;
pub mod plot;
pub mod problem;
pub mod raw2023_problem;
pub mod raw_problem;
pub mod sat;
pub mod seqs;
pub mod solver_cycles;
pub mod solver_statespace;
pub mod state;
pub mod text;

verus! {

/// The input formats the checker reads.
#[derive(Debug, Clone, Copy, PartialEq, Eq, Structural)]
pub enum FileFormat {
    Raw2021Problem,
    Raw2023Problem,
    TrainsFormat,
}

/// The format that a command-line name selects, if any.
pub open spec fn spec_file_format(name: Seq<char>) -> Option<FileFormat> {
    if name == "raw"@ || name == "raw2021"@ {
        Some(FileFormat::Raw2021Problem)
    } else if name == "raw2023"@ {
        Some(FileFormat::Raw2023Problem)
    } else if name == "trains"@ {
        Some(FileFormat::TrainsFormat)
    } else {
        None
    }
}

impl FileFormat {
    /// Reads a format name: `raw` or `raw2021` (the Sasso benchmark
    /// instances), `raw2023` or `trains`.
    pub fn parse(day: &str) -> (res: Result<FileFormat, &'static str>)
        ensures
            match spec_file_format(day@) {
                Some(f) => res == Ok::<FileFormat, &'static str>(f),
                None => res is Err && res->Err_0@ == "Could not parse file format type."@,
            },
    {
        if text::str_eq(day, "raw") || text::str_eq(day, "raw2021") {
            Ok(FileFormat::Raw2021Problem)
        } else if text::str_eq(day, "raw2023") {
            Ok(FileFormat::Raw2023Problem)
        } else if text::str_eq(day, "trains") {
            Ok(FileFormat::TrainsFormat)
        } else {
            Err("Could not parse file format type.")
        }
    }
}

impl core::str::FromStr for FileFormat {
    type Err = &'static str;

    fn from_str(day: &str) -> (res: Result<Self, Self::Err>)
        ensures
            match spec_file_format(day@) {
                Some(f) => res == Ok::<FileFormat, &'static str>(f),
                None => res is Err && res->Err_0@ == "Could not parse file format type."@,
            },
    {
        FileFormat::parse(day)
    }
}

} // verus!
