//! What the command line asks for.

use vstd::prelude::*;

verus! {

/// The greatest number of worker threads of a run.
pub const MAX_THREADS: u8 = 32u8;

/// The arguments of the program: one command.
#[derive(Debug, Clone)]
pub struct Args {
    pub command: Commands,
}

/// The commands of the program.
#[derive(Debug, Clone)]
pub enum Commands {
    /// Run the license check on the dependencies of the project.
    Check {
        /// Find the requirements of each dependency.
        recursive: bool,
        /// Print the output by package and not by license.
        by_package: bool,
        /// Pay no heed to the settings file.
        ignore_toml: bool,
        /// Print nothing.
        silent: bool,
        /// Print only what fails.
        fail_print: bool,
        /// Number of threads to use.
        num_threads: u8,
    },
    /// Run the license header formatter.
    Format {
        /// The files to format. Where there are none, the Python files under
        /// the current directory are taken.
        files: Vec<String>,
        /// The licensee, which comes before the configured one.
        licensee: Option<String>,
        /// The license year, which comes before the configured one.
        license_year: Option<u16>,
        /// Print nothing.
        silent: bool,
        /// Only check, and rewrite no file.
        dry_run: bool,
        /// Number of threads to use.
        num_threads: u8,
    },
}

impl Commands {
    /// The number of threads that the command asks for.
    pub open spec fn threads(self) -> u8 {
        match self {
            Commands::Check { num_threads, .. } => num_threads,
            Commands::Format { num_threads, .. } => num_threads,
        }
    }

    /// The number of worker threads of the run: what the command asks for, and
    /// no more than `MAX_THREADS`.
    pub fn worker_count(&self) -> (n: usize)
        ensures
            n == if self.threads() <= MAX_THREADS {
                self.threads()
            } else {
                MAX_THREADS
            },
    {
        let asked: u8 = match self {
            Commands::Check { num_threads, .. } => *num_threads,
            Commands::Format { num_threads, .. } => *num_threads,
        };
        if asked <= MAX_THREADS {
            asked as usize
        } else {
            MAX_THREADS as usize
        }
    }
}

} // verus!
