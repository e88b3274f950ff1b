//! Recursive directory copy, planned before it is carried out.
//!
//! The library decides *what* a copy does: which patterns an ignore file
//! declares, which directories they exclude, which directories have to be
//! read, which are created and which files are copied, in which order, and
//! how far the copy has progressed after each file.
//!
//! Input and output are the caller's: it lists the directories that a
//! [`scan::Scan`] asks for, hands the snapshot to [`run`], and carries out
//! the actions that come back.

use vstd::prelude::*;

pub mod ignore;
pub mod laws;
pub mod scan;
pub mod traversal;
pub mod tree;

use crate::ignore::{parse_ignore_list, patterns_of};
use crate::traversal::{
    copy_dir_all, dir_steps, listing_bytes, listing_files, Action, TraversalError, TraversalStats,
};
use crate::tree::Entry;

verus! {

/// What a run works on: the source directory, the target directory and,
/// where there is one, the file that lists what to ignore.
#[derive(Debug, Clone, Copy, PartialEq, Eq)]
pub struct Config<'a> {
    pub source: &'a str,
    pub target: &'a str,
    pub ignore_path: Option<&'a str>,
}

impl<'a> Config<'a> {
    /// Reads the configuration off the arguments of the program: after the
    /// program's own name come the source, the target and, optionally, the
    /// ignore file. Further arguments are not looked at.
    pub fn new(args: &'a [String]) -> (config: Config<'a>)
        requires
            args.len() >= 3,
        ensures
            config.source@ == args[1]@,
            config.target@ == args[2]@,
            match config.ignore_path {
                Some(path) => args.len() > 3 && path@ == args[3]@,
                None => args.len() == 3,
            },
    {
        let source = args[1].as_str();
        let target = args[2].as_str();
        let ignore_path = if args.len() > 3 {
            Some(args[3].as_str())
        } else {
            None
        };
        Config { source, target, ignore_path }
    }
}

/// The patterns in force for a run: those of the ignore file if the
/// configuration names one, and none otherwise.
pub open spec fn patterns_in_force(config: Config, ignore_file: Seq<u8>) -> Seq<Seq<char>> {
    if config.ignore_path is Some {
        patterns_of(ignore_file)
    } else {
        Seq::empty()
    }
}

/// Settles which patterns are in force: those that `ignore_file`, the bytes
/// of the ignore file, declares if the configuration names such a file, and
/// none otherwise, whatever the bytes.
pub fn ignores_in_force(config: Config, ignore_file: &[u8]) -> (ignores: Vec<String>)
    ensures
        ignores.deep_view() == patterns_in_force(config, ignore_file@),
{
    if config.ignore_path.is_some() {
        parse_ignore_list(ignore_file)
    } else {
        let ignores: Vec<String> = Vec::new();
        ignores
    }
}

/// What a run found and what it has to do.
#[derive(Debug, PartialEq, Eq)]
pub struct Report {
    /// The files to copy and their bytes, as the discovery pass counted them.
    pub discovered: TraversalStats,
    /// The actions of the copying pass, in order.
    pub actions: Vec<Action>,
}

/// Plans a whole run over the tree whose top listing is `source`.
///
/// `ignore_file` holds the bytes of the ignore file; it is looked at only
/// if the configuration names such a file. The tree is walked twice with
/// the patterns in force: once to count what will be copied, once to lay
/// down the actions that copy it.
///
/// The run fails only where a total does not fit in 64 bits.
pub fn run(
    config: Config,
    ignore_file: &[u8],
    source: &Vec<Entry>,
) -> (done: Result<Report, TraversalError>)
    ensures
        match done {
            Ok(report) => {
                let ignores = patterns_in_force(config, ignore_file@);
                &&& report.discovered.total_bytes == listing_bytes(source.deep_view(), ignores)
                &&& report.discovered.total_files == listing_files(source.deep_view(), ignores)
                &&& report.actions.deep_view() == dir_steps(
                    source.deep_view(),
                    Seq::empty(),
                    ignores,
                    0,
                )
            },
            Err(error) => {
                let ignores = patterns_in_force(config, ignore_file@);
                &&& error == TraversalError::TotalsOverflow
                &&& (listing_bytes(source.deep_view(), ignores) > u64::MAX || listing_files(
                    source.deep_view(),
                    ignores,
                ) > u64::MAX)
            },
        },
{
    let ignores = ignores_in_force(config, ignore_file);
    let discovered = match copy_dir_all(source, &ignores, false) {
        Ok(walked) => walked.stats,
        Err(error) => {
            return Err(error);
        },
    };
    match copy_dir_all(source, &ignores, true) {
        Ok(walked) => Ok(Report { discovered, actions: walked.actions }),
        Err(error) => Err(error),
    }
}

} // verus!
