//! Records produced by the extraction path, and the options that drive it.

use vstd::prelude::*;
use vstd::string::StringExecFns;

verus! {

/// An exported async function discovered in a file: its bound name and the
/// 1-based line its declaration starts on.
#[derive(Debug, Clone, PartialEq, Eq)]
pub struct RunnerInfo {
    pub name: String,
    pub line: usize,
}

/// An exported schema declaration: its bound name, the first discovered
/// runner whose name is contained in it (if any), and its 1-based line.
#[derive(Debug, Clone, PartialEq, Eq)]
pub struct SchemaInfo {
    pub name: String,
    pub runner_name: Option<String>,
    pub line: usize,
}

/// Everything extracted from one file: its normalized path and the ordered
/// runner and schema declarations found in it.
#[derive(Debug, Clone, PartialEq, Eq)]
pub struct SchemaMetadata {
    pub file: String,
    pub runners: Vec<RunnerInfo>,
    pub schemas: Vec<SchemaInfo>,
}

/// The options of the extraction run: comma-separated glob patterns, the
/// output path of the metadata record, and the working directory.
#[derive(Debug, Clone, PartialEq, Eq)]
pub struct Args {
    pub patterns: String,
    pub output: String,
    pub cwd: String,
}

impl Default for Args {
    /// The default options: runner sources under `src/` and `runners/`,
    /// output beside the working directory.
    fn default() -> (r: Args)
        ensures
            r.patterns@ == "src/**/*.ts,runners/**/*.ts"@,
            r.output@ == "runner-schemas.json"@,
            r.cwd@ == "."@,
    {
        Args {
            patterns: String::from_str("src/**/*.ts,runners/**/*.ts"),
            output: String::from_str("runner-schemas.json"),
            cwd: String::from_str("."),
        }
    }
}

/// The mathematical shape of a runner record.
pub struct GRunner {
    pub name: Seq<char>,
    pub line: nat,
}

/// The mathematical shape of a schema record.
pub struct GSchema {
    pub name: Seq<char>,
    pub runner_name: Option<Seq<char>>,
    pub line: nat,
}

/// The abstraction of one runner record.
pub open spec fn rview(r: RunnerInfo) -> GRunner {
    GRunner { name: r.name@, line: r.line as nat }
}

/// The abstraction of a runner record sequence.
pub open spec fn rviews(rs: Seq<RunnerInfo>) -> Seq<GRunner> {
    rs.map_values(|r: RunnerInfo| rview(r))
}

/// The abstraction of one schema record.
pub open spec fn scview(s: SchemaInfo) -> GSchema {
    GSchema {
        name: s.name@,
        runner_name: match s.runner_name {
            Some(n) => Some(n@),
            None => None,
        },
        line: s.line as nat,
    }
}

/// The abstraction of a schema record sequence.
pub open spec fn scviews(ss: Seq<SchemaInfo>) -> Seq<GSchema> {
    ss.map_values(|s: SchemaInfo| scview(s))
}

} // verus!
