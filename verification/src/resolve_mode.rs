//! The switch for precise resolution, and what it makes of an indexer run.
//!
//! `Off` never runs the SCIP indexer. `Auto` runs it where it can be run, and falls back to names
//! where it cannot or fails. `On` needs it, and fails where it cannot be run or fails.
use vstd::prelude::*;

use crate::scip_merge::ScipTable;
use crate::text;

verus! {

/// How precise resolution is asked for.
#[derive(Clone, Copy, Debug, PartialEq, Eq, Structural)]
pub enum ResolveMode {
    Auto,
    On,
    Off,
}

impl Default for ResolveMode {
    fn default() -> (r: ResolveMode)
        ensures
            r == ResolveMode::Auto,
    {
        ResolveMode::Auto
    }
}

/// The mode that a text names, in any case and with white space around it.
pub open spec fn mode_named(s: Seq<char>) -> Option<ResolveMode> {
    let name = text::lower(text::trimmed(s));
    if name == "auto"@ {
        Some(ResolveMode::Auto)
    } else if name == "on"@ {
        Some(ResolveMode::On)
    } else if name == "off"@ {
        Some(ResolveMode::Off)
    } else {
        None
    }
}

impl ResolveMode {
    /// The mode that a text names.
    pub fn parse(s: &str) -> (r: Option<ResolveMode>)
        ensures
            r == mode_named(s@),
    {
        let trimmed = text::trim(s);
        let name = text::to_lower(trimmed.as_str());
        proof {
            reveal_strlit("auto");
            reveal_strlit("on");
            reveal_strlit("off");
        }
        if text::same(name.as_str(), "auto") {
            Some(ResolveMode::Auto)
        } else if text::same(name.as_str(), "on") {
            Some(ResolveMode::On)
        } else if text::same(name.as_str(), "off") {
            Some(ResolveMode::Off)
        } else {
            None
        }
    }
}

/// How a repository is indexed.
#[derive(Clone, Copy, Debug, PartialEq, Eq, Structural)]
pub struct IndexOptions {
    pub resolve_mode: ResolveMode,
    /// Whether the SCIP indexer may install what it needs.
    pub allow_install: bool,
    /// Whether committed third-party bundles are indexed too.
    pub include_vendored: bool,
}

impl Default for IndexOptions {
    fn default() -> (r: IndexOptions)
        ensures
            r == (IndexOptions {
                resolve_mode: ResolveMode::Auto,
                allow_install: false,
                include_vendored: false,
            }),
    {
        IndexOptions { resolve_mode: ResolveMode::Auto, allow_install: false, include_vendored: false }
    }
}

/// Why precise resolution failed.
#[derive(Debug, PartialEq, Eq)]
pub enum ScipError {
    /// The SCIP indexer cannot be run.
    ToolUnavailable(String),
    /// It was run and gave no usable index.
    Failed(String),
}

impl ScipError {
    /// What there is to say of the error.
    pub open spec fn text(self) -> Seq<char> {
        match self {
            ScipError::ToolUnavailable(s) => s@,
            ScipError::Failed(s) => s@,
        }
    }

    /// What there is to say of the error.
    pub fn message(&self) -> (r: String)
        ensures
            r@ == self.text(),
    {
        match self {
            ScipError::ToolUnavailable(s) => s.clone(),
            ScipError::Failed(s) => s.clone(),
        }
    }
}

/// What precise resolution gave: the answers of an index, and whether it was wanted and is missing.
#[derive(Debug, PartialEq, Eq)]
pub struct ScipOutcome {
    pub resolver: Option<ScipTable>,
    pub degraded: bool,
}

/// What to do about precise resolution.
#[derive(Debug, PartialEq, Eq)]
pub enum ScipPlan {
    /// Go on without an index.
    Skip { degraded: bool },
    /// Run the indexer.
    Run,
    /// Give up.
    Fail(ScipError),
}

/// Whether the SCIP indexer can be run without more ado.
pub open spec fn runnable(typescript_present: bool, allow_install: bool) -> bool {
    allow_install || typescript_present
}

/// Whether the SCIP indexer can be run: where it may install what it needs, or that is there.
pub fn scip_runnable(typescript_present: bool, allow_install: bool) -> (r: bool)
    ensures
        r == runnable(typescript_present, allow_install),
{
    allow_install || typescript_present
}

/// What to do about precise resolution in a repository with so many sources, shown as `repo`.
pub fn plan_scip(opts: &IndexOptions, source_count: usize, typescript_present: bool, repo: &str) -> (r: ScipPlan)
    ensures
        r is Run <==> opts.resolve_mode != ResolveMode::Off && source_count > 0 && runnable(
            typescript_present,
            opts.allow_install,
        ),
        opts.resolve_mode == ResolveMode::Off ==> r == (ScipPlan::Skip { degraded: false }),
        opts.resolve_mode == ResolveMode::Auto && !(r is Run) ==> r == (ScipPlan::Skip { degraded: true }),
        opts.resolve_mode == ResolveMode::On && !(r is Run) ==> (r matches ScipPlan::Fail(e) && e
            is ToolUnavailable && e.text() == (if source_count == 0 {
            "resolve mode `on` requires TS/JS sources, but none were found"@
        } else {
            "resolve mode `on` requires scip-typescript, but `typescript` is not installed in "@ + repo@
                + " and installs are disabled (pass allow_install or run `npm install`)"@
        })),
{
    match opts.resolve_mode {
        ResolveMode::Off => ScipPlan::Skip { degraded: false },
        ResolveMode::Auto => if source_count == 0 || !scip_runnable(typescript_present, opts.allow_install) {
            ScipPlan::Skip { degraded: true }
        } else {
            ScipPlan::Run
        },
        ResolveMode::On => if source_count == 0 {
            ScipPlan::Fail(
                ScipError::ToolUnavailable(
                    "resolve mode `on` requires TS/JS sources, but none were found".to_owned(),
                ),
            )
        } else if !scip_runnable(typescript_present, opts.allow_install) {
            ScipPlan::Fail(
                ScipError::ToolUnavailable(
                    text::concat3(
                        "resolve mode `on` requires scip-typescript, but `typescript` is not installed in ",
                        repo,
                        " and installs are disabled (pass allow_install or run `npm install`)",
                    ),
                ),
            )
        } else {
            ScipPlan::Run
        },
    }
}

/// What an indexer run comes to: its answers where it gave some, a fall-back to names where it
/// failed and is not needed, its error where it is needed.
pub fn settle_scip(mode: ResolveMode, produced: Result<ScipTable, ScipError>) -> (r: Result<ScipOutcome, ScipError>)
    ensures
        match produced {
            Ok(table) => r == Ok::<ScipOutcome, ScipError>(
                ScipOutcome { resolver: Some(table), degraded: false },
            ),
            Err(e) => if mode == ResolveMode::On {
                r == Err::<ScipOutcome, ScipError>(e)
            } else {
                r == Ok::<ScipOutcome, ScipError>(
                    ScipOutcome { resolver: None, degraded: mode == ResolveMode::Auto },
                )
            },
        },
{
    match produced {
        Ok(table) => Ok(ScipOutcome { resolver: Some(table), degraded: false }),
        Err(e) => match mode {
            ResolveMode::On => Err(e),
            ResolveMode::Auto => Ok(ScipOutcome { resolver: None, degraded: true }),
            ResolveMode::Off => Ok(ScipOutcome { resolver: None, degraded: false }),
        },
    }
}

/// Without a need for precise resolution, no run of the indexer makes indexing fail.
pub proof fn law_only_on_fails(mode: ResolveMode)
    ensures
        mode != ResolveMode::On ==> forall|produced: Result<ScipTable, ScipError>, r: Result<ScipOutcome, ScipError>|
            call_ensures(settle_scip, (mode, produced), r) ==> r is Ok,
{
}

/// The name of the file that keeps an index for a set of sources with this hash.
pub fn cache_file(hash: &str) -> (r: String)
    ensures
        r@ == hash@ + ".scip"@,
{
    text::concat2(hash, ".scip")
}

} // verus!
