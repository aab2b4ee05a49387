//! What `space` answers for a command line: the report of the discovered
//! mounts, scanned when asked, then the query explained, the JSON report or
//! the dashboard.
use vstd::prelude::*;
use crate::classify::Rule;
use crate::cli::Cli;
use crate::explain::{ExplainError, explanation, lowercase, lowered_mounts};
use crate::model::{Estimate, StorageReport};
use crate::output::terminal::{options_for, render_spec, report_showable};
use crate::platform::{Discovery, DiscoveryError};
use crate::scan::{assigned, is_scanned, same_but_storage, scan_fits};
use crate::storage::topology::{is_container_spec, is_report_of};
use crate::text::opt_str_view;

verus! {

/// What `space` prints.
#[derive(Debug, PartialEq, Eq)]
pub enum RunOutput {
    /// This text.
    Text(String),
    /// The report, as JSON.
    Json,
}

/// `r` is the answer to `cli` about `report` in the terminal environment
/// `term`, `no_color`, `stdout_is_terminal`, `columns`: the explanation of
/// the query when one is asked; else the report as JSON when asked for;
/// else the dashboard.
pub open spec fn is_answer(
    cli: Cli,
    report: StorageReport,
    term: Option<Seq<char>>,
    no_color: bool,
    stdout_is_terminal: bool,
    columns: Option<Seq<char>>,
    r: Result<RunOutput, ExplainError>,
) -> bool {
    match cli.why {
        Some(q) => {
            let e = explanation(report.hidden_mounts@, lowered_mounts(report.hidden_mounts@), q@, lowercase(q@));
            match r {
                Ok(RunOutput::Text(s)) => e == Ok::<Seq<char>, Seq<char>>(s@),
                Ok(RunOutput::Json) => false,
                Err(ExplainError::NoMatch(x)) => e == Err::<Seq<char>, Seq<char>>(x@),
            }
        },
        None => if cli.json {
            r == Ok::<RunOutput, ExplainError>(RunOutput::Json)
        } else {
            r matches Ok(RunOutput::Text(s)) && s@ == render_spec(
                report,
                cli.all,
                options_for(term, no_color, stdout_is_terminal, columns),
            )
        },
    }
}

/// The answer to `cli` about `report` in a terminal environment described
/// as for `render_options`: the explanation of the query when one is asked;
/// else the report as JSON when asked for; else the dashboard.
pub fn run(
    cli: &Cli,
    report: &StorageReport,
    term: Option<&str>,
    no_color: bool,
    stdout_is_terminal: bool,
    columns: Option<&str>,
) -> (r: Result<RunOutput, ExplainError>)
    requires
        cli.why is None && !cli.json ==> report_showable(*report),
    ensures
        is_answer(*cli, *report, opt_str_view(term), no_color, stdout_is_terminal, opt_str_view(columns), r),
{
    if let Some(q) = &cli.why {
        return match crate::explain::render(report, q.as_str()) {
            Ok(s) => Ok(RunOutput::Text(s)),
            Err(e) => Err(e),
        };
    }
    match cli.output_mode() {
        crate::cli::OutputMode::Json => Ok(RunOutput::Json),
        crate::cli::OutputMode::Terminal => Ok(
            RunOutput::Text(crate::output::terminal::render(report, cli.all, term, no_color, stdout_is_terminal, columns)),
        ),
    }
}

/// Why `space` gave no answer.
#[derive(Debug, PartialEq, Eq)]
pub enum RunError {
    /// The mount table could not be discovered.
    Discovery(DiscoveryError),
    /// No hidden mount matches the query.
    Explain(ExplainError),
    /// Byte counts add up beyond 64 bits, in the scan or in a group of the
    /// dashboard.
    Overflow,
}

/// The scan `cli` asks for: measuring the well-known locations unless it
/// is turned off or a query is explained.
pub open spec fn scans(cli: Cli) -> bool {
    !cli.no_scan && cli.why is None
}

/// `r` is `r0` prepared for `cli`: scanned with the sizes `found` of the
/// locations of `rules` when `cli` asks for the scan, unchanged otherwise.
pub open spec fn is_prepared(cli: Cli, r0: StorageReport, rules: Seq<Rule>, found: Seq<Option<Estimate>>, r: StorageReport) -> bool {
    if scans(cli) {
        &&& same_but_storage(r0, r)
        &&& forall|i: int| 0 <= i < r0.storage@.len() ==> is_scanned(
            (#[trigger] r.storage@[i]).categories@,
            r0.storage@[i],
            rules,
            found,
            assigned(r0.storage@, rules, found, i),
        )
    } else {
        r == r0
    }
}

/// `r0` is the report of the discovery `d`, the environment judged from its
/// mounts and the container `marker`.
pub open spec fn is_normalized(d: Discovery, marker: bool, r0: StorageReport) -> bool {
    is_report_of(d.mounts@, is_container_spec(d.mounts@, marker), r0)
}

/// The report of `d` for `cli`: normalized with the container `marker`,
/// then scanned with the sizes `found` of the locations of `rules` when
/// `cli` asks for the scan; `Overflow` when the scanned sizes of a volume
/// would add up beyond 64 bits.
pub fn prepare(cli: &Cli, d: Discovery, marker: bool, rules: &[Rule], found: &[Option<Estimate>]) -> (res: Result<StorageReport, RunError>)
    requires
        found@.len() == rules@.len(),
    ensures
        match res {
            Ok(r) => exists|r0: StorageReport| is_normalized(d, marker, r0) && is_prepared(*cli, r0, rules@, found@, r),
            Err(RunError::Overflow) => scans(*cli) && exists|r0: StorageReport|
                is_normalized(d, marker, r0) && !scan_fits(r0.storage@, rules@, found@),
            Err(_) => false,
        },
{
    let ghost dd = d;
    let mut r = crate::storage::topology::normalize(d, marker);
    let ghost r0 = r;
    assert(is_normalized(dd, marker, r0));
    if cli.scan_mode() == crate::cli::ScanMode::KnownPaths {
        if !crate::scan::measurements_fit(&r, rules, found) {
            assert(scans(*cli));
            assert(!scan_fits(r0.storage@, rules@, found@));
            return Err(RunError::Overflow);
        }
        crate::scan::scan_report(&mut r, rules, found);
    }
    proof {
        assert(is_prepared(*cli, r0, rules@, found@, r));
    }
    Ok(r)
}

/// `res` is the answer of `space` for the discovery `d`: the report of `d`
/// prepared for `cli` (see `prepare`) and the answer to `cli` about it (see
/// `run`); `Overflow` only where byte counts add up beyond 64 bits, in the
/// scan or in a group of the dashboard.
pub open spec fn is_whole_answer(
    cli: Cli,
    d: Discovery,
    marker: bool,
    rules: Seq<Rule>,
    found: Seq<Option<Estimate>>,
    term: Option<Seq<char>>,
    no_color: bool,
    stdout_is_terminal: bool,
    columns: Option<Seq<char>>,
    res: Result<(RunOutput, StorageReport), RunError>,
) -> bool {
    match res {
        Ok((out, r)) => {
            &&& exists|r0: StorageReport| is_normalized(d, marker, r0) && is_prepared(cli, r0, rules, found, r)
            &&& is_answer(cli, r, term, no_color, stdout_is_terminal, columns, Ok(out))
        },
        Err(RunError::Explain(ExplainError::NoMatch(x))) => cli.why matches Some(q) && exists|r0: StorageReport| {
            &&& is_normalized(d, marker, r0)
            &&& explanation(r0.hidden_mounts@, lowered_mounts(r0.hidden_mounts@), q@, lowercase(q@)) == Err::<Seq<char>, Seq<char>>(x@)
        },
        Err(RunError::Overflow) => {
            ||| scans(cli) && exists|r0: StorageReport| is_normalized(d, marker, r0) && !scan_fits(r0.storage@, rules, found)
            ||| cli.why is None && !cli.json && exists|r: StorageReport| #![trigger report_showable(r)] {
                &&& exists|r0: StorageReport| is_normalized(d, marker, r0) && is_prepared(cli, r0, rules, found, r)
                &&& !report_showable(r)
            }
        },
        Err(RunError::Discovery(_)) => false,
    }
}

fn answer_discovered(
    cli: &Cli,
    d: Discovery,
    marker: bool,
    rules: &[Rule],
    found: &[Option<Estimate>],
    term: Option<&str>,
    no_color: bool,
    stdout_is_terminal: bool,
    columns: Option<&str>,
) -> (res: Result<(RunOutput, StorageReport), RunError>)
    requires
        found@.len() == rules@.len(),
    ensures
        is_whole_answer(*cli, d, marker, rules@, found@, opt_str_view(term), no_color, stdout_is_terminal, opt_str_view(columns), res),
{
    let ghost d0 = d;
    let r = match prepare(cli, d, marker, rules, found) {
        Ok(r) => r,
        Err(e) => {
            return Err(e);
        },
    };
    let ghost r0 = choose|r0: StorageReport| is_normalized(d0, marker, r0) && is_prepared(*cli, r0, rules@, found@, r);
    assert(is_normalized(d0, marker, r0) && is_prepared(*cli, r0, rules@, found@, r));
    if cli.why.is_none() && !cli.json && !crate::output::terminal::can_render(&r) {
        assert((exists|q0: StorageReport| is_normalized(d0, marker, q0) && is_prepared(*cli, q0, rules@, found@, r))
            && !report_showable(r));
        return Err(RunError::Overflow);
    }
    let ans = run(cli, &r, term, no_color, stdout_is_terminal, columns);
    let ghost env = (opt_str_view(term), opt_str_view(columns));
    match ans {
        Ok(out) => {
            assert(is_answer(*cli, r, env.0, no_color, stdout_is_terminal, env.1, Ok(out)));
            let res = Ok((out, r));
            assert(is_whole_answer(*cli, d0, marker, rules@, found@, env.0, no_color, stdout_is_terminal, env.1, res));
            res
        },
        Err(x) => {
            assert(is_answer(*cli, r, env.0, no_color, stdout_is_terminal, env.1, Err(x)));
            assert(r == r0);
            let res = Err(RunError::Explain(x));
            assert(is_whole_answer(*cli, d0, marker, rules@, found@, env.0, no_color, stdout_is_terminal, env.1, res));
            res
        },
    }
}

/// The whole answer of `space`: the discovery error, if discovery failed;
/// else the report of the discovery prepared for `cli` (see `prepare`),
/// and the answer to `cli` about it (see `run`), with the report for the
/// JSON output; `Overflow` where byte counts would add up beyond 64 bits.
pub fn answer(
    cli: &Cli,
    discovery: Result<Discovery, DiscoveryError>,
    marker: bool,
    rules: &[Rule],
    found: &[Option<Estimate>],
    term: Option<&str>,
    no_color: bool,
    stdout_is_terminal: bool,
    columns: Option<&str>,
) -> (res: Result<(RunOutput, StorageReport), RunError>)
    requires
        found@.len() == rules@.len(),
    ensures
        match discovery {
            Err(e) => res matches Err(RunError::Discovery(x)) && x == e,
            Ok(d) => is_whole_answer(*cli, d, marker, rules@, found@, opt_str_view(term), no_color, stdout_is_terminal, opt_str_view(columns), res),
        },
{
    match discovery {
        Err(e) => Err(RunError::Discovery(e)),
        Ok(d) => answer_discovered(cli, d, marker, rules, found, term, no_color, stdout_is_terminal, columns),
    }
}

} // verus!
