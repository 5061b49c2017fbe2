//! Typed garbage-collection repack planning.

use crate::order::texts;
use crate::text::concat2;
use crate::text::decimal;
use crate::text::decimal_text;
use crate::text::text_eq;
use vstd::prelude::*;
use vstd::string::*;

verus! {

/// Repack strategy selected for one garbage collection.
#[derive(Debug, Clone, Copy, PartialEq, Eq, Structural)]
pub enum GcRepackMode {
    /// Pack loose objects only.
    Incremental,
    /// Repack reachable objects and immediately discard unreachable data.
    Immediate,
    /// Write reachable and cruft packs.
    Cruft,
    /// Repack reachable objects and unpack or prune unreachable data
    /// separately.
    Reachable,
}

/// Inputs which determine the repack strategy and the arguments traced for it.
#[derive(Debug, Clone, Copy, PartialEq, Eq)]
pub struct GcRepackPlanOptions<'a> {
    pub incremental: bool,
    pub prune_expire: Option<&'a str>,
    pub cruft_packs: bool,
    pub expire_to: Option<&'a str>,
    pub max_cruft_size: Option<u64>,
    pub repack_filter: Option<&'a str>,
    pub repack_filter_to: Option<&'a str>,
}

/// Planned strategy and Git-compatible repack arguments.
#[derive(Debug, PartialEq, Eq)]
pub struct GcRepackPlanOutcome {
    pub mode: GcRepackMode,
    pub trace_args: Vec<String>,
}

/// Invalid planning input.
#[derive(Debug, Clone, Copy, PartialEq, Eq, Structural)]
pub enum GcRepackPlanError {
    /// An explicitly supplied prune expiration was empty.
    EmptyPruneExpiration,
}

impl GcRepackPlanError {
    pub fn message(&self) -> (message: &'static str)
        ensures
            message@ == "empty GC prune expiration"@,
    {
        "empty GC prune expiration"
    }
}

/// The mode that the options select: incremental before all else, then an
/// immediate discard, unless cruft is to be kept elsewhere.
pub open spec fn selected_mode(options: GcRepackPlanOptions) -> GcRepackMode {
    if options.incremental {
        GcRepackMode::Incremental
    } else if options.prune_expire is Some && options.prune_expire->Some_0@ == "now"@ && !(options.cruft_packs
        && options.expire_to is Some) {
        GcRepackMode::Immediate
    } else if options.cruft_packs {
        GcRepackMode::Cruft
    } else {
        GcRepackMode::Reachable
    }
}

/// An option with its value, if it has one.
pub open spec fn optional(name: Seq<char>, value: Option<Seq<char>>) -> Seq<Seq<char>> {
    match value {
        Some(text) => seq![name + text],
        None => Seq::empty(),
    }
}

pub open spec fn text_of(value: Option<&str>) -> Option<Seq<char>> {
    match value {
        Some(text) => Some(text@),
        None => None,
    }
}

pub open spec fn number_of(value: Option<u64>) -> Option<Seq<char>> {
    match value {
        Some(number) => Some(decimal(number as nat)),
        None => None,
    }
}

/// The arguments that go with the mode: every option that applies, in order.
pub open spec fn planned_args(options: GcRepackPlanOptions) -> Seq<Seq<char>> {
    match selected_mode(options) {
        GcRepackMode::Incremental => seq!["repack"@, "-d"@, "-l"@, "--no-write-bitmap-index"@],
        GcRepackMode::Immediate => seq!["repack"@, "-d"@, "-l"@, "-a"@],
        GcRepackMode::Cruft => seq!["repack"@, "-d"@, "-l"@, "--cruft"@] + optional(
            "--cruft-expiration="@,
            text_of(options.prune_expire),
        ) + optional("--max-cruft-size="@, number_of(options.max_cruft_size)) + optional(
            "--expire-to="@,
            text_of(options.expire_to),
        ) + optional("--filter="@, text_of(options.repack_filter)) + optional(
            "--filter-to="@,
            text_of(options.repack_filter_to),
        ),
        GcRepackMode::Reachable => seq!["repack"@, "-d"@, "-l"@, "-A"@] + optional(
            "--unpack-unreachable="@,
            text_of(options.prune_expire),
        ) + optional("--filter="@, text_of(options.repack_filter)) + optional(
            "--filter-to="@,
            text_of(options.repack_filter_to),
        ),
    }
}

/// The texts of a list as owned ones.
pub fn strings(values: &[&str]) -> (out: Vec<String>)
    ensures
        texts(out@) == values@.map_values(|value: &str| value@),
{
    let mut out: Vec<String> = Vec::with_capacity(values.len());
    let mut i: usize = 0;
    while i < values.len()
        invariant
            i <= values@.len(),
            out@.len() == i,
            forall|k: int| 0 <= k < i ==> (#[trigger] out@[k])@ == values@[k]@,
        decreases values@.len() - i,
    {
        out.push(String::from_str(values[i]));
        i += 1;
    }
    assert(texts(out@) =~= values@.map_values(|value: &str| value@));
    out
}

fn four(a: &str, b: &str, c: &str, d: &str) -> (out: Vec<String>)
    ensures
        texts(out@) == seq![a@, b@, c@, d@],
{
    let out = strings(&[a, b, c, d]);
    assert(texts(out@) =~= seq![a@, b@, c@, d@]);
    out
}

/// Adds an option with its value, if it has one.
fn push_optional(args: &mut Vec<String>, name: &str, value: Option<&str>)
    ensures
        texts(final(args)@) == texts(old(args)@) + optional(name@, text_of(value)),
{
    match value {
        Some(text) => {
            args.push(concat2(name, text));
            assert(texts(args@) =~= texts(old(args)@) + seq![name@ + text@]);
        },
        None => {
            assert(texts(args@) =~= texts(old(args)@) + Seq::<Seq<char>>::empty());
        },
    }
}

/// Selects the repack strategy without touching repository or process state.
pub fn plan_gc_repack(options: GcRepackPlanOptions<'_>) -> (plan: Result<GcRepackPlanOutcome, GcRepackPlanError>)
    ensures
        plan is Err <==> (options.prune_expire matches Some(text) && text@.len() == 0),
        plan matches Ok(plan) ==> plan.mode == selected_mode(options) && texts(plan.trace_args@) == planned_args(
            options,
        ),
{
    match options.prune_expire {
        Some(text) => {
            if text.unicode_len() == 0 {
                return Err(GcRepackPlanError::EmptyPruneExpiration);
            }
        },
        None => {},
    }
    if options.incremental {
        return Ok(
            GcRepackPlanOutcome {
                mode: GcRepackMode::Incremental,
                trace_args: four("repack", "-d", "-l", "--no-write-bitmap-index"),
            },
        );
    }
    let now = match options.prune_expire {
        Some(text) => text_eq(text, "now"),
        None => false,
    };
    if now && !(options.cruft_packs && options.expire_to.is_some()) {
        return Ok(
            GcRepackPlanOutcome {
                mode: GcRepackMode::Immediate,
                trace_args: four("repack", "-d", "-l", "-a"),
            },
        );
    }
    if options.cruft_packs {
        let mut trace_args = four("repack", "-d", "-l", "--cruft");
        push_optional(&mut trace_args, "--cruft-expiration=", options.prune_expire);
        match options.max_cruft_size {
            Some(size) => {
                let number = decimal_text(size);
                push_optional(&mut trace_args, "--max-cruft-size=", Some(number.as_str()));
            },
            None => {
                push_optional(&mut trace_args, "--max-cruft-size=", None);
            },
        }
        push_optional(&mut trace_args, "--expire-to=", options.expire_to);
        push_optional(&mut trace_args, "--filter=", options.repack_filter);
        push_optional(&mut trace_args, "--filter-to=", options.repack_filter_to);
        Ok(GcRepackPlanOutcome { mode: GcRepackMode::Cruft, trace_args })
    } else {
        let mut trace_args = four("repack", "-d", "-l", "-A");
        push_optional(&mut trace_args, "--unpack-unreachable=", options.prune_expire);
        push_optional(&mut trace_args, "--filter=", options.repack_filter);
        push_optional(&mut trace_args, "--filter-to=", options.repack_filter_to);
        Ok(GcRepackPlanOutcome { mode: GcRepackMode::Reachable, trace_args })
    }
}

} // verus!
