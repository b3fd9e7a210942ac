//! What a configuration text means: the flags it declares, or the first
//! error in it.
//!
//! One directive per line:
//!
//! ```text
//! # comment
//! flag checkout_v2 enabled=true rollout=25
//! flag dark_mode
//! flag old_banner expires=2026-01-01
//! override checkout_v2 user-42=true
//! ```
use crate::date::{date_days, days_to_civil};
use crate::error::{EvalFailure, ParseFailure};
use crate::fmt::{date_text, decimal};
use crate::hash::bucket_spec;
use crate::text::{config_lines, split_once, tokens, unsigned_value};
use vstd::prelude::*;

verus! {

/// One declared flag, as the configuration states it.
pub struct FlagView {
    pub enabled: bool,
    /// Percentage of keys, 0..=100, that get the flag.
    pub rollout: u8,
    /// Sunset day (days since 1970-01-01): from that day on the flag is off.
    pub expires: Option<int>,
    /// Keys pinned to a fixed result.
    pub overrides: Map<Seq<char>, bool>,
}

/// `enabled`, `rollout` and `expires` of a `flag` line, as its attributes
/// set them so far.
pub struct Attrs {
    pub enabled: bool,
    pub rollout: u8,
    pub expires: Option<int>,
}

/// A plain `flag <name>`: enabled, 100% rollout, no expiry.
pub open spec fn default_attrs() -> Attrs {
    Attrs { enabled: true, rollout: 100, expires: None }
}

pub open spec fn bool_value(v: Seq<char>) -> Option<bool> {
    if v == "true"@ {
        Some(true)
    } else if v == "false"@ {
        Some(false)
    } else {
        None
    }
}

/// A `rollout=` value: an unsigned number no greater than 100.
pub open spec fn rollout_value(v: Seq<char>) -> Option<u8> {
    match unsigned_value(v) {
        Some(n) => if n <= 100 {
            Some(n as u8)
        } else {
            None
        },
        None => None,
    }
}

/// The effect of one `key=value` attribute of a `flag` line.
pub open spec fn apply_attr(a: Attrs, tok: Seq<char>, line: nat) -> Result<Attrs, ParseFailure> {
    match split_once(tok, '=') {
        None => Err(ParseFailure::Malformed(line)),
        Some((k, v)) => if k == "enabled"@ {
            match bool_value(v) {
                Some(b) => Ok(Attrs { enabled: b, ..a }),
                None => Err(ParseFailure::InvalidBool(line, v)),
            }
        } else if k == "rollout"@ {
            match rollout_value(v) {
                Some(r) => Ok(Attrs { rollout: r, ..a }),
                None => Err(ParseFailure::InvalidRollout(line, v)),
            }
        } else if k == "expires"@ {
            match date_days(v) {
                Some(z) => Ok(Attrs { expires: Some(z), ..a }),
                None => Err(ParseFailure::InvalidExpiry(line, v)),
            }
        } else {
            Err(ParseFailure::UnknownAttribute(line, k))
        },
    }
}

/// The attributes applied left to right, stopping at the first error.
pub open spec fn apply_attrs(a: Attrs, toks: Seq<Seq<char>>, line: nat) -> Result<Attrs, ParseFailure>
    decreases toks.len(),
{
    if toks.len() == 0 {
        Ok(a)
    } else {
        match apply_attrs(a, toks.drop_last(), line) {
            Ok(b) => apply_attr(b, toks.last(), line),
            Err(e) => Err(e),
        }
    }
}

/// The effect of one line, given as its whitespace-separated tokens, on the
/// flags declared so far.
pub open spec fn apply_line(flags: Map<Seq<char>, FlagView>, line: nat, toks: Seq<Seq<char>>) -> Result<
    Map<Seq<char>, FlagView>,
    ParseFailure,
> {
    if toks.len() == 0 || (toks[0].len() > 0 && toks[0][0] == '#') {
        Ok(flags)
    } else if toks[0] == "flag"@ {
        if toks.len() < 2 {
            Err(ParseFailure::Malformed(line))
        } else if flags.contains_key(toks[1]) {
            Err(ParseFailure::DuplicateFlag(line, toks[1]))
        } else {
            match apply_attrs(default_attrs(), toks.skip(2), line) {
                Ok(a) => Ok(
                    flags.insert(
                        toks[1],
                        FlagView {
                            enabled: a.enabled,
                            rollout: a.rollout,
                            expires: a.expires,
                            overrides: Map::empty(),
                        },
                    ),
                ),
                Err(e) => Err(e),
            }
        }
    } else if toks[0] == "override"@ {
        if toks.len() < 3 {
            Err(ParseFailure::Malformed(line))
        } else {
            match split_once(toks[2], '=') {
                None => Err(ParseFailure::Malformed(line)),
                Some((k, v)) => match bool_value(v) {
                    None => Err(ParseFailure::InvalidBool(line, v)),
                    Some(b) => if flags.contains_key(toks[1]) {
                        let f = flags[toks[1]];
                        Ok(flags.insert(toks[1], FlagView { overrides: f.overrides.insert(k, b), ..f }))
                    } else {
                        Err(ParseFailure::UnknownFlagInOverride(line, toks[1]))
                    },
                },
            }
        }
    } else {
        Err(ParseFailure::UnknownDirective(line, toks[0]))
    }
}

/// The lines applied top to bottom, numbered from 1, stopping at the first
/// error: a flag must be declared before an `override` line names it.
pub open spec fn run_lines(lines: Seq<Seq<char>>) -> Result<Map<Seq<char>, FlagView>, ParseFailure>
    decreases lines.len(),
{
    if lines.len() == 0 {
        Ok(Map::empty())
    } else {
        match run_lines(lines.drop_last()) {
            Ok(flags) => apply_line(flags, lines.len(), tokens(lines.last())),
            Err(e) => Err(e),
        }
    }
}

/// What a configuration text means: the flags it declares, or its first
/// error.
pub open spec fn config_meaning(input: Seq<char>) -> Result<Map<Seq<char>, FlagView>, ParseFailure> {
    run_lines(config_lines(input))
}

/// The flags that are well formed: rollout at most 100, finitely many
/// overrides, and an expiry (if any) that is the day of a valid date.
pub open spec fn valid_flag(f: FlagView) -> bool {
    &&& f.rollout <= 100
    &&& f.overrides.dom().finite()
    &&& f.expires matches Some(e) ==> crate::date::is_expiry_day(e)
}

pub proof fn lemma_attrs_prefix(a: Attrs, toks: Seq<Seq<char>>, line: nat, k: int)
    requires
        0 <= k <= toks.len(),
        apply_attrs(a, toks.take(k), line) is Err,
    ensures
        apply_attrs(a, toks, line) == apply_attrs(a, toks.take(k), line),
    decreases toks.len() - k,
{
    if k < toks.len() {
        assert(toks.take(k + 1).drop_last() =~= toks.take(k));
        lemma_attrs_prefix(a, toks, line, k + 1);
    } else {
        assert(toks.take(k) =~= toks);
    }
}

pub proof fn lemma_lines_prefix(lines: Seq<Seq<char>>, k: int)
    requires
        0 <= k <= lines.len(),
        run_lines(lines.take(k)) is Err,
    ensures
        run_lines(lines) == run_lines(lines.take(k)),
    decreases lines.len() - k,
{
    if k < lines.len() {
        assert(lines.take(k + 1).drop_last() =~= lines.take(k));
        lemma_lines_prefix(lines, k + 1);
    } else {
        assert(lines.take(k) =~= lines);
    }
}

/// Whether `key` gets flag `name` on day `today` (days since 1970-01-01).
///
/// An override pins the key and wins over everything else; otherwise an
/// expired flag (`today` at or after its `expires` day) is off, a disabled
/// flag is off, a 100% rollout is on, a 0% rollout is off, and any other
/// rollout `r` is on exactly for the keys whose bucket is below `r`. A flag
/// that was never declared is an error, not a silent `false`.
pub open spec fn eval_spec(flags: Map<Seq<char>, FlagView>, name: Seq<char>, key: Seq<char>, today: int) -> Result<bool, EvalFailure> {
    if !flags.contains_key(name) {
        Err(EvalFailure::UnknownFlag(name))
    } else {
        let f = flags[name];
        if f.overrides.contains_key(key) {
            Ok(f.overrides[key])
        } else if f.expires matches Some(e) && today >= e {
            Ok(false)
        } else if !f.enabled {
            Ok(false)
        } else if f.rollout >= 100 {
            Ok(true)
        } else if f.rollout == 0 {
            Ok(false)
        } else {
            Ok(bucket_spec(name, key) < f.rollout)
        }
    }
}

pub open spec fn bool_text(b: bool) -> Seq<char> {
    if b {
        "true"@
    } else {
        "false"@
    }
}

/// `enabled=.. rollout=.. [expires=YYYY-MM-DD] overrides=..`: a flag's static
/// configuration; the expiry part is there only when the flag has one.
pub open spec fn describe_text(f: FlagView) -> Seq<char> {
    "enabled="@ + bool_text(f.enabled) + " rollout="@ + decimal(f.rollout as nat) + match f.expires {
        Some(d) => " expires="@ + date_text(days_to_civil(d)),
        None => Seq::empty(),
    } + " overrides="@ + decimal(f.overrides.dom().len())
}

/// Whether flag `name` has expired by day `today`; `None` when it is not
/// declared or has no expiry.
pub open spec fn expired_spec(flags: Map<Seq<char>, FlagView>, name: Seq<char>, today: int) -> Option<bool> {
    if flags.contains_key(name) && flags[name].expires is Some {
        Some(today >= flags[name].expires->0)
    } else {
        None
    }
}

} // verus!
