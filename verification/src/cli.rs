//! Validation of command-line option values: decimal parsing and the
//! range checks for the grid size.  The argument parser itself lives
//! outside the library and hands the raw strings in.

use vstd::prelude::*;

verus! {

use crate::output::{MIN_GRID_HEIGHT, MIN_GRID_WIDTH};
use vstd::string::StringSliceAdditionalSpecFns;

/// Snake game options.
pub struct Opts {
    pub interval: u16,
    pub grid_width: u16,
    pub grid_height: u16,
    pub fit_grid: bool,
    pub no_obstacles: bool,
    pub autopilot: bool,
    pub arcade: bool,
}

impl From<Opts> for crate::snake::Config {
    fn from(opts: Opts) -> Self {
        crate::snake::Config {
            autopilot: opts.autopilot,
            arcade: opts.arcade,
            grid_width: opts.grid_width,
            grid_height: opts.grid_height,
            fit_grid: opts.fit_grid,
            no_obstacles: opts.no_obstacles,
            interval: opts.interval,
        }
    }
}

impl vstd::std_specs::convert::FromSpecImpl<Opts> for crate::snake::Config {
    open spec fn obeys_from_spec() -> bool {
        true
    }

    open spec fn from_spec(opts: Opts) -> Self {
        (crate::snake::Config {
            autopilot: opts.autopilot,
            arcade: opts.arcade,
            grid_width: opts.grid_width,
            grid_height: opts.grid_height,
            fit_grid: opts.fit_grid,
            no_obstacles: opts.no_obstacles,
            interval: opts.interval,
        })
    }
}

/// Why an option value was rejected.
#[derive(Debug, PartialEq, Eq, Structural, Clone, Copy)]
pub enum CliError {
    NotANumber,
    OutOfRange,
}

pub open spec fn is_digit(b: u8) -> bool {
    48 <= b <= 57
}

/// The number a sequence of decimal digit bytes denotes.
pub open spec fn digits_value(s: Seq<u8>) -> int
    decreases s.len(),
{
    if s.len() == 0 {
        0
    } else {
        digits_value(s.drop_last()) * 10 + (s.last() - 48)
    }
}

/// The byte sequence is a non-empty run of decimal digits.
pub open spec fn is_number_str(s: Seq<u8>) -> bool {
    s.len() > 0 && forall|i: int| 0 <= i < s.len() ==> is_digit(#[trigger] s[i])
}

/// The bytes that must be digits: everything after one optional
/// leading plus sign.
pub open spec fn number_part(s: Seq<u8>) -> Seq<u8> {
    if s.len() > 0 && s[0] == 43 {
        s.subrange(1, s.len() as int)
    } else {
        s
    }
}

proof fn lemma_digits_nonneg(s: Seq<u8>)
    requires
        forall|i: int| 0 <= i < s.len() ==> is_digit(#[trigger] s[i]),
    ensures
        digits_value(s) >= 0,
    decreases s.len(),
{
    if s.len() > 0 {
        lemma_digits_nonneg(s.drop_last());
    }
}

proof fn lemma_digits_take_step(s: Seq<u8>, i: int)
    requires
        0 <= i < s.len(),
    ensures
        digits_value(s.take(i + 1)) == digits_value(s.take(i)) * 10 + (s[i] - 48),
{
    assert(s.take(i + 1).drop_last() =~= s.take(i));
    assert(s.take(i + 1).last() == s[i]);
}

/// A digit run denotes at least what any of its prefixes denotes.
proof fn lemma_digits_prefix_le(s: Seq<u8>, i: int)
    requires
        forall|j: int| 0 <= j < s.len() ==> is_digit(#[trigger] s[j]),
        0 <= i <= s.len(),
    ensures
        digits_value(s.take(i)) <= digits_value(s),
    decreases s.len() - i,
{
    if i == s.len() {
        assert(s.take(i) =~= s);
    } else {
        lemma_digits_take_step(s, i);
        assert(forall|j: int| 0 <= j < s.take(i).len() ==> is_digit(#[trigger] s.take(i)[j]));
        lemma_digits_nonneg(s.take(i));
        lemma_digits_prefix_le(s, i + 1);
    }
}

/// Parses an unsigned decimal number, one optional leading plus sign
/// followed by a non-empty run of digits, or nothing when the string
/// holds anything else or overflows sixteen bits.
pub fn parse_u16(s: &str) -> (r: Option<u16>)
    ensures
        match r {
            Some(v) => is_number_str(number_part(s.spec_bytes())) && digits_value(
                number_part(s.spec_bytes()),
            ) == v,
            None => !is_number_str(number_part(s.spec_bytes())) || digits_value(
                number_part(s.spec_bytes()),
            ) > u16::MAX,
        },
{
    let bytes = s.as_bytes();
    let n = bytes.len();
    let off: usize = if n > 0 && bytes[0] == 43 {
        1
    } else {
        0
    };
    let ghost ds = number_part(s.spec_bytes());
    proof {
        assert(ds =~= s.spec_bytes().subrange(off as int, n as int));
    }
    if n == off {
        return None;
    }
    let mut acc: u32 = 0;
    let mut i: usize = off;
    while i < n
        invariant
            off <= i <= n,
            n == s.spec_bytes().len(),
            bytes@ == s.spec_bytes(),
            ds == number_part(s.spec_bytes()),
            ds =~= s.spec_bytes().subrange(off as int, n as int),
            forall|j: int| 0 <= j < i - off ==> is_digit(#[trigger] ds[j]),
            acc == digits_value(ds.take(i - off)),
            acc <= 0xFFFF,
        decreases n - i,
    {
        let b = bytes[i];
        proof {
            assert(ds[i - off] == b);
        }
        if b < 48 || b > 57 {
            proof {
                assert(!is_digit(ds[i - off]));
            }
            return None;
        }
        proof {
            lemma_digits_take_step(ds, i - off);
        }
        let next = acc * 10 + (b - 48) as u32;
        if next > 0xFFFF {
            proof {
                assert(forall|j: int| 0 <= j < i - off + 1 ==> is_digit(#[trigger] ds[j]));
                if is_number_str(ds) {
                    lemma_digits_prefix_le(ds, i - off + 1);
                }
            }
            return None;
        }
        acc = next;
        i = i + 1;
    }
    proof {
        assert(ds.take(n - off) =~= ds);
    }
    Some(acc as u16)
}

/// Checks a grid-width option: the string must be a number between the
/// smallest drawable width and the given maximum.
pub fn grid_width_in_range(s: &str, max: u16) -> (r: Result<u16, CliError>)
    ensures
        match r {
            Ok(v) => {
                &&& is_number_str(number_part(s.spec_bytes()))
                &&& digits_value(number_part(s.spec_bytes())) == v
                &&& MIN_GRID_WIDTH <= v <= max
            },
            Err(e) => match e {
                CliError::NotANumber => !is_number_str(number_part(s.spec_bytes()))
                    || digits_value(number_part(s.spec_bytes())) > u16::MAX,
                CliError::OutOfRange => {
                    &&& is_number_str(number_part(s.spec_bytes()))
                    &&& 0 <= digits_value(number_part(s.spec_bytes())) <= u16::MAX
                    &&& !(MIN_GRID_WIDTH <= digits_value(number_part(s.spec_bytes())) <= max)
                },
            },
        },
{
    match parse_u16(s) {
        Some(v) => {
            if MIN_GRID_WIDTH <= v && v <= max {
                Ok(v)
            } else {
                Err(CliError::OutOfRange)
            }
        }
        None => Err(CliError::NotANumber),
    }
}

/// Checks a grid-height option: the string must be a number between the
/// smallest drawable height and the given maximum.
pub fn grid_height_in_range(s: &str, max: u16) -> (r: Result<u16, CliError>)
    ensures
        match r {
            Ok(v) => {
                &&& is_number_str(number_part(s.spec_bytes()))
                &&& digits_value(number_part(s.spec_bytes())) == v
                &&& MIN_GRID_HEIGHT <= v <= max
            },
            Err(e) => match e {
                CliError::NotANumber => !is_number_str(number_part(s.spec_bytes()))
                    || digits_value(number_part(s.spec_bytes())) > u16::MAX,
                CliError::OutOfRange => {
                    &&& is_number_str(number_part(s.spec_bytes()))
                    &&& 0 <= digits_value(number_part(s.spec_bytes())) <= u16::MAX
                    &&& !(MIN_GRID_HEIGHT <= digits_value(number_part(s.spec_bytes())) <= max)
                },
            },
        },
{
    match parse_u16(s) {
        Some(v) => {
            if MIN_GRID_HEIGHT <= v && v <= max {
                Ok(v)
            } else {
                Err(CliError::OutOfRange)
            }
        }
        None => Err(CliError::NotANumber),
    }
}

} // verus!
