//! Configuration data and the small pure pieces of loading it: the
//! duration-string grammar and the defaults.  Reading files, the command
//! line and JSON happens outside the verified library, which only ever
//! sees plain values.

use vstd::prelude::*;
use vstd::string::{StrSliceExecFns, StringSliceAdditionalSpecFns};

use crate::moosecmd::trim_bytes;

verus! {

/// The bot's configuration; durations are in milliseconds.
pub struct Config {
    pub nick: String,
    pub pass: Option<String>,
    pub host: String,
    pub tls: bool,
    pub nickserv: Option<String>,
    pub send_burst: usize,
    pub send_delay: u64,
    pub moose_delay: u64,
    pub moose_url: String,
    pub channels: Vec<String>,
    pub invite_file: Option<String>,
    pub disable_search: bool,
}

/// The command line: a configuration file, an optional invite file, and
/// an optional subcommand.
pub struct Args {
    pub config: String,
    pub invites: Option<String>,
    pub subcommand: Option<SubCommand>,
}

/// What to do: write an example configuration, or run.
pub enum SubCommand {
    Init,
    Run,
}

/// The content service used when none is configured.
pub fn default_moose_url() -> (r: String)
    ensures
        r@ == ("https://moose2.ghetty.space")@,
{
    "https://moose2.ghetty.space".to_owned()
}

/// The conventional port for the chosen transport.
pub fn default_port(tls: bool) -> (r: u16)
    ensures
        r == if tls {
            6697u16
        } else {
            6667u16
        },
{
    if tls {
        6697
    } else {
        6667
    }
}

/// Why a duration string was rejected.
#[derive(Debug, PartialEq, Eq, Structural)]
pub enum DurationError {
    Empty,
    NoNumber,
    BadUnit,
    TooLarge,
}

/// An ASCII digit.
pub open spec fn is_digit(b: u8) -> bool {
    48 <= b <= 57
}

/// First non-digit index at or after `i`, or the length of `b`.
pub open spec fn digits_end(b: Seq<u8>, i: int) -> int
    recommends
        0 <= i,
    decreases b.len() - i when 0 <= i <= b.len()
{
    if i >= b.len() {
        b.len() as int
    } else if is_digit(b[i]) {
        digits_end(b, i + 1)
    } else {
        i
    }
}

proof fn lemma_digits_end_bounds(b: Seq<u8>, i: int)
    requires
        0 <= i <= b.len(),
    ensures
        i <= digits_end(b, i) <= b.len(),
        digits_end(b, i) < b.len() ==> !is_digit(b[digits_end(b, i)]),
        forall|k: int| i <= k < digits_end(b, i) ==> is_digit(b[k]),
    decreases b.len() - i,
{
    if i < b.len() && is_digit(b[i]) {
        lemma_digits_end_bounds(b, i + 1);
    }
}

/// The value of the digits before `end`, read in decimal.
pub open spec fn num_val(b: Seq<u8>, end: int) -> int
    recommends
        end <= b.len(),
    decreases end when 0 <= end <= b.len()
{
    if end <= 0 {
        0
    } else {
        num_val(b, end - 1) * 10 + (b[end - 1] - 48)
    }
}

proof fn lemma_num_val_mono(b: Seq<u8>, i: int, j: int)
    requires
        0 <= i <= j <= b.len(),
        forall|k: int| 0 <= k < j ==> is_digit(#[trigger] b[k]),
    ensures
        0 <= num_val(b, i) <= num_val(b, j),
    decreases j - i,
{
    if i == 0 {
    }
    if i < j {
        lemma_num_val_mono(b, i, j - 1);
        assert(num_val(b, j) == num_val(b, j - 1) * 10 + (b[j - 1] - 48));
        assert(num_val(b, j - 1) * 10 >= num_val(b, j - 1)) by (nonlinear_arith)
            requires
                num_val(b, j - 1) >= 0,
        ;
    } else {
        lemma_num_val_nonneg(b, i);
    }
}

proof fn lemma_num_val_nonneg(b: Seq<u8>, end: int)
    requires
        0 <= end <= b.len(),
        forall|k: int| 0 <= k < end ==> is_digit(#[trigger] b[k]),
    ensures
        num_val(b, end) >= 0,
    decreases end,
{
    if end > 0 {
        lemma_num_val_nonneg(b, end - 1);
        assert(num_val(b, end - 1) * 10 >= 0) by (nonlinear_arith)
            requires
                num_val(b, end - 1) >= 0,
        ;
    }
}

/// The duration grammar: a bare number is milliseconds; a number with a
/// unit of seconds, milliseconds, microseconds or nanoseconds is
/// converted to milliseconds, rounding sub-millisecond values down.  A
/// number too large for the result is rejected rather than accepted
/// wrongly.
pub open spec fn duration_ms_spec(b: Seq<u8>) -> Result<int, DurationError> {
    let n = b.len() as int;
    if n == 0 {
        Err(DurationError::Empty)
    } else {
        let de = digits_end(b, 0);
        if de == 0 && de < n {
            Err(DurationError::NoNumber)
        } else {
            let v = num_val(b, de);
            if v > u64::MAX {
                Err(DurationError::TooLarge)
            } else if de == n {
                Ok(v)
            } else {
                let unit = trim_bytes(b.subrange(de, n));
                if unit == ("s").spec_bytes() || unit == ("secs").spec_bytes() || unit == (
                "seconds").spec_bytes() {
                    if v * 1000 > u64::MAX {
                        Err(DurationError::TooLarge)
                    } else {
                        Ok(v * 1000)
                    }
                } else if unit == ("ns").spec_bytes() {
                    Ok(v / 1000000)
                } else if unit == ("us").spec_bytes() {
                    Ok(v / 1000)
                } else if unit == ("ms").spec_bytes() {
                    Ok(v)
                } else {
                    Err(DurationError::BadUnit)
                }
            }
        }
    }
}

/// Parse a duration string to milliseconds.
#[verifier::loop_isolation(false)]
pub fn parse_duration_ms(s: &str) -> (r: Result<u64, DurationError>)
    ensures
        (duration_ms_spec(s.spec_bytes()) matches Ok(v) ==> (r matches Ok(x) && x == v)),
        (duration_ms_spec(s.spec_bytes()) matches Err(e) ==> (r matches Err(x) && x == e)),
{
    let b = s.as_bytes();
    let n = b.len();
    if n == 0 {
        return Err(DurationError::Empty);
    }
    let mut de: usize = 0;
    while de < n && 48 <= b[de] && b[de] <= 57
        invariant
            de <= n,
            digits_end(b@, 0) == digits_end(b@, de as int),
        decreases n - de,
    {
        de = de + 1;
    }
    proof {
        lemma_digits_end_bounds(b@, 0);
        assert(de == digits_end(b@, 0));
    }
    if de == 0 {
        return Err(DurationError::NoNumber);
    }
    let mut val: u64 = 0;
    let mut i: usize = 0;
    while i < de
        invariant
            i <= de,
            val == num_val(b@, i as int),
        decreases de - i,
    {
        let d = (b[i] - 48) as u64;
        if val > (u64::MAX - d) / 10 {
            proof {
                let vi = num_val(b@, i as int);
                assert(vi * 10 + d > u64::MAX) by (nonlinear_arith)
                    requires
                        vi > (u64::MAX as int - d) / 10,
                        0 <= d <= 9,
                        vi >= 0,
                ;
                lemma_num_val_mono(b@, i as int + 1, de as int);
            }
            return Err(DurationError::TooLarge);
        }
        proof {
            let vi = num_val(b@, i as int);
            assert(vi * 10 + d <= u64::MAX) by (nonlinear_arith)
                requires
                    vi <= (u64::MAX as int - d) / 10,
                    0 <= d <= 9,
                    vi >= 0,
            ;
        }
        val = val * 10 + d;
        i = i + 1;
    }
    if de == n {
        return Ok(val);
    }
    let unit = crate::moosecmd::trimmed_window(b, de, n);
    if crate::parse::eq_bytes(unit.as_slice(), "s".as_bytes()) || crate::parse::eq_bytes(
        unit.as_slice(),
        "secs".as_bytes(),
    ) || crate::parse::eq_bytes(unit.as_slice(), "seconds".as_bytes()) {
        if val > u64::MAX / 1000 {
            proof {
                assert(val as int * 1000 > u64::MAX) by (nonlinear_arith)
                    requires
                        val as int > (u64::MAX as int) / 1000,
                ;
            }
            return Err(DurationError::TooLarge);
        }
        proof {
            assert(val as int * 1000 <= u64::MAX) by (nonlinear_arith)
                requires
                    val as int <= (u64::MAX as int) / 1000,
                    val >= 0,
            ;
        }
        Ok(val * 1000)
    } else if crate::parse::eq_bytes(unit.as_slice(), "ns".as_bytes()) {
        Ok(val / 1000000)
    } else if crate::parse::eq_bytes(unit.as_slice(), "us".as_bytes()) {
        Ok(val / 1000)
    } else if crate::parse::eq_bytes(unit.as_slice(), "ms".as_bytes()) {
        Ok(val)
    } else {
        Err(DurationError::BadUnit)
    }
}

} // verus!
