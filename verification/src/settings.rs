//! Settings from the environment.

use vstd::prelude::*;
use crate::text;
use crate::text::{char_vec, parse_unsigned};

verus! {

/// The number that a setting stands for: the default where it is not set, is not a
/// number, or is a larger one than the limit.
pub open spec fn number_or(value: Option<&str>, limit: u64, default: u64) -> u64 {
    match value {
        Some(s) => match text::number(s@, false, 0, limit as int) {
            Some(n) => n as u64,
            None => default,
        },
        None => default,
    }
}

/// A number of at most the limit, or the default.
pub fn number_setting(value: Option<&str>, limit: u64, default: u64) -> (r: u64)
    ensures
        r == number_or(value, limit, default),
{
    match value {
        Some(s) => {
            let chars = char_vec(s);
            assert(chars@.subrange(0, chars@.len() as int) =~= s@);
            match parse_unsigned(&chars, 0, chars.len(), limit) {
                Some(n) => n,
                None => default,
            }
        },
        None => default,
    }
}

/// A number that fits in a `usize`, or the default.
pub fn env_usize(value: Option<&str>, default: usize) -> (r: usize)
    ensures
        r == number_or(value, usize::MAX as u64, default as u64),
{
    number_setting(value, usize::MAX as u64, default as u64) as usize
}

/// The port of the metrics endpoint.
pub fn metrics_port(value: Option<&str>, default: u16) -> (r: u16)
    ensures
        r == number_or(value, u16::MAX as u64, default as u64),
{
    number_setting(value, u16::MAX as u64, default as u64) as u16
}

/// A text, or the default.
pub fn env_str(value: Option<&str>, default: &str) -> (r: String)
    ensures
        r@ == match value {
            Some(s) => s@,
            None => default@,
        },
{
    match value {
        Some(s) => s.to_owned(),
        None => default.to_owned(),
    }
}

/// A setting that is written as a number is taken as that number.
pub proof fn lemma_number_is_taken(s: &str, n: u64, limit: u64, default: u64)
    requires
        n <= limit,
        s@ == text::digits(n as nat),
    ensures
        number_or(Some(s), limit, default) == n,
{
    text::lemma_number_of_text(n as int, 0, limit as int);
}

} // verus!
