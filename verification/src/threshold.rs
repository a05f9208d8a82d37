//! From a memory limit expression to a threshold in bytes.
//!
//! An expression that ends in `%` is a percentage of the total memory; any
//! other is a byte size. The threshold is resolved once, before the first
//! sample, and the total memory plays no part in it unless the expression is a
//! percentage.

use vstd::prelude::*;
use vstd::string::StrSliceExecFns;
use crate::byte_size::{byte_size_of, parse_byte_size};
use crate::decimal::{decimal_of, parse_decimal, Decimal};
use crate::error::InvalidThreshold;
use crate::percentage::{lemma_share_is_nearest, percent_share, share};

verus! {

/// Whether the expression is a percentage: whether it ends in `%`.
pub open spec fn is_percentage(expression: Seq<char>) -> bool {
    expression.len() > 0 && expression.last() == '%'
}

/// The threshold that a percentage of the total memory amounts to, where
/// `number` is the text in front of the `%`.
pub open spec fn percentage_threshold_of(number: Seq<char>, total_memory: u64) -> Result<
    u64,
    InvalidThreshold,
> {
    match decimal_of(number) {
        None => Err(InvalidThreshold::MalformedPercentage),
        Some(percentage) => match share(total_memory as nat, percentage) {
            None => Err(InvalidThreshold::PercentageTooLarge),
            Some(bytes) => Ok(bytes as u64),
        },
    }
}

/// The threshold in bytes that a memory limit expression stands for on a
/// machine with `total_memory` bytes of memory.
pub open spec fn threshold_of(expression: Seq<char>, total_memory: u64) -> Result<
    u64,
    InvalidThreshold,
> {
    if is_percentage(expression) {
        percentage_threshold_of(expression.drop_last(), total_memory)
    } else {
        match byte_size_of(expression, true) {
            Some(bytes) => Ok(bytes),
            None => Err(InvalidThreshold::MalformedSize),
        }
    }
}

/// Resolves a percentage of the total memory, where `number` is the text in
/// front of the `%`: the share of the total, rounded to the nearest byte. A
/// text that is no decimal literal is refused, and so is a percentage of 100
/// or more.
pub fn percentage_threshold(number: &str, total_memory: u64) -> (threshold: Result<
    u64,
    InvalidThreshold,
>)
    ensures
        threshold == percentage_threshold_of(number@, total_memory),
{
    match parse_decimal(number) {
        None => Err(InvalidThreshold::MalformedPercentage),
        Some(percentage) => match percent_share(total_memory, &percentage) {
            None => Err(InvalidThreshold::PercentageTooLarge),
            Some(bytes) => Ok(bytes),
        },
    }
}

/// The threshold that the reading of a byte size amounts to: the size where
/// the text was one, and a refusal where it was not.
pub fn absolute_threshold(parsed: Result<u64, byte_unit::ParseError>) -> (threshold: Result<
    u64,
    InvalidThreshold,
>)
    ensures
        threshold == (match parsed {
            Ok(bytes) => Ok::<u64, InvalidThreshold>(bytes),
            Err(_) => Err(InvalidThreshold::MalformedSize),
        }),
{
    match parsed {
        Ok(bytes) => Ok(bytes),
        Err(_) => Err(InvalidThreshold::MalformedSize),
    }
}

/// Resolves a memory limit expression to a threshold in bytes, given the total
/// memory of the machine in bytes.
pub fn str_to_bytes_of_memory(mem_str: &str, total_mem: u64) -> (threshold: Result<
    u64,
    InvalidThreshold,
>)
    ensures
        threshold == threshold_of(mem_str@, total_mem),
{
    let count = mem_str.unicode_len();
    if count > 0 && mem_str.get_char(count - 1) == '%' {
        let number = mem_str.substring_char(0, count - 1);
        assert(number@ =~= mem_str@.drop_last());
        percentage_threshold(number, total_mem)
    } else {
        absolute_threshold(parse_byte_size(mem_str, true))
    }
}

/// A percentage of 100 or more is refused. A percentage from 0 up to 100 is
/// resolved to the whole number of bytes nearest to `total * percentage / 100`,
/// the upper one where two are equally near; the threshold is no more than
/// the total. A literal with a minus sign is resolved to zero.
pub proof fn lemma_percentage_resolves_to_nearest(
    number: Seq<char>,
    total_memory: u64,
    percentage: Decimal,
)
    requires
        decimal_of(number) == Some(percentage),
    ensures
        is_percentage(number.push('%')),
        !percentage.negative && percentage.numerator() >= 100 * percentage.denominator()
            ==> threshold_of(number.push('%'), total_memory) == Err::<u64, InvalidThreshold>(
            InvalidThreshold::PercentageTooLarge,
        ),
        !percentage.negative && percentage.numerator() < 100 * percentage.denominator() ==> (
        threshold_of(number.push('%'), total_memory) matches Ok(bytes) && {
            &&& (2 * bytes - 1) * (100 * percentage.denominator()) <= 2 * total_memory
                * percentage.numerator()
            &&& 2 * total_memory * percentage.numerator() < (2 * bytes + 1) * (100
                * percentage.denominator())
            &&& bytes <= total_memory
        }),
        percentage.negative ==> threshold_of(number.push('%'), total_memory) == Ok::<
            u64,
            InvalidThreshold,
        >(0),
{
    assert(number.push('%').drop_last() =~= number);
    if !percentage.negative && percentage.numerator() < 100 * percentage.denominator() {
        lemma_share_is_nearest(total_memory as nat, percentage);
    }
}

/// An expression that does not end in `%` is never read as a percentage, and
/// one that is the text of a literal followed by `%` is never read as a byte
/// size: what is refused as one is not tried as the other.
pub proof fn lemma_refusals_tell_the_kind(expression: Seq<char>, total_memory: u64)
    ensures
        threshold_of(expression, total_memory) == Err::<u64, InvalidThreshold>(
            InvalidThreshold::MalformedSize,
        ) ==> !is_percentage(expression),
        threshold_of(expression, total_memory) == Err::<u64, InvalidThreshold>(
            InvalidThreshold::MalformedPercentage,
        ) ==> is_percentage(expression),
        threshold_of(expression, total_memory) == Err::<u64, InvalidThreshold>(
            InvalidThreshold::PercentageTooLarge,
        ) ==> is_percentage(expression),
{
}

/// A byte size is resolved to the bytes that were read from it, whatever the
/// total memory is.
pub proof fn lemma_byte_size_ignores_total(expression: Seq<char>, total_a: u64, total_b: u64)
    requires
        !is_percentage(expression),
    ensures
        threshold_of(expression, total_a) == threshold_of(expression, total_b),
        forall|bytes: u64|
            byte_size_of(expression, true) == Some(bytes) ==> threshold_of(expression, total_a)
                == Ok::<u64, InvalidThreshold>(bytes),
        byte_size_of(expression, true) is None ==> threshold_of(expression, total_a) == Err::<
            u64,
            InvalidThreshold,
        >(InvalidThreshold::MalformedSize),
{
}

} // verus!
