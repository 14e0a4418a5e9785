//! Settings that the environment of the process can override.

use vstd::prelude::*;
use vstd::string::*;

use crate::text::{lowered_is, parse_unsigned, same_text};
#[allow(unused_imports)]
use crate::text::{lowered, parsed_unsigned};

verus! {

/// How many bytes of packets a batch holds by default.
pub const DEFAULT_BATCH_BYTES: usize = 49152;

/// How many packets a batch holds by default.
pub const DEFAULT_BATCH_PACKETS: usize = 128;

/// How many milliseconds pass between two flushes by default.
pub const DEFAULT_BATCH_INTERVAL: u64 = 2;

/// The number that a setting gives, or the default where it is unset or no number up to `max`.
pub open spec fn number_or(value: Option<Seq<char>>, max: int, default: int) -> int {
    match value {
        Some(text) => match parsed_unsigned(text, max) {
            Some(n) => n,
            None => default,
        },
        None => default,
    }
}

/// What a setting holds.
pub open spec fn setting(value: Option<&str>) -> Option<Seq<char>> {
    match value {
        Some(text) => Some(text@),
        None => None,
    }
}

/// Whether a word means no.
pub open spec fn is_no(text: Seq<char>) -> bool {
    let word: Seq<char> = lowered(text);
    word == "0"@ || word == "false"@ || word == "no"@ || word == "off"@
}

/// The size that a setting gives, or the default.
pub fn env_usize(value: Option<&str>, default: usize) -> (n: usize)
    ensures
        n == number_or(setting(value), usize::MAX as int, default as int),
{
    match value {
        Some(text) => match parse_unsigned(text, usize::MAX as u64) {
            Some(n) => n as usize,
            None => default,
        },
        None => default,
    }
}

/// The number that a setting gives, or the default.
pub fn env_u64(value: Option<&str>, default: u64) -> (n: u64)
    ensures
        n == number_or(setting(value), u64::MAX as int, default as int),
{
    match value {
        Some(text) => match parse_unsigned(text, u64::MAX) {
            Some(n) => n,
            None => default,
        },
        None => default,
    }
}

/// Whether packets with the "don't fragment" flag stay whole: they do, unless the setting says no.
/// Any other word leaves it at that.
pub fn respect_df(value: Option<&str>) -> (r: bool)
    ensures
        r == (setting(value) matches Some(text) ==> !is_no(text)),
{
    match value {
        Some(text) => !(lowered_is(text, "0") || lowered_is(text, "false") || lowered_is(text, "no")
            || lowered_is(text, "off")),
        None => true,
    }
}

/// Whether port mapping is wanted: it is, unless the setting is `0` or `false`.
pub fn upnp_enabled(value: Option<&str>) -> (r: bool)
    ensures
        r == (setting(value) matches Some(text) ==> text != "0"@ && lowered(text) != "false"@),
{
    match value {
        Some(text) => !(same_text(text, "0") || lowered_is(text, "false")),
        None => true,
    }
}

/// A setting that is a number counts as that number, and any other as unset.
pub proof fn settings_that_are_numbers_count(text: Seq<char>, max: int, default: int)
    ensures
        number_or(None, max, default) == default,
        parsed_unsigned(text, max) is Some ==> number_or(Some(text), max, default)
            == parsed_unsigned(text, max)->0,
        parsed_unsigned(text, max) is None ==> number_or(Some(text), max, default) == default,
{
}

/// The words that say no, letter by letter, in capitals or not.
pub proof fn words_that_say_no(text: Seq<char>)
    ensures
        is_no(text) <==> {
            let word: Seq<char> = lowered(text);
            word == seq!['0'] || word == seq!['n', 'o'] || word == seq!['o', 'f', 'f'] || word == seq![
                'f',
                'a',
                'l',
                's',
                'e',
            ]
        },
{
    reveal_strlit("0");
    reveal_strlit("no");
    reveal_strlit("off");
    reveal_strlit("false");
    assert("0"@ =~= seq!['0']);
    assert("no"@ =~= seq!['n', 'o']);
    assert("off"@ =~= seq!['o', 'f', 'f']);
    assert("false"@ =~= seq!['f', 'a', 'l', 's', 'e']);
}

/// The defaults and how settings are read.
pub proof fn settings_have_these_defaults(value: Option<&str>)
    ensures
        DEFAULT_BATCH_BYTES == 48 * 1024,
        DEFAULT_BATCH_PACKETS == 128,
        DEFAULT_BATCH_INTERVAL == 2,
        value is None ==> setting(value) is None,
        value matches Some(text) ==> setting(value) == Some(text@),
{
}

} // verus!
