//! Zone placement logic for an append-only file shim over zoned storage: the state the
//! shim keeps, how writes are buffered and placed in zones, how reads are served, and
//! what opening, closing and unlinking files does.

pub mod state;
pub mod statics;
pub mod tables;
pub mod helpers;
pub mod replacements;
pub mod persist;
pub mod metadata;
pub mod learning;

use vstd::prelude::*;

verus! {

/// The decimal digit `d`, for `d` below 10.
pub open spec fn digit(d: int) -> char {
    if d == 0 {
        '0'
    } else if d == 1 {
        '1'
    } else if d == 2 {
        '2'
    } else if d == 3 {
        '3'
    } else if d == 4 {
        '4'
    } else if d == 5 {
        '5'
    } else if d == 6 {
        '6'
    } else if d == 7 {
        '7'
    } else if d == 8 {
        '8'
    } else {
        '9'
    }
}

/// `n`, below 100, in two decimal digits.
pub open spec fn two_digits(n: int) -> Seq<char> {
    seq![digit(n / 10), digit(n % 10)]
}

/// The time of day `secs` seconds and `nanos` nanoseconds after the epoch, in UTC, as
/// `HH:MM:SS.mmm`.
pub open spec fn timestamp_chars(secs: u64, nanos: u32) -> Seq<char> {
    let t = (secs % 86400) as int;
    let ms = (nanos / 1_000_000) as int;
    two_digits(t / 3600) + seq![':'] + two_digits((t % 3600) / 60) + seq![':'] + two_digits(t % 60)
        + seq!['.'] + seq![digit(ms / 100), digit((ms / 10) % 10), digit(ms % 10)]
}

/// The system clock's time since the epoch, as seconds and the nanoseconds past them, read
/// with `std::time::SystemTime::now`; nothing when the clock reads before the epoch.
#[verifier::external_body]
fn system_time_since_epoch() -> (t: Option<(u64, u32)>)
    ensures
        t matches Some((secs, nanos)) ==> nanos < 1_000_000_000,
{
    match std::time::SystemTime::now().duration_since(std::time::UNIX_EPOCH) {
        Ok(d) => Some((d.as_secs(), d.subsec_nanos())),
        Err(_) => None,
    }
}

fn push_digit(s: &mut String, d: u64)
    requires
        d < 10,
    ensures
        final(s)@ == old(s)@.push(digit(d as int)),
{
    let text = if d == 0 {
        "0"
    } else if d == 1 {
        "1"
    } else if d == 2 {
        "2"
    } else if d == 3 {
        "3"
    } else if d == 4 {
        "4"
    } else if d == 5 {
        "5"
    } else if d == 6 {
        "6"
    } else if d == 7 {
        "7"
    } else if d == 8 {
        "8"
    } else {
        "9"
    };
    proof {
        reveal_strlit("0");
        reveal_strlit("1");
        reveal_strlit("2");
        reveal_strlit("3");
        reveal_strlit("4");
        reveal_strlit("5");
        reveal_strlit("6");
        reveal_strlit("7");
        reveal_strlit("8");
        reveal_strlit("9");
        assert(text@ =~= seq![digit(d as int)]);
    }
    s.append(text);
}

fn push_two_digits(s: &mut String, n: u64)
    requires
        n < 100,
    ensures
        final(s)@ == old(s)@ + two_digits(n as int),
{
    push_digit(s, n / 10);
    push_digit(s, n % 10);
    proof {
        assert(s@ =~= old(s)@ + two_digits(n as int));
    }
}

fn push_char_text(s: &mut String, text: &str, c: char)
    requires
        text@ == seq![c],
    ensures
        final(s)@ == old(s)@.push(c),
{
    s.append(text);
    proof {
        assert(s@ =~= old(s)@.push(c));
    }
}

/// Formats the time of day `secs` seconds and `nanos` nanoseconds after the epoch, in UTC,
/// as `HH:MM:SS.mmm`.
pub fn format_timestamp(secs: u64, nanos: u32) -> (s: String)
    requires
        nanos < 1_000_000_000,
    ensures
        s@ == timestamp_chars(secs, nanos),
{
    let t = secs % 86400;
    let ms = (nanos / 1_000_000) as u64;
    let mut s = String::new();
    push_two_digits(&mut s, t / 3600);
    proof {
        reveal_strlit(":");
        reveal_strlit(".");
        assert(":"@ =~= seq![':']);
        assert("."@ =~= seq!['.']);
    }
    push_char_text(&mut s, ":", ':');
    push_two_digits(&mut s, (t % 3600) / 60);
    push_char_text(&mut s, ":", ':');
    push_two_digits(&mut s, t % 60);
    push_char_text(&mut s, ".", '.');
    push_digit(&mut s, ms / 100);
    push_digit(&mut s, (ms / 10) % 10);
    push_digit(&mut s, ms % 10);
    proof {
        assert(s@ =~= timestamp_chars(secs, nanos));
    }
    s
}

/// The current time of day on the system clock, in UTC, as `HH:MM:SS.mmm`; nothing when the
/// clock reads before the epoch.
pub fn get_timestamp() -> (s: Option<String>)
    ensures
        s matches Some(text) ==> exists|secs: u64, nanos: u32|
            nanos < 1_000_000_000 && text@ == timestamp_chars(secs, nanos),
{
    match system_time_since_epoch() {
        Some((secs, nanos)) => Some(format_timestamp(secs, nanos)),
        None => None,
    }
}

} // verus!
