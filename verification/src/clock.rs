use vstd::prelude::*;
use crate::mcp::{dec_text, push_decimal_text};

verus! {

/// `std::time::SystemTime::now`, as whole seconds since the Unix epoch (0 for
/// a clock set before the epoch). Nothing is promised of the value: it is the
/// machine's clock.
#[verifier::external_body]
pub(crate) fn now_secs() -> u64 {
    std::time::SystemTime::now().duration_since(std::time::UNIX_EPOCH).unwrap_or_default().as_secs()
}

/// How long ago `secs` was at time `now` (zero for a time in the future):
/// seconds under a minute, minutes under an hour, hours under a day, else
/// days, each rounded down and followed by its unit and " ago".
pub open spec fn age_spec(now: u64, secs: u64) -> Seq<char> {
    let diff: nat = if now >= secs { (now - secs) as nat } else { 0 };
    if diff < 60 {
        dec_text(diff) + "s ago"@
    } else if diff < 3600 {
        dec_text(diff / 60) + "m ago"@
    } else if diff < 86400 {
        dec_text(diff / 3600) + "h ago"@
    } else {
        dec_text(diff / 86400) + "d ago"@
    }
}

/// How long ago `secs` was at time `now` (see `age_spec`).
pub fn age_text(now: u64, secs: u64) -> (s: String)
    ensures
        s@ == age_spec(now, secs),
{
    let diff = if now >= secs { now - secs } else { 0 };
    let mut s = String::new();
    let (count, unit) = if diff < 60 {
        (diff, "s ago")
    } else if diff < 3600 {
        (diff / 60, "m ago")
    } else if diff < 86400 {
        (diff / 3600, "h ago")
    } else {
        (diff / 86400, "d ago")
    };
    push_decimal_text(&mut s, count);
    s.append(unit);
    proof {
        reveal_strlit("s ago");
        reveal_strlit("m ago");
        reveal_strlit("h ago");
        reveal_strlit("d ago");
    }
    s
}

/// How long ago `secs` was, by the system clock (see `age_text`).
pub fn timestamp_str(secs: u64) -> (s: String)
    ensures
        exists|now: u64| s@ == #[trigger] age_spec(now, secs),
{
    let now = now_secs();
    age_text(now, secs)
}

} // verus!
