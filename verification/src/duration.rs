//! Elapsed-time rendering for pending tasks: given the seconds between a
//! task's creation and "now", the text a listing shows. The largest unit
//! leads: days and hours from one day on, else hours and minutes from one
//! hour on, else minutes alone.

use vstd::prelude::*;
use vstd::string::*;

use crate::codec::{dec_of, push_u64};

verus! {

/// The rendered duration: `D days, H hours`, `H hours, M minutes` or
/// `M minutes`, with each value in whole units of the one below it.
pub open spec fn spec_format_duration(s: nat) -> Seq<char> {
    let days = s / 86400;
    let hours = (s % 86400) / 3600;
    let minutes = (s % 3600) / 60;
    if days > 0 {
        dec_of(days) + " days, "@ + dec_of(hours) + " hours"@
    } else if hours > 0 {
        dec_of(hours) + " hours, "@ + dec_of(minutes) + " minutes"@
    } else {
        dec_of(minutes) + " minutes"@
    }
}

/// Renders a duration of `total_seconds`, an elapsed time and therefore
/// never negative.
pub fn format_duration(total_seconds: i64) -> (r: String)
    requires
        total_seconds >= 0,
    ensures
        r@ == spec_format_duration(total_seconds as nat),
{
    let s = total_seconds as u64;
    let days = s / 86400;
    let hours = (s % 86400) / 3600;
    let minutes = (s % 3600) / 60;
    let mut out = String::new();
    if days > 0 {
        push_u64(&mut out, days);
        out.append(" days, ");
        push_u64(&mut out, hours);
        out.append(" hours");
        proof {
            assert(out@ =~= dec_of(days as nat) + " days, "@ + dec_of(hours as nat) + " hours"@);
        }
    } else if hours > 0 {
        push_u64(&mut out, hours);
        out.append(" hours, ");
        push_u64(&mut out, minutes);
        out.append(" minutes");
        proof {
            assert(out@ =~= dec_of(hours as nat) + " hours, "@ + dec_of(minutes as nat)
                + " minutes"@);
        }
    } else {
        push_u64(&mut out, minutes);
        out.append(" minutes");
        proof {
            assert(out@ =~= dec_of(minutes as nat) + " minutes"@);
        }
    }
    out
}

} // verus!
