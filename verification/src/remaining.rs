use crate::duration::Duration;
use crate::render::{
    dec_str, pad_left, spaces, spaces_string, u64_to_dec, u64_to_dec_pad, u64_to_two_digits,
    zero_pad2,
};
use vstd::arithmetic::div_mod::{lemma_div_is_ordered, lemma_fundamental_div_mod};
use vstd::prelude::*;

verus! {

/// A duration rounded to whole seconds for display: half-up on the
/// sub-second part, saturating at the top of the range.
pub open spec fn rounded_secs(d: Duration) -> int {
    if d.nanos > 500_000_000 {
        if d.secs == u64::MAX {
            u64::MAX as int
        } else {
            d.secs + 1
        }
    } else {
        d.secs as int
    }
}

/// The display decomposition of a second count: hours unbounded, minutes
/// and seconds within the hour.
pub open spec fn hours_of(t: int) -> int {
    t / 3600
}

pub open spec fn minutes_of(t: int) -> int {
    (t % 3600) / 60
}

pub open spec fn seconds_of(t: int) -> int {
    (t % 3600) % 60
}

/// The fixed-width countdown line for a second count.
///
/// With hours the layout is `HHH:MM:SS`; without hours the hour columns are
/// blank and minutes lose the leading zero; with only seconds everything
/// else is blank. Every layout is nine columns wide, so the display does
/// not jump as the countdown crosses a boundary.
pub open spec fn remaining_str(t: nat) -> Seq<char> {
    let h = hours_of(t as int) as nat;
    let m = minutes_of(t as int) as nat;
    let s = seconds_of(t as int) as nat;
    if h > 0 {
        pad_left(dec_str(h), 3) + seq![':'] + zero_pad2(m) + seq![':'] + zero_pad2(s)
    } else {
        let minutes_part = if m >= 10 {
            dec_str(m) + seq![':']
        } else if m >= 1 {
            seq![' '] + dec_str(m) + seq![':']
        } else {
            spaces(3)
        };
        let seconds_part = if m > 0 {
            zero_pad2(s)
        } else {
            pad_left(dec_str(s), 2)
        };
        spaces(4) + minutes_part + seconds_part
    }
}

/// Render a duration as the fixed-width countdown line.
pub fn format_remaining_time(input: Duration) -> (r: String)
    requires
        input.wf(),
    ensures
        r@ == remaining_str(rounded_secs(input) as nat),
{
    let mut t: u64 = input.secs;
    if input.nanos > 500_000_000 && t < u64::MAX {
        t = t + 1;
    }
    assert(t == rounded_secs(input));
    let h: u64 = t / 3600;
    let rm: u64 = t % 3600;
    let m: u64 = rm / 60;
    let s: u64 = rm % 60;
    proof {
        reveal_strlit(":");
        assert(":"@ =~= seq![':']);
        reveal_strlit(" ");
        assert(" "@ =~= seq![' ']);
    }
    if h > 0 {
        let mut out = u64_to_dec_pad(h, 3);
        out.append(":");
        out.append(u64_to_two_digits(m).as_str());
        out.append(":");
        out.append(u64_to_two_digits(s).as_str());
        out
    } else {
        let mut out = spaces_string(4);
        if m >= 10 {
            out.append(u64_to_dec(m).as_str());
            out.append(":");
            out.append(u64_to_two_digits(s).as_str());
        } else if m >= 1 {
            out.append(" ");
            out.append(u64_to_dec(m).as_str());
            out.append(":");
            out.append(u64_to_two_digits(s).as_str());
        } else {
            out.append(" ");
            out.append(" ");
            out.append(" ");
            proof {
                assert(spaces(0) =~= Seq::<char>::empty());
                assert(spaces(1) == spaces(0) + seq![' ']);
                assert(spaces(2) == spaces(1) + seq![' ']);
                assert(spaces(3) == spaces(2) + seq![' ']);
                assert(out@ =~= spaces(4) + spaces(3));
            }
            out.append(u64_to_dec_pad(s, 2).as_str());
        }
        out
    }
}

/// A longer duration never shows a smaller time: the rendered
/// hours/minutes/seconds of the shorter duration are at most those of the
/// longer one, compared in that order.
pub proof fn lemma_remaining_monotone(a: Duration, b: Duration)
    requires
        a.wf(),
        b.wf(),
        a.total_nanos() <= b.total_nanos(),
    ensures
        rounded_secs(a) <= rounded_secs(b),
        hours_of(rounded_secs(a)) <= hours_of(rounded_secs(b)),
        hours_of(rounded_secs(a)) == hours_of(rounded_secs(b)) ==> minutes_of(rounded_secs(a))
            <= minutes_of(rounded_secs(b)),
        hours_of(rounded_secs(a)) == hours_of(rounded_secs(b)) && minutes_of(rounded_secs(a))
            == minutes_of(rounded_secs(b)) ==> seconds_of(rounded_secs(a)) <= seconds_of(
            rounded_secs(b),
        ),
{
    // a longer duration has more seconds, or equal seconds and more nanos
    assert(a.secs <= b.secs) by (nonlinear_arith)
        requires
            a.secs * 1_000_000_000 + a.nanos <= b.secs * 1_000_000_000 + b.nanos,
            a.nanos < 1_000_000_000,
            b.nanos < 1_000_000_000,
    {
    }
    if a.secs == b.secs {
        assert(a.nanos <= b.nanos);
    }
    let ta = rounded_secs(a);
    let tb = rounded_secs(b);
    assert(ta <= tb);
    lemma_div_is_ordered(ta, tb, 3600);
    if ta / 3600 == tb / 3600 {
        lemma_fundamental_div_mod(ta, 3600);
        lemma_fundamental_div_mod(tb, 3600);
        assert(ta % 3600 <= tb % 3600);
        lemma_div_is_ordered(ta % 3600, tb % 3600, 60);
        if minutes_of(ta) == minutes_of(tb) {
            lemma_fundamental_div_mod(ta % 3600, 60);
            lemma_fundamental_div_mod(tb % 3600, 60);
        }
    }
}

} // verus!
