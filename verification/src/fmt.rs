//! Textual rendering of numbers, byte ranges, sizes and durations.

use vstd::prelude::*;
use crate::progress::Progress;

verus! {

/// The character for one decimal digit.
pub open spec fn dec_digit_char(d: int) -> char {
    if d == 0 {
        '0'
    } else if d == 1 {
        '1'
    } else if d == 2 {
        '2'
    } else if d == 3 {
        '3'
    } else if d == 4 {
        '4'
    } else if d == 5 {
        '5'
    } else if d == 6 {
        '6'
    } else if d == 7 {
        '7'
    } else if d == 8 {
        '8'
    } else {
        '9'
    }
}

/// Decimal representation of a non-negative number, most significant digit
/// first, no leading zeros (except for the number zero itself).
pub open spec fn dec_rep(n: int) -> Seq<char>
    decreases n,
{
    if n < 10 {
        seq![dec_digit_char(n)]
    } else {
        dec_rep(n / 10).push(dec_digit_char(n % 10))
    }
}

fn digit_str(d: u64) -> (r: &'static str)
    requires
        d < 10,
    ensures
        r@ == seq![dec_digit_char(d as int)],
{
    proof {
        reveal_strlit("0");
        reveal_strlit("1");
        reveal_strlit("2");
        reveal_strlit("3");
        reveal_strlit("4");
        reveal_strlit("5");
        reveal_strlit("6");
        reveal_strlit("7");
        reveal_strlit("8");
        reveal_strlit("9");
    }
    let r = if d == 0 {
        "0"
    } else if d == 1 {
        "1"
    } else if d == 2 {
        "2"
    } else if d == 3 {
        "3"
    } else if d == 4 {
        "4"
    } else if d == 5 {
        "5"
    } else if d == 6 {
        "6"
    } else if d == 7 {
        "7"
    } else if d == 8 {
        "8"
    } else {
        "9"
    };
    proof {
        assert(r@ =~= seq![dec_digit_char(d as int)]);
    }
    r
}

/// Decimal rendering of an unsigned number.
pub fn u64_string(n: u64) -> (r: String)
    ensures
        r@ == dec_rep(n as int),
    decreases n,
{
    if n < 10 {
        digit_str(n).to_owned()
    } else {
        let mut s = u64_string(n / 10);
        s.append(digit_str(n % 10));
        proof {
            assert(s@ =~= dec_rep(n as int));
        }
        s
    }
}

/// A two-digit, zero-padded decimal fraction.
pub open spec fn two_digit_rep(f: int) -> Seq<char> {
    seq![dec_digit_char(f / 10), dec_digit_char(f % 10)]
}

pub(crate) fn two_digit_string(f: u64) -> (r: String)
    requires
        f < 100,
    ensures
        r@ == two_digit_rep(f as int),
{
    let mut s = digit_str(f / 10).to_owned();
    s.append(digit_str(f % 10));
    proof {
        assert(s@ =~= two_digit_rep(f as int));
    }
    s
}

/// How one completed range prints: `start-last`, where `last` is the final
/// byte offset the range covers (its end minus one).
pub open spec fn range_rep(p: Progress) -> Seq<char> {
    dec_rep(p.start as int) + seq!['-'] + dec_rep(p.end - 1)
}

/// How a sequence of completed ranges prints: the ranges in order, separated
/// by commas.
pub open spec fn display_rep(rs: Seq<Progress>) -> Seq<char>
    decreases rs.len(),
{
    if rs.len() == 0 {
        Seq::empty()
    } else if rs.len() == 1 {
        range_rep(rs[0])
    } else {
        display_rep(rs.drop_last()) + seq![','] + range_rep(rs.last())
    }
}

/// Renders completed ranges as text, e.g. `0-9,20-29`.
pub fn display_progress(progress: &[Progress]) -> (r: String)
    requires
        forall|k: int| 0 <= k < progress@.len() ==> (#[trigger] progress@[k]).is_range(),
    ensures
        r@ == display_rep(progress@),
{
    proof {
        reveal_strlit("-");
        reveal_strlit(",");
    }
    let n = progress.len();
    let mut s = String::new();
    let mut i: usize = 0;
    while i < n
        invariant
            n == progress@.len(),
            forall|k: int| 0 <= k < progress@.len() ==> (#[trigger] progress@[k]).is_range(),
            0 <= i <= n,
            s@ == display_rep(progress@.subrange(0, i as int)),
            "-"@ == seq!['-'],
            ","@ == seq![','],
        decreases n - i,
    {
        let p = progress[i];
        if i > 0 {
            s.append(",");
        }
        s.append(u64_string(p.start).as_str());
        s.append("-");
        s.append(u64_string(p.end - 1).as_str());
        proof {
            let sub = progress@.subrange(0, i + 1 as int);
            assert(sub.drop_last() =~= progress@.subrange(0, i as int));
            assert(sub.last() == p);
            if i == 0 {
                assert(s@ =~= range_rep(p));
            }
            assert(s@ =~= display_rep(sub));
        }
        i = i + 1;
    }
    proof {
        assert(progress@.subrange(0, n as int) =~= progress@);
    }
    s
}

/// Human-readable size with binary units and two decimals, e.g. `1.50 MiB`.
pub open spec fn size_rep(n: int) -> Seq<char> {
    let kib = 0x400;
    let mib = 0x100000;
    let gib = 0x40000000;
    let tib = 0x10000000000;
    let pib = 0x4000000000000;
    if n < kib {
        dec_rep(n) + seq![' ', 'B']
    } else if n < mib {
        scaled_rep(n, kib) + seq![' ', 'K', 'i', 'B']
    } else if n < gib {
        scaled_rep(n, mib) + seq![' ', 'M', 'i', 'B']
    } else if n < tib {
        scaled_rep(n, gib) + seq![' ', 'G', 'i', 'B']
    } else if n < pib {
        scaled_rep(n, tib) + seq![' ', 'T', 'i', 'B']
    } else {
        scaled_rep(n, pib) + seq![' ', 'P', 'i', 'B']
    }
}

/// A size scaled by a unit, as a whole part and a two-digit fraction.
pub open spec fn scaled_rep(n: int, unit: int) -> Seq<char> {
    dec_rep(n / unit) + seq!['.'] + two_digit_rep((n % unit) * 100 / unit)
}

fn scaled_string(n: u64, unit: u64) -> (r: String)
    requires
        unit >= 1,
        unit <= 0x4000000000000,
    ensures
        r@ == scaled_rep(n as int, unit as int),
{
    let whole = n / unit;
    let rem = n % unit;
    let frac = (((rem as u128) * 100) / (unit as u128)) as u64;
    proof {
        assert((rem as int) * 100 / (unit as int) < 100) by (nonlinear_arith)
            requires
                unit >= 1,
                0 <= rem < unit,
        ;
        assert((rem as int) * 100 / (unit as int) >= 0) by (nonlinear_arith)
            requires
                unit >= 1,
                rem >= 0,
        ;
        reveal_strlit(".");
    }
    let mut s = u64_string(whole);
    s.append(".");
    s.append(two_digit_string(frac).as_str());
    proof {
        assert("."@ =~= seq!['.']);
        assert(s@ =~= scaled_rep(n as int, unit as int));
    }
    s
}

/// Renders a byte count with binary units, e.g. `1.50 MiB`.
pub fn format_size(n: u64) -> (r: String)
    ensures
        r@ == size_rep(n as int),
{
    proof {
        reveal_strlit(" B");
        reveal_strlit(" KiB");
        reveal_strlit(" MiB");
        reveal_strlit(" GiB");
        reveal_strlit(" TiB");
        reveal_strlit(" PiB");
    }
    let kib: u64 = 0x400;
    let mib: u64 = 0x100000;
    let gib: u64 = 0x40000000;
    let tib: u64 = 0x10000000000;
    let pib: u64 = 0x4000000000000;
    let mut s: String;
    if n < kib {
        s = u64_string(n);
        s.append(" B");
        proof {
            assert(s@ =~= size_rep(n as int));
        }
    } else if n < mib {
        s = scaled_string(n, kib);
        s.append(" KiB");
        proof {
            assert(s@ =~= size_rep(n as int));
        }
    } else if n < gib {
        s = scaled_string(n, mib);
        s.append(" MiB");
        proof {
            assert(s@ =~= size_rep(n as int));
        }
    } else if n < tib {
        s = scaled_string(n, gib);
        s.append(" GiB");
        proof {
            assert(s@ =~= size_rep(n as int));
        }
    } else if n < pib {
        s = scaled_string(n, tib);
        s.append(" TiB");
        proof {
            assert(s@ =~= size_rep(n as int));
        }
    } else {
        s = scaled_string(n, pib);
        s.append(" PiB");
        proof {
            assert(s@ =~= size_rep(n as int));
        }
    }
    s
}

/// Human-readable duration: hours, minutes and seconds, e.g. `1h 2m 3s`.
pub open spec fn time_rep(secs: int) -> Seq<char> {
    dec_rep(secs / 3600) + seq!['h', ' '] + dec_rep((secs % 3600) / 60) + seq!['m', ' ']
        + dec_rep(secs % 60) + seq!['s']
}

/// Renders a duration in seconds as `Hh Mm Ss`.
pub fn format_time(secs: u64) -> (r: String)
    ensures
        r@ == time_rep(secs as int),
{
    proof {
        reveal_strlit("h ");
        reveal_strlit("m ");
        reveal_strlit("s");
    }
    let mut s = u64_string(secs / 3600);
    s.append("h ");
    s.append(u64_string((secs % 3600) / 60).as_str());
    s.append("m ");
    s.append(u64_string(secs % 60).as_str());
    s.append("s");
    proof {
        assert(s@ =~= time_rep(secs as int));
    }
    s
}

} // verus!
