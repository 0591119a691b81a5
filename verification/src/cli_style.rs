use vstd::prelude::*;

verus! {

/// The character for one decimal digit.
pub open spec fn dec_digit(d: int) -> char {
    if d == 0 {
        '0'
    } else if d == 1 {
        '1'
    } else if d == 2 {
        '2'
    } else if d == 3 {
        '3'
    } else if d == 4 {
        '4'
    } else if d == 5 {
        '5'
    } else if d == 6 {
        '6'
    } else if d == 7 {
        '7'
    } else if d == 8 {
        '8'
    } else {
        '9'
    }
}

/// The decimal rendering of a non-negative number, most significant digit
/// first.
pub open spec fn spec_dec(n: int) -> Seq<char>
    decreases n,
{
    if n < 10 {
        seq![dec_digit(n)]
    } else {
        spec_dec(n / 10).push(dec_digit(n % 10))
    }
}

/// One digit as text.
fn digit_str(d: u64) -> (r: &'static str)
    requires
        d < 10,
    ensures
        r@ == seq![dec_digit(d as int)],
{
    proof {
        reveal_strlit("0");
        reveal_strlit("1");
        reveal_strlit("2");
        reveal_strlit("3");
        reveal_strlit("4");
        reveal_strlit("5");
        reveal_strlit("6");
        reveal_strlit("7");
        reveal_strlit("8");
        reveal_strlit("9");
    }
    let r = if d == 0 {
        "0"
    } else if d == 1 {
        "1"
    } else if d == 2 {
        "2"
    } else if d == 3 {
        "3"
    } else if d == 4 {
        "4"
    } else if d == 5 {
        "5"
    } else if d == 6 {
        "6"
    } else if d == 7 {
        "7"
    } else if d == 8 {
        "8"
    } else {
        "9"
    };
    proof {
        assert(r@ =~= seq![dec_digit(d as int)]);
    }
    r
}

/// Renders a number in decimal.
pub fn u64_to_dec(n: u64) -> (r: String)
    ensures
        r@ == spec_dec(n as int),
    decreases n,
{
    if n < 10 {
        digit_str(n).to_owned()
    } else {
        let mut s = u64_to_dec(n / 10);
        s.append(digit_str(n % 10));
        proof {
            assert(s@ =~= spec_dec(n as int));
        }
        s
    }
}

/// A whole number and one rounded decimal place, as `W.D`.
pub open spec fn spec_tenths(tenths: int) -> Seq<char> {
    spec_dec(tenths / 10) + "."@ + seq![dec_digit(tenths % 10)]
}

/// Renders `tenths` tenths as `W.D`.
fn tenths_str(tenths: u64) -> (r: String)
    ensures
        r@ == spec_tenths(tenths as int),
{
    let mut s = u64_to_dec(tenths / 10);
    s.append(".");
    s.append(digit_str(tenths % 10));
    proof {
        assert(s@ =~= spec_tenths(tenths as int));
    }
    s
}

/// How a byte count reads: whole bytes below one binary kilobyte, otherwise
/// the nearest tenth of the first unit that keeps the figure under 1024,
/// capping at gigabytes.
pub open spec fn spec_format_size(bytes: int) -> Seq<char> {
    if bytes < 1024 {
        spec_dec(bytes) + " B"@
    } else if bytes < 1048576 {
        spec_tenths((bytes * 10 + 512) / 1024) + " KB"@
    } else if bytes < 1073741824 {
        spec_tenths((bytes * 10 + 524288) / 1048576) + " MB"@
    } else {
        spec_tenths((bytes * 10 + 536870912) / 1073741824) + " GB"@
    }
}

/// How a duration reads: milliseconds below one second, seconds to one
/// rounded decimal place below one minute, then whole minutes and seconds.
pub open spec fn spec_format_duration(ms: int) -> Seq<char> {
    if ms < 1000 {
        spec_dec(ms) + "ms"@
    } else if ms / 1000 < 60 {
        spec_tenths((ms + 50) / 100) + "s"@
    } else {
        spec_dec(ms / 1000 / 60) + "m "@ + spec_dec((ms / 1000) % 60) + "s"@
    }
}

/// Text helpers for the human-facing layer. Everything colored or animated
/// lives outside the library; only the pure renderings are here.
pub struct CliStyle;

impl CliStyle {
    /// Renders a duration in milliseconds the way progress summaries do.
    pub fn format_duration(ms: u64) -> (r: String)
        ensures
            r@ == spec_format_duration(ms as int),
    {
        if ms < 1000 {
            let mut s = u64_to_dec(ms);
            s.append("ms");
            proof {
                assert(s@ =~= spec_format_duration(ms as int));
            }
            s
        } else if ms / 1000 < 60 {
            let mut s = tenths_str((ms + 50) / 100);
            s.append("s");
            proof {
                assert(s@ =~= spec_format_duration(ms as int));
            }
            s
        } else {
            let mut s = u64_to_dec(ms / 1000 / 60);
            s.append("m ");
            let sec = u64_to_dec((ms / 1000) % 60);
            s.append(sec.as_str());
            s.append("s");
            proof {
                assert(s@ =~= spec_format_duration(ms as int));
            }
            s
        }
    }

    /// Renders a byte count with its binary unit.
    pub fn format_size(bytes: u64) -> (r: String)
        ensures
            r@ == spec_format_size(bytes as int),
    {
        if bytes < 1024 {
            let mut s = u64_to_dec(bytes);
            s.append(" B");
            proof {
                assert(s@ =~= spec_format_size(bytes as int));
            }
            s
        } else if bytes < 1048576 {
            let t = ((bytes as u128 * 10 + 512) / 1024) as u64;
            proof {
                assert(t as int == (bytes as int * 10 + 512) / 1024);
            }
            let mut s = tenths_str(t);
            s.append(" KB");
            proof {
                assert(s@ =~= spec_format_size(bytes as int));
            }
            s
        } else if bytes < 1073741824 {
            let t = ((bytes as u128 * 10 + 524288) / 1048576) as u64;
            proof {
                assert(t as int == (bytes as int * 10 + 524288) / 1048576);
            }
            let mut s = tenths_str(t);
            s.append(" MB");
            proof {
                assert(s@ =~= spec_format_size(bytes as int));
            }
            s
        } else {
            let t = ((bytes as u128 * 10 + 536870912) / 1073741824) as u64;
            proof {
                assert(t as int == (bytes as int * 10 + 536870912) / 1073741824);
            }
            let mut s = tenths_str(t);
            s.append(" GB");
            proof {
                assert(s@ =~= spec_format_size(bytes as int));
            }
            s
        }
    }
}

} // verus!
