use vstd::prelude::*;
use crate::text::{all_digits, split_on, spec_starts_with, split_str, str_all_digits,
    str_starts_with, string_eq};

verus! {

/// A version spec that opens with a range operator, or the wildcard, is not
/// exact and resolves against the registry's `latest` tag.
pub open spec fn is_range_spec(s: Seq<char>) -> bool {
    (s.len() > 0 && (s[0] == '^' || s[0] == '~' || s[0] == '>' || s[0] == '<' || s[0] == '='))
        || (s.len() == 1 && s[0] == '*')
}

/// An exact version spec: no range operator, at least three dot-separated
/// pieces, and in each of the first three pieces everything before the first
/// hyphen is decimal digits.
pub open spec fn spec_is_exact_version(s: Seq<char>) -> bool {
    &&& !is_range_spec(s)
    &&& split_on(s, '.').len() >= 3
    &&& forall|i: int|
        0 <= i < 3 ==> all_digits(#[trigger] split_on(split_on(s, '.')[i], '-')[0])
}

/// Classifies a version spec as exact (`MAJOR.MINOR.PATCH[-pre]`) rather than
/// a range or wildcard.
pub fn is_exact_version(version: &str) -> (r: bool)
    ensures
        r == spec_is_exact_version(version@),
{
    let n = version.unicode_len();
    if n > 0 {
        let c = version.get_char(0);
        if c == '^' || c == '~' || c == '>' || c == '<' || c == '=' {
            return false;
        }
        if n == 1 && c == '*' {
            return false;
        }
    }
    let parts = split_str(version, '.');
    if parts.len() < 3 {
        return false;
    }
    let mut i: usize = 0;
    while i < 3
        invariant
            i <= 3,
            parts.len() >= 3,
            parts.deep_view() == split_on(version@, '.'),
            forall|j: int|
                0 <= j < i ==> all_digits(
                    #[trigger] split_on(split_on(version@, '.')[j], '-')[0],
                ),
        decreases 3 - i,
    {
        let pre = split_str(parts[i].as_str(), '-');
        if !str_all_digits(pre[0].as_str()) {
            assert(!all_digits(split_on(split_on(version@, '.')[i as int], '-')[0]));
            return false;
        }
        assert(all_digits(split_on(split_on(version@, '.')[i as int], '-')[0]));
        i = i + 1;
    }
    true
}

/// The compatibility policy for peer-dependency checks. A caret spec accepts
/// any installed version whose text starts with the required major piece; a
/// tilde spec requires the first two dot pieces to match; the wildcard accepts
/// everything; anything else must match exactly.
pub open spec fn spec_is_version_compatible(installed: Seq<char>, required: Seq<char>) -> bool {
    if required.len() > 0 && required[0] == '^' {
        spec_starts_with(installed, split_on(required.skip(1), '.')[0])
    } else if required.len() > 0 && required[0] == '~' {
        {
            let rp = split_on(required.skip(1), '.');
            let ip = split_on(installed, '.');
            rp.len() >= 2 && ip.len() >= 2 && rp[0] == ip[0] && rp[1] == ip[1]
        }
    } else if required.len() == 1 && required[0] == '*' {
        true
    } else {
        installed == required
    }
}

/// Decides whether an installed version satisfies a declared spec, under the
/// simplified range policy.
pub fn is_version_compatible(installed: &str, required: &str) -> (r: bool)
    ensures
        r == spec_is_version_compatible(installed@, required@),
{
    let n = required.unicode_len();
    if n > 0 && required.get_char(0) == '^' {
        let tail = required.substring_char(1, n);
        let rp = split_str(tail, '.');
        return str_starts_with(installed, rp[0].as_str());
    }
    if n > 0 && required.get_char(0) == '~' {
        let tail = required.substring_char(1, n);
        let rp = split_str(tail, '.');
        let ip = split_str(installed, '.');
        if rp.len() >= 2 && ip.len() >= 2 {
            return string_eq(rp[0].as_str(), ip[0].as_str())
                && string_eq(rp[1].as_str(), ip[1].as_str());
        }
        return false;
    }
    if n == 1 && required.get_char(0) == '*' {
        return true;
    }
    string_eq(installed, required)
}

} // verus!
