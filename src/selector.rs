use vstd::prelude::*;
use vstd::string::StrSliceExecFns;
use crate::history::SnRange;
use crate::parameters::{lookup, entries, split_seq, Parameters, VALUE_SEPARATOR};

verus! {

/// Why a query selector was refused.
#[derive(Clone, Copy, Debug, PartialEq, Eq, Structural)]
pub enum SelectorError {
    /// The `_sn` value is not one or two decimal bounds separated by `|`, or a
    /// bound does not fit in 64 bits.
    BadRange,
    /// The `_src` value is not a hexadecimal source identifier of at most 128 bits.
    BadSource,
}

/// The digit that `c` stands for in `base`, if any.
pub open spec fn digit_value(c: char, base: u32) -> Option<nat> {
    if '0' <= c <= '9' && (c as u32) - ('0' as u32) < base {
        Some(((c as u32) - ('0' as u32)) as nat)
    } else if base == 16 && 'a' <= c <= 'f' {
        Some(((c as u32) - ('a' as u32) + 10) as nat)
    } else if base == 16 && 'A' <= c <= 'F' {
        Some(((c as u32) - ('A' as u32) + 10) as nat)
    } else {
        None
    }
}

/// Whether every character of `s` is a digit in `base`.
pub open spec fn all_digits(s: Seq<char>, base: u32) -> bool {
    forall|i: int| 0 <= i < s.len() ==> (#[trigger] digit_value(s[i], base)) is Some
}

/// The number that the digits `s` stand for in `base`.
pub open spec fn digits_value(s: Seq<char>, base: u32) -> nat
    decreases s.len(),
{
    if s.len() == 0 {
        0
    } else {
        digits_value(s.drop_last(), base) * (base as nat) + digit_value(s.last(), base).unwrap_or(0)
    }
}

/// The number written in `s` in `base`, if `s` is a non-empty run of digits whose
/// value is at most `max`.
pub open spec fn number_of(s: Seq<char>, base: u32, max: nat) -> Option<nat> {
    if s.len() > 0 && all_digits(s, base) && digits_value(s, base) <= max {
        Some(digits_value(s, base))
    } else {
        None
    }
}

/// One bound of a range: an empty text is no bound.
pub open spec fn bound_of(s: Seq<char>) -> Option<Option<u64>> {
    if s.len() == 0 {
        Some(None)
    } else {
        match number_of(s, 10, u64::MAX as nat) {
            Some(n) => Some(Some(n as u64)),
            None => None,
        }
    }
}

/// The range that the value of `_sn` asks for: `lo|hi` with either bound absent, or
/// a single number `n` for `n|n`.
pub open spec fn range_of(v: Seq<char>) -> Option<(Option<u64>, Option<u64>)> {
    let parts = split_seq(v, VALUE_SEPARATOR);
    if parts.len() == 1 {
        match bound_of(parts[0]) {
            Some(b) => Some((b, b)),
            None => None,
        }
    } else if parts.len() == 2 {
        match (bound_of(parts[0]), bound_of(parts[1])) {
            (Some(lo), Some(hi)) => Some((lo, hi)),
            _ => None,
        }
    } else {
        None
    }
}

/// What a query selector asks for. Without `_sn` the whole retained history is
/// asked for; without `_src` every source is.
pub open spec fn selector_of(p: Seq<char>) -> Result<SnRange, SelectorError> {
    let sn = lookup(entries(p), "_sn"@);
    let src = lookup(entries(p), "_src"@);
    let range = match sn {
        None => Some((None::<u64>, None::<u64>)),
        Some(v) => range_of(v),
    };
    let source = match src {
        None => Some(None::<u128>),
        Some(v) => match number_of(v, 16, u128::MAX as nat) {
            Some(n) => Some(Some(n as u128)),
            None => None,
        },
    };
    match range {
        None => Err(SelectorError::BadRange),
        Some(r) => match source {
            None => Err(SelectorError::BadSource),
            Some(s) => Ok(SnRange { source: s, lo: r.0, hi: r.1 }),
        },
    }
}

proof fn lemma_all_digits_prefix(s: Seq<char>, base: u32, i: int)
    requires
        0 <= i < s.len(),
        all_digits(s.subrange(0, i), base),
        digit_value(s[i], base) is Some,
    ensures
        all_digits(s.subrange(0, i + 1), base),
{
    assert forall|j: int| 0 <= j < i + 1 implies (#[trigger] digit_value(s.subrange(0, i + 1)[j], base)) is Some by {
        if j < i {
            assert(s.subrange(0, i + 1)[j] == s.subrange(0, i)[j]);
        }
    }
}

proof fn lemma_digits_value_monotone(s: Seq<char>, base: u32, i: int)
    requires
        base >= 2,
        0 <= i <= s.len(),
    ensures
        digits_value(s.subrange(0, i), base) <= digits_value(s, base),
    decreases s.len() - i,
{
    if i < s.len() {
        lemma_digits_value_monotone(s, base, i + 1);
        let t = s.subrange(0, i + 1);
        assert(t.drop_last() =~= s.subrange(0, i));
        let v = digits_value(s.subrange(0, i), base);
        assert(v * (base as nat) >= v) by (nonlinear_arith)
            requires base >= 2;
    } else {
        assert(s.subrange(0, i) =~= s);
    }
}

/// The digit that `c` stands for in `base`.
fn digit(c: char, base: u32) -> (r: Option<u32>)
    requires
        base == 10 || base == 16,
    ensures
        r matches Some(d) ==> digit_value(c, base) == Some(d as nat) && d < base,
        r is None ==> digit_value(c, base) is None,
{
    if '0' <= c && c <= '9' && (c as u32) - ('0' as u32) < base {
        Some((c as u32) - ('0' as u32))
    } else if base == 16 && 'a' <= c && c <= 'f' {
        Some((c as u32) - ('a' as u32) + 10)
    } else if base == 16 && 'A' <= c && c <= 'F' {
        Some((c as u32) - ('A' as u32) + 10)
    } else {
        None
    }
}

/// The number written in `s` in `base`, if it is a non-empty run of digits that
/// fits in 128 bits and is at most `max`.
fn parse_number(s: &str, base: u32, max: u128) -> (r: Option<u128>)
    requires
        base == 10 || base == 16,
    ensures
        r matches Some(n) ==> number_of(s@, base, max as nat) == Some(n as nat),
        r is None ==> number_of(s@, base, max as nat) is None,
{
    let n = s.unicode_len();
    if n == 0 {
        return None;
    }
    let mut acc: u128 = 0;
    let mut i: usize = 0;
    proof {
        assert(s@.subrange(0, 0) =~= Seq::<char>::empty());
    }
    while i < n
        invariant
            n == s@.len(),
            base == 10 || base == 16,
            i <= n,
            all_digits(s@.subrange(0, i as int), base),
            acc as nat == digits_value(s@.subrange(0, i as int), base),
            acc <= max,
        decreases n - i,
    {
        let c = s.get_char(i);
        let d = match digit(c, base) {
            Some(d) => d,
            None => {
                proof {
                    assert(digit_value(s@[i as int], base) is None);
                }
                return None;
            },
        };
        proof {
            lemma_all_digits_prefix(s@, base, i as int);
            assert(s@.subrange(0, i + 1).drop_last() =~= s@.subrange(0, i as int));
            lemma_digits_value_monotone(s@, base, i + 1);
        }
        if d as u128 > max {
            proof {
                assert((acc as nat) * (base as nat) + d as nat > max as nat) by (nonlinear_arith)
                    requires d > max, acc >= 0, base >= 2;
            }
            return None;
        }
        let bound = (max - d as u128) / (base as u128);
        if acc > bound {
            proof {
                assert((acc as nat) * (base as nat) + d as nat > max as nat) by (nonlinear_arith)
                    requires acc > (max - d) / (base as int), base >= 2, d <= max;
            }
            return None;
        }
        proof {
            assert((acc as nat) * (base as nat) + d as nat <= max as nat) by (nonlinear_arith)
                requires acc <= (max - d) / (base as int), base >= 2, d <= max;
        }
        acc = acc * (base as u128) + d as u128;
        i = i + 1;
    }
    proof {
        assert(s@.subrange(0, n as int) =~= s@);
    }
    Some(acc)
}

/// Reads one bound of a range.
fn parse_bound(s: &str) -> (r: Option<Option<u64>>)
    ensures
        r == bound_of(s@),
{
    if s.unicode_len() == 0 {
        return Some(None);
    }
    match parse_number(s, 10, u64::MAX as u128) {
        Some(n) => Some(Some(n as u64)),
        None => None,
    }
}

/// Reads what a recovery query's selector parameters ask for.
pub fn parse_selector(p: &str) -> (r: Result<SnRange, SelectorError>)
    ensures
        r == selector_of(p@),
{
    proof {
        reveal_strlit("_sn");
        reveal_strlit("_src");
    }
    let range = match Parameters::get(p, "_sn") {
        None => Some((None, None)),
        Some(v) => {
            let parts = Parameters::split(v, VALUE_SEPARATOR);
            proof {
                assert(parts@.map_values(|x: &str| x@).len() == parts@.len());
            }
            if parts.len() == 1 {
                proof {
                    assert(parts@.map_values(|x: &str| x@)[0] == parts@[0]@);
                }
                match parse_bound(parts[0]) {
                    Some(b) => Some((b, b)),
                    None => None,
                }
            } else if parts.len() == 2 {
                proof {
                    assert(parts@.map_values(|x: &str| x@)[0] == parts@[0]@);
                    assert(parts@.map_values(|x: &str| x@)[1] == parts@[1]@);
                }
                match (parse_bound(parts[0]), parse_bound(parts[1])) {
                    (Some(lo), Some(hi)) => Some((lo, hi)),
                    _ => None,
                }
            } else {
                None
            }
        },
    };
    let source = match Parameters::get(p, "_src") {
        None => Some(None),
        Some(v) => match parse_number(v, 16, u128::MAX) {
            Some(n) => Some(Some(n)),
            None => None,
        },
    };
    match range {
        None => Err(SelectorError::BadRange),
        Some(r) => match source {
            None => Err(SelectorError::BadSource),
            Some(s) => Ok(SnRange { source: s, lo: r.0, hi: r.1 }),
        },
    }
}

} // verus!
