//! How often the recurring maintenance script runs: a number of seconds
//! from its setting, or five minutes when there is none.
use vstd::prelude::*;

use crate::codec::{digits_value, is_digit, lemma_prefix_value};
use crate::text::chars_of;

verus! {

/// The pause between runs when no interval is set, in seconds.
pub const DEFAULT_INTERVAL_SECS: u64 = 300;

/// The digits of a numeral: without its plus sign, if it has one.
pub open spec fn unsigned_digits(s: Seq<char>) -> Seq<char> {
    if s.len() > 0 && s[0] == '+' {
        s.drop_first()
    } else {
        s
    }
}

pub open spec fn all_digits(ds: Seq<char>) -> bool {
    forall|i: int| 0 <= i < ds.len() ==> is_digit(#[trigger] ds[i])
}

/// `s` is an unsigned decimal numeral of value `v`: an optional plus sign,
/// then one or more digits.
pub open spec fn numeral_of(s: Seq<char>, v: nat) -> bool {
    &&& unsigned_digits(s).len() > 0
    &&& all_digits(unsigned_digits(s))
    &&& digits_value(unsigned_digits(s)) == v
}

/// Reads a number of seconds; `None` when `s` is no numeral or its value
/// does not fit in a `u64`.
pub fn parse_seconds(s: &str) -> (r: Option<u64>)
    ensures
        match r {
            Some(v) => numeral_of(s@, v as nat),
            None => forall|v: nat| v <= u64::MAX ==> !#[trigger] numeral_of(s@, v),
        },
{
    let cs = chars_of(s);
    let start: usize = if cs.len() > 0 && cs[0] == '+' {
        1
    } else {
        0
    };
    let ghost ds = cs@.subrange(start as int, cs.len() as int);
    proof {
        if start == 1 {
            assert(ds =~= s@.drop_first());
        } else {
            assert(ds =~= s@);
        }
    }
    if start == cs.len() {
        proof {
            assert(ds.len() == 0);
        }
        return None;
    }
    let mut acc: u64 = 0;
    let mut i: usize = start;
    while i < cs.len()
        invariant
            cs@ == s@,
            ds == cs@.subrange(start as int, cs.len() as int),
            ds == unsigned_digits(s@),
            start <= i <= cs.len(),
            acc == digits_value(ds.subrange(0, i - start)),
            forall|k: int| 0 <= k < i - start ==> is_digit(#[trigger] ds[k]),
        decreases cs.len() - i,
    {
        let c = cs[i];
        let k = i - start;
        assert(ds[k as int] == c);
        if !('0' <= c && c <= '9') {
            proof {
                assert forall|v: nat| v <= u64::MAX implies !#[trigger] numeral_of(s@, v) by {
                    if numeral_of(s@, v) {
                        assert(unsigned_digits(s@) == ds);
                        assert(is_digit(ds[k as int]));
                    }
                }
            }
            return None;
        }
        let d = c as u32 as u64 - 48;
        let ghost sub = ds.subrange(0, k + 1);
        proof {
            assert(sub.drop_last() =~= ds.subrange(0, k as int));
            assert(digits_value(sub) == digits_value(sub.drop_last()) * 10 + ((sub.last() as u32 - 48) as nat));
        }
        if acc > (u64::MAX - d) / 10 {
            proof {
                assert(acc * 10 + d > u64::MAX) by (nonlinear_arith)
                    requires
                        acc > (u64::MAX - d) / 10,
                        d <= 9,
                ;
                lemma_prefix_value(ds, k + 1);
                assert forall|v: nat| v <= u64::MAX implies !#[trigger] numeral_of(s@, v) by {
                    if numeral_of(s@, v) {
                        assert(digits_value(ds) == v);
                    }
                }
            }
            return None;
        }
        assert(acc * 10 + d <= u64::MAX) by (nonlinear_arith)
            requires
                acc <= (u64::MAX - d) / 10,
                d <= 9,
        ;
        acc = acc * 10 + d;
        i = i + 1;
    }
    proof {
        assert(ds.subrange(0, ds.len() as int) =~= ds);
    }
    Some(acc)
}

/// The pause between runs of the recurring script: the set value when there
/// is one (`None` when it is no valid number of seconds), else the default.
pub fn script_interval(setting: Option<&str>) -> (r: Option<u64>)
    ensures
        match setting {
            None => r == Some(DEFAULT_INTERVAL_SECS),
            Some(s) => match r {
                Some(v) => numeral_of(s@, v as nat),
                None => forall|v: nat| v <= u64::MAX ==> !#[trigger] numeral_of(s@, v),
            },
        },
{
    match setting {
        None => Some(DEFAULT_INTERVAL_SECS),
        Some(s) => parse_seconds(s),
    }
}

} // verus!
