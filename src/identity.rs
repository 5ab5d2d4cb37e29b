use vstd::prelude::*;
use vstd::string::StringSliceAdditionalSpecFns;

use crate::checksum::{
    all_digits,
    digits_value,
    is_digit,
    lemma_digits_prefix,
    lemma_digits_value_monotone,
};

verus! {

/// Number of decimal digits at the front of `b`.
pub open spec fn digit_run(b: Seq<u8>) -> nat
    decreases b.len(),
{
    if b.len() > 0 && is_digit(b[0]) {
        1 + digit_run(b.drop_first())
    } else {
        0
    }
}

/// Where a migration's identity `V<version>__<name>` is written at the front
/// of `b`: its version, and the position at which its non-empty name starts.
pub open spec fn identity_spec(b: Seq<u8>) -> Option<(u64, int)> {
    if b.len() == 0 || b[0] != 86 {
        None
    } else {
        let d = digit_run(b.drop_first()) as int;
        if d >= 1 && b.len() > d + 3 && b[d + 1] == 95 && b[d + 2] == 95 && digits_value(
            b.subrange(1, d + 1),
        ) <= u64::MAX {
            Some((digits_value(b.subrange(1, d + 1)) as u64, d + 3))
        } else {
            None
        }
    }
}

/// The version and the position of the name in a migration identity such as
/// `V12__add_users`, or `None` where the text is not one.
pub fn parse_identity(text: &str) -> (r: Option<(u64, usize)>)
    ensures
        match r {
            Some((v, start)) => identity_spec(text.spec_bytes()) == Some((v, start as int)),
            None => identity_spec(text.spec_bytes()) is None,
        },
{
    let b = text.as_bytes();
    let n = b.len();
    if n == 0 || b[0] != 86u8 {
        return None;
    }
    let ghost t = b@.drop_first();
    assert(t == b@.subrange(1, n as int));
    let mut value: u64 = 0;
    let mut i: usize = 1;
    while i < n && b[i] >= 48u8 && b[i] <= 57u8
        invariant
            1 <= i <= n,
            n == b@.len(),
            b@ == text.spec_bytes(),
            t == b@.subrange(1, n as int),
            all_digits(b@.subrange(1, i as int)),
            value as int == digits_value(b@.subrange(1, i as int)),
            digit_run(t) == (i - 1) + digit_run(b@.subrange(i as int, n as int)),
        decreases n - i,
    {
        let c = b[i];
        let ghost pre = b@.subrange(1, i as int);
        let ghost next = b@.subrange(1, i as int + 1);
        assert(next.drop_last() == pre);
        assert(next == pre.push(c));
        assert(b@.subrange(i as int, n as int).drop_first() == b@.subrange(i + 1, n as int));
        assert(b@.subrange(i as int, n as int)[0] == c);
        assert(all_digits(next));
        if value > 1844674407370955161u64 || (value == 1844674407370955161u64 && c > 53u8) {
            proof {
                assert(digits_value(next) == value * 10 + (c - 48));
                assert(value * 10 + (c - 48) > u64::MAX) by (nonlinear_arith)
                    requires
                        value > 1844674407370955161u64 || (value == 1844674407370955161u64
                            && c > 53u8),
                        48 <= c,
                ;
                lemma_whole_run_exceeds(b@, i as int + 1, n as int);
            }
            return None;
        }
        value = value * 10 + (c - 48u8) as u64;
        i = i + 1;
    }
    proof {
        if i < n {
            assert(b@.subrange(i as int, n as int)[0] == b@[i as int]);
        }
        assert(digit_run(b@.subrange(i as int, n as int)) == 0);
    }
    if i == 1 || n - i <= 2 || b[i] != 95u8 || b[i + 1] != 95u8 {
        return None;
    }
    Some((value, i + 2))
}

/// Where the first `k - 1` bytes after the `V` are digits whose value already
/// exceeds 64 bits, so does the value of the whole run of digits.
proof fn lemma_whole_run_exceeds(b: Seq<u8>, k: int, n: int)
    requires
        n == b.len(),
        1 <= k <= n,
        all_digits(b.subrange(1, k)),
        digits_value(b.subrange(1, k)) > u64::MAX,
    ensures
        ({
            let d = digit_run(b.drop_first()) as int;
            d >= k - 1 && d + 1 <= n && digits_value(b.subrange(1, d + 1)) > u64::MAX
        }),
    decreases n - k,
{
    let t = b.drop_first();
    lemma_run_prefix(t, k - 1);
    let d = digit_run(t) as int;
    lemma_run_digits(t);
    let run = b.subrange(1, d + 1);
    assert(run == t.take(d));
    assert(all_digits(run));
    lemma_digits_prefix(run, k - 1);
    assert(run.take(k - 1) == b.subrange(1, k));
}

/// A prefix of digits is part of the run.
proof fn lemma_run_prefix(t: Seq<u8>, j: int)
    requires
        0 <= j <= t.len(),
        all_digits(t.take(j)),
    ensures
        digit_run(t) >= j,
    decreases j,
{
    if j > 0 {
        assert(t.take(j)[0] == t[0]);
        let u = t.drop_first();
        assert forall|i: int| 0 <= i < j - 1 implies is_digit(#[trigger] u.take(j - 1)[i]) by {
            assert(u.take(j - 1)[i] == t.take(j)[i + 1]);
        }
        lemma_run_prefix(u, j - 1);
    }
}

/// The run consists of digits and fits in the sequence.
proof fn lemma_run_digits(t: Seq<u8>)
    ensures
        digit_run(t) <= t.len(),
        all_digits(t.take(digit_run(t) as int)),
    decreases t.len(),
{
    if t.len() > 0 && is_digit(t[0]) {
        let u = t.drop_first();
        lemma_run_digits(u);
        let d = digit_run(t) as int;
        assert forall|i: int| 0 <= i < d implies is_digit(#[trigger] t.take(d)[i]) by {
            if i > 0 {
                assert(t.take(d)[i] == u.take(d - 1)[i - 1]);
            }
        }
    }
}

} // verus!
