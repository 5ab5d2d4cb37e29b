use vstd::prelude::*;
use vstd::string::StringSliceAdditionalSpecFns;
use vstd::utf8::encode_utf8;

verus! {

/// Offset basis of the 64-bit FNV-1a hash.
pub const FNV_OFFSET: u64 = 0xcbf29ce484222325;

/// Prime of the 64-bit FNV-1a hash.
pub const FNV_PRIME: u64 = 0x100000001b3;

/// One FNV-1a step: mix a byte into the running hash.
pub open spec fn fnv_step(h: u64, b: u8) -> u64 {
    ((h ^ (b as u64)) as int * FNV_PRIME as int % 0x1_0000_0000_0000_0000int) as u64
}

/// FNV-1a hash of a byte sequence.
pub open spec fn fnv_hash(bytes: Seq<u8>) -> u64
    decreases bytes.len(),
{
    if bytes.len() == 0 {
        FNV_OFFSET
    } else {
        fnv_step(fnv_hash(bytes.drop_last()), bytes.last())
    }
}

/// The checksum of a migration's statement text.
pub open spec fn checksum_spec(content: Seq<char>) -> u64 {
    fnv_hash(encode_utf8(content))
}

/// Computes the checksum of a migration's statement text: the 64-bit FNV-1a
/// hash of its UTF-8 bytes.
pub fn content_checksum(content: &str) -> (r: u64)
    ensures
        r == checksum_spec(content@),
{
    let bytes = content.as_bytes();
    let mut h: u64 = FNV_OFFSET;
    let mut i: usize = 0;
    while i < bytes.len()
        invariant
            i <= bytes@.len(),
            bytes@ == content.spec_bytes(),
            h == fnv_hash(bytes@.take(i as int)),
        decreases bytes@.len() - i,
    {
        assert(bytes@.take(i as int + 1).drop_last() == bytes@.take(i as int));
        h = (h ^ (bytes[i] as u64)).wrapping_mul(FNV_PRIME);
        i = i + 1;
    }
    assert(bytes@.take(i as int) == bytes@);
    h
}

/// Value of a sequence of decimal digit bytes, most significant first.
pub open spec fn digits_value(b: Seq<u8>) -> int
    decreases b.len(),
{
    if b.len() == 0 {
        0
    } else {
        digits_value(b.drop_last()) * 10 + (b.last() - 48)
    }
}

/// An ASCII decimal digit.
pub open spec fn is_digit(c: u8) -> bool {
    48 <= c <= 57
}

/// Every byte of `b` is a decimal digit.
pub open spec fn all_digits(b: Seq<u8>) -> bool {
    forall|i: int| 0 <= i < b.len() ==> is_digit(#[trigger] b[i])
}

/// The digits of a decimal numeral: what follows an optional leading `+`.
pub open spec fn numeral_digits(b: Seq<u8>) -> Seq<u8> {
    if b.len() > 0 && b[0] == 43 {
        b.drop_first()
    } else {
        b
    }
}

/// What a stored checksum text means: a non-empty run of decimal digits,
/// optionally after a `+`, whose value fits in 64 bits.
pub open spec fn decimal_spec(b: Seq<u8>) -> Option<u64> {
    let d = numeral_digits(b);
    if d.len() > 0 && all_digits(d) && digits_value(d) <= u64::MAX {
        Some(digits_value(d) as u64)
    } else {
        None
    }
}

proof fn lemma_digits_value_nonneg(b: Seq<u8>)
    requires
        all_digits(b),
    ensures
        digits_value(b) >= 0,
    decreases b.len(),
{
    if b.len() > 0 {
        lemma_digits_value_nonneg(b.drop_last());
    }
}

pub proof fn lemma_digits_value_monotone(b: Seq<u8>, c: u8)
    requires
        all_digits(b),
        is_digit(c),
    ensures
        digits_value(b.push(c)) >= digits_value(b),
{
    lemma_digits_value_nonneg(b);
    assert(b.push(c).drop_last() == b);
}

pub proof fn lemma_digits_prefix(b: Seq<u8>, k: int)
    requires
        all_digits(b),
        0 <= k <= b.len(),
    ensures
        digits_value(b.take(k)) <= digits_value(b),
    decreases b.len(),
{
    if k < b.len() {
        let p = b.drop_last();
        assert(p.take(k) == b.take(k));
        lemma_digits_prefix(p, k);
        lemma_digits_value_monotone(p, b.last());
        assert(p.push(b.last()) == b);
    } else {
        assert(b.take(k) == b);
    }
}

/// Parses the decimal text of a stored checksum.
pub fn parse_checksum(text: &str) -> (r: Option<u64>)
    ensures
        r == decimal_spec(text.spec_bytes()),
{
    let bytes = text.as_bytes();
    let n = bytes.len();
    let mut start: usize = 0;
    if n > 0 && bytes[0] == 43u8 {
        start = 1;
    }
    let ghost d = numeral_digits(bytes@);
    assert(d == bytes@.subrange(start as int, n as int));
    if start == n {
        return None;
    }
    let mut value: u64 = 0;
    let mut i: usize = start;
    while i < n
        invariant
            start <= i <= n,
            n == bytes@.len(),
            bytes@ == text.spec_bytes(),
            d == bytes@.subrange(start as int, n as int),
            d == numeral_digits(bytes@),
            all_digits(bytes@.subrange(start as int, i as int)),
            value as int == digits_value(bytes@.subrange(start as int, i as int)),
        decreases n - i,
    {
        let ghost pre = bytes@.subrange(start as int, i as int);
        let ghost next = bytes@.subrange(start as int, i as int + 1);
        assert(next.drop_last() == pre);
        let c = bytes[i];
        if c < 48u8 || c > 57u8 {
            assert(d[i - start] == c);
            assert(!is_digit(d[i - start]));
            assert(!all_digits(d));
            return None;
        }
        assert(all_digits(next));
        if value > 1844674407370955161u64 || (value == 1844674407370955161u64 && c > 53u8) {
            // the value of every longer run of digits is at least this one's
            proof {
                assert(digits_value(next) == value * 10 + (c - 48));
                assert(value * 10 + (c - 48) > u64::MAX) by (nonlinear_arith)
                    requires
                        value > 1844674407370955161u64 || (value == 1844674407370955161u64
                            && c > 53u8),
                        48 <= c,
                ;
                assert(next == d.take(i + 1 - start));
                if all_digits(d) {
                    lemma_digits_prefix(d, i + 1 - start);
                }
            }
            return None;
        }
        value = value * 10 + (c - 48u8) as u64;
        i = i + 1;
    }
    Some(value)
}

} // verus!
