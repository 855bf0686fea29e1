//! Chunk file names: a 20-digit zero-padded decimal id with an `.index`
//! or `.data` extension.

use vstd::prelude::*;
use vstd::arithmetic::div_mod::{lemma_div_denominator, lemma_fundamental_div_mod};
use vstd::pervasive::VecAdditionalExecFns;

verus! {

/// Ten to the given power.
pub open spec fn pow10(k: nat) -> int
    decreases k,
{
    if k == 0 {
        1
    } else {
        10 * pow10((k - 1) as nat)
    }
}

pub proof fn lemma_pow10_pos(k: nat)
    ensures
        pow10(k) >= 1,
    decreases k,
{
    if k > 0 {
        lemma_pow10_pos((k - 1) as nat);
    }
}

/// Every unsigned 64-bit number has at most 20 decimal digits.
pub proof fn lemma_pow10_20_large()
    ensures
        pow10(20) > u64::MAX,
{
    reveal_with_fuel(pow10, 21);
}

/// The decimal digit of `id` at the `k`-th power of ten, as its ASCII byte.
pub open spec fn digit_at(id: u64, k: nat) -> u8 {
    ((((id as int) / pow10(k)) % 10) + 0x30) as u8
}

/// The 20-digit zero-padded decimal spelling of an id.
pub open spec fn stem_bytes(id: u64) -> Seq<u8> {
    Seq::new(20, |i: int| digit_at(id, (19 - i) as nat))
}

/// The name of an id's index file.
pub open spec fn index_name_spec(id: u64) -> Seq<u8> {
    stem_bytes(id) + seq![0x2eu8, 0x69u8, 0x6eu8, 0x64u8, 0x65u8, 0x78u8]
}

/// The name of an id's data file.
pub open spec fn data_name_spec(id: u64) -> Seq<u8> {
    stem_bytes(id) + seq![0x2eu8, 0x64u8, 0x61u8, 0x74u8, 0x61u8]
}

/// An ASCII decimal digit.
pub open spec fn is_digit(b: u8) -> bool {
    0x30 <= b <= 0x39
}

pub open spec fn all_digits(s: Seq<u8>) -> bool {
    forall|i: int| 0 <= i < s.len() ==> is_digit(#[trigger] s[i])
}

/// The number spelled by a run of decimal digits.
pub open spec fn digits_val(s: Seq<u8>) -> int
    decreases s.len(),
{
    if s.len() == 0 {
        0
    } else {
        digits_val(s.drop_last()) * 10 + (s.last() - 0x30)
    }
}

pub proof fn lemma_digits_val_nonneg(s: Seq<u8>)
    requires
        all_digits(s),
    ensures
        digits_val(s) >= 0,
    decreases s.len(),
{
    if s.len() > 0 {
        assert(all_digits(s.drop_last())) by {
            assert(forall|i: int|
                0 <= i < s.len() - 1 ==> s.drop_last()[i] == #[trigger] s[i]);
        }
        lemma_digits_val_nonneg(s.drop_last());
        assert(is_digit(s.last()));
    }
}

pub proof fn lemma_digits_val_take_push(s: Seq<u8>, j: int)
    requires
        0 <= j < s.len(),
    ensures
        digits_val(s.take(j + 1)) == digits_val(s.take(j)) * 10 + (s[j] - 0x30),
{
    assert(s.take(j + 1).drop_last() =~= s.take(j));
    assert(s.take(j + 1).last() == s[j]);
}

/// A longer digit run never spells a smaller number.
pub proof fn lemma_digits_val_grows(s: Seq<u8>, j: int)
    requires
        all_digits(s),
        0 <= j <= s.len(),
    ensures
        digits_val(s.take(j)) <= digits_val(s),
    decreases s.len() - j,
{
    if j == s.len() {
        assert(s.take(j) =~= s);
    } else {
        lemma_digits_val_grows(s, j + 1);
        lemma_digits_val_take_push(s, j);
        assert(all_digits(s.take(j))) by {
            assert(forall|i: int| 0 <= i < j ==> s.take(j)[i] == #[trigger] s[i]);
        }
        lemma_digits_val_nonneg(s.take(j));
        assert(is_digit(s[j]));
    }
}

/// Spelling an id and reading the digits back gives the id.
pub proof fn lemma_stem_roundtrip(id: u64)
    ensures
        stem_bytes(id).len() == 20,
        all_digits(stem_bytes(id)),
        digits_val(stem_bytes(id)) == id,
{
    let s = stem_bytes(id);
    assert forall|i: int| 0 <= i < 20 implies is_digit(#[trigger] s[i]) by {
        lemma_pow10_pos((19 - i) as nat);
        assert(0 <= ((id as int) / pow10((19 - i) as nat)) % 10 < 10);
    }
    assert forall|j: int| 0 <= j <= 20 implies digits_val(s.take(j)) == (id as int) / pow10(
        (20 - j) as nat,
    ) by {
        lemma_stem_prefix(id, j);
    }
    assert(s.take(20) =~= s);
    assert(digits_val(s) == (id as int) / pow10(0));
}

proof fn lemma_stem_prefix(id: u64, j: int)
    requires
        0 <= j <= 20,
    ensures
        digits_val(stem_bytes(id).take(j)) == (id as int) / pow10((20 - j) as nat),
    decreases j,
{
    let s = stem_bytes(id);
    if j == 0 {
        lemma_pow10_20_large();
        lemma_pow10_pos(20);
        assert(s.take(0) =~= Seq::<u8>::empty());
        assert((id as int) / pow10(20) == 0) by {
            vstd::arithmetic::div_mod::lemma_basic_div((id as int), pow10(20));
        }
    } else {
        lemma_stem_prefix(id, j - 1);
        lemma_digits_val_take_push(s, j - 1);
        let k = (20 - j) as nat;
        lemma_pow10_pos(k);
        assert(s[j - 1] == digit_at(id, k));
        let q = (id as int) / pow10(k);
        assert(digits_val(s.take(j)) == ((id as int) / pow10(k + 1)) * 10 + q % 10);
        assert((id as int) / pow10(k + 1) == q / 10) by {
            assert(pow10(k + 1) == 10 * pow10(k));
            lemma_div_denominator(id as int, pow10(k), 10);
        }
        assert((q / 10) * 10 + q % 10 == q) by {
            lemma_fundamental_div_mod(q, 10);
        }
    }
}

/// The 20-digit zero-padded decimal spelling of an id.
pub fn make_stem(id: u64) -> (r: Vec<u8>)
    ensures
        r@ == stem_bytes(id),
{
    let mut buf: Vec<u8> = Vec::with_capacity(20);
    let mut f: usize = 0;
    while f < 20
        invariant
            buf@.len() == f,
            f <= 20,
        decreases 20 - f,
    {
        buf.push(0x30u8);
        f = f + 1;
    }
    let mut x = id;
    let mut j: usize = 0;
    while j < 20
        invariant
            buf@.len() == 20,
            j <= 20,
            x == (id as int) / pow10(j as nat),
            forall|m: int| 0 <= m < j ==> #[trigger] buf@[19 - m] == digit_at(id, m as nat),
        decreases 20 - j,
    {
        proof {
            lemma_pow10_pos(j as nat);
            lemma_pow10_pos((j + 1) as nat);
            assert(pow10((j + 1) as nat) == 10 * pow10(j as nat));
            lemma_div_denominator(id as int, pow10(j as nat), 10);
        }
        let d = (x % 10) as u8 + 0x30u8;
        buf.set(19 - j, d);
        x = x / 10;
        j = j + 1;
    }
    proof {
        assert forall|i: int| 0 <= i < 20 implies buf@[i] == stem_bytes(id)[i] by {
            assert(buf@[19 - (19 - i)] == digit_at(id, (19 - i) as nat));
        }
        assert(buf@ =~= stem_bytes(id));
    }
    buf
}

/// The name of an id's index file.
pub fn index_file_name(id: u64) -> (r: Vec<u8>)
    ensures
        r@ == index_name_spec(id),
{
    let mut buf = make_stem(id);
    buf.push(0x2eu8);
    buf.push(0x69u8);
    buf.push(0x6eu8);
    buf.push(0x64u8);
    buf.push(0x65u8);
    buf.push(0x78u8);
    proof {
        assert(buf@ =~= index_name_spec(id));
    }
    buf
}

/// The name of an id's data file.
pub fn data_file_name(id: u64) -> (r: Vec<u8>)
    ensures
        r@ == data_name_spec(id),
{
    let mut buf = make_stem(id);
    buf.push(0x2eu8);
    buf.push(0x64u8);
    buf.push(0x61u8);
    buf.push(0x74u8);
    buf.push(0x61u8);
    proof {
        assert(buf@ =~= data_name_spec(id));
    }
    buf
}

/// Read an unsigned 64-bit number from a run of decimal digits.
pub fn parse_digits(name: &[u8], start: usize, end: usize) -> (r: Option<u64>)
    requires
        start <= end <= name@.len(),
    ensures
        ({
            let s = name@.subrange(start as int, end as int);
            match r {
                Some(v) => end > start && all_digits(s) && digits_val(s) <= u64::MAX && v
                    == digits_val(s),
                None => end == start || !all_digits(s) || digits_val(s) > u64::MAX,
            }
        }),
{
    let ghost s = name@.subrange(start as int, end as int);
    if end == start {
        return None;
    }
    let mut val: u64 = 0;
    let mut j: usize = start;
    proof {
        assert(s.take(0) =~= Seq::<u8>::empty());
    }
    while j < end
        invariant
            start <= j <= end <= name@.len(),
            s == name@.subrange(start as int, end as int),
            all_digits(s.take(j - start)),
            val == digits_val(s.take(j - start)),
        decreases end - j,
    {
        let b = name[j];
        if b < 0x30 || b > 0x39 {
            proof {
                assert(s[j - start] == b);
                assert(!is_digit(s[j - start]));
            }
            return None;
        }
        let d = b - 0x30;
        if val > (u64::MAX - d as u64) / 10 {
            proof {
                lemma_digits_val_take_push(s, j - start);
                assert(all_digits(s.take(j - start + 1))) by {
                    assert(forall|i: int|
                        0 <= i < j - start + 1 ==> s.take(j - start + 1)[i] == #[trigger] s[i]);
                    assert(is_digit(s[j - start]));
                }
                assert(val * 10 + d > u64::MAX) by (nonlinear_arith)
                    requires
                        val > (u64::MAX - d as u64) / 10,
                        0 <= d <= 9,
                {
                }
                if all_digits(s) {
                    lemma_digits_val_grows(s, j - start + 1);
                }
            }
            return None;
        }
        proof {
            lemma_digits_val_take_push(s, j - start);
            assert(all_digits(s.take(j - start + 1))) by {
                assert(forall|i: int|
                    0 <= i < j - start + 1 ==> s.take(j - start + 1)[i] == #[trigger] s[i]);
                assert(is_digit(s[j - start]));
            }
            assert(val * 10 + d <= u64::MAX) by (nonlinear_arith)
                requires
                    val <= (u64::MAX - d as u64) / 10,
                    0 <= d <= 9,
            {
            }
            assert(s[j - start] == b);
        }
        val = val * 10 + d as u64;
        j = j + 1;
    }
    proof {
        assert(s.take(end - start) =~= s);
    }
    Some(val)
}

} // verus!
