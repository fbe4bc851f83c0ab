use vstd::prelude::*;
use vstd::string::StringSliceAdditionalSpecFns;

verus! {

/// The number the bytes `s` spell when read as decimal digits with the first
/// byte the least significant; a byte stands for its code minus the code of `0`.
pub open spec fn reversed_decimal(s: Seq<u8>) -> int
    decreases s.len(),
{
    if s.len() == 0 {
        0
    } else {
        (s[0] - 48) + 10 * reversed_decimal(s.drop_first())
    }
}

/// Every byte is at least the code of `0`.
pub open spec fn no_byte_below_zero_digit(s: Seq<u8>) -> bool {
    forall|i: int| 0 <= i < s.len() ==> s[i] >= 48
}

proof fn lemma_reversed_decimal_suffix(s: Seq<u8>, i: int)
    requires
        0 <= i < s.len(),
        no_byte_below_zero_digit(s),
    ensures
        reversed_decimal(s.skip(i)) == (s[i] - 48) + 10 * reversed_decimal(s.skip(i + 1)),
        reversed_decimal(s.skip(i + 1)) >= 0,
        reversed_decimal(s.skip(i + 1)) <= reversed_decimal(s.skip(i)),
{
    assert(s.skip(i).drop_first() =~= s.skip(i + 1));
    lemma_reversed_decimal_nonneg(s.skip(i + 1));
}

proof fn lemma_reversed_decimal_nonneg(s: Seq<u8>)
    requires
        no_byte_below_zero_digit(s),
    ensures
        reversed_decimal(s) >= 0,
    decreases s.len(),
{
    if s.len() > 0 {
        lemma_reversed_decimal_nonneg(s.drop_first());
    }
}

proof fn lemma_reversed_decimal_bound(s: Seq<u8>, i: int)
    requires
        0 <= i <= s.len(),
        no_byte_below_zero_digit(s),
    ensures
        reversed_decimal(s.skip(i)) <= reversed_decimal(s),
    decreases i,
{
    if i > 0 {
        lemma_reversed_decimal_bound(s, i - 1);
        lemma_reversed_decimal_suffix(s, i - 1);
    } else {
        assert(s.skip(0) =~= s);
    }
}

/// Reads the bytes of `s` as decimal digits, the last byte being the most
/// significant.
pub fn parse_usize_const(s: &str) -> (n: usize)
    requires
        no_byte_below_zero_digit(s.spec_bytes()),
        reversed_decimal(s.spec_bytes()) <= usize::MAX,
    ensures
        n == reversed_decimal(s.spec_bytes()),
{
    let mut n: usize = 0;
    let it = s.as_bytes();
    let ghost b = it@;
    let mut i = it.len();
    proof {
        assert(b.skip(b.len() as int) =~= Seq::<u8>::empty());
    }
    while i > 0
        invariant
            b == it@,
            b == s.spec_bytes(),
            i <= b.len(),
            no_byte_below_zero_digit(b),
            reversed_decimal(b) <= usize::MAX,
            n == reversed_decimal(b.skip(i as int)),
        decreases i,
    {
        i -= 1;
        proof {
            lemma_reversed_decimal_suffix(b, i as int);
            lemma_reversed_decimal_bound(b, i as int);
        }
        n *= 10;
        n += it[i] as usize - 48;
    }
    proof {
        assert(b.skip(0) =~= b);
    }
    n
}

} // verus!
