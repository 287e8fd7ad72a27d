//! Bit fields of numbers and of words joined end to end, and the shifts and
//! masks on `u64` that read and write them.
use vstd::arithmetic::div_mod::*;
use vstd::arithmetic::mul::*;
use vstd::arithmetic::power2::*;
use vstd::bits::*;
use vstd::prelude::*;

verus! {

/// The `n` bits of `x` that start at bit `m`.
pub open spec fn chunk(x: nat, m: nat, n: nat) -> nat {
    (x / pow2(m)) % pow2(n)
}

/// The number whose digits in base `2^b`, least significant first, are `s`:
/// the words of `s` joined end to end, `b` bits each.
pub open spec fn digits(s: Seq<nat>, b: nat) -> nat
    decreases s.len(),
{
    if s.len() == 0 {
        0
    } else {
        digits(s.drop_last(), b) + s.last() * pow2(((s.len() - 1) * b) as nat)
    }
}

/// The low `n` bits of `x`.
pub open spec fn truncate(x: nat, n: nat) -> nat {
    x % pow2(n)
}

/// The first `n` fields of `b` bits of `x`, lowest first.
pub open spec fn chunks(x: nat, b: nat, n: nat) -> Seq<nat> {
    Seq::new(n, |k: int| chunk(x, (k * b) as nat, b))
}

/// Every element of `s` fits in `b` bits.
pub open spec fn fits(s: Seq<nat>, b: nat) -> bool {
    forall|i: int| 0 <= i < s.len() ==> #[trigger] s[i] < pow2(b)
}

/// `2^(a + b) = 2^a * 2^b`, and powers of two are positive.
pub proof fn lemma_pow2_split(a: nat, b: nat)
    ensures
        pow2(a + b) == pow2(a) * pow2(b),
        pow2(a) > 0,
        pow2(b) > 0,
{
    lemma_pow2_adds(a, b);
    lemma_pow2_pos(a);
    lemma_pow2_pos(b);
}

/// A bit field is the field's bits below bit `m + n`, shifted down by `m`.
pub proof fn lemma_chunk_as_mod(x: nat, m: nat, n: nat)
    ensures
        chunk(x, m, n) == (x % pow2(m + n)) / pow2(m),
        chunk(x, m, n) < pow2(n),
{
    lemma_pow2_split(m, n);
    lemma_mod_breakdown(x as int, pow2(m) as int, pow2(n) as int);
    let y = x / pow2(m);
    let lo = x % pow2(m);
    assert(x % pow2(m + n) == pow2(m) * (y % pow2(n)) + lo);
    lemma_fundamental_div_mod_converse(
        (x % pow2(m + n)) as int,
        pow2(m) as int,
        (y % pow2(n)) as int,
        lo as int,
    );
    lemma_mod_pos_bound(y as int, pow2(n) as int);
}

/// Splitting a bit field into its low `a` bits and the `b` bits above them.
pub proof fn lemma_chunk_split(x: nat, m: nat, a: nat, b: nat)
    ensures
        chunk(x, m, a + b) == chunk(x, m, a) + pow2(a) * chunk(x, m + a, b),
{
    lemma_pow2_split(m, a);
    lemma_pow2_split(a, b);
    let y = x / pow2(m);
    lemma_mod_breakdown(y as int, pow2(a) as int, pow2(b) as int);
    lemma_div_denominator(x as int, pow2(m) as int, pow2(a) as int);
}

/// A field of a field is a field.
pub proof fn lemma_chunk_of_chunk(x: nat, m1: nat, big: nat, m2: nat, n: nat)
    requires
        m2 + n <= big,
    ensures
        chunk(chunk(x, m1, big), m2, n) == chunk(x, m1 + m2, n),
{
    let rest = (big - m2 - n) as nat;
    lemma_chunk_split(x, m1, m2, (big - m2) as nat);
    lemma_chunk_as_mod(x, m1, m2);
    let lo = chunk(x, m1, m2);
    let hi = chunk(x, m1 + m2, (big - m2) as nat);
    lemma_pow2_pos(m2);
    lemma_div_multiples_vanish_fancy(hi as int, lo as int, pow2(m2) as int);
    assert(chunk(x, m1, big) / pow2(m2) == hi);
    lemma_chunk_split(x, m1 + m2, n, rest);
    lemma_chunk_as_mod(x, m1 + m2, n);
    lemma_pow2_pos(n);
    lemma_mod_multiples_vanish(
        chunk(x, m1 + m2 + n, rest) as int,
        chunk(x, m1 + m2, n) as int,
        pow2(n) as int,
    );
    lemma_small_mod(chunk(x, m1 + m2, n), pow2(n));
}

/// Bits at or above bit `big` do not change a field that ends below it.
pub proof fn lemma_chunk_below(x: nat, big: nat, m: nat, n: nat)
    requires
        m + n <= big,
    ensures
        chunk(x % pow2(big), m, n) == chunk(x, m, n),
{
    lemma_chunk_as_mod(x % pow2(big), m, n);
    lemma_chunk_as_mod(x, m, n);
    lemma_pow2_split(m + n, (big - m - n) as nat);
    lemma_mod_mod(x as int, pow2(m + n) as int, pow2((big - m - n) as nat) as int);
}

/// Words of `b` bits joined end to end take `len * b` bits.
pub proof fn lemma_digits_bound(s: Seq<nat>, b: nat)
    requires
        fits(s, b),
    ensures
        digits(s, b) < pow2((s.len() * b) as nat),
    decreases s.len(),
{
    if s.len() > 0 {
        let n = (s.len() - 1) as nat;
        let p = s.drop_last();
        assert(fits(p, b)) by {
            assert forall|i: int| 0 <= i < p.len() implies #[trigger] p[i] < pow2(b) by {
                assert(p[i] == s[i]);
            }
        }
        lemma_digits_bound(p, b);
        assert(s.len() * b == n * b + b) by (nonlinear_arith)
            requires
                n == s.len() - 1,
        ;
        lemma_pow2_split(n * b, b);
        let lo = digits(p, b);
        let v = s.last();
        let big = pow2(n * b);
        let base = pow2(b);
        assert(v < base);
        assert(lo + v * big < big * base) by (nonlinear_arith)
            requires
                lo < big,
                v < base,
                big > 0,
        ;
        assert(((s.len() - 1) * b) as nat == n * b);
        assert((s.len() * b) as nat == n * b + b);
    } else {
        lemma_pow2_pos(0);
    }
}

/// The first `j` words of a joined sequence are its low `j * b` bits.
pub proof fn lemma_digits_prefix(s: Seq<nat>, b: nat, j: nat)
    requires
        fits(s, b),
        j <= s.len(),
    ensures
        digits(s, b) % pow2(j * b) == digits(s.take(j as int), b),
    decreases s.len(),
{
    lemma_pow2_pos(j * b);
    if s.len() == j {
        assert(s.take(j as int) =~= s);
        lemma_digits_bound(s, b);
        lemma_small_mod(digits(s, b), pow2(j * b));
    } else {
        let n = (s.len() - 1) as nat;
        let p = s.drop_last();
        assert(fits(p, b)) by {
            assert forall|i: int| 0 <= i < p.len() implies #[trigger] p[i] < pow2(b) by {
                assert(p[i] == s[i]);
            }
        }
        lemma_digits_prefix(p, b, j);
        assert(p.take(j as int) =~= s.take(j as int));
        let gap = (n * b - j * b) as nat;
        assert(n * b >= j * b) by (nonlinear_arith)
            requires
                n >= j,
        ;
        lemma_pow2_split(j * b, gap);
        assert(j * b + gap == n * b);
        let v = s.last();
        assert(digits(s, b) == digits(p, b) + v * pow2(n * b));
        assert(v * pow2(n * b) == pow2(j * b) * (v * pow2(gap))) by (nonlinear_arith)
            requires
                pow2(n * b) == pow2(j * b) * pow2(gap),
        ;
        lemma_mod_multiples_vanish((v * pow2(gap)) as int, digits(p, b) as int, pow2(j * b) as int);
    }
}

/// Word `i` of a joined sequence is the field of `b` bits at bit `i * b`.
pub proof fn lemma_digits_extract(s: Seq<nat>, b: nat, i: nat)
    requires
        fits(s, b),
        i < s.len(),
    ensures
        chunk(digits(s, b), i * b, b) == s[i as int],
{
    let j = i + 1;
    assert(j * b == i * b + b) by (nonlinear_arith)
        requires
            j == i + 1,
    ;
    lemma_digits_prefix(s, b, j);
    lemma_chunk_below(digits(s, b), j * b, i * b, b);
    let t = s.take(j as int);
    assert(t.drop_last() =~= s.take(i as int));
    let lo = digits(s.take(i as int), b);
    assert(fits(s.take(i as int), b)) by {
        assert forall|k: int| 0 <= k < i implies #[trigger] s.take(i as int)[k] < pow2(b) by {
            assert(s.take(i as int)[k] == s[k]);
        }
    }
    lemma_digits_bound(s.take(i as int), b);
    assert(digits(t, b) == lo + s[i as int] * pow2(i * b));
    lemma_pow2_pos(i * b);
    lemma_mul_is_commutative(s[i as int] as int, pow2(i * b) as int);
    lemma_div_multiples_vanish_fancy(s[i as int] as int, lo as int, pow2(i * b) as int);
    lemma_small_mod(s[i as int], pow2(b));
}

/// A number below `2^(n * b)` is the join of its `n` fields of `b` bits.
pub proof fn lemma_digits_of_chunks(x: nat, b: nat, n: nat)
    requires
        x < pow2(n * b),
    ensures
        digits(chunks(x, b, n), b) == x,
    decreases n,
{
    let s = chunks(x, b, n);
    if n == 0 {
        assert(pow2(0) == 1) by {
            lemma2_to64();
        }
        assert(s.len() == 0);
        assert(n * b == 0) by (nonlinear_arith)
            requires
                n == 0,
        ;
        assert(x == 0);
        assert(digits(s, b) == 0);
    } else {
        let m = (n - 1) as nat;
        assert(n * b == m * b + b) by (nonlinear_arith)
            requires
                m == n - 1,
        ;
        lemma_pow2_split(m * b, b);
        let lo = x % pow2(m * b);
        let hi = x / pow2(m * b);
        lemma_mod_pos_bound(x as int, pow2(m * b) as int);
        lemma_digits_of_chunks(lo, b, m);
        let p = chunks(lo, b, m);
        assert(s.drop_last() =~= p) by {
            assert forall|k: int| 0 <= k < m implies s.drop_last()[k] == p[k] by {
                let kb = (k * b) as nat;
                assert(kb + b == (k + 1) * b && (k + 1) * b <= m * b) by (nonlinear_arith)
                    requires
                        0 <= k < m,
                        kb == k * b,
                ;
                lemma_chunk_below(x, m * b, kb, b);
            }
        }
        lemma_fundamental_div_mod(x as int, pow2(m * b) as int);
        let big = pow2(m * b);
        let base = pow2(b);
        assert(hi < base) by (nonlinear_arith)
            requires
                x == big * hi + lo,
                lo >= 0,
                x < big * base,
                big > 0,
        ;
        lemma_small_mod(hi, pow2(b));
        assert(((s.len() - 1) * b) as nat == m * b);
        assert(s.last() == hi);
        assert(digits(s, b) == lo + hi * pow2(m * b));
        lemma_mul_is_commutative(hi as int, pow2(m * b) as int);
        assert(x == lo + hi * pow2(m * b));
        assert(digits(s, b) == x);
    }
}

/// `x >> s`, as division by `2^s`.
#[inline(always)]
pub fn shr(x: u64, s: u64) -> (r: u64)
    requires
        s < 64,
    ensures
        r == x as nat / pow2(s as nat),
{
    proof {
        lemma_u64_shr_is_div(x, s);
    }
    x >> s
}

/// The low `n` bits of `x`: `x & mask(n)`, where the mask of 64 bits is all ones.
#[inline(always)]
pub fn low_bits(x: u64, n: u64) -> (r: u64)
    requires
        n <= 64,
    ensures
        r == x as nat % pow2(n as nat),
{
    if n == 64 {
        proof {
            lemma2_to64_rest();
            lemma_small_mod(x as nat, pow2(64));
        }
        x
    } else {
        proof {
            lemma_u64_pow2_no_overflow(n as nat);
            lemma_u64_shl_is_mul(1, n);
            lemma_u64_low_bits_mask_is_mod(x, n as nat);
        }
        let mask: u64 = (1u64 << n) - 1;
        x & mask
    }
}

/// `lo | (hi << s)` where `lo` sits below bit `s`: the two do not overlap.
#[inline(always)]
pub fn join(lo: u64, hi: u64, s: u64) -> (r: u64)
    requires
        s < 64,
        lo < pow2(s as nat),
        hi * pow2(s as nat) <= u64::MAX,
    ensures
        r == lo + hi * pow2(s as nat),
{
    proof {
        lemma_u64_pow2_no_overflow(s as nat);
        lemma_u64_shl_is_mul(1, s);
        lemma_u64_shl_is_mul(hi, s);
    }
    let h = hi << s;
    proof {
        lemma_or_is_add(lo, hi, s);
        assert(lo | h == lo + h);
    }
    lo | h
}

/// An `|` of bits that do not overlap is a sum.
proof fn lemma_or_is_add(lo: u64, hi: u64, s: u64)
    by (bit_vector)
    requires
        s < 64,
        lo < (1u64 << s),
    ensures
        lo | (hi << s) == lo + (hi << s),
{
}

} // verus!
