use vstd::prelude::*;
use vstd::arithmetic::power2::{pow2, lemma_pow2_pos, lemma_pow2_unfold, lemma_pow2_adds};
use vstd::arithmetic::div_mod::{
    lemma_fundamental_div_mod,
    lemma_fundamental_div_mod_converse,
    lemma_div_denominator,
    lemma_multiply_divide_lt,
    lemma_mod_breakdown,
};

verus! {

/// The low `n` bits of `v`, most significant first.
pub open spec fn nat_bits(v: nat, n: nat) -> Seq<bool>
    decreases n,
{
    if n == 0 {
        Seq::empty()
    } else {
        nat_bits(v / 2, (n - 1) as nat).push(v % 2 == 1)
    }
}

/// The number that a bit sequence spells, most significant bit first.
pub open spec fn bits_val(q: Seq<bool>) -> nat
    decreases q.len(),
{
    if q.len() == 0 {
        0
    } else {
        2 * bits_val(q.drop_last()) + (if q.last() { 1nat } else { 0nat })
    }
}

/// The eight bits of a byte, most significant first.
pub open spec fn byte_bits(b: u8) -> Seq<bool> {
    nat_bits(b as nat, 8)
}

pub proof fn lemma_nat_bits_len(v: nat, n: nat)
    ensures
        nat_bits(v, n).len() == n,
    decreases n,
{
    if n > 0 {
        lemma_nat_bits_len(v / 2, (n - 1) as nat);
    }
}

/// Reading back the low `n` bits gives `v` modulo `2^n`.
pub proof fn lemma_bits_val_nat_bits(v: nat, n: nat)
    ensures
        bits_val(nat_bits(v, n)) == v % pow2(n),
    decreases n,
{
    lemma_nat_bits_len(v, n);
    if n == 0 {
        vstd::arithmetic::power2::lemma2_to64();
    } else {
        lemma_bits_val_nat_bits(v / 2, (n - 1) as nat);
        let q = nat_bits(v, n);
        assert(q.drop_last() =~= nat_bits(v / 2, (n - 1) as nat));
        lemma_pow2_unfold(n);
        lemma_pow2_pos((n - 1) as nat);
        lemma_mod_breakdown(v as int, 2, pow2((n - 1) as nat) as int);
    }
}

/// Splitting a number into high part `a` and low `k`-bit part `r` splits its bits.
pub proof fn lemma_nat_bits_split(a: nat, r: nat, n: nat, k: nat)
    requires
        r < pow2(k),
    ensures
        nat_bits(a * pow2(k) + r, n + k) == nat_bits(a, n) + nat_bits(r, k),
    decreases k,
{
    if k == 0 {
        vstd::arithmetic::power2::lemma2_to64();
        assert(pow2(k) == 1);
        assert(r == 0);
        assert(a * pow2(k) + r == a) by (nonlinear_arith)
            requires
                pow2(k) == 1,
                r == 0,
        ;
        assert(n + k == n);
        assert(nat_bits(a, n) + nat_bits(r, k) =~= nat_bits(a, n));
    } else {
        lemma_pow2_unfold(k);
        lemma_pow2_pos((k - 1) as nat);
        let m = a * pow2((k - 1) as nat);
        let x = a * pow2(k) + r;
        assert(a * pow2(k) == 2 * m) by (nonlinear_arith)
            requires
                pow2(k) == 2 * pow2((k - 1) as nat),
                m == a * pow2((k - 1) as nat),
        ;
        lemma_fundamental_div_mod(r as int, 2);
        lemma_fundamental_div_mod_converse(x as int, 2, (m + r / 2) as int, (r % 2) as int);
        assert(r / 2 < pow2((k - 1) as nat));
        lemma_nat_bits_split(a, r / 2, n, (k - 1) as nat);
        assert((n + k - 1) as nat == n + (k - 1) as nat);
        assert(nat_bits(x, n + k) == nat_bits(x / 2, (n + k - 1) as nat).push(x % 2 == 1));
        assert(nat_bits(r, k) == nat_bits(r / 2, (k - 1) as nat).push(r % 2 == 1));
        assert(nat_bits(x, n + k) =~= nat_bits(a, n) + nat_bits(r, k));
    }
}

/// The first `n` bits of a `c`-bit value and what follows them.
pub proof fn lemma_nat_bits_take_skip(v: nat, c: nat, n: nat)
    requires
        n <= c,
    ensures
        pow2((c - n) as nat) > 0,
        nat_bits(v, c).take(n as int) == nat_bits(v / pow2((c - n) as nat), n),
        nat_bits(v, c).skip(n as int) == nat_bits(v % pow2((c - n) as nat), (c - n) as nat),
{
    let k = (c - n) as nat;
    lemma_pow2_pos(k);
    lemma_fundamental_div_mod(v as int, pow2(k) as int);
    let a = v / pow2(k);
    let r = v % pow2(k);
    assert(v == a * pow2(k) + r) by (nonlinear_arith)
        requires
            v == pow2(k) * (v / pow2(k)) + v % pow2(k),
            a == v / pow2(k),
            r == v % pow2(k),
    ;
    lemma_nat_bits_split(a, r, n, k);
    lemma_nat_bits_len(a, n);
    lemma_nat_bits_len(r, k);
    assert(n + k == c);
    assert(nat_bits(v, c).take(n as int) =~= nat_bits(a, n));
    assert(nat_bits(v, c).skip(n as int) =~= nat_bits(r, k));
}

/// A value below `2^n` is spelled exactly by its `n` bits.
pub proof fn lemma_bits_val_small(v: nat, n: nat)
    requires
        v < pow2(n),
    ensures
        bits_val(nat_bits(v, n)) == v,
{
    lemma_bits_val_nat_bits(v, n);
    vstd::arithmetic::div_mod::lemma_small_mod(v, pow2(n));
}

/// A `c`-bit value divided by `2^(c - n)` is below `2^n`.
pub proof fn lemma_high_part_bound(v: nat, c: nat, n: nat)
    requires
        n <= c,
        v < pow2(c),
    ensures
        pow2((c - n) as nat) > 0,
        v / pow2((c - n) as nat) < pow2(n),
{
    let k = (c - n) as nat;
    lemma_pow2_pos(k);
    lemma_pow2_adds(k, n);
    assert(k + n == c);
    assert(pow2(k) * pow2(n) == pow2(c));
    lemma_multiply_divide_lt(v as int, pow2(k) as int, pow2(n) as int);
}

/// Dividing in two steps by powers of two.
pub proof fn lemma_div_pow2_twice(v: nat, a: nat, b: nat)
    ensures
        pow2(a) > 0,
        pow2(b) > 0,
        (v / pow2(a)) / pow2(b) == v / pow2(a + b),
{
    lemma_pow2_pos(a);
    lemma_pow2_pos(b);
    lemma_pow2_adds(a, b);
    lemma_div_denominator(v as int, pow2(a) as int, pow2(b) as int);
}

/// Appending a bit doubles the value and adds the bit.
pub proof fn lemma_bits_val_push(q: Seq<bool>, b: bool)
    ensures
        bits_val(q.push(b)) == 2 * bits_val(q) + (if b { 1nat } else { 0nat }),
{
    assert(q.push(b).drop_last() =~= q);
}

/// Concatenating bit sequences shifts the first past the second.
pub proof fn lemma_bits_val_concat(a: Seq<bool>, b: Seq<bool>)
    ensures
        bits_val(a + b) == bits_val(a) * pow2(b.len()) + bits_val(b),
    decreases b.len(),
{
    if b.len() == 0 {
        vstd::arithmetic::power2::lemma2_to64();
        assert(a + b =~= a);
    } else {
        let b1 = b.drop_last();
        lemma_bits_val_concat(a, b1);
        assert((a + b).drop_last() =~= a + b1);
        lemma_pow2_unfold(b.len());
        assert(bits_val(a) * pow2(b.len()) == 2 * (bits_val(a) * pow2(b1.len()))) by (nonlinear_arith)
            requires
                pow2(b.len()) == 2 * pow2(b1.len()),
        ;
    }
}

/// A sequence of `n` bits spells a value below `2^n`.
pub proof fn lemma_bits_val_bound(q: Seq<bool>)
    ensures
        bits_val(q) < pow2(q.len()),
    decreases q.len(),
{
    if q.len() == 0 {
        vstd::arithmetic::power2::lemma2_to64();
    } else {
        lemma_bits_val_bound(q.drop_last());
        lemma_pow2_unfold(q.len());
    }
}

} // verus!
