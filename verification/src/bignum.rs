use vstd::prelude::*;

verus! {

/// 2 to the power of 32 times `n`.
pub open spec fn pow32(n: nat) -> nat
    decreases n,
{
    if n == 0 {
        1
    } else {
        0x1_0000_0000 * pow32((n - 1) as nat)
    }
}

/// The limb at a position, zero beyond the last.
pub open spec fn limb_at(limbs: Seq<u32>, i: int) -> nat {
    if 0 <= i < limbs.len() {
        limbs[i] as nat
    } else {
        0
    }
}

/// The number that the lowest `n` limbs stand for, the lowest limb first.
pub open spec fn low_value(limbs: Seq<u32>, n: nat) -> nat
    decreases n,
{
    if n == 0 {
        0
    } else {
        low_value(limbs, (n - 1) as nat) + limb_at(limbs, n - 1) * pow32((n - 1) as nat)
    }
}

/// The number that a list of limbs stands for: limb `i` counts
/// 2 to the power of 32 times `i`.
pub open spec fn big_value(limbs: Seq<u32>) -> nat {
    low_value(limbs, limbs.len())
}

proof fn lemma_pow32_positive(n: nat)
    ensures
        pow32(n) > 0,
    decreases n,
{
    if n > 0 {
        lemma_pow32_positive((n - 1) as nat);
        assert(0x1_0000_0000 * pow32((n - 1) as nat) > 0) by (nonlinear_arith)
            requires
                pow32((n - 1) as nat) > 0,
        ;
    }
}

/// The lowest `n` limbs stand for a number below 2 to the power of 32 times
/// `n`.
proof fn lemma_low_value_bound(limbs: Seq<u32>, n: nat)
    ensures
        low_value(limbs, n) < pow32(n),
    decreases n,
{
    if n > 0 {
        let m = (n - 1) as nat;
        lemma_low_value_bound(limbs, m);
        lemma_pow32_positive(m);
        let l = limb_at(limbs, m as int) as int;
        let p = pow32(m) as int;
        assert(l * p + p <= 0x1_0000_0000 * p) by (nonlinear_arith)
            requires
                0 <= l <= 0xffff_ffff,
                p > 0,
        ;
    }
}

/// Limbs beyond the last add nothing.
proof fn lemma_low_value_beyond(limbs: Seq<u32>, n: nat)
    requires
        n >= limbs.len(),
    ensures
        low_value(limbs, n) == big_value(limbs),
    decreases n,
{
    if n > limbs.len() {
        lemma_low_value_beyond(limbs, (n - 1) as nat);
        assert(limb_at(limbs, n - 1) * pow32((n - 1) as nat) == 0) by (nonlinear_arith)
            requires
                limb_at(limbs, n - 1) == 0,
        ;
    }
}

/// Two lists that agree in their lowest `n` limbs stand for the same number
/// there.
proof fn lemma_low_value_agrees(a: Seq<u32>, b: Seq<u32>, n: nat)
    requires
        forall|i: int| 0 <= i < n ==> limb_at(a, i) == limb_at(b, i),
    ensures
        low_value(a, n) == low_value(b, n),
    decreases n,
{
    if n > 0 {
        lemma_low_value_agrees(a, b, (n - 1) as nat);
    }
}

/// Adding a limb on top adds its weight.
proof fn lemma_push_limb(limbs: Seq<u32>, limb: u32)
    ensures
        big_value(limbs.push(limb)) == big_value(limbs) + limb as nat * pow32(limbs.len()),
{
    let longer = limbs.push(limb);
    assert forall|i: int| 0 <= i < limbs.len() implies limb_at(longer, i) == limb_at(limbs, i) by {
        assert(longer[i] == limbs[i]);
    }
    lemma_low_value_agrees(longer, limbs, limbs.len());
    assert(limb_at(longer, limbs.len() as int) == limb as nat);
}

/// The number one.
pub fn big_one() -> (one: Vec<u32>)
    ensures
        big_value(one@) == 1,
{
    let mut one: Vec<u32> = Vec::new();
    one.push(1);
    proof {
        lemma_push_limb(Seq::<u32>::empty(), 1u32);
        assert(one@ =~= Seq::<u32>::empty().push(1u32));
        assert(big_value(Seq::<u32>::empty()) == 0);
        assert(pow32(0) == 1);
        assert(1u32 as nat * pow32(0) == 1) by (nonlinear_arith)
            requires
                pow32(0) == 1,
        ;
    }
    one
}

/// One step of a multiplication or an addition: the digit and the carry of
/// a sum keep what the sum counts.
proof fn lemma_carry_step(before: nat, total: nat, weight: nat)
    requires
        weight > 0,
    ensures
        before + (total % 0x1_0000_0000) * weight + (total / 0x1_0000_0000) * (0x1_0000_0000
            * weight) == before + total * weight,
{
    let q = (total / 0x1_0000_0000) as int;
    let r = (total % 0x1_0000_0000) as int;
    let t = total as int;
    let w = weight as int;
    assert(t == 0x1_0000_0000 * q + r) by {
        vstd::arithmetic::div_mod::lemma_fundamental_div_mod(t, 0x1_0000_0000);
    }
    assert(r * w + q * (0x1_0000_0000 * w) == t * w) by (nonlinear_arith)
        requires
            t == 0x1_0000_0000 * q + r,
    ;
}

/// The product of a number and a factor below 2 to the power of 96.
pub fn big_mul_small(a: &Vec<u32>, factor: u128) -> (product: Vec<u32>)
    requires
        factor < 0x1_0000_0000_0000_0000_0000_0000,
    ensures
        big_value(product@) == big_value(a@) * factor,
{
    let mut product: Vec<u32> = Vec::new();
    let mut carry: u128 = 0;
    let mut i: usize = 0;
    proof {
        assert(big_value(product@) == 0);
        assert(low_value(a@, 0) * factor == 0) by (nonlinear_arith)
            requires
                low_value(a@, 0) == 0,
        ;
        assert(carry * pow32(0) == 0) by (nonlinear_arith)
            requires
                carry == 0,
        ;
    }
    while i < a.len()
        invariant
            i <= a.len(),
            product.len() == i,
            factor < 0x1_0000_0000_0000_0000_0000_0000,
            carry < 0x1_0000_0000_0000_0000_0000_0000,
            big_value(product@) + carry * pow32(i as nat) == low_value(a@, i as nat) * factor,
        decreases a.len() - i,
    {
        let limb = a[i];
        proof {
            assert(limb as u128 * factor <= 0xffff_ffff * 0xffff_ffff_ffff_ffff_ffff_ffff) by (nonlinear_arith)
                requires
                    limb <= 0xffff_ffff,
                    factor <= 0xffff_ffff_ffff_ffff_ffff_ffff,
            ;
        }
        let total: u128 = limb as u128 * factor + carry;
        let digit: u32 = (total % 0x1_0000_0000) as u32;
        let ghost old_product = product@;
        let ghost old_carry = carry;
        product.push(digit);
        carry = total / 0x1_0000_0000;
        proof {
            lemma_push_limb(old_product, digit);
            lemma_pow32_positive(i as nat);
            let w = pow32(i as nat);
            lemma_carry_step(big_value(old_product), total as nat, w);
            assert(limb_at(a@, i as int) == limb as nat);
            let low = low_value(a@, i as nat) as int;
            let l = limb as int;
            let f = factor as int;
            let c = old_carry as int;
            let wi = w as int;
            assert((low + l * wi) * f == low * f + (l * f + c) * wi - c * wi) by (nonlinear_arith);
            assert(pow32((i + 1) as nat) == 0x1_0000_0000 * w);
        }
        i += 1;
    }
    while carry > 0
        invariant
            big_value(product@) + carry * pow32(product@.len()) == big_value(a@) * factor,
        decreases carry,
    {
        let digit: u32 = (carry % 0x1_0000_0000) as u32;
        let ghost old_product = product@;
        let ghost old_carry = carry;
        product.push(digit);
        carry = carry / 0x1_0000_0000;
        proof {
            lemma_push_limb(old_product, digit);
            lemma_pow32_positive(old_product.len());
            let w = pow32(old_product.len());
            lemma_carry_step(big_value(old_product), old_carry as nat, w);
            assert(pow32((old_product.len() + 1) as nat) == 0x1_0000_0000 * w);
        }
    }
    proof {
        assert(carry * pow32(product@.len()) == 0) by (nonlinear_arith)
            requires
                carry == 0,
        ;
    }
    product
}

/// The sum of two numbers.
pub fn big_add(a: &Vec<u32>, b: &Vec<u32>) -> (sum: Vec<u32>)
    ensures
        big_value(sum@) == big_value(a@) + big_value(b@),
{
    let length: usize = if a.len() > b.len() {
        a.len()
    } else {
        b.len()
    };
    let mut sum: Vec<u32> = Vec::new();
    let mut carry: u64 = 0;
    let mut i: usize = 0;
    proof {
        assert(carry * pow32(0) == 0) by (nonlinear_arith)
            requires
                carry == 0,
        ;
    }
    while i < length
        invariant
            i <= length,
            length >= a.len(),
            length >= b.len(),
            sum.len() == i,
            carry <= 1,
            big_value(sum@) + carry * pow32(i as nat) == low_value(a@, i as nat) + low_value(
                b@,
                i as nat,
            ),
        decreases length - i,
    {
        let x: u64 = if i < a.len() {
            a[i] as u64
        } else {
            0
        };
        let y: u64 = if i < b.len() {
            b[i] as u64
        } else {
            0
        };
        let total: u64 = x + y + carry;
        let digit: u32 = (total % 0x1_0000_0000) as u32;
        let ghost old_sum = sum@;
        let ghost old_carry = carry;
        sum.push(digit);
        carry = total / 0x1_0000_0000;
        proof {
            lemma_push_limb(old_sum, digit);
            lemma_pow32_positive(i as nat);
            let w = pow32(i as nat);
            lemma_carry_step(big_value(old_sum), total as nat, w);
            assert(limb_at(a@, i as int) == x as nat);
            assert(limb_at(b@, i as int) == y as nat);
            let xi = x as int;
            let yi = y as int;
            let c = old_carry as int;
            let wi = w as int;
            assert((xi + yi + c) * wi == xi * wi + yi * wi + c * wi) by (nonlinear_arith);
            assert(pow32((i + 1) as nat) == 0x1_0000_0000 * w);
        }
        i += 1;
    }
    proof {
        lemma_low_value_beyond(a@, length as nat);
        lemma_low_value_beyond(b@, length as nat);
    }
    if carry > 0 {
        let ghost old_sum = sum@;
        sum.push(1);
        proof {
            lemma_push_limb(old_sum, 1u32);
            assert(1u32 as nat * pow32(old_sum.len()) == carry * pow32(length as nat)) by (nonlinear_arith)
                requires
                    carry == 1,
                    old_sum.len() == length,
            ;
        }
    } else {
        proof {
            assert(carry * pow32(length as nat) == 0) by (nonlinear_arith)
                requires
                    carry == 0,
            ;
        }
    }
    sum
}

/// Two lists that agree from limb `from` up to limb `n` differ in what they
/// stand for as their lowest `from` limbs do.
proof fn lemma_same_high_limbs(a: Seq<u32>, b: Seq<u32>, from: nat, n: nat)
    requires
        from <= n,
        forall|i: int| from <= i < n ==> limb_at(a, i) == limb_at(b, i),
    ensures
        low_value(a, n) - low_value(a, from) == low_value(b, n) - low_value(b, from),
    decreases n,
{
    if n > from {
        lemma_same_high_limbs(a, b, from, (n - 1) as nat);
    }
}

/// Whether the first number is below the second.
pub fn big_less(a: &Vec<u32>, b: &Vec<u32>) -> (less: bool)
    ensures
        less == (big_value(a@) < big_value(b@)),
{
    let length: usize = if a.len() > b.len() {
        a.len()
    } else {
        b.len()
    };
    proof {
        lemma_low_value_beyond(a@, length as nat);
        lemma_low_value_beyond(b@, length as nat);
    }
    let mut i: usize = length;
    while i > 0
        invariant
            i <= length,
            length >= a.len(),
            length >= b.len(),
            forall|j: int| i <= j < length ==> limb_at(a@, j) == limb_at(b@, j),
            low_value(a@, length as nat) == big_value(a@),
            low_value(b@, length as nat) == big_value(b@),
        decreases i,
    {
        let k = i - 1;
        let x: u32 = if k < a.len() {
            a[k]
        } else {
            0
        };
        let y: u32 = if k < b.len() {
            b[k]
        } else {
            0
        };
        if x != y {
            proof {
                lemma_same_high_limbs(a@, b@, i as nat, length as nat);
                lemma_low_value_bound(a@, k as nat);
                lemma_low_value_bound(b@, k as nat);
                lemma_pow32_positive(k as nat);
                let w = pow32(k as nat) as int;
                let xi = x as int;
                let yi = y as int;
                assert(limb_at(a@, k as int) == x as nat);
                assert(limb_at(b@, k as int) == y as nat);
                assert(low_value(a@, i as nat) == low_value(a@, k as nat) + x as nat * pow32(
                    k as nat,
                ));
                assert(low_value(b@, i as nat) == low_value(b@, k as nat) + y as nat * pow32(
                    k as nat,
                ));
                if x < y {
                    assert(xi * w + w <= yi * w) by (nonlinear_arith)
                        requires
                            xi + 1 <= yi,
                            w > 0,
                    ;
                } else {
                    assert(yi * w + w <= xi * w) by (nonlinear_arith)
                        requires
                            yi + 1 <= xi,
                            w > 0,
                    ;
                }
            }
            return x < y;
        }
        i = k;
    }
    proof {
        lemma_low_value_agrees(a@, b@, length as nat);
    }
    false
}

} // verus!
