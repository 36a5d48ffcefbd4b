//! Natural numbers of any size.
use vstd::prelude::*;

verus! {

/// `2` to the power of `k`.
pub open spec fn twos(k: nat) -> nat
    decreases k,
{
    if k == 0 {
        1
    } else {
        2 * twos((k - 1) as nat)
    }
}

/// `10` to the power of `k`.
pub open spec fn tens(k: nat) -> nat
    decreases k,
{
    if k == 0 {
        1
    } else {
        10 * tens((k - 1) as nat)
    }
}

pub proof fn lemma_twos_add(j: nat, k: nat)
    ensures
        twos(j + k) == twos(j) * twos(k),
        twos(k) > 0,
    decreases k,
{
    if k > 0 {
        lemma_twos_add(j, (k - 1) as nat);
        let t = twos((k - 1) as nat);
        assert(twos(j + k) == 2 * twos((j + k - 1) as nat));
        assert(2 * (twos(j) * t) == twos(j) * (2 * t)) by (nonlinear_arith);
    } else {
        assert(twos(j) * 1 == twos(j));
    }
}

pub proof fn lemma_tens_add(j: nat, k: nat)
    ensures
        tens(j + k) == tens(j) * tens(k),
        tens(k) > 0,
    decreases k,
{
    if k > 0 {
        lemma_tens_add(j, (k - 1) as nat);
        let t = tens((k - 1) as nat);
        assert(tens(j + k) == 10 * tens((j + k - 1) as nat));
        assert(10 * (tens(j) * t) == tens(j) * (10 * t)) by (nonlinear_arith);
    } else {
        assert(tens(j) * 1 == tens(j));
    }
}

/// Powers grow with their exponent.
pub proof fn lemma_tens_grow(j: nat, k: nat)
    requires
        j <= k,
    ensures
        tens(j) <= tens(k),
    decreases k,
{
    if j < k {
        lemma_tens_grow(j, (k - 1) as nat);
        lemma_tens_add(0, (k - 1) as nat);
    }
}

/// Ten is more than eight.
pub proof fn lemma_tens_and_twos(k: nat)
    ensures
        tens(k) >= twos(3 * k),
    decreases k,
{
    if k > 0 {
        lemma_tens_and_twos((k - 1) as nat);
        let t = twos(3 * ((k - 1) as nat));
        assert(3 * k == 3 * ((k - 1) as nat) + 3);
        lemma_twos_add(3 * ((k - 1) as nat), 3);
        reveal_with_fuel(twos, 4);
        assert(twos(3) == 8);
        lemma_twos_add(0, 3 * ((k - 1) as nat));
    }
}

/// What the place of a limb counts for.
pub open spec fn place(i: nat) -> nat
    decreases i,
{
    if i == 0 {
        1
    } else {
        place((i - 1) as nat) * 0x1_0000_0000
    }
}

/// The number that limbs denote, the least significant first.
pub open spec fn limbs_value(limbs: Seq<u32>) -> nat
    decreases limbs.len(),
{
    if limbs.len() == 0 {
        0
    } else {
        limbs_value(limbs.drop_last()) + limbs.last() as nat * place((limbs.len() - 1) as nat)
    }
}

/// A natural number.
pub struct Natural {
    limbs: Vec<u32>,
}

impl View for Natural {
    type V = nat;

    closed spec fn view(&self) -> nat {
        limbs_value(self.limbs@)
    }
}

proof fn lemma_push(limbs: Seq<u32>, x: u32)
    ensures
        limbs_value(limbs.push(x)) == limbs_value(limbs) + x as nat * place(limbs.len()),
{
    assert(limbs.push(x).drop_last() =~= limbs);
}

/// The limb at a place, zero beyond the last.
spec fn limb(limbs: Seq<u32>, i: int) -> nat {
    if i < limbs.len() {
        limbs[i] as nat
    } else {
        0
    }
}

/// What the limbs below a place denote.
spec fn below(limbs: Seq<u32>, i: nat) -> nat {
    if i <= limbs.len() {
        limbs_value(limbs.take(i as int))
    } else {
        limbs_value(limbs)
    }
}

proof fn lemma_below(limbs: Seq<u32>, i: nat)
    ensures
        below(limbs, i + 1) == below(limbs, i) + limb(limbs, i as int) * place(i),
{
    if i < limbs.len() {
        let t = limbs.take(i as int + 1);
        assert(t.drop_last() =~= limbs.take(i as int));
    } else {
        assert(limbs.take(limbs.len() as int) =~= limbs);
        assert(0 * place(i) == 0);
    }
}

proof fn lemma_below_place(limbs: Seq<u32>, i: nat)
    ensures
        below(limbs, i) < place(i),
    decreases i,
{
    if i == 0 {
        assert(limbs.take(0) =~= Seq::<u32>::empty());
    } else {
        let j = (i - 1) as nat;
        lemma_below_place(limbs, j);
        lemma_below(limbs, j);
        let x = limb(limbs, j as int);
        assert(x * place(j) <= 0xffff_ffff * place(j)) by (nonlinear_arith)
            requires
                x <= 0xffff_ffff,
        ;
        assert(0xffff_ffff * place(j) + place(j) == place(j) * 0x1_0000_0000) by (nonlinear_arith);
    }
}

impl Natural {
    /// The number zero.
    pub fn zero() -> (r: Natural)
        ensures
            r@ == 0,
    {
        Natural { limbs: Vec::new() }
    }

    /// The number multiplied by `m`, and `a` added.
    pub fn times_plus(&self, m: u64, a: u64) -> (r: Natural)
        ensures
            r@ == self@ * m + a,
    {
        let mut out: Vec<u32> = Vec::new();
        let mut carry: u128 = a as u128;
        let mut i: usize = 0;
        let ghost all = self.limbs@;
        assert(all.take(0) =~= Seq::<u32>::empty());
        assert(limbs_value(all.take(0)) * m == 0) by (nonlinear_arith)
            requires
                limbs_value(all.take(0)) == 0,
        ;
        assert(carry * place(0) == carry) by (nonlinear_arith)
            requires
                place(0) == 1,
        ;
        while i < self.limbs.len()
            invariant
                i <= all.len(),
                all == self.limbs@,
                out@.len() == i,
                carry <= 0x1_ffff_ffff_ffff_ffff,
                limbs_value(out@) + carry * place(i as nat) == limbs_value(all.take(i as int)) * m
                    + a,
            decreases all.len() - i,
        {
            let x: u32 = self.limbs[i];
            assert(x as u128 * m as u128 <= 0xffff_ffff * 0xffff_ffff_ffff_ffff) by (
                nonlinear_arith
            )
                requires
                    x <= 0xffff_ffff,
                    m <= 0xffff_ffff_ffff_ffff,
            ;
            let t: u128 = x as u128 * m as u128 + carry;
            let low: u32 = (t % 0x1_0000_0000) as u32;
            let high: u128 = t / 0x1_0000_0000;
            proof {
                let p = place(i as nat);
                let front = limbs_value(all.take(i as int));
                let done = limbs_value(out@);
                let grown = all.take(i + 1);
                assert(grown.drop_last() =~= all.take(i as int));
                assert(limbs_value(grown) == front + x as nat * p);
                lemma_push(out@, low);
                assert((front + x as nat * p) * m + a == done + low as nat * p + high * (p
                    * 0x1_0000_0000)) by (nonlinear_arith)
                    requires
                        done + carry * p == front * m + a,
                        x as nat * m as nat + carry == high * 0x1_0000_0000 + low as nat,
                ;
            }
            out.push(low);
            carry = high;
            i += 1;
        }
        assert(all.take(all.len() as int) =~= all);
        let ghost mut n: nat = i as nat;
        while carry > 0
            invariant
                n == out@.len(),
                limbs_value(out@) + carry * place(n) == limbs_value(all) * m + a,
            decreases carry,
        {
            let low: u32 = (carry % 0x1_0000_0000) as u32;
            let high: u128 = carry / 0x1_0000_0000;
            proof {
                let p = place(n);
                lemma_push(out@, low);
                assert(carry * p == low as nat * p + high * (p * 0x1_0000_0000)) by (
                    nonlinear_arith
                )
                    requires
                        carry == high * 0x1_0000_0000 + low as nat,
                ;
                n = n + 1;
            }
            out.push(low);
            carry = high;
        }
        assert(0 * place(n) == 0);
        Natural { limbs: out }
    }

    fn limb_at(&self, i: usize) -> (x: u32)
        ensures
            x == limb(self.limbs@, i as int),
    {
        if i < self.limbs.len() {
            self.limbs[i]
        } else {
            0
        }
    }

    /// Whether the number is less than another.
    pub fn less_than(&self, other: &Natural) -> (r: bool)
        ensures
            r == (self@ < other@),
    {
        let ghost a = self.limbs@;
        let ghost b = other.limbs@;
        let mut i: usize = if self.limbs.len() >= other.limbs.len() {
            self.limbs.len()
        } else {
            other.limbs.len()
        };
        proof {
            assert(a.take(a.len() as int) =~= a);
            assert(b.take(b.len() as int) =~= b);
        }
        while i > 0
            invariant
                a == self.limbs@,
                b == other.limbs@,
                limbs_value(a) - below(a, i as nat) == limbs_value(b) - below(b, i as nat),
            decreases i,
        {
            i -= 1;
            let x: u32 = self.limb_at(i);
            let y: u32 = other.limb_at(i);
            proof {
                lemma_below(a, i as nat);
                lemma_below(b, i as nat);
                lemma_below_place(a, i as nat);
                lemma_below_place(b, i as nat);
                let p = place(i as nat);
                if x < y {
                    assert(x * p + p <= y * p) by (nonlinear_arith)
                        requires
                            x + 1 <= y,
                    ;
                } else if y < x {
                    assert(y * p + p <= x * p) by (nonlinear_arith)
                        requires
                            y + 1 <= x,
                    ;
                }
            }
            if x != y {
                return x < y;
            }
        }
        proof {
            assert(a.take(0) =~= Seq::<u32>::empty());
            assert(b.take(0) =~= Seq::<u32>::empty());
        }
        false
    }
}

} // verus!
