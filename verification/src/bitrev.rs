use vstd::prelude::*;
use vstd::arithmetic::power2::{pow2, lemma_pow2_unfold, lemma_pow2_pos, lemma2_to64};
use vstd::arithmetic::div_mod::lemma_div_denominator;

verus! {

/// The low `b` bits of `i`, least significant first.
pub open spec fn bits_of(i: nat, b: nat) -> Seq<bool>
    decreases b,
{
    if b == 0 {
        Seq::empty()
    } else {
        seq![i % 2 == 1].add(bits_of(i / 2, (b - 1) as nat))
    }
}

/// The number whose bits, least significant first, are `s`.
pub open spec fn from_bits(s: Seq<bool>) -> nat
    decreases s.len(),
{
    if s.len() == 0 {
        0
    } else {
        (if s[0] { 1nat } else { 0nat }) + 2 * from_bits(s.drop_first())
    }
}

/// `i` with its low `b` bits written in reverse order.
pub open spec fn reverse_index(i: nat, b: nat) -> nat {
    from_bits(bits_of(i, b).reverse())
}

/// The sequence `s` reordered so that position `i` holds `s[reverse_index(i, b)]`.
pub open spec fn bit_reversed<T>(s: Seq<T>, b: nat) -> Seq<T> {
    Seq::new(s.len(), |i: int| s[reverse_index(i as nat, b) as int])
}

proof fn lemma_bits_of_len(i: nat, b: nat)
    ensures
        bits_of(i, b).len() == b,
    decreases b,
{
    if b > 0 {
        lemma_bits_of_len(i / 2, (b - 1) as nat);
    }
}

proof fn lemma_from_bits_bound(s: Seq<bool>)
    ensures
        from_bits(s) < pow2(s.len()),
    decreases s.len(),
{
    if s.len() == 0 {
        lemma2_to64();
    } else {
        lemma_from_bits_bound(s.drop_first());
        lemma_pow2_unfold(s.len());
    }
}

proof fn lemma_from_bits_of(i: nat, b: nat)
    requires
        i < pow2(b),
    ensures
        from_bits(bits_of(i, b)) == i,
    decreases b,
{
    if b == 0 {
        lemma2_to64();
    } else {
        lemma_pow2_unfold(b);
        lemma_bits_of_len(i / 2, (b - 1) as nat);
        let s = bits_of(i, b);
        assert(s.drop_first() =~= bits_of(i / 2, (b - 1) as nat));
        lemma_from_bits_of(i / 2, (b - 1) as nat);
    }
}

proof fn lemma_bits_of_from(s: Seq<bool>)
    ensures
        bits_of(from_bits(s), s.len()) == s,
    decreases s.len(),
{
    if s.len() > 0 {
        let t = s.drop_first();
        lemma_bits_of_from(t);
        let v = from_bits(s);
        assert(v / 2 == from_bits(t));
        assert((v % 2 == 1) == s[0]);
        assert(bits_of(v, s.len()) =~= s);
    }
}

/// Appending the next bit: the low `t + 1` bits extend the low `t` bits.
proof fn lemma_bits_of_push(i: nat, t: nat)
    ensures
        bits_of(i, t + 1) == bits_of(i, t).push((i / pow2(t)) % 2 == 1),
    decreases t,
{
    if t == 0 {
        lemma2_to64();
        assert(pow2(0) == 1);
        assert(bits_of(i / 2, 0) =~= Seq::<bool>::empty());
        assert(bits_of(i, 0) =~= Seq::<bool>::empty());
        assert(bits_of(i, 1) =~= bits_of(i, 0).push((i / pow2(0)) % 2 == 1));
    } else {
        lemma_bits_of_push(i / 2, (t - 1) as nat);
        lemma_pow2_unfold(t);
        lemma_pow2_pos((t - 1) as nat);
        lemma_div_denominator(i as int, 2, pow2((t - 1) as nat) as int);
        assert((i / 2) / pow2((t - 1) as nat) == i / pow2(t));
        assert(bits_of(i, t + 1) =~= bits_of(i, t).push((i / pow2(t)) % 2 == 1));
    }
}

/// A bit-reversed index stays below `2^b`.
pub proof fn lemma_reverse_index_bound(i: nat, b: nat)
    ensures
        reverse_index(i, b) < pow2(b),
{
    lemma_bits_of_len(i, b);
    lemma_from_bits_bound(bits_of(i, b).reverse());
}

/// Reversing the low `b` bits twice gives back any index below `2^b`.
pub proof fn lemma_reverse_index_involution(i: nat, b: nat)
    requires
        i < pow2(b),
    ensures
        reverse_index(reverse_index(i, b), b) == i,
{
    let s = bits_of(i, b);
    lemma_bits_of_len(i, b);
    let r = s.reverse();
    assert(r.len() == b);
    lemma_bits_of_from(r);
    assert(r.reverse() =~= s);
    lemma_from_bits_of(i, b);
}

/// Bit `k` of the number whose bits are `s` is `s[k]`.
proof fn lemma_from_bits_bit(s: Seq<bool>, k: nat)
    requires
        k < s.len(),
    ensures
        (from_bits(s) / pow2(k)) % 2 == (if s[k as int] { 1nat } else { 0nat }),
    decreases k,
{
    lemma2_to64();
    let v = from_bits(s);
    let t = s.drop_first();
    assert(v / 2 == from_bits(t));
    if k == 0 {
        assert(v / pow2(0) == v);
    } else {
        lemma_from_bits_bit(t, (k - 1) as nat);
        lemma_pow2_unfold(k);
        lemma_pow2_pos((k - 1) as nat);
        lemma_div_denominator(v as int, 2, pow2((k - 1) as nat) as int);
        assert(v / pow2(k) == from_bits(t) / pow2((k - 1) as nat));
        assert(t[(k - 1) as int] == s[k as int]);
    }
}

/// Entry `m` of the low bits of `i` is bit `m` of `i`.
proof fn lemma_bits_of_bit(i: nat, b: nat, m: nat)
    requires
        m < b,
    ensures
        bits_of(i, b)[m as int] == ((i / pow2(m)) % 2 == 1),
    decreases b,
{
    lemma2_to64();
    lemma_bits_of_len(i / 2, (b - 1) as nat);
    if m == 0 {
        assert(i / pow2(0) == i);
    } else {
        lemma_bits_of_bit(i / 2, (b - 1) as nat, (m - 1) as nat);
        lemma_pow2_unfold(m);
        lemma_pow2_pos((m - 1) as nat);
        lemma_div_denominator(i as int, 2, pow2((m - 1) as nat) as int);
        assert((i / 2) / pow2((m - 1) as nat) == i / pow2(m));
    }
}

/// Bit reversal over `b` bits moves bit `b - 1 - k` of `i` to bit `k`, for
/// every `k < b`; together with `lemma_reverse_index_bound` this determines
/// the reversed index completely.
pub proof fn lemma_reverse_index_bits(i: nat, b: nat, k: nat)
    requires
        k < b,
    ensures
        (reverse_index(i, b) / pow2(k)) % 2 == (i / pow2((b - 1 - k) as nat)) % 2,
{
    let s = bits_of(i, b);
    lemma_bits_of_len(i, b);
    let r = s.reverse();
    assert(r[k as int] == s[(b - 1 - k) as int]);
    lemma_from_bits_bit(r, k);
    lemma_bits_of_bit(i, b, (b - 1 - k) as nat);
}

/// Reversing `b >= 1` bits of 1 gives the top bit `2^(b-1)`, and of 0 gives 0.
pub proof fn lemma_reverse_index_of_one(b: nat)
    requires
        b >= 1,
    ensures
        reverse_index(1, b) == pow2((b - 1) as nat),
        reverse_index(0, b) == 0,
{
    let s = bits_of(1, b);
    lemma_bits_of_len(1, b);
    lemma_bits_of_len(0, b);
    let r = s.reverse();
    let top = Seq::new((b - 1) as nat, |k: int| false).push(true);
    lemma2_to64();
    assert forall|k: int| 0 <= k < b implies r[k] == top[k] by {
        lemma_bits_of_bit(1, b, (b - 1 - k) as nat);
        if b - 1 - k > 0 {
            lemma_pow2_unfold((b - 1 - k) as nat);
            lemma_pow2_pos((b - 2 - k) as nat);
            assert(1nat / pow2((b - 1 - k) as nat) == 0) by (nonlinear_arith)
                requires pow2((b - 1 - k) as nat) >= 2;
        } else {
            assert(1nat / pow2(0) == 1);
        }
    }
    assert(r =~= top);
    lemma_from_bits_top((b - 1) as nat);
    let z = bits_of(0, b).reverse();
    assert forall|k: int| 0 <= k < b implies z[k] == false by {
        lemma_pow2_pos((b - 1 - k) as nat);
        lemma_bits_of_bit(0, b, (b - 1 - k) as nat);
    }
    lemma_from_bits_zero(z);
}

proof fn lemma_from_bits_zero(s: Seq<bool>)
    requires
        forall|k: int| 0 <= k < s.len() ==> s[k] == false,
    ensures
        from_bits(s) == 0,
    decreases s.len(),
{
    if s.len() > 0 {
        lemma_from_bits_zero(s.drop_first());
    }
}

proof fn lemma_from_bits_top(m: nat)
    ensures
        from_bits(Seq::new(m, |k: int| false).push(true)) == pow2(m),
    decreases m,
{
    lemma2_to64();
    let s = Seq::new(m, |k: int| false).push(true);
    if m > 0 {
        lemma_from_bits_top((m - 1) as nat);
        assert(s.drop_first() =~= Seq::new((m - 1) as nat, |k: int| false).push(true));
        assert(s[0] == false);
        lemma_pow2_unfold(m);
    } else {
        assert(s.drop_first() =~= Seq::<bool>::empty());
        assert(s[0] == true);
        assert(from_bits(Seq::<bool>::empty()) == 0);
        assert(pow2(0) == 1);
    }
}

/// Reordering a sequence of length `2^b` by bit-reversed index twice restores it.
pub proof fn lemma_bit_reversed_twice<T>(s: Seq<T>, b: nat)
    requires
        s.len() == pow2(b),
    ensures
        bit_reversed(bit_reversed(s, b), b) == s,
{
    let once = bit_reversed(s, b);
    assert forall|i: int| 0 <= i < s.len() implies #[trigger] bit_reversed(once, b)[i] == s[i] by {
        lemma_reverse_index_bound(i as nat, b);
        lemma_reverse_index_involution(i as nat, b);
    }
    assert(bit_reversed(once, b) =~= s);
}

/// Reverses the low `b` bits of `i`.
pub fn reverse_bits_index(i: usize, b: u32) -> (r: usize)
    requires
        pow2(b as nat) <= usize::MAX,
    ensures
        r == reverse_index(i as nat, b as nat),
        r < pow2(b as nat),
        forall|k: nat| k < b ==> (#[trigger] (r as nat / pow2(k))) % 2 == (i as nat / pow2((b - 1 - k) as nat)) % 2,
{
    proof {
        lemma_reverse_index_bound(i as nat, b as nat);
        assert forall|k: nat| k < b implies (#[trigger] (reverse_index(i as nat, b as nat) / pow2(k))) % 2
            == (i as nat / pow2((b - 1 - k) as nat)) % 2 by {
            lemma_reverse_index_bits(i as nat, b as nat, k);
        }
    }
    let mut j: usize = 0;
    let mut x: usize = i;
    let mut t: u32 = 0;
    proof {
        lemma2_to64();
        assert(bits_of(i as nat, 0).reverse() =~= Seq::<bool>::empty());
    }
    while t < b
        invariant
            t <= b,
            pow2(b as nat) <= usize::MAX,
            j == from_bits(bits_of(i as nat, t as nat).reverse()),
            j < pow2(t as nat),
            x == i as nat / pow2(t as nat),
        decreases b - t,
    {
        proof {
            let bit = (i as nat / pow2(t as nat)) % 2 == 1;
            lemma_bits_of_push(i as nat, t as nat);
            lemma_bits_of_len(i as nat, t as nat);
            let old_rev = bits_of(i as nat, t as nat).reverse();
            let new_rev = bits_of(i as nat, (t + 1) as nat).reverse();
            assert(new_rev =~= seq![bit].add(old_rev));
            assert(new_rev.drop_first() =~= old_rev);
            lemma_pow2_unfold((t + 1) as nat);
            lemma_pow2_pos(t as nat);
            if t + 1 < b {
                vstd::arithmetic::power2::lemma_pow2_strictly_increases((t + 1) as nat, b as nat);
            }
            lemma_div_denominator(i as int, pow2(t as nat) as int, 2);
            assert(pow2(t as nat) * 2 == pow2((t + 1) as nat));
        }
        j = 2 * j + x % 2;
        x = x / 2;
        t = t + 1;
    }
    j
}

/// Reorders `buf` by bit-reversing each index. In place, no allocation.
///
/// With `buf.len() == 2^log_n`, position `i` ends up holding the element that
/// was at `reverse_index(i, log_n)`.
pub fn bit_reverse_permutation<T: Copy>(buf: &mut [T], log_n: u32)
    requires
        old(buf)@.len() == pow2(log_n as nat),
    ensures
        final(buf)@ == bit_reversed(old(buf)@, log_n as nat),
{
    if log_n == 0 {
        proof {
            lemma2_to64();
            assert forall|i: int| 0 <= i < old(buf)@.len() implies #[trigger] reverse_index(i as nat, 0) == i by {
                assert(bits_of(i as nat, 0).reverse() =~= Seq::<bool>::empty());
            }
            assert(buf@ =~= bit_reversed(old(buf)@, 0));
        }
        return;
    }
    let n = buf.len();
    let ghost orig = buf@;
    let ghost b = log_n as nat;
    proof {
        assert forall|k: nat| k < n implies #[trigger] reverse_index(k, b) < n
            && reverse_index(reverse_index(k, b), b) == k by {
            lemma_reverse_index_bound(k, b);
            lemma_reverse_index_involution(k, b);
        }
    }
    let mut i: usize = 0;
    while i < n
        invariant
            0 <= i <= n,
            n == buf@.len(),
            n == orig.len(),
            n == pow2(b),
            b == log_n,
            pow2(log_n as nat) <= usize::MAX,
            forall|k: nat| k < n ==> #[trigger] reverse_index(k, b) < n
                && reverse_index(reverse_index(k, b), b) == k,
            forall|k: int| 0 <= k < n ==> #[trigger] buf@[k] == (if k < i || reverse_index(k as nat, b) < i {
                orig[reverse_index(k as nat, b) as int]
            } else {
                orig[k]
            }),
        decreases n - i,
    {
        let j = reverse_bits_index(i, log_n);
        assert(reverse_index(i as nat, b) < n);
        if j > i {
            let a = buf[i];
            let c = buf[j];
            buf[i] = c;
            buf[j] = a;
        }
        i = i + 1;
    }
    proof {
        assert(buf@ =~= bit_reversed(orig, b));
    }
}

} // verus!
