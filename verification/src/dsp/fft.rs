use vstd::prelude::*;
use vstd::arithmetic::power2::{pow2, lemma_pow2_unfold, lemma_pow2_pos};
use crate::dsp::ring::is_power_of_two;

verus! {

/// The low `b` bits of `x` written in the opposite order.
pub open spec fn reversed(x: nat, b: nat) -> nat
    decreases b,
{
    if b == 0 {
        0
    } else {
        (x % 2) * pow2((b - 1) as nat) + reversed(x / 2, (b - 1) as nat)
    }
}

/// The exponent of a power of two.
pub open spec fn log2_of(n: nat) -> nat {
    choose|k: nat| pow2(k) == n
}

proof fn lemma_reversed_bound(x: nat, b: nat)
    ensures
        reversed(x, b) < pow2(b),
    decreases b,
{
    lemma_pow2_pos(b);
    if b > 0 {
        lemma_reversed_bound(x / 2, (b - 1) as nat);
        lemma_pow2_unfold(b);
        assert((x % 2) * pow2((b - 1) as nat) <= pow2((b - 1) as nat)) by (nonlinear_arith)
            requires
                x % 2 <= 1,
        ;
    }
}

/// The highest of the `b + 1` bits becomes the lowest bit of the reversal.
proof fn lemma_reversed_top(x: nat, b: nat)
    ensures
        reversed(x, b + 1) == 2 * reversed(x % pow2(b), b) + (x / pow2(b)) % 2,
    decreases b,
{
    lemma_pow2_pos(b);
    if b == 0 {
        vstd::arithmetic::power2::lemma2_to64();
        assert(reversed(x, 1) == (x % 2) * pow2(0) + reversed(x / 2, 0));
        assert(x % pow2(0) == 0);
        assert(x / pow2(0) == x);
        assert(reversed(x % pow2(0), 0) == 0);
    } else {
        let bm = (b - 1) as nat;
        lemma_pow2_unfold(b);
        lemma_pow2_pos(bm);
        lemma_reversed_top(x / 2, bm);
        // reversed(x, b+1) = (x%2) * pow2(b) + reversed(x/2, b)
        //                  = (x%2) * pow2(b) + 2 * reversed((x/2) % pow2(bm), bm) + ((x/2)/pow2(bm)) % 2
        assert((x / 2) / pow2(bm) == x / pow2(b)) by {
            vstd::arithmetic::div_mod::lemma_div_denominator(x as int, 2, pow2(bm) as int);
        }
        // reversed(x % pow2(b), b) = ((x % pow2(b)) % 2) * pow2(bm) + reversed((x % pow2(b)) / 2, bm)
        assert((x % pow2(b)) % 2 == x % 2) by {
            vstd::arithmetic::div_mod::lemma_mod_mod(x as int, 2, pow2(bm) as int);
        }
        assert((x % pow2(b)) / 2 == (x / 2) % pow2(bm)) by {
            lemma_mod_div_halves(x, bm);
        }
        assert(2 * ((x % 2) * pow2(bm)) == (x % 2) * pow2(b)) by (nonlinear_arith)
            requires
                pow2(b) == 2 * pow2(bm),
        ;
        assert(reversed(x, b + 1) == (x % 2) * pow2(b) + reversed(x / 2, b));
        assert(reversed(x / 2, b) == 2 * reversed((x / 2) % pow2(bm), bm) + ((x / 2) / pow2(bm))
            % 2);
        assert(reversed(x % pow2(b), b) == ((x % pow2(b)) % 2) * pow2(bm) + reversed(
            (x % pow2(b)) / 2,
            bm,
        ));
    }
}

/// Halving commutes with taking the residue modulo an even power of two.
proof fn lemma_mod_div_halves(x: nat, bm: nat)
    ensures
        (x % pow2(bm + 1)) / 2 == (x / 2) % pow2(bm),
{
    let p = pow2(bm) as int;
    lemma_pow2_pos(bm);
    lemma_pow2_unfold(bm + 1);
    let q = (x / 2) as int;
    let r = (x % 2) as int;
    assert(x == 2 * q + r);
    let a = q / p;
    let s = q % p;
    assert(q == p * a + s) by {
        vstd::arithmetic::div_mod::lemma_fundamental_div_mod(q as int, p);
    }
    assert(x == (2 * p) * a + (2 * s + r)) by (nonlinear_arith)
        requires
            x == 2 * q + r,
            q == p * a + s,
    ;
    assert(0 <= 2 * s + r < 2 * p);
    vstd::arithmetic::div_mod::lemma_fundamental_div_mod_converse_mod(
        x as int,
        2 * p,
        a as int,
        2 * s + r,
    );
    assert(x % pow2(bm + 1) == 2 * s + r);
}

/// Reversing the low `b` bits twice gives back those bits.
pub proof fn law_reversal_is_involution(x: nat, b: nat)
    requires
        x < pow2(b),
    ensures
        reversed(x, b) < pow2(b),
        reversed(reversed(x, b), b) == x,
    decreases b,
{
    lemma_reversed_bound(x, b);
    if b == 0 {
        vstd::arithmetic::power2::lemma2_to64();
    } else {
        let bm = (b - 1) as nat;
        lemma_pow2_unfold(b);
        lemma_pow2_pos(bm);
        let low = reversed(x / 2, bm);
        let y = reversed(x, b);
        assert(x / 2 < pow2(bm));
        law_reversal_is_involution(x / 2, bm);
        lemma_reversed_bound(x / 2, bm);
        assert(y == (x % 2) * pow2(bm) + low);
        lemma_reversed_top(y, bm);
        assert(y % pow2(bm) == low && y / pow2(bm) == x % 2) by {
            vstd::arithmetic::div_mod::lemma_fundamental_div_mod_converse(
                y as int,
                pow2(bm) as int,
                (x % 2) as int,
                low as int,
            );
        }
    }
}

proof fn lemma_reversed_zero(b: nat)
    ensures
        reversed(0, b) == 0,
    decreases b,
{
    if b > 0 {
        lemma_reversed_zero((b - 1) as nat);
        assert(reversed(0, b) == (0nat % 2) * pow2((b - 1) as nat) + reversed(0nat / 2, (b - 1) as nat));
        assert((0nat % 2) * pow2((b - 1) as nat) == 0);
    }
}

/// A single set bit moves to the mirrored place: among `b` bits, bit `j`
/// becomes bit `b - 1 - j`.
pub proof fn law_reversal_mirrors_a_bit(j: nat, b: nat)
    requires
        j < b,
    ensures
        reversed(pow2(j), b) == pow2((b - 1 - j) as nat),
    decreases b,
{
    let bm = (b - 1) as nat;
    if j == 0 {
        vstd::arithmetic::power2::lemma2_to64();
        lemma_reversed_zero(bm);
        assert(reversed(1, b) == (1nat % 2) * pow2(bm) + reversed(1nat / 2, bm));
    } else {
        let jm = (j - 1) as nat;
        lemma_pow2_unfold(j);
        lemma_pow2_pos(jm);
        assert(pow2(j) % 2 == 0 && pow2(j) / 2 == pow2(jm));
        law_reversal_mirrors_a_bit(jm, bm);
        assert(reversed(pow2(j), b) == (pow2(j) % 2) * pow2(bm) + reversed(pow2(j) / 2, bm));
        assert((bm - 1 - jm) as nat == (b - 1 - j) as nat);
    }
}

/// `table` maps every index below its length, a power of two, to the index
/// with the reversed bits.
pub open spec fn is_reversal_table(table: Seq<usize>) -> bool {
    &&& is_power_of_two(table.len() as int)
    &&& forall|i: int|
        0 <= i < table.len() ==> #[trigger] table[i] as nat == reversed(
            i as nat,
            log2_of(table.len()),
        )
}

proof fn lemma_log2_of(n: nat)
    requires
        is_power_of_two(n as int),
        n <= usize::MAX,
    ensures
        pow2(log2_of(n)) == n,
        log2_of(n) < usize::BITS,
{
    let k = log2_of(n);
    vstd::layout::unsigned_int_max_values();
    if k >= usize::BITS {
        if k > usize::BITS {
            vstd::arithmetic::power2::lemma_pow2_strictly_increases(usize::BITS as nat, k);
        }
    }
}

/// For a transform of `n` points, `n` a power of two of at least two, the
/// table that sends each index to the index with its `log2(n)` bits
/// reversed.
pub fn bit_reverse_table(n: usize) -> (table: Vec<usize>)
    requires
        is_power_of_two(n as int),
        n >= 2,
    ensures
        table@.len() == n,
        is_reversal_table(table@),
{
    let ghost k = log2_of(n as nat);
    proof {
        lemma_log2_of(n as nat);
    }
    let mut log_n: usize = 0;
    let mut m: usize = n;
    let ghost mut rest: nat = k;
    while m > 1
        invariant
            m >= 1,
            m as int == pow2(rest),
            rest + log_n == k,
            pow2(k) == n,
            k < usize::BITS,
        decreases m,
    {
        proof {
            if rest == 0 {
                vstd::arithmetic::power2::lemma2_to64();
            }
            lemma_pow2_unfold(rest);
        }
        m = m / 2;
        log_n = log_n + 1;
        proof {
            rest = (rest - 1) as nat;
        }
    }
    proof {
        if rest > 0 {
            lemma_pow2_unfold(rest);
            lemma_pow2_pos((rest - 1) as nat);
        }
        assert(log_n == k);
    }
    let mut table: Vec<usize> = Vec::new();
    let mut i: usize = 0;
    while i < n
        invariant
            log_n == k,
            pow2(k) == n,
            k < usize::BITS,
            i <= n,
            table@.len() == i,
            forall|j: int| 0 <= j < i ==> #[trigger] table@[j] as nat == reversed(j as nat, k),
        decreases n - i,
    {
        let mut r: usize = 0;
        let mut x: usize = i;
        let mut t: usize = 0;
        proof {
            vstd::arithmetic::power2::lemma2_to64();
        }
        while t < log_n
            invariant
                log_n == k,
                pow2(k) == n,
                n <= usize::MAX,
                t <= log_n,
                r < pow2(t as nat),
                reversed(i as nat, k) == r * pow2((k - t) as nat) + reversed(
                    x as nat,
                    (k - t) as nat,
                ),
            decreases log_n - t,
        {
            let ghost rem = (k - t - 1) as nat;
            proof {
                lemma_pow2_unfold((t + 1) as nat);
                lemma_pow2_unfold((k - t) as nat);
                assert(((k - t) as nat) - 1 == rem);
                assert(reversed(x as nat, (k - t) as nat) == ((x as nat) % 2) * pow2(rem) + reversed(
                    (x / 2) as nat,
                    rem,
                ));
                assert(r * pow2((k - t) as nat) + ((x as nat) % 2) * pow2(rem) == (2 * r + x % 2)
                    * pow2(rem)) by (nonlinear_arith)
                    requires
                        pow2((k - t) as nat) == 2 * pow2(rem),
                ;
                if t + 1 < k {
                    vstd::arithmetic::power2::lemma_pow2_strictly_increases((t + 1) as nat, k);
                }
            }
            r = r * 2 + x % 2;
            x = x / 2;
            t = t + 1;
        }
        proof {
            vstd::arithmetic::power2::lemma2_to64();
            assert(reversed(x as nat, 0) == 0);
            assert((k - t) as nat == 0);
            assert(pow2((k - t) as nat) == 1);
            assert(reversed(x as nat, (k - t) as nat) == 0);
            assert(r * pow2((k - t) as nat) == r) by (nonlinear_arith)
                requires
                    pow2((k - t) as nat) == 1,
            ;
            assert(reversed(i as nat, k) == r);
        }
        table.push(r);
        i = i + 1;
    }
    table
}

/// Reorders `data` by the reversal table: afterwards position `i` holds
/// what stood at position `table[i]`. Each pair is exchanged once.
pub fn bit_reverse_permute<T: Copy>(data: &mut [T], table: &[usize])
    requires
        is_reversal_table(table@),
        old(data)@.len() == table@.len(),
    ensures
        final(data)@ == permuted(old(data)@, table@),
{
    let n = table.len();
    let ghost b = log2_of(n as nat);
    proof {
        lemma_log2_of(n as nat);
    }
    let mut i: usize = 0;
    while i < n
        invariant
            n == table@.len(),
            is_reversal_table(table@),
            b == log2_of(n as nat),
            pow2(b) == n,
            data@.len() == n,
            i <= n,
            forall|x: int|
                0 <= x < n ==> {
                    let y = table@[x] as int;
                    &&& (x < i || y < i) ==> #[trigger] data@[x] == old(data)@[y]
                    &&& (x >= i && y >= i) ==> data@[x] == old(data)@[x]
                },
        decreases n - i,
    {
        let j = table[i];
        proof {
            law_reversal_is_involution(i as nat, b);
            assert(table@[j as int] as nat == i);
            assert forall|x: int| 0 <= x < n && table@[x] as int == i implies x == j by {
                law_reversal_is_involution(x as nat, b);
            }
        }
        if i < j {
            let a = data[i];
            let c = data[j];
            data[i] = c;
            data[j] = a;
        }
        i = i + 1;
    }
    assert(data@ =~= permuted(old(data)@, table@));
}

/// `data` reordered by `table`: position `i` takes what stood at `table[i]`.
pub open spec fn permuted<T>(data: Seq<T>, table: Seq<usize>) -> Seq<T> {
    Seq::new(data.len(), |i: int| data[table[i] as int])
}

/// Reordering twice by the bit-reversal table puts every element back,
/// so the same table serves the forward and the inverse transform.
pub proof fn law_permute_twice_restores<T>(data: Seq<T>, table: Seq<usize>)
    requires
        is_reversal_table(table),
        data.len() == table.len(),
    ensures
        permuted(permuted(data, table), table) == data,
{
    let n = table.len();
    let b = log2_of(n);
    lemma_log2_of_spec(n);
    assert forall|i: int| 0 <= i < n implies #[trigger] permuted(permuted(data, table), table)[i]
        == data[i] by {
        law_reversal_is_involution(i as nat, b);
        let j = table[i] as int;
        assert(table[j] as nat == reversed(reversed(i as nat, b), b));
    }
    assert(permuted(permuted(data, table), table) =~= data);
}

proof fn lemma_log2_of_spec(n: nat)
    requires
        is_power_of_two(n as int),
    ensures
        pow2(log2_of(n)) == n,
{
}

/// Whether `n` is a size the transform accepts: a power of two of at
/// least two points. Every other size is refused.
pub fn is_fft_size(n: usize) -> (r: bool)
    ensures
        r == (is_power_of_two(n as int) && n >= 2),
{
    if n < 2 {
        return false;
    }
    let mut m: usize = n;
    let ghost mut k: nat = 0;
    proof {
        vstd::arithmetic::power2::lemma2_to64();
    }
    while m > 1 && m % 2 == 0
        invariant
            m >= 1,
            n as int == m * pow2(k),
            is_power_of_two(n as int) == is_power_of_two(m as int),
        decreases m,
    {
        let half = m / 2;
        proof {
            lemma_pow2_unfold(k + 1);
            assert(n as int == half * pow2(k + 1)) by (nonlinear_arith)
                requires
                    n as int == m * pow2(k),
                    m == 2 * half,
                    pow2(k + 1) == 2 * pow2(k),
            ;
            if is_power_of_two(half as int) {
                let j = choose|j: nat| pow2(j) == half;
                lemma_pow2_unfold(j + 1);
                assert(pow2(j + 1) == m);
            }
            if is_power_of_two(m as int) {
                let j = choose|j: nat| pow2(j) == m;
                if j == 0 {
                    vstd::arithmetic::power2::lemma2_to64();
                    assert(false);
                } else {
                    lemma_pow2_unfold(j);
                    assert(pow2((j - 1) as nat) == half);
                }
            }
        }
        m = half;
        proof {
            k = k + 1;
        }
    }
    proof {
        vstd::arithmetic::power2::lemma2_to64();
        if m > 1 && is_power_of_two(m as int) {
            let j = choose|j: nat| pow2(j) == m;
            if j > 0 {
                lemma_pow2_unfold(j);
            }
            assert(false);
        }
        if m == 1 {
            assert(pow2(0) == 1);
        }
    }
    m == 1
}

/// The transform accepts exactly the powers of two of at least two
/// points: 2 and 256 are accepted, 0, 1 and 6 are not.
pub proof fn law_fft_sizes()
    ensures
        is_power_of_two(2) && is_power_of_two(256),
        !is_power_of_two(0),
        !is_power_of_two(6),
{
    vstd::arithmetic::power2::lemma2_to64();
    assert(pow2(1) == 2 && pow2(8) == 256);
    if is_power_of_two(0) {
        let j = choose|j: nat| pow2(j) == 0;
        lemma_pow2_pos(j);
    }
    if is_power_of_two(6) {
        let j = choose|j: nat| pow2(j) == 6;
        if j > 3 {
            vstd::arithmetic::power2::lemma_pow2_strictly_increases(3, j);
        }
    }
}

} // verus!
