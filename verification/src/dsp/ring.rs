use vstd::prelude::*;
use vstd::arithmetic::power2::pow2;
use vstd::arithmetic::div_mod::{
    lemma_fundamental_div_mod, lemma_mod_equivalence, lemma_mod_multiples_vanish,
    lemma_small_mod,
};
use vstd::bits::{low_bits_mask, lemma_usize_low_bits_mask_is_mod, lemma_usize_pow2_no_overflow};

verus! {

/// Number of distinct values of a `usize` counter.
pub open spec fn counter_range() -> int {
    usize::MAX as int + 1
}

/// `n` is a power of two.
pub open spec fn is_power_of_two(n: int) -> bool {
    exists|k: nat| pow2(k) == n
}

/// The capacity that a ring asked for `requested` slots gets: the least power
/// of two that is at least `requested` and at least 2.
pub open spec fn rounded_capacity(requested: int, cap: int) -> bool {
    &&& is_power_of_two(cap)
    &&& cap >= requested
    &&& cap >= 2
    &&& (cap > 2 ==> cap / 2 < requested)
}

proof fn lemma_range_multiple_of_pow2(k: nat)
    requires
        k <= usize::BITS,
    ensures
        counter_range() % (pow2(k) as int) == 0,
{
    vstd::layout::unsigned_int_max_values();
    let rest = (usize::BITS - k) as nat;
    vstd::arithmetic::power2::lemma_pow2_adds(rest, k);
    vstd::arithmetic::power2::lemma_pow2_pos(k);
    assert(counter_range() == (pow2(rest) as int) * (pow2(k) as int));
    vstd::arithmetic::div_mod::lemma_mod_multiples_basic(pow2(rest) as int, pow2(k) as int);
}

/// The rounded capacity is unique: a request is rounded to one capacity
/// only.
pub proof fn lemma_rounded_capacity_unique(requested: int, a: int, b: int)
    requires
        rounded_capacity(requested, a),
        rounded_capacity(requested, b),
    ensures
        a == b,
{
    let i = choose|k: nat| pow2(k) == a;
    let j = choose|k: nat| pow2(k) == b;
    if i < j {
        lemma_pow2_double_at_most(i, j);
    } else if j < i {
        lemma_pow2_double_at_most(j, i);
    }
}

proof fn lemma_pow2_double_at_most(i: nat, j: nat)
    requires
        i < j,
    ensures
        2 * pow2(i) <= pow2(j),
{
    vstd::arithmetic::power2::lemma_pow2_unfold(i + 1);
    if i + 1 < j {
        vstd::arithmetic::power2::lemma_pow2_strictly_increases(i + 1, j);
    }
}

/// How many of `offered` samples a ring of `cap` slots holding `len` takes:
/// all of them if they fit, else as many as there are free slots.
pub open spec fn push_taken(cap: int, len: int, offered: int) -> int {
    if offered < cap - len {
        offered
    } else {
        cap - len
    }
}

/// How many samples a ring holding `len` releases when asked for `n`.
pub open spec fn consume_taken(len: int, n: int) -> int {
    if n < len {
        n
    } else {
        len
    }
}

/// Two rings of the same capacity that hold the same number of samples
/// still hold the same number after both take the same offer, and after
/// both release the same count: the left and right channels, written and
/// read alike, never drift apart, and neither overfills.
pub proof fn law_rings_stay_in_step(
    cap_left: int,
    len_left: int,
    cap_right: int,
    len_right: int,
    offered: int,
    released: int,
)
    requires
        cap_left == cap_right,
        len_left == len_right,
        0 <= len_left <= cap_left,
        offered >= 0,
        released >= 0,
    ensures
        len_left + push_taken(cap_left, len_left, offered) == len_right + push_taken(
            cap_right,
            len_right,
            offered,
        ),
        len_left + push_taken(cap_left, len_left, offered) <= cap_left,
        len_left - consume_taken(len_left, released) == len_right - consume_taken(
            len_right,
            released,
        ),
        len_left - consume_taken(len_left, released) >= 0,
{
}

/// First in, first out: once the samples held before a push are released,
/// the oldest samples are the pushed ones, in the order they were written.
pub proof fn law_first_in_first_out<T>(held: Seq<T>, data: Seq<T>, n: int, k: int)
    requires
        0 <= k <= n <= data.len(),
    ensures
        (held + data.take(n)).skip(held.len() as int).take(k) == data.take(k),
{
    assert((held + data.take(n)).skip(held.len() as int).take(k) =~= data.take(k));
}

/// Adding or removing one whole counter range does not move a position
/// modulo a power of two that fits in a counter.
proof fn lemma_mod_shift(x: int, k: nat)
    requires
        k < usize::BITS,
    ensures
        (x + counter_range()) % (pow2(k) as int) == x % (pow2(k) as int),
        (x - counter_range()) % (pow2(k) as int) == x % (pow2(k) as int),
{
    let c = pow2(k) as int;
    vstd::arithmetic::power2::lemma_pow2_pos(k);
    lemma_range_multiple_of_pow2(k);
    lemma_fundamental_div_mod(counter_range(), c);
    let q = counter_range() / c;
    assert(counter_range() == c * q);
    lemma_mod_multiples_vanish(q, x, c);
    lemma_mod_multiples_vanish(-q, x, c);
    assert(c * (-q) == -(c * q)) by (nonlinear_arith);
}

/// The slot that a wrapped counter sum selects through the mask is the true
/// sum modulo the capacity.
proof fn lemma_masked_slot(a: usize, b: usize, k: nat)
    requires
        k < usize::BITS,
    ensures
        (a.wrapping_add(b) & ((pow2(k) - 1) as usize)) as int == (a + b) % (pow2(k) as int),
{
    let w = a.wrapping_add(b);
    lemma_usize_pow2_no_overflow(k);
    lemma_usize_low_bits_mask_is_mod(w, k);
    assert(low_bits_mask(k) == pow2(k) - 1);
    if a + b > usize::MAX {
        assert(w as int == a + b - counter_range());
        lemma_mod_shift(a + b, k);
    } else {
        assert(w as int == a + b);
    }
}

/// Slot of a position in a ring of `c` slots.
pub open spec fn slot_of(x: int, c: int) -> int {
    x % c
}

/// Distinct positions less than one capacity apart fall in distinct slots.
proof fn lemma_distinct_slots(x: int, y: int, c: int)
    requires
        c > 0,
        x < y < x + c,
    ensures
        x % c != y % c,
{
    lemma_mod_equivalence(y, x, c);
    lemma_small_mod((y - x) as nat, c as nat);
}

/// A single-producer single-consumer ring of samples.
///
/// The producer appends with [`SpscRing::push`], the consumer looks at the
/// oldest samples with [`SpscRing::peek`] and releases them with
/// [`SpscRing::consume`]. Positions are free-running counters that wrap
/// around the whole `usize` range; the slot of a position is the position
/// masked by `capacity - 1`, the capacity being a power of two.
pub struct SpscRing<T> {
    slots: Vec<T>,
    mask: usize,
    head: usize,
    tail: usize,
    log_cap: Ghost<nat>,
}

impl<T: Copy> SpscRing<T> {
    /// Number of slots.
    pub closed spec fn cap(&self) -> nat {
        self.mask as nat + 1
    }

    /// Number of samples written and not yet consumed.
    pub closed spec fn len(&self) -> nat {
        self.head.wrapping_sub(self.tail) as nat
    }

    /// The ring is well formed: the capacity is a power of two of at least
    /// two slots, the slot vector has that many entries and no more samples
    /// are held than fit.
    pub closed spec fn wf(&self) -> bool {
        &&& 1 <= self.log_cap@ < usize::BITS
        &&& self.mask as int == pow2(self.log_cap@) - 1
        &&& self.slots@.len() == self.cap()
        &&& self.len() <= self.cap()
    }

    /// The held samples, oldest first.
    pub closed spec fn contents(&self) -> Seq<T> {
        Seq::new(
            self.len(),
            |i: int| self.slots@[slot_of(self.tail + i, self.cap() as int)],
        )
    }

    proof fn lemma_cap_facts(&self)
        requires
            self.wf(),
        ensures
            self.cap() == pow2(self.log_cap@),
            self.cap() >= 2,
            self.cap() <= usize::MAX,
            is_power_of_two(self.cap() as int),
    {
        lemma_usize_pow2_no_overflow(self.log_cap@);
        vstd::arithmetic::power2::lemma_pow2_strictly_increases(0, self.log_cap@);
        vstd::arithmetic::power2::lemma2_to64();
    }
}

impl<T: Copy> SpscRing<T> {
    /// Number of slots of the ring.
    pub fn capacity(&self) -> (r: usize)
        requires
            self.wf(),
        ensures
            r == self.cap(),
    {
        proof {
            self.lemma_cap_facts();
        }
        self.mask + 1
    }

    /// Number of samples that can be read.
    pub fn available(&self) -> (r: usize)
        requires
            self.wf(),
        ensures
            r == self@.len(),
    {
        self.head.wrapping_sub(self.tail)
    }

    /// Appends as many leading samples of `data` as there are free slots and
    /// returns how many it took; the rest is dropped, the call never waits.
    pub fn push(&mut self, data: &[T]) -> (n: usize)
        requires
            old(self).wf(),
        ensures
            final(self).wf(),
            final(self).cap() == old(self).cap(),
            n as int == push_taken(old(self).cap() as int, old(self)@.len() as int, data@.len() as int),
            final(self)@ == old(self)@ + data@.take(n as int),
            // It takes the whole offer, or fills the ring to its capacity.
            n <= data@.len(),
            n == data@.len() || final(self)@.len() == final(self).cap(),
    {
        proof {
            self.lemma_cap_facts();
        }
        let head = self.head;
        let tail = self.tail;
        let free = self.capacity() - head.wrapping_sub(tail);
        let n = if data.len() < free {
            data.len()
        } else {
            free
        };
        let ghost k = self.log_cap@;
        let ghost c = self.cap() as int;
        let ghost len = self@.len() as int;
        let ghost old_slots = self.slots@;
        assert(head as int == tail + len || head as int == tail + len - counter_range());
        let mut i: usize = 0;
        while i < n
            invariant
                self.log_cap@ == k,
                self.mask as int == pow2(k) - 1,
                1 <= k < usize::BITS,
                c == pow2(k),
                self.slots@.len() == c,
                self.head == head,
                self.tail == tail,
                i <= n,
                n <= data@.len(),
                0 <= len,
                len + n <= c,
                head as int == tail + len || head as int == tail + len - counter_range(),
                forall|j: int|
                    0 <= j < len ==> self.slots@[#[trigger] slot_of(tail + j, c)] == old_slots[slot_of(tail + j, c)],
                forall|j: int| 0 <= j < i ==> self.slots@[#[trigger] slot_of(head + j, c)] == data@[j],
            decreases n - i,
        {
            let idx = head.wrapping_add(i) & self.mask;
            proof {
                lemma_masked_slot(head, i, k);
                vstd::arithmetic::power2::lemma_pow2_pos(k);
                lemma_mod_shift(tail + len + i, k);
                assert((head + i) % c == (tail + len + i) % c);
                assert forall|j: int| 0 <= j < len implies #[trigger] slot_of(tail + j, c) != idx as int by {
                    lemma_distinct_slots(tail + j, tail + len + i, c);
                }
                assert forall|j: int| 0 <= j < i implies #[trigger] slot_of(head + j, c) != idx as int by {
                    lemma_distinct_slots(head + j, head + i, c);
                }
            }
            self.slots.set(idx, data[i]);
            i = i + 1;
        }
        self.head = head.wrapping_add(n);
        proof {
            let new_len = self@.len() as int;
            assert(new_len == len + n);
            assert forall|j: int| 0 <= j < new_len implies #[trigger] self@[j] == (old(self)@
                + data@.take(n as int))[j] by {
                assert(self.cap() == c);
                if j < len {
                    assert(self.slots@[slot_of(tail + j, c)] == old_slots[slot_of(tail + j, c)]);
                } else {
                    let d = j - len;
                    lemma_mod_shift(tail + len + d, k);
                    assert(slot_of(head + d, c) == slot_of(tail + j, c));
                    assert(self.slots@[slot_of(head + d, c)] == data@[d]);
                }
            }
            assert(self@ =~= old(self)@ + data@.take(n as int));
        }
        n
    }

    /// Copies the `out.len()` oldest samples into `out` without releasing
    /// them. Fails, leaving `out` untouched, when fewer are held.
    pub fn peek(&self, out: &mut [T]) -> (ok: bool)
        requires
            self.wf(),
        ensures
            ok == (old(out)@.len() <= self@.len()),
            ok ==> final(out)@ == self@.take(old(out)@.len() as int),
            !ok ==> final(out)@ == old(out)@,
    {
        if self.available() < out.len() {
            return false;
        }
        let tail = self.tail;
        let ghost k = self.log_cap@;
        let ghost want = self@.take(old(out)@.len() as int);
        let mut i: usize = 0;
        while i < out.len()
            invariant
                self.wf(),
                self.log_cap@ == k,
                self.tail == tail,
                out@.len() == old(out)@.len(),
                old(out)@.len() <= self@.len(),
                want == self@.take(old(out)@.len() as int),
                i <= out@.len(),
                forall|j: int| 0 <= j < i ==> #[trigger] out@[j] == want[j],
            decreases out@.len() - i,
        {
            proof {
                lemma_masked_slot(tail, i, k);
                self.lemma_cap_facts();
                vstd::arithmetic::power2::lemma_pow2_pos(k);
            }
            let idx = tail.wrapping_add(i) & self.mask;
            out[i] = self.slots[idx];
            i = i + 1;
        }
        assert(out@ =~= want);
        true
    }

    /// Releases the `n` oldest samples, or all of them when fewer are held.
    pub fn consume(&mut self, n: usize)
        requires
            old(self).wf(),
        ensures
            final(self).wf(),
            final(self).cap() == old(self).cap(),
            final(self)@ == old(self)@.skip(consume_taken(old(self)@.len() as int, n as int)),
            // It releases `n` samples, or all when fewer are held.
            n <= old(self)@.len() ==> final(self)@.len() == old(self)@.len() - n,
            n > old(self)@.len() ==> final(self)@.len() == 0,
    {
        let tail = self.tail;
        let avail = self.available();
        let n = if n < avail {
            n
        } else {
            avail
        };
        self.tail = tail.wrapping_add(n);
        proof {
            let k = self.log_cap@;
            let c = self.cap() as int;
            assert(self@.len() == avail - n);
            assert forall|j: int| 0 <= j < self@.len() implies #[trigger] self@[j] == old(
                self,
            )@.skip(n as int)[j] by {
                lemma_mod_shift(tail + n + j, k);
            }
            assert(self@ =~= old(self)@.skip(n as int));
        }
    }

    /// Releases every held sample.
    pub fn clear(&mut self)
        requires
            old(self).wf(),
        ensures
            final(self).wf(),
            final(self).cap() == old(self).cap(),
            final(self)@ == Seq::<T>::empty(),
    {
        self.tail = self.head;
        assert(self@ =~= Seq::<T>::empty());
    }
}

impl<T: Copy + Default> SpscRing<T> {
    /// An empty ring of at least `capacity` slots: the least power of two
    /// not below `capacity`, and never fewer than two.
    pub fn new(capacity: usize) -> (r: Self)
        requires
            capacity <= usize::MAX / 2 + 1,
        ensures
            r.wf(),
            rounded_capacity(capacity as int, r.cap() as int),
            r@ == Seq::<T>::empty(),
    {
        let mut cap: usize = 1;
        let ghost mut k: nat = 0;
        proof {
            vstd::arithmetic::power2::lemma2_to64();
        }
        while cap < capacity
            invariant
                cap >= 1,
                cap as int == pow2(k),
                capacity <= usize::MAX / 2 + 1,
                k > 0 ==> cap / 2 < capacity,
            decreases usize::MAX - cap,
        {
            proof {
                vstd::arithmetic::power2::lemma_pow2_unfold(k + 1);
            }
            cap = cap * 2;
            proof {
                k = k + 1;
            }
        }
        if cap < 2 {
            proof {
                vstd::arithmetic::power2::lemma2_to64();
            }
            cap = 2;
            proof {
                k = 1;
            }
        }
        proof {
            vstd::layout::unsigned_int_max_values();
            if k > usize::BITS {
                vstd::arithmetic::power2::lemma_pow2_strictly_increases(usize::BITS as nat, k);
            }
            if k == 0 {
                vstd::arithmetic::power2::lemma2_to64();
                assert(false);
            }
            assert(pow2(k) == cap as int);
        }
        let mut slots: Vec<T> = Vec::new();
        while slots.len() < cap
            invariant
                slots@.len() <= cap,
            decreases cap - slots@.len(),
        {
            slots.push(T::default());
        }
        let r = SpscRing { slots, mask: cap - 1, head: 0, tail: 0, log_cap: Ghost(k) };
        assert(r@ =~= Seq::<T>::empty());
        r
    }
}

impl<T: Copy> SpscRing<T> {
    /// A ring never holds more samples than it has slots.
    pub proof fn law_len_within_capacity(&self)
        requires
            self.wf(),
        ensures
            self@.len() <= self.cap(),
            self.cap() >= 2,
            is_power_of_two(self.cap() as int),
    {
        self.lemma_cap_facts();
    }
}

impl<T: Copy> View for SpscRing<T> {
    type V = Seq<T>;

    closed spec fn view(&self) -> Seq<T> {
        self.contents()
    }
}

} // verus!
