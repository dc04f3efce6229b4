//! Bounded MPMC ring queue built on per-slot generation counters.
//!
//! Each ring cell packs a `(index, counter)` pair into one 64-bit word: the
//! counter in the high 32 bits records which lap around the ring the cell is
//! on, and a distinguished index value marks a free cell. A cell is ready
//! for enqueue when its counter equals the lap of the producer position and
//! its index is the free marker; ready for dequeue when the counter matches
//! the consumer lap and the index is real. The generation counters rule out
//! reuse hazards without any external reclamation scheme.
//!
//! Under concurrency the cells would be atomics and positions would be
//! claimed by compare-and-swap; here the cell protocol is stated and
//! verified over plain words, where a position claim always succeeds and
//! the protocol invariant makes the retry branch provably unreachable.
use vstd::arithmetic::div_mod::lemma_fundamental_div_mod;
use vstd::arithmetic::div_mod::lemma_fundamental_div_mod_converse;
use vstd::arithmetic::div_mod::lemma_mod_bound;
use vstd::arithmetic::power2::lemma2_to64;
use vstd::arithmetic::power2::lemma_pow2_pos;
use vstd::arithmetic::power2::lemma_pow2_strictly_increases;
use vstd::arithmetic::power2::pow2;
use vstd::bits::lemma_u64_shl_is_mul;
use vstd::prelude::*;

verus! {

/// The index value that marks a free cell. All bits are set.
pub const EMPTY: u32 = 0xFFFF_FFFF;

/// A ring cell holding a packed `(index, counter)` word, the counter in the
/// high 32 bits.
pub struct Cell(u64);

impl Cell {
    /// The packed word held by the cell.
    pub closed spec fn spec_packed(self) -> u64 {
        self.0
    }

    /// Pack an index and counter into a single word: the counter occupies
    /// the high 32 bits, the index the low 32 bits.
    pub fn pack(index: u32, counter: u32) -> (r: u64)
        ensures
            r == (counter as u64) * 0x1_0000_0000 + (index as u64),
            r as u32 == index,
            (r >> 32u64) as u32 == counter,
    {
        proof {
            assert(((counter as u64) << 32u64 | (index as u64)) == (counter as u64)
                * 0x1_0000_0000 + (index as u64) && (((counter as u64) << 32u64 | (index as u64))
                as u32) == index && ((((counter as u64) << 32u64 | (index as u64)) >> 32u64)
                as u32) == counter) by (bit_vector);
        }
        (counter as u64) << 32 | index as u64
    }

    /// Unpack a packed word into `(index, counter)`.
    pub fn unpack(packed: u64) -> (r: (u32, u32))
        ensures
            r.0 == packed as u32,
            r.1 == (packed >> 32u64) as u32,
            packed == (r.1 as u64) * 0x1_0000_0000 + (r.0 as u64),
    {
        proof {
            assert(packed == (((packed >> 32u64) as u32) as u64) * 0x1_0000_0000 + ((packed
                as u32) as u64)) by (bit_vector);
        }
        (packed as u32, (packed >> 32) as u32)
    }

    /// A fresh cell: free, on lap zero.
    fn new() -> (r: Self)
        ensures
            r.spec_packed() == EMPTY as u64,
    {
        Self(Self::pack(EMPTY, 0))
    }

    /// Read the packed word.
    fn load(&self) -> (r: u64)
        ensures
            r == self.spec_packed(),
    {
        self.0
    }

    /// Write the packed word.
    fn store(&mut self, value: u64)
        ensures
            final(self).spec_packed() == value,
    {
        self.0 = value;
    }
}

/// The position in `[tail, tail + c)` that maps to ring index `i`.
pub open spec fn ring_pos(tail: int, c: int, i: int) -> int {
    let b = (tail / c) * c + i;
    if b >= tail {
        b
    } else {
        b + c
    }
}

/// Two congruent positions in one window of `c` consecutive positions are
/// equal.
proof fn lemma_window_unique(a: int, b: int, lo: int, c: int)
    requires
        c >= 1,
        lo <= a < lo + c,
        lo <= b < lo + c,
        a % c == b % c,
    ensures
        a == b,
{
    lemma_fundamental_div_mod(a, c);
    lemma_fundamental_div_mod(b, c);
    assert(a - b == c * (a / c) - c * (b / c));
    assert(c * (a / c) - c * (b / c) == c * (a / c - b / c)) by (nonlinear_arith);
    assert(-c < a - b < c);
    assert(a / c == b / c) by (nonlinear_arith)
        requires
            a - b == c * (a / c - b / c),
            -c < a - b < c,
            c >= 1,
    ;
}

/// `ring_pos` lands in the window starting at `tail` and is congruent to
/// its ring index.
proof fn lemma_ring_pos_props(tail: int, c: int, i: int)
    requires
        c >= 1,
        0 <= i < c,
        tail >= 0,
    ensures
        tail <= ring_pos(tail, c, i) < tail + c,
        ring_pos(tail, c, i) % c == i,
        ring_pos(tail, c, i) / c == if (tail / c) * c + i >= tail {
            tail / c
        } else {
            tail / c + 1
        },
{
    let q = tail / c;
    let b = q * c + i;
    lemma_fundamental_div_mod(tail, c);
    lemma_mod_bound(tail, c);
    lemma_fundamental_div_mod_converse(b, c, q, i);
    assert(tail == c * q + tail % c);
    assert(c * q == q * c) by (nonlinear_arith);
    if b < tail {
        assert(b + c == (q + 1) * c + i) by (nonlinear_arith)
            requires
                b == q * c + i,
        ;
        lemma_fundamental_div_mod_converse(b + c, c, q + 1, i);
    }
}

/// Masking by one less than a power of two is reduction modulo it.
#[verifier::rlimit(100)]
proof fn lemma_mask_mod(pos: u64, cap: u64, m: u64, k: u64)
    requires
        k <= 31,
        cap == 1u64 << k,
        m == ((1u64 << k) - 1) as u64,
    ensures
        pos & m == pos % cap,
{
    assert((pos & m) < cap && ((pos >> k) as int) * (cap as int) + ((pos & m) as int)
        == pos as int) by (bit_vector)
        requires
            k <= 31u64,
            cap == 1u64 << k,
            m == ((1u64 << k) - 1) as u64,
    ;
    lemma_fundamental_div_mod_converse(
        pos as int,
        cap as int,
        (pos >> k) as int,
        (pos & m) as int,
    );
}

/// A fixed-capacity multi-producer multi-consumer queue: a ring of packed
/// cells, a parallel array of payload slots, and monotone head and tail
/// position counters. The capacity must be a power of two.
pub struct Queue<T> {
    /// Ring of packed synchronization cells.
    cells: Vec<Cell>,
    /// Storage for the payloads; a slot is meaningful only while the ring
    /// cell that guards it holds a real index.
    slots: Vec<Option<T>>,
    /// Next position to enqueue.
    head: u64,
    /// Next position to dequeue.
    tail: u64,
    /// Capacity (a power of two, for cheap modulo by masking).
    capacity: usize,
    /// Bitmask for fast modulo: `capacity - 1`.
    mask: usize,
}

impl<T> Queue<T> {
    /// The queue's capacity.
    pub closed spec fn cap(self) -> int {
        self.capacity as int
    }

    /// Number of values currently held.
    pub open spec fn spec_len(self) -> int {
        self.spec_head() - self.spec_tail()
    }

    /// The producer position counter.
    pub closed spec fn spec_head(self) -> int {
        self.head as int
    }

    /// The consumer position counter.
    pub closed spec fn spec_tail(self) -> int {
        self.tail as int
    }

    /// The held values, oldest first.
    pub closed spec fn contents(self) -> Seq<T> {
        Seq::new(
            (self.head - self.tail) as nat,
            |k: int| self.slots@[(self.tail as int + k) % (self.capacity as int)]->Some_0,
        )
    }

    /// Whether the generation counters are close to their 32-bit limit, at
    /// which point the queue refuses further enqueues rather than let a
    /// counter wrap. Unreachable in practice: it takes nearly 2^32 laps.
    pub open spec fn laps_exhausted(self) -> bool {
        self.spec_head() / self.cap() >= 0xFFFF_FFFE
    }

    /// The protocol state of ring cell `i`: the unique position `p` of the
    /// current window that maps to `i` determines the cell word. Below the
    /// head the cell is occupied (its own index, the lap of `p`, a full
    /// payload slot); otherwise it is free (the free marker and the lap at
    /// which it will next be claimed).
    spec fn cell_ok(self, i: int) -> bool {
        let c = self.capacity as int;
        let p = ring_pos(self.tail as int, c, i);
        if p < self.head as int {
            &&& self.cells@[i].spec_packed() == (p / c) * 0x1_0000_0000 + i
            &&& self.slots@[i] is Some
        } else {
            self.cells@[i].spec_packed() == (p / c) * 0x1_0000_0000 + (EMPTY as u64)
        }
    }

    /// Structural well-formedness of the ring.
    pub closed spec fn wf(self) -> bool {
        let c = self.capacity as int;
        &&& self.capacity >= 1
        &&& (exists|k: nat| k <= 31 && self.capacity as nat == pow2(k))
        &&& self.mask == self.capacity - 1
        &&& self.cells@.len() == c
        &&& self.slots@.len() == c
        &&& self.tail <= self.head
        &&& self.head as int <= self.tail as int + c
        &&& self.head as int <= 0xFFFF_FFFE * c
        &&& forall|i: int| 0 <= i < c ==> #[trigger] self.cell_ok(i)
    }

    /// A new empty queue. The capacity must be a power of two no larger
    /// than `u32::MAX` (so at most 2^31).
    pub fn new(capacity: usize) -> (r: Self)
        requires
            exists|k: nat| k <= 31 && capacity as nat == pow2(k),
        ensures
            r.wf(),
            r.cap() == capacity,
            r.contents() == Seq::<T>::empty(),
            r.spec_len() == 0,
            r.spec_head() == 0,
            r.spec_tail() == 0,
            !r.laps_exhausted(),
    {
        proof {
            let k = choose|k: nat| k <= 31 && capacity as nat == pow2(k);
            lemma_pow2_pos(k);
        }
        let mut cells: Vec<Cell> = Vec::new();
        let mut slots: Vec<Option<T>> = Vec::new();
        let mut i: usize = 0;
        while i < capacity
            invariant
                i <= capacity,
                cells@.len() == i,
                slots@.len() == i,
                forall|j: int| 0 <= j < i ==> (#[trigger] cells@[j]).spec_packed() == EMPTY as u64,
                forall|j: int| 0 <= j < i ==> (#[trigger] slots@[j]) is None,
            decreases capacity - i,
        {
            cells.push(Cell::new());
            slots.push(None);
            i = i + 1;
        }
        let r = Self { cells, slots, head: 0, tail: 0, capacity, mask: capacity - 1 };
        proof {
            let c = capacity as int;
            assert forall|j: int| 0 <= j < c implies #[trigger] r.cell_ok(j) by {
                lemma_ring_pos_props(0, c, j);
                assert(ring_pos(0, c, j) == j);
                assert(j / c == 0) by (nonlinear_arith)
                    requires
                        0 <= j < c,
                ;
            }
            assert(r.contents() =~= Seq::<T>::empty());
        }
        r
    }

    /// Enqueue a value. Returns `Ok(())` on success; returns the value back
    /// as `Err` when the queue is full (or, in theory, when the generation
    /// counters are exhausted after nearly 2^32 laps).
    #[verifier::rlimit(100)]
    pub fn enqueue(&mut self, value: T) -> (r: Result<(), T>)
        requires
            old(self).wf(),
        ensures
            final(self).wf(),
            final(self).cap() == old(self).cap(),
            old(self).spec_len() < old(self).cap() && !old(self).laps_exhausted() ==> r is Ok,
            r is Ok ==> old(self).spec_len() < old(self).cap(),
            r is Ok ==> final(self).contents() == old(self).contents().push(value)
                && final(self).spec_len() == old(self).spec_len() + 1
                && final(self).spec_head() == old(self).spec_head() + 1
                && final(self).spec_tail() == old(self).spec_tail(),
            r matches Err(v) ==> v == value && *final(self) == *old(self) && (old(self).spec_len()
                == old(self).cap() || old(self).laps_exhausted()),
    {
        let ghost c = self.capacity as int;
        let ghost k = choose|k: nat| k <= 31 && self.capacity as nat == pow2(k);
        // Load the producer position; under concurrency this would be a
        // relaxed atomic load followed by a CAS claim.
        let pos = self.head;
        let m64 = (self.capacity as u64) - 1;
        proof {
            lemma2_to64();
            if k < 32 {
                lemma_pow2_strictly_increases(k, 32);
            }
            lemma_u64_shl_is_mul(1u64, k as u64);
            lemma_mask_mod(pos, self.capacity as u64, m64, k as u64);
            lemma_mod_bound(pos as int, c);
        }
        let cell_index = (pos & m64) as usize;
        let ghost i = cell_index as int;
        let packed = self.cells[cell_index].load();
        let (index, counter) = Cell::unpack(packed);
        let lap64 = pos / (self.capacity as u64);
        proof {
            assert(self.cell_ok(i));
            lemma_ring_pos_props(self.tail as int, c, i);
        }
        let ghost p = ring_pos(self.tail as int, c, i);
        if lap64 >= 0xFFFF_FFFE {
            return Err(value);
        }
        let lap = lap64 as u32;
        proof {
            // the window position of this ring index is determined: it is
            // either the head (cell free) or the tail of a full queue
            assert(cell_index as u64 == pos % (self.capacity as u64));
            assert(i == (pos as int) % c);
            vstd::arithmetic::div_mod::lemma_mod_add_multiples_vanish(self.tail as int, c);
            if (self.head as int) < self.tail as int + c {
                lemma_window_unique(p, self.head as int, self.tail as int, c);
            } else {
                assert((self.tail as int + c) % c == (self.tail as int) % c);
                assert(p % c == (self.tail as int) % c);
                lemma_window_unique(p, self.tail as int, self.tail as int, c);
                assert((self.tail as int) / c + 1 == (self.head as int) / c) by (nonlinear_arith)
                    requires
                        self.head as int == self.tail as int + c,
                        c >= 1,
                ;
            }
            assert(counter as int == p / c);
            assert((p / c) < 0xFFFF_FFFF) by (nonlinear_arith)
                requires
                    p < self.tail as int + c,
                    self.tail <= self.head,
                    self.head as int <= 0xFFFF_FFFE * c,
                    c >= 1,
                    p >= 0,
            ;
        }
        if counter == lap && index == EMPTY {
            // We own this cell: claim the position, write the payload, then
            // publish the cell (the publication point: a release store).
            proof {
                assert(p == self.head as int);
                lemma_fundamental_div_mod(pos as int, c);
                assert(pos as int + 1 <= 0xFFFF_FFFE * c) by (nonlinear_arith)
                    requires
                        (pos as int) / c <= 0xFFFF_FFFD,
                        c >= 1,
                        pos as int == c * ((pos as int) / c) + (pos as int) % c,
                        0 <= (pos as int) % c < c,
                ;
            }
            self.head = pos + 1;
            self.slots[cell_index] = Some(value);
            let word = Cell::pack(cell_index as u32, counter);
            self.cells[cell_index].store(word);
            proof {
                let ghost old_q = *old(self);
                assert(cell_index < self.capacity);
                assert((cell_index as u32) as int == i);
                assert forall|j: int| 0 <= j < c implies #[trigger] self.cell_ok(j) by {
                    lemma_ring_pos_props(self.tail as int, c, j);
                    if j == i {
                        assert(self.cells@[j].spec_packed() == (p / c) * 0x1_0000_0000 + j);
                    } else {
                        assert(old_q.cell_ok(j));
                        assert(ring_pos(self.tail as int, c, j) == ring_pos(
                            old_q.tail as int,
                            c,
                            j,
                        ));
                    }
                }
                assert forall|kk: int|
                    0 <= kk < old_q.spec_len() implies self.contents()[kk]
                        == old_q.contents()[kk] by {
                    let idx = (old_q.tail as int + kk) % c;
                    lemma_mod_bound(old_q.tail as int + kk, c);
                    if idx == i {
                        lemma_window_unique(
                            old_q.tail as int + kk,
                            p,
                            old_q.tail as int,
                            c,
                        );
                        assert(false);
                    }
                }
                assert(self.contents()[old_q.spec_len()] == value) by {
                    lemma_window_unique(
                        old_q.tail as int + old_q.spec_len(),
                        p,
                        old_q.tail as int,
                        c,
                    );
                }
                assert(self.contents() =~= old_q.contents().push(value));
            }
            Ok(())
        } else if counter < lap {
            // The cell is still on the previous lap: a consumer has not yet
            // freed it, so the queue is full.
            proof {
                assert(self.spec_len() == c);
            }
            Err(value)
        } else {
            // Unreachable under the ring invariant: a cell is never ahead
            // of the position that maps to it.
            proof {
                assert(false);
            }
            Err(value)
        }
    }

    /// Dequeue the oldest value, or `None` when the queue is empty.
    #[verifier::rlimit(100)]
    pub fn dequeue(&mut self) -> (r: Option<T>)
        requires
            old(self).wf(),
        ensures
            final(self).wf(),
            final(self).cap() == old(self).cap(),
            old(self).spec_len() > 0 ==> r == Some(old(self).contents()[0])
                && final(self).contents() == old(self).contents().skip(1)
                && final(self).spec_len() == old(self).spec_len() - 1
                && final(self).spec_head() == old(self).spec_head()
                && final(self).spec_tail() == old(self).spec_tail() + 1,
            old(self).spec_len() == 0 ==> r is None && *final(self) == *old(self),
    {
        let ghost c = self.capacity as int;
        let ghost k = choose|k: nat| k <= 31 && self.capacity as nat == pow2(k);
        let pos = self.tail;
        let m64 = (self.capacity as u64) - 1;
        proof {
            lemma2_to64();
            if k < 32 {
                lemma_pow2_strictly_increases(k, 32);
            }
            lemma_u64_shl_is_mul(1u64, k as u64);
            lemma_mask_mod(pos, self.capacity as u64, m64, k as u64);
            lemma_mod_bound(pos as int, c);
        }
        let cell_index = (pos & m64) as usize;
        let ghost i = cell_index as int;
        let packed = self.cells[cell_index].load();
        let (index, counter) = Cell::unpack(packed);
        let lap = (pos / (self.capacity as u64)) as u32;
        proof {
            assert(self.cell_ok(i));
            lemma_ring_pos_props(self.tail as int, c, i);
            assert(cell_index as u64 == pos % (self.capacity as u64));
            assert(i == (pos as int) % c);
            // the tail itself lies in the window and maps to this index
            lemma_window_unique(ring_pos(self.tail as int, c, i), self.tail as int,
                self.tail as int, c);
            assert((self.tail as int) / c < 0xFFFF_FFFF) by (nonlinear_arith)
                requires
                    self.tail <= self.head,
                    self.head as int <= 0xFFFF_FFFE * c,
                    c >= 1,
                    self.tail >= 0,
            ;
        }
        if counter == lap && index != EMPTY {
            proof {
                assert(self.tail < self.head);
            }
            // We own this cell: claim the position, take the payload, and
            // free the cell for the next lap (again the publication point).
            self.tail = pos + 1;
            let value_opt = self.slots[cell_index].take();
            let word = Cell::pack(EMPTY, counter + 1);
            self.cells[cell_index].store(word);
            proof {
                let ghost old_q = *old(self);
                assert forall|j: int| 0 <= j < c implies #[trigger] self.cell_ok(j) by {
                    lemma_ring_pos_props(self.tail as int, c, j);
                    lemma_ring_pos_props(old_q.tail as int, c, j);
                    if j == i {
                        assert((old_q.tail as int + c) / c == (old_q.tail as int) / c + 1)
                            by (nonlinear_arith)
                            requires
                                c >= 1,
                                old_q.tail >= 0,
                        ;
                        vstd::arithmetic::div_mod::lemma_mod_add_multiples_vanish(
                            old_q.tail as int,
                            c,
                        );
                        assert((old_q.tail as int + c) % c == (old_q.tail as int) % c);
                        assert(j == (old_q.tail as int) % c);
                        lemma_window_unique(
                            ring_pos(self.tail as int, c, j),
                            old_q.tail as int + c,
                            self.tail as int,
                            c,
                        );
                    } else {
                        assert(old_q.cell_ok(j));
                        lemma_window_unique(
                            ring_pos(self.tail as int, c, j),
                            ring_pos(old_q.tail as int, c, j),
                            self.tail as int,
                            c,
                        );
                    }
                }
                assert forall|kk: int|
                    0 <= kk < self.spec_len() implies self.contents()[kk] == old_q.contents()[kk
                    + 1] by {
                    let idx = (self.tail as int + kk) % c;
                    lemma_mod_bound(self.tail as int + kk, c);
                    lemma_mod_bound(old_q.tail as int + kk + 1, c);
                    if idx == i {
                        lemma_window_unique(
                            old_q.tail as int + kk + 1,
                            old_q.tail as int,
                            old_q.tail as int,
                            c,
                        );
                        assert(false);
                    }
                }
                assert(self.contents() =~= old_q.contents().skip(1));
                assert(old_q.contents()[0] == old_q.slots@[i]->Some_0) by {
                    lemma_window_unique(old_q.tail as int, old_q.tail as int, old_q.tail as int, c);
                }
            }
            value_opt
        } else {
            // Queue is empty: the cell for the tail position is still free.
            proof {
                if self.tail < self.head {
                    assert(self.cell_ok(i));
                    assert(false);
                }
            }
            None
        }
    }
}

} // verus!
