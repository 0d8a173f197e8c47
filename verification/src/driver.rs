//! The Access Driver: translates a memory access of arbitrary byte length
//! into a sequence of per-cache-line Set Store calls and keeps the run-wide
//! hit, miss and eviction counters.
//!
//! The driver walks an access line by line: it decomposes the current
//! address into tag, index and offset fields, calls the Set Store once, and
//! advances to the start of the following line until the remaining length
//! fits in the current line.  The specification function [`access_result`]
//! replays that walk over the store's mathematical state, so `load`'s
//! contract pins down the exact final state and counter movement.

use crate::addr::{
    index_field,
    keep_low,
    lemma_mod_pow2_bound,
    lemma_pow2_64,
    lemma_pow2_div_twice,
    line_of,
    line_remainder,
    low_mask,
    masked_addr,
    shift_down,
    tag_field,
};
use crate::set_store::{store_evicts, store_hits, stored_entries, Cache, Entry};
use vstd::arithmetic::div_mod::{
    lemma_div_is_ordered,
    lemma_fundamental_div_mod,
    lemma_fundamental_div_mod_converse,
};
use vstd::arithmetic::power2::{lemma_pow2_pos, pow2};
use vstd::bits::{lemma_usize_pow2_no_overflow, lemma_usize_shl_is_mul};
use vstd::prelude::*;

verus! {

/// The state and counter movement of one access, replayed line by line over
/// the store's sets: returns the sets afterwards, the call counter
/// afterwards, and the numbers of hits, misses and evictions the access
/// contributes.
pub open spec fn access_result(
    sets: Seq<Seq<Entry>>,
    cap: nat,
    cur: usize,
    offset_len: nat,
    index_len: nat,
    tag_len: nat,
    a: nat,
    len: nat,
) -> (Seq<Seq<Entry>>, usize, nat, nat, nat)
    decreases len,
    via access_result_decreases
{
    let idx: int = index_field(a, offset_len, index_len) as int;
    let tg: u64 = tag_field(a, offset_len, index_len, tag_len) as u64;
    let hits: nat = if store_hits(sets[idx], tg) {
        1
    } else {
        0
    };
    let misses: nat = if store_hits(sets[idx], tg) {
        0
    } else {
        1
    };
    let evictions: nat = if store_evicts(sets[idx], cap, tg) {
        1
    } else {
        0
    };
    let sets1 = sets.update(idx, stored_entries(sets[idx], cap, cur, tg));
    let cur1: usize = (cur + 1) as usize;
    let covered: nat = line_remainder(a, offset_len);
    if len <= covered {
        (sets1, cur1, hits, misses, evictions)
    } else {
        let rest = access_result(
            sets1,
            cap,
            cur1,
            offset_len,
            index_len,
            tag_len,
            a + covered,
            (len - covered) as nat,
        );
        (rest.0, rest.1, hits + rest.2, misses + rest.3, evictions + rest.4)
    }
}

#[via_fn]
proof fn access_result_decreases(
    sets: Seq<Seq<Entry>>,
    cap: nat,
    cur: usize,
    offset_len: nat,
    index_len: nat,
    tag_len: nat,
    a: nat,
    len: nat,
) {
    lemma_mod_pow2_bound(a, offset_len);
}

/// How many cache lines an access of `len` bytes starting at `a` touches.
pub open spec fn lines_touched(a: nat, len: nat, offset_len: nat) -> int {
    line_of((a + len - 1) as nat, offset_len) - line_of(a, offset_len) + 1
}

/// Counter conservation: an access makes one Set Store call per line it
/// touches, every call is a hit or a miss but not both, evictions happen
/// only on misses, and the store's call counter advances by exactly the
/// number of calls.
pub proof fn lemma_access_counts(
    sets: Seq<Seq<Entry>>,
    cap: nat,
    cur: usize,
    offset_len: nat,
    index_len: nat,
    tag_len: nat,
    a: nat,
    len: nat,
)
    requires
        len >= 1,
        sets.len() == pow2(index_len),
    ensures
        ({
            let r = access_result(sets, cap, cur, offset_len, index_len, tag_len, a, len);
            &&& r.2 + r.3 == lines_touched(a, len, offset_len)
            &&& 1 <= r.2 + r.3 <= len
            &&& r.4 <= r.3
            &&& r.0.len() == sets.len()
            &&& (cur + r.2 + r.3 <= usize::MAX ==> r.1 == cur + r.2 + r.3)
        }),
    decreases len,
{
    let p = pow2(offset_len);
    lemma_pow2_pos(offset_len);
    lemma_mod_pow2_bound(a, offset_len);
    lemma_fundamental_div_mod(a as int, p as int);
    let covered = line_remainder(a, offset_len);
    let q = line_of(a, offset_len);
    assert((q + 1) * p == q * p + p) by (nonlinear_arith);
    assert(a + covered == (q + 1) * p);
    lemma_mod_pow2_bound(line_of(a, offset_len), index_len);
    if len <= covered {
        // The whole access lies in the line of `a`.
        lemma_fundamental_div_mod_converse(
            a + len - 1,
            p as int,
            q as int,
            a + len - 1 - q * p,
        );
        assert(lines_touched(a, len, offset_len) == 1);
    } else {
        let r1 = access_result(sets, cap, cur, offset_len, index_len, tag_len, a, len);
        let idx: int = index_field(a, offset_len, index_len) as int;
        let tg: u64 = tag_field(a, offset_len, index_len, tag_len) as u64;
        let sets1 = sets.update(idx, stored_entries(sets[idx], cap, cur, tg));
        let cur1: usize = (cur + 1) as usize;
        lemma_access_counts(
            sets1,
            cap,
            cur1,
            offset_len,
            index_len,
            tag_len,
            a + covered,
            (len - covered) as nat,
        );
        // The next line starts exactly one line above the current one.
        vstd::arithmetic::div_mod::lemma_div_by_multiple((q + 1) as int, p as int);
        assert(line_of(a + covered, offset_len) == q + 1);
        assert((a + covered) + (len - covered) - 1 == a + len - 1);
        // The last byte lies at or above the next line's start.
        lemma_div_is_ordered((a + covered) as int, a + len - 1, p as int);
        let rest = access_result(
            sets1,
            cap,
            cur1,
            offset_len,
            index_len,
            tag_len,
            a + covered,
            (len - covered) as nat,
        );
        assert(r1.0 == rest.0 && r1.1 == rest.1);
        assert(r1.2 + r1.3 == 1 + rest.2 + rest.3);
        assert(lines_touched(a + covered, (len - covered) as nat, offset_len) == lines_touched(
            a,
            len,
            offset_len,
        ) - 1);
        assert(r1.2 + r1.3 == lines_touched(a, len, offset_len));
        assert(1 <= r1.2 + r1.3 <= len);
        assert(r1.4 <= r1.3);
        assert(r1.0.len() == sets.len());
        if cur + r1.2 + r1.3 <= usize::MAX {
            assert(cur1 == cur + 1);
            assert(rest.1 == cur1 + rest.2 + rest.3);
        }
    }
}

/// Multi-line splitting: an access that starts mid-line and ends in the
/// following line makes exactly two Set Store calls, and the second call's
/// address is the start of the line after the first — the first line's
/// `next_block`.
pub proof fn lemma_two_line_access(
    sets: Seq<Seq<Entry>>,
    cap: nat,
    cur: usize,
    offset_len: nat,
    index_len: nat,
    tag_len: nat,
    a: nat,
    len: nat,
)
    requires
        len >= 1,
        sets.len() == pow2(index_len),
        a % pow2(offset_len) != 0,
        line_of((a + len - 1) as nat, offset_len) == line_of(a, offset_len) + 1,
    ensures
        access_result(sets, cap, cur, offset_len, index_len, tag_len, a, len).2 + access_result(
            sets,
            cap,
            cur,
            offset_len,
            index_len,
            tag_len,
            a,
            len,
        ).3 == 2,
        len > line_remainder(a, offset_len),
        a + line_remainder(a, offset_len) == (line_of(a, offset_len) + 1) * pow2(offset_len),
{
    let p = pow2(offset_len);
    let q = line_of(a, offset_len);
    let covered = line_remainder(a, offset_len);
    lemma_pow2_pos(offset_len);
    lemma_mod_pow2_bound(a, offset_len);
    lemma_fundamental_div_mod(a as int, p as int);
    assert((q + 1) * p == q * p + p) by (nonlinear_arith);
    assert(a + covered == (q + 1) * p);
    lemma_access_counts(sets, cap, cur, offset_len, index_len, tag_len, a, len);
    if len <= covered {
        // Then the last byte would still lie in the first line.
        lemma_fundamental_div_mod_converse(a + len - 1, p as int, q as int, a + len - 1 - q * p);
        assert(false);
    }
}

/// The Access Driver: a Set Store, the run statistics, and the configured
/// bit widths of the three address fields.
pub struct CacheManager {
    pub cache: Cache,
    pub hit: usize,
    pub miss: usize,
    pub swap: usize,
    pub tag_len: usize,
    pub index_len: usize,
    pub offset_len: usize,
}

impl CacheManager {
    /// The configured address width: all bits above it are masked off.
    pub open spec fn width(self) -> nat {
        (self.tag_len + self.index_len + self.offset_len) as nat
    }

    /// The driver's invariant: a well-formed store with one set per index
    /// value, a geometry within 64 bits, the call counter equal to the
    /// number of calls counted so far, and no more evictions than misses.
    pub open spec fn wf(self) -> bool {
        &&& self.cache.wf()
        &&& self.width() <= 64
        &&& self.cache.sets().len() == pow2(self.index_len as nat)
        &&& self.cache.current == self.hit + self.miss
        &&& self.swap <= self.miss
    }

    /// Builds a driver for the given geometry: `2^index_len` empty sets of
    /// capacity `set_capacity`, all counters at zero.  The field widths must
    /// fit a 64-bit address, and the set count must be representable.
    pub fn new(tag_len: usize, index_len: usize, offset_len: usize, set_capacity: usize) -> (m:
        CacheManager)
        requires
            tag_len + index_len + offset_len <= 64,
            index_len < usize::BITS,
            set_capacity >= 1,
        ensures
            m.wf(),
            m.tag_len == tag_len,
            m.index_len == index_len,
            m.offset_len == offset_len,
            m.cache.set_capacity == set_capacity,
            m.hit == 0 && m.miss == 0 && m.swap == 0,
            m.cache.current == 0,
            m.cache.sets().len() == pow2(index_len as nat),
            forall|i: int|
                0 <= i < m.cache.sets().len() ==> #[trigger] m.cache.sets()[i]
                    == Seq::<Entry>::empty(),
    {
        proof {
            lemma_usize_pow2_no_overflow(index_len as nat);
            lemma_usize_shl_is_mul(1usize, index_len);
        }
        let set_count: usize = 1usize << index_len;
        let cache = Cache::new(set_count, set_capacity);
        CacheManager { cache, hit: 0, miss: 0, swap: 0, tag_len, index_len, offset_len }
    }

    /// One Set Store call for the line holding the (masked) address `a`:
    /// decomposes `a` into index and tag fields, calls the store, and counts
    /// the outcome.
    fn access_line(&mut self, a: u64)
        requires
            old(self).wf(),
            (a as nat) < pow2(old(self).width()),
            old(self).hit + old(self).miss < usize::MAX,
        ensures
            final(self).wf(),
            final(self).tag_len == old(self).tag_len,
            final(self).index_len == old(self).index_len,
            final(self).offset_len == old(self).offset_len,
            final(self).cache.set_capacity == old(self).cache.set_capacity,
            ({
                let r = access_result(
                    old(self).cache.sets(),
                    old(self).cache.set_capacity as nat,
                    old(self).cache.current,
                    old(self).offset_len as nat,
                    old(self).index_len as nat,
                    old(self).tag_len as nat,
                    a as nat,
                    1,
                );
                &&& final(self).cache.sets() == r.0
                &&& final(self).cache.current == r.1
                &&& final(self).hit == old(self).hit + r.2
                &&& final(self).miss == old(self).miss + r.3
                &&& final(self).swap == old(self).swap + r.4
            }),
    {
        let t = self.offset_len;
        let i = self.index_len;
        let g = self.tag_len;
        let idx64 = keep_low(shift_down(a, t), i);
        let tg = keep_low(shift_down(a, t + i), g);
        proof {
            lemma_pow2_div_twice(a as nat, t as nat, i as nat);
            lemma_mod_pow2_bound(line_of(a as nat, t as nat), i as nat);
            lemma_mod_pow2_bound(line_of(a as nat, (t + i) as nat), g as nat);
            lemma_pow2_64();
            assert(idx64 as nat == index_field(a as nat, t as nat, i as nat));
            assert(tg as nat == tag_field(a as nat, t as nat, i as nat, g as nat));
            assert(tg == tag_field(a as nat, t as nat, i as nat, g as nat) as u64);
            assert((idx64 as nat) < self.cache.sets().len());
            lemma_mod_pow2_bound(a as nat, t as nat);
        }
        let set_count = self.cache.data.len();
        proof {
            assert(self.cache.sets().len() == set_count);
        }
        let idx = idx64 as usize;
        proof {
            assert(idx as nat == idx64 as nat);
        }
        let r = self.cache.test_and_store(idx, tg);
        if r.0 {
            self.hit = self.hit + 1;
        } else {
            self.miss = self.miss + 1;
        }
        if r.1 {
            self.swap = self.swap + 1;
        }
        proof {
            let m = access_result(
                old(self).cache.sets(),
                old(self).cache.set_capacity as nat,
                old(self).cache.current,
                old(self).offset_len as nat,
                old(self).index_len as nat,
                old(self).tag_len as nat,
                a as nat,
                1,
            );
            assert(1 <= line_remainder(a as nat, t as nat));
            assert(idx as int == index_field(a as nat, t as nat, i as nat) as int);
            assert(self.cache.sets() == m.0);
            assert(self.cache.current == m.1);
            assert(self.hit == old(self).hit + m.2);
            assert(self.miss == old(self).miss + m.3);
            assert(self.swap == old(self).swap + m.4);
        }
    }

    /// Simulates one memory access of `length` bytes starting at byte
    /// address `address`: one Set Store call per cache line touched, each
    /// outcome accounted in the hit, miss and eviction counters.
    ///
    /// Bits of `address` above the configured width are masked off, so
    /// distinct addresses may alias to the same simulated line.  The access,
    /// taken from its masked address, must not run past the top of the
    /// masked address space: beyond that boundary the masked line arithmetic
    /// no longer describes the access.
    #[verifier::loop_isolation(false)]
    pub fn load(&mut self, address: u64, length: usize)
        requires
            old(self).wf(),
            length >= 1,
            masked_addr(address, old(self).width()) + length <= pow2(old(self).width()),
            old(self).hit + old(self).miss + length <= usize::MAX,
        ensures
            final(self).wf(),
            final(self).tag_len == old(self).tag_len,
            final(self).index_len == old(self).index_len,
            final(self).offset_len == old(self).offset_len,
            final(self).cache.set_capacity == old(self).cache.set_capacity,
            ({
                let r = access_result(
                    old(self).cache.sets(),
                    old(self).cache.set_capacity as nat,
                    old(self).cache.current,
                    old(self).offset_len as nat,
                    old(self).index_len as nat,
                    old(self).tag_len as nat,
                    masked_addr(address, old(self).width()),
                    length as nat,
                );
                &&& final(self).cache.sets() == r.0
                &&& final(self).cache.current == r.1
                &&& final(self).hit == old(self).hit + r.2
                &&& final(self).miss == old(self).miss + r.3
                &&& final(self).swap == old(self).swap + r.4
            }),
    {
        let t = self.offset_len;
        let w = self.tag_len + self.index_len + self.offset_len;
        let mut a: u64 = keep_low(address, w);
        let mut length = length;
        let ghost target = access_result(
            old(self).cache.sets(),
            old(self).cache.set_capacity as nat,
            old(self).cache.current,
            old(self).offset_len as nat,
            old(self).index_len as nat,
            old(self).tag_len as nat,
            a as nat,
            length as nat,
        );
        proof {
            lemma_pow2_pos(t as nat);
            lemma_pow2_64();
            if (w as nat) < 64 {
                vstd::arithmetic::power2::lemma_pow2_strictly_increases(w as nat, 64);
            }
        }
        while (length - 1) as u64 > low_mask(t) - keep_low(a, t)
            invariant
                self.wf(),
                self.tag_len == old(self).tag_len,
                self.index_len == old(self).index_len,
                self.offset_len == old(self).offset_len,
                self.cache.set_capacity == old(self).cache.set_capacity,
                1 <= length,
                a as nat + length as nat <= pow2(self.width()),
                self.hit + self.miss + length <= usize::MAX,
                ({
                    let rem = access_result(
                        self.cache.sets(),
                        self.cache.set_capacity as nat,
                        self.cache.current,
                        self.offset_len as nat,
                        self.index_len as nat,
                        self.tag_len as nat,
                        a as nat,
                        length as nat,
                    );
                    &&& rem.0 == target.0
                    &&& rem.1 == target.1
                    &&& old(self).hit + target.2 == self.hit + rem.2
                    &&& old(self).miss + target.3 == self.miss + rem.3
                    &&& old(self).swap + target.4 == self.swap + rem.4
                }),
            decreases length,
        {
            let room = low_mask(t) - keep_low(a, t);
            proof {
                lemma_mod_pow2_bound(a as nat, t as nat);
                assert(room as nat + 1 == line_remainder(a as nat, t as nat));
            }
            let ghost pre = *self;
            self.access_line(a);
            let step = (room + 1) as usize;
            length = length - step;
            a = a + room + 1;
            proof {
                let rem_pre = access_result(
                    pre.cache.sets(),
                    pre.cache.set_capacity as nat,
                    pre.cache.current,
                    pre.offset_len as nat,
                    pre.index_len as nat,
                    pre.tag_len as nat,
                    (a - step) as nat,
                    (length + step) as nat,
                );
                let rem_now = access_result(
                    self.cache.sets(),
                    self.cache.set_capacity as nat,
                    self.cache.current,
                    self.offset_len as nat,
                    self.index_len as nat,
                    self.tag_len as nat,
                    a as nat,
                    length as nat,
                );
                assert(rem_pre.0 == rem_now.0 && rem_pre.1 == rem_now.1);
            }
        }
        self.access_line(a);
    }
}

} // verus!
