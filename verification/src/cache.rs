//! The cache model: address decomposition, per-set LRU bookkeeping, and the
//! hit/miss/eviction decision procedure, with its running statistics.

use vstd::prelude::*;

verus! {

/// One cache line: the tag of the block that occupies it and the logical
/// time at which it was last touched.
pub struct CacheLine {
    pub tag: u64,
    pub time: u64,
}

/// Running counts of the three access outcomes.
#[derive(Debug, Clone, Copy, PartialEq, Eq, Structural)]
pub struct CacheStat {
    pub hits: u32,
    pub misses: u32,
    pub evictions: u32,
}

/// The outcome of one access.
#[derive(Debug, Clone, Copy, PartialEq, Eq, Structural)]
pub enum CacheResult {
    Hit,
    MissWithoutEviction,
    MissAndEviction,
}

/// The simulated cache: `2^set_bits` sets of at most `set_size` lines each,
/// a logical clock, and the accumulated statistics.
pub struct CacheManager {
    set_bits: u32,
    set_size: usize,
    block_bits: u32,
    time_stamp: u64,
    stat: CacheStat,
    sets: Vec<Vec<CacheLine>>,
}

/// A cache line as the specification sees it.
#[verifier::ext_equal]
pub ghost struct LineV {
    pub tag: u64,
    pub time: nat,
}

/// The abstract state of the cache: geometry, clock, counters, and the
/// contents of every set in insertion order.
#[verifier::ext_equal]
pub ghost struct ModelV {
    pub set_bits: u64,
    pub set_size: nat,
    pub block_bits: u64,
    pub clock: nat,
    pub hits: nat,
    pub misses: nat,
    pub evictions: nat,
    pub sets: Seq<Seq<LineV>>,
}

/// The set index of `addr`: the `set_bits` bits above the block offset.
pub open spec fn spec_set_index(addr: u64, set_bits: u64, block_bits: u64) -> u64 {
    (addr >> block_bits) & (((1u64 << set_bits) - 1) as u64)
}

/// The tag of `addr`: the bits above set index and block offset.
pub open spec fn spec_tag(addr: u64, set_bits: u64, block_bits: u64) -> u64 {
    addr >> ((set_bits + block_bits) as u64)
}

/// The position of the first line of `s` whose tag is `tag`, or `-1` when no
/// line holds it.
pub open spec fn tag_index(s: Seq<LineV>, tag: u64) -> int
    decreases s.len(),
{
    if s.len() == 0 {
        -1
    } else if s[0].tag == tag {
        0
    } else {
        let r = tag_index(s.skip(1), tag);
        if r == -1 {
            -1
        } else {
            r + 1
        }
    }
}

/// The position of the least recently used line of `s`: the first line whose
/// `time` is minimal.
pub open spec fn lru_index(s: Seq<LineV>) -> int
    decreases s.len(),
{
    if s.len() <= 1 {
        0
    } else {
        let r = lru_index(s.drop_last());
        if s.last().time < s[r].time {
            s.len() - 1
        } else {
            r
        }
    }
}

/// Well-formedness of the abstract cache state: the geometry fits 64-bit
/// addresses, there are exactly `2^set_bits` sets, no set exceeds its
/// capacity or holds a tag or a timestamp twice, timestamps never pass the
/// clock, and the counters conserve the number of accesses.
pub open spec fn inv(m: ModelV) -> bool {
    &&& m.set_bits + m.block_bits < 64
    &&& m.sets.len() == 1u64 << m.set_bits
    &&& forall|i: int| 0 <= i < m.sets.len() ==> (#[trigger] m.sets[i]).len() <= m.set_size
    &&& forall|i: int, j: int, k: int|
        #![trigger m.sets[i][j], m.sets[i][k]]
        0 <= i < m.sets.len() && 0 <= j < k < m.sets[i].len() ==> m.sets[i][j].tag
            != m.sets[i][k].tag && m.sets[i][j].time != m.sets[i][k].time
    &&& forall|i: int, j: int|
        0 <= i < m.sets.len() && 0 <= j < m.sets[i].len() ==> 1 <= (#[trigger] m.sets[i][j]).time
            <= m.clock
    &&& m.hits + m.misses == m.clock
    &&& m.evictions <= m.misses
}

/// One access of `addr` on abstract state `m`: the successor state and the
/// outcome. A hit refreshes the line's timestamp; a miss fills a free line
/// when the set has one, and otherwise overwrites the least recently used
/// line.
pub open spec fn step(m: ModelV, addr: u64) -> (ModelV, CacheResult) {
    let si = spec_set_index(addr, m.set_bits, m.block_bits) as int;
    let tag = spec_tag(addr, m.set_bits, m.block_bits);
    let clock = (m.clock + 1) as nat;
    let set = m.sets[si];
    let j = tag_index(set, tag);
    if j >= 0 {
        (
            ModelV {
                clock,
                hits: m.hits + 1,
                sets: m.sets.update(si, set.update(j, LineV { tag, time: clock })),
                ..m
            },
            CacheResult::Hit,
        )
    } else if set.len() < m.set_size {
        (
            ModelV {
                clock,
                misses: m.misses + 1,
                sets: m.sets.update(si, set.push(LineV { tag, time: clock })),
                ..m
            },
            CacheResult::MissWithoutEviction,
        )
    } else {
        let v = lru_index(set);
        (
            ModelV {
                clock,
                misses: m.misses + 1,
                evictions: m.evictions + 1,
                sets: m.sets.update(si, set.update(v, LineV { tag, time: clock })),
                ..m
            },
            CacheResult::MissAndEviction,
        )
    }
}

/// `tag_index` finds exactly the first line that holds `tag`, and `-1` only
/// when no line does.
pub proof fn lemma_tag_index(s: Seq<LineV>, tag: u64)
    ensures
        tag_index(s, tag) == -1 ==> forall|k: int| 0 <= k < s.len() ==> s[k].tag != tag,
        tag_index(s, tag) != -1 ==> 0 <= tag_index(s, tag) < s.len() && s[tag_index(
            s,
            tag,
        )].tag == tag && (forall|k: int| 0 <= k < tag_index(s, tag) ==> s[k].tag != tag),
    decreases s.len(),
{
    if s.len() != 0 && s[0].tag != tag {
        let t = s.skip(1);
        lemma_tag_index(t, tag);
        assert forall|k: int| 0 <= k < t.len() implies #[trigger] t[k] == s[k + 1] by {}
        if tag_index(s, tag) == -1 {
            assert forall|k: int| 0 <= k < s.len() implies s[k].tag != tag by {
                if k > 0 {
                    assert(s[k] == t[k - 1]);
                }
            }
        } else {
            assert forall|k: int| 0 <= k < tag_index(s, tag) implies s[k].tag != tag by {
                if k > 0 {
                    assert(s[k] == t[k - 1]);
                }
            }
        }
    }
}

/// `lru_index` points at a line of minimal timestamp, and every earlier line
/// has a strictly greater one.
pub proof fn lemma_lru_index(s: Seq<LineV>)
    requires
        s.len() >= 1,
    ensures
        0 <= lru_index(s) < s.len(),
        forall|k: int| 0 <= k < s.len() ==> s[lru_index(s)].time <= (#[trigger] s[k]).time,
        forall|k: int| 0 <= k < lru_index(s) ==> (#[trigger] s[k]).time > s[lru_index(s)].time,
    decreases s.len(),
{
    if s.len() > 1 {
        lemma_lru_index(s.drop_last());
        assert(forall|k: int| 0 <= k < s.drop_last().len() ==> s.drop_last()[k] == s[k]);
    }
}

/// A line of `s` holds `tag`.
pub open spec fn has_tag(s: Seq<LineV>, tag: u64) -> bool {
    tag_index(s, tag) >= 0
}

/// The abstract view of one cache line.
pub open spec fn line_view(l: CacheLine) -> LineV {
    LineV { tag: l.tag, time: l.time as nat }
}

/// The abstract view of one set.
pub open spec fn lines_view(s: Seq<CacheLine>) -> Seq<LineV> {
    s.map_values(|l: CacheLine| line_view(l))
}

impl View for CacheManager {
    type V = ModelV;

    closed spec fn view(&self) -> ModelV {
        ModelV {
            set_bits: self.set_bits as u64,
            set_size: self.set_size as nat,
            block_bits: self.block_bits as u64,
            clock: self.time_stamp as nat,
            hits: self.stat.hits as nat,
            misses: self.stat.misses as nat,
            evictions: self.stat.evictions as nat,
            sets: Seq::new(self.sets@.len(), |i: int| lines_view(self.sets@[i]@)),
        }
    }
}

impl CacheManager {
    /// Build a cache of `2^set_bits` empty sets with zeroed clock and
    /// statistics. The geometry must leave room for a tag in a 64-bit
    /// address, and the number of sets must be addressable.
    pub fn init(para: &crate::Cli) -> (r: CacheManager)
        requires
            para.set_bits + para.block_bits < 64,
            (1u64 << (para.set_bits as u64)) <= usize::MAX as u64,
        ensures
            inv(r@),
            r@.set_bits == para.set_bits,
            r@.set_size == para.set_size,
            r@.block_bits == para.block_bits,
            r@.clock == 0,
            r@.hits == 0,
            r@.misses == 0,
            r@.evictions == 0,
            forall|i: int| 0 <= i < r@.sets.len() ==> (#[trigger] r@.sets[i]).len() == 0,
    {
        proof {
            let sb = para.set_bits as u64;
            assert(1u64 << sb >= 1) by (bit_vector)
                requires
                    sb < 64,
            ;
        }
        let num: u64 = 1u64 << para.set_bits;
        let num_sets: usize = num as usize;
        let mut sets: Vec<Vec<CacheLine>> = Vec::new();
        let mut i: usize = 0;
        while i < num_sets
            invariant
                i <= num_sets,
                sets@.len() == i,
                forall|k: int| 0 <= k < i ==> (#[trigger] sets@[k])@.len() == 0,
            decreases num_sets - i,
        {
            sets.push(Vec::new());
            i = i + 1;
        }
        let r = CacheManager {
            set_bits: para.set_bits,
            set_size: para.set_size,
            block_bits: para.block_bits,
            time_stamp: 0,
            stat: CacheStat { hits: 0, misses: 0, evictions: 0 },
            sets,
        };
        proof {
            assert(r@.sets.len() == 1u64 << (r@.set_bits as u64));
        }
        r
    }

    /// One access of `addr`: tick the clock, look the tag up in its set, and
    /// record a hit, a fill, or an LRU eviction, exactly as `step` says.
    #[verifier::loop_isolation(false)]
    pub fn get_mem(&mut self, addr: u64) -> (res: CacheResult)
        requires
            inv(old(self)@),
            old(self)@.set_size >= 1,
            old(self)@.clock < u32::MAX,
        ensures
            final(self)@ == step(old(self)@, addr).0,
            res == step(old(self)@, addr).1,
            inv(final(self)@),
    {
        let ghost m0 = self@;
        let sb: u64 = self.set_bits as u64;
        let bb: u64 = self.block_bits as u64;
        proof {
            assert(1u64 << sb >= 1) by (bit_vector)
                requires
                    sb < 64,
            ;
            assert((addr >> bb) & (((1u64 << sb) - 1) as u64) < (1u64 << sb)) by (bit_vector)
                requires
                    sb < 64,
            ;
        }
        let mask: u64 = (1u64 << sb) - 1;
        let set_num_u: u64 = (addr >> bb) & mask;
        let tag: u64 = addr >> (sb + bb);
        let total_sets: usize = self.sets.len();
        let set_num: usize = set_num_u as usize;
        let ghost si = set_num as int;
        proof {
            assert(set_num_u < total_sets as u64);
            assert(si == set_num_u as int);
            assert(set_num_u == spec_set_index(addr, m0.set_bits, m0.block_bits));
            assert(tag == spec_tag(addr, m0.set_bits, m0.block_bits));
            assert(0 <= si < self.sets@.len());
        }
        let ghost gset = lines_view(self.sets@[si]@);
        proof {
            assert(gset == m0.sets[si]);
        }
        self.time_stamp = self.time_stamp + 1;
        let ts: u64 = self.time_stamp;
        proof {
            lemma_step_preserves_inv(m0, addr);
        }

        let n: usize = self.sets[set_num].len();
        let mut j: usize = 0;
        let mut hit: usize = n;
        while j < n && hit == n
            invariant
                0 <= si < self.sets@.len(),
                si == set_num as int,
                gset == lines_view(self.sets@[si]@),
                n == gset.len(),
                j <= n,
                hit == n || (hit == j && j < n && gset[hit as int].tag == tag),
                forall|k: int| 0 <= k < j ==> (#[trigger] gset[k]).tag != tag,
            decreases n - j + (if hit == n { 1int } else { 0int }),
        {
            if self.sets[set_num][j].tag == tag {
                hit = j;
            } else {
                j = j + 1;
            }
        }

        if hit < n {
            proof {
                lemma_tag_index(gset, tag);
                let ti = tag_index(gset, tag);
                assert(ti != -1);
                if ti < hit {
                    assert(gset[ti].tag != tag);
                }
                assert(ti == hit);
            }
            self.sets[set_num][hit].time = ts;
            self.stat.hits = self.stat.hits + 1;
            proof {
                assert(lines_view(self.sets@[si]@) =~= gset.update(
                    hit as int,
                    LineV { tag, time: ts as nat },
                ));
                assert forall|i: int| 0 <= i < self@.sets.len() && i != si implies self@.sets[i]
                    == m0.sets[i] by {}
                assert(self@.sets =~~= step(m0, addr).0.sets);
                assert(self@ =~~= step(m0, addr).0);
            }
            CacheResult::Hit
        } else {
            proof {
                lemma_tag_index(gset, tag);
                assert(tag_index(gset, tag) == -1) by {
                    if tag_index(gset, tag) != -1 {
                        assert(gset[tag_index(gset, tag)].tag == tag);
                    }
                }
            }
            if n < self.set_size {
                self.sets[set_num].push(CacheLine { tag, time: ts });
                self.stat.misses = self.stat.misses + 1;
                proof {
                    assert(lines_view(self.sets@[si]@) =~= gset.push(
                        LineV { tag, time: ts as nat },
                    ));
                    assert forall|i: int| 0 <= i < self@.sets.len() && i != si implies self@.sets[i]
                        == m0.sets[i] by {}
                    assert(self@.sets =~~= step(m0, addr).0.sets);
                    assert(self@ =~~= step(m0, addr).0);
                }
                CacheResult::MissWithoutEviction
            } else {
                let mut best: usize = 0;
                let mut k: usize = 1;
                while k < n
                    invariant
                        0 <= si < self.sets@.len(),
                        si == set_num as int,
                        gset == lines_view(self.sets@[si]@),
                        n == gset.len(),
                        1 <= n,
                        best < k <= n,
                        forall|q: int|
                            0 <= q < k ==> gset[best as int].time <= (#[trigger] gset[q]).time,
                        forall|q: int|
                            0 <= q < best ==> (#[trigger] gset[q]).time > gset[best as int].time,
                    decreases n - k,
                {
                    if self.sets[set_num][k].time < self.sets[set_num][best].time {
                        best = k;
                    }
                    k = k + 1;
                }
                proof {
                    lemma_lru_index(gset);
                    let v = lru_index(gset);
                    if (best as int) < v {
                        assert(gset[best as int].time > gset[v].time);
                    }
                    if v < best as int {
                        assert(gset[v].time > gset[best as int].time);
                    }
                    assert(best as int == v);
                }
                self.sets[set_num][best] = CacheLine { tag, time: ts };
                self.stat.misses = self.stat.misses + 1;
                self.stat.evictions = self.stat.evictions + 1;
                proof {
                    assert(lines_view(self.sets@[si]@) =~= gset.update(
                        best as int,
                        LineV { tag, time: ts as nat },
                    ));
                    assert forall|i: int| 0 <= i < self@.sets.len() && i != si implies self@.sets[i]
                        == m0.sets[i] by {}
                    assert(self@.sets =~~= step(m0, addr).0.sets);
                    assert(self@ =~~= step(m0, addr).0);
                }
                CacheResult::MissAndEviction
            }
        }
    }
}

impl CacheManager {
    /// A load is one access: the model does not distinguish read traffic.
    pub fn load(&mut self, addr: u64) -> (res: CacheResult)
        requires
            inv(old(self)@),
            old(self)@.set_size >= 1,
            old(self)@.clock < u32::MAX,
        ensures
            final(self)@ == step(old(self)@, addr).0,
            res == step(old(self)@, addr).1,
            inv(final(self)@),
    {
        self.get_mem(addr)
    }

    /// A store is one access: the model does not distinguish write traffic.
    pub fn store(&mut self, addr: u64) -> (res: CacheResult)
        requires
            inv(old(self)@),
            old(self)@.set_size >= 1,
            old(self)@.clock < u32::MAX,
        ensures
            final(self)@ == step(old(self)@, addr).0,
            res == step(old(self)@, addr).1,
            inv(final(self)@),
    {
        self.get_mem(addr)
    }

    /// A read-only snapshot of the running counters.
    pub fn get_stat(&self) -> (res: &CacheStat)
        ensures
            res.hits == self@.hits,
            res.misses == self@.misses,
            res.evictions == self@.evictions,
    {
        &self.stat
    }
}

/// The set index of any address is always a valid index into the sets.
pub proof fn lemma_set_index_bound(addr: u64, set_bits: u64, block_bits: u64)
    requires
        set_bits < 64,
    ensures
        spec_set_index(addr, set_bits, block_bits) < (1u64 << set_bits),
{
    let sb = set_bits;
    let bb = block_bits;
    assert((addr >> bb) & (((1u64 << sb) - 1) as u64) < (1u64 << sb)) by (bit_vector)
        requires
            sb < 64,
    ;
}

/// Splitting an address into tag, set index and block offset is lossless:
/// putting the three bit fields back where they came from yields the address
/// again, and the decomposition depends only on `set_bits` and `block_bits`.
pub proof fn lemma_address_decompose(addr: u64, set_bits: u64, block_bits: u64)
    requires
        set_bits + block_bits < 64,
    ensures
        spec_set_index(addr, set_bits, block_bits) < (1u64 << set_bits),
        addr & (((1u64 << block_bits) - 1) as u64) < (1u64 << block_bits),
        addr == (spec_tag(addr, set_bits, block_bits) << ((set_bits + block_bits) as u64)) | (
        spec_set_index(addr, set_bits, block_bits) << block_bits) | (addr & (((1u64
            << block_bits) - 1) as u64)),
{
    let sb = set_bits;
    let bb = block_bits;
    lemma_set_index_bound(addr, sb, bb);
    assert(addr & (((1u64 << bb) - 1) as u64) < (1u64 << bb)) by (bit_vector)
        requires
            bb < 64,
    ;
    assert(addr == ((addr >> ((sb + bb) as u64)) << ((sb + bb) as u64)) | (((addr >> bb) & (((1u64
        << sb) - 1) as u64)) << bb) | (addr & (((1u64 << bb) - 1) as u64))) by (bit_vector)
        requires
            sb + bb < 64,
    ;
}

/// An access never breaks the invariant: in particular no set ever grows
/// past `set_size`, and the counters keep conserving the number of accesses.
pub proof fn lemma_step_preserves_inv(m: ModelV, addr: u64)
    requires
        inv(m),
        m.set_size >= 1,
    ensures
        inv(step(m, addr).0),
{
    let si = spec_set_index(addr, m.set_bits, m.block_bits) as int;
    let sb = m.set_bits;
    let bb = m.block_bits;
    assert((addr >> bb) & (((1u64 << sb) - 1) as u64) < (1u64 << sb)) by (bit_vector)
        requires
            sb < 64,
    ;
    assert(0 <= si < m.sets.len());
    let tag = spec_tag(addr, m.set_bits, m.block_bits);
    let set = m.sets[si];
    let clock = (m.clock + 1) as nat;
    let j = tag_index(set, tag);
    lemma_tag_index(set, tag);
    let m1 = step(m, addr).0;
    if j >= 0 {
        let nset = set.update(j, LineV { tag, time: clock });
        assert(nset[j].tag == set[j].tag);
        assert(forall|a: int, b: int|
            0 <= a < b < nset.len() ==> nset[a].tag != nset[b].tag && nset[a].time
                != nset[b].time);
    } else if set.len() < m.set_size {
        let nset = set.push(LineV { tag, time: clock });
        assert(forall|a: int, b: int|
            0 <= a < b < nset.len() ==> nset[a].tag != nset[b].tag && nset[a].time
                != nset[b].time);
    } else {
        lemma_lru_index(set);
        let v = lru_index(set);
        let nset = set.update(v, LineV { tag, time: clock });
        assert(forall|a: int, b: int|
            0 <= a < b < nset.len() ==> nset[a].tag != nset[b].tag && nset[a].time
                != nset[b].time);
    }
    assert(forall|i: int| 0 <= i < m1.sets.len() ==> (#[trigger] m1.sets[i]).len()
        <= m1.set_size);
}

/// The outcome of an access is exactly determined by the state: a hit when
/// the tag is resident in its set, a plain miss when it is not and the set
/// has a free line, and an eviction when it is not and the set is full.
pub proof fn lemma_outcome(m: ModelV, addr: u64)
    ensures
        step(m, addr).1 == CacheResult::Hit <==> has_tag(
            m.sets[spec_set_index(addr, m.set_bits, m.block_bits) as int],
            spec_tag(addr, m.set_bits, m.block_bits),
        ),
        step(m, addr).1 == CacheResult::MissWithoutEviction <==> !has_tag(
            m.sets[spec_set_index(addr, m.set_bits, m.block_bits) as int],
            spec_tag(addr, m.set_bits, m.block_bits),
        ) && m.sets[spec_set_index(addr, m.set_bits, m.block_bits) as int].len() < m.set_size,
        step(m, addr).1 == CacheResult::MissAndEviction <==> !has_tag(
            m.sets[spec_set_index(addr, m.set_bits, m.block_bits) as int],
            spec_tag(addr, m.set_bits, m.block_bits),
        ) && m.sets[spec_set_index(addr, m.set_bits, m.block_bits) as int].len() >= m.set_size,
{
}

/// Conservation: each access moves the clock and `hits + misses` up by
/// exactly one, so `hits + misses` always equals the number of accesses
/// made, and evictions never outgrow misses.
pub proof fn lemma_conservation(m: ModelV, addr: u64)
    requires
        inv(m),
        m.set_size >= 1,
    ensures
        step(m, addr).0.clock == m.clock + 1,
        step(m, addr).0.hits + step(m, addr).0.misses == m.hits + m.misses + 1,
        step(m, addr).0.hits + step(m, addr).0.misses == step(m, addr).0.clock,
        step(m, addr).0.evictions <= step(m, addr).0.misses,
{
    lemma_step_preserves_inv(m, addr);
}

/// Capacity: an access never grows any set past `set_size`.
pub proof fn lemma_capacity(m: ModelV, addr: u64)
    requires
        inv(m),
        m.set_size >= 1,
    ensures
        forall|i: int|
            0 <= i < step(m, addr).0.sets.len() ==> (#[trigger] step(m, addr).0.sets[i]).len()
                <= m.set_size,
{
    lemma_step_preserves_inv(m, addr);
}

/// Repeating an access of the same address immediately after any access of
/// it — in particular immediately after a hit — always hits again, and moves
/// neither the miss nor the eviction counter: the first access left the tag
/// resident in its set.
pub proof fn lemma_repeat_access_hits(m: ModelV, addr: u64)
    requires
        inv(m),
        m.set_size >= 1,
    ensures
        step(step(m, addr).0, addr).1 == CacheResult::Hit,
        step(step(m, addr).0, addr).0.hits == step(m, addr).0.hits + 1,
        step(step(m, addr).0, addr).0.misses == step(m, addr).0.misses,
        step(step(m, addr).0, addr).0.evictions == step(m, addr).0.evictions,
{
    let si = spec_set_index(addr, m.set_bits, m.block_bits) as int;
    let tag = spec_tag(addr, m.set_bits, m.block_bits);
    lemma_set_index_bound(addr, m.set_bits, m.block_bits);
    let set = m.sets[si];
    let j = tag_index(set, tag);
    lemma_tag_index(set, tag);
    let m1 = step(m, addr).0;
    let set1 = m1.sets[si];
    if j >= 0 {
        assert(set1[j].tag == tag);
        assert(set1.len() == set.len());
    } else if set.len() < m.set_size {
        assert(set1[set.len() as int].tag == tag);
    } else {
        lemma_lru_index(set);
        assert(set1[lru_index(set)].tag == tag);
    }
    lemma_tag_index(set1, tag);
    assert(tag_index(set1, tag) >= 0) by {
        if tag_index(set1, tag) == -1 {
            assert(exists|k: int| 0 <= k < set1.len() && set1[k].tag == tag);
        }
    }
}

/// Modify semantics: on a cold address the load phase misses (with or
/// without an eviction), and the store phase that follows immediately always
/// hits — a modify is never two misses.
pub proof fn lemma_modify_cold(m: ModelV, addr: u64)
    requires
        inv(m),
        m.set_size >= 1,
        !has_tag(
            m.sets[spec_set_index(addr, m.set_bits, m.block_bits) as int],
            spec_tag(addr, m.set_bits, m.block_bits),
        ),
    ensures
        step(m, addr).1 == CacheResult::MissWithoutEviction || step(m, addr).1
            == CacheResult::MissAndEviction,
        step(step(m, addr).0, addr).1 == CacheResult::Hit,
{
    lemma_repeat_access_hits(m, addr);
}

/// LRU correctness in a two-way set: starting with the target set empty,
/// accessing addresses `a1, a2, a1, a3` — all mapping to that set, with
/// pairwise distinct tags — gives outcomes miss, miss, hit, miss with
/// eviction, and the eviction removes the least recently touched tag, the
/// one of `a2`: the tags of `a1` and `a3` stay resident.
pub proof fn lemma_lru_two_way(m: ModelV, a1: u64, a2: u64, a3: u64)
    requires
        inv(m),
        m.set_size == 2,
        spec_set_index(a2, m.set_bits, m.block_bits) == spec_set_index(a1, m.set_bits, m.block_bits),
        spec_set_index(a3, m.set_bits, m.block_bits) == spec_set_index(a1, m.set_bits, m.block_bits),
        spec_tag(a1, m.set_bits, m.block_bits) != spec_tag(a2, m.set_bits, m.block_bits),
        spec_tag(a1, m.set_bits, m.block_bits) != spec_tag(a3, m.set_bits, m.block_bits),
        spec_tag(a2, m.set_bits, m.block_bits) != spec_tag(a3, m.set_bits, m.block_bits),
        m.sets[spec_set_index(a1, m.set_bits, m.block_bits) as int].len() == 0,
    ensures
        step(m, a1).1 == CacheResult::MissWithoutEviction,
        step(step(m, a1).0, a2).1 == CacheResult::MissWithoutEviction,
        step(step(step(m, a1).0, a2).0, a1).1 == CacheResult::Hit,
        step(step(step(step(m, a1).0, a2).0, a1).0, a3).1 == CacheResult::MissAndEviction,
        has_tag(
            step(step(step(step(m, a1).0, a2).0, a1).0, a3).0.sets[spec_set_index(
                a1,
                m.set_bits,
                m.block_bits,
            ) as int],
            spec_tag(a1, m.set_bits, m.block_bits),
        ),
        has_tag(
            step(step(step(step(m, a1).0, a2).0, a1).0, a3).0.sets[spec_set_index(
                a1,
                m.set_bits,
                m.block_bits,
            ) as int],
            spec_tag(a3, m.set_bits, m.block_bits),
        ),
        !has_tag(
            step(step(step(step(m, a1).0, a2).0, a1).0, a3).0.sets[spec_set_index(
                a1,
                m.set_bits,
                m.block_bits,
            ) as int],
            spec_tag(a2, m.set_bits, m.block_bits),
        ),
{
    let si = spec_set_index(a1, m.set_bits, m.block_bits) as int;
    let t1 = spec_tag(a1, m.set_bits, m.block_bits);
    let t2 = spec_tag(a2, m.set_bits, m.block_bits);
    let t3 = spec_tag(a3, m.set_bits, m.block_bits);
    lemma_set_index_bound(a1, m.set_bits, m.block_bits);
    let c = m.clock;
    let e = m.sets[si];
    assert(e =~= Seq::<LineV>::empty());
    assert(tag_index(e, t1) == -1);

    let m1 = step(m, a1).0;
    let l1 = LineV { tag: t1, time: (c + 1) as nat };
    let s1 = e.push(l1);
    assert(step(m, a1).1 == CacheResult::MissWithoutEviction);
    assert(m1.sets[si] == s1);

    assert(tag_index(s1, t2) == -1) by {
        assert(s1[0] == l1);
        assert(s1.skip(1) =~= Seq::<LineV>::empty());
        assert(tag_index(s1.skip(1), t2) == -1);
    }
    let m2 = step(m1, a2).0;
    let l2 = LineV { tag: t2, time: (c + 2) as nat };
    let s2 = s1.push(l2);
    assert(step(m1, a2).1 == CacheResult::MissWithoutEviction);
    assert(m2.sets[si] == s2);

    assert(s2[0] == l1);
    assert(tag_index(s2, t1) == 0);
    let m3 = step(m2, a1).0;
    let l1b = LineV { tag: t1, time: (c + 3) as nat };
    let s3 = s2.update(0, l1b);
    assert(step(m2, a1).1 == CacheResult::Hit);
    assert(m3.sets[si] == s3);

    assert(s3[0] == l1b && s3[1] == l2);
    assert(tag_index(s3, t3) == -1) by {
        let r = s3.skip(1);
        assert(r.len() == 1 && r[0] == l2);
        assert(r.skip(1) =~= Seq::<LineV>::empty());
        assert(tag_index(r.skip(1), t3) == -1);
        assert(tag_index(r, t3) == -1);
    }
    assert(lru_index(s3) == 1) by {
        assert(s3.drop_last() =~= seq![l1b]);
        assert(lru_index(seq![l1b]) == 0);
        assert(s3.last() == l2);
    }
    let m4 = step(m3, a3).0;
    let l3 = LineV { tag: t3, time: (c + 4) as nat };
    let s4 = s3.update(1, l3);
    assert(step(m3, a3).1 == CacheResult::MissAndEviction);
    assert(m4.sets[si] == s4);

    assert(s4[0] == l1b && s4[1] == l3);
    assert(tag_index(s4, t1) == 0);
    assert(tag_index(s4, t3) == 1) by {
        let r = s4.skip(1);
        assert(r.len() == 1 && r[0] == l3);
        assert(tag_index(r, t3) == 0);
    }
    assert(tag_index(s4, t2) == -1) by {
        let r = s4.skip(1);
        assert(r.len() == 1 && r[0] == l3);
        assert(r.skip(1) =~= Seq::<LineV>::empty());
        assert(tag_index(r.skip(1), t2) == -1);
        assert(tag_index(r, t2) == -1);
    }
}

} // verus!
