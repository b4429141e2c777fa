//! Pointer map of the target's address space: every pointer-sized word in
//! mapped memory whose value again falls inside a mapped range, as a forward
//! map, its inverse, and the sorted key list; and the offset-chain resolver
//! that walks the inverse map from a target back to stable anchors.
use crate::snapshot::Snapshot;
use crate::value_scanner::{sorted_strict, swept};
use vstd::prelude::*;

verus! {

/// `2^(8*n)`: one past the largest value of an `n`-byte word.
pub open spec fn pow2_8(n: nat) -> int
    decreases n,
{
    if n == 0 {
        1
    } else {
        256 * pow2_8((n - 1) as nat)
    }
}

/// The little-endian unsigned interpretation of the `n` bytes visible at
/// `a`, as an unbounded integer.
pub open spec fn word_int(snap: Snapshot, a: int, n: nat) -> int
    decreases n,
{
    if n == 0 {
        0
    } else {
        snap.byte_at(a) + 256 * word_int(snap, a + 1, (n - 1) as nat)
    }
}

/// An `n`-byte word is bounded by `2^(8*n)`.
pub proof fn lemma_word_bound(snap: Snapshot, a: int, n: nat)
    ensures
        0 <= word_int(snap, a, n) < pow2_8(n),
    decreases n,
{
    if n > 0 {
        lemma_word_bound(snap, a + 1, (n - 1) as nat);
    }
}

/// `pow2_8` grows with its argument.
pub proof fn lemma_pow2_8_le(m: nat, n: nat)
    requires
        m <= n,
    ensures
        1 <= pow2_8(m) <= pow2_8(n),
    decreases n,
{
    lemma_pow2_8_pos(m);
    if m < n {
        lemma_pow2_8_le(m, (n - 1) as nat);
    }
}

/// `pow2_8` is positive.
pub proof fn lemma_pow2_8_pos(n: nat)
    ensures
        pow2_8(n) >= 1,
    decreases n,
{
    if n > 0 {
        lemma_pow2_8_pos((n - 1) as nat);
    }
}

/// An eight-byte word spans the full 64-bit range.
pub proof fn lemma_pow2_8_top()
    ensures
        pow2_8(8) == 0x1_0000_0000_0000_0000,
{
    assert(pow2_8(0) == 1);
    assert(pow2_8(1) == 256);
    assert(pow2_8(2) == 0x1_0000);
    assert(pow2_8(3) == 0x100_0000);
    assert(pow2_8(4) == 0x1_0000_0000);
    assert(pow2_8(5) == 0x100_0000_0000);
    assert(pow2_8(6) == 0x1_0000_0000_0000);
    assert(pow2_8(7) == 0x100_0000_0000_0000);
}

/// The pointer-sized word visible at `a`, zero-extended to 64 bits.
pub open spec fn spec_word_at(snap: Snapshot, a: int, n: nat) -> u64
    recommends
        n <= 8,
{
    word_int(snap, a, n) as u64
}

/// Reads the `n`-byte little-endian word at `a`.
fn word_at_exec(snap: &Snapshot, a: u64, n: usize) -> (r: u64)
    requires
        snap.wf(),
        1 <= n <= 8,
    ensures
        r == spec_word_at(*snap, a as int, n as nat),
{
    proof {
        lemma_word_bound(*snap, a as int, n as nat);
        lemma_pow2_8_le(n as nat, 8);
        lemma_pow2_8_top();
    }
    let mut v: u64 = 0;
    let mut j: usize = n;
    while j > 0
        invariant
            snap.wf(),
            j <= n <= 8,
            v == word_int(*snap, a + j, (n - j) as nat),
        decreases j,
    {
        let b: u8 = if u64::MAX - a >= (j - 1) as u64 {
            snap.read_byte(a + (j - 1) as u64)
        } else {
            proof {
                crate::snapshot::lemma_byte_in_high(snap.pages@, a + (j - 1));
            }
            0
        };
        proof {
            lemma_word_bound(*snap, a + j, (n - j) as nat);
            lemma_pow2_8_le((n - j + 1) as nat, 8);
            lemma_pow2_8_top();
            assert(b + 256 * word_int(*snap, a + j, (n - j) as nat) < pow2_8((n - j + 1) as nat));
        }
        v = b as u64 + 256u64 * v;
        j = j - 1;
    }
    proof {
        lemma_word_bound(*snap, a as int, n as nat);
    }
    v
}

/// Key-value pair list with strictly ascending keys.
pub open spec fn pairs_sorted(s: Seq<(u64, u64)>) -> bool {
    forall|i: int, j: int| 0 <= i < j < s.len() ==> s[i].0 < s[j].0
}

/// The pointer map of one snapshot: `a` is a key exactly when `a` lies in a
/// mapped range and the word read at `a` points back into mapped memory.
pub open spec fn is_pointer(snap: Snapshot, a: int, n: nat) -> bool {
    snap.mapped(a) && snap.mapped(spec_word_at(snap, a, n) as int)
}

/// An inverse-map entry list holds `k` under the entry keyed `v`.
pub open spec fn inv_seq_contains(s: Seq<(u64, Vec<u64>)>, v: u64, k: u64) -> bool {
    exists|i: int| 0 <= i < s.len() && #[trigger] s[i].0 == v && s[i].1@.contains(k)
}

/// The pointer map: forward map (position of a word to the address it
/// stores), its inverse (stored address to the positions holding it), and
/// the sorted positions.
pub struct PointerMap {
    pub map: Vec<(u64, u64)>,
    pub inverse_map: Vec<(u64, Vec<u64>)>,
    pub pointers: Vec<u64>,
}

impl PointerMap {
    /// The forward map holds the pair `(k, v)`.
    pub open spec fn fwd_maps(self, k: u64, v: u64) -> bool {
        exists|i: int| 0 <= i < self.map@.len() && #[trigger] self.map@[i] == (k, v)
    }

    /// `k` is a key of the forward map.
    pub open spec fn fwd_has(self, k: u64) -> bool {
        exists|i: int| 0 <= i < self.map@.len() && #[trigger] self.map@[i].0 == k
    }

    /// The inverse map holds `k` under the entry for `v`.
    pub open spec fn inv_contains(self, v: u64, k: u64) -> bool {
        inv_seq_contains(self.inverse_map@, v, k)
    }

    /// Structural well-formedness: ascending keys everywhere, no empty
    /// inverse entry, the key list mirrors the forward map, and the inverse
    /// map is the forward map's transpose.
    pub open spec fn wf(self) -> bool {
        &&& pairs_sorted(self.map@)
        &&& forall|i: int, j: int|
            0 <= i < j < self.inverse_map@.len() ==> self.inverse_map@[i].0
                < self.inverse_map@[j].0
        &&& forall|i: int|
            0 <= i < self.inverse_map@.len() ==> sorted_strict(#[trigger] self.inverse_map@[i].1@)
        &&& forall|i: int|
            0 <= i < self.inverse_map@.len() ==> (#[trigger] self.inverse_map@[i].1@).len() > 0
        &&& self.pointers@.len() == self.map@.len()
        &&& forall|i: int|
            0 <= i < self.map@.len() ==> #[trigger] self.pointers@[i] == self.map@[i].0
        &&& forall|k: u64, v: u64| #[trigger] self.fwd_maps(k, v) <==> #[trigger] self.inv_contains(v, k)
    }

    /// Clears all three structures.
    pub fn reset(&mut self)
        ensures
            final(self).wf(),
            final(self).map@.len() == 0,
            final(self).inverse_map@.len() == 0,
            final(self).pointers@.len() == 0,
    {
        self.map.clear();
        self.inverse_map.clear();
        self.pointers.clear();
        proof {
            assert forall|k: u64, v: u64| #[trigger]
                self.fwd_maps(k, v) <==> #[trigger] self.inv_contains(v, k) by {}
        }
    }

    /// The forward map: position of a pointer-sized word to the address it
    /// stores, ascending by position.
    pub fn map(&self) -> (r: &Vec<(u64, u64)>)
        ensures
            r@ == self.map@,
    {
        &self.map
    }

    /// The inverse map: stored address to every position holding it,
    /// ascending by stored address.
    pub fn inverse_map(&self) -> (r: &Vec<(u64, Vec<u64>)>)
        ensures
            r@ == self.inverse_map@,
    {
        &self.inverse_map
    }

    /// The sorted key list of the forward map.
    pub fn pointers(&self) -> (r: &Vec<u64>)
        ensures
            r@ == self.pointers@,
    {
        &self.pointers
    }
}

/// Sweeps every mapped byte position and records those whose pointer-sized
/// word resolves inside a mapped range, ascending by position.
fn sweep_pointers(snap: &Snapshot, size_addr: usize) -> (fwd: Vec<(u64, u64)>)
    requires
        snap.wf(),
        1 <= size_addr <= 8,
    ensures
        pairs_sorted(fwd@),
        forall|a: u64, v: u64|
            #[trigger] fwd@.contains((a, v)) <==> is_pointer(*snap, a as int, size_addr as nat)
                && v == spec_word_at(*snap, a as int, size_addr as nat),
{
    let np: usize = snap.pages.len();
    let mut fwd: Vec<(u64, u64)> = Vec::new();
    let mut pi: usize = 0;
    while pi < np
        invariant
            pi <= np,
            np == snap.pages@.len(),
            snap.wf(),
            1 <= size_addr <= 8,
            pairs_sorted(fwd@),
            forall|a: u64, v: u64|
                #[trigger] fwd@.contains((a, v)) <==> is_pointer(*snap, a as int, size_addr as nat)
                    && v == spec_word_at(*snap, a as int, size_addr as nat) && swept(
                    *snap,
                    pi as int,
                    0,
                    a as int,
                ),
            forall|m: int|
                0 <= m < fwd@.len() ==> pi < np ==> #[trigger] fwd@[m].0
                    < snap.pages@[pi as int].base,
        decreases np - pi,
    {
        let base: u64 = snap.pages[pi].base;
        let plen: usize = snap.pages[pi].bytes.len();
        let mut o: usize = 0;
        while o < plen
            invariant
                o <= plen,
                pi < np,
                np == snap.pages@.len(),
                snap.wf(),
                1 <= size_addr <= 8,
                base == snap.pages@[pi as int].base,
                plen == snap.pages@[pi as int].bytes@.len(),
                pairs_sorted(fwd@),
                forall|a: u64, v: u64|
                    #[trigger] fwd@.contains((a, v)) <==> is_pointer(
                        *snap,
                        a as int,
                        size_addr as nat,
                    ) && v == spec_word_at(*snap, a as int, size_addr as nat) && swept(
                        *snap,
                        pi as int,
                        o as int,
                        a as int,
                    ),
                forall|m: int| 0 <= m < fwd@.len() ==> #[trigger] fwd@[m].0 < base + o,
            decreases plen - o,
        {
            let a: u64 = base + o as u64;
            proof {
                assert(snap.pages@[pi as int].covers(a as int));
                assert(snap.mapped(a as int));
            }
            let w: u64 = word_at_exec(snap, a, size_addr);
            let hit: bool = match snap.find_page(w) {
                Some(_) => true,
                None => false,
            };
            if hit {
                let ghost prev = fwd@;
                fwd.push((a, w));
                proof {
                    assert(snap.mapped(w as int));
                    assert(is_pointer(*snap, a as int, size_addr as nat));
                    assert(fwd@ == prev.push((a, w)));
                    assert forall|x: u64, y: u64|
                        #[trigger] fwd@.contains((x, y)) <==> is_pointer(
                            *snap,
                            x as int,
                            size_addr as nat,
                        ) && y == spec_word_at(*snap, x as int, size_addr as nat) && swept(
                            *snap,
                            pi as int,
                            o + 1,
                            x as int,
                        ) by {
                        crate::value_scanner::lemma_swept_extend(
                            *snap,
                            pi as int,
                            o as int,
                            x as int,
                        );
                        if fwd@.contains((x, y)) {
                            let idx = choose|idx: int|
                                0 <= idx < fwd@.len() && fwd@[idx] == (x, y);
                            if idx < prev.len() {
                                assert(prev[idx] == (x, y));
                                assert(prev.contains((x, y)));
                            } else {
                                assert((x, y) == (a, w));
                            }
                        }
                        if is_pointer(*snap, x as int, size_addr as nat) && y == spec_word_at(
                            *snap,
                            x as int,
                            size_addr as nat,
                        ) && swept(*snap, pi as int, o + 1, x as int) {
                            if swept(*snap, pi as int, o as int, x as int) {
                                assert(prev.contains((x, y)));
                                let idx = choose|idx: int|
                                    0 <= idx < prev.len() && prev[idx] == (x, y);
                                assert(fwd@[idx] == (x, y));
                            } else {
                                assert(x as int == base + o);
                                assert(x == a);
                                assert(y == w);
                                assert(fwd@[prev.len() as int] == (a, w));
                            }
                        }
                    }
                }
            } else {
                proof {
                    assert(!snap.mapped(w as int));
                    assert forall|x: u64, y: u64|
                        #[trigger] fwd@.contains((x, y)) <==> is_pointer(
                            *snap,
                            x as int,
                            size_addr as nat,
                        ) && y == spec_word_at(*snap, x as int, size_addr as nat) && swept(
                            *snap,
                            pi as int,
                            o + 1,
                            x as int,
                        ) by {
                        crate::value_scanner::lemma_swept_extend(
                            *snap,
                            pi as int,
                            o as int,
                            x as int,
                        );
                        if is_pointer(*snap, x as int, size_addr as nat) && y == spec_word_at(
                            *snap,
                            x as int,
                            size_addr as nat,
                        ) && swept(*snap, pi as int, o + 1, x as int) && !swept(
                            *snap,
                            pi as int,
                            o as int,
                            x as int,
                        ) {
                            assert(x == a);
                        }
                    }
                }
            }
            o = o + 1;
        }
        proof {
            assert forall|a: u64, v: u64|
                #[trigger] fwd@.contains((a, v)) <==> is_pointer(*snap, a as int, size_addr as nat)
                    && v == spec_word_at(*snap, a as int, size_addr as nat) && swept(
                    *snap,
                    pi + 1,
                    0,
                    a as int,
                ) by {
                crate::value_scanner::lemma_swept_next_page(*snap, pi as int, a as int);
            }
            assert forall|m: int|
                0 <= m < fwd@.len() && pi + 1 < np implies #[trigger] fwd@[m].0 < snap.pages@[pi
                + 1].base by {
                assert(snap.pages@[pi as int].end() <= snap.pages@[pi + 1].base);
            }
        }
        pi = pi + 1;
    }
    proof {
        assert forall|a: u64, v: u64|
            #[trigger] fwd@.contains((a, v)) <==> is_pointer(*snap, a as int, size_addr as nat)
                && v == spec_word_at(*snap, a as int, size_addr as nat) by {
            if is_pointer(*snap, a as int, size_addr as nat) {
                assert(snap.mapped(a as int));
                let k = choose|k: int|
                    0 <= k < snap.pages@.len() && #[trigger] snap.pages@[k].covers(a as int);
                assert(swept(*snap, np as int, 0, a as int));
            }
        }
    }
    fwd
}

impl PointerMap {
    /// Rebuilds the three structures from a snapshot: the forward map holds
    /// exactly the mapped positions whose `size_addr`-byte little-endian
    /// word falls inside a mapped range; the inverse map is its transpose;
    /// the pointer list is the ascending key list.
    pub fn create_map(&mut self, snap: &Snapshot, size_addr: usize)
        requires
            snap.wf(),
            1 <= size_addr <= 8,
        ensures
            final(self).wf(),
            forall|k: u64, v: u64|
                #[trigger] final(self).fwd_maps(k, v) <==> is_pointer(
                    *snap,
                    k as int,
                    size_addr as nat,
                ) && v == spec_word_at(*snap, k as int, size_addr as nat),
    {
        let fwd: Vec<(u64, u64)> = sweep_pointers(snap, size_addr);
        let n: usize = fwd.len();

        let mut ptrs: Vec<u64> = Vec::new();
        let mut i: usize = 0;
        while i < n
            invariant
                i <= n,
                n == fwd@.len(),
                ptrs@.len() == i,
                forall|k: int| 0 <= k < i ==> #[trigger] ptrs@[k] == fwd@[k].0,
            decreases n - i,
        {
            ptrs.push(fwd[i].0);
            i = i + 1;
        }

        let mut inv: Vec<(u64, Vec<u64>)> = Vec::new();
        let mut i: usize = 0;
        while i < n
            invariant
                i <= n,
                n == fwd@.len(),
                pairs_sorted(fwd@),
                forall|x: int, y: int| 0 <= x < y < inv@.len() ==> inv@[x].0 < inv@[y].0,
                forall|x: int| 0 <= x < inv@.len() ==> sorted_strict(#[trigger] inv@[x].1@),
                forall|x: int| 0 <= x < inv@.len() ==> (#[trigger] inv@[x].1@).len() > 0,
                forall|v: u64, k: u64|
                    #[trigger] inv_seq_contains(inv@, v, k) <==> (exists|j: int|
                        0 <= j < i && #[trigger] fwd@[j] == (k, v)),
                forall|x: int, m: int|
                    0 <= x < inv@.len() && 0 <= m < inv@[x].1@.len() ==> i < n
                        ==> #[trigger] inv@[x].1@[m] < fwd@[i as int].0,
            decreases n - i,
        {
            let kv: (u64, u64) = fwd[i];
            let k: u64 = kv.0;
            let v: u64 = kv.1;
            let ghost pre = inv@;
            let m: usize = inv.len();
            let mut pos: usize = 0;
            while pos < m && inv[pos].0 < v
                invariant
                    pos <= m,
                    m == inv@.len(),
                    forall|x: int| 0 <= x < pos ==> inv@[x].0 < v,
                    inv@ == pre,
                decreases m - pos,
            {
                pos = pos + 1;
            }
            let hit: bool = if pos < m {
                inv[pos].0 == v
            } else {
                false
            };
            if hit {
                let e: &mut (u64, Vec<u64>) = &mut inv[pos];
                let ghost prevec = e.1@;
                e.1.push(k);
                proof {
                    assert(inv@[pos as int].0 == v);
                    assert(inv@[pos as int].1@ == prevec.push(k));
                    assert(forall|x: int|
                        0 <= x < inv@.len() && x != pos ==> inv@[x] == pre[x]);
                    assert forall|x: int|
                        0 <= x < inv@.len() implies sorted_strict(#[trigger] inv@[x].1@) by {
                        if x == pos {
                            assert forall|p: int, q: int|
                                0 <= p < q < inv@[x].1@.len() implies inv@[x].1@[p] < inv@[x].1@[q] by {
                                if q < prevec.len() {
                                } else {
                                    assert(inv@[x].1@[q] == k);
                                    assert(pre[x].1@[p] < fwd@[i as int].0);
                                }
                            }
                        }
                    }
                    assert forall|v2: u64, k2: u64|
                        #[trigger] inv_seq_contains(inv@, v2, k2) <==> (exists|j: int|
                            0 <= j < i + 1 && #[trigger] fwd@[j] == (k2, v2)) by {
                        if inv_seq_contains(inv@, v2, k2) {
                            let x = choose|x: int|
                                0 <= x < inv@.len() && #[trigger] inv@[x].0 == v2
                                    && inv@[x].1@.contains(k2);
                            if x == pos {
                                let p = choose|p: int|
                                    0 <= p < inv@[x].1@.len() && inv@[x].1@[p] == k2;
                                if p < prevec.len() {
                                    assert(prevec[p] == k2);
                                    assert(prevec.contains(k2));
                                    assert(inv_seq_contains(pre, v2, k2));
                                } else {
                                    assert(k2 == k && v2 == v);
                                    assert(fwd@[i as int] == (k2, v2));
                                }
                            } else {
                                assert(pre[x].0 == v2 && pre[x].1@.contains(k2));
                                assert(inv_seq_contains(pre, v2, k2));
                            }
                        }
                        if exists|j: int| 0 <= j < i + 1 && #[trigger] fwd@[j] == (k2, v2) {
                            let j = choose|j: int|
                                0 <= j < i + 1 && #[trigger] fwd@[j] == (k2, v2);
                            if j < i {
                                assert(inv_seq_contains(pre, v2, k2));
                                let x = choose|x: int|
                                    0 <= x < pre.len() && #[trigger] pre[x].0 == v2
                                        && pre[x].1@.contains(k2);
                                if x == pos {
                                    let p = choose|p: int|
                                        0 <= p < prevec.len() && prevec[p] == k2;
                                    assert(inv@[x].1@[p] == k2);
                                    assert(inv@[x].1@.contains(k2));
                                } else {
                                    assert(inv@[x].0 == v2 && inv@[x].1@.contains(k2));
                                }
                            } else {
                                assert((k2, v2) == (k, v));
                                assert(inv@[pos as int].1@[prevec.len() as int] == k);
                                assert(inv@[pos as int].1@.contains(k2));
                            }
                        }
                    }
                    assert forall|x: int, mm: int|
                        0 <= x < inv@.len() && 0 <= mm < inv@[x].1@.len() && i + 1
                            < n implies #[trigger] inv@[x].1@[mm] < fwd@[i + 1].0 by {
                        assert(fwd@[i as int].0 < fwd@[i + 1].0);
                        if x == pos && mm == prevec.len() {
                            assert(inv@[x].1@[mm] == k);
                        } else {
                            assert(inv@[x].1@[mm] == pre[x].1@[mm]);
                            assert(pre[x].1@[mm] < fwd@[i as int].0);
                        }
                    }
                }
            } else {
                let mut nv: Vec<u64> = Vec::new();
                nv.push(k);
                let ghost nvv = nv@;
                inv.insert(pos, (v, nv));
                proof {
                    assert(nvv =~= seq![k]);
                    assert(inv@.len() == pre.len() + 1);
                    assert(forall|x: int| 0 <= x < pos ==> inv@[x] == pre[x]);
                    assert(inv@[pos as int].0 == v);
                    assert(inv@[pos as int].1@ == nvv);
                    assert(inv@[pos as int].1@[0] == k);
                    assert(inv@[pos as int].1@.contains(k));
                    assert(forall|x: int| pos < x < inv@.len() ==> inv@[x] == pre[x - 1]);
                    assert forall|x: int, y: int|
                        0 <= x < y < inv@.len() implies inv@[x].0 < inv@[y].0 by {
                        if y == pos {
                            assert(inv@[x].0 == pre[x].0);
                        } else if x == pos {
                            assert(inv@[y].0 == pre[y - 1].0);
                            assert(pre[y - 1].0 >= v);
                            assert(pre[y - 1].0 != v) by {
                                if pre[y - 1].0 == v {
                                    if y - 1 < pos {
                                        assert(pre[y - 1].0 < v);
                                    } else {
                                        assert(pos < m && pre[pos as int].0 >= v);
                                        if pre[pos as int].0 == v {
                                            assert(!hit);
                                            assert(false);
                                        }
                                        assert(pre[pos as int].0 <= pre[y - 1].0);
                                    }
                                }
                            }
                        }
                    }
                    assert forall|v2: u64, k2: u64|
                        #[trigger] inv_seq_contains(inv@, v2, k2) <==> (exists|j: int|
                            0 <= j < i + 1 && #[trigger] fwd@[j] == (k2, v2)) by {
                        if inv_seq_contains(inv@, v2, k2) {
                            let x = choose|x: int|
                                0 <= x < inv@.len() && #[trigger] inv@[x].0 == v2
                                    && inv@[x].1@.contains(k2);
                            if x == pos {
                                assert(v2 == v && k2 == k);
                                assert(fwd@[i as int] == (k2, v2));
                            } else if x < pos {
                                assert(inv_seq_contains(pre, v2, k2));
                            } else {
                                assert(pre[x - 1].0 == v2 && pre[x - 1].1@.contains(k2));
                                assert(inv_seq_contains(pre, v2, k2));
                            }
                        }
                        if exists|j: int| 0 <= j < i + 1 && #[trigger] fwd@[j] == (k2, v2) {
                            let j = choose|j: int|
                                0 <= j < i + 1 && #[trigger] fwd@[j] == (k2, v2);
                            if j < i {
                                assert(inv_seq_contains(pre, v2, k2));
                                let x = choose|x: int|
                                    0 <= x < pre.len() && #[trigger] pre[x].0 == v2
                                        && pre[x].1@.contains(k2);
                                if x < pos {
                                    assert(inv@[x].0 == v2 && inv@[x].1@.contains(k2));
                                } else {
                                    assert(inv@[x + 1].0 == v2 && inv@[x + 1].1@.contains(k2));
                                }
                            } else {
                                assert((k2, v2) == (k, v));
                                assert(inv@[pos as int].1@.contains(k));
                            }
                        }
                    }
                    assert forall|x: int, mm: int|
                        0 <= x < inv@.len() && 0 <= mm < inv@[x].1@.len() && i + 1
                            < n implies #[trigger] inv@[x].1@[mm] < fwd@[i + 1].0 by {
                        assert(fwd@[i as int].0 < fwd@[i + 1].0);
                        if x == pos {
                            assert(inv@[x].1@[mm] == k);
                        } else if x < pos {
                            assert(pre[x].1@[mm] < fwd@[i as int].0);
                        } else {
                            assert(inv@[x].1@[mm] == pre[x - 1].1@[mm]);
                            assert(pre[x - 1].1@[mm] < fwd@[i as int].0);
                        }
                    }
                }
            }
            i = i + 1;
        }

        self.map = fwd;
        self.inverse_map = inv;
        self.pointers = ptrs;
        proof {
            assert forall|k: u64, v: u64| #[trigger]
                self.fwd_maps(k, v) <==> #[trigger] self.inv_contains(v, k) by {
                if self.fwd_maps(k, v) {
                    let j = choose|j: int|
                        0 <= j < self.map@.len() && #[trigger] self.map@[j] == (k, v);
                    assert(inv_seq_contains(inv@, v, k));
                }
                if self.inv_contains(v, k) {
                    let j = choose|j: int|
                        0 <= j < n && #[trigger] self.map@[j] == (k, v);
                }
            }
            assert forall|k: u64, v: u64|
                #[trigger] self.fwd_maps(k, v) <==> is_pointer(*snap, k as int, size_addr as nat)
                    && v == spec_word_at(*snap, k as int, size_addr as nat) by {
                if self.fwd_maps(k, v) {
                    let j = choose|j: int|
                        0 <= j < self.map@.len() && #[trigger] self.map@[j] == (k, v);
                    assert(self.map@.contains((k, v)));
                }
                if is_pointer(*snap, k as int, size_addr as nat) && v == spec_word_at(
                    *snap,
                    k as int,
                    size_addr as nat,
                ) {
                    assert(self.map@.contains((k, v)));
                    let j = choose|j: int|
                        0 <= j < self.map@.len() && self.map@[j] == (k, v);
                }
            }
        }
    }
}

/// Signed difference `a - b` as a 64-bit quantity, saturating at the
/// extremes when the true difference does not fit in an `i64`.
pub open spec fn spec_signed_diff(a: u64, b: u64) -> i64 {
    if a - b > i64::MAX {
        i64::MAX
    } else if a - b < i64::MIN {
        i64::MIN
    } else {
        (a - b) as i64
    }
}

/// Signed distance from `b` to `a`, saturating where the difference
/// falls outside the `i64` range.
pub fn signed_diff(a: u64, b: u64) -> (r: i64)
    ensures
        r == spec_signed_diff(a, b),
{
    if a >= b {
        let d: u64 = a - b;
        if d <= i64::MAX as u64 {
            d as i64
        } else {
            i64::MAX
        }
    } else {
        let d: u64 = b - a;
        if d <= i64::MAX as u64 {
            -(d as i64)
        } else {
            i64::MIN
        }
    }
}

/// The lower edge of the search window around `addr`: `addr - urange`,
/// saturating at zero.
pub open spec fn win_lo(addr: u64, urange: u64) -> u64 {
    if addr >= urange {
        (addr - urange) as u64
    } else {
        0
    }
}

/// The upper edge of the search window around `addr`: `addr + lrange`,
/// saturating at the top of the address space.
pub open spec fn win_hi(addr: u64, lrange: u64) -> u64 {
    if addr + lrange <= u64::MAX {
        (addr + lrange) as u64
    } else {
        u64::MAX
    }
}

/// The absolute distance between two addresses.
pub open spec fn abs_diff(a: u64, b: u64) -> int {
    if a >= b {
        a - b
    } else {
        b - a
    }
}

/// The number of elements below `lo` in an ascending list: the index of the
/// first element at or above `lo`.
pub open spec fn lower_bound(s: Seq<u64>, lo: u64) -> int
    decreases s.len(),
{
    if s.len() == 0 {
        0
    } else if s[0] < lo {
        1 + lower_bound(s.drop_first(), lo)
    } else {
        0
    }
}

/// Position and bounds of `lower_bound` on a strictly ascending list.
pub proof fn lemma_lower_bound(s: Seq<u64>, lo: u64)
    requires
        sorted_strict(s),
    ensures
        0 <= lower_bound(s, lo) <= s.len(),
        forall|i: int| 0 <= i < lower_bound(s, lo) ==> s[i] < lo,
        forall|i: int| lower_bound(s, lo) <= i < s.len() ==> s[i] >= lo,
    decreases s.len(),
{
    if s.len() > 0 {
        let t = s.drop_first();
        assert(forall|i: int| 0 <= i < t.len() ==> t[i] == s[i + 1]);
        assert(sorted_strict(t));
        lemma_lower_bound(t, lo);
        if s[0] < lo {
            let b = lower_bound(s, lo);
            assert(b == 1 + lower_bound(t, lo));
            assert forall|i: int| 0 <= i < b implies s[i] < lo by {
                if i > 0 {
                    assert(t[i - 1] < lo);
                }
            }
            assert forall|i: int| b <= i < s.len() implies s[i] >= lo by {
                assert(t[i - 1] >= lo);
            }
        }
        if !(s[0] < lo) {
            assert forall|i: int| 0 <= i < s.len() implies s[i] >= lo by {
                if i > 0 {
                    assert(s[0] < s[i]);
                }
            }
        }
    }
}

/// Among the window's anchors from index `i` on, the one nearest `addr`,
/// folding left with the running best `cur`; equal distances keep the
/// earlier (lower, hence positive-offset) anchor.
pub open spec fn best_from(sp: Seq<u64>, addr: u64, hi: u64, i: int, cur: u64) -> u64
    decreases sp.len() - i,
{
    if 0 <= i && i < sp.len() && sp[i] <= hi {
        if abs_diff(addr, sp[i]) < abs_diff(addr, cur) {
            best_from(sp, addr, hi, i + 1, sp[i])
        } else {
            best_from(sp, addr, hi, i + 1, cur)
        }
    } else {
        cur
    }
}

/// The anchor chosen at `addr`: the in-window start-point whose signed
/// distance to `addr` has the smallest absolute value, ties biased toward
/// the positive side; `None` when the window holds no start-point.
pub open spec fn nearest_anchor(sp: Seq<u64>, addr: u64, lrange: u64, urange: u64) -> Option<u64> {
    let lo = win_lo(addr, urange);
    let hi = win_hi(addr, lrange);
    let i0 = lower_bound(sp, lo);
    if i0 < sp.len() && sp[i0] <= hi {
        Some(best_from(sp, addr, hi, i0 + 1, sp[i0]))
    } else {
        None
    }
}

/// Finds the index of the first element at or above `lo`.
fn lower_bound_exec(s: &Vec<u64>, lo: u64) -> (r: usize)
    requires
        sorted_strict(s@),
    ensures
        r == lower_bound(s@, lo),
        r <= s@.len(),
    {
    proof {
        lemma_lower_bound(s@, lo);
    }
    let n: usize = s.len();
    let mut i: usize = 0;
    while i < n
        invariant
            i <= n,
            n == s@.len(),
            sorted_strict(s@),
            forall|k: int| 0 <= k < i ==> s@[k] < lo,
        decreases n - i,
    {
        if s[i] >= lo {
            proof {
                lemma_lower_bound_at(s@, lo, i as int);
            }
            return i;
        }
        i = i + 1;
    }
    proof {
        lemma_lower_bound_at(s@, lo, n as int);
    }
    n
}

/// `lower_bound` equals any position below which all elements are under
/// `lo` and at which the element (if any) is not.
proof fn lemma_lower_bound_at(s: Seq<u64>, lo: u64, i: int)
    requires
        sorted_strict(s),
        0 <= i <= s.len(),
        forall|k: int| 0 <= k < i ==> s[k] < lo,
        i < s.len() ==> s[i] >= lo,
    ensures
        lower_bound(s, lo) == i,
{
    lemma_lower_bound(s, lo);
    let b = lower_bound(s, lo);
    if b < i {
        assert(s[b] < lo);
    }
    if b > i {
        assert(s[i] < lo);
    }
}

/// Selects the nearest in-window anchor, as executable code.
fn nearest_anchor_exec(sp: &Vec<u64>, addr: u64, lrange: u64, urange: u64) -> (r: Option<u64>)
    requires
        sorted_strict(sp@),
    ensures
        r == nearest_anchor(sp@, addr, lrange, urange),
{
    let lo: u64 = if addr >= urange {
        addr - urange
    } else {
        0
    };
    let hi: u64 = if u64::MAX - addr >= lrange {
        addr + lrange
    } else {
        u64::MAX
    };
    proof {
        assert(lo == win_lo(addr, urange));
        assert(hi == win_hi(addr, lrange));
    }
    let i0: usize = lower_bound_exec(sp, lo);
    if i0 < sp.len() && sp[i0] <= hi {
        let mut m: u64 = sp[i0];
        let mut i: usize = i0 + 1;
        let ghost goal = best_from(sp@, addr, hi, i0 + 1, sp@[i0 as int]);
        while i < sp.len() && sp[i] <= hi
            invariant
                sorted_strict(sp@),
                i0 < sp@.len(),
                i0 + 1 <= i <= sp@.len(),
                best_from(sp@, addr, hi, i as int, m) == goal,
            decreases sp@.len() - i,
        {
            let da: u64 = if addr >= sp[i] {
                addr - sp[i]
            } else {
                sp[i] - addr
            };
            let dm: u64 = if addr >= m {
                addr - m
            } else {
                m - addr
            };
            if da < dm {
                m = sp[i];
            }
            i = i + 1;
        }
        proof {
            assert(best_from(sp@, addr, hi, i as int, m) == m);
        }
        Some(m)
    } else {
        None
    }
}

/// The inverse map as a sequence of `(stored address, positions)` entries.
pub open spec fn inv_view(s: Seq<(u64, Vec<u64>)>) -> Seq<(u64, Seq<u64>)> {
    s.map(|i: int, e: (u64, Vec<u64>)| (e.0, e.1@))
}

/// The chain list as a sequence of `(target, steps)` pairs.
pub open spec fn chains_view(s: Seq<(u64, Vec<(u64, i64)>)>) -> Seq<(u64, Seq<(u64, i64)>)> {
    s.map(|i: int, c: (u64, Vec<(u64, i64)>)| (c.0, c.1@))
}

/// The number of inverse entries keyed below `lo`: the index of the first
/// entry at or above `lo`.
pub open spec fn ent_lower_bound(s: Seq<(u64, Seq<u64>)>, lo: u64) -> int
    decreases s.len(),
{
    if s.len() == 0 {
        0
    } else if s[0].0 < lo {
        1 + ent_lower_bound(s.drop_first(), lo)
    } else {
        0
    }
}

/// Position and bounds of `ent_lower_bound` on a key-ascending entry list.
pub proof fn lemma_ent_lower_bound(s: Seq<(u64, Seq<u64>)>, lo: u64)
    requires
        forall|i: int, j: int| 0 <= i < j < s.len() ==> s[i].0 < s[j].0,
    ensures
        0 <= ent_lower_bound(s, lo) <= s.len(),
        forall|i: int| 0 <= i < ent_lower_bound(s, lo) ==> s[i].0 < lo,
        forall|i: int| ent_lower_bound(s, lo) <= i < s.len() ==> s[i].0 >= lo,
    decreases s.len(),
{
    if s.len() > 0 {
        let t = s.drop_first();
        assert(forall|i: int| 0 <= i < t.len() ==> t[i] == s[i + 1]);
        lemma_ent_lower_bound(t, lo);
        if s[0].0 < lo {
            let b = ent_lower_bound(s, lo);
            assert(b == 1 + ent_lower_bound(t, lo));
            assert forall|i: int| 0 <= i < b implies s[i].0 < lo by {
                if i > 0 {
                    assert(t[i - 1].0 < lo);
                }
            }
            assert forall|i: int| b <= i < s.len() implies s[i].0 >= lo by {
                assert(t[i - 1].0 >= lo);
            }
        } else {
            assert forall|i: int| 0 <= i < s.len() implies s[i].0 >= lo by {
                if i > 0 {
                    assert(s[0].0 < s[i].0);
                }
            }
        }
    }
}

/// The chain the anchor step emits at node `addr`, if an anchor is in
/// window: the partial path extended by the anchor step and reversed into
/// root-to-target order.
pub open spec fn anchor_chains(
    sp: Seq<u64>,
    addr: u64,
    lrange: u64,
    urange: u64,
    tmp: Seq<(u64, i64)>,
    fin: u64,
) -> Seq<(u64, Seq<(u64, i64)>)> {
    match nearest_anchor(sp, addr, lrange, urange) {
        Some(e) => seq![(fin, tmp.push((e, spec_signed_diff(addr, e))).reverse())],
        None => Seq::empty(),
    }
}

/// The chains the resolver emits from node `addr` at depth `level`: the
/// anchor chain at this node, then — while the depth allows — the chains
/// found through every inverse entry whose key lies in the window.
pub open spec fn walk_spec(
    inv: Seq<(u64, Seq<u64>)>,
    sp: Seq<u64>,
    addr: u64,
    lrange: u64,
    urange: u64,
    maxl: int,
    level: int,
    tmp: Seq<(u64, i64)>,
    fin: u64,
) -> Seq<(u64, Seq<(u64, i64)>)>
    decreases maxl - level, 1int, 0int, 0int,
{
    let head = anchor_chains(sp, addr, lrange, urange, tmp, fin);
    if level < maxl {
        head + walk_entries(
            inv,
            sp,
            addr,
            lrange,
            urange,
            maxl,
            level,
            tmp,
            fin,
            ent_lower_bound(inv, win_lo(addr, urange)),
        )
    } else {
        head
    }
}

/// The chains found through the in-window inverse entries from index `ei`
/// on.
pub open spec fn walk_entries(
    inv: Seq<(u64, Seq<u64>)>,
    sp: Seq<u64>,
    addr: u64,
    lrange: u64,
    urange: u64,
    maxl: int,
    level: int,
    tmp: Seq<(u64, i64)>,
    fin: u64,
    ei: int,
) -> Seq<(u64, Seq<(u64, i64)>)>
    decreases maxl - level, 0int, inv.len() - ei + 1, 0int,
{
    if 0 <= ei && ei < inv.len() && inv[ei].0 <= win_hi(addr, lrange) && level < maxl {
        walk_vec(inv, sp, addr, lrange, urange, maxl, level, tmp, fin, ei, 0) + walk_entries(
            inv,
            sp,
            addr,
            lrange,
            urange,
            maxl,
            level,
            tmp,
            fin,
            ei + 1,
        )
    } else {
        Seq::empty()
    }
}

/// The chains found by descending to each position of inverse entry `ei`
/// from index `vi` on, the path extended by that entry's step.
pub open spec fn walk_vec(
    inv: Seq<(u64, Seq<u64>)>,
    sp: Seq<u64>,
    addr: u64,
    lrange: u64,
    urange: u64,
    maxl: int,
    level: int,
    tmp: Seq<(u64, i64)>,
    fin: u64,
    ei: int,
    vi: int,
) -> Seq<(u64, Seq<(u64, i64)>)>
    decreases maxl - level, 0int, inv.len() - ei, inv[ei].1.len() - vi,
{
    if 0 <= ei && ei < inv.len() && 0 <= vi && vi < inv[ei].1.len() && level < maxl {
        walk_spec(
            inv,
            sp,
            inv[ei].1[vi],
            lrange,
            urange,
            maxl,
            level + 1,
            tmp.push((inv[ei].0, spec_signed_diff(addr, inv[ei].0))),
            fin,
        ) + walk_vec(inv, sp, addr, lrange, urange, maxl, level, tmp, fin, ei, vi + 1)
    } else {
        Seq::empty()
    }
}

/// Builds the root-to-target step list: the partial path extended by the
/// anchor step, reversed.
fn reversed_chain(tmp: &Vec<(u64, i64)>, e: u64, off: i64) -> (r: Vec<(u64, i64)>)
    ensures
        r@ == tmp@.push((e, off)).reverse(),
{
    let n: usize = tmp.len();
    let mut r: Vec<(u64, i64)> = Vec::new();
    r.push((e, off));
    let mut i: usize = n;
    while i > 0
        invariant
            i <= n,
            n == tmp@.len(),
            r@.len() == 1 + (n - i),
            r@[0] == (e, off),
            forall|j: int| 1 <= j < r@.len() ==> #[trigger] r@[j] == tmp@[n - j],
        decreases i,
    {
        r.push(tmp[i - 1]);
        i = i - 1;
    }
    proof {
        let s = tmp@.push((e, off));
        assert forall|j: int| 0 <= j < s.len() implies r@[j] == s.reverse()[j] by {
            if j == 0 {
                assert(s[s.len() - 1] == (e, off));
            } else {
                assert(r@[j] == tmp@[n - j]);
                assert(s[n - j] == tmp@[n - j]);
            }
        }
        assert(r@ =~= s.reverse());
    }
    r
}

/// Finds the index of the first inverse entry keyed at or above `lo`.
fn ent_lower_bound_exec(inv: &Vec<(u64, Vec<u64>)>, lo: u64) -> (r: usize)
    requires
        forall|i: int, j: int| 0 <= i < j < inv@.len() ==> inv@[i].0 < inv@[j].0,
    ensures
        r == ent_lower_bound(inv_view(inv@), lo),
        r <= inv@.len(),
{
    proof {
        assert forall|i: int, j: int|
            0 <= i < j < inv_view(inv@).len() implies inv_view(inv@)[i].0 < inv_view(
            inv@,
        )[j].0 by {
            assert(inv_view(inv@)[i].0 == inv@[i].0);
            assert(inv_view(inv@)[j].0 == inv@[j].0);
        }
        lemma_ent_lower_bound(inv_view(inv@), lo);
    }
    let n: usize = inv.len();
    let mut i: usize = 0;
    while i < n
        invariant
            i <= n,
            n == inv@.len(),
            forall|x: int, y: int| 0 <= x < y < inv@.len() ==> inv@[x].0 < inv@[y].0,
            forall|k: int| 0 <= k < i ==> inv@[k].0 < lo,
        decreases n - i,
    {
        if inv[i].0 >= lo {
            proof {
                lemma_ent_lower_bound_at(inv_view(inv@), lo, i as int);
            }
            return i;
        }
        i = i + 1;
    }
    proof {
        lemma_ent_lower_bound_at(inv_view(inv@), lo, n as int);
    }
    n
}

/// `ent_lower_bound` equals any position below which all keys are under
/// `lo` and at which the key (if any) is not.
proof fn lemma_ent_lower_bound_at(s: Seq<(u64, Seq<u64>)>, lo: u64, i: int)
    requires
        forall|x: int, y: int| 0 <= x < y < s.len() ==> s[x].0 < s[y].0,
        0 <= i <= s.len(),
        forall|k: int| 0 <= k < i ==> s[k].0 < lo,
        i < s.len() ==> s[i].0 >= lo,
    ensures
        ent_lower_bound(s, lo) == i,
{
    lemma_ent_lower_bound(s, lo);
    let b = ent_lower_bound(s, lo);
    if b < i {
        assert(s[b].0 < lo);
    }
    if b > i {
        assert(s[i].0 < lo);
    }
}

impl PointerMap {
    /// The inverse map's entries with their position lists as sequences.
    pub open spec fn inv_seq(self) -> Seq<(u64, Seq<u64>)> {
        inv_view(self.inverse_map@)
    }

    /// Depth-first walk from node `addr` at depth `level`: emits the chain
    /// through the nearest in-window anchor, then descends through every
    /// in-window inverse entry while the depth bound allows, extending the
    /// partial path `tmp` and restoring it on return.
    fn walk_down_range(
        &self,
        addr: u64,
        lrange: u64,
        urange: u64,
        max_levels: usize,
        level: usize,
        startpoints: &Vec<u64>,
        out: &mut Vec<(u64, Vec<(u64, i64)>)>,
        fin: u64,
        tmp: &mut Vec<(u64, i64)>,
    )
        requires
            self.wf(),
            sorted_strict(startpoints@),
        ensures
            final(tmp)@ == old(tmp)@,
            chains_view(final(out)@) == chains_view(old(out)@) + walk_spec(
                self.inv_seq(),
                startpoints@,
                addr,
                lrange,
                urange,
                max_levels as int,
                level as int,
                old(tmp)@,
                fin,
            ),
        decreases max_levels - level,
    {
        let ghost target = chains_view(old(out)@) + walk_spec(
            self.inv_seq(),
            startpoints@,
            addr,
            lrange,
            urange,
            max_levels as int,
            level as int,
            old(tmp)@,
            fin,
        );
        match nearest_anchor_exec(startpoints, addr, lrange, urange) {
            Some(e) => {
                let off: i64 = signed_diff(addr, e);
                let chain: Vec<(u64, i64)> = reversed_chain(tmp, e, off);
                let ghost prev = out@;
                out.push((fin, chain));
                proof {
                    assert(chains_view(out@) =~= chains_view(prev) + anchor_chains(
                        startpoints@,
                        addr,
                        lrange,
                        urange,
                        tmp@,
                        fin,
                    ));
                }
            },
            None => {
                proof {
                    assert(chains_view(out@) =~= chains_view(out@) + anchor_chains(
                        startpoints@,
                        addr,
                        lrange,
                        urange,
                        tmp@,
                        fin,
                    ));
                }
            },
        }
        if level < max_levels {
            let lo: u64 = if addr >= urange {
                addr - urange
            } else {
                0
            };
            let hi: u64 = if u64::MAX - addr >= lrange {
                addr + lrange
            } else {
                u64::MAX
            };
            proof {
                assert(lo == win_lo(addr, urange));
                assert(hi == win_hi(addr, lrange));
            }
            let n: usize = self.inverse_map.len();
            let mut ei: usize = ent_lower_bound_exec(&self.inverse_map, lo);
            proof {
                assert(chains_view(out@) + walk_entries(
                    self.inv_seq(),
                    startpoints@,
                    addr,
                    lrange,
                    urange,
                    max_levels as int,
                    level as int,
                    old(tmp)@,
                    fin,
                    ei as int,
                ) =~= target);
            }
            while ei < n && self.inverse_map[ei].0 <= hi
                invariant
                    self.wf(),
                    sorted_strict(startpoints@),
                    level < max_levels,
                    n == self.inverse_map@.len(),
                    ei <= n,
                    hi == win_hi(addr, lrange),
                    tmp@ == old(tmp)@,
                    chains_view(out@) + walk_entries(
                        self.inv_seq(),
                        startpoints@,
                        addr,
                        lrange,
                        urange,
                        max_levels as int,
                        level as int,
                        old(tmp)@,
                        fin,
                        ei as int,
                    ) == target,
                decreases n - ei,
            {
                let k: u64 = self.inverse_map[ei].0;
                let off: i64 = signed_diff(addr, k);
                tmp.push((k, off));
                proof {
                    assert(self.inv_seq()[ei as int].0 == k);
                    assert(self.inv_seq()[ei as int].1 == self.inverse_map@[ei as int].1@);
                }
                let vlen: usize = self.inverse_map[ei].1.len();
                let mut vi: usize = 0;
                while vi < vlen
                    invariant
                        self.wf(),
                        sorted_strict(startpoints@),
                        level < max_levels,
                        ei < self.inverse_map@.len(),
                        vi <= vlen,
                        vlen == self.inv_seq()[ei as int].1.len(),
                        k == self.inv_seq()[ei as int].0,
                        tmp@ == old(tmp)@.push((k, spec_signed_diff(addr, k))),
                        chains_view(out@) + walk_vec(
                            self.inv_seq(),
                            startpoints@,
                            addr,
                            lrange,
                            urange,
                            max_levels as int,
                            level as int,
                            old(tmp)@,
                            fin,
                            ei as int,
                            vi as int,
                        ) + walk_entries(
                            self.inv_seq(),
                            startpoints@,
                            addr,
                            lrange,
                            urange,
                            max_levels as int,
                            level as int,
                            old(tmp)@,
                            fin,
                            ei as int + 1,
                        ) == target,
                    decreases vlen - vi,
                {
                    let v: u64 = self.inverse_map[ei].1[vi];
                    proof {
                        assert(self.inv_seq()[ei as int].1[vi as int] == v);
                    }
                    let ghost mid = out@;
                    self.walk_down_range(
                        v,
                        lrange,
                        urange,
                        max_levels,
                        level + 1,
                        startpoints,
                        out,
                        fin,
                        tmp,
                    );
                    proof {
                        lemma_seq_add_assoc3(
                            chains_view(mid),
                            walk_spec(
                                self.inv_seq(),
                                startpoints@,
                                v,
                                lrange,
                                urange,
                                max_levels as int,
                                level as int + 1,
                                tmp@,
                                fin,
                            ),
                            walk_vec(
                                self.inv_seq(),
                                startpoints@,
                                addr,
                                lrange,
                                urange,
                                max_levels as int,
                                level as int,
                                old(tmp)@,
                                fin,
                                ei as int,
                                vi as int + 1,
                            ),
                            walk_entries(
                                self.inv_seq(),
                                startpoints@,
                                addr,
                                lrange,
                                urange,
                                max_levels as int,
                                level as int,
                                old(tmp)@,
                                fin,
                                ei as int + 1,
                            ),
                        );
                    }
                    vi = vi + 1;
                }
                tmp.pop();
                proof {
                    assert(tmp@ =~= old(tmp)@);
                }
                ei = ei + 1;
            }
            proof {
                assert(walk_entries(
                    self.inv_seq(),
                    startpoints@,
                    addr,
                    lrange,
                    urange,
                    max_levels as int,
                    level as int,
                    old(tmp)@,
                    fin,
                    ei as int,
                ) =~= Seq::<(u64, Seq<(u64, i64)>)>::empty());
                assert(chains_view(out@) =~= target);
            }
        }
    }
}

/// All chains the resolver emits for a target list: the walk from each
/// target in turn, at depth one with an empty path.
pub open spec fn all_chains(
    inv: Seq<(u64, Seq<u64>)>,
    sp: Seq<u64>,
    targets: Seq<u64>,
    lrange: u64,
    urange: u64,
    maxd: int,
) -> Seq<(u64, Seq<(u64, i64)>)>
    decreases targets.len(),
{
    if targets.len() == 0 {
        Seq::empty()
    } else {
        walk_spec(inv, sp, targets[0], lrange, urange, maxd, 1, Seq::empty(), targets[0])
            + all_chains(inv, sp, targets.drop_first(), lrange, urange, maxd)
    }
}

impl PointerMap {
    /// Emits the offset chains for every target address, walking the
    /// inverse map from the given start-point anchors within the window
    /// `(lrange, urange)` down to `max_depth` dereferences.
    pub fn find_matches_addrs(
        &self,
        range: (u64, u64),
        max_depth: usize,
        search_for: &Vec<u64>,
        entry_points: &Vec<u64>,
    ) -> (out: Vec<(u64, Vec<(u64, i64)>)>)
        requires
            self.wf(),
            sorted_strict(entry_points@),
        ensures
            chains_view(out@) == all_chains(
                self.inv_seq(),
                entry_points@,
                search_for@,
                range.0,
                range.1,
                max_depth as int,
            ),
    {
        let (lrange, urange): (u64, u64) = range;
        let n: usize = search_for.len();
        let mut out: Vec<(u64, Vec<(u64, i64)>)> = Vec::new();
        let ghost target = all_chains(
            self.inv_seq(),
            entry_points@,
            search_for@,
            lrange,
            urange,
            max_depth as int,
        );
        proof {
            assert(search_for@.skip(0) =~= search_for@);
            assert(chains_view(out@) + all_chains(
                self.inv_seq(),
                entry_points@,
                search_for@.skip(0),
                lrange,
                urange,
                max_depth as int,
            ) =~= target);
        }
        let mut i: usize = 0;
        while i < n
            invariant
                self.wf(),
                sorted_strict(entry_points@),
                i <= n,
                n == search_for@.len(),
                chains_view(out@) + all_chains(
                    self.inv_seq(),
                    entry_points@,
                    search_for@.skip(i as int),
                    lrange,
                    urange,
                    max_depth as int,
                ) == target,
            decreases n - i,
        {
            let m: u64 = search_for[i];
            let mut tmp: Vec<(u64, i64)> = Vec::new();
            let ghost mid = out@;
            self.walk_down_range(
                m,
                lrange,
                urange,
                max_depth,
                1,
                entry_points,
                &mut out,
                m,
                &mut tmp,
            );
            proof {
                let rest = search_for@.skip(i as int);
                assert(rest[0] == m);
                assert(rest.drop_first() =~= search_for@.skip(i as int + 1));
                lemma_seq_add_assoc3(
                    chains_view(mid),
                    walk_spec(
                        self.inv_seq(),
                        entry_points@,
                        m,
                        lrange,
                        urange,
                        max_depth as int,
                        1,
                        Seq::empty(),
                        m,
                    ),
                    all_chains(
                        self.inv_seq(),
                        entry_points@,
                        search_for@.skip(i as int + 1),
                        lrange,
                        urange,
                        max_depth as int,
                    ),
                    Seq::empty(),
                );
                assert(walk_spec(
                    self.inv_seq(),
                    entry_points@,
                    m,
                    lrange,
                    urange,
                    max_depth as int,
                    1,
                    Seq::empty(),
                    m,
                ) + all_chains(
                    self.inv_seq(),
                    entry_points@,
                    search_for@.skip(i as int + 1),
                    lrange,
                    urange,
                    max_depth as int,
                ) =~= all_chains(
                    self.inv_seq(),
                    entry_points@,
                    search_for@.skip(i as int),
                    lrange,
                    urange,
                    max_depth as int,
                ));
            }
            i = i + 1;
        }
        proof {
            assert(search_for@.skip(n as int) =~= Seq::<u64>::empty());
            assert(chains_view(out@) =~= target);
        }
        out
    }

    /// As `find_matches_addrs`, with all pointer-map keys as start-points.
    pub fn find_matches(
        &self,
        range: (u64, u64),
        max_depth: usize,
        search_for: &Vec<u64>,
    ) -> (out: Vec<(u64, Vec<(u64, i64)>)>)
        requires
            self.wf(),
        ensures
            chains_view(out@) == all_chains(
                self.inv_seq(),
                self.pointers@,
                search_for@,
                range.0,
                range.1,
                max_depth as int,
            ),
    {
        proof {
            assert forall|i: int, j: int|
                0 <= i < j < self.pointers@.len() implies self.pointers@[i]
                < self.pointers@[j] by {
                assert(self.pointers@[i] == self.map@[i].0);
                assert(self.pointers@[j] == self.map@[j].0);
            }
        }
        self.find_matches_addrs(range, max_depth, search_for, &self.pointers)
    }
}

/// Whether a chain's root anchor is the given address.
pub open spec fn chain_rooted_at(anchor: u64) -> spec_fn((u64, Seq<(u64, i64)>)) -> bool {
    |c: (u64, Seq<(u64, i64)>)| c.1.len() > 0 && c.1[0].0 == anchor
}

/// Copies one step list.
fn copy_steps(steps: &Vec<(u64, i64)>) -> (r: Vec<(u64, i64)>)
    ensures
        r@ == steps@,
{
    let n: usize = steps.len();
    let mut r: Vec<(u64, i64)> = Vec::new();
    let mut j: usize = 0;
    while j < n
        invariant
            j <= n,
            n == steps@.len(),
            r@ =~= steps@.take(j as int),
        decreases n - j,
    {
        r.push(steps[j]);
        proof {
            assert(r@ =~= steps@.take(j as int + 1));
        }
        j = j + 1;
    }
    proof {
        assert(steps@.take(n as int) =~= steps@);
    }
    r
}

/// Keeps the chains whose root anchor equals `anchor`, in order: the filter
/// the frontend applies when a filter address is given.
pub fn filter_chains_by_anchor(
    chains: &Vec<(u64, Vec<(u64, i64)>)>,
    anchor: u64,
) -> (out: Vec<(u64, Vec<(u64, i64)>)>)
    ensures
        chains_view(out@) == chains_view(chains@).filter(chain_rooted_at(anchor)),
{
    let ghost cv = chains_view(chains@);
    let ghost pred = chain_rooted_at(anchor);
    let n: usize = chains.len();
    let mut out: Vec<(u64, Vec<(u64, i64)>)> = Vec::new();
    proof {
        reveal(Seq::filter);
        assert(cv.take(0) =~= Seq::<(u64, Seq<(u64, i64)>)>::empty());
        assert(chains_view(out@) =~= cv.take(0).filter(pred));
    }
    let mut i: usize = 0;
    while i < n
        invariant
            i <= n,
            n == chains@.len(),
            cv == chains_view(chains@),
            pred == chain_rooted_at(anchor),
            chains_view(out@) == cv.take(i as int).filter(pred),
        decreases n - i,
    {
        let keep: bool = if chains[i].1.len() > 0 {
            chains[i].1[0].0 == anchor
        } else {
            false
        };
        let ghost prev = out@;
        if keep {
            let steps: Vec<(u64, i64)> = copy_steps(&chains[i].1);
            let tgt: u64 = chains[i].0;
            out.push((tgt, steps));
        }
        proof {
            reveal(Seq::filter);
            let t1 = cv.take(i as int + 1);
            assert(t1.drop_last() =~= cv.take(i as int));
            assert(cv[i as int] == (chains@[i as int].0, chains@[i as int].1@));
            assert(t1.last() == cv[i as int]);
            if keep {
                assert(pred(t1.last()));
                assert(chains_view(out@) =~= chains_view(prev).push(cv[i as int]));
                assert(t1.filter(pred) =~= t1.drop_last().filter(pred).push(t1.last()));
            } else {
                assert(!pred(t1.last()));
                assert(t1.filter(pred) =~= t1.drop_last().filter(pred));
            }
        }
        i = i + 1;
    }
    proof {
        assert(cv.take(n as int) =~= cv);
    }
    out
}

/// Law: pointer-map soundness — every value the forward map records lies
/// within some mapped range of the snapshot it was built from.
pub proof fn lemma_pointer_map_sound(pm: PointerMap, snap: Snapshot, n: nat)
    requires
        forall|k: u64, v: u64|
            #[trigger] pm.fwd_maps(k, v) <==> is_pointer(snap, k as int, n) && v == spec_word_at(
                snap,
                k as int,
                n,
            ),
    ensures
        forall|k: u64, v: u64| #[trigger] pm.fwd_maps(k, v) ==> snap.mapped(v as int),
{
}

/// Law: pointer-map completeness — every mapped byte position whose word
/// interpretation lies within a mapped range appears in the forward map,
/// and appears exactly once.
pub proof fn lemma_pointer_map_complete(pm: PointerMap, snap: Snapshot, n: nat)
    requires
        pm.wf(),
        forall|k: u64, v: u64|
            #[trigger] pm.fwd_maps(k, v) <==> is_pointer(snap, k as int, n) && v == spec_word_at(
                snap,
                k as int,
                n,
            ),
    ensures
        forall|a: u64|
            is_pointer(snap, a as int, n) ==> #[trigger] pm.fwd_maps(
                a,
                spec_word_at(snap, a as int, n),
            ),
        forall|i: int, j: int| 0 <= i < j < pm.map@.len() ==> pm.map@[i].0 != pm.map@[j].0,
{
}

/// Law: inverse-map transposition — the forward map holds `(k, v)` exactly
/// when `k` stands under `v` in the inverse map.
pub proof fn lemma_inverse_transpose(pm: PointerMap)
    requires
        pm.wf(),
    ensures
        forall|k: u64, v: u64| #[trigger] pm.fwd_maps(k, v) <==> #[trigger] pm.inv_contains(v, k),
{
}

/// Every step offset lies in the window `[-lrange, +urange]`.
pub open spec fn steps_in_window(steps: Seq<(u64, i64)>, lrange: u64, urange: u64) -> bool {
    forall|i: int|
        0 <= i < steps.len() ==> -(lrange as int) <= (#[trigger] steps[i]).1 <= urange as int
}

/// Traversing the chain from step `i` at node `cur` reaches `fin`: each
/// step's address is what the forward map stores at the current node, and
/// adding the step's offset gives the next node.
pub open spec fn chain_resolves(
    pm: PointerMap,
    steps: Seq<(u64, i64)>,
    i: int,
    cur: u64,
    fin: u64,
) -> bool
    decreases steps.len() - i,
{
    if i >= steps.len() {
        cur == fin
    } else {
        &&& pm.fwd_maps(cur, steps[i].0)
        &&& 0 <= steps[i].0 + steps[i].1 <= u64::MAX
        &&& chain_resolves(pm, steps, i + 1, (steps[i].0 + steps[i].1) as u64, fin)
    }
}

/// A sound emitted chain: it is non-empty, its root is a start-point, every
/// offset lies in the window, and starting at the root anchor plus its
/// offset, dereferencing through the forward map and adding each offset in
/// turn reaches the chain's target in unchanged memory.
pub open spec fn chain_valid(
    pm: PointerMap,
    sp: Seq<u64>,
    lrange: u64,
    urange: u64,
    c: (u64, Seq<(u64, i64)>),
) -> bool {
    &&& c.1.len() >= 1
    &&& sp.contains(c.1[0].0)
    &&& steps_in_window(c.1, lrange, urange)
    &&& 0 <= c.1[0].0 + c.1[0].1 <= u64::MAX
    &&& chain_resolves(pm, c.1, 1, (c.1[0].0 + c.1[0].1) as u64, c.0)
}

/// The walk's partial-path invariant: with path `tmp` standing at node
/// `addr`, popping the path's steps from the deepest one leads back to the
/// final target `fin`.
pub open spec fn path_ok(pm: PointerMap, tmp: Seq<(u64, i64)>, addr: u64, fin: u64) -> bool
    decreases tmp.len(),
{
    if tmp.len() == 0 {
        addr == fin
    } else {
        &&& pm.fwd_maps(addr, tmp.last().0)
        &&& 0 <= tmp.last().0 + tmp.last().1 <= u64::MAX
        &&& path_ok(pm, tmp.drop_last(), (tmp.last().0 + tmp.last().1) as u64, fin)
    }
}

/// Shifting a resolving suffix into a longer step list keeps it resolving.
proof fn lemma_resolves_shift(
    pm: PointerMap,
    s1: Seq<(u64, i64)>,
    s2: Seq<(u64, i64)>,
    d: int,
    i: int,
    cur: u64,
    fin: u64,
)
    requires
        0 <= i,
        0 <= d,
        s2.len() == s1.len() + d,
        forall|j: int| i <= j < s1.len() ==> s2[j + d] == s1[j],
        chain_resolves(pm, s1, i, cur, fin),
    ensures
        chain_resolves(pm, s2, i + d, cur, fin),
    decreases s1.len() - i,
{
    if i < s1.len() {
        assert(s2[i + d] == s1[i]);
        lemma_resolves_shift(
            pm,
            s1,
            s2,
            d,
            i + 1,
            (s1[i].0 + s1[i].1) as u64,
            fin,
        );
    }
}

/// A valid partial path, extended by an anchor step at its node and
/// reversed, traverses back to the final target.
proof fn lemma_path_to_chain(pm: PointerMap, tmp: Seq<(u64, i64)>, addr: u64, fin: u64)
    requires
        path_ok(pm, tmp, addr, fin),
    ensures
        forall|head: (u64, i64)|
            chain_resolves(pm, #[trigger] tmp.push(head).reverse(), 1, addr, fin),
    decreases tmp.len(),
{
    assert forall|head: (u64, i64)|
        chain_resolves(pm, #[trigger] tmp.push(head).reverse(), 1, addr, fin) by {
        let rs = tmp.push(head).reverse();
        assert(rs.len() == tmp.len() + 1);
        assert(forall|j: int| 0 <= j < rs.len() ==> rs[j] == tmp.push(head)[tmp.len() - j]);
        if tmp.len() == 0 {
            assert(chain_resolves(pm, rs, 1, addr, fin));
        } else {
            let k = tmp.last().0;
            let o = tmp.last().1;
            let tmp2 = tmp.drop_last();
            lemma_path_to_chain(pm, tmp2, (k + o) as u64, fin);
            let rs2 = tmp2.push(head).reverse();
            assert(chain_resolves(pm, rs2, 1, (k + o) as u64, fin));
            assert(forall|j: int| 0 <= j < rs2.len() ==> rs2[j] == tmp2.push(head)[tmp2.len() - j]);
            assert forall|j: int| 1 <= j < rs2.len() implies rs[j + 1] == rs2[j] by {
                assert(rs2[j] == tmp2[tmp2.len() - j]);
                assert(rs[j + 1] == tmp[tmp.len() - j - 1]);
                assert(tmp2[tmp2.len() - j] == tmp[tmp.len() - 1 - j]);
            }
            lemma_resolves_shift(pm, rs2, rs, 1, 1, (k + o) as u64, fin);
            assert(rs[1] == tmp.last());
            assert(pm.fwd_maps(addr, rs[1].0));
            assert(chain_resolves(pm, rs, 2, (rs[1].0 + rs[1].1) as u64, fin));
        }
    }
}

/// The anchor the fold picks is an in-window start-point.
proof fn lemma_best_from_props(sp: Seq<u64>, addr: u64, hi: u64, i: int, cur: u64, lo: u64)
    requires
        sorted_strict(sp),
        0 <= i <= sp.len(),
        sp.contains(cur),
        lo <= cur <= hi,
        forall|k: int| i <= k < sp.len() ==> sp[k] >= lo,
    ensures
        sp.contains(best_from(sp, addr, hi, i, cur)),
        lo <= best_from(sp, addr, hi, i, cur) <= hi,
    decreases sp.len() - i,
{
    if 0 <= i && i < sp.len() && sp[i] <= hi {
        assert(sp.contains(sp[i]));
        if abs_diff(addr, sp[i]) < abs_diff(addr, cur) {
            lemma_best_from_props(sp, addr, hi, i + 1, sp[i], lo);
        } else {
            lemma_best_from_props(sp, addr, hi, i + 1, cur, lo);
        }
    }
}

/// The chosen anchor is an in-window start-point.
pub proof fn lemma_nearest_anchor_props(sp: Seq<u64>, addr: u64, lrange: u64, urange: u64)
    requires
        sorted_strict(sp),
    ensures
        match nearest_anchor(sp, addr, lrange, urange) {
            Some(e) => sp.contains(e) && win_lo(addr, urange) <= e <= win_hi(addr, lrange),
            None => true,
        },
{
    let lo = win_lo(addr, urange);
    let hi = win_hi(addr, lrange);
    lemma_lower_bound(sp, lo);
    let i0 = lower_bound(sp, lo);
    if i0 < sp.len() && sp[i0] <= hi {
        assert(sp.contains(sp[i0]));
        lemma_best_from_props(sp, addr, hi, i0 + 1, sp[i0], lo);
    }
}

/// The fold's result is minimal in absolute distance among the running
/// best and the remaining in-window anchors, ties resolved toward the
/// earlier (lower) anchor.
proof fn lemma_best_from_min(sp: Seq<u64>, addr: u64, hi: u64, i: int, cur: u64)
    requires
        sorted_strict(sp),
        0 <= i <= sp.len(),
        forall|k: int| i <= k < sp.len() ==> cur < #[trigger] sp[k],
    ensures
        abs_diff(addr, best_from(sp, addr, hi, i, cur)) <= abs_diff(addr, cur),
        abs_diff(addr, best_from(sp, addr, hi, i, cur)) == abs_diff(addr, cur) ==> best_from(
            sp,
            addr,
            hi,
            i,
            cur,
        ) == cur,
        forall|k: int|
            i <= k < sp.len() && #[trigger] sp[k] <= hi ==> abs_diff(
                addr,
                best_from(sp, addr, hi, i, cur),
            ) <= abs_diff(addr, sp[k]) && (abs_diff(addr, best_from(sp, addr, hi, i, cur))
                == abs_diff(addr, sp[k]) ==> best_from(sp, addr, hi, i, cur) <= sp[k]),
    decreases sp.len() - i,
{
    if 0 <= i && i < sp.len() && sp[i] <= hi {
        if abs_diff(addr, sp[i]) < abs_diff(addr, cur) {
            lemma_best_from_min(sp, addr, hi, i + 1, sp[i]);
        } else {
            lemma_best_from_min(sp, addr, hi, i + 1, cur);
        }
    }
}

/// Law: anchor selection — the chosen anchor minimises the absolute
/// distance to the node among every in-window start-point, and at equal
/// distance the lower anchor — the positive offset — wins; no anchor is
/// returned exactly when the window holds no start-point.
pub proof fn lemma_nearest_anchor_minimal(sp: Seq<u64>, addr: u64, lrange: u64, urange: u64)
    requires
        sorted_strict(sp),
    ensures
        match nearest_anchor(sp, addr, lrange, urange) {
            Some(e) => forall|j: int|
                0 <= j < sp.len() && win_lo(addr, urange) <= #[trigger] sp[j] <= win_hi(
                    addr,
                    lrange,
                ) ==> abs_diff(addr, e) <= abs_diff(addr, sp[j]) && (abs_diff(addr, e)
                    == abs_diff(addr, sp[j]) ==> e <= sp[j]),
            None => forall|j: int|
                0 <= j < sp.len() ==> !(win_lo(addr, urange) <= #[trigger] sp[j] <= win_hi(
                    addr,
                    lrange,
                )),
        },
{
    let lo = win_lo(addr, urange);
    let hi = win_hi(addr, lrange);
    lemma_lower_bound(sp, lo);
    let i0 = lower_bound(sp, lo);
    if i0 < sp.len() && sp[i0] <= hi {
        let e = best_from(sp, addr, hi, i0 + 1, sp[i0]);
        lemma_best_from_min(sp, addr, hi, i0 + 1, sp[i0]);
        assert forall|j: int|
            0 <= j < sp.len() && lo <= #[trigger] sp[j] <= hi implies abs_diff(addr, e)
            <= abs_diff(addr, sp[j]) && (abs_diff(addr, e) == abs_diff(addr, sp[j]) ==> e
            <= sp[j]) by {
            if j < i0 {
                assert(sp[j] < lo);
            }
        }
    } else {
        assert forall|j: int| 0 <= j < sp.len() implies !(lo <= #[trigger] sp[j] <= hi) by {
            if j >= i0 && i0 < sp.len() {
                if j > i0 {
                    assert(sp[i0] < sp[j]);
                }
            }
        }
    }
}

/// An address in the window of `addr` is reached from `addr` by a signed
/// offset in `[-lrange, +urange]` that neither saturates nor overflows.
proof fn lemma_window_offset(addr: u64, e: u64, lrange: u64, urange: u64)
    requires
        lrange <= i64::MAX,
        urange <= i64::MAX,
        win_lo(addr, urange) <= e <= win_hi(addr, lrange),
    ensures
        spec_signed_diff(addr, e) == addr - e,
        -(lrange as int) <= spec_signed_diff(addr, e) <= urange as int,
        e + spec_signed_diff(addr, e) == addr,
{
}

/// Soundness of one walk: every chain emitted from node `addr` with a valid
/// partial path is a valid chain.
proof fn lemma_walk_sound(
    pm: PointerMap,
    sp: Seq<u64>,
    addr: u64,
    lrange: u64,
    urange: u64,
    maxl: int,
    level: int,
    tmp: Seq<(u64, i64)>,
    fin: u64,
)
    requires
        pm.wf(),
        sorted_strict(sp),
        lrange <= i64::MAX,
        urange <= i64::MAX,
        path_ok(pm, tmp, addr, fin),
        steps_in_window(tmp, lrange, urange),
    ensures
        forall|c: (u64, Seq<(u64, i64)>)|
            walk_spec(pm.inv_seq(), sp, addr, lrange, urange, maxl, level, tmp, fin).contains(c)
                ==> chain_valid(pm, sp, lrange, urange, c),
    decreases maxl - level, 1int, 0int, 0int,
{
    let inv = pm.inv_seq();
    let head = anchor_chains(sp, addr, lrange, urange, tmp, fin);
    assert forall|c: (u64, Seq<(u64, i64)>)| head.contains(c) implies chain_valid(
        pm,
        sp,
        lrange,
        urange,
        c,
    ) by {
        let e = nearest_anchor(sp, addr, lrange, urange)->Some_0;
        lemma_nearest_anchor_props(sp, addr, lrange, urange);
        lemma_window_offset(addr, e, lrange, urange);
        let off = spec_signed_diff(addr, e);
        assert(c == (fin, tmp.push((e, off)).reverse()));
        let rs = tmp.push((e, off)).reverse();
        assert(forall|j: int| 0 <= j < rs.len() ==> rs[j] == tmp.push((e, off))[tmp.len() - j]);
        assert(rs[0] == (e, off));
        assert forall|i: int| 0 <= i < rs.len() implies -(lrange as int) <= (
        #[trigger] rs[i]).1 <= urange as int by {
            if i > 0 {
                assert(rs[i] == tmp[tmp.len() - i]);
            }
        }
        lemma_path_to_chain(pm, tmp, addr, fin);
        assert(chain_resolves(pm, rs, 1, addr, fin));
    }
    if level < maxl {
        lemma_walk_entries_sound(
            pm,
            sp,
            addr,
            lrange,
            urange,
            maxl,
            level,
            tmp,
            fin,
            ent_lower_bound(inv, win_lo(addr, urange)),
        );
        assert forall|c: (u64, Seq<(u64, i64)>)|
            walk_spec(inv, sp, addr, lrange, urange, maxl, level, tmp, fin).contains(
                c,
            ) implies chain_valid(pm, sp, lrange, urange, c) by {
            let w = walk_spec(inv, sp, addr, lrange, urange, maxl, level, tmp, fin);
            let rest = walk_entries(
                inv,
                sp,
                addr,
                lrange,
                urange,
                maxl,
                level,
                tmp,
                fin,
                ent_lower_bound(inv, win_lo(addr, urange)),
            );
            let idx = choose|idx: int| 0 <= idx < w.len() && w[idx] == c;
            if idx < head.len() {
                assert(head[idx] == c);
                assert(head.contains(c));
            } else {
                assert(rest[idx - head.len()] == c);
                assert(rest.contains(c));
            }
        }
    }
}

/// Soundness of the descent over the in-window inverse entries.
proof fn lemma_walk_entries_sound(
    pm: PointerMap,
    sp: Seq<u64>,
    addr: u64,
    lrange: u64,
    urange: u64,
    maxl: int,
    level: int,
    tmp: Seq<(u64, i64)>,
    fin: u64,
    ei: int,
)
    requires
        pm.wf(),
        sorted_strict(sp),
        lrange <= i64::MAX,
        urange <= i64::MAX,
        path_ok(pm, tmp, addr, fin),
        steps_in_window(tmp, lrange, urange),
        ent_lower_bound(pm.inv_seq(), win_lo(addr, urange)) <= ei,
    ensures
        forall|c: (u64, Seq<(u64, i64)>)|
            walk_entries(pm.inv_seq(), sp, addr, lrange, urange, maxl, level, tmp, fin, ei).contains(
                c,
            ) ==> chain_valid(pm, sp, lrange, urange, c),
    decreases maxl - level, 0int, pm.inv_seq().len() - ei + 1, 0int,
{
    let inv = pm.inv_seq();
    if 0 <= ei && ei < inv.len() && inv[ei].0 <= win_hi(addr, lrange) && level < maxl {
        lemma_walk_vec_sound(pm, sp, addr, lrange, urange, maxl, level, tmp, fin, ei, 0);
        lemma_walk_entries_sound(pm, sp, addr, lrange, urange, maxl, level, tmp, fin, ei + 1);
        assert forall|c: (u64, Seq<(u64, i64)>)|
            walk_entries(inv, sp, addr, lrange, urange, maxl, level, tmp, fin, ei).contains(
                c,
            ) implies chain_valid(pm, sp, lrange, urange, c) by {
            let a = walk_vec(inv, sp, addr, lrange, urange, maxl, level, tmp, fin, ei, 0);
            let b = walk_entries(inv, sp, addr, lrange, urange, maxl, level, tmp, fin, ei + 1);
            let idx = choose|idx: int| 0 <= idx < (a + b).len() && (a + b)[idx] == c;
            if idx < a.len() {
                assert(a[idx] == c);
                assert(a.contains(c));
            } else {
                assert(b[idx - a.len()] == c);
                assert(b.contains(c));
            }
        }
    }
}

/// Soundness of the descent through one inverse entry's positions.
proof fn lemma_walk_vec_sound(
    pm: PointerMap,
    sp: Seq<u64>,
    addr: u64,
    lrange: u64,
    urange: u64,
    maxl: int,
    level: int,
    tmp: Seq<(u64, i64)>,
    fin: u64,
    ei: int,
    vi: int,
)
    requires
        pm.wf(),
        sorted_strict(sp),
        lrange <= i64::MAX,
        urange <= i64::MAX,
        path_ok(pm, tmp, addr, fin),
        steps_in_window(tmp, lrange, urange),
        0 <= ei < pm.inv_seq().len(),
        ent_lower_bound(pm.inv_seq(), win_lo(addr, urange)) <= ei,
        pm.inv_seq()[ei].0 <= win_hi(addr, lrange),
    ensures
        forall|c: (u64, Seq<(u64, i64)>)|
            walk_vec(pm.inv_seq(), sp, addr, lrange, urange, maxl, level, tmp, fin, ei, vi).contains(
                c,
            ) ==> chain_valid(pm, sp, lrange, urange, c),
    decreases maxl - level, 0int, pm.inv_seq().len() - ei, pm.inv_seq()[ei].1.len() - vi,
{
    let inv = pm.inv_seq();
    if 0 <= vi && vi < inv[ei].1.len() && level < maxl {
        let k = inv[ei].0;
        let v = inv[ei].1[vi];
        let off = spec_signed_diff(addr, k);
        assert forall|i: int, j: int| 0 <= i < j < inv.len() implies inv[i].0 < inv[j].0 by {
            assert(inv[i].0 == pm.inverse_map@[i].0);
            assert(inv[j].0 == pm.inverse_map@[j].0);
        }
        lemma_ent_lower_bound(inv, win_lo(addr, urange));
        assert(k >= win_lo(addr, urange));
        lemma_window_offset(addr, k, lrange, urange);
        assert(pm.inv_contains(k, v)) by {
            assert(pm.inverse_map@[ei].0 == k);
            assert(pm.inverse_map@[ei].1@ == inv[ei].1);
            assert(pm.inverse_map@[ei].1@.contains(v));
        }
        assert(pm.fwd_maps(v, k));
        let tmp2 = tmp.push((k, off));
        assert(path_ok(pm, tmp2, v, fin)) by {
            assert(tmp2.last() == (k, off));
            assert(tmp2.drop_last() =~= tmp);
            assert(k + off == addr);
        }
        assert(steps_in_window(tmp2, lrange, urange)) by {
            assert forall|i: int|
                0 <= i < tmp2.len() implies -(lrange as int) <= (#[trigger] tmp2[i]).1
                <= urange as int by {
                if i < tmp.len() {
                    assert(tmp2[i] == tmp[i]);
                }
            }
        }
        lemma_walk_sound(pm, sp, v, lrange, urange, maxl, level + 1, tmp2, fin);
        lemma_walk_vec_sound(pm, sp, addr, lrange, urange, maxl, level, tmp, fin, ei, vi + 1);
        assert forall|c: (u64, Seq<(u64, i64)>)|
            walk_vec(inv, sp, addr, lrange, urange, maxl, level, tmp, fin, ei, vi).contains(
                c,
            ) implies chain_valid(pm, sp, lrange, urange, c) by {
            let a = walk_spec(inv, sp, v, lrange, urange, maxl, level + 1, tmp2, fin);
            let b = walk_vec(inv, sp, addr, lrange, urange, maxl, level, tmp, fin, ei, vi + 1);
            let idx = choose|idx: int| 0 <= idx < (a + b).len() && (a + b)[idx] == c;
            if idx < a.len() {
                assert(a[idx] == c);
                assert(a.contains(c));
            } else {
                assert(b[idx - a.len()] == c);
                assert(b.contains(c));
            }
        }
    }
}

/// Laws of the resolver, over the chains `find_matches_addrs` emits: every
/// chain's root is a start-point, every step offset lies in
/// `[-lrange, +urange]`, and traversing the chain — root anchor plus offset,
/// then repeatedly dereferencing through the forward map and adding the next
/// offset — reaches the chain's target.
pub proof fn lemma_resolver_sound(
    pm: PointerMap,
    sp: Seq<u64>,
    targets: Seq<u64>,
    lrange: u64,
    urange: u64,
    maxd: int,
)
    requires
        pm.wf(),
        sorted_strict(sp),
        lrange <= i64::MAX,
        urange <= i64::MAX,
    ensures
        forall|c: (u64, Seq<(u64, i64)>)|
            all_chains(pm.inv_seq(), sp, targets, lrange, urange, maxd).contains(c)
                ==> chain_valid(pm, sp, lrange, urange, c),
    decreases targets.len(),
{
    if targets.len() > 0 {
        let inv = pm.inv_seq();
        let t = targets[0];
        assert(path_ok(pm, Seq::empty(), t, t));
        lemma_walk_sound(pm, sp, t, lrange, urange, maxd, 1, Seq::empty(), t);
        lemma_resolver_sound(pm, sp, targets.drop_first(), lrange, urange, maxd);
        assert forall|c: (u64, Seq<(u64, i64)>)|
            all_chains(inv, sp, targets, lrange, urange, maxd).contains(c) implies chain_valid(
            pm,
            sp,
            lrange,
            urange,
            c,
        ) by {
            let a = walk_spec(inv, sp, t, lrange, urange, maxd, 1, Seq::empty(), t);
            let b = all_chains(inv, sp, targets.drop_first(), lrange, urange, maxd);
            let idx = choose|idx: int| 0 <= idx < (a + b).len() && (a + b)[idx] == c;
            if idx < a.len() {
                assert(a[idx] == c);
                assert(a.contains(c));
            } else {
                assert(b[idx - a.len()] == c);
                assert(b.contains(c));
            }
        }
    }
}

/// Concatenation of sequences is associative in the shape the walk uses.
proof fn lemma_seq_add_assoc3<T>(a: Seq<T>, b: Seq<T>, c: Seq<T>, d: Seq<T>)
    ensures
        ((a + b) + c) + d == (a + ((b + c) + d)),
        (a + b) + (c + d) == ((a + b) + c) + d,
{
    assert(((a + b) + c) + d =~= (a + ((b + c) + d)));
    assert((a + b) + (c + d) =~= ((a + b) + c) + d);
}

impl Default for PointerMap {
    /// An empty pointer map.
    fn default() -> (r: Self)
        ensures
            r.wf(),
            r.map@.len() == 0,
            r.inverse_map@.len() == 0,
            r.pointers@.len() == 0,
    {
        let r = PointerMap { map: Vec::new(), inverse_map: Vec::new(), pointers: Vec::new() };
        proof {
            assert forall|k: u64, v: u64| #[trigger]
                r.fwd_maps(k, v) <==> #[trigger] r.inv_contains(v, k) by {}
        }
        r
    }
}

} // verus!
