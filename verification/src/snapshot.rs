//! In-memory model of the target's mapped address space: an ordered list of
//! mapped byte ranges with their contents, as obtained from the memory
//! provider. All scanning and map-building passes work over a snapshot.
use vstd::prelude::*;

verus! {

/// One mapped range of the target's address space together with its bytes.
pub struct Page {
    pub base: u64,
    pub bytes: Vec<u8>,
}

impl Page {
    /// One past the last address of the page.
    pub open spec fn end(self) -> int {
        self.base + self.bytes@.len()
    }

    /// Whether address `a` falls inside this page.
    pub open spec fn covers(self, a: int) -> bool {
        self.base <= a < self.end()
    }
}

/// The byte visible at address `a` given an ordered page list: the byte of the
/// covering page, or zero where no page covers `a` (unmapped holes read as
/// zeros, mirroring a tolerated partial read).
pub open spec fn byte_in(pages: Seq<Page>, a: int) -> u8
    decreases pages.len(),
{
    if pages.len() == 0 {
        0u8
    } else if pages[0].covers(a) {
        pages[0].bytes@[a - pages[0].base]
    } else {
        byte_in(pages.drop_first(), a)
    }
}

/// Whether some page of the list covers address `a`.
pub open spec fn mapped_in(pages: Seq<Page>, a: int) -> bool {
    exists|i: int| 0 <= i < pages.len() && #[trigger] pages[i].covers(a)
}

/// A snapshot of the target's memory: the coalesced page map with the bytes
/// read for each range.
pub struct Snapshot {
    pub pages: Vec<Page>,
}

impl Snapshot {
    /// Pages are ordered by base address, pairwise disjoint, and each lies
    /// entirely below `2^64`.
    pub open spec fn wf(self) -> bool {
        &&& forall|i: int|
            0 <= i < self.pages@.len() ==> #[trigger] self.pages@[i].end() <= u64::MAX + 1
        &&& forall|i: int, j: int|
            0 <= i < j < self.pages@.len() ==> #[trigger] self.pages@[i].end()
                <= #[trigger] self.pages@[j].base
    }

    /// The byte visible at address `a`.
    pub open spec fn byte_at(self, a: int) -> u8 {
        byte_in(self.pages@, a)
    }

    /// Whether address `a` lies inside some mapped range.
    pub open spec fn mapped(self, a: int) -> bool {
        mapped_in(self.pages@, a)
    }

    /// The page map as `(base, length)` entries.
    pub open spec fn ranges(self) -> Seq<(u64, u64)> {
        self.pages@.map(|i: int, p: Page| (p.base, p.bytes@.len() as u64))
    }

    /// An empty snapshot: nothing is mapped.
    pub fn new() -> (r: Snapshot)
        ensures
            r.wf(),
            r.pages@.len() == 0,
    {
        Snapshot { pages: Vec::new() }
    }

    /// Appends a mapped range. Ranges must be added in ascending order,
    /// disjoint from what is already present.
    pub fn push_page(&mut self, base: u64, bytes: Vec<u8>)
        requires
            old(self).wf(),
            old(self).pages@.len() > 0 ==> old(self).pages@.last().end() <= base,
            base + bytes@.len() <= u64::MAX + 1,
        ensures
            final(self).wf(),
            final(self).pages@ == old(self).pages@.push(
                Page { base, bytes: bytes },
            ),
    {
        let p = Page { base, bytes };
        self.pages.push(p);
        proof {
            let s = self.pages@;
            assert forall|i: int, j: int| 0 <= i < j < s.len() implies #[trigger] s[i].end()
                <= #[trigger] s[j].base by {
                if j < s.len() - 1 {
                } else {
                    assert(s[i].end() <= s[s.len() - 2].end());
                }
            }
        }
    }

    /// Looks up the page covering `a`, if any.
    pub fn find_page(&self, a: u64) -> (r: Option<usize>)
        requires
            self.wf(),
        ensures
            match r {
                Some(i) => i < self.pages@.len() && self.pages@[i as int].covers(a as int),
                None => !self.mapped(a as int),
            },
    {
        let n: usize = self.pages.len();
        let mut i: usize = 0;
        while i < n
            invariant
                i <= n,
                n == self.pages@.len(),
                self.wf(),
                forall|k: int| 0 <= k < i ==> !(#[trigger] self.pages@[k].covers(a as int)),
            decreases n - i,
        {
            let p: &Page = &self.pages[i];
            if p.base <= a && (a - p.base) < p.bytes.len() as u64 {
                return Some(i);
            }
            i = i + 1;
        }
        None
    }

    /// The byte visible at `a`, as executable code.
    pub fn read_byte(&self, a: u64) -> (r: u8)
        requires
            self.wf(),
        ensures
            r == self.byte_at(a as int),
    {
        match self.find_page(a) {
            Some(i) => {
                let p: &Page = &self.pages[i];
                let l: usize = p.bytes.len();
                assert(a - p.base < l);
                let off: usize = (a - p.base) as usize;
                let r = p.bytes[off];
                proof {
                    lemma_byte_in_covering(self.pages@, a as int, i as int);
                }
                r
            },
            None => {
                proof {
                    lemma_byte_in_unmapped(self.pages@, a as int);
                }
                0
            },
        }
    }

    /// Reads `n` bytes starting at `addr`; bytes outside any mapped range
    /// (or beyond the top of the address space) read as zeros.
    pub fn read_padded(&self, addr: u64, n: usize) -> (r: Vec<u8>)
        requires
            self.wf(),
        ensures
            r@.len() == n,
            forall|j: int| 0 <= j < n ==> r@[j] == self.byte_at(addr + j),
    {
        let mut out: Vec<u8> = Vec::new();
        let mut j: usize = 0;
        while j < n
            invariant
                j <= n,
                self.wf(),
                out@.len() == j,
                forall|k: int| 0 <= k < j ==> out@[k] == self.byte_at(addr + k),
            decreases n - j,
        {
            if u64::MAX - addr >= j as u64 {
                out.push(self.read_byte(addr + j as u64));
            } else {
                proof {
                    lemma_byte_in_high(self.pages@, addr + j);
                }
                out.push(0);
            }
            j = j + 1;
        }
        out
    }
}

impl Snapshot {
    /// Overwrites the single byte at `a` where mapped; returns whether `a`
    /// was mapped. The page layout is unchanged either way.
    pub fn poke(&mut self, a: u64, b: u8) -> (ok: bool)
        requires
            old(self).wf(),
        ensures
            final(self).wf(),
            final(self).pages@.len() == old(self).pages@.len(),
            forall|i: int|
                0 <= i < old(self).pages@.len() ==> #[trigger] final(self).pages@[i].base == old(
                    self,
                ).pages@[i].base && final(self).pages@[i].bytes@.len() == old(
                    self,
                ).pages@[i].bytes@.len(),
            forall|x: int| #[trigger] final(self).mapped(x) <==> old(self).mapped(x),
            ok <==> old(self).mapped(a as int),
            forall|x: int|
                #![trigger final(self).byte_at(x)]
                final(self).byte_at(x) == if x == a && old(self).mapped(x) {
                    b
                } else {
                    old(self).byte_at(x)
                },
    {
        let ghost pre = *self;
        match self.find_page(a) {
            Some(i) => {
                proof {
                    assert(self.mapped(a as int));
                }
                let ghost prepages = self.pages@;
                let p: &mut Page = &mut self.pages[i];
                let l: usize = p.bytes.len();
                assert(a - p.base < l);
                let off: usize = (a - p.base) as usize;
                p.bytes.set(off, b);
                assert(self.pages@[i as int].base == prepages[i as int].base);
                assert(self.pages@[i as int].bytes@ == prepages[i as int].bytes@.update(
                    a - prepages[i as int].base,
                    b,
                ));
                assert(forall|k: int|
                    0 <= k < prepages.len() && k != i ==> self.pages@[k] == prepages[k]);
                proof {
                    lemma_write_one(pre, *self, i as int, a as int, b);
                }
                true
            },
            None => {
                proof {
                    if self.mapped(a as int) {
                    }
                }
                false
            },
        }
    }

    /// Overwrites target memory at `addr` with `data`, touching only mapped
    /// bytes. Returns whether every byte of `data` fell inside a mapped
    /// range; unmapped bytes are skipped, surfacing as a failed write.
    pub fn write(&mut self, addr: u64, data: &[u8]) -> (ok: bool)
        requires
            old(self).wf(),
        ensures
            final(self).wf(),
            final(self).pages@.len() == old(self).pages@.len(),
            forall|i: int|
                0 <= i < old(self).pages@.len() ==> #[trigger] final(self).pages@[i].base == old(
                    self,
                ).pages@[i].base && final(self).pages@[i].bytes@.len() == old(
                    self,
                ).pages@[i].bytes@.len(),
            forall|x: int|
                #![trigger final(self).byte_at(x)]
                final(self).byte_at(x) == if addr <= x < addr + data@.len() && old(self).mapped(x) {
                    data@[x - addr]
                } else {
                    old(self).byte_at(x)
                },
            ok <==> (forall|j: int| 0 <= j < data@.len() ==> #[trigger] old(self).mapped(addr + j)),
    {
        let n: usize = data.len();
        let mut j: usize = 0;
        let mut ok: bool = true;
        while j < n
            invariant
                j <= n,
                n == data@.len(),
                self.wf(),
                self.pages@.len() == old(self).pages@.len(),
                forall|i: int|
                    0 <= i < old(self).pages@.len() ==> #[trigger] self.pages@[i].base == old(
                        self,
                    ).pages@[i].base && self.pages@[i].bytes@.len() == old(
                        self,
                    ).pages@[i].bytes@.len(),
                forall|x: int| #[trigger] self.mapped(x) <==> old(self).mapped(x),
                forall|x: int|
                    #![trigger self.byte_at(x)]
                    self.byte_at(x) == if addr <= x < addr + j && old(self).mapped(x) {
                        data@[x - addr]
                    } else {
                        old(self).byte_at(x)
                    },
                ok <==> (forall|k: int| 0 <= k < j ==> #[trigger] old(self).mapped(addr + k)),
            decreases n - j,
        {
            if u64::MAX - addr >= j as u64 {
                let a: u64 = addr + j as u64;
                let hit: bool = self.poke(a, data[j]);
                if !hit {
                    ok = false;
                }
            } else {
                proof {
                    lemma_byte_in_high(self.pages@, addr + j);
                    assert(!self.mapped(addr + j));
                }
                ok = false;
            }
            j = j + 1;
        }
        ok
    }
}

/// Updating one byte of the covering page changes exactly that address's
/// visible byte and preserves well-formedness and the page layout.
proof fn lemma_write_one(pre: Snapshot, post: Snapshot, i: int, a: int, v: u8)
    requires
        pre.wf(),
        0 <= i < pre.pages@.len(),
        pre.pages@[i].covers(a),
        post.pages@.len() == pre.pages@.len(),
        forall|k: int| 0 <= k < pre.pages@.len() && k != i ==> post.pages@[k] == pre.pages@[k],
        post.pages@[i].base == pre.pages@[i].base,
        post.pages@[i].bytes@ == pre.pages@[i].bytes@.update(a - pre.pages@[i].base, v),
    ensures
        post.wf(),
        post.pages@.len() == pre.pages@.len(),
        forall|k: int|
            0 <= k < pre.pages@.len() ==> #[trigger] post.pages@[k].base == pre.pages@[k].base
                && post.pages@[k].bytes@.len() == pre.pages@[k].bytes@.len(),
        forall|x: int| #[trigger] post.mapped(x) <==> pre.mapped(x),
        post.byte_at(a) == v,
        forall|x: int| x != a ==> #[trigger] post.byte_at(x) == pre.byte_at(x),
{
    assert forall|x: int| #[trigger] post.mapped(x) implies pre.mapped(x) by {
        let k = choose|k: int| 0 <= k < post.pages@.len() && #[trigger] post.pages@[k].covers(x);
        assert(pre.pages@[k].covers(x));
    }
    assert forall|x: int| #[trigger] pre.mapped(x) implies post.mapped(x) by {
        let k = choose|k: int| 0 <= k < pre.pages@.len() && #[trigger] pre.pages@[k].covers(x);
        assert(post.pages@[k].covers(x));
    }
    assert(post.pages@[i].covers(a));
    lemma_byte_in_covering(post.pages@, a, i);
    assert forall|x: int| x != a implies #[trigger] post.byte_at(x) == pre.byte_at(x) by {
        if pre.mapped(x) {
            let k = choose|k: int| 0 <= k < pre.pages@.len() && #[trigger] pre.pages@[k].covers(x);
            lemma_byte_in_covering(pre.pages@, x, k);
            lemma_byte_in_covering(post.pages@, x, k);
        } else {
            assert(!post.mapped(x)) by {
                if post.mapped(x) {
                    let k = choose|k: int|
                        0 <= k < post.pages@.len() && #[trigger] post.pages@[k].covers(x);
                    assert(pre.pages@[k].covers(x));
                }
            }
            lemma_byte_in_unmapped(pre.pages@, x);
            lemma_byte_in_unmapped(post.pages@, x);
        }
    }
}

/// One past the last address of a `(base, length)` range.
pub open spec fn range_end(r: (u64, u64)) -> int {
    r.0 + r.1
}

/// Ranges are ordered and disjoint, each ending at or below `u64::MAX`.
pub open spec fn ranges_ordered(s: Seq<(u64, u64)>) -> bool {
    &&& forall|i: int| 0 <= i < s.len() ==> #[trigger] range_end(s[i]) <= u64::MAX
    &&& forall|i: int| 0 <= i && i + 1 < s.len() ==> #[trigger] range_end(s[i]) <= s[i + 1].0
}

/// Folds one more range into a coalesced list: merge it into the last entry
/// where the separation is under `gap`, else start a new entry.
pub open spec fn coalesce_step(acc: Seq<(u64, u64)>, r: (u64, u64), gap: u64) -> Seq<(u64, u64)> {
    if acc.len() == 0 {
        seq![r]
    } else {
        let last = acc.last();
        if r.0 - range_end(last) < gap {
            acc.update(acc.len() - 1, (last.0, (range_end(r) - last.0) as u64))
        } else {
            acc.push(r)
        }
    }
}

/// The coalesced page map: ranges separated by less than `gap` are reported
/// as a single entry spanning both (holes included).
pub open spec fn coalesce_spec(s: Seq<(u64, u64)>, gap: u64) -> Seq<(u64, u64)>
    decreases s.len(),
{
    if s.len() == 0 {
        Seq::empty()
    } else {
        coalesce_step(coalesce_spec(s.drop_last(), gap), s.last(), gap)
    }
}

/// Coalescing an ordered range list yields an ordered list in which no two
/// adjacent entries are separated by less than `gap`, ending where the
/// input ends.
pub proof fn lemma_coalesce_props(s: Seq<(u64, u64)>, gap: u64)
    requires
        ranges_ordered(s),
    ensures
        ranges_ordered(coalesce_spec(s, gap)),
        forall|i: int|
            0 <= i && i + 1 < coalesce_spec(s, gap).len() ==> coalesce_spec(s, gap)[i + 1].0
                - #[trigger] range_end(coalesce_spec(s, gap)[i]) >= gap,
        coalesce_spec(s, gap).len() == 0 <==> s.len() == 0,
        s.len() > 0 ==> range_end(coalesce_spec(s, gap).last()) == range_end(s.last())
            && coalesce_spec(s, gap).last().0 <= s.last().0,
    decreases s.len(),
{
    if s.len() > 0 {
        let s1 = s.drop_last();
        assert(ranges_ordered(s1)) by {
            assert(forall|i: int| 0 <= i < s1.len() ==> s1[i] == s[i]);
        }
        lemma_coalesce_props(s1, gap);
        let c1 = coalesce_spec(s1, gap);
        let r = s.last();
        let c = coalesce_spec(s, gap);
        if c1.len() == 0 {
        } else {
            assert(range_end(s1.last()) <= r.0) by {
                assert(s1.last() == s[s.len() - 2]);
            }
            let last = c1.last();
            if r.0 - range_end(last) < gap {
                assert(c == c1.update(c1.len() - 1, (last.0, (range_end(r) - last.0) as u64)));
                assert(forall|i: int| 0 <= i < c.len() - 1 ==> c[i] == c1[i]);
                assert(range_end(c.last()) == range_end(r));
            } else {
                assert(c == c1.push(r));
                assert(forall|i: int| 0 <= i < c.len() - 1 ==> c[i] == c1[i]);
            }
        }
    }
}

impl Snapshot {
    /// Coalesces an ordered page map: ranges closer than `gap` are merged
    /// into a single entry, as the memory provider reports them.
    pub fn coalesce(ranges: &Vec<(u64, u64)>, gap: u64) -> (out: Vec<(u64, u64)>)
        requires
            ranges_ordered(ranges@),
        ensures
            out@ == coalesce_spec(ranges@, gap),
            ranges_ordered(out@),
            forall|i: int|
                0 <= i && i + 1 < out@.len() ==> out@[i + 1].0 - #[trigger] range_end(out@[i])
                    >= gap,
    {
        let n: usize = ranges.len();
        let mut out: Vec<(u64, u64)> = Vec::new();
        let mut i: usize = 0;
        while i < n
            invariant
                i <= n,
                n == ranges@.len(),
                ranges_ordered(ranges@),
                out@ == coalesce_spec(ranges@.take(i as int), gap),
            decreases n - i,
        {
            let ghost prefix = ranges@.take(i as int);
            proof {
                assert(ranges_ordered(prefix)) by {
                    assert(forall|k: int| 0 <= k < prefix.len() ==> prefix[k] == ranges@[k]);
                }
                lemma_coalesce_props(prefix, gap);
                assert(range_end(ranges@[i as int]) <= u64::MAX);
                assert(ranges@.take(i + 1).drop_last() =~= prefix);
                assert(ranges@.take(i + 1).last() == ranges@[i as int]);
            }
            let r: (u64, u64) = ranges[i];
            if out.len() == 0 {
                out.push(r);
                proof {
                    assert(out@ =~= coalesce_spec(ranges@.take(i + 1), gap));
                }
            } else {
                let li: usize = out.len() - 1;
                let last: (u64, u64) = out[li];
                proof {
                    if i > 0 {
                        assert(prefix.last() == ranges@[i - 1]);
                        assert(range_end(ranges@[i - 1]) <= ranges@[i as int].0);
                    }
                }
                let end: u64 = last.0 + last.1;
                if r.0 - end < gap {
                    let e2: u64 = r.0 + r.1;
                    let merged: (u64, u64) = (last.0, e2 - last.0);
                    out.set(li, merged);
                    proof {
                        assert(out@ =~= coalesce_spec(ranges@.take(i + 1), gap));
                    }
                } else {
                    out.push(r);
                    proof {
                        assert(out@ =~= coalesce_spec(ranges@.take(i + 1), gap));
                    }
                }
            }
            i = i + 1;
        }
        proof {
            assert(ranges@.take(n as int) =~= ranges@);
            lemma_coalesce_props(ranges@, gap);
        }
        out
    }
}

/// In a well-ordered page list, the byte at an address covered by page `i`
/// is that page's byte.
pub proof fn lemma_byte_in_covering(pages: Seq<Page>, a: int, i: int)
    requires
        forall|x: int, y: int|
            0 <= x < y < pages.len() ==> #[trigger] pages[x].end() <= #[trigger] pages[y].base,
        0 <= i < pages.len(),
        pages[i].covers(a),
    ensures
        byte_in(pages, a) == pages[i].bytes@[a - pages[i].base],
    decreases pages.len(),
{
    if i == 0 {
    } else {
        assert(pages[0].end() <= pages[i].base);
        assert(!pages[0].covers(a));
        lemma_byte_in_covering(pages.drop_first(), a, i - 1);
    }
}

/// The byte at an address no page covers is zero.
pub proof fn lemma_byte_in_unmapped(pages: Seq<Page>, a: int)
    requires
        !mapped_in(pages, a),
    ensures
        byte_in(pages, a) == 0,
    decreases pages.len(),
{
    if pages.len() > 0 {
        assert(!pages[0].covers(a));
        assert(forall|i: int|
            0 <= i < pages.drop_first().len() ==> #[trigger] pages.drop_first()[i]
                == pages[i + 1]);
        lemma_byte_in_unmapped(pages.drop_first(), a);
    }
}

/// Addresses above the top of the address space are unmapped in a
/// well-formed page list.
pub proof fn lemma_byte_in_high(pages: Seq<Page>, a: int)
    requires
        forall|i: int| 0 <= i < pages.len() ==> #[trigger] pages[i].end() <= u64::MAX + 1,
        a > u64::MAX,
    ensures
        !mapped_in(pages, a),
        byte_in(pages, a) == 0,
{
    assert forall|i: int| 0 <= i < pages.len() implies !(#[trigger] pages[i].covers(a)) by {}
    lemma_byte_in_unmapped(pages, a);
}

} // verus!
