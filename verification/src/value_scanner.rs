//! Staged linear scan for a byte pattern over the target's mapped pages:
//! a first pass sweeps every mapped range, later passes narrow the match
//! set by re-reading each previously matched address.
use crate::snapshot::Snapshot;
use vstd::prelude::*;

verus! {

/// The bytes visible at `a` equal `needle`.
pub open spec fn bytes_match(snap: Snapshot, a: int, needle: Seq<u8>) -> bool {
    forall|j: int| 0 <= j < needle.len() ==> #[trigger] snap.byte_at(a + j) == needle[j]
}

/// A first-scan match: the address lies in a mapped range and holds the
/// needle's bytes.
pub open spec fn is_match(snap: Snapshot, a: int, needle: Seq<u8>) -> bool {
    snap.mapped(a) && bytes_match(snap, a, needle)
}

/// Strictly ascending address list.
pub open spec fn sorted_strict(s: Seq<u64>) -> bool {
    forall|i: int, j: int| 0 <= i < j < s.len() ==> s[i] < s[j]
}

/// Addresses already swept once the scan stands at offset `o` of page `pi`:
/// everything in an earlier page, and the first `o` offsets of page `pi`.
pub open spec fn swept(snap: Snapshot, pi: int, o: int, a: int) -> bool {
    (exists|k: int| 0 <= k < pi && #[trigger] snap.pages@[k].covers(a)) || (0 <= pi
        < snap.pages@.len() && snap.pages@[pi].base <= a < snap.pages@[pi].base + o)
}

/// The value scanner: the current match set and the page map cached by the
/// first scan.
pub struct ValueScanner {
    pub matches: Vec<u64>,
    pub mem_map: Vec<(u64, u64)>,
}

impl ValueScanner {
    /// The match set is kept strictly ascending.
    pub open spec fn wf(self) -> bool {
        sorted_strict(self.matches@)
    }

    /// Clears the match set and the cached page map.
    pub fn reset(&mut self)
        ensures
            final(self).wf(),
            final(self).matches@.len() == 0,
            final(self).mem_map@.len() == 0,
    {
        self.matches.clear();
        self.mem_map.clear();
    }

    /// The current match set: every address at which the most recent scan
    /// found the needle, in ascending order.
    pub fn matches(&self) -> (r: &Vec<u64>)
        ensures
            r@ == self.matches@,
    {
        &self.matches
    }
}

impl Default for ValueScanner {
    /// A scanner with no matches and no cached page map.
    fn default() -> (r: Self)
        ensures
            r.wf(),
            r.matches@.len() == 0,
            r.mem_map@.len() == 0,
    {
        ValueScanner { matches: Vec::new(), mem_map: Vec::new() }
    }
}

/// Compares the bytes visible at `a` with `needle`.
fn bytes_match_at(snap: &Snapshot, a: u64, needle: &[u8]) -> (r: bool)
    requires
        snap.wf(),
    ensures
        r == bytes_match(*snap, a as int, needle@),
{
    let n: usize = needle.len();
    let mut j: usize = 0;
    while j < n
        invariant
            j <= n,
            n == needle@.len(),
            snap.wf(),
            forall|k: int| 0 <= k < j ==> #[trigger] snap.byte_at(a + k) == needle@[k],
        decreases n - j,
    {
        let b: u8 = if u64::MAX - a >= j as u64 {
            snap.read_byte(a + j as u64)
        } else {
            proof {
                crate::snapshot::lemma_byte_in_high(snap.pages@, a + j);
            }
            0
        };
        if b != needle[j] {
            assert(snap.byte_at(a + j) != needle@[j as int]);
            return false;
        }
        j = j + 1;
    }
    true
}

impl ValueScanner {
    /// Scans for the encoded value `data`. With an empty match set this is a
    /// first scan: the page map is cached and every mapped address holding
    /// the needle is recorded, in ascending order. Otherwise it is a
    /// narrowing scan: exactly the previous matches that still hold the
    /// needle are retained.
    pub fn scan_for(&mut self, snap: &Snapshot, data: &[u8])
        requires
            old(self).wf(),
            snap.wf(),
            data@.len() >= 1,
        ensures
            final(self).wf(),
            old(self).matches@.len() == 0 ==> final(self).mem_map@ == snap.ranges(),
            old(self).matches@.len() == 0 ==> forall|a: u64|
                #[trigger] final(self).matches@.contains(a) <==> is_match(*snap, a as int, data@),
            old(self).matches@.len() > 0 ==> final(self).mem_map@ == old(self).mem_map@,
            old(self).matches@.len() > 0 ==> forall|a: u64|
                #[trigger] final(self).matches@.contains(a) <==> old(self).matches@.contains(a)
                    && bytes_match(*snap, a as int, data@),
    {
        if self.matches.len() == 0 {
            self.first_scan(snap, data);
        } else {
            self.narrow_scan(snap, data);
        }
    }

    /// First pass: sweep every mapped range for the needle.
    fn first_scan(&mut self, snap: &Snapshot, data: &[u8])
        requires
            old(self).matches@.len() == 0,
            snap.wf(),
            data@.len() >= 1,
        ensures
            final(self).wf(),
            final(self).mem_map@ == snap.ranges(),
            forall|a: u64|
                #[trigger] final(self).matches@.contains(a) <==> is_match(*snap, a as int, data@),
    {
        let np: usize = snap.pages.len();
        let mut mm: Vec<(u64, u64)> = Vec::new();
        let mut pi: usize = 0;
        while pi < np
            invariant
                pi <= np,
                np == snap.pages@.len(),
                mm@.len() == pi,
                forall|k: int|
                    0 <= k < pi ==> #[trigger] mm@[k] == (
                    snap.pages@[k].base,
                    snap.pages@[k].bytes@.len() as u64,
                ),
            decreases np - pi,
        {
            let p = &snap.pages[pi];
            mm.push((p.base, p.bytes.len() as u64));
            pi = pi + 1;
        }
        proof {
            assert(mm@ =~= snap.ranges());
        }
        self.mem_map = mm;

        let mut pi: usize = 0;
        while pi < np
            invariant
                pi <= np,
                np == snap.pages@.len(),
                snap.wf(),
                data@.len() >= 1,
                self.wf(),
                self.mem_map@ == snap.ranges(),
                forall|a: u64| #[trigger]
                    self.matches@.contains(a) <==> is_match(*snap, a as int, data@) && swept(
                        *snap,
                        pi as int,
                        0,
                        a as int,
                    ),
                forall|m: int|
                    0 <= m < self.matches@.len() ==> pi < np ==> #[trigger] self.matches@[m]
                        < snap.pages@[pi as int].base,
            decreases np - pi,
        {
            let base: u64 = snap.pages[pi].base;
            let plen: usize = snap.pages[pi].bytes.len();
            proof {
                assert forall|a: u64| #[trigger]
                    self.matches@.contains(a) <==> is_match(*snap, a as int, data@) && swept(
                        *snap,
                        pi as int,
                        0,
                        a as int,
                    ) by {}
            }
            let mut o: usize = 0;
            while o < plen
                invariant
                    o <= plen,
                    pi < np,
                    np == snap.pages@.len(),
                    snap.wf(),
                    data@.len() >= 1,
                    self.wf(),
                    self.mem_map@ == snap.ranges(),
                    base == snap.pages@[pi as int].base,
                    plen == snap.pages@[pi as int].bytes@.len(),
                    forall|a: u64| #[trigger]
                        self.matches@.contains(a) <==> is_match(*snap, a as int, data@) && swept(
                            *snap,
                            pi as int,
                            o as int,
                            a as int,
                        ),
                    forall|m: int|
                        0 <= m < self.matches@.len() ==> #[trigger] self.matches@[m] < base + o,
                decreases plen - o,
            {
                let a: u64 = base + o as u64;
                proof {
                    assert(snap.pages@[pi as int].covers(a as int));
                    assert(snap.mapped(a as int));
                }
                if bytes_match_at(snap, a, data) {
                    let ghost prev = self.matches@;
                    self.matches.push(a);
                    proof {
                        assert(is_match(*snap, a as int, data@));
                        assert(self.matches@ == prev.push(a));
                        assert(swept(*snap, pi as int, o + 1, a as int));
                        assert forall|x: u64| #[trigger]
                            self.matches@.contains(x) <==> is_match(*snap, x as int, data@)
                                && swept(*snap, pi as int, o + 1, x as int) by {
                            lemma_swept_extend(*snap, pi as int, o as int, x as int);
                            if self.matches@.contains(x) {
                                let idx = choose|idx: int|
                                    0 <= idx < self.matches@.len() && self.matches@[idx] == x;
                                if idx < prev.len() {
                                    assert(prev[idx] == x);
                                    assert(prev.contains(x));
                                } else {
                                    assert(x == a);
                                }
                            }
                            if is_match(*snap, x as int, data@) && swept(
                                *snap,
                                pi as int,
                                o + 1,
                                x as int,
                            ) {
                                if swept(*snap, pi as int, o as int, x as int) {
                                    assert(prev.contains(x));
                                    let idx = choose|idx: int|
                                        0 <= idx < prev.len() && prev[idx] == x;
                                    assert(self.matches@[idx] == x);
                                } else {
                                    assert(x as int == base + o);
                                    assert(self.matches@[prev.len() as int] == a);
                                }
                            }
                        }
                    }
                } else {
                    proof {
                        assert forall|x: u64| #[trigger]
                            self.matches@.contains(x) <==> is_match(*snap, x as int, data@)
                                && swept(*snap, pi as int, o + 1, x as int) by {
                            lemma_swept_extend(*snap, pi as int, o as int, x as int);
                            if is_match(*snap, x as int, data@) && swept(
                                *snap,
                                pi as int,
                                o + 1,
                                x as int,
                            ) && !swept(*snap, pi as int, o as int, x as int) {
                                assert(x as int == base + o);
                                assert(x == a);
                                assert(!bytes_match(*snap, a as int, data@));
                            }
                        }
                    }
                }
                o = o + 1;
            }
            proof {
                assert forall|a: u64| #[trigger]
                    self.matches@.contains(a) <==> is_match(*snap, a as int, data@) && swept(
                        *snap,
                        pi + 1,
                        0,
                        a as int,
                    ) by {
                    lemma_swept_next_page(*snap, pi as int, a as int);
                }
                assert forall|m: int|
                    0 <= m < self.matches@.len() && pi + 1 < np implies #[trigger] self.matches@[m]
                    < snap.pages@[pi + 1].base by {
                    assert(snap.pages@[pi as int].end() <= snap.pages@[pi + 1].base);
                }
            }
            pi = pi + 1;
        }
        proof {
            assert forall|a: u64| #[trigger]
                self.matches@.contains(a) <==> is_match(*snap, a as int, data@) by {
                if is_match(*snap, a as int, data@) {
                    assert(snap.mapped(a as int));
                    let k = choose|k: int|
                        0 <= k < snap.pages@.len() && #[trigger] snap.pages@[k].covers(a as int);
                    assert(swept(*snap, np as int, 0, a as int));
                }
            }
        }
    }

    /// Narrowing pass: retain exactly the previous matches whose bytes still
    /// equal the needle.
    fn narrow_scan(&mut self, snap: &Snapshot, data: &[u8])
        requires
            old(self).wf(),
            snap.wf(),
            data@.len() >= 1,
        ensures
            final(self).wf(),
            final(self).mem_map@ == old(self).mem_map@,
            forall|a: u64|
                #[trigger] final(self).matches@.contains(a) <==> old(self).matches@.contains(a)
                    && bytes_match(*snap, a as int, data@),
    {
        let n: usize = self.matches.len();
        let mut kept: Vec<u64> = Vec::new();
        let ghost olds = self.matches@;
        let mut i: usize = 0;
        while i < n
            invariant
                i <= n,
                n == olds.len(),
                snap.wf(),
                sorted_strict(olds),
                self.matches@ == olds,
                sorted_strict(kept@),
                forall|a: u64| #[trigger]
                    kept@.contains(a) <==> (exists|k: int| 0 <= k < i && #[trigger] olds[k] == a)
                        && bytes_match(*snap, a as int, data@),
                forall|m: int|
                    0 <= m < kept@.len() ==> i < n ==> #[trigger] kept@[m] < olds[i as int],
            decreases n - i,
        {
            let a: u64 = self.matches[i];
            if bytes_match_at(snap, a, data) {
                let ghost prev = kept@;
                kept.push(a);
                proof {
                    assert(kept@ == prev.push(a));
                    assert forall|x: u64| #[trigger]
                        kept@.contains(x) <==> (exists|k: int|
                            0 <= k < i + 1 && #[trigger] olds[k] == x) && bytes_match(
                            *snap,
                            x as int,
                            data@,
                        ) by {
                        if kept@.contains(x) {
                            let idx = choose|idx: int|
                                0 <= idx < kept@.len() && kept@[idx] == x;
                            if idx < prev.len() {
                                assert(prev[idx] == x);
                                assert(prev.contains(x));
                            } else {
                                assert(x == a);
                                assert(olds[i as int] == x);
                            }
                        }
                        if (exists|k: int| 0 <= k < i + 1 && #[trigger] olds[k] == x)
                            && bytes_match(*snap, x as int, data@) {
                            let k = choose|k: int| 0 <= k < i + 1 && #[trigger] olds[k] == x;
                            if k < i {
                                assert(prev.contains(x));
                                let idx = choose|idx: int|
                                    0 <= idx < prev.len() && prev[idx] == x;
                                assert(kept@[idx] == x);
                            } else {
                                assert(kept@[prev.len() as int] == a);
                            }
                        }
                    }
                    assert forall|m: int|
                        0 <= m < kept@.len() && i + 1 < n implies #[trigger] kept@[m] < olds[i
                        + 1] by {
                        if m < kept@.len() - 1 {
                            assert(prev[m] == kept@[m]);
                        }
                        assert(olds[i as int] < olds[i + 1]);
                    }
                }
            } else {
                proof {
                    assert forall|x: u64| #[trigger]
                        kept@.contains(x) <==> (exists|k: int|
                            0 <= k < i + 1 && #[trigger] olds[k] == x) && bytes_match(
                            *snap,
                            x as int,
                            data@,
                        ) by {
                        if (exists|k: int| 0 <= k < i + 1 && #[trigger] olds[k] == x)
                            && bytes_match(*snap, x as int, data@) {
                            let k = choose|k: int| 0 <= k < i + 1 && #[trigger] olds[k] == x;
                            if k == i {
                                assert(x == a);
                                assert(false);
                            }
                        }
                    }
                }
            }
            i = i + 1;
        }
        self.matches = kept;
        proof {
            assert forall|a: u64|
                #[trigger] self.matches@.contains(a) <==> olds.contains(a) && bytes_match(
                    *snap,
                    a as int,
                    data@,
                ) by {
                if olds.contains(a) {
                    let k = choose|k: int| 0 <= k < olds.len() && olds[k] == a;
                    assert(0 <= k < n && olds[k] == a);
                }
            }
        }
    }
}

/// The narrowing relation: `new_m` holds exactly the members of `old_m`
/// whose bytes still equal the needle.
pub open spec fn narrowed(old_m: Seq<u64>, new_m: Seq<u64>, snap: Snapshot, needle: Seq<u8>) -> bool {
    forall|a: u64|
        #[trigger] new_m.contains(a) <==> old_m.contains(a) && bytes_match(snap, a as int, needle)
}

/// Law: a narrowing scan never grows the match set — every retained match
/// was already a match before.
pub proof fn lemma_narrowing_monotonic(
    old_m: Seq<u64>,
    new_m: Seq<u64>,
    snap: Snapshot,
    needle: Seq<u8>,
)
    requires
        narrowed(old_m, new_m, snap, needle),
    ensures
        forall|a: u64| #[trigger] new_m.contains(a) ==> old_m.contains(a),
{
}

/// Two strictly ascending address lists with the same members are equal.
pub proof fn lemma_sorted_unique_eq(s1: Seq<u64>, s2: Seq<u64>)
    requires
        sorted_strict(s1),
        sorted_strict(s2),
        forall|a: u64| #[trigger] s1.contains(a) <==> #[trigger] s2.contains(a),
    ensures
        s1 =~= s2,
    decreases s1.len(),
{
    if s1.len() == 0 {
        if s2.len() > 0 {
            assert(s2.contains(s2[0]));
            assert(s1.contains(s2[0]));
        }
    } else {
        assert(s1.contains(s1[0]));
        assert(s2.contains(s1[0]));
        let j = choose|j: int| 0 <= j < s2.len() && s2[j] == s1[0];
        assert(s2.contains(s2[0]));
        assert(s1.contains(s2[0]));
        let i = choose|i: int| 0 <= i < s1.len() && s1[i] == s2[0];
        assert(s2[0] <= s2[j]);
        assert(s1[0] <= s1[i]);
        assert(s1[0] == s2[0]);
        let t1 = s1.drop_first();
        let t2 = s2.drop_first();
        assert(sorted_strict(t1)) by {
            assert(forall|k: int| 0 <= k < t1.len() ==> t1[k] == s1[k + 1]);
        }
        assert(sorted_strict(t2)) by {
            assert(forall|k: int| 0 <= k < t2.len() ==> t2[k] == s2[k + 1]);
        }
        assert forall|a: u64| #[trigger] t1.contains(a) <==> #[trigger] t2.contains(a) by {
            lemma_tail_membership(s1, a);
            lemma_tail_membership(s2, a);
        }
        lemma_sorted_unique_eq(t1, t2);
        assert(s1 =~= seq![s1[0]] + t1);
        assert(s2 =~= seq![s2[0]] + t2);
    }
}

/// In a strictly ascending list, the tail holds exactly the members above
/// the head.
proof fn lemma_tail_membership(s: Seq<u64>, a: u64)
    requires
        sorted_strict(s),
        s.len() > 0,
    ensures
        s.drop_first().contains(a) <==> s.contains(a) && a > s[0],
{
    let t = s.drop_first();
    if t.contains(a) {
        let k = choose|k: int| 0 <= k < t.len() && t[k] == a;
        assert(s[k + 1] == a);
        assert(s[0] < s[k + 1]);
    }
    if s.contains(a) && a > s[0] {
        let k = choose|k: int| 0 <= k < s.len() && s[k] == a;
        assert(k > 0);
        assert(t[k - 1] == a);
    }
}

/// Law: re-scanning with the same needle against unchanged memory is
/// idempotent — when every current match still holds the needle, a further
/// narrowing scan returns the match set unchanged.
pub proof fn lemma_rescan_idempotent(m1: Seq<u64>, m2: Seq<u64>, snap: Snapshot, needle: Seq<u8>)
    requires
        sorted_strict(m1),
        sorted_strict(m2),
        narrowed(m1, m2, snap, needle),
        forall|a: u64| #[trigger] m1.contains(a) ==> bytes_match(snap, a as int, needle),
    ensures
        m1 =~= m2,
{
    assert forall|a: u64| #[trigger] m1.contains(a) <==> #[trigger] m2.contains(a) by {}
    lemma_sorted_unique_eq(m1, m2);
}

/// One more swept offset adds exactly the address at that offset.
pub proof fn lemma_swept_extend(snap: Snapshot, pi: int, o: int, a: int)
    requires
        0 <= pi < snap.pages@.len(),
        0 <= o,
    ensures
        swept(snap, pi, o + 1, a) <==> swept(snap, pi, o, a) || a == snap.pages@[pi].base + o,
{
}

/// Finishing a page's sweep equals standing at the start of the next page.
pub proof fn lemma_swept_next_page(snap: Snapshot, pi: int, a: int)
    requires
        0 <= pi < snap.pages@.len(),
    ensures
        swept(snap, pi, snap.pages@[pi].bytes@.len() as int, a) <==> swept(snap, pi + 1, 0, a),
{
    if swept(snap, pi, snap.pages@[pi].bytes@.len() as int, a) {
        if !(exists|k: int| 0 <= k < pi && #[trigger] snap.pages@[k].covers(a)) {
            assert(snap.pages@[pi].covers(a));
        }
    }
    if swept(snap, pi + 1, 0, a) {
        let k = choose|k: int| 0 <= k < pi + 1 && #[trigger] snap.pages@[k].covers(a);
        if k == pi {
            assert(snap.pages@[pi].base <= a < snap.pages@[pi].base
                + snap.pages@[pi].bytes@.len());
        }
    }
}

} // verus!
