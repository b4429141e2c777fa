//! Code anchor extractor: parses each module's image header, decodes the
//! executable sections, and records every instruction that references a
//! static datum through IP-relative addressing without being a control-flow
//! transfer. The recorded addresses serve as stable anchors for the
//! offset-chain resolver.
use crate::error::Error;
use crate::snapshot::Snapshot;
use vstd::prelude::*;

verus! {

/// The fields of one decoded instruction that the extractor reads.
#[derive(Clone, Copy)]
pub struct InsnInfo {
    pub ip: u64,
    pub next_ip: u64,
    pub is_ip_rel: bool,
    pub near_branch_target: u64,
    pub ip_rel_memory_address: u64,
}

/// The instruction sequence an x86 decoder of the given bitness produces
/// over the given bytes with the instruction pointer starting at `ip`: a
/// function of these three arguments alone.
pub uninterp spec fn decoded_insns(bitness: u32, data: Seq<u8>, ip: u64) -> Seq<InsnInfo>;

/// Relies on iced_x86's Decoder: decoding is deterministic in the bitness,
/// the bytes, and the starting instruction pointer; with_ip panics only on a
/// bitness other than 16, 32 or 64.
#[verifier::external_body]
fn decode_chunk(bitness: u32, data: &[u8], ip: u64) -> (r: Vec<InsnInfo>)
    requires
        bitness == 32 || bitness == 64,
    ensures
        r@ == decoded_insns(bitness, data@, ip),
{
    let decoder = iced_x86::Decoder::with_ip(bitness, data, ip, iced_x86::DecoderOptions::NONE);
    decoder
        .into_iter()
        .map(|i| InsnInfo {
            ip: i.ip(),
            next_ip: i.next_ip(),
            is_ip_rel: i.is_ip_rel_memory_operand(),
            near_branch_target: i.near_branch_target(),
            ip_rel_memory_address: i.ip_rel_memory_address(),
        })
        .collect()
}

/// The section table parsed from an image header, as
/// `(VirtualAddress, VirtualSize, Characteristics)` rows; `None` where the
/// bytes are no valid image: a function of the bytes alone.
pub uninterp spec fn pe_sections_of(image: Seq<u8>) -> Option<Seq<(u32, u32, u32)>>;

/// Relies on pelite's PeFile::from_bytes and section_headers: header
/// parsing is deterministic in the image bytes and returns an error rather
/// than panicking on malformed input.
#[verifier::external_body]
fn pe_sections(image: &Vec<u8>) -> (r: Option<Vec<(u32, u32, u32)>>)
    ensures
        r is Some <==> pe_sections_of(image@) is Some,
        r is Some ==> r->Some_0@ == pe_sections_of(image@)->Some_0,
{
    match pelite::PeFile::from_bytes(image.as_slice()) {
        Ok(pe) => Some(
            pe.section_headers().iter().map(
                |s| (s.VirtualAddress, s.VirtualSize, s.Characteristics),
            ).collect(),
        ),
        Err(_) => None,
    }
}

/// The bytes visible in the snapshot over `[addr, addr + n)`.
pub open spec fn bytes_at(snap: Snapshot, addr: int, n: nat) -> Seq<u8> {
    Seq::new(n, |i: int| snap.byte_at(addr + i))
}

/// The executable-code flag of a section's characteristics.
pub open spec fn is_code_section(s: (u32, u32, u32)) -> bool {
    s.2 & 0x20 != 0
}

/// A section's virtual range lies below the top of the address space.
pub open spec fn section_ok(base: u64, s: (u32, u32, u32)) -> bool {
    base + s.0 + s.1 <= u64::MAX
}

/// An address-keyed pair list as a mathematical map.
pub open spec fn seq_to_map(s: Seq<(u64, u64)>) -> Map<u64, u64> {
    Map::new(
        |k: u64| exists|i: int| 0 <= i < s.len() && #[trigger] s[i].0 == k,
        |k: u64| s[choose|i: int| 0 <= i < s.len() && #[trigger] s[i].0 == k].1,
    )
}

/// An instruction the extractor records: it starts below the section's end,
/// uses an IP-relative memory operand, and is not a near branch.
pub open spec fn harvested(i: InsnInfo, limit: u64) -> bool {
    i.ip < limit && i.is_ip_rel && i.near_branch_target == 0
}

/// The global-reference map after folding one decoded instruction sequence
/// into `m0`: each recorded instruction inserts its address mapped to the
/// datum it references.
pub open spec fn harvest_fold(m0: Map<u64, u64>, insns: Seq<InsnInfo>, limit: u64) -> Map<u64, u64>
    decreases insns.len(),
{
    if insns.len() == 0 {
        m0
    } else {
        let i = insns[0];
        let m1 = if harvested(i, limit) {
            m0.insert(i.ip, i.ip_rel_memory_address)
        } else {
            m0
        };
        harvest_fold(m1, insns.drop_first(), limit)
    }
}

/// The global-reference map after the code sections of one module, from
/// section index `si` on.
pub open spec fn globals_sections(
    m0: Map<u64, u64>,
    snap: Snapshot,
    base: u64,
    secs: Seq<(u32, u32, u32)>,
    bitness: u32,
    si: int,
) -> Map<u64, u64>
    decreases secs.len() - si,
{
    if 0 <= si && si < secs.len() {
        let s = secs[si];
        let m1 = if is_code_section(s) {
            let start = (base + s.0) as u64;
            let end = (base + s.0 + s.1) as u64;
            harvest_fold(
                m0,
                decoded_insns(bitness, bytes_at(snap, start as int, s.1 as nat), start),
                end,
            )
        } else {
            m0
        };
        globals_sections(m1, snap, base, secs, bitness, si + 1)
    } else {
        m0
    }
}

/// The size of the image prefix read to parse a module's header.
pub open spec fn header_read_len() -> nat {
    0x20000
}

/// The global-reference map after the modules from index `mi` on: a module
/// whose header does not parse is skipped.
pub open spec fn globals_modules(
    m0: Map<u64, u64>,
    snap: Snapshot,
    modules: Seq<u64>,
    bitness: u32,
    mi: int,
) -> Map<u64, u64>
    decreases modules.len() - mi,
{
    if 0 <= mi && mi < modules.len() {
        let m1 = match pe_sections_of(bytes_at(snap, modules[mi] as int, header_read_len())) {
            Some(secs) => globals_sections(m0, snap, modules[mi], secs, bitness, 0),
            None => m0,
        };
        globals_modules(m1, snap, modules, bitness, mi + 1)
    } else {
        m0
    }
}

/// The section table of the module whose image starts at `base`.
pub open spec fn module_secs(snap: Snapshot, base: u64) -> Option<Seq<(u32, u32, u32)>> {
    pe_sections_of(bytes_at(snap, base as int, header_read_len()))
}

/// Every code section of every parseable module lies below the top of the
/// address space.
pub open spec fn all_sections_ok(snap: Snapshot, modules: Seq<u64>) -> bool {
    forall|mi: int, si: int|
        0 <= mi < modules.len() && module_secs(snap, modules[mi]) is Some && 0 <= si
            < module_secs(snap, modules[mi])->Some_0.len() && is_code_section(
            #[trigger] module_secs(snap, modules[mi])->Some_0[si],
        ) ==> section_ok(modules[mi], module_secs(snap, modules[mi])->Some_0[si])
}

/// One malformed code section refutes `all_sections_ok`.
proof fn lemma_not_all_ok(snap: Snapshot, modules: Seq<u64>, mi: int, si: int)
    requires
        0 <= mi < modules.len(),
        module_secs(snap, modules[mi]) is Some,
        0 <= si < module_secs(snap, modules[mi])->Some_0.len(),
        is_code_section(module_secs(snap, modules[mi])->Some_0[si]),
        !section_ok(modules[mi], module_secs(snap, modules[mi])->Some_0[si]),
    ensures
        !all_sections_ok(snap, modules),
{
    if all_sections_ok(snap, modules) {
        assert(section_ok(modules[mi], module_secs(snap, modules[mi])->Some_0[si]));
    }
}

/// The code anchor extractor's state: the ordered map from instruction
/// address to the referenced global datum.
pub struct Disasm {
    pub map: Vec<(u64, u64)>,
}

impl Disasm {
    /// Keys strictly ascending.
    pub open spec fn wf(self) -> bool {
        forall|i: int, j: int| 0 <= i < j < self.map@.len() ==> self.map@[i].0 < self.map@[j].0
    }

    /// The global-reference map as a mathematical map.
    pub open spec fn gmap(self) -> Map<u64, u64> {
        seq_to_map(self.map@)
    }

    /// Clears the map.
    pub fn reset(&mut self)
        ensures
            final(self).wf(),
            final(self).map@.len() == 0,
            final(self).gmap() =~= Map::empty(),
    {
        self.map.clear();
    }

    /// The global-reference map: instruction address to referenced datum,
    /// ascending by instruction address.
    pub fn map(&self) -> (r: &Vec<(u64, u64)>)
        ensures
            r@ == self.map@,
    {
        &self.map
    }

    /// The referenced global addresses, ascending and deduplicated: the
    /// start-point anchors the resolver searches from.
    pub fn globals(&self) -> (r: Vec<u64>)
        ensures
            crate::value_scanner::sorted_strict(r@),
            forall|a: u64|
                #[trigger] r@.contains(a) <==> exists|i: int|
                    0 <= i < self.map@.len() && #[trigger] self.map@[i].1 == a,
    {
        let n: usize = self.map.len();
        let mut out: Vec<u64> = Vec::new();
        let mut i: usize = 0;
        while i < n
            invariant
                i <= n,
                n == self.map@.len(),
                crate::value_scanner::sorted_strict(out@),
                forall|a: u64|
                    #[trigger] out@.contains(a) <==> exists|j: int|
                        0 <= j < i && #[trigger] self.map@[j].1 == a,
            decreases n - i,
        {
            let v: u64 = self.map[i].1;
            sorted_insert_unique(&mut out, v);
            proof {
                assert forall|a: u64| #[trigger]
                    out@.contains(a) <==> exists|j: int|
                        0 <= j < i + 1 && #[trigger] self.map@[j].1 == a by {
                    if out@.contains(a) && a != v {
                        let j = choose|j: int| 0 <= j < i && #[trigger] self.map@[j].1 == a;
                        assert(0 <= j < i + 1 && self.map@[j].1 == a);
                    }
                    if a == v {
                        assert(self.map@[i as int].1 == a);
                    }
                    if exists|j: int| 0 <= j < i + 1 && #[trigger] self.map@[j].1 == a {
                        let j = choose|j: int|
                            0 <= j < i + 1 && #[trigger] self.map@[j].1 == a;
                        if j == i {
                            assert(a == v);
                        }
                    }
                }
            }
            i = i + 1;
        }
        out
    }
}

/// Inserts an address into an ascending list, keeping it ascending and
/// ignoring a duplicate.
fn sorted_insert_unique(out: &mut Vec<u64>, x: u64)
    requires
        crate::value_scanner::sorted_strict(old(out)@),
    ensures
        crate::value_scanner::sorted_strict(final(out)@),
        forall|a: u64| #[trigger] final(out)@.contains(a) <==> old(out)@.contains(a) || a == x,
{
    let n: usize = out.len();
    let ghost pre = out@;
    let mut pos: usize = 0;
    while pos < n && out[pos] < x
        invariant
            pos <= n,
            n == out@.len(),
            out@ == pre,
            forall|i: int| 0 <= i < pos ==> pre[i] < x,
        decreases n - pos,
    {
        pos = pos + 1;
    }
    if pos < n && out[pos] == x {
        proof {
            assert(pre.contains(x));
        }
        return;
    }
    out.insert(pos, x);
    proof {
        assert(forall|i: int| 0 <= i < pos ==> out@[i] == pre[i]);
        assert(out@[pos as int] == x);
        assert(forall|i: int| pos < i < out@.len() ==> out@[i] == pre[i - 1]);
        assert forall|a: int, b: int| 0 <= a < b < out@.len() implies out@[a] < out@[b] by {
            if b == pos {
                assert(out@[a] == pre[a]);
            } else if a == pos {
                assert(out@[b] == pre[b - 1]);
                assert(pre[b - 1] >= x);
                assert(pre[b - 1] != x);
            }
        }
        assert forall|a: u64| #[trigger]
            out@.contains(a) <==> pre.contains(a) || a == x by {
            if out@.contains(a) {
                let i = choose|i: int| 0 <= i < out@.len() && out@[i] == a;
                if i < pos {
                    assert(pre[i] == a);
                    assert(pre.contains(a));
                } else if i > pos {
                    assert(pre[i - 1] == a);
                    assert(pre.contains(a));
                }
            }
            if pre.contains(a) {
                let i = choose|i: int| 0 <= i < pre.len() && pre[i] == a;
                if i < pos {
                    assert(out@[i] == a);
                } else {
                    assert(out@[i + 1] == a);
                }
            }
            if a == x {
                assert(out@[pos as int] == a);
            }
        }
    }
}

impl Default for Disasm {
    /// An empty global-reference map.
    fn default() -> (r: Self)
        ensures
            r.wf(),
            r.map@.len() == 0,
            r.gmap() =~= Map::empty(),
    {
        Disasm { map: Vec::new() }
    }
}

/// Inserts or replaces one key in a sorted pair list.
fn gref_insert(map: &mut Vec<(u64, u64)>, k: u64, v: u64)
    requires
        forall|i: int, j: int| 0 <= i < j < old(map)@.len() ==> old(map)@[i].0 < old(map)@[j].0,
    ensures
        forall|i: int, j: int|
            0 <= i < j < final(map)@.len() ==> final(map)@[i].0 < final(map)@[j].0,
        seq_to_map(final(map)@) == seq_to_map(old(map)@).insert(k, v),
{
    let n: usize = map.len();
    let ghost pre = map@;
    let mut pos: usize = 0;
    while pos < n && map[pos].0 < k
        invariant
            pos <= n,
            n == map@.len(),
            map@ == pre,
            forall|i: int| 0 <= i < pos ==> pre[i].0 < k,
        decreases n - pos,
    {
        pos = pos + 1;
    }
    let hit: bool = if pos < n {
        map[pos].0 == k
    } else {
        false
    };
    if hit {
        map.set(pos, (k, v));
        proof {
            assert(forall|i: int| 0 <= i < map@.len() && i != pos ==> map@[i] == pre[i]);
            assert(map@[pos as int] == (k, v));
            assert forall|x: int, y: int|
                0 <= x < y < map@.len() implies map@[x].0 < map@[y].0 by {
                assert(pre[x].0 < pre[y].0);
            }
            lemma_seq_to_map_update(pre, map@, pos as int, k, v);
        }
    } else {
        map.insert(pos, (k, v));
        proof {
            assert(forall|i: int| 0 <= i < pos ==> map@[i] == pre[i]);
            assert(map@[pos as int] == (k, v));
            assert(forall|i: int| pos < i < map@.len() ==> map@[i] == pre[i - 1]);
            assert forall|x: int, y: int|
                0 <= x < y < map@.len() implies map@[x].0 < map@[y].0 by {
                if y == pos {
                    assert(pre[x].0 < k);
                } else if x == pos {
                    assert(map@[y].0 == pre[y - 1].0);
                    assert(pre[y - 1].0 >= k);
                    assert(pre[y - 1].0 != k);
                }
            }
            lemma_seq_to_map_insert(pre, map@, pos as int, k, v);
        }
    }
}

/// Replacing the pair at the key's position updates the map view at that
/// key alone.
proof fn lemma_seq_to_map_update(pre: Seq<(u64, u64)>, post: Seq<(u64, u64)>, pos: int, k: u64, v: u64)
    requires
        forall|i: int, j: int| 0 <= i < j < pre.len() ==> pre[i].0 < pre[j].0,
        0 <= pos < pre.len(),
        pre[pos].0 == k,
        post.len() == pre.len(),
        post[pos] == (k, v),
        forall|i: int| 0 <= i < pre.len() && i != pos ==> post[i] == pre[i],
    ensures
        seq_to_map(post) == seq_to_map(pre).insert(k, v),
{
    let a = seq_to_map(post);
    let b = seq_to_map(pre).insert(k, v);
    assert forall|x: u64| a.dom().contains(x) implies b.dom().contains(x) by {
        let i = choose|i: int| 0 <= i < post.len() && #[trigger] post[i].0 == x;
        if i != pos {
            assert(pre[i].0 == x);
        }
    }
    assert forall|x: u64| b.dom().contains(x) implies a.dom().contains(x) by {
        if x == k {
            assert(post[pos].0 == x);
        } else {
            let i = choose|i: int| 0 <= i < pre.len() && #[trigger] pre[i].0 == x;
            assert(post[i].0 == x);
        }
    }
    assert forall|x: u64| a.dom().contains(x) implies a[x] == b[x] by {
        let i = choose|i: int| 0 <= i < post.len() && #[trigger] post[i].0 == x;
        lemma_sorted_key_at(post, i, x);
        if x == k {
            lemma_sorted_key_at(post, pos, k);
        } else {
            assert(i != pos);
            assert(pre[i].0 == x);
            lemma_sorted_key_at(pre, i, x);
            assert(a[x] == post[i].1);
        }
    }
    assert(a =~= b);
}

/// Inserting a fresh pair at its sorted position adds that key alone.
proof fn lemma_seq_to_map_insert(pre: Seq<(u64, u64)>, post: Seq<(u64, u64)>, pos: int, k: u64, v: u64)
    requires
        forall|i: int, j: int| 0 <= i < j < pre.len() ==> pre[i].0 < pre[j].0,
        forall|i: int, j: int| 0 <= i < j < post.len() ==> post[i].0 < post[j].0,
        0 <= pos <= pre.len(),
        post.len() == pre.len() + 1,
        post[pos] == (k, v),
        forall|i: int| 0 <= i < pos ==> post[i] == pre[i],
        forall|i: int| pos < i < post.len() ==> post[i] == pre[i - 1],
    ensures
        seq_to_map(post) == seq_to_map(pre).insert(k, v),
{
    let a = seq_to_map(post);
    let b = seq_to_map(pre).insert(k, v);
    assert forall|x: u64| a.dom().contains(x) implies b.dom().contains(x) by {
        let i = choose|i: int| 0 <= i < post.len() && #[trigger] post[i].0 == x;
        if i < pos {
            assert(pre[i].0 == x);
        } else if i > pos {
            assert(pre[i - 1].0 == x);
        }
    }
    assert forall|x: u64| b.dom().contains(x) implies a.dom().contains(x) by {
        if x == k {
            assert(post[pos].0 == x);
        } else {
            let i = choose|i: int| 0 <= i < pre.len() && #[trigger] pre[i].0 == x;
            if i < pos {
                assert(post[i].0 == x);
            } else {
                assert(post[i + 1].0 == x);
            }
        }
    }
    assert forall|x: u64| a.dom().contains(x) implies a[x] == b[x] by {
        let i = choose|i: int| 0 <= i < post.len() && #[trigger] post[i].0 == x;
        lemma_sorted_key_at(post, i, x);
        if x == k {
            lemma_sorted_key_at(post, pos, k);
        } else {
            assert(i != pos);
            if i < pos {
                assert(pre[i].0 == x);
                lemma_sorted_key_at(pre, i, x);
            } else {
                assert(pre[i - 1].0 == x);
                lemma_sorted_key_at(pre, i - 1, x);
            }
        }
    }
    assert(a =~= b);
}

/// In a key-sorted pair list, the map view at a key present at index `i`
/// is that pair's value.
proof fn lemma_sorted_key_at(s: Seq<(u64, u64)>, i: int, k: u64)
    requires
        forall|x: int, y: int| 0 <= x < y < s.len() ==> s[x].0 < s[y].0,
        0 <= i < s.len(),
        s[i].0 == k,
    ensures
        seq_to_map(s).dom().contains(k),
        seq_to_map(s)[k] == s[i].1,
{
    let j = choose|j: int| 0 <= j < s.len() && #[trigger] s[j].0 == k;
    if j < i {
        assert(s[j].0 < s[i].0);
    }
    if j > i {
        assert(s[i].0 < s[j].0);
    }
}

impl Disasm {
    /// Folds one decoded instruction list into the map: every instruction
    /// below `limit` that uses IP-relative addressing and is not a branch
    /// is recorded under its address.
    fn harvest(&mut self, insns: &Vec<InsnInfo>, limit: u64)
        requires
            old(self).wf(),
        ensures
            final(self).wf(),
            final(self).gmap() == harvest_fold(old(self).gmap(), insns@, limit),
    {
        let n: usize = insns.len();
        let ghost target = harvest_fold(self.gmap(), insns@, limit);
        proof {
            assert(insns@.skip(0) =~= insns@);
        }
        let mut i: usize = 0;
        while i < n
            invariant
                i <= n,
                n == insns@.len(),
                self.wf(),
                harvest_fold(self.gmap(), insns@.skip(i as int), limit) == target,
            decreases n - i,
        {
            let ins: InsnInfo = insns[i];
            let ghost rest = insns@.skip(i as int);
            proof {
                assert(rest[0] == ins);
                assert(rest.drop_first() =~= insns@.skip(i as int + 1));
            }
            if ins.ip < limit && ins.is_ip_rel && ins.near_branch_target == 0 {
                gref_insert(&mut self.map, ins.ip, ins.ip_rel_memory_address);
            }
            i = i + 1;
        }
        proof {
            assert(insns@.skip(n as int) =~= Seq::<InsnInfo>::empty());
        }
    }

    /// Walks the loaded modules: parses each module's image header from the
    /// snapshot (skipping modules whose header does not parse), decodes
    /// every executable code section with the target's bitness, and records
    /// each IP-relative non-branch data reference. Fails with a decoder
    /// error on a bitness other than 32 or 64, or on a code section whose
    /// bounds leave the address space; on success the map extends exactly
    /// as the fold over the decoded sections prescribes.
    pub fn collect_globals(&mut self, snap: &Snapshot, modules: &Vec<u64>, bitness: u32) -> (r:
        Result<(), Error>)
        requires
            old(self).wf(),
            snap.wf(),
        ensures
            final(self).wf(),
            r is Ok <==> (bitness == 32 || bitness == 64) && all_sections_ok(*snap, modules@),
            r is Ok ==> final(self).gmap() == globals_modules(
                old(self).gmap(),
                *snap,
                modules@,
                bitness,
                0,
            ),
            r is Err ==> r->Err_0 == Error::DecoderInit,
    {
        if bitness != 32 && bitness != 64 {
            return Err(Error::DecoderInit);
        }
        let nm: usize = modules.len();
        let ghost m0 = self.gmap();
        let ghost target = globals_modules(m0, *snap, modules@, bitness, 0);
        let mut mi: usize = 0;
        while mi < nm
            invariant
                mi <= nm,
                nm == modules@.len(),
                snap.wf(),
                bitness == 32 || bitness == 64,
                self.wf(),
                globals_modules(self.gmap(), *snap, modules@, bitness, mi as int) == target,
                forall|mj: int, si: int|
                    0 <= mj < mi && module_secs(*snap, modules@[mj]) is Some && 0 <= si
                        < module_secs(*snap, modules@[mj])->Some_0.len() && is_code_section(
                        #[trigger] module_secs(*snap, modules@[mj])->Some_0[si],
                    ) ==> section_ok(modules@[mj], module_secs(*snap, modules@[mj])->Some_0[si]),
            decreases nm - mi,
        {
            let base: u64 = modules[mi];
            let image: Vec<u8> = snap.read_padded(base, 0x20000);
            proof {
                assert(image@ =~= bytes_at(*snap, base as int, header_read_len()));
            }
            match pe_sections(&image) {
                Some(secs) => {
                    let ghost sseq = pe_sections_of(image@)->Some_0;
                    let ns: usize = secs.len();
                    let mut si: usize = 0;
                    while si < ns
                        invariant
                            si <= ns,
                            ns == sseq.len(),
                            secs@ == sseq,
                            snap.wf(),
                            bitness == 32 || bitness == 64,
                            self.wf(),
                            mi < modules@.len(),
                            base == modules@[mi as int],
                            module_secs(*snap, base) is Some,
                            module_secs(*snap, base)->Some_0 == sseq,
                            globals_modules(
                                globals_sections(
                                    self.gmap(),
                                    *snap,
                                    base,
                                    sseq,
                                    bitness,
                                    si as int,
                                ),
                                *snap,
                                modules@,
                                bitness,
                                mi as int + 1,
                            ) == target,
                            forall|sj: int|
                                0 <= sj < si && is_code_section(#[trigger] sseq[sj])
                                    ==> section_ok(base, sseq[sj]),
                        decreases ns - si,
                    {
                        let s: (u32, u32, u32) = secs[si];
                        if s.2 & 0x20 != 0 {
                            proof {
                                assert(module_secs(*snap, modules@[mi as int]) is Some);
                                assert(module_secs(*snap, modules@[mi as int])->Some_0 == sseq);
                            }
                            if u64::MAX - base < s.0 as u64 {
                                proof {
                                    lemma_not_all_ok(*snap, modules@, mi as int, si as int);
                                }
                                return Err(Error::DecoderInit);
                            }
                            let start: u64 = base + s.0 as u64;
                            if u64::MAX - start < s.1 as u64 {
                                proof {
                                    lemma_not_all_ok(*snap, modules@, mi as int, si as int);
                                }
                                return Err(Error::DecoderInit);
                            }
                            let end: u64 = start + s.1 as u64;
                            let bytes: Vec<u8> = snap.read_padded(start, s.1 as usize);
                            proof {
                                assert(bytes@ =~= bytes_at(*snap, start as int, s.1 as nat));
                            }
                            let insns: Vec<InsnInfo> = decode_chunk(bitness, bytes.as_slice(), start);
                            self.harvest(&insns, end);
                        }
                        si = si + 1;
                    }
                },
                None => {
                },
            }
            mi = mi + 1;
        }
        proof {
            assert(globals_modules(self.gmap(), *snap, modules@, bitness, nm as int)
                == self.gmap());
        }
        Ok(())
    }
}

/// The decoded instructions of one code section of a module.
pub open spec fn section_insns(snap: Snapshot, base: u64, s: (u32, u32, u32), bitness: u32) -> Seq<
    InsnInfo,
> {
    decoded_insns(bitness, bytes_at(snap, (base + s.0) as u64 as int, s.1 as nat), (base
        + s.0) as u64)
}

/// The address `k` is that of a pure anchor: some code section of some
/// parseable module decodes an instruction at `k` that uses an IP-relative
/// memory operand and is not a near branch.
pub open spec fn pure_anchor(snap: Snapshot, modules: Seq<u64>, bitness: u32, k: u64) -> bool {
    exists|mi: int, si: int, j: int|
        {
            &&& 0 <= mi < modules.len()
            &&& module_secs(snap, modules[mi]) is Some
            &&& 0 <= si < module_secs(snap, modules[mi])->Some_0.len()
            &&& is_code_section(module_secs(snap, modules[mi])->Some_0[si])
            &&& 0 <= j < section_insns(
                snap,
                modules[mi],
                module_secs(snap, modules[mi])->Some_0[si],
                bitness,
            ).len()
            &&& (#[trigger] section_insns(
                snap,
                modules[mi],
                module_secs(snap, modules[mi])->Some_0[si],
                bitness,
            )[j]).ip == k
            &&& section_insns(
                snap,
                modules[mi],
                module_secs(snap, modules[mi])->Some_0[si],
                bitness,
            )[j].is_ip_rel
            &&& section_insns(
                snap,
                modules[mi],
                module_secs(snap, modules[mi])->Some_0[si],
                bitness,
            )[j].near_branch_target == 0
        }
}

/// Purity over one module's sections, from index `si` on.
proof fn lemma_sections_pure(
    m0: Map<u64, u64>,
    snap: Snapshot,
    modules: Seq<u64>,
    mi: int,
    bitness: u32,
    si: int,
)
    requires
        0 <= mi < modules.len(),
        module_secs(snap, modules[mi]) is Some,
    ensures
        forall|k: u64|
            #[trigger] globals_sections(
                m0,
                snap,
                modules[mi],
                module_secs(snap, modules[mi])->Some_0,
                bitness,
                si,
            ).dom().contains(k) ==> m0.dom().contains(k) || pure_anchor(snap, modules, bitness, k),
    decreases module_secs(snap, modules[mi])->Some_0.len() - si,
{
    let base = modules[mi];
    let secs = module_secs(snap, modules[mi])->Some_0;
    if 0 <= si && si < secs.len() {
        let s = secs[si];
        let m1 = if is_code_section(s) {
            harvest_fold(
                m0,
                decoded_insns(
                    bitness,
                    bytes_at(snap, ((base + s.0) as u64) as int, s.1 as nat),
                    (base + s.0) as u64,
                ),
                (base + s.0 + s.1) as u64,
            )
        } else {
            m0
        };
        if is_code_section(s) {
            lemma_globals_pure(
                m0,
                section_insns(snap, base, s, bitness),
                (base + s.0 + s.1) as u64,
            );
            assert forall|k: u64| #[trigger] m1.dom().contains(k) implies m0.dom().contains(k)
                || pure_anchor(snap, modules, bitness, k) by {
                if !m0.dom().contains(k) {
                    let insns = section_insns(snap, base, s, bitness);
                    let limit = (base + s.0 + s.1) as u64;
                    assert(m1 == harvest_fold(m0, insns, limit));
                    let j = choose|j: int|
                        0 <= j < insns.len() && #[trigger] insns[j].ip == k && insns[j].is_ip_rel
                            && insns[j].near_branch_target == 0 && insns[j].ip < limit;
                    assert(section_insns(snap, modules[mi], module_secs(
                        snap,
                        modules[mi],
                    )->Some_0[si], bitness)[j].ip == k);
                }
            }
        }
        lemma_sections_pure(m1, snap, modules, mi, bitness, si + 1);
        assert(globals_sections(m0, snap, base, secs, bitness, si) == globals_sections(
            m1,
            snap,
            base,
            secs,
            bitness,
            si + 1,
        ));
        assert forall|k: u64|
            #[trigger] globals_sections(m0, snap, base, secs, bitness, si).dom().contains(
                k,
            ) implies m0.dom().contains(k) || pure_anchor(snap, modules, bitness, k) by {
            assert(globals_sections(m1, snap, base, secs, bitness, si + 1).dom().contains(k));
        }
    }
}

/// Law: global-reference purity over the whole built map — every entry that
/// the extraction adds stands at the address of a decoded instruction that
/// uses an IP-relative memory operand and whose near-branch target is zero;
/// no control-flow transfer is ever recorded.
pub proof fn lemma_globals_map_pure(
    m0: Map<u64, u64>,
    snap: Snapshot,
    modules: Seq<u64>,
    bitness: u32,
    mi: int,
)
    ensures
        forall|k: u64|
            #[trigger] globals_modules(m0, snap, modules, bitness, mi).dom().contains(k)
                ==> m0.dom().contains(k) || pure_anchor(snap, modules, bitness, k),
    decreases modules.len() - mi,
{
    if 0 <= mi && mi < modules.len() {
        let m1 = match pe_sections_of(bytes_at(snap, modules[mi] as int, header_read_len())) {
            Some(secs) => globals_sections(m0, snap, modules[mi], secs, bitness, 0),
            None => m0,
        };
        if pe_sections_of(bytes_at(snap, modules[mi] as int, header_read_len())) is Some {
            lemma_sections_pure(m0, snap, modules, mi, bitness, 0);
        }
        lemma_globals_map_pure(m1, snap, modules, bitness, mi + 1);
        assert(globals_modules(m0, snap, modules, bitness, mi) == globals_modules(
            m1,
            snap,
            modules,
            bitness,
            mi + 1,
        ));
        assert forall|k: u64|
            #[trigger] globals_modules(m0, snap, modules, bitness, mi).dom().contains(
                k,
            ) implies m0.dom().contains(k) || pure_anchor(snap, modules, bitness, k) by {
            assert(globals_modules(m1, snap, modules, bitness, mi + 1).dom().contains(k));
        }
    }
}

/// Law: global-reference purity — every entry the harvest adds comes from a
/// decoded instruction that uses an IP-relative memory operand and whose
/// near-branch target is zero; no branch instruction is ever recorded.
pub proof fn lemma_globals_pure(m0: Map<u64, u64>, insns: Seq<InsnInfo>, limit: u64)
    ensures
        forall|k: u64|
            #[trigger] harvest_fold(m0, insns, limit).dom().contains(k) ==> m0.dom().contains(k)
                || exists|j: int|
                0 <= j < insns.len() && #[trigger] insns[j].ip == k && insns[j].is_ip_rel
                    && insns[j].near_branch_target == 0 && insns[j].ip < limit,
    decreases insns.len(),
{
    if insns.len() > 0 {
        let i0 = insns[0];
        let m1 = if harvested(i0, limit) {
            m0.insert(i0.ip, i0.ip_rel_memory_address)
        } else {
            m0
        };
        lemma_globals_pure(m1, insns.drop_first(), limit);
        assert forall|k: u64|
            #[trigger] harvest_fold(m0, insns, limit).dom().contains(k) implies m0.dom().contains(
            k,
        ) || exists|j: int|
            0 <= j < insns.len() && #[trigger] insns[j].ip == k && insns[j].is_ip_rel
                && insns[j].near_branch_target == 0 && insns[j].ip < limit by {
            assert(harvest_fold(m0, insns, limit) == harvest_fold(
                m1,
                insns.drop_first(),
                limit,
            ));
            assert(harvest_fold(m1, insns.drop_first(), limit).dom().contains(k));
            if !m0.dom().contains(k) {
                if m1.dom().contains(k) {
                    assert(harvested(i0, limit) && i0.ip == k);
                    assert(insns[0].ip == k && insns[0].is_ip_rel && insns[0].near_branch_target
                        == 0 && insns[0].ip < limit);
                } else {
                    let t = insns.drop_first();
                    let j = choose|j: int|
                        0 <= j < t.len() && #[trigger] t[j].ip == k && t[j].is_ip_rel
                            && t[j].near_branch_target == 0 && t[j].ip < limit;
                    assert(insns[j + 1] == t[j]);
                }
            }
        }
    }
}

} // verus!
