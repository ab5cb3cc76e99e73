//! Patch engine: locates byte sequences in an image and rewrites them, each
//! rewrite guarded by a check of what the image holds beforehand.

use vstd::prelude::*;
use vstd::string::StringSliceAdditionalSpecFns;

verus! {

/// Whether `pat` occurs in `buf` at offset `i`.
pub open spec fn occurs_at(buf: Seq<u8>, pat: Seq<u8>, i: int) -> bool {
    0 <= i && i + pat.len() <= buf.len() && buf.subrange(i, i + pat.len()) == pat
}

/// The offsets below `k` at which `pat` occurs in `buf`, in increasing order.
pub open spec fn occurrences_below(buf: Seq<u8>, pat: Seq<u8>, k: nat) -> Seq<int>
    decreases k,
{
    if k == 0 {
        Seq::empty()
    } else {
        let prev = occurrences_below(buf, pat, (k - 1) as nat);
        if occurs_at(buf, pat, k - 1) {
            prev.push(k - 1)
        } else {
            prev
        }
    }
}

/// Every offset at which `pat` occurs in `buf`, in increasing order.
pub open spec fn occurrences(buf: Seq<u8>, pat: Seq<u8>) -> Seq<int> {
    occurrences_below(buf, pat, buf.len() + 1)
}

/// Whether `pat` occurs in `buf` at offset `i`.
pub fn matches_at(buf: &[u8], pat: &[u8], i: usize) -> (r: bool)
    ensures
        r == occurs_at(buf@, pat@, i as int),
{
    if i > buf.len() || buf.len() - i < pat.len() {
        return false;
    }
    let mut j: usize = 0;
    assert(buf@.len() == buf.len());
    while j < pat.len()
        invariant
            i + pat@.len() <= buf@.len(),
            buf@.len() <= usize::MAX,
            j <= pat@.len(),
            forall|t: int| 0 <= t < j ==> buf@[i + t] == pat@[t],
        decreases pat@.len() - j,
    {
        if buf[i + j] != pat[j] {
            assert(buf@.subrange(i as int, i + pat@.len())[j as int] != pat@[j as int]);
            return false;
        }
        j = j + 1;
    }
    assert(buf@.subrange(i as int, i + pat@.len()) =~= pat@);
    true
}

/// `boot`, the type tag of boot resources, which are found by another signature.
pub open spec fn boot_tag() -> Seq<u8> {
    seq![0x62u8, 0x6fu8, 0x6fu8, 0x74u8]
}

/// The two big-endian bytes of `id`, two's complement.
pub open spec fn id_bytes(id: i16) -> Seq<u8> {
    let u = if id < 0 {
        id + 0x10000
    } else {
        id as int
    };
    seq![(u / 0x100) as u8, (u % 0x100) as u8]
}

/// The ten bytes that mark a resource in an image: its four-byte prefix, its
/// type tag and its big-endian id. A boot resource sits in the boot block
/// under the tag `00 86 00 17` and the id 0.
pub open spec fn resource_needle(prefix: Seq<u8>, res_type: Seq<u8>, res_id: i16) -> Seq<u8> {
    if res_type == boot_tag() {
        prefix + seq![0x00u8, 0x86u8, 0x00u8, 0x17u8] + id_bytes(0)
    } else {
        prefix + res_type + id_bytes(res_id)
    }
}

/// Why a resource could not be located.
#[derive(Debug, PartialEq, Eq)]
pub enum FindError {
    /// The signature occurs nowhere.
    NotFound,
    /// The signature occurs at each of these offsets.
    Ambiguous(Vec<usize>),
}

/// Locates the one resource of type `res_type` and id `res_id` whose data
/// starts with `prefix`: the offset of its signature in `data`.
pub fn find_resource(prefix: &[u8], res_type: &str, res_id: i16, data: &[u8]) -> (r: Result<
    usize,
    FindError,
>)
    requires
        prefix@.len() == 4,
        res_type.spec_bytes().len() == 4,
    ensures
        ({
            let occ = occurrences(data@, resource_needle(prefix@, res_type.spec_bytes(), res_id));
            match r {
                Ok(i) => occ.len() == 1 && i == occ[0],
                Err(FindError::NotFound) => occ.len() == 0,
                Err(FindError::Ambiguous(v)) => {
                    &&& occ.len() > 1
                    &&& v@.len() == occ.len()
                    &&& forall|k: int| 0 <= k < occ.len() ==> v@[k] == occ[k]
                },
            }
        }),
{
    let tag = res_type.as_bytes();
    let is_boot = tag[0] == 0x62 && tag[1] == 0x6f && tag[2] == 0x6f && tag[3] == 0x74;
    assert(is_boot <==> tag@ == boot_tag()) by {
        if is_boot {
            assert(tag@ =~= boot_tag());
        }
    }
    let (t0, t1, t2, t3, id) = if is_boot {
        (0x00u8, 0x86u8, 0x00u8, 0x17u8, 0i16)
    } else {
        (tag[0], tag[1], tag[2], tag[3], res_id)
    };
    let u: u16 = if id < 0 {
        (id as i32 + 0x10000) as u16
    } else {
        id as u16
    };
    let needle: [u8; 10] = [
        prefix[0],
        prefix[1],
        prefix[2],
        prefix[3],
        t0,
        t1,
        t2,
        t3,
        (u / 0x100) as u8,
        (u % 0x100) as u8,
    ];
    let ghost want = resource_needle(prefix@, res_type.spec_bytes(), res_id);
    assert(needle@ =~= want);
    let needle = needle.as_slice();
    let mut possibilities: Vec<usize> = Vec::new();
    let mut idx: usize = 0;
    assert(data@.len() == data.len());
    while idx < data.len()
        invariant
            idx <= data@.len(),
            data@.len() <= usize::MAX,
            needle@ == want,
            possibilities@.len() == occurrences_below(data@, want, idx as nat).len(),
            forall|k: int|
                0 <= k < possibilities@.len() ==> possibilities@[k]
                    == occurrences_below(data@, want, idx as nat)[k],
        decreases data@.len() + 1 - idx,
    {
        if matches_at(data, needle, idx) {
            possibilities.push(idx);
        }
        idx = idx + 1;
    }
    assert(!occurs_at(data@, want, data@.len() as int));
    assert(occurrences(data@, want) == occurrences_below(data@, want, idx as nat));
    if possibilities.len() == 0 {
        Err(FindError::NotFound)
    } else if possibilities.len() == 1 {
        Ok(possibilities[0])
    } else {
        Err(FindError::Ambiguous(possibilities))
    }
}

/// `buf` with the bytes from offset `at` on replaced by `bytes`.
pub open spec fn overwrite(buf: Seq<u8>, at: int, bytes: Seq<u8>) -> Seq<u8> {
    Seq::new(buf.len(), |j: int| if at <= j < at + bytes.len() { bytes[j - at] } else { buf[j] })
}

/// Why a patch could not be applied.
#[derive(Debug, PartialEq, Eq)]
pub enum PatchError {
    /// The span of `len` bytes at `addr` runs past the end of the image.
    OutOfBounds { addr: usize, len: usize },
    /// The image does not hold the expected bytes at `addr`.
    Mismatch { addr: usize, expected: Vec<u8>, actual: Vec<u8> },
    /// The replacement is longer than (for a pattern: not as long as) what it replaces.
    LengthMismatch { before: usize, after: usize },
    /// No patch set is known for the resource asked for.
    UnknownResource,
}

/// A patch at a fixed offset: `before` must be found at `addr`, and its
/// first `after.len()` bytes are then replaced by `after`.
#[derive(Debug)]
pub struct Patch<'a> {
    pub addr: usize,
    pub before: &'a [u8],
    pub after: &'a [u8],
}

impl<'a> Patch<'a> {
    /// Whether the patch applies to `buf`.
    pub open spec fn applies(&self, buf: Seq<u8>) -> bool {
        self.after@.len() <= self.before@.len() && occurs_at(buf, self.before@, self.addr as int)
    }

    /// The image after the patch, where it applies.
    pub open spec fn result(&self, buf: Seq<u8>) -> Seq<u8> {
        overwrite(buf, self.addr as int, self.after@)
    }

    /// Whether `e` is the error that the patch reports on `buf`.
    pub open spec fn error_for(&self, buf: Seq<u8>, e: PatchError) -> bool {
        let len = self.before@.len();
        if self.after@.len() > len {
            e == PatchError::LengthMismatch { before: len as usize, after: self.after@.len() as usize }
        } else if self.addr + len > buf.len() {
            e == PatchError::OutOfBounds { addr: self.addr, len: len as usize }
        } else {
            match e {
                PatchError::Mismatch { addr, expected, actual } => {
                    &&& addr == self.addr
                    &&& expected@ == self.before@
                    &&& actual@ == buf.subrange(self.addr as int, self.addr + len)
                },
                _ => false,
            }
        }
    }

    /// Applies the patch to `data`. Where `before` is not found at `addr`,
    /// nothing is written and the error says what was found instead.
    pub fn apply(&self, data: &mut [u8]) -> (r: Result<(), PatchError>)
        ensures
            r is Ok <==> self.applies(old(data)@),
            r is Ok ==> final(data)@ == self.result(old(data)@),
            r matches Err(e) ==> self.error_for(old(data)@, e) && final(data)@ == old(data)@,
            !occurs_at(old(data)@, self.before@, self.addr as int) ==> r is Err && final(data)@
                == old(data)@,
    {
        if self.after.len() > self.before.len() {
            return Err(PatchError::LengthMismatch { before: self.before.len(), after: self.after.len() });
        }
        if self.addr > data.len() || data.len() - self.addr < self.before.len() {
            return Err(PatchError::OutOfBounds { addr: self.addr, len: self.before.len() });
        }
        if !matches_at(data, self.before, self.addr) {
            let mut actual: Vec<u8> = Vec::new();
            let mut j: usize = 0;
            while j < self.before.len()
                invariant
                    self.addr + self.before@.len() <= data@.len(),
                    j <= self.before@.len(),
                    actual@ == data@.subrange(self.addr as int, self.addr + j),
                decreases self.before@.len() - j,
            {
                actual.push(data[self.addr + j]);
                j = j + 1;
                assert(actual@ =~= data@.subrange(self.addr as int, self.addr + j));
            }
            return Err(
                PatchError::Mismatch {
                    addr: self.addr,
                    expected: vstd::slice::slice_to_vec(self.before),
                    actual,
                },
            );
        }
        write_bytes(data, self.addr, self.after);
        Ok(())
    }
}

/// The number of offsets that a scan for `pat` over `buf` visits.
pub open spec fn scan_len(buf: Seq<u8>, pat: Seq<u8>) -> nat {
    if pat.len() <= buf.len() {
        (buf.len() - pat.len() + 1) as nat
    } else {
        0
    }
}

/// `buf` after a left-to-right scan over the offsets below `k` that
/// replaces `pat` by `rep` wherever the buffer, as edited so far, holds it.
pub open spec fn scan(buf: Seq<u8>, pat: Seq<u8>, rep: Seq<u8>, k: nat) -> Seq<u8>
    decreases k,
{
    if k == 0 {
        buf
    } else {
        let b = scan(buf, pat, rep, (k - 1) as nat);
        if occurs_at(b, pat, k - 1) {
            overwrite(b, k - 1, rep)
        } else {
            b
        }
    }
}

/// The offsets below `k` at which that scan replaced `pat`, in increasing order.
pub open spec fn scan_hits(buf: Seq<u8>, pat: Seq<u8>, rep: Seq<u8>, k: nat) -> Seq<int>
    decreases k,
{
    if k == 0 {
        Seq::empty()
    } else {
        let prev = scan_hits(buf, pat, rep, (k - 1) as nat);
        if occurs_at(scan(buf, pat, rep, (k - 1) as nat), pat, k - 1) {
            prev.push(k - 1)
        } else {
            prev
        }
    }
}

/// Whether `after` and `hits` are the image and the offsets that the scan
/// replacing `pat` by `rep` in `before` gives.
pub open spec fn pattern_patched(
    before: Seq<u8>,
    after: Seq<u8>,
    pat: Seq<u8>,
    rep: Seq<u8>,
    hits: Seq<usize>,
) -> bool {
    let n = scan_len(before, pat);
    &&& after == scan(before, pat, rep, n)
    &&& hits.len() == scan_hits(before, pat, rep, n).len()
    &&& forall|k: int| 0 <= k < hits.len() ==> hits[k] == scan_hits(before, pat, rep, n)[k]
}

/// A patch by content: every occurrence of `pattern` becomes `replacement`.
#[derive(Debug)]
pub struct PatternPatch<'a> {
    pub pattern: &'a [u8],
    pub replacement: &'a [u8],
}

impl<'a> PatternPatch<'a> {
    /// Replaces `pattern` by `replacement` at every offset where `data` holds
    /// it, visiting the offsets in increasing order over the buffer as edited
    /// so far; returns the offsets patched. Fails, writing nothing, when the
    /// two are not of one length.
    pub fn apply(&self, data: &mut [u8]) -> (r: Result<Vec<usize>, PatchError>)
        ensures
            r is Ok <==> self.pattern@.len() == self.replacement@.len(),
            r matches Ok(v) ==> pattern_patched(
                old(data)@,
                final(data)@,
                self.pattern@,
                self.replacement@,
                v@,
            ),
            r is Err ==> r == Err::<Vec<usize>, PatchError>(
                PatchError::LengthMismatch {
                    before: self.pattern@.len() as usize,
                    after: self.replacement@.len() as usize,
                },
            ) && final(data)@ == old(data)@,
    {
        if self.pattern.len() != self.replacement.len() {
            return Err(
                PatchError::LengthMismatch {
                    before: self.pattern.len(),
                    after: self.replacement.len(),
                },
            );
        }
        let mut hits: Vec<usize> = Vec::new();
        if self.pattern.len() > data.len() {
            return Ok(hits);
        }
        let last = data.len() - self.pattern.len();
        let mut idx: usize = 0;
        let ghost n = scan_len(old(data)@, self.pattern@);
        loop
            invariant_except_break
                data@ == scan(old(data)@, self.pattern@, self.replacement@, idx as nat),
                hits@.len() == scan_hits(old(data)@, self.pattern@, self.replacement@, idx as nat).len(),
                forall|k: int|
                    0 <= k < hits@.len() ==> hits@[k] == scan_hits(
                        old(data)@,
                        self.pattern@,
                        self.replacement@,
                        idx as nat,
                    )[k],
            invariant
                self.pattern@.len() == self.replacement@.len(),
                last + self.pattern@.len() == data@.len(),
                data@.len() == old(data)@.len(),
                n == last + 1,
                idx <= last,
            ensures
                data@ == scan(old(data)@, self.pattern@, self.replacement@, n),
                hits@.len() == scan_hits(old(data)@, self.pattern@, self.replacement@, n).len(),
                forall|k: int|
                    0 <= k < hits@.len() ==> hits@[k] == scan_hits(
                        old(data)@,
                        self.pattern@,
                        self.replacement@,
                        n,
                    )[k],
            decreases last - idx,
        {
            if matches_at(data, self.pattern, idx) {
                write_bytes(data, idx, self.replacement);
                hits.push(idx);
            }
            if idx == last {
                break;
            }
            idx = idx + 1;
        }
        Ok(hits)
    }
}

/// A pattern patch that owns its bytes.
#[derive(Debug)]
pub struct OwnedPatternPatch {
    pub pattern: Vec<u8>,
    pub replacement: Vec<u8>,
}

impl OwnedPatternPatch {
    /// The same patch, borrowing the bytes.
    pub fn to_pattern_patch(&self) -> (r: PatternPatch<'_>)
        ensures
            r.pattern@ == self.pattern@,
            r.replacement@ == self.replacement@,
    {
        PatternPatch { pattern: self.pattern.as_slice(), replacement: self.replacement.as_slice() }
    }

    /// Applies the patch as `PatternPatch::apply` does.
    pub fn apply(&self, data: &mut [u8]) -> (r: Result<Vec<usize>, PatchError>)
        ensures
            r is Ok <==> self.pattern@.len() == self.replacement@.len(),
            r matches Ok(v) ==> pattern_patched(
                old(data)@,
                final(data)@,
                self.pattern@,
                self.replacement@,
                v@,
            ),
            r is Err ==> r == Err::<Vec<usize>, PatchError>(
                PatchError::LengthMismatch {
                    before: self.pattern@.len() as usize,
                    after: self.replacement@.len() as usize,
                },
            ) && final(data)@ == old(data)@,
    {
        self.to_pattern_patch().apply(data)
    }
}

/// Builds the patches that rewrite the immediate absolute operands of
/// instructions: one for each opcode prefix and each pair of address bytes,
/// in that order, replacing `prefix ++ from` by `prefix ++ to`.
pub fn build_op_patches(prefixes: &[&[u8]], suffixes: &[(&[u8], &[u8])]) -> (r: Vec<
    OwnedPatternPatch,
>)
    requires
        prefixes@.len() * suffixes@.len() <= usize::MAX,
        forall|i: int| 0 <= i < prefixes@.len() ==> prefixes@[i]@.len() <= usize::MAX / 2,
        forall|j: int|
            0 <= j < suffixes@.len() ==> suffixes@[j].0@.len() <= usize::MAX / 2
                && suffixes@[j].1@.len() <= usize::MAX / 2,
    ensures
        r@.len() == prefixes@.len() * suffixes@.len(),
        forall|i: int, j: int|
            0 <= i < prefixes@.len() && 0 <= j < suffixes@.len() ==> {
                let p = #[trigger] r@[i * suffixes@.len() + j];
                &&& p.pattern@ == prefixes@[i]@ + suffixes@[j].0@
                &&& p.replacement@ == prefixes@[i]@ + suffixes@[j].1@
            },
{
    let mut patterns: Vec<OwnedPatternPatch> = Vec::new();
    let m = suffixes.len();
    let mut i: usize = 0;
    while i < prefixes.len()
        invariant
            m == suffixes@.len(),
            i <= prefixes@.len(),
            prefixes@.len() * m <= usize::MAX,
            forall|a: int| 0 <= a < prefixes@.len() ==> prefixes@[a]@.len() <= usize::MAX / 2,
            forall|b: int|
                0 <= b < suffixes@.len() ==> suffixes@[b].0@.len() <= usize::MAX / 2
                    && suffixes@[b].1@.len() <= usize::MAX / 2,
            patterns@.len() == i * m,
            forall|a: int, b: int|
                0 <= a < i && 0 <= b < m ==> {
                    let p = #[trigger] patterns@[a * m + b];
                    &&& p.pattern@ == prefixes@[a]@ + suffixes@[b].0@
                    &&& p.replacement@ == prefixes@[a]@ + suffixes@[b].1@
                },
        decreases prefixes@.len() - i,
    {
        let prefix = prefixes[i];
        let mut j: usize = 0;
        while j < m
            invariant
                m == suffixes@.len(),
                i < prefixes@.len(),
                prefix@ == prefixes@[i as int]@,
                prefix@.len() <= usize::MAX / 2,
                forall|b: int|
                    0 <= b < suffixes@.len() ==> suffixes@[b].0@.len() <= usize::MAX / 2
                        && suffixes@[b].1@.len() <= usize::MAX / 2,
                j <= m,
                patterns@.len() == i * m + j,
                forall|a: int, b: int|
                    0 <= a < i && 0 <= b < m ==> {
                        let p = #[trigger] patterns@[a * m + b];
                        &&& p.pattern@ == prefixes@[a]@ + suffixes@[b].0@
                        &&& p.replacement@ == prefixes@[a]@ + suffixes@[b].1@
                    },
                forall|b: int|
                    0 <= b < j ==> {
                        let p = #[trigger] patterns@[i * m + b];
                        &&& p.pattern@ == prefixes@[i as int]@ + suffixes@[b].0@
                        &&& p.replacement@ == prefixes@[i as int]@ + suffixes@[b].1@
                    },
            decreases m - j,
        {
            let (suffix_l, suffix_r) = suffixes[j];
            let pattern = concat(prefix, suffix_l);
            let replacement = concat(prefix, suffix_r);
            assert(i * m + j + 1 <= prefixes@.len() * m) by (nonlinear_arith)
                requires
                    i < prefixes@.len(),
                    j < m,
            ;
            let ghost prev = patterns@;
            patterns.push(OwnedPatternPatch { pattern, replacement });
            proof {
                assert forall|a: int, b: int| 0 <= a < i && 0 <= b < m implies {
                    let p = #[trigger] patterns@[a * m + b];
                    &&& p.pattern@ == prefixes@[a]@ + suffixes@[b].0@
                    &&& p.replacement@ == prefixes@[a]@ + suffixes@[b].1@
                } by {
                    assert(a * m + b < i * m) by (nonlinear_arith)
                        requires
                            0 <= a < i,
                            0 <= b < m,
                    ;
                    assert(patterns@[a * m + b] == prev[a * m + b]);
                }
            }
            j = j + 1;
        }
        assert((i + 1) * m == i * m + m) by (nonlinear_arith);
        i = i + 1;
        proof {
            assert forall|a: int, b: int| 0 <= a < i && 0 <= b < m implies {
                let p = #[trigger] patterns@[a * m + b];
                &&& p.pattern@ == prefixes@[a]@ + suffixes@[b].0@
                &&& p.replacement@ == prefixes@[a]@ + suffixes@[b].1@
            } by {
                if a == i - 1 {
                    assert(patterns@[a * m + b] == patterns@[(i - 1) * m + b]);
                }
            }
        }
    }
    patterns
}

/// The bytes of `a` followed by those of `b`.
fn concat(a: &[u8], b: &[u8]) -> (r: Vec<u8>)
    requires
        a@.len() + b@.len() <= usize::MAX,
    ensures
        r@ == a@ + b@,
{
    let mut r = vstd::slice::slice_to_vec(a);
    r.extend_from_slice(b);
    assert(r@ =~= a@ + b@);
    r
}

/// A patch at evenly spaced offsets: `start_addr`, `start_addr + step`, ...
/// up to `end_addr` inclusive, each one an exact patch.
#[derive(Debug)]
pub struct ArrayPatch<'a> {
    pub start_addr: usize,
    pub end_addr: usize,
    pub step: usize,
    pub before: &'a [u8],
    pub after: &'a [u8],
}

impl<'a> ArrayPatch<'a> {
    /// The number of sites: `(end - start) / step + 1`, none when `start > end`.
    pub open spec fn site_count(&self) -> nat {
        if self.start_addr <= self.end_addr {
            ((self.end_addr - self.start_addr) / (self.step as int) + 1) as nat
        } else {
            0
        }
    }

    /// The exact patch at site `k`.
    pub open spec fn site(&self, k: int) -> Patch<'a> {
        Patch { addr: (self.start_addr + k * self.step) as usize, before: self.before, after: self.after }
    }

    /// The image after the first `k` sites were patched, or `None` when one
    /// of them failed.
    pub open spec fn run(&self, buf: Seq<u8>, k: nat) -> Option<Seq<u8>>
        decreases k,
    {
        if k == 0 {
            Some(buf)
        } else {
            match self.run(buf, (k - 1) as nat) {
                Some(b) => if self.site(k - 1).applies(b) {
                    Some(self.site(k - 1).result(b))
                } else {
                    None
                },
                None => None,
            }
        }
    }

    proof fn lemma_run_fails_after(&self, buf: Seq<u8>, k: nat, n: nat)
        requires
            self.run(buf, k) is None,
            k <= n,
        ensures
            self.run(buf, n) is None,
        decreases n - k,
    {
        if k < n {
            self.lemma_run_fails_after(buf, k, (n - 1) as nat);
        }
    }

    /// Applies the exact patch at each site in increasing order; returns the
    /// sites. Stops at the first site that fails, with its error: the sites
    /// before it stay patched.
    pub fn apply(&self, data: &mut [u8]) -> (r: Result<Vec<usize>, PatchError>)
        requires
            self.step > 0,
        ensures
            r is Ok <==> self.run(old(data)@, self.site_count()) is Some,
            r matches Ok(v) ==> {
                &&& final(data)@ == self.run(old(data)@, self.site_count())->Some_0
                &&& v@.len() == self.site_count()
                &&& forall|k: int| 0 <= k < v@.len() ==> v@[k] == self.start_addr + k * self.step
            },
            r matches Err(e) ==> exists|k: nat|
                {
                    &&& k < self.site_count()
                    &&& self.run(old(data)@, k) == Some(final(data)@)
                    &&& !self.site(k as int).applies(final(data)@)
                    &&& self.site(k as int).error_for(final(data)@, e)
                },
            self.start_addr <= self.end_addr ==> self.site_count() == (self.end_addr
                - self.start_addr) / (self.step as int) + 1,
    {
        let mut sites: Vec<usize> = Vec::new();
        if self.start_addr > self.end_addr {
            return Ok(sites);
        }
        let mut addr = self.start_addr;
        let ghost n = self.site_count();
        loop
            invariant
                self.step > 0,
                self.start_addr <= addr <= self.end_addr,
                n == self.site_count(),
                sites@.len() < n,
                addr == self.start_addr + sites@.len() * self.step,
                self.run(old(data)@, sites@.len() as nat) == Some(data@),
                forall|k: int| 0 <= k < sites@.len() ==> sites@[k] == self.start_addr + k * self.step,
            decreases n - sites@.len(),
        {
            let ghost k: int = sites@.len() as int;
            let p = Patch { addr, before: self.before, after: self.after };
            assert(p == self.site(k as int));
            match p.apply(data) {
                Ok(()) => {},
                Err(e) => {
                    proof {
                        self.lemma_run_fails_after(old(data)@, (k + 1) as nat, n);
                    }
                    return Err(e);
                },
            }
            sites.push(addr);
            if self.end_addr - addr < self.step {
                proof {
                    let d = self.end_addr - self.start_addr;
                    assert(d == k * self.step + (self.end_addr - addr)) by (nonlinear_arith)
                        requires
                            addr == self.start_addr + k * self.step,
                            self.start_addr <= addr <= self.end_addr,
                            d == self.end_addr - self.start_addr,
                    ;
                    vstd::arithmetic::div_mod::lemma_fundamental_div_mod_converse(
                        d,
                        self.step as int,
                        k,
                        self.end_addr - addr,
                    );
                }
                return Ok(sites);
            }
            assert(self.start_addr + (k + 1) * self.step == self.start_addr + k * self.step
                + self.step) by (nonlinear_arith);
            addr = addr + self.step;
            proof {
                let d = self.end_addr - self.start_addr;
                assert((k + 1) * self.step <= d) by (nonlinear_arith)
                    requires
                        addr == self.start_addr + (k + 1) * self.step,
                        addr <= self.end_addr,
                        d == self.end_addr - self.start_addr,
                ;
                vstd::arithmetic::div_mod::lemma_div_is_ordered((k + 1) * self.step, d, self.step as int);
                vstd::arithmetic::div_mod::lemma_div_multiples_vanish(k + 1, self.step as int);
            }
        }
    }
}

/// The image after the exact patches `ps[..k]` in order, or `None` when
/// one of them fails.
pub open spec fn run_exact<'a>(ps: Seq<Patch<'a>>, buf: Seq<u8>, k: nat) -> Option<Seq<u8>>
    decreases k,
{
    if k == 0 {
        Some(buf)
    } else {
        match run_exact(ps, buf, (k - 1) as nat) {
            Some(b) => if ps[k - 1].applies(b) {
                Some(ps[k - 1].result(b))
            } else {
                None
            },
            None => None,
        }
    }
}

/// Whether `after` and `r` are what applying the exact patches `ps` in order
/// to `before` gives: all of them, or those before the first that fails,
/// whose error is returned.
pub open spec fn exact_all_patched<'a>(
    ps: Seq<Patch<'a>>,
    before: Seq<u8>,
    after: Seq<u8>,
    r: Result<(), PatchError>,
) -> bool {
    match r {
        Ok(()) => run_exact(ps, before, ps.len()) == Some(after),
        Err(e) => {
            &&& run_exact(ps, before, ps.len()) is None
            &&& exists|k: nat|
                {
                    &&& k < ps.len()
                    &&& run_exact(ps, before, k) == Some(after)
                    &&& !(#[trigger] ps[k as int]).applies(after)
                    &&& ps[k as int].error_for(after, e)
                }
        },
    }
}

proof fn lemma_run_exact_fails_after<'a>(ps: Seq<Patch<'a>>, buf: Seq<u8>, k: nat, n: nat)
    requires
        run_exact(ps, buf, k) is None,
        k <= n,
    ensures
        run_exact(ps, buf, n) is None,
    decreases n - k,
{
    if k < n {
        lemma_run_exact_fails_after(ps, buf, k, (n - 1) as nat);
    }
}

/// Applies the exact patches in order, stopping at the first that fails.
pub fn apply_all(patches: &[Patch], data: &mut [u8]) -> (r: Result<(), PatchError>)
    ensures
        exact_all_patched(patches@, old(data)@, final(data)@, r),
{
    let mut i: usize = 0;
    while i < patches.len()
        invariant
            i <= patches@.len(),
            run_exact(patches@, old(data)@, i as nat) == Some(data@),
        decreases patches@.len() - i,
    {
        let ghost cur = data@;
        match patches[i].apply(data) {
            Ok(()) => {},
            Err(e) => {
                proof {
                    lemma_run_exact_fails_after(patches@, old(data)@, (i + 1) as nat, patches@.len());
                    assert(!patches@[i as int].applies(data@));
                }
                return Err(e);
            },
        }
        i = i + 1;
    }
    Ok(())
}

/// The image after the pattern patches `ps[..k]` in order, or `None` when
/// one of them fails.
pub open spec fn run_patterns(ps: Seq<OwnedPatternPatch>, buf: Seq<u8>, k: nat) -> Option<
    Seq<u8>,
>
    decreases k,
{
    if k == 0 {
        Some(buf)
    } else {
        match run_patterns(ps, buf, (k - 1) as nat) {
            Some(b) => {
                let p = ps[k - 1];
                if p.pattern@.len() == p.replacement@.len() {
                    Some(scan(b, p.pattern@, p.replacement@, scan_len(b, p.pattern@)))
                } else {
                    None
                }
            },
            None => None,
        }
    }
}

/// Whether `after` and `r` are what applying the pattern patches `ps` in
/// order to `before` gives: all of them, or those before the first that
/// fails, whose error is returned.
pub open spec fn patterns_all_patched(
    ps: Seq<OwnedPatternPatch>,
    before: Seq<u8>,
    after: Seq<u8>,
    r: Result<(), PatchError>,
) -> bool {
    match r {
        Ok(()) => run_patterns(ps, before, ps.len()) == Some(after),
        Err(e) => {
            &&& run_patterns(ps, before, ps.len()) is None
            &&& exists|k: nat|
                {
                    &&& k < ps.len()
                    &&& run_patterns(ps, before, k) == Some(after)
                    &&& (#[trigger] ps[k as int]).pattern@.len() != ps[k as int].replacement@.len()
                    &&& e == PatchError::LengthMismatch {
                        before: ps[k as int].pattern@.len() as usize,
                        after: ps[k as int].replacement@.len() as usize,
                    }
                }
        },
    }
}

proof fn lemma_run_patterns_fails_after(ps: Seq<OwnedPatternPatch>, buf: Seq<u8>, k: nat, n: nat)
    requires
        run_patterns(ps, buf, k) is None,
        k <= n,
    ensures
        run_patterns(ps, buf, n) is None,
    decreases n - k,
{
    if k < n {
        lemma_run_patterns_fails_after(ps, buf, k, (n - 1) as nat);
    }
}

/// Applies the pattern patches in order, stopping at the first that fails.
pub fn apply_all_patterns(patches: &[OwnedPatternPatch], data: &mut [u8]) -> (r: Result<
    (),
    PatchError,
>)
    ensures
        patterns_all_patched(patches@, old(data)@, final(data)@, r),
{
    let mut i: usize = 0;
    while i < patches.len()
        invariant
            i <= patches@.len(),
            run_patterns(patches@, old(data)@, i as nat) == Some(data@),
        decreases patches@.len() - i,
    {
        match patches[i].apply(data) {
            Ok(_) => {},
            Err(e) => {
                proof {
                    lemma_run_patterns_fails_after(patches@, old(data)@, (i + 1) as nat, patches@.len());
                    assert(patches@[i as int].pattern@.len() != patches@[i as int].replacement@.len());
                }
                return Err(e);
            },
        }
        i = i + 1;
    }
    Ok(())
}

/// The patch set of one resource: its type and id, its exact patches (or
/// `None` for the generic operand patches), the length of its data, and the
/// first four bytes of its data, by which it is found in a disk image.
#[derive(Debug)]
pub struct ResourcePatch<'a> {
    pub res_type: &'a str,
    pub res_id: i16,
    pub patches: Option<&'a [Patch<'a>]>,
    pub length: usize,
    pub prefix: &'a [u8],
}

impl<'a> ResourcePatch<'a> {
    /// Whether `after` and `r` are what patching the resource data `before`
    /// gives, with `ops` as the generic operand patches.
    pub open spec fn patched(
        &self,
        ops: Seq<OwnedPatternPatch>,
        before: Seq<u8>,
        after: Seq<u8>,
        r: Result<(), PatchError>,
    ) -> bool {
        match self.patches {
            Some(ps) => exact_all_patched(ps@, before, after, r),
            None => patterns_all_patched(ops, before, after, r),
        }
    }

    /// Patches the resource's data: its own exact patches where it has them,
    /// else the generic operand patches `ops`.
    pub fn patch_data(&self, ops: &[OwnedPatternPatch], data: &mut [u8]) -> (r: Result<
        (),
        PatchError,
    >)
        ensures
            self.patched(ops@, old(data)@, final(data)@, r),
    {
        match self.patches {
            Some(patches) => apply_all(patches, data),
            None => apply_all_patterns(ops, data),
        }
    }
}

/// Whether entry `e` of a patch table is the one for type `ty` and id `id`.
pub open spec fn is_entry_for<'a>(e: ResourcePatch<'a>, ty: Seq<u8>, id: i16) -> bool {
    e.res_type.spec_bytes() == ty && e.res_id == id
}

/// The index of the first of the entries `table[..k]` for type `ty` and id `id`.
pub open spec fn first_entry_below<'a>(table: Seq<ResourcePatch<'a>>, ty: Seq<u8>, id: i16, k: nat) -> Option<
    int,
>
    decreases k,
{
    if k == 0 {
        None
    } else {
        match first_entry_below(table, ty, id, (k - 1) as nat) {
            Some(i) => Some(i),
            None => if is_entry_for(table[k - 1], ty, id) {
                Some(k - 1)
            } else {
                None
            },
        }
    }
}

proof fn lemma_first_entry_stays<'a>(
    table: Seq<ResourcePatch<'a>>,
    ty: Seq<u8>,
    id: i16,
    k: nat,
    n: nat,
)
    requires
        first_entry_below(table, ty, id, k) is Some,
        k <= n,
    ensures
        first_entry_below(table, ty, id, n) == first_entry_below(table, ty, id, k),
    decreases n - k,
{
    if k < n {
        lemma_first_entry_stays(table, ty, id, k, (n - 1) as nat);
    }
}

/// Patches the data of resource `res_type` `res_id` with the first entry of
/// `table` for it; fails with `UnknownResource`, writing nothing, where the
/// table has none.
pub fn patch_resource(
    table: &[ResourcePatch],
    ops: &[OwnedPatternPatch],
    res_type: &str,
    res_id: i16,
    data: &mut [u8],
) -> (r: Result<(), PatchError>)
    ensures
        match first_entry_below(table@, res_type.spec_bytes(), res_id, table@.len()) {
            Some(i) => table@[i].patched(ops@, old(data)@, final(data)@, r),
            None => r == Err::<(), PatchError>(PatchError::UnknownResource) && final(data)@ == old(
                data,
            )@,
        },
{
    let want = res_type.as_bytes();
    let mut i: usize = 0;
    while i < table.len()
        invariant
            i <= table@.len(),
            want@ == res_type.spec_bytes(),
            first_entry_below(table@, want@, res_id, i as nat) is None,
            data@ == old(data)@,
        decreases table@.len() - i,
    {
        let have = table[i].res_type.as_bytes();
        let same_type = have.len() == want.len() && matches_at(have, want, 0);
        assert(same_type <==> have@ == want@) by {
            if have@.len() == want@.len() {
                assert(have@.subrange(0, want@.len() as int) =~= have@);
            }
        }
        if same_type && table[i].res_id == res_id {
            proof {
                lemma_first_entry_stays(table@, want@, res_id, (i + 1) as nat, table@.len());
            }
            return table[i].patch_data(ops, data);
        }
        i = i + 1;
    }
    Err(PatchError::UnknownResource)
}

/// A second application of an exact patch fails, unless `after` equals the
/// first bytes of `before`: the span then begins with `after`.
pub proof fn lemma_exact_patch_not_repeatable<'a>(p: Patch<'a>, buf: Seq<u8>)
    requires
        p.applies(buf),
        p.after@ != p.before@.subrange(0, p.after@.len() as int),
    ensures
        !p.applies(p.result(buf)),
{
    let a = p.addr as int;
    let after = p.result(buf);
    if p.applies(after) {
        assert(p.before@.subrange(0, p.after@.len() as int) =~= p.after@) by {
            assert forall|t: int| 0 <= t < p.after@.len() implies p.before@[t] == p.after@[t] by {
                assert(after.subrange(a, a + p.before@.len())[t] == after[a + t]);
            }
        }
    }
}

/// Whether `a` and `b` have no byte value in common.
pub open spec fn disjoint_bytes(a: Seq<u8>, b: Seq<u8>) -> bool {
    forall|i: int, j: int| 0 <= i < a.len() && 0 <= j < b.len() ==> a[i] != b[j]
}

proof fn lemma_scan_facts(buf: Seq<u8>, pat: Seq<u8>, rep: Seq<u8>, k: nat)
    requires
        pat.len() == rep.len(),
        pat.len() > 0,
        disjoint_bytes(pat, rep),
    ensures
        scan(buf, pat, rep, k).len() == buf.len(),
        forall|j: int| 0 <= j < k ==> !occurs_at(scan(buf, pat, rep, k), pat, j),
        forall|t: int|
            0 <= t < scan_hits(buf, pat, rep, k).len() ==> {
                let h = #[trigger] scan_hits(buf, pat, rep, k)[t];
                &&& 0 <= h < k
                &&& h + pat.len() <= buf.len()
                &&& scan(buf, pat, rep, k).subrange(h, h + pat.len()) == rep
            },
    decreases k,
{
    if k > 0 {
        let k1 = (k - 1) as nat;
        lemma_scan_facts(buf, pat, rep, k1);
        let b = scan(buf, pat, rep, k1);
        let hs = scan_hits(buf, pat, rep, k1);
        let i = k1 as int;
        let len = pat.len() as int;
        if occurs_at(b, pat, i) {
            let b2 = overwrite(b, i, rep);
            assert(b2 == scan(buf, pat, rep, k));
            assert forall|j: int| 0 <= j < k implies !occurs_at(b2, pat, j) by {
                if j + len <= b2.len() {
                    if j + len > i && j <= i {
                        assert(b2.subrange(j, j + len)[i - j] == rep[0]);
                        assert(pat[i - j] != rep[0]);
                    } else {
                        assert(!occurs_at(b, pat, j));
                        assert(b2.subrange(j, j + len) =~= b.subrange(j, j + len));
                    }
                }
            }
            assert forall|t: int| 0 <= t < hs.len() implies b2.subrange(
                #[trigger] hs[t],
                hs[t] + len,
            ) == rep by {
                let h = hs[t];
                assert(b.subrange(h, h + len) == rep);
                if h + len > i {
                    assert(b.subrange(h, h + len)[i - h] == b[i]);
                    assert(b.subrange(i, i + len)[0] == b[i]);
                    assert(pat[0] != rep[i - h]);
                } else {
                    assert(b2.subrange(h, h + len) =~= b.subrange(h, h + len));
                }
            }
            assert(b2.subrange(i, i + len) =~= rep);
            assert(scan_hits(buf, pat, rep, k) == hs.push(i));
        }
    }
}

proof fn lemma_no_occurrences_below(buf: Seq<u8>, pat: Seq<u8>, m: nat)
    requires
        forall|j: int| 0 <= j < m ==> !occurs_at(buf, pat, j),
    ensures
        occurrences_below(buf, pat, m).len() == 0,
    decreases m,
{
    if m > 0 {
        lemma_no_occurrences_below(buf, pat, (m - 1) as nat);
    }
}

/// Where the pattern is not empty and shares no byte value with the
/// replacement, a pattern patch leaves no occurrence of the pattern, so it
/// leaves strictly fewer than there were whenever there was one; and every
/// offset that it reports then holds the replacement.
pub proof fn lemma_pattern_patch_clears(buf: Seq<u8>, pat: Seq<u8>, rep: Seq<u8>)
    requires
        pat.len() == rep.len(),
        pat.len() > 0,
        disjoint_bytes(pat, rep),
    ensures
        ({
            let n = scan_len(buf, pat);
            let after = scan(buf, pat, rep, n);
            let hits = scan_hits(buf, pat, rep, n);
            &&& occurrences(after, pat).len() == 0
            &&& occurrences(buf, pat).len() > 0 ==> occurrences(after, pat).len() < occurrences(
                buf,
                pat,
            ).len()
            &&& forall|t: int|
                0 <= t < hits.len() ==> after.subrange(#[trigger] hits[t], hits[t] + pat.len())
                    == rep
        }),
{
    let n = scan_len(buf, pat);
    let after = scan(buf, pat, rep, n);
    lemma_scan_facts(buf, pat, rep, n);
    assert forall|j: int| 0 <= j < after.len() + 1 implies !occurs_at(after, pat, j) by {
        if j >= n {
            assert(j + pat.len() > buf.len());
        }
    }
    lemma_no_occurrences_below(after, pat, after.len() + 1);
}

/// Writes `bytes` into `data` from offset `at` on.
fn write_bytes(data: &mut [u8], at: usize, bytes: &[u8])
    requires
        at + bytes@.len() <= old(data)@.len(),
    ensures
        final(data)@ == overwrite(old(data)@, at as int, bytes@),
{
    let mut j: usize = 0;
    assert(data@.len() == data.len());
    while j < bytes.len()
        invariant
            at + bytes@.len() <= data@.len(),
            data@.len() <= usize::MAX,
            j <= bytes@.len(),
            data@.len() == old(data)@.len(),
            forall|t: int|
                0 <= t < data@.len() ==> data@[t] == if at <= t < at + j {
                    bytes@[t - at]
                } else {
                    old(data)@[t]
                },
        decreases bytes@.len() - j,
    {
        data[at + j] = bytes[j];
        j = j + 1;
    }
    assert(data@ =~= overwrite(old(data)@, at as int, bytes@));
}

} // verus!
