//! The match finder: for each unit of a cache device, the source units whose
//! blocks its sub-blocks hold at the same position, with a vote per such
//! sub-block, and the count of digest hits at any other position.
use vstd::prelude::*;
use vstd::slice::slice_subrange;
use crate::digest::block_digest;
use crate::digest::hash_block;
use crate::index::build_then_load;
use crate::index::block_count;
use crate::index::index_entries;
use crate::index::index_image;
use crate::index::lemma_positions;
use crate::index::source_digests;
use crate::index::positions;
use crate::index::window;
use crate::index::DigestIndex;
use crate::BLOCK_SIZE;

verus! {

/// A cache-unit size that the finder cannot work with.
#[derive(Debug, Clone, Copy, PartialEq, Eq, Structural)]
pub enum ConfigError {
    /// Zero sectors, a size that is not a whole number of blocks, or one
    /// that does not fit in memory addresses.
    InvalidUnitSize,
}

/// Whether a cache unit of `sectors` sectors of 512 bytes is usable: positive,
/// a whole number of blocks, and addressable.
pub open spec fn valid_unit_sectors(sectors: nat) -> bool {
    &&& sectors > 0
    &&& (512 * sectors) % 8192 == 0
    &&& 512 * sectors <= usize::MAX
}

/// Number of blocks in a cache unit of `sectors` sectors.
pub fn sub_blocks_per_unit(sectors: usize) -> (r: Result<usize, ConfigError>)
    ensures
        r is Ok <==> valid_unit_sectors(sectors as nat),
        r matches Ok(s) ==> s == 512 * sectors / 8192 && s > 0,
{
    let ghost n = sectors as int;
    assert(512 * n == 8192 * (n / 16) + 512 * (n % 16)) by (nonlinear_arith);
    assert((512 * n) % 8192 == 512 * (n % 16)) by (nonlinear_arith)
        requires 512 * n == 8192 * (n / 16) + 512 * (n % 16), 0 <= n % 16 < 16, n >= 0;
    assert(512 * n / 8192 == n / 16) by (nonlinear_arith)
        requires 512 * n == 8192 * (n / 16) + 512 * (n % 16), 0 <= n % 16 < 16, n >= 0;
    if sectors == 0 || sectors % 16 != 0 || sectors > usize::MAX / 512 {
        return Err(ConfigError::InvalidUnitSize);
    }
    Ok(sectors / 16)
}

/// Number of whole cache units of `s` blocks in a device of `len` bytes; a
/// trailing partial unit is ignored.
pub fn unit_count(len: usize, s: usize) -> (r: usize)
    requires
        s > 0,
        s * 8192 <= usize::MAX,
    ensures
        r as int == len as int / (s * 8192),
{
    len / (s * BLOCK_SIZE)
}

/// Digest of sub-block `p` of cache unit `u`, units being `s` blocks long.
pub open spec fn sub_digest(cache: Seq<u8>, s: int, u: int, p: int) -> Seq<u8> {
    block_digest(window(cache, (u * s + p) * 8192))
}

/// Whether sub-block `p` of cache unit `u` holds the block at the same
/// position in source unit `o`.
pub open spec fn hit(e: Seq<Seq<u8>>, cache: Seq<u8>, s: int, u: int, o: int, p: int) -> bool {
    &&& 0 <= o * s + p < e.len()
    &&& e[o * s + p] == sub_digest(cache, s, u, p)
}

/// Votes for source unit `o` from the first `m` sub-blocks of cache unit `u`.
pub open spec fn votes(e: Seq<Seq<u8>>, cache: Seq<u8>, s: int, u: int, o: int, m: int) -> nat
    decreases m,
{
    if m <= 0 {
        0
    } else {
        votes(e, cache, s, u, o, m - 1) + if hit(e, cache, s, u, o, m - 1) { 1nat } else { 0nat }
    }
}

/// Number of source blocks in `hits` that lie at another position than `p`
/// within their own unit of `s` blocks.
pub open spec fn misplaced(hits: Seq<int>, s: int, p: int) -> nat
    decreases hits.len(),
{
    if hits.len() == 0 {
        0
    } else {
        misplaced(hits.drop_last(), s, p) + if hits.last() % s != p { 1nat } else { 0nat }
    }
}

/// Fake matches from the first `m` sub-blocks of cache unit `u`: digest hits
/// on source blocks at another position within their unit.
pub open spec fn fakes(e: Seq<Seq<u8>>, cache: Seq<u8>, s: int, u: int, m: int) -> nat
    decreases m,
{
    if m <= 0 {
        0
    } else {
        fakes(e, cache, s, u, m - 1)
            + misplaced(positions(e, sub_digest(cache, s, u, m - 1), e.len() as int), s, m - 1)
    }
}

/// One candidate origin of a cache unit and the votes it received.
#[derive(Debug, Clone, Copy, PartialEq, Eq, Structural)]
pub struct Vote {
    /// The source unit.
    pub origin: usize,
    /// Sub-blocks of the cache unit that hold its block at the same position.
    pub count: usize,
}

/// Ranking order: more votes first, then the lower source unit.
pub open spec fn ranks_before(a: Vote, b: Vote) -> bool {
    a.count > b.count || (a.count == b.count && a.origin < b.origin)
}

/// Whether `r` lists the votes in strict ranking order.
pub open spec fn is_ranked(r: Seq<Vote>) -> bool {
    forall|i: int, j: int| 0 <= i < j < r.len() ==> ranks_before(r[i], r[j])
}

/// Whether no two votes of `v` name the same source unit.
pub open spec fn distinct_origins(v: Seq<Vote>) -> bool {
    forall|i: int, j: int| 0 <= i < j < v.len() ==> v[i].origin != v[j].origin
}

/// Where `x` goes in the ranked list `r`: after every vote that ranks before it.
fn rank_position(r: &Vec<Vote>, x: Vote) -> (k: usize)
    requires
        is_ranked(r@),
    ensures
        k <= r@.len(),
        forall|i: int| 0 <= i < k ==> ranks_before(r@[i], x),
        forall|i: int| k <= i < r@.len() ==> !ranks_before(r@[i], x),
{
    let mut k: usize = 0;
    while k < r.len() && (r[k].count > x.count || (r[k].count == x.count && r[k].origin < x.origin))
        invariant
            is_ranked(r@),
            k <= r@.len(),
            forall|i: int| 0 <= i < k ==> ranks_before(r@[i], x),
        decreases r@.len() - k,
    {
        k = k + 1;
    }
    assert forall|i: int| k <= i < r@.len() implies !ranks_before(r@[i], x) by {
        if k < i {
            assert(ranks_before(r@[k as int], r@[i]));
        }
    }
    k
}

/// The votes of `v` in ranking order: most votes first, ties by ascending
/// source unit.
pub fn rank(v: &Vec<Vote>) -> (r: Vec<Vote>)
    requires
        distinct_origins(v@),
    ensures
        is_ranked(r@),
        r@.len() == v@.len(),
        forall|x: Vote| r@.contains(x) <==> v@.contains(x),
{
    let mut r: Vec<Vote> = Vec::new();
    let mut i: usize = 0;
    while i < v.len()
        invariant
            distinct_origins(v@),
            i <= v@.len(),
            is_ranked(r@),
            r@.len() == i,
            forall|x: Vote| r@.contains(x) <==> v@.take(i as int).contains(x),
        decreases v@.len() - i,
    {
        let x = v[i];
        let k = rank_position(&r, x);
        let ghost prev = r@;
        assert forall|m: int| 0 <= m < prev.len() implies prev[m].origin != x.origin by {
            assert(prev.contains(prev[m]));
            assert(v@.take(i as int).contains(prev[m]));
            let vt = v@.take(i as int);
            let q = choose|q: int| 0 <= q < vt.len() && vt[q] == prev[m];
            assert(v@[q] == prev[m]);
        }
        r.insert(k, x);
        assert(r@ =~= prev.take(k as int).push(x) + prev.skip(k as int));
        assert(v@.take(i + 1) =~= v@.take(i as int).push(x));
        assert forall|y: Vote| r@.contains(y) <==> v@.take(i + 1).contains(y) by {
            if r@.contains(y) {
                let q = choose|q: int| 0 <= q < r@.len() && r@[q] == y;
                if q < k {
                    assert(prev[q] == y);
                } else if q > k {
                    assert(prev[q - 1] == y);
                }
                assert(y == x || prev.contains(y));
                if y == x {
                    assert(v@.take(i + 1)[i as int] == y);
                } else {
                    assert(v@.take(i as int).contains(y));
                    let vt = v@.take(i as int);
                    let q1 = choose|q: int| 0 <= q < vt.len() && vt[q] == y;
                    assert(v@.take(i + 1)[q1] == y);
                }
            }
            if v@.take(i + 1).contains(y) {
                if y != x {
                    let vt = v@.take(i + 1);
                    let q0 = choose|q: int| 0 <= q < vt.len() && vt[q] == y;
                    assert(v@.take(i as int)[q0] == y);
                    assert(v@.take(i as int).contains(y));
                    assert(prev.contains(y));
                    let q = choose|q: int| 0 <= q < prev.len() && prev[q] == y;
                    if q < k {
                        assert(r@[q] == y);
                    } else {
                        assert(r@[q + 1] == y);
                    }
                } else {
                    assert(r@[k as int] == y);
                }
            }
        }
        i = i + 1;
    }
    assert(v@.take(i as int) =~= v@);
    r
}

/// Whether some vote of `v` is for source unit `o`.
pub open spec fn has_origin(v: Seq<Vote>, o: int) -> bool {
    exists|k: int| 0 <= k < v.len() && v[k].origin == o
}

/// A unit gets at most one vote per sub-block.
proof fn lemma_votes_bound(e: Seq<Seq<u8>>, cache: Seq<u8>, s: int, u: int, o: int, m: int)
    requires
        m >= 0,
    ensures
        votes(e, cache, s, u, o, m) <= m,
    decreases m,
{
    if m > 0 {
        lemma_votes_bound(e, cache, s, u, o, m - 1);
    }
}

/// At most every hit is misplaced.
proof fn lemma_misplaced_bound(hits: Seq<int>, s: int, p: int)
    ensures
        misplaced(hits, s, p) <= hits.len(),
    decreases hits.len(),
{
    if hits.len() > 0 {
        lemma_misplaced_bound(hits.drop_last(), s, p);
    }
}

/// Index of the vote for source unit `o` in `v`, if there is one.
fn find_origin(v: &Vec<Vote>, o: usize) -> (r: Option<usize>)
    ensures
        r matches Some(k) ==> k < v@.len() && v@[k as int].origin == o,
        r is None ==> !has_origin(v@, o as int),
{
    let mut k: usize = 0;
    while k < v.len()
        invariant
            k <= v@.len(),
            forall|q: int| 0 <= q < k ==> v@[q].origin != o,
        decreases v@.len() - k,
    {
        if v[k].origin == o {
            return Some(k);
        }
        k = k + 1;
    }
    None
}

/// Votes and fake matches of cache unit `u`, units being `s` blocks long:
/// one vote per source unit that any sub-block matches at its own position,
/// in no particular order, and the number of misplaced hits.
#[verifier::spinoff_prover]
#[verifier::rlimit(50)]
fn tally(index: &DigestIndex, cache: &[u8], s: usize, u: usize) -> (r: (Vec<Vote>, u128))
    requires
        s > 0,
        (u + 1) * s * 8192 <= cache@.len(),
    ensures
        distinct_origins(r.0@),
        forall|k: int| 0 <= k < r.0@.len() ==>
            #[trigger] r.0@[k].count == votes(index@, cache@, s as int, u as int, r.0@[k].origin as int, s as int)
            && r.0@[k].count > 0,
        forall|o: int| #[trigger] votes(index@, cache@, s as int, u as int, o, s as int) > 0 ==> has_origin(r.0@, o),
        r.1 == fakes(index@, cache@, s as int, u as int, s as int),
{
    let ghost e = index@;
    let ghost n = e.len() as int;
    let ghost si = s as int;
    let ghost ui = u as int;
    let clen: usize = cache.len();
    let nn: usize = index.len();
    assert(s * 8192 <= clen && u * (s * 8192) + s * 8192 <= clen) by (nonlinear_arith)
        requires (u + 1) * s * 8192 <= clen, s > 0;
    let unit_bytes: usize = s * BLOCK_SIZE;
    let base: usize = u * unit_bytes;
    let mut v: Vec<Vote> = Vec::new();
    let mut fake: u128 = 0;
    let mut p: usize = 0;
    while p < s
        invariant
            e == index@,
            n == e.len(),
            si == s,
            ui == u,
            s > 0,
            unit_bytes == s * 8192,
            base == u * unit_bytes,
            base + unit_bytes <= cache@.len(),
            p <= s,
            distinct_origins(v@),
            forall|k: int| 0 <= k < v@.len() ==>
                #[trigger] v@[k].count == votes(e, cache@, si, ui, v@[k].origin as int, p as int)
                && v@[k].count > 0,
            forall|o: int| #[trigger] votes(e, cache@, si, ui, o, p as int) > 0 ==> has_origin(v@, o),
            fake == fakes(e, cache@, si, ui, p as int),
            fake <= p * n,
            n == nn,
            clen == cache@.len(),
        decreases s - p,
    {
        assert(base + p * 8192 + 8192 <= cache@.len() && base + p * 8192 == (ui * si + p) * 8192) by (nonlinear_arith)
            requires base == u * unit_bytes, unit_bytes == s * 8192,
                base + unit_bytes <= cache@.len(), p < s, si == s, ui == u;
        let start: usize = base + p * BLOCK_SIZE;
        let block = slice_subrange(cache, start, start + BLOCK_SIZE);
        assert(block@ =~= window(cache@, start as int));
        let d = hash_block(block);
        assert(d@ == sub_digest(cache@, si, ui, p as int));
        let hits = index.lookup(d.as_slice());
        let ghost hs = positions(e, d@, n);
        proof {
            lemma_positions(e, d@, n);
        }
        let mut i: usize = 0;
        while i < hits.len()
            invariant
                e == index@,
                n == e.len(),
                si == s,
                ui == u,
                s > 0,
                p < s,
                hs == positions(e, d@, n),
                d@ == sub_digest(cache@, si, ui, p as int),
                hits@.map_values(|j: usize| j as int) == hs,
                forall|j: int| hs.contains(j) <==> 0 <= j < n && e[j] == d@,
                forall|a: int, b: int| 0 <= a < b < hs.len() ==> hs[a] < hs[b],
                forall|a: int| 0 <= a < hs.len() ==> 0 <= #[trigger] hs[a] < n,
                hs.len() <= n,
                i <= hs.len(),
                distinct_origins(v@),
                forall|k: int| 0 <= k < v@.len() ==>
                    #[trigger] v@[k].count == votes(e, cache@, si, ui, v@[k].origin as int, p as int)
                        + if hs.take(i as int).contains(v@[k].origin * si + p) { 1nat } else { 0nat }
                    && v@[k].count > 0,
                forall|o: int| #[trigger] votes(e, cache@, si, ui, o, p as int) > 0 ==> has_origin(v@, o),
                forall|k: int| 0 <= k < i && #[trigger] hs[k] % si == p ==> has_origin(v@, hs[k] / si),
                fake == fakes(e, cache@, si, ui, p as int) + misplaced(hs.take(i as int), si, p as int),
                fake <= p * n + i,
                n == nn,
            decreases hits@.len() - i,
        {
            let j = hits[i];
            assert(hs[i as int] == j as int);
            let ghost before = hs.take(i as int);
            assert(hs.take(i + 1) =~= before.push(j as int));
            assert(hs.take(i + 1).drop_last() =~= before);
            assert(!before.contains(j as int)) by {
                if before.contains(j as int) {
                    let q = choose|q: int| 0 <= q < before.len() && before[q] == j as int;
                    assert(hs[q] < hs[i as int]);
                }
            }
            proof {
                lemma_misplaced_bound(before, si, p as int);
            }
            if j % s != p {
                assert(p * n + i + 1 <= u128::MAX) by (nonlinear_arith)
                    requires p < s, s <= usize::MAX, n == nn, nn <= usize::MAX, i < n;
                fake = fake + 1;
                assert forall|k: int| 0 <= k < v@.len() implies #[trigger] v@[k].count == votes(e, cache@, si, ui, v@[k].origin as int, p as int)
                        + if hs.take(i + 1).contains(v@[k].origin * si + p) { 1nat } else { 0nat } by {
                    let o = v@[k].origin as int;
                    if o * si + p == j as int {
                        assert((o * si + p) % si == p) by (nonlinear_arith) requires 0 <= p < si;
                    }
                    assert(hs.take(i + 1).contains(o * si + p) == before.contains(o * si + p));
                }
            } else {
                let o: usize = j / s;
                assert(j as int == o * si + p) by (nonlinear_arith)
                    requires o == j / s, p == j % s, si == s, s > 0;
                assert(hs.take(i + 1)[i as int] == j as int);
                assert(hs.take(i + 1).contains(j as int));
                assert(hs[i as int] / si == o);
                let ghost vold = v@;
                match find_origin(&v, o) {
                    Some(k) => {
                        proof {
                            lemma_votes_bound(e, cache@, si, ui, o as int, p as int);
                        }
                        let c = v[k].count;
                        v.set(k, Vote { origin: o, count: c + 1 });
                        assert forall|m: int| 0 <= m < v@.len() implies #[trigger] v@[m].count == votes(e, cache@, si, ui, v@[m].origin as int, p as int)
                                + if hs.take(i + 1).contains(v@[m].origin * si + p) { 1nat } else { 0nat } by {
                            if m != k {
                                assert(vold[m] == v@[m]);
                                assert(vold[m].origin != o);
                                let q = vold[m].origin as int;
                                if q * si + p == j as int {
                                    assert(q == o) by (nonlinear_arith)
                                        requires q * si + p == o * si + p, si > 0;
                                }
                                assert(hs.take(i + 1).contains(q * si + p) == before.contains(q * si + p));
                            }
                        }
                        assert forall|q: int| has_origin(vold, q) implies has_origin(v@, q) by {
                            let m = choose|m: int| 0 <= m < vold.len() && vold[m].origin == q;
                            assert(v@[m].origin == q);
                        }
                        assert(has_origin(v@, o as int)) by {
                            assert(v@[k as int].origin == o);
                        }
                    },
                    None => {
                        assert(votes(e, cache@, si, ui, o as int, p as int) == 0);
                        v.push(Vote { origin: o, count: 1 });
                        assert forall|m: int| 0 <= m < v@.len() implies #[trigger] v@[m].count == votes(e, cache@, si, ui, v@[m].origin as int, p as int)
                                + if hs.take(i + 1).contains(v@[m].origin * si + p) { 1nat } else { 0nat } by {
                            if m < vold.len() {
                                assert(vold[m] == v@[m]);
                                assert(vold[m].origin != o);
                                let q = vold[m].origin as int;
                                if q * si + p == j as int {
                                    assert(q == o) by (nonlinear_arith)
                                        requires q * si + p == o * si + p, si > 0;
                                }
                                assert(hs.take(i + 1).contains(q * si + p) == before.contains(q * si + p));
                            }
                        }
                        assert forall|q: int| has_origin(vold, q) implies has_origin(v@, q) by {
                            let m = choose|m: int| 0 <= m < vold.len() && vold[m].origin == q;
                            assert(v@[m].origin == q);
                        }
                        assert(has_origin(v@, o as int)) by {
                            assert(v@[vold.len() as int].origin == o);
                        }
                    },
                }
            }
            i = i + 1;
        }
        assert(hs.take(i as int) =~= hs);
        proof {
            lemma_misplaced_bound(hs, si, p as int);
            assert(p * n + n == (p + 1) * n) by (nonlinear_arith);
            assert forall|o: int| #[trigger] votes(e, cache@, si, ui, o, p + 1) > 0 implies has_origin(v@, o) by {
                assert(hit(e, cache@, si, ui, o, p as int) == hs.contains(o * si + p));
                if votes(e, cache@, si, ui, o, p as int) == 0 {
                    let k = choose|k: int| 0 <= k < hs.len() && hs[k] == o * si + p;
                    assert(hs[k] % si == p && hs[k] / si == o) by (nonlinear_arith)
                        requires hs[k] == o * si + p, 0 <= p < si;
                }
            }
            assert forall|k: int| 0 <= k < v@.len() implies #[trigger] v@[k].count
                == votes(e, cache@, si, ui, v@[k].origin as int, p + 1) by {
                let o = v@[k].origin as int;
                assert(hit(e, cache@, si, ui, o, p as int) == hs.contains(o * si + p));
            }
        }
        p = p + 1;
    }
    (v, fake)
}

/// The finder's verdict on one cache unit.
pub struct UnitReport {
    /// The cache unit, counted from the start of the cache device.
    pub unit: usize,
    /// Source units with at least one vote, in ranking order: the first is
    /// the primary verdict, the others are alternatives.
    pub ranked: Vec<Vote>,
    /// Digest hits on source blocks at another position within their unit.
    pub fake_matches: u128,
}

/// Whether `rep` is the verdict on cache unit `u` of `cache`, units being
/// `s` blocks long, against the index entries `e`.
pub open spec fn is_unit_report(e: Seq<Seq<u8>>, cache: Seq<u8>, s: int, u: int, rep: UnitReport) -> bool {
    &&& rep.unit == u
    &&& rep.fake_matches == fakes(e, cache, s, u, s)
    &&& is_ranked(rep.ranked@)
    &&& forall|k: int| 0 <= k < rep.ranked@.len() ==>
        #[trigger] rep.ranked@[k].count == votes(e, cache, s, u, rep.ranked@[k].origin as int, s)
        && rep.ranked@[k].count > 0
    &&& forall|o: int| #[trigger] votes(e, cache, s, u, o, s) > 0 ==> has_origin(rep.ranked@, o)
}

/// The verdict on cache unit `u` of `cache`, units being `s` blocks long.
pub fn find_unit(index: &DigestIndex, cache: &[u8], s: usize, u: usize) -> (r: UnitReport)
    requires
        s > 0,
        (u + 1) * s * 8192 <= cache@.len(),
    ensures
        is_unit_report(index@, cache@, s as int, u as int, r),
{
    let (v, fake) = tally(index, cache, s, u);
    let ranked = rank(&v);
    let ghost e = index@;
    assert forall|k: int| 0 <= k < ranked@.len() implies #[trigger] ranked@[k].count
        == votes(e, cache@, s as int, u as int, ranked@[k].origin as int, s as int)
        && ranked@[k].count > 0 by {
        assert(ranked@.contains(ranked@[k]));
        let q = choose|q: int| 0 <= q < v@.len() && v@[q] == ranked@[k];
    }
    assert forall|o: int| #[trigger] votes(e, cache@, s as int, u as int, o, s as int) > 0
        implies has_origin(ranked@, o) by {
        let q = choose|q: int| 0 <= q < v@.len() && v@[q].origin == o;
        assert(v@.contains(v@[q]));
        let k = choose|k: int| 0 <= k < ranked@.len() && ranked@[k] == v@[q];
    }
    UnitReport { unit: u, ranked, fake_matches: fake }
}

/// Verdicts on every whole cache unit of `cache`, in ascending order, for
/// cache units of `sectors` sectors of 512 bytes; a trailing partial unit is
/// ignored. Fails, before any scanning, on an unusable unit size.
pub fn find_matches(index: &DigestIndex, cache: &[u8], sectors: usize) -> (r: Result<Vec<UnitReport>, ConfigError>)
    ensures
        r is Err <==> !valid_unit_sectors(sectors as nat),
        r matches Ok(reps) ==> {
            &&& reps@.len() == cache@.len() as int / (512 * sectors)
            &&& forall|u: int| 0 <= u < reps@.len() ==>
                is_unit_report(index@, cache@, 512 * sectors / 8192, u, #[trigger] reps@[u])
        },
{
    let s = match sub_blocks_per_unit(sectors) {
        Ok(s) => s,
        Err(err) => return Err(err),
    };
    assert(s * 8192 == 512 * sectors) by (nonlinear_arith)
        requires s == 512 * sectors / 8192, (512 * sectors) % 8192 == 0;
    let count = unit_count(cache.len(), s);
    let mut reps: Vec<UnitReport> = Vec::new();
    let mut u: usize = 0;
    while u < count
        invariant
            s > 0,
            s * 8192 == 512 * sectors,
            s == 512 * sectors / 8192,
            count == cache@.len() as int / (s * 8192),
            u <= count,
            reps@.len() == u,
            forall|w: int| 0 <= w < u ==> is_unit_report(index@, cache@, s as int, w, #[trigger] reps@[w]),
        decreases count - u,
    {
        assert((u + 1) * s * 8192 <= cache@.len()) by (nonlinear_arith)
            requires u < count, count == cache@.len() as int / (s * 8192), s > 0;
        let rep = find_unit(index, cache, s, u);
        reps.push(rep);
        u = u + 1;
    }
    Ok(reps)
}

/// Two ranked lists with the same votes are the same list.
proof fn lemma_ranked_unique(a: Seq<Vote>, b: Seq<Vote>)
    requires
        is_ranked(a),
        is_ranked(b),
        forall|x: Vote| a.contains(x) <==> b.contains(x),
    ensures
        a == b,
    decreases a.len(),
{
    if a.len() == 0 {
        if b.len() > 0 {
            assert(b.contains(b[0]));
        }
        assert(a =~= b);
    } else {
        assert(a.contains(a[0]));
        assert(b.contains(b[0]));
        let m = choose|m: int| 0 <= m < b.len() && b[m] == a[0];
        let m2 = choose|m2: int| 0 <= m2 < a.len() && a[m2] == b[0];
        if a[0] != b[0] {
            assert(m > 0 && m2 > 0);
            assert(ranks_before(b[0], b[m]));
            assert(ranks_before(a[0], a[m2]));
        }
        let ta = a.drop_first();
        let tb = b.drop_first();
        assert forall|x: Vote| ta.contains(x) <==> tb.contains(x) by {
            if ta.contains(x) {
                let q = choose|q: int| 0 <= q < ta.len() && ta[q] == x;
                assert(ranks_before(a[0], a[q + 1]));
                assert(a.contains(x));
                let r = choose|r: int| 0 <= r < b.len() && b[r] == x;
                assert(r != 0);
                assert(tb[r - 1] == x);
            }
            if tb.contains(x) {
                let q = choose|q: int| 0 <= q < tb.len() && tb[q] == x;
                assert(ranks_before(b[0], b[q + 1]));
                assert(b.contains(x));
                let r = choose|r: int| 0 <= r < a.len() && a[r] == x;
                assert(r != 0);
                assert(ta[r - 1] == x);
            }
        }
        lemma_ranked_unique(ta, tb);
        assert(a =~= seq![a[0]] + ta);
        assert(b =~= seq![b[0]] + tb);
    }
}

/// The verdict on a cache unit is determined by the index and the cache
/// device: any two verdicts on the same unit rank the same votes in the same
/// order and count the same fake matches, so running the finder again
/// reproduces it.
pub proof fn unit_report_is_unique(
    e: Seq<Seq<u8>>,
    cache: Seq<u8>,
    s: int,
    u: int,
    a: UnitReport,
    b: UnitReport,
)
    requires
        is_unit_report(e, cache, s, u, a),
        is_unit_report(e, cache, s, u, b),
    ensures
        a.unit == b.unit,
        a.ranked@ == b.ranked@,
        a.fake_matches == b.fake_matches,
{
    let ra = a.ranked@;
    let rb = b.ranked@;
    assert forall|x: Vote| ra.contains(x) <==> rb.contains(x) by {
        if ra.contains(x) {
            let k = choose|k: int| 0 <= k < ra.len() && ra[k] == x;
            assert(ra[k].count == votes(e, cache, s, u, ra[k].origin as int, s));
            assert(has_origin(rb, x.origin as int));
            let m = choose|m: int| 0 <= m < rb.len() && rb[m].origin == x.origin as int;
            assert(rb[m].count == votes(e, cache, s, u, rb[m].origin as int, s));
            assert(rb[m] == x);
        }
        if rb.contains(x) {
            let k = choose|k: int| 0 <= k < rb.len() && rb[k] == x;
            assert(rb[k].count == votes(e, cache, s, u, rb[k].origin as int, s));
            assert(has_origin(ra, x.origin as int));
            let m = choose|m: int| 0 <= m < ra.len() && ra[m].origin == x.origin as int;
            assert(ra[m].count == votes(e, cache, s, u, ra[m].origin as int, s));
            assert(ra[m] == x);
        }
    }
    lemma_ranked_unique(ra, rb);
}

/// No hit is misplaced when every hit lies at position `p` of its unit.
proof fn lemma_none_misplaced(hits: Seq<int>, s: int, p: int)
    requires
        forall|k: int| 0 <= k < hits.len() ==> #[trigger] hits[k] % s == p,
    ensures
        misplaced(hits, s, p) == 0,
    decreases hits.len(),
{
    if hits.len() > 0 {
        let t = hits.drop_last();
        assert forall|k: int| 0 <= k < t.len() implies #[trigger] t[k] % s == p by {
            assert(t[k] == hits[k]);
        }
        lemma_none_misplaced(t, s, p);
        assert(hits.last() == hits[hits.len() - 1]);
    }
}

/// A misplaced hit is counted.
proof fn lemma_some_misplaced(hits: Seq<int>, s: int, p: int, k: int)
    requires
        0 <= k < hits.len(),
        hits[k] % s != p,
    ensures
        misplaced(hits, s, p) >= 1,
    decreases hits.len(),
{
    if k < hits.len() - 1 {
        assert(hits.drop_last()[k] == hits[k]);
        lemma_some_misplaced(hits.drop_last(), s, p, k);
    }
}

/// Fake matches only accumulate over sub-blocks.
proof fn lemma_fakes_monotone(e: Seq<Seq<u8>>, cache: Seq<u8>, s: int, u: int, m1: int, m2: int)
    requires
        0 <= m1 <= m2,
    ensures
        fakes(e, cache, s, u, m1) <= fakes(e, cache, s, u, m2),
    decreases m2 - m1,
{
    if m1 < m2 {
        lemma_fakes_monotone(e, cache, s, u, m1, m2 - 1);
    }
}

/// A sub-block whose digest is that of a source block lying at another
/// position within its own unit is counted as a fake match of its cache
/// unit, and never votes through that block: a vote from position `p` comes
/// only from the block at position `p` of the source unit.
pub proof fn misplaced_hit_is_fake(e: Seq<Seq<u8>>, cache: Seq<u8>, s: int, u: int, p: int, j: int)
    requires
        s > 0,
        0 <= p < s,
        0 <= j < e.len(),
        e[j] == sub_digest(cache, s, u, p),
        j % s != p,
    ensures
        fakes(e, cache, s, u, s) >= 1,
        forall|o: int| hit(e, cache, s, u, o, p) ==> o * s + p != j,
{
    let hs = positions(e, sub_digest(cache, s, u, p), e.len() as int);
    lemma_positions(e, sub_digest(cache, s, u, p), e.len() as int);
    assert(hs.contains(j));
    let k = choose|k: int| 0 <= k < hs.len() && hs[k] == j;
    lemma_some_misplaced(hs, s, p, k);
    lemma_fakes_monotone(e, cache, s, u, p + 1, s);
    assert forall|o: int| hit(e, cache, s, u, o, p) implies o * s + p != j by {
        if o * s + p == j {
            assert((o * s + p) % s == p) by (nonlinear_arith) requires 0 <= p < s;
        }
    }
}

/// Sub-block `p` of cache unit `u` of a unit-aligned copy of the source is
/// the block at position `p` of the source unit that it copies.
proof fn lemma_aligned_hit(src: Seq<u8>, cache: Seq<u8>, s: int, o0: int, u: int, p: int)
    requires
        s > 0,
        o0 >= 0,
        u >= 0,
        0 <= p < s,
        (u + 1) * s * 8192 <= cache.len(),
        o0 * s * 8192 + cache.len() <= src.len(),
        cache == src.subrange(o0 * s * 8192, o0 * s * 8192 + cache.len()),
    ensures
        0 <= (o0 + u) * s + p < block_count(src.len()),
        source_digests(src)[(o0 + u) * s + p] == sub_digest(cache, s, u, p),
        hit(index_entries(index_image(src)), cache, s, u, o0 + u, p),
{
    let idx = (o0 + u) * s + p;
    let c0 = (u * s + p) * 8192;
    let a = o0 * s * 8192;
    assert(idx * 8192 == a + c0 && c0 + 8192 <= (u + 1) * s * 8192 && idx >= 0 && c0 >= 0) by (nonlinear_arith)
        requires idx == (o0 + u) * s + p, c0 == (u * s + p) * 8192, a == o0 * s * 8192,
            0 <= p < s, o0 >= 0, u >= 0;
    assert(idx < block_count(src.len()));
    assert(crate::index::window(src, idx * 8192) =~= crate::index::window(cache, c0));
    build_then_load(src);
}

/// Votes of an aligned copy for its source unit, over the first `m` sub-blocks.
proof fn lemma_aligned_votes(src: Seq<u8>, cache: Seq<u8>, s: int, o0: int, u: int, m: int)
    requires
        s > 0,
        o0 >= 0,
        u >= 0,
        0 <= m <= s,
        (u + 1) * s * 8192 <= cache.len(),
        o0 * s * 8192 + cache.len() <= src.len(),
        cache == src.subrange(o0 * s * 8192, o0 * s * 8192 + cache.len()),
    ensures
        votes(index_entries(index_image(src)), cache, s, u, o0 + u, m) == m,
    decreases m,
{
    if m > 0 {
        lemma_aligned_votes(src, cache, s, o0, u, m - 1);
        lemma_aligned_hit(src, cache, s, o0, u, m - 1);
    }
}

/// A cache device that copies the source device from a unit-aligned offset
/// `o0 * s * BLOCK_SIZE` has each of its whole units `u` fully matched: all
/// `s` of its sub-blocks vote for source unit `o0 + u`.
pub proof fn aligned_copy_matches_fully(src: Seq<u8>, cache: Seq<u8>, s: int, o0: int, u: int)
    requires
        s > 0,
        o0 >= 0,
        u >= 0,
        (u + 1) * s * 8192 <= cache.len(),
        o0 * s * 8192 + cache.len() <= src.len(),
        cache == src.subrange(o0 * s * 8192, o0 * s * 8192 + cache.len()),
    ensures
        votes(index_entries(index_image(src)), cache, s, u, o0 + u, s) == s,
{
    lemma_aligned_votes(src, cache, s, o0, u, s);
}

/// Fake matches of an aligned copy over the first `m` sub-blocks.
proof fn lemma_aligned_fakes(src: Seq<u8>, cache: Seq<u8>, s: int, o0: int, u: int, m: int)
    requires
        s > 0,
        o0 >= 0,
        u >= 0,
        0 <= m <= s,
        (u + 1) * s * 8192 <= cache.len(),
        o0 * s * 8192 + cache.len() <= src.len(),
        cache == src.subrange(o0 * s * 8192, o0 * s * 8192 + cache.len()),
        forall|i: int, j: int|
            0 <= i < block_count(src.len()) && 0 <= j < block_count(src.len())
            && #[trigger] source_digests(src)[i] == #[trigger] source_digests(src)[j] ==> i % s == j % s,
    ensures
        fakes(index_entries(index_image(src)), cache, s, u, m) == 0,
    decreases m,
{
    if m > 0 {
        let p = m - 1;
        lemma_aligned_fakes(src, cache, s, o0, u, p);
        lemma_aligned_hit(src, cache, s, o0, u, p);
        build_then_load(src);
        let e = index_entries(index_image(src));
        let d = sub_digest(cache, s, u, p);
        let idx = (o0 + u) * s + p;
        lemma_positions(e, d, e.len() as int);
        let hs = positions(e, d, e.len() as int);
        assert((idx) % s == p) by (nonlinear_arith) requires idx == (o0 + u) * s + p, 0 <= p < s;
        assert forall|k: int| 0 <= k < hs.len() implies #[trigger] hs[k] % s == p by {
            assert(hs.contains(hs[k]));
            assert(source_digests(src)[hs[k]] == source_digests(src)[idx]);
        }
        lemma_none_misplaced(hs, s, p);
    }
}

/// A unit-aligned copy of a source device in which no digest recurs at
/// another position within a unit has no fake matches in any of its units.
pub proof fn aligned_copy_has_no_fakes(src: Seq<u8>, cache: Seq<u8>, s: int, o0: int, u: int)
    requires
        s > 0,
        o0 >= 0,
        u >= 0,
        (u + 1) * s * 8192 <= cache.len(),
        o0 * s * 8192 + cache.len() <= src.len(),
        cache == src.subrange(o0 * s * 8192, o0 * s * 8192 + cache.len()),
        forall|i: int, j: int|
            0 <= i < block_count(src.len()) && 0 <= j < block_count(src.len())
            && #[trigger] source_digests(src)[i] == #[trigger] source_digests(src)[j] ==> i % s == j % s,
    ensures
        fakes(index_entries(index_image(src)), cache, s, u, s) == 0,
{
    lemma_aligned_fakes(src, cache, s, o0, u, s);
}

} // verus!
