//! The persisted digest index: built from a source device as a flat array of
//! digests, one per block in ascending offset order, and loaded back into an
//! in-memory index from digest to the source blocks that produced it.
use vstd::prelude::*;
use vstd::slice::slice_subrange;
use vstd::slice::slice_to_vec;
use std::collections::HashMap;
use crate::digest::block_digest;
use crate::digest::hash_block;
use crate::digest::same_digest;
use crate::BLOCK_SIZE;
use crate::DIGEST_LEN;

verus! {

/// Number of blocks of a device of `size` bytes: a trailing partial block counts.
pub open spec fn block_count(size: nat) -> nat {
    ((size + 8192 - 1) / 8192) as nat
}

/// The block of `src` that starts at byte `start`, zero-padded past the end of `src`.
pub open spec fn window(src: Seq<u8>, start: int) -> Seq<u8> {
    Seq::new(8192, |k: int| if start + k < src.len() { src[start + k] } else { 0u8 })
}

/// The digests of the blocks of `src`, in ascending offset order.
pub open spec fn source_digests(src: Seq<u8>) -> Seq<Seq<u8>> {
    Seq::new(block_count(src.len()), |i: int| block_digest(window(src, i * 8192)))
}

/// The bytes of the persisted index of `src`: digest `i` at byte `20 * i`.
pub open spec fn index_image(src: Seq<u8>) -> Seq<u8> {
    Seq::new(
        20 * block_count(src.len()),
        |k: int| source_digests(src)[k / 20][k % 20],
    )
}

/// The entries that a persisted index holds: one per 20 bytes.
pub open spec fn index_entries(bytes: Seq<u8>) -> Seq<Seq<u8>> {
    Seq::new(bytes.len() / 20, |i: int| bytes.subrange(20 * i, 20 * i + 20))
}

/// Source blocks among the first `n` entries of `e` whose digest is `d`, ascending.
pub open spec fn positions(e: Seq<Seq<u8>>, d: Seq<u8>, n: int) -> Seq<int>
    decreases n,
{
    if n <= 0 {
        Seq::empty()
    } else if e[n - 1] == d {
        positions(e, d, n - 1).push(n - 1)
    } else {
        positions(e, d, n - 1)
    }
}

/// The block of `source` that starts at `start`, zero-padded to a whole block.
fn read_block(source: &[u8], start: usize) -> (r: Vec<u8>)
    requires
        start < source@.len(),
    ensures
        r@ == window(source@, start as int),
{
    if source.len() - start >= BLOCK_SIZE {
        let r = slice_to_vec(slice_subrange(source, start, start + BLOCK_SIZE));
        assert(r@ =~= window(source@, start as int));
        r
    } else {
        let mut r: Vec<u8> = Vec::new();
        let mut k: usize = 0;
        while k < BLOCK_SIZE
            invariant
                start < source@.len(),
                k <= BLOCK_SIZE,
                r@ =~= window(source@, start as int).take(k as int),
            decreases BLOCK_SIZE - k,
        {
            if k < source.len() - start {
                r.push(source[start + k]);
            } else {
                r.push(0u8);
            }
            k = k + 1;
        }
        r
    }
}

/// Builds the persisted index of a source device: the digest of each of its
/// blocks, the last one zero-padded, laid out back to back in offset order.
pub fn collect(source: &[u8]) -> (r: Vec<u8>)
    ensures
        r@ == index_image(source@),
        r@.len() == DIGEST_LEN * block_count(source@.len()),
{
    let len = source.len();
    let n: usize = len / BLOCK_SIZE + if len % BLOCK_SIZE == 0 { 0 } else { 1 };
    assert(n == block_count(len as nat));
    let ghost ds = source_digests(source@);
    let mut out: Vec<u8> = Vec::new();
    let mut i: usize = 0;
    while i < n
        invariant
            len == source@.len(),
            n == block_count(len as nat),
            ds == source_digests(source@),
            i <= n,
            out@ =~= Seq::new(20 * i as nat, |k: int| ds[k / 20][k % 20]),
        decreases n - i,
    {
        assert(i * 8192 < len) by (nonlinear_arith)
            requires i < n, n == (len + 8191) / 8192;
        let mut d = hash_block(read_block(source, i * BLOCK_SIZE).as_slice());
        assert(d@ == ds[i as int]);
        let ghost prev = out@;
        out.append(&mut d);
        assert(out@ =~= Seq::new(20 * (i + 1) as nat, |k: int| ds[k / 20][k % 20])) by {
            assert forall|k: int| 0 <= k < 20 * (i + 1) implies #[trigger] out@[k] == ds[k / 20][k % 20] by {
                if k >= 20 * i {
                    assert(k / 20 == i);
                    assert(k % 20 == k - 20 * i);
                }
            }
        }
        i = i + 1;
    }
    out
}

/// Why a persisted index could not be loaded.
#[derive(Debug, Clone, Copy, PartialEq, Eq, Structural)]
pub enum IndexError {
    /// The index's length is not a whole number of digests.
    Truncated,
}

/// Byte `i` of `d`, or zero past its end.
pub open spec fn byte_or_zero(d: Seq<u8>, i: int) -> u64 {
    if 0 <= i < d.len() { d[i] as u64 } else { 0 }
}

/// Bucket of the digest index that a digest falls in: its first four bytes.
pub open spec fn bucket_key(d: Seq<u8>) -> u64 {
    (byte_or_zero(d, 0) + 256 * byte_or_zero(d, 1) + 65536 * byte_or_zero(d, 2)
        + 16777216 * byte_or_zero(d, 3)) as u64
}

/// The bucket key of a digest.
fn key_of(d: &[u8]) -> (r: u64)
    ensures
        r == bucket_key(d@),
{
    let b0: u64 = if d.len() > 0 { d[0] as u64 } else { 0 };
    let b1: u64 = if d.len() > 1 { d[1] as u64 } else { 0 };
    let b2: u64 = if d.len() > 2 { d[2] as u64 } else { 0 };
    let b3: u64 = if d.len() > 3 { d[3] as u64 } else { 0 };
    b0 + 256 * b1 + 65536 * b2 + 16777216 * b3
}

/// In-memory digest index: for each source block, in ascending offset
/// order, the digest it produced, and a multimap from digest to the blocks
/// that produced it. A digest may occur at several blocks.
pub struct DigestIndex {
    entries: Vec<Vec<u8>>,
    buckets: HashMap<u64, Vec<usize>>,
}

/// Whether `buckets` files each of the first `n` entries of `e`, and nothing
/// else, under its digest's key, each bucket in ascending order.
pub open spec fn files_entries(e: Seq<Seq<u8>>, buckets: Map<u64, Vec<usize>>, n: int) -> bool {
    &&& forall|k: u64, a: int| #![trigger buckets[k]@[a]]
        buckets.contains_key(k) && 0 <= a < buckets[k]@.len() ==> {
            &&& buckets[k]@[a] < n
            &&& bucket_key(e[buckets[k]@[a] as int]) == k
        }
    &&& forall|k: u64, a: int, b: int| #![trigger buckets[k]@[a], buckets[k]@[b]]
        buckets.contains_key(k) && 0 <= a < b < buckets[k]@.len() ==> buckets[k]@[a] < buckets[k]@[b]
    &&& forall|j: int| 0 <= j < n ==> {
            &&& buckets.contains_key(#[trigger] bucket_key(e[j]))
            &&& buckets[bucket_key(e[j])]@.contains(j as usize)
        }
}

impl View for DigestIndex {
    type V = Seq<Seq<u8>>;

    closed spec fn view(&self) -> Seq<Seq<u8>> {
        self.entries@.map_values(|v: Vec<u8>| v@)
    }
}

impl DigestIndex {
    #[verifier::type_invariant]
    spec fn inv(&self) -> bool {
        files_entries(self@, self.buckets@, self@.len() as int)
    }

    /// Loads a persisted index: entry `i` is the digest stored at byte `20 * i`.
    /// Fails when the length is not a multiple of the digest length.
    pub fn load(bytes: &[u8]) -> (r: Result<DigestIndex, IndexError>)
        ensures
            bytes@.len() % 20 != 0 <==> r is Err,
            r matches Ok(ix) ==> ix@ == index_entries(bytes@),
    {
        broadcast use vstd::std_specs::hash::group_hash_axioms;

        if bytes.len() % DIGEST_LEN != 0 {
            return Err(IndexError::Truncated);
        }
        let blen: usize = bytes.len();
        let n: usize = blen / DIGEST_LEN;
        let mut entries: Vec<Vec<u8>> = Vec::new();
        let mut buckets: HashMap<u64, Vec<usize>> = HashMap::new();
        let mut i: usize = 0;
        while i < n
            invariant
                blen == bytes@.len(),
                n == bytes@.len() / 20,
                bytes@.len() % 20 == 0,
                i <= n,
                entries@.len() == i,
                forall|j: int| 0 <= j < i ==> #[trigger] entries@[j]@ == bytes@.subrange(20 * j, 20 * j + 20),
                files_entries(entries@.map_values(|v: Vec<u8>| v@), buckets@, i as int),
            decreases n - i,
        {
            assert(i * 20 + 20 <= bytes@.len()) by (nonlinear_arith)
                requires i < n, n == bytes@.len() / 20, bytes@.len() % 20 == 0;
            let e = slice_to_vec(slice_subrange(bytes, i * DIGEST_LEN, i * DIGEST_LEN + DIGEST_LEN));
            let k = key_of(e.as_slice());
            let ghost old_e = entries@.map_values(|v: Vec<u8>| v@);
            let ghost old_b = buckets@;
            let mut bucket = match buckets.remove(&k) {
                Some(b) => b,
                None => Vec::new(),
            };
            let ghost old_bucket = bucket@;
            assert(old_b.contains_key(k) ==> old_bucket == old_b[k]@);
            assert(!old_b.contains_key(k) ==> old_bucket.len() == 0);
            bucket.push(i);
            buckets.insert(k, bucket);
            entries.push(e);
            let ghost ne = entries@.map_values(|v: Vec<u8>| v@);
            assert(ne =~= old_e.push(e@));
            assert(buckets@ == old_b.insert(k, bucket));
            assert forall|kk: u64, a: int| #![trigger buckets@[kk]@[a]]
                buckets@.contains_key(kk) && 0 <= a < buckets@[kk]@.len() implies {
                    &&& buckets@[kk]@[a] < i + 1
                    &&& bucket_key(ne[buckets@[kk]@[a] as int]) == kk
                } by {
                if kk == k {
                    if a < old_bucket.len() {
                        assert(buckets@[kk]@[a] == old_b[k]@[a]);
                    }
                } else {
                    assert(buckets@[kk] == old_b[kk]);
                }
            }
            assert forall|kk: u64, a: int, b: int| #![trigger buckets@[kk]@[a], buckets@[kk]@[b]]
                buckets@.contains_key(kk) && 0 <= a < b < buckets@[kk]@.len() implies buckets@[kk]@[a] < buckets@[kk]@[b] by {
                if kk == k {
                    if b < old_bucket.len() {
                        assert(buckets@[kk]@[a] == old_b[k]@[a]);
                        assert(buckets@[kk]@[b] == old_b[k]@[b]);
                    } else {
                        assert(buckets@[kk]@[a] == old_b[k]@[a]);
                    }
                } else {
                    assert(buckets@[kk] == old_b[kk]);
                }
            }
            assert forall|j: int| 0 <= j < i + 1 implies {
                &&& buckets@.contains_key(#[trigger] bucket_key(ne[j]))
                &&& buckets@[bucket_key(ne[j])]@.contains(j as usize)
            } by {
                if j == i {
                    assert(buckets@[k]@[old_bucket.len() as int] == i);
                } else {
                    assert(ne[j] == old_e[j]);
                    let kj = bucket_key(old_e[j]);
                    assert(old_b[kj]@.contains(j as usize));
                    if kj == k {
                        let q = choose|q: int| 0 <= q < old_bucket.len() && old_bucket[q] == j as usize;
                        assert(buckets@[k]@[q] == j as usize);
                    } else {
                        assert(buckets@[kj] == old_b[kj]);
                    }
                }
            }
            i = i + 1;
        }
        let ix = DigestIndex { entries, buckets };
        assert(ix@ =~= index_entries(bytes@));
        Ok(ix)
    }

    /// Number of source blocks in the index.
    pub fn len(&self) -> (r: usize)
        ensures
            r == self@.len(),
    {
        self.entries.len()
    }

    /// The source blocks whose digest is `d`, by block number, ascending.
    /// Block `j` starts at byte `j * BLOCK_SIZE` of the source device.
    pub fn lookup(&self, d: &[u8]) -> (r: Vec<usize>)
        ensures
            r@.map_values(|j: usize| j as int) == positions(self@, d@, self@.len() as int),
    {
        broadcast use vstd::std_specs::hash::group_hash_axioms;

        proof {
            use_type_invariant(self);
        }
        let ghost e = self@;
        let ghost n = e.len() as int;
        let nn: usize = self.entries.len();
        assert(n == nn);
        let k = key_of(d);
        let mut r: Vec<usize> = Vec::new();
        match self.buckets.get(&k) {
            None => {
                assert forall|j: int| 0 <= j < n implies e[j] != d@ by {
                    if e[j] == d@ {
                        assert(self.buckets@.contains_key(bucket_key(e[j])));
                    }
                }
                assert(forall|j: int| 0 <= j < n && e[j] == d@ ==> r@.contains(j as usize));
                assert(forall|x: usize| r@.contains(x) ==> e[x as int] == d@);
            },
            Some(b) => {
                let mut m: usize = 0;
                while m < b.len()
                    invariant
                        e == self@,
                        n == e.len(),
                        self.entries@.len() == n,
                        files_entries(e, self.buckets@, n),
                        self.buckets@.contains_key(k),
                        self.buckets@[k] == *b,
                        k == bucket_key(d@),
                        m <= b@.len(),
                        forall|t: int| #![trigger r@[t]] 0 <= t < r@.len() ==> exists|q: int| 0 <= q < m && #[trigger] b@[q] == r@[t],
                        forall|t1: int, t2: int| 0 <= t1 < t2 < r@.len() ==> r@[t1] < r@[t2],
                        forall|x: usize| r@.contains(x) <==> (exists|q: int| 0 <= q < m && #[trigger] b@[q] == x) && e[x as int] == d@,
                    decreases b@.len() - m,
                {
                    let j = b[m];
                    assert(j < n && bucket_key(e[j as int]) == k);
                    let ghost old_r = r@;
                    if same_digest(self.entries[j].as_slice(), d) {
                        r.push(j);
                        assert forall|t: int| 0 <= t < old_r.len() implies old_r[t] < j by {
                            let q = choose|q: int| 0 <= q < m && #[trigger] b@[q] == old_r[t];
                            assert(b@[q] < b@[m as int]);
                        }
                    }
                    assert forall|t: int| #![trigger r@[t]] 0 <= t < r@.len() implies exists|q: int| 0 <= q < m + 1 && #[trigger] b@[q] == r@[t] by {
                        if t < old_r.len() {
                            let q = choose|q: int| 0 <= q < m && #[trigger] b@[q] == old_r[t];
                            assert(b@[q] == r@[t]);
                        } else {
                            assert(b@[m as int] == r@[t]);
                        }
                    }
                    assert forall|x: usize| r@.contains(x) <==> (exists|q: int| 0 <= q < m + 1 && #[trigger] b@[q] == x) && e[x as int] == d@ by {
                        if r@.contains(x) && !old_r.contains(x) {
                            let t = choose|t: int| 0 <= t < r@.len() && r@[t] == x;
                            assert(t == old_r.len());
                            assert(b@[m as int] == x);
                        }
                        if old_r.contains(x) {
                            let t = choose|t: int| 0 <= t < old_r.len() && old_r[t] == x;
                            assert(r@[t] == x);
                        }
                        if (exists|q: int| 0 <= q < m + 1 && #[trigger] b@[q] == x) && e[x as int] == d@ {
                            let q = choose|q: int| 0 <= q < m + 1 && #[trigger] b@[q] == x;
                            if q == m {
                                assert(r@[r@.len() - 1] == x);
                            } else {
                                assert(old_r.contains(x));
                            }
                        }
                    }
                    m = m + 1;
                }
                assert forall|j: int| 0 <= j < n && e[j] == d@ implies r@.contains(j as usize) by {
                    assert(bucket_key(e[j]) == k);
                    assert(self.buckets@[bucket_key(e[j])]@.contains(j as usize));
                    assert(b@.contains(j as usize));
                    let q = choose|q: int| 0 <= q < b@.len() && b@[q] == j as usize;
                    assert(b@[q] == j as usize);
                }
                assert(forall|x: usize| r@.contains(x) ==> e[x as int] == d@);
            },
        }
        let ghost rs = r@.map_values(|j: usize| j as int);
        proof {
            lemma_positions(e, d@, n);
            assert forall|j: int| rs.contains(j) <==> positions(e, d@, n).contains(j) by {
                if rs.contains(j) {
                    let t = choose|t: int| 0 <= t < rs.len() && rs[t] == j;
                    assert(r@.contains(r@[t]));
                    assert(e[j] == d@);
                }
                if positions(e, d@, n).contains(j) {
                    assert(0 <= j < n && e[j] == d@);
                    assert(r@.contains(j as usize));
                    let t = choose|t: int| 0 <= t < r@.len() && r@[t] == j as usize;
                    assert(rs[t] == j);
                }
            }
            lemma_ascending_unique(rs, positions(e, d@, n));
        }
        r
    }
}

/// Two ascending sequences with the same members are the same sequence.
proof fn lemma_ascending_unique(a: Seq<int>, b: Seq<int>)
    requires
        forall|i: int, j: int| 0 <= i < j < a.len() ==> a[i] < a[j],
        forall|i: int, j: int| 0 <= i < j < b.len() ==> b[i] < b[j],
        forall|x: int| a.contains(x) <==> b.contains(x),
    ensures
        a == b,
    decreases a.len(),
{
    if a.len() == 0 {
        if b.len() > 0 {
            assert(b.contains(b[0]));
        }
        assert(a =~= b);
    } else {
        assert(a.contains(a[0]));
        assert(b.contains(b[0]));
        let m = choose|m: int| 0 <= m < b.len() && b[m] == a[0];
        let m2 = choose|m2: int| 0 <= m2 < a.len() && a[m2] == b[0];
        if a[0] != b[0] {
            assert(b[0] < b[m]);
            assert(a[0] < a[m2]);
        }
        let ta = a.drop_first();
        let tb = b.drop_first();
        assert forall|x: int| ta.contains(x) <==> tb.contains(x) by {
            if ta.contains(x) {
                let q = choose|q: int| 0 <= q < ta.len() && ta[q] == x;
                assert(a[0] < a[q + 1]);
                assert(a.contains(x));
                let r = choose|r: int| 0 <= r < b.len() && b[r] == x;
                assert(r != 0);
                assert(tb[r - 1] == x);
            }
            if tb.contains(x) {
                let q = choose|q: int| 0 <= q < tb.len() && tb[q] == x;
                assert(b[0] < b[q + 1]);
                assert(b.contains(x));
                let r = choose|r: int| 0 <= r < a.len() && a[r] == x;
                assert(r != 0);
                assert(ta[r - 1] == x);
            }
        }
        lemma_ascending_unique(ta, tb);
        assert(a =~= seq![a[0]] + ta);
        assert(b =~= seq![b[0]] + tb);
    }
}

/// Every source block among the first `n` entries whose digest is `d` is in
/// `positions(e, d, n)`, nothing else is, and they come in ascending order.
pub proof fn lemma_positions(e: Seq<Seq<u8>>, d: Seq<u8>, n: int)
    requires
        0 <= n <= e.len(),
    ensures
        forall|j: int| positions(e, d, n).contains(j) <==> 0 <= j < n && e[j] == d,
        forall|a: int, b: int|
            0 <= a < b < positions(e, d, n).len() ==> positions(e, d, n)[a] < positions(e, d, n)[b],
        forall|a: int| 0 <= a < positions(e, d, n).len() ==> 0 <= #[trigger] positions(e, d, n)[a] < n,
        positions(e, d, n).len() <= n,
    decreases n,
{
    if n > 0 {
        lemma_positions(e, d, n - 1);
        let p = positions(e, d, n - 1);
        if e[n - 1] == d {
            assert forall|j: int| positions(e, d, n).contains(j) <==> 0 <= j < n && e[j] == d by {
                if positions(e, d, n).contains(j) {
                    let k = choose|k: int| 0 <= k < positions(e, d, n).len() && positions(e, d, n)[k] == j;
                    if k < p.len() {
                        assert(p.contains(j));
                    }
                }
                if 0 <= j < n && e[j] == d {
                    if j < n - 1 {
                        assert(p.contains(j));
                        let k = choose|k: int| 0 <= k < p.len() && p[k] == j;
                        assert(positions(e, d, n)[k] == j);
                    } else {
                        assert(positions(e, d, n)[p.len() as int] == j);
                    }
                }
            }
        }
    }
}

/// Building the index of a device and loading it back gives one entry per
/// block of the device, `ceil(size / BLOCK_SIZE)` of them, entry `i` being
/// the digest of the zero-padded block at byte `i * BLOCK_SIZE`.
pub proof fn build_then_load(src: Seq<u8>)
    ensures
        index_image(src).len() % 20 == 0,
        index_entries(index_image(src)) == source_digests(src),
        index_entries(index_image(src)).len() == block_count(src.len()),
        forall|i: int| 0 <= i < block_count(src.len()) ==>
            #[trigger] index_entries(index_image(src))[i] == block_digest(window(src, i * 8192)),
{
    let img = index_image(src);
    let ds = source_digests(src);
    let n = block_count(src.len());
    assert(img.len() / 20 == n);
    assert forall|i: int| 0 <= i < n implies #[trigger] index_entries(img)[i] == ds[i] by {
        assert forall|k: int| 0 <= k < 20 implies img.subrange(20 * i, 20 * i + 20)[k] == ds[i][k] by {
            assert((20 * i + k) / 20 == i);
            assert((20 * i + k) % 20 == k);
        }
        assert(img.subrange(20 * i, 20 * i + 20) =~= ds[i]);
    }
    assert(index_entries(img) =~= ds);
}

} // verus!
