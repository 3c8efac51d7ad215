//! The byte image of a store's full vectors.
//!
//! An image opens with two counts of eight bytes each, the number of vectors
//! and their dimension. The vectors follow in the order of their handles, each
//! coordinate as four bytes. Every number has its low byte first. Reduced
//! views and the index are not part of the image.

use crate::math::{has_dimension, rows};
use crate::store::VectorStore;
use crate::vector::DenseVector;
use vstd::prelude::*;
use vstd::slice::slice_subrange;

verus! {

/// The length of the two counts that open an image.
pub const HEADER_LEN: usize = 16;

/// Why bytes are no image of a store.
#[derive(Debug, PartialEq, Eq, Structural, Clone, Copy)]
pub enum LoadError {
    /// Fewer bytes than the two counts take.
    ShortHeader,
    /// The counts declare more vectors than the bytes after them hold, or
    /// more than a store can hold.
    ShortBody,
}

/// The four bytes of a word, low byte first.
pub open spec fn word_bytes(w: u32) -> Seq<u8> {
    seq![
        (w & 0xff) as u8,
        ((w >> 8) & 0xff) as u8,
        ((w >> 16) & 0xff) as u8,
        ((w >> 24) & 0xff) as u8,
    ]
}

/// The word whose bytes, low byte first, are `b0` to `b3`.
pub open spec fn word_of(b0: u8, b1: u8, b2: u8, b3: u8) -> u32 {
    (b0 as u32) | ((b1 as u32) << 8) | ((b2 as u32) << 16) | ((b3 as u32) << 24)
}

/// The word that the four bytes of `bytes` from position `at` spell.
pub open spec fn word_at(bytes: Seq<u8>, at: int) -> u32 {
    word_of(bytes[at], bytes[at + 1], bytes[at + 2], bytes[at + 3])
}

/// The eight bytes of a count, low byte first.
pub open spec fn count_bytes(n: u64) -> Seq<u8> {
    word_bytes((n & 0xffff_ffff) as u32) + word_bytes((n >> 32) as u32)
}

/// The count that the eight bytes of `bytes` from position `at` spell.
pub open spec fn count_at(bytes: Seq<u8>, at: int) -> u64 {
    (word_at(bytes, at) as u64) | ((word_at(bytes, at + 4) as u64) << 32)
}

/// The bytes of the coordinates `v`, one word after the other.
pub open spec fn vector_bytes(v: Seq<u32>) -> Seq<u8> {
    Seq::new(4 * v.len(), |i: int| word_bytes(v[i / 4])[i % 4])
}

/// The words that `bytes` spell, four bytes each; a rest of fewer than four
/// bytes is left out.
pub open spec fn words_of(bytes: Seq<u8>) -> Seq<u32> {
    Seq::new((bytes.len() / 4) as nat, |j: int| word_at(bytes, 4 * j))
}

/// The bytes of the vectors `dense`, one vector after the other.
pub open spec fn body_bytes(dense: Seq<Seq<u32>>) -> Seq<u8>
    decreases dense.len(),
{
    if dense.len() == 0 {
        Seq::empty()
    } else {
        body_bytes(dense.drop_last()) + vector_bytes(dense.last())
    }
}

/// The dimension that the image of `dense` declares: that of the first
/// vector, 0 where there is none.
pub open spec fn declared_dim(dense: Seq<Seq<u32>>) -> nat {
    if dense.len() == 0 {
        0
    } else {
        dense[0].len()
    }
}

/// The image of the vectors `dense`.
pub open spec fn image_of(dense: Seq<Seq<u32>>) -> Seq<u8> {
    count_bytes(dense.len() as u64) + count_bytes(declared_dim(dense) as u64) + body_bytes(dense)
}

/// What `bytes` hold as an image: the declared number of vectors of the
/// declared dimension, read from the bytes after the counts, or the reason why
/// they hold none. Bytes after the last declared vector are not looked at.
pub open spec fn parsed(bytes: Seq<u8>) -> Result<Seq<Seq<u32>>, LoadError> {
    if bytes.len() < HEADER_LEN {
        Err(LoadError::ShortHeader)
    } else {
        let n = count_at(bytes, 0) as int;
        let dim = count_at(bytes, 8) as int;
        if n > usize::MAX || HEADER_LEN + n * dim * 4 > bytes.len() {
            Err(LoadError::ShortBody)
        } else {
            Ok(
                Seq::new(
                    n as nat,
                    |i: int|
                        Seq::new(
                            dim as nat,
                            |j: int| word_at(bytes, HEADER_LEN + (i * dim + j) * 4),
                        ),
                ),
            )
        }
    }
}

/// Four bytes spell the word that they are the bytes of.
pub proof fn lemma_word_round_trip(w: u32)
    ensures
        word_bytes(w).len() == 4,
        word_at(word_bytes(w), 0) == w,
{
    let x0 = w & 0xff;
    let x1 = (w >> 8) & 0xff;
    let x2 = (w >> 16) & 0xff;
    let x3 = (w >> 24) & 0xff;
    assert(x0 < 256 && x1 < 256 && x2 < 256 && x3 < 256 && (x0 | (x1 << 8) | (x2 << 16) | (x3
        << 24)) == w) by (bit_vector)
        requires
            x0 == w & 0xff,
            x1 == (w >> 8) & 0xff,
            x2 == (w >> 16) & 0xff,
            x3 == (w >> 24) & 0xff,
    ;
    assert(word_bytes(w)[0] == x0 as u8);
    assert(word_bytes(w)[1] == x1 as u8);
    assert(word_bytes(w)[2] == x2 as u8);
    assert(word_bytes(w)[3] == x3 as u8);
}

/// Eight bytes spell the count that they are the bytes of.
pub proof fn lemma_count_round_trip(n: u64)
    ensures
        count_bytes(n).len() == 8,
        count_at(count_bytes(n), 0) == n,
{
    let low = (n & 0xffff_ffff) as u32;
    let high = (n >> 32) as u32;
    lemma_word_round_trip(low);
    lemma_word_round_trip(high);
    let b = count_bytes(n);
    assert(b == word_bytes(low) + word_bytes(high));
    assert(b[0] == word_bytes(low)[0] && b[1] == word_bytes(low)[1] && b[2] == word_bytes(low)[2]
        && b[3] == word_bytes(low)[3]);
    assert(b[4] == word_bytes(high)[0] && b[5] == word_bytes(high)[1] && b[6] == word_bytes(
        high,
    )[2] && b[7] == word_bytes(high)[3]);
    assert(word_at(b, 0) == low);
    assert(word_at(b, 4) == high);
    assert(((low as u64) | ((high as u64) << 32)) == n) by (bit_vector)
        requires
            low == (n & 0xffff_ffff) as u32,
            high == (n >> 32) as u32,
    ;
}

/// Appends the four bytes of `w` to `out`.
pub fn push_word(out: &mut Vec<u8>, w: u32)
    ensures
        final(out)@ == old(out)@ + word_bytes(w),
{
    let b0: u32 = w & 0xff;
    let b1: u32 = (w >> 8) & 0xff;
    let b2: u32 = (w >> 16) & 0xff;
    let b3: u32 = (w >> 24) & 0xff;
    proof {
        assert(b0 < 256 && b1 < 256 && b2 < 256 && b3 < 256) by (bit_vector)
            requires
                b0 == w & 0xff,
                b1 == (w >> 8) & 0xff,
                b2 == (w >> 16) & 0xff,
                b3 == (w >> 24) & 0xff,
        ;
    }
    out.push(b0 as u8);
    out.push(b1 as u8);
    out.push(b2 as u8);
    out.push(b3 as u8);
    proof {
        assert(out@ =~= old(out)@ + word_bytes(w));
    }
}

/// Appends the eight bytes of `n` to `out`.
pub fn push_count(out: &mut Vec<u8>, n: u64)
    ensures
        final(out)@ == old(out)@ + count_bytes(n),
{
    let low: u64 = n & 0xffff_ffff;
    let high: u64 = n >> 32;
    proof {
        assert(low <= 0xffff_ffff && high <= 0xffff_ffff) by (bit_vector)
            requires
                low == n & 0xffff_ffff,
                high == n >> 32,
        ;
    }
    push_word(out, low as u32);
    push_word(out, high as u32);
    proof {
        assert(out@ =~= old(out)@ + count_bytes(n));
    }
}

/// Reads the word that the four bytes from position `at` spell.
pub fn read_word(bytes: &[u8], at: usize) -> (w: u32)
    requires
        at + 4 <= bytes.len(),
    ensures
        w == word_at(bytes@, at as int),
{
    let b0: u32 = bytes[at] as u32;
    let b1: u32 = bytes[at + 1] as u32;
    let b2: u32 = bytes[at + 2] as u32;
    let b3: u32 = bytes[at + 3] as u32;
    b0 | (b1 << 8) | (b2 << 16) | (b3 << 24)
}

/// Reads the count that the eight bytes from position `at` spell.
pub fn read_count(bytes: &[u8], at: usize) -> (n: u64)
    requires
        at + 8 <= bytes.len(),
    ensures
        n == count_at(bytes@, at as int),
{
    let low: u64 = read_word(bytes, at) as u64;
    let high: u64 = read_word(bytes, at + 4) as u64;
    low | (high << 32)
}

impl DenseVector {
    /// The bytes of the coordinates, one word after the other.
    pub fn to_bytes(&self) -> (bytes: Vec<u8>)
        ensures
            bytes@ == vector_bytes(self@),
    {
        let mut bytes: Vec<u8> = Vec::new();
        let mut i: usize = 0;
        while i < self.elements.len()
            invariant
                i <= self.elements.len(),
                bytes@ == vector_bytes(self@.take(i as int)),
            decreases self.elements.len() - i,
        {
            let ghost before = bytes@;
            push_word(&mut bytes, self.elements[i]);
            proof {
                let shorter = self@.take(i as int);
                let longer = self@.take(i + 1);
                assert(bytes@ == before + word_bytes(self@[i as int]));
                assert(word_bytes(self@[i as int]).len() == 4);
                assert forall|p: int| 0 <= p < 4 * (i + 1) implies bytes@[p] == vector_bytes(
                    longer,
                )[p] by {
                    if p < 4 * i {
                        assert(bytes@[p] == vector_bytes(shorter)[p]);
                        assert(shorter[p / 4] == longer[p / 4]);
                    } else {
                        assert(p / 4 == i);
                        assert(p % 4 == p - 4 * i);
                    }
                }
                assert(bytes@ =~= vector_bytes(longer));
            }
            i += 1;
        }
        proof {
            assert(self@.take(i as int) =~= self@);
        }
        bytes
    }

    /// The vector whose coordinates `bytes` spell, four bytes each; a rest of
    /// fewer than four bytes is left out.
    pub fn from_bytes(bytes: &[u8]) -> (v: DenseVector)
        ensures
            v@ == words_of(bytes@),
    {
        let count: usize = bytes.len() / 4;
        let mut elements: Vec<u32> = Vec::new();
        let mut j: usize = 0;
        while j < count
            invariant
                count == bytes.len() / 4,
                j <= count,
                elements.len() == j,
                forall|p: int| 0 <= p < j ==> #[trigger] elements@[p] == word_at(bytes@, 4 * p),
            decreases count - j,
        {
            let w = read_word(bytes, 4 * j);
            elements.push(w);
            j += 1;
        }
        proof {
            assert(elements@ =~= words_of(bytes@));
        }
        DenseVector { elements }
    }
}

/// Where the bytes of each coordinate stand in the bytes of vectors that all
/// have `dim` coordinates.
pub proof fn lemma_body_layout(dense: Seq<Seq<u32>>, dim: nat)
    requires
        has_dimension(dense, dim),
    ensures
        body_bytes(dense).len() == dense.len() * dim * 4,
        forall|i: int, j: int, k: int|
            0 <= i < dense.len() && 0 <= j < dim && 0 <= k < 4 ==> #[trigger] body_bytes(
                dense,
            )[(i * dim + j) * 4 + k] == word_bytes(dense[i][j])[k],
    decreases dense.len(),
{
    if dense.len() > 0 {
        let shorter = dense.drop_last();
        let last = dense.last();
        let n = dense.len() as int;
        let d = dim as int;
        lemma_body_layout(shorter, dim);
        assert(last.len() == dim);
        assert((n - 1) * d * 4 + 4 * d == n * d * 4) by (nonlinear_arith);
        assert forall|i: int, j: int, k: int|
            0 <= i < dense.len() && 0 <= j < dim && 0 <= k < 4 implies #[trigger] body_bytes(
            dense,
        )[(i * dim + j) * 4 + k] == word_bytes(dense[i][j])[k] by {
            let at = (i * d + j) * 4 + k;
            if i < n - 1 {
                assert(0 <= at < (n - 1) * d * 4) by (nonlinear_arith)
                    requires
                        at == (i * d + j) * 4 + k,
                        0 <= i < n - 1,
                        0 <= j < d,
                        0 <= k < 4,
                ;
                assert(shorter[i] == dense[i]);
            } else {
                assert(at == (n - 1) * d * 4 + (4 * j + k)) by (nonlinear_arith)
                    requires
                        at == (i * d + j) * 4 + k,
                        i == n - 1,
                ;
                assert((4 * j + k) / 4 == j);
                assert((4 * j + k) % 4 == k);
                assert(vector_bytes(last)[4 * j + k] == word_bytes(last[j])[k]);
            }
        }
    }
}

/// The image of vectors of one dimension holds those vectors, in their
/// order: reading what was written gives back every coordinate.
pub proof fn lemma_round_trip(dense: Seq<Seq<u32>>)
    requires
        dense.len() <= usize::MAX,
        declared_dim(dense) <= usize::MAX,
        has_dimension(dense, declared_dim(dense)),
    ensures
        parsed(image_of(dense)) == Ok::<Seq<Seq<u32>>, LoadError>(dense),
{
    let n = dense.len() as u64;
    let dim = declared_dim(dense) as u64;
    let image = image_of(dense);
    let body = body_bytes(dense);
    lemma_count_round_trip(n);
    lemma_count_round_trip(dim);
    lemma_body_layout(dense, declared_dim(dense));
    assert(image.len() == HEADER_LEN + dense.len() * declared_dim(dense) * 4);
    assert forall|p: int| 0 <= p < 8 implies image[p] == count_bytes(n)[p] && image[8 + p]
        == count_bytes(dim)[p] by {}
    assert(count_at(image, 0) == count_at(count_bytes(n), 0));
    assert(count_at(image, 8) == count_at(count_bytes(dim), 0));
    assert(HEADER_LEN + (n as int) * (dim as int) * 4 == image.len());
    let back = parsed(image)->Ok_0;
    assert(parsed(image) is Ok);
    assert(back.len() == dense.len());
    assert forall|i: int| 0 <= i < dense.len() implies #[trigger] back[i] == dense[i] by {
        assert(dense[i].len() == dim);
        assert forall|j: int| 0 <= j < dim implies #[trigger] back[i][j] == dense[i][j] by {
            let w = dense[i][j];
            let at = (i * dim + j) * 4;
            lemma_word_round_trip(w);
            assert(0 <= at && at + 3 < body.len()) by (nonlinear_arith)
                requires
                    at == (i * dim + j) * 4,
                    0 <= i < dense.len(),
                    0 <= j < dim,
                    body.len() == dense.len() * dim * 4,
            ;
            assert(body[at + 0] == word_bytes(w)[0]);
            assert(body[at + 1] == word_bytes(w)[1]);
            assert(body[at + 2] == word_bytes(w)[2]);
            assert(body[at + 3] == word_bytes(w)[3]);
            assert(image[HEADER_LEN + at] == body[at]);
            assert(image[HEADER_LEN + at + 1] == body[at + 1]);
            assert(image[HEADER_LEN + at + 2] == body[at + 2]);
            assert(image[HEADER_LEN + at + 3] == body[at + 3]);
            assert(back[i][j] == word_at(image, HEADER_LEN + at));
        }
        assert(back[i] =~= dense[i]);
    }
    assert(back =~= dense);
}

/// What is read from the image of a store's full vectors is those vectors,
/// coordinate for coordinate and in the order of their handles.
pub proof fn lemma_store_round_trip(store: &VectorStore)
    requires
        store.wf(),
    ensures
        parsed(image_of(rows(store.dense@))) == Ok::<Seq<Seq<u32>>, LoadError>(
            rows(store.dense@),
        ),
{
    if store.dense.len() > 0 {
        assert(rows(store.dense@)[0] == store.dense[0]@);
        assert(store.dense[0]@.len() == store.dense[0].elements.len());
    }
    lemma_round_trip(rows(store.dense@));
}

impl VectorStore {
    /// The image of the store's full vectors, or nothing for an empty store,
    /// which has no image.
    pub fn to_bytes(&self) -> (image: Option<Vec<u8>>)
        ensures
            match image {
                Some(bytes) => self.dense.len() > 0 && bytes@ == image_of(rows(self.dense@)),
                None => self.dense.len() == 0,
            },
    {
        if self.dense.len() == 0 {
            return None;
        }
        let mut out: Vec<u8> = Vec::new();
        push_count(&mut out, self.dense.len() as u64);
        push_count(&mut out, self.dense[0].elements.len() as u64);
        let ghost header = out@;
        let ghost all = rows(self.dense@);
        proof {
            assert(header =~= count_bytes(all.len() as u64) + count_bytes(
                declared_dim(all) as u64,
            ));
        }
        let mut i: usize = 0;
        while i < self.dense.len()
            invariant
                all == rows(self.dense@),
                i <= self.dense.len(),
                out@ == header + body_bytes(all.take(i as int)),
            decreases self.dense.len() - i,
        {
            let mut bytes = self.dense[i].to_bytes();
            out.append(&mut bytes);
            proof {
                assert(all.take(i + 1).drop_last() =~= all.take(i as int));
                assert(all.take(i + 1).last() == self.dense[i as int]@);
                assert(out@ =~= header + body_bytes(all.take(i + 1)));
            }
            i += 1;
        }
        proof {
            assert(all.take(i as int) =~= all);
            assert(out@ =~= image_of(all));
        }
        Some(out)
    }

    /// The store whose image `bytes` are, or why they are none. Each vector
    /// is added as any other is, so the store has both views of it; it has no
    /// index.
    pub fn from_bytes(bytes: &[u8]) -> (loaded: Result<VectorStore, LoadError>)
        ensures
            match loaded {
                Ok(store) => {
                    &&& store.wf()
                    &&& store.ivf_index is None
                    &&& store.centroids is None
                    &&& parsed(bytes@) == Ok::<Seq<Seq<u32>>, LoadError>(rows(store.dense@))
                },
                Err(e) => parsed(bytes@) == Err::<Seq<Seq<u32>>, LoadError>(e),
            },
    {
        if bytes.len() < HEADER_LEN {
            return Err(LoadError::ShortHeader);
        }
        let declared: u64 = read_count(bytes, 0);
        let dim: u64 = read_count(bytes, 8);
        if declared > usize::MAX as u64 {
            return Err(LoadError::ShortBody);
        }
        let n: usize = declared as usize;
        let avail: usize = bytes.len() - HEADER_LEN;
        let words: u64 = (avail / 4) as u64;
        let mut stride: usize = 0;
        if n > 0 && dim > 0 {
            if dim > words || declared > words / dim {
                proof {
                    assert(n * dim * 4 > avail) by (nonlinear_arith)
                        requires
                            n > 0,
                            dim > 0,
                            words == avail / 4,
                            dim > words || n > words / dim,
                    ;
                }
                return Err(LoadError::ShortBody);
            }
            proof {
                assert(n * dim * 4 <= avail && dim * 4 <= avail) by (nonlinear_arith)
                    requires
                        n > 0,
                        dim > 0,
                        words == avail / 4,
                        dim <= words,
                        n <= words / dim,
                ;
            }
            stride = (dim * 4) as usize;
        }
        let ghost expected = parsed(bytes@)->Ok_0;
        proof {
            assert(n * dim * 4 <= avail) by (nonlinear_arith)
                requires
                    n == 0 || dim == 0 || n * dim * 4 <= avail,
                    0 <= avail,
            ;
            assert(parsed(bytes@) is Ok);
        }
        let mut store = VectorStore::new();
        let mut at: usize = HEADER_LEN;
        let mut i: usize = 0;
        while i < n
            invariant
                i <= n,
                n == count_at(bytes@, 0),
                dim == count_at(bytes@, 8),
                bytes.len() >= HEADER_LEN,
                avail == bytes.len() - HEADER_LEN,
                n * dim * 4 <= avail,
                stride == if n > 0 {
                    dim * 4
                } else {
                    0
                },
                at == HEADER_LEN + i * stride,
                parsed(bytes@) == Ok::<Seq<Seq<u32>>, LoadError>(expected),
                store.wf(),
                store.ivf_index is None,
                store.centroids is None,
                store.dense.len() == i,
                forall|p: int| 0 <= p < i ==> (#[trigger] store.dense[p])@ == expected[p],
            decreases n - i,
        {
            proof {
                assert((i + 1) * stride <= avail) by (nonlinear_arith)
                    requires
                        i < n,
                        stride == dim * 4,
                        n * dim * 4 <= avail,
                        0 <= stride,
                ;
                assert((i + 1) * stride == i * stride + stride) by (nonlinear_arith);
            }
            let slice = slice_subrange(bytes, at, at + stride);
            let v = DenseVector::from_bytes(slice);
            proof {
                assert(slice@.len() == stride);
                assert(v@.len() == dim);
                assert forall|j: int|
                    0 <= j < dim implies #[trigger] v@[j] == expected[i as int][j] by {
                    assert(at + 4 * j == HEADER_LEN + (i * dim + j) * 4) by (nonlinear_arith)
                        requires
                            at == HEADER_LEN + i * stride,
                            stride == dim * 4,
                    ;
                    assert(v@[j] == word_at(slice@, 4 * j));
                    assert(slice@[4 * j] == bytes@[at + 4 * j]);
                    assert(slice@[4 * j + 1] == bytes@[at + 4 * j + 1]);
                    assert(slice@[4 * j + 2] == bytes@[at + 4 * j + 2]);
                    assert(slice@[4 * j + 3] == bytes@[at + 4 * j + 3]);
                }
                assert(v@ =~= expected[i as int]);
                if i > 0 {
                    assert(store.dense[0]@ == expected[0]);
                }
            }
            store.add(v);
            at = at + stride;
            i += 1;
        }
        proof {
            assert(rows(store.dense@) =~= expected);
        }
        Ok(store)
    }
}

} // verus!
