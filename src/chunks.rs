use vstd::prelude::*;

verus! {

/// Width of one piece digest.
pub const CHUNK_SIZE: usize = 20;

/// The piece digests of a torrent, one fixed-width chunk each, in piece order.
#[derive(Debug, Clone, PartialEq, Eq)]
pub struct Hashes(pub Vec<[u8; CHUNK_SIZE]>);

/// A digest field whose byte length is not a multiple of `CHUNK_SIZE`.
#[derive(Debug, Clone, Copy, PartialEq, Eq, Structural)]
pub struct ChunkLengthError {
    pub length: usize,
}

/// Chunks laid end to end.
pub open spec fn flatten_chunks(c: Seq<[u8; CHUNK_SIZE]>) -> Seq<u8>
    decreases c.len(),
{
    if c.len() == 0 {
        Seq::empty()
    } else {
        flatten_chunks(c.drop_last()) + c.last()@
    }
}

/// `c` cuts `b` into consecutive chunks.
pub open spec fn chunks_of(b: Seq<u8>, c: Seq<[u8; CHUNK_SIZE]>) -> bool {
    &&& b.len() == c.len() * CHUNK_SIZE
    &&& forall|i: int| 0 <= i < c.len() ==> (#[trigger] c[i])@ == b.subrange(
        i * CHUNK_SIZE,
        i * CHUNK_SIZE + CHUNK_SIZE,
    )
}

/// Cutting bytes into chunks and laying the chunks end to end gives the same
/// bytes back.
pub proof fn lemma_chunks_round_trip(b: Seq<u8>, c: Seq<[u8; CHUNK_SIZE]>)
    requires
        chunks_of(b, c),
    ensures
        flatten_chunks(c) == b,
    decreases c.len(),
{
    if c.len() == 0 {
        assert(b =~= Seq::<u8>::empty());
    } else {
        let n = c.len() - 1;
        let p = b.subrange(0, n * CHUNK_SIZE);
        assert forall|i: int| 0 <= i < n implies (#[trigger] c.drop_last()[i])@ == p.subrange(
            i * CHUNK_SIZE,
            i * CHUNK_SIZE + CHUNK_SIZE,
        ) by {
            assert(c.drop_last()[i] == c[i]);
            assert(i * CHUNK_SIZE + CHUNK_SIZE <= n * CHUNK_SIZE) by (nonlinear_arith)
                requires
                    i < n,
            ;
            assert(p.subrange(i * CHUNK_SIZE, i * CHUNK_SIZE + CHUNK_SIZE) =~= b.subrange(
                i * CHUNK_SIZE,
                i * CHUNK_SIZE + CHUNK_SIZE,
            ));
        }
        lemma_chunks_round_trip(p, c.drop_last());
        assert(c.last() == c[n]);
        assert(b =~= p + b.subrange(n * CHUNK_SIZE, n * CHUNK_SIZE + CHUNK_SIZE));
    }
}

impl Hashes {
    /// The digests laid end to end.
    pub open spec fn bytes(&self) -> Seq<u8> {
        flatten_chunks(self.0@)
    }

    /// Cuts a digest field into chunks; fails when its length is not a multiple
    /// of `CHUNK_SIZE`.
    pub fn from_bytes(v: &[u8]) -> (r: Result<Hashes, ChunkLengthError>)
        ensures
            r is Err <==> v@.len() % (CHUNK_SIZE as nat) != 0,
            r matches Err(e) ==> e.length == v@.len(),
            r matches Ok(h) ==> chunks_of(v@, h.0@) && h.bytes() == v@,
    {
        let len = v.len();
        if len % CHUNK_SIZE != 0 {
            return Err(ChunkLengthError { length: len });
        }
        let n = len / CHUNK_SIZE;
        let mut out: Vec<[u8; CHUNK_SIZE]> = Vec::new();
        let mut i: usize = 0;
        while i < n
            invariant
                n * CHUNK_SIZE == len,
                len == v@.len(),
                i <= n,
                out@.len() == i,
                forall|m: int| 0 <= m < i ==> (#[trigger] out@[m])@ == v@.subrange(
                    m * CHUNK_SIZE,
                    m * CHUNK_SIZE + CHUNK_SIZE,
                ),
            decreases n - i,
        {
            assert(i * CHUNK_SIZE + CHUNK_SIZE <= n * CHUNK_SIZE) by (nonlinear_arith)
                requires
                    i < n,
            ;
            let base = i * CHUNK_SIZE;
            let mut a: [u8; CHUNK_SIZE] = [0u8; CHUNK_SIZE];
            let mut j: usize = 0;
            while j < CHUNK_SIZE
                invariant
                    base + CHUNK_SIZE <= v@.len(),
                    len == v@.len(),
                    j <= CHUNK_SIZE,
                    forall|m: int| 0 <= m < j ==> a@[m] == v@[base + m],
                decreases CHUNK_SIZE - j,
            {
                a[j] = v[base + j];
                j = j + 1;
            }
            assert(a@ =~= v@.subrange(base as int, base + CHUNK_SIZE));
            out.push(a);
            i = i + 1;
        }
        proof {
            lemma_chunks_round_trip(v@, out@);
        }
        Ok(Hashes(out))
    }

    /// The digests laid end to end, as one byte string.
    pub fn to_bytes(&self) -> (r: Vec<u8>)
        ensures
            r@ == self.bytes(),
            r@.len() == self.0@.len() * CHUNK_SIZE,
    {
        let mut out: Vec<u8> = Vec::new();
        let mut i: usize = 0;
        assert(self.0@.subrange(0, 0) =~= Seq::<[u8; CHUNK_SIZE]>::empty());
        while i < self.0.len()
            invariant
                i <= self.0@.len(),
                out@ == flatten_chunks(self.0@.subrange(0, i as int)),
                out@.len() == i * CHUNK_SIZE,
            decreases self.0.len() - i,
        {
            let a = self.0[i];
            let mut j: usize = 0;
            let ghost before = out@;
            while j < CHUNK_SIZE
                invariant
                    j <= CHUNK_SIZE,
                    out@ == before + a@.subrange(0, j as int),
                decreases CHUNK_SIZE - j,
            {
                out.push(a[j]);
                assert(a@.subrange(0, j + 1) =~= a@.subrange(0, j as int).push(a@[j as int]));
                j = j + 1;
            }
            assert(a@.subrange(0, CHUNK_SIZE as int) =~= a@);
            assert(self.0@.subrange(0, i + 1).drop_last() =~= self.0@.subrange(0, i as int));
            assert(i * CHUNK_SIZE + CHUNK_SIZE == (i + 1) * CHUNK_SIZE) by (nonlinear_arith);
            i = i + 1;
        }
        assert(self.0@.subrange(0, self.0@.len() as int) =~= self.0@);
        out
    }
}

} // verus!
