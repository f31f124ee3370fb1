//! The read view of an index file: how many chunks it lists, which digest
//! stands at which position, and how many bytes the chunks stand for.

use vstd::prelude::*;
use crate::error::Error;

verus! {

/// One chunk of an index: the bytes `start..end` of the archive and the
/// digest of the chunk that holds them.
#[derive(Clone, Copy, Debug)]
pub struct ChunkReadInfo {
    pub start: u64,
    pub end: u64,
    pub digest: [u8; 32],
}

/// What garbage collection and restore need of an index.
pub trait IndexFile {
    /// The digests of the index, by position.
    spec fn digests(&self) -> Seq<Seq<u8>>;

    /// The offset in the archive at which the chunk at `pos` ends.
    spec fn chunk_end(&self, pos: int) -> int;

    /// The number of positions.
    fn index_count(&self) -> (n: usize)
        ensures
            n == self.digests().len(),
    ;

    /// The digest at `pos`, if there is such a position.
    fn index_digest(&self, pos: usize) -> (d: Option<&[u8; 32]>)
        ensures
            d is Some <==> pos < self.digests().len(),
            d matches Some(x) ==> x@ == self.digests()[pos as int],
    ;

    /// The number of bytes of the archive that the index stands for.
    fn index_bytes(&self) -> (n: u64)
        ensures
            n == index_bytes_spec(self.digests().len() as int, |p: int| self.chunk_end(p)),
    ;

    /// The chunk at `pos`, if there is such a position: its digest, and
    /// the range from the end of the chunk before it to its own end.
    fn chunk_info(&self, pos: usize) -> (info: Option<ChunkReadInfo>)
        ensures
            info is Some <==> pos < self.digests().len(),
            info matches Some(c) ==> {
                &&& c.digest@ == self.digests()[pos as int]
                &&& c.end == self.chunk_end(pos as int)
                &&& c.start == chunk_start_spec(pos as int, |p: int| self.chunk_end(p))
            },
    ;
}

/// The bytes that an index of `count` chunks stands for: the end of its
/// last chunk.
pub open spec fn index_bytes_spec(count: int, chunk_end: spec_fn(int) -> int) -> int {
    if count <= 0 {
        0
    } else {
        chunk_end(count - 1)
    }
}

/// Where the chunk at `pos` starts: where the one before it ends.
pub open spec fn chunk_start_spec(pos: int, chunk_end: spec_fn(int) -> int) -> int {
    if pos <= 0 {
        0
    } else {
        chunk_end(pos - 1)
    }
}

/// The views of a sequence of digests.
pub open spec fn digest_views(v: Seq<[u8; 32]>) -> Seq<Seq<u8>> {
    Seq::new(v.len(), |i: int| v[i]@)
}

/// An index of chunks of one size, as a block device backup has it.
pub struct FixedIndexReader {
    chunk_size: u64,
    size: u64,
    digests: Vec<[u8; 32]>,
}

/// Whether `count` chunks of `chunk_size` bytes are what an image of `size`
/// bytes needs, the last chunk being the only one that may be shorter.
pub open spec fn fixed_index_shape(chunk_size: int, size: int, count: int) -> bool {
    &&& chunk_size > 0
    &&& 0 <= size
    &&& count * chunk_size <= u64::MAX
    &&& if size == 0 {
        count == 0
    } else {
        count > 0 && (count - 1) * chunk_size < size <= count * chunk_size
    }
}

impl FixedIndexReader {
    #[verifier::type_invariant]
    spec fn inv(self) -> bool {
        fixed_index_shape(self.chunk_size as int, self.size as int, self.digests.len() as int)
    }

    /// The size of the image.
    pub closed spec fn image_size(&self) -> int {
        self.size as int
    }

    /// The size of every chunk but the last.
    pub closed spec fn chunk_size_spec(&self) -> int {
        self.chunk_size as int
    }

    /// Makes the index of an image of `size` bytes in chunks of `chunk_size`
    /// bytes.
    ///
    /// Fails with `Corrupt` unless the number of digests is the number of
    /// chunks that the image needs.
    pub fn new(chunk_size: u64, size: u64, digests: Vec<[u8; 32]>) -> (r: Result<Self, Error>)
        ensures
            r is Ok <==> fixed_index_shape(chunk_size as int, size as int, digests.len() as int),
            r matches Ok(index) ==> {
                &&& index.digests() == digest_views(digests@)
                &&& index.image_size() == size
                &&& index.chunk_size_spec() == chunk_size
            },
            r matches Err(e) ==> e == Error::Corrupt,
    {
        if chunk_size == 0 {
            return Err(Error::Corrupt);
        }
        let count: u64 = digests.len() as u64;
        if size == 0 {
            if count != 0 {
                return Err(Error::Corrupt);
            }
            assert(0 * (chunk_size as int) == 0) by (nonlinear_arith);
            return Ok(FixedIndexReader { chunk_size, size, digests });
        }
        if count == 0 {
            return Err(Error::Corrupt);
        }
        let total: u64 = match count.checked_mul(chunk_size) {
            Some(t) => t,
            None => {
                return Err(Error::Corrupt);
            },
        };
        assert((count - 1) * chunk_size == total - chunk_size) by (nonlinear_arith)
            requires
                total == count * chunk_size,
        ;
        if size > total || total - chunk_size >= size {
            return Err(Error::Corrupt);
        }
        Ok(FixedIndexReader { chunk_size, size, digests })
    }
}

impl IndexFile for FixedIndexReader {
    closed spec fn digests(&self) -> Seq<Seq<u8>> {
        digest_views(self.digests@)
    }

    closed spec fn chunk_end(&self, pos: int) -> int {
        if (pos + 1) * self.chunk_size < self.size {
            (pos + 1) * self.chunk_size
        } else {
            self.size as int
        }
    }

    fn index_count(&self) -> (n: usize) {
        self.digests.len()
    }

    fn index_digest(&self, pos: usize) -> (d: Option<&[u8; 32]>) {
        if pos < self.digests.len() {
            Some(&self.digests[pos])
        } else {
            None
        }
    }

    fn index_bytes(&self) -> (n: u64) {
        proof {
            use_type_invariant(self);
        }
        self.size
    }

    fn chunk_info(&self, pos: usize) -> (info: Option<ChunkReadInfo>) {
        proof {
            use_type_invariant(self);
        }
        if pos >= self.digests.len() {
            return None;
        }
        let ghost count = self.digests.len() as int;
        let ghost cs = self.chunk_size as int;
        assert(pos * cs <= (pos + 1) * cs <= count * cs) by (nonlinear_arith)
            requires
                0 <= pos < count,
                cs > 0,
        ;
        assert((pos + 1) * cs == pos * cs + cs) by (nonlinear_arith);
        assert(pos * cs <= (count - 1) * cs) by (nonlinear_arith)
            requires
                0 <= pos < count,
                cs > 0,
        ;
        let start: u64 = pos as u64 * self.chunk_size;
        let mut end: u64 = start + self.chunk_size;
        if end > self.size {
            end = self.size;
        }
        Some(ChunkReadInfo { start, end, digest: self.digests[pos] })
    }
}

/// One entry of a dynamic index: where the chunk ends, and its digest.
#[derive(Clone, Copy, Debug)]
pub struct DynamicEntry {
    pub end: u64,
    pub digest: [u8; 32],
}

/// An index of chunks of varying size, as a file archive has it.
pub struct DynamicIndexReader {
    entries: Vec<DynamicEntry>,
}

/// Whether the chunks of a dynamic index end in ascending order.
pub open spec fn dynamic_index_shape(entries: Seq<DynamicEntry>) -> bool {
    forall|i: int, j: int| 0 <= i <= j < entries.len() ==> entries[i].end <= entries[j].end
}

impl DynamicIndexReader {
    #[verifier::type_invariant]
    spec fn inv(self) -> bool {
        dynamic_index_shape(self.entries@)
    }

    /// The entries of the index.
    pub closed spec fn entries(&self) -> Seq<DynamicEntry> {
        self.entries@
    }

    /// Makes the index of the given entries.
    ///
    /// Fails with `Corrupt` unless the chunks end in ascending order.
    pub fn new(entries: Vec<DynamicEntry>) -> (r: Result<Self, Error>)
        ensures
            r is Ok <==> dynamic_index_shape(entries@),
            r matches Ok(index) ==> index.entries() == entries@ && index.digests() == Seq::new(
                entries@.len(),
                |i: int| entries@[i].digest@,
            ),
            r matches Err(e) ==> e == Error::Corrupt,
    {
        let mut i: usize = 1;
        while i < entries.len()
            invariant
                1 <= i,
                forall|a: int, b: int| 0 <= a <= b < i && b < entries.len() ==> entries[a].end
                    <= entries[b].end,
            decreases entries.len() - i,
        {
            if entries[i - 1].end > entries[i].end {
                return Err(Error::Corrupt);
            }
            assert forall|a: int, b: int| 0 <= a <= b < i + 1 && b < entries.len() implies entries[a].end
                <= entries[b].end by {
                if b == i && a < i {
                    assert(entries[a].end <= entries[i - 1].end);
                }
            }
            i += 1;
        }
        Ok(DynamicIndexReader { entries })
    }
}

impl IndexFile for DynamicIndexReader {
    closed spec fn digests(&self) -> Seq<Seq<u8>> {
        Seq::new(self.entries@.len(), |i: int| self.entries@[i].digest@)
    }

    closed spec fn chunk_end(&self, pos: int) -> int {
        self.entries@[pos].end as int
    }

    fn index_count(&self) -> (n: usize) {
        self.entries.len()
    }

    fn index_digest(&self, pos: usize) -> (d: Option<&[u8; 32]>) {
        if pos < self.entries.len() {
            Some(&self.entries[pos].digest)
        } else {
            None
        }
    }

    fn index_bytes(&self) -> (n: u64) {
        if self.entries.len() == 0 {
            0
        } else {
            self.entries[self.entries.len() - 1].end
        }
    }

    fn chunk_info(&self, pos: usize) -> (info: Option<ChunkReadInfo>) {
        if pos >= self.entries.len() {
            return None;
        }
        let start: u64 = if pos == 0 {
            0
        } else {
            self.entries[pos - 1].end
        };
        Some(ChunkReadInfo { start, end: self.entries[pos].end, digest: self.entries[pos].digest })
    }
}

/// An index of either kind.
pub enum IndexData {
    Fixed(FixedIndexReader),
    Dynamic(DynamicIndexReader),
}

/// An index, as contracts see it.
pub struct IndexView {
    /// Whether the chunks are of one size.
    pub fixed: bool,
    /// The digests, by position.
    pub digests: Seq<Seq<u8>>,
    /// Where the chunks end, by position.
    pub ends: Seq<int>,
}

impl View for IndexData {
    type V = IndexView;

    open spec fn view(&self) -> IndexView {
        IndexView {
            fixed: self is Fixed,
            digests: self.digests(),
            ends: Seq::new(self.digests().len(), |p: int| self.chunk_end(p)),
        }
    }
}

impl FixedIndexReader {
    /// A copy of the index.
    pub fn duplicate(&self) -> (index: FixedIndexReader)
        ensures
            index.digests() == self.digests(),
            forall|p: int| index.chunk_end(p) == self.chunk_end(p),
    {
        proof {
            use_type_invariant(self);
        }
        let mut digests: Vec<[u8; 32]> = Vec::new();
        let mut i: usize = 0;
        while i < self.digests.len()
            invariant
                i <= self.digests.len(),
                digests@ == self.digests@.take(i as int),
            decreases self.digests.len() - i,
        {
            digests.push(self.digests[i]);
            assert(self.digests@.take(i + 1) =~= self.digests@.take(i as int).push(
                self.digests@[i as int],
            ));
            i += 1;
        }
        assert(self.digests@.take(self.digests.len() as int) =~= self.digests@);
        FixedIndexReader { chunk_size: self.chunk_size, size: self.size, digests }
    }
}

impl DynamicIndexReader {
    /// A copy of the index.
    pub fn duplicate(&self) -> (index: DynamicIndexReader)
        ensures
            index.digests() == self.digests(),
            forall|p: int| index.chunk_end(p) == self.chunk_end(p),
    {
        proof {
            use_type_invariant(self);
        }
        let mut entries: Vec<DynamicEntry> = Vec::new();
        let mut i: usize = 0;
        while i < self.entries.len()
            invariant
                i <= self.entries.len(),
                entries@ == self.entries@.take(i as int),
            decreases self.entries.len() - i,
        {
            entries.push(self.entries[i]);
            assert(self.entries@.take(i + 1) =~= self.entries@.take(i as int).push(
                self.entries@[i as int],
            ));
            i += 1;
        }
        assert(self.entries@.take(self.entries.len() as int) =~= self.entries@);
        DynamicIndexReader { entries }
    }
}

impl IndexData {
    /// A copy of the index.
    pub fn duplicate(&self) -> (index: IndexData)
        ensures
            index@ == self@,
    {
        match self {
            IndexData::Fixed(i) => {
                let index = IndexData::Fixed(i.duplicate());
                assert(index@.ends =~= self@.ends);
                index
            },
            IndexData::Dynamic(i) => {
                let index = IndexData::Dynamic(i.duplicate());
                assert(index@.ends =~= self@.ends);
                index
            },
        }
    }
}

impl IndexFile for IndexData {
    open spec fn digests(&self) -> Seq<Seq<u8>> {
        match self {
            IndexData::Fixed(index) => index.digests(),
            IndexData::Dynamic(index) => index.digests(),
        }
    }

    open spec fn chunk_end(&self, pos: int) -> int {
        match self {
            IndexData::Fixed(index) => index.chunk_end(pos),
            IndexData::Dynamic(index) => index.chunk_end(pos),
        }
    }

    fn index_count(&self) -> (n: usize) {
        match self {
            IndexData::Fixed(index) => index.index_count(),
            IndexData::Dynamic(index) => index.index_count(),
        }
    }

    fn index_digest(&self, pos: usize) -> (d: Option<&[u8; 32]>) {
        match self {
            IndexData::Fixed(index) => index.index_digest(pos),
            IndexData::Dynamic(index) => index.index_digest(pos),
        }
    }

    fn index_bytes(&self) -> (n: u64) {
        match self {
            IndexData::Fixed(index) => index.index_bytes(),
            IndexData::Dynamic(index) => index.index_bytes(),
        }
    }

    fn chunk_info(&self, pos: usize) -> (info: Option<ChunkReadInfo>) {
        match self {
            IndexData::Fixed(index) => index.chunk_info(pos),
            IndexData::Dynamic(index) => index.chunk_info(pos),
        }
    }
}

} // verus!
