//! Chunk fingerprinting, alignment recovery, and the resulting delta map.

use vstd::prelude::*;

use crate::hashing::chunk_fingerprint;
use crate::hashing::xxh3_128;
use std::collections::HashMap;

verus! {

/// Spec-level picture of one recovered baseline-chunk-sized region of the
/// target file.
pub ghost struct ChunkModel {
    /// Byte offset `index * chunk_size` on the baseline grid.
    pub start: int,
    /// Byte offset `start + chunk_size` (not clamped to the file length).
    pub end: int,
    /// Whether a window matching this baseline chunk was found in the target.
    pub is_present: bool,
    /// Target bytes immediately preceding the match that could not be
    /// aligned to any baseline chunk; empty for absent entries.
    pub problem_bytes: Seq<u8>,
}

/// The recovered state of one baseline-chunk-sized region of the target file.
#[derive(Debug)]
pub struct Chunk {
    end: usize,
    start: usize,
    is_present: bool,
    problem_bytes: Vec<u8>,
}

impl View for Chunk {
    type V = ChunkModel;

    closed spec fn view(&self) -> ChunkModel {
        ChunkModel {
            start: self.start as int,
            end: self.end as int,
            is_present: self.is_present,
            problem_bytes: self.problem_bytes@,
        }
    }
}

/// The entry the gap filler inserts for a baseline chunk never located in
/// the target.
pub open spec fn absent_chunk(idx: int, c_size: int) -> ChunkModel {
    ChunkModel {
        start: idx * c_size,
        end: idx * c_size + c_size,
        is_present: false,
        problem_bytes: Seq::empty(),
    }
}

/// The entry the scanner records when the window matches baseline chunk
/// `idx`, with the unaligned bytes gathered since the previous match.
pub open spec fn present_chunk(idx: int, c_size: int, problems: Seq<u8>) -> ChunkModel {
    ChunkModel {
        start: idx * c_size,
        end: idx * c_size + c_size,
        is_present: true,
        problem_bytes: problems,
    }
}

/// Number of chunks a file of `len` bytes is cut into: every full chunk,
/// plus one final shorter chunk when `len` is not a multiple of `c_size`.
pub open spec fn num_chunks(len: int, c_size: int) -> int {
    if len % c_size == 0 {
        len / c_size
    } else {
        len / c_size + 1
    }
}

/// The bytes of chunk `idx` of `data`: a full `c_size` slice, except that
/// the final chunk ends at the end of the file.
pub open spec fn chunk_at(data: Seq<u8>, c_size: int, idx: int) -> Seq<u8> {
    let hi = if (idx + 1) * c_size <= data.len() {
        (idx + 1) * c_size
    } else {
        data.len() as int
    };
    data.subrange(idx * c_size, hi)
}

/// The ordered fingerprint list of a file: one digest per chunk, in file
/// order.
pub open spec fn fingerprints_of(data: Seq<u8>, c_size: int) -> Seq<u128> {
    Seq::new(num_chunks(data.len() as int, c_size) as nat, |i: int| xxh3_128(chunk_at(data, c_size, i)))
}

/// The position index built by inserting each fingerprint with its chunk
/// index, in file order, into a plain map. Insertion is unconditional, so
/// when two chunks share a fingerprint the later (higher) index wins.
pub open spec fn position_map_of(hashes: Seq<u128>) -> Map<u128, usize>
    decreases hashes.len(),
{
    if hashes.len() == 0 {
        Map::empty()
    } else {
        position_map_of(hashes.drop_last()).insert(hashes.last(), (hashes.len() - 1) as usize)
    }
}

/// State carried across the byte-by-byte resynchronization scan.
pub ghost struct ScanState {
    /// The trailing window: bytes read but not yet matched or displaced.
    pub window: Seq<u8>,
    /// Bytes displaced out of the window since the last successful match.
    pub problems: Seq<u8>,
    /// The delta entries recorded so far, by baseline chunk index.
    pub entries: Map<usize, ChunkModel>,
}

/// The scan starts with empty buffers and no entries.
pub open spec fn scan_init() -> ScanState {
    ScanState { window: Seq::empty(), problems: Seq::empty(), entries: Map::empty() }
}

/// One step of the scan: take the next target byte into the window; once
/// the window holds `c_size` bytes, test it. A window grown one past
/// `c_size` first evicts its oldest byte into the problem accumulator.
/// On a fingerprint hit at baseline index `p` the entry for `p` is
/// inserted (overwriting any earlier match of `p`) and both buffers are
/// cleared; otherwise the window slides on.
pub open spec fn scan_step(hashes: Seq<u128>, c_size: int, st: ScanState, byte: u8) -> ScanState {
    let grown = st.window.push(byte);
    if grown.len() < c_size {
        ScanState { window: grown, problems: st.problems, entries: st.entries }
    } else {
        let window = if grown.len() > c_size {
            grown.drop_first()
        } else {
            grown
        };
        let problems = if grown.len() > c_size {
            st.problems.push(grown[0])
        } else {
            st.problems
        };
        let positions = position_map_of(hashes);
        let h = xxh3_128(window);
        if positions.contains_key(h) {
            ScanState {
                window: Seq::empty(),
                problems: Seq::empty(),
                entries: st.entries.insert(
                    positions[h],
                    present_chunk(positions[h] as int, c_size, problems),
                ),
            }
        } else {
            ScanState { window, problems, entries: st.entries }
        }
    }
}

/// The scan state after the first `n` bytes of the target have been
/// consumed. Whatever remains in the window and the problem accumulator at
/// the end of the target is discarded.
pub open spec fn scan(hashes: Seq<u128>, c_size: int, data: Seq<u8>, n: int) -> ScanState
    decreases n,
{
    if n <= 0 {
        scan_init()
    } else {
        scan_step(hashes, c_size, scan(hashes, c_size, data, n - 1), data[n - 1])
    }
}

/// The gap filler's result: every baseline index below `n` gets an entry,
/// absent unless the scan recorded one; recorded entries are kept as they
/// are.
pub open spec fn fill_missing(entries: Map<usize, ChunkModel>, n: int, c_size: int) -> Map<usize, ChunkModel> {
    Map::new(
        |k: usize| entries.contains_key(k) || (k as int) < n,
        |k: usize| if entries.contains_key(k) {
            entries[k]
        } else {
            absent_chunk(k as int, c_size)
        },
    )
}

/// The complete delta of a target against a baseline fingerprint list:
/// the scan of the whole target, gap-filled over every baseline index.
pub open spec fn delta_map_of(hashes: Seq<u128>, c_size: int, data: Seq<u8>) -> Map<usize, ChunkModel> {
    fill_missing(scan(hashes, c_size, data, data.len() as int).entries, hashes.len() as int, c_size)
}

/// A delta map of concrete chunks, seen at the spec level.
pub open spec fn delta_view(m: Map<usize, Chunk>) -> Map<usize, ChunkModel> {
    m.map_values(|c: Chunk| c@)
}

impl Chunk {
    fn new(idx: usize, bytes: Vec<u8>, c_size: usize, is_present: bool) -> (c: Chunk)
        requires
            idx * c_size + c_size <= usize::MAX,
        ensures
            c@.start == idx * c_size,
            c@.end == idx * c_size + c_size,
            c@.is_present == is_present,
            c@.problem_bytes == bytes@,
    {
        Chunk {
            is_present,
            start: idx * c_size,
            problem_bytes: bytes,
            end: (idx * c_size) + c_size,
        }
    }

    /// Byte offset of this region on the baseline chunk grid.
    pub fn start(&self) -> (r: usize)
        ensures
            r == self@.start,
    {
        self.start
    }

    /// One past the last byte offset of this region (not clamped to the
    /// target file length).
    pub fn end(&self) -> (r: usize)
        ensures
            r == self@.end,
    {
        self.end
    }

    /// Whether a matching window was found in the target for this baseline
    /// chunk.
    pub fn is_present(&self) -> (r: bool)
        ensures
            r == self@.is_present,
    {
        self.is_present
    }

    /// The unaligned target bytes attached to this match.
    pub fn problem_bytes(&self) -> (r: &Vec<u8>)
        ensures
            r@ == self@.problem_bytes,
    {
        &self.problem_bytes
    }
}

/// Why an operation on a file's bytes was refused.
#[derive(Debug, PartialEq)]
pub enum DeltaError {
    /// The file is too small to hold at least two chunks.
    InsufficientData,
    /// The file could not be opened or read; carries the reported message.
    IoError(String),
}

/// Spec-level picture of the diff state: sizes, chunk size, and the bytes
/// of the two files read so far.
pub ghost struct CommonModel {
    pub file1_size: int,
    pub file2_size: int,
    pub chunk_size: int,
    pub file1_data: Seq<u8>,
    pub file2_data: Seq<u8>,
}

/// Shared state of one diff operation: the chunk size and the data and
/// sizes of the baseline (file 1) and target (file 2) files.
#[derive(Debug)]
pub struct Common {
    file1_size: usize,
    file2_size: usize,
    chunk_size: usize,
    file1_data: Vec<u8>,
    file2_data: Vec<u8>,
}

impl View for Common {
    type V = CommonModel;

    closed spec fn view(&self) -> CommonModel {
        CommonModel {
            file1_size: self.file1_size as int,
            file2_size: self.file2_size as int,
            chunk_size: self.chunk_size as int,
            file1_data: self.file1_data@,
            file2_data: self.file2_data@,
        }
    }
}

impl Common {
    /// A chunk size is always at least one byte.
    pub open spec fn wf(&self) -> bool {
        self@.chunk_size >= 1
    }

    pub fn new(chunk_size: usize) -> (c: Common)
        requires
            chunk_size >= 1,
        ensures
            c.wf(),
            c@.chunk_size == chunk_size,
            c@.file1_size == 0,
            c@.file2_size == 0,
            c@.file1_data == Seq::<u8>::empty(),
            c@.file2_data == Seq::<u8>::empty(),
    {
        Common {
            chunk_size,
            file1_size: 0,
            file2_size: 0,
            file1_data: Vec::new(),
            file2_data: Vec::new(),
        }
    }

    /// The fixed chunk size this diff operation was created with.
    pub fn chunk_size(&self) -> (r: usize)
        ensures
            r == self@.chunk_size,
    {
        self.chunk_size
    }

    /// The size of the baseline file, once its fingerprints were built.
    pub fn file1_size(&self) -> (r: usize)
        ensures
            r == self@.file1_size,
    {
        self.file1_size
    }

    /// The size of the target file, once it was diffed.
    pub fn file2_size(&self) -> (r: usize)
        ensures
            r == self@.file2_size,
    {
        self.file2_size
    }

    /// The bytes of the baseline file, once its fingerprints were built.
    pub fn file1_data(&self) -> (r: &Vec<u8>)
        ensures
            r@ == self@.file1_data,
    {
        &self.file1_data
    }

    /// The bytes of the target file, once it was diffed.
    pub fn file2_data(&self) -> (r: &Vec<u8>)
        ensures
            r@ == self@.file2_data,
    {
        &self.file2_data
    }

    /// A file takes part in a diff only when it holds at least two chunks,
    /// that is at least `chunk_size + 1` bytes.
    pub fn has_at_least_2_chunks(&self, f_size: usize) -> (r: bool)
        requires
            self.wf(),
        ensures
            r == (f_size > self@.chunk_size),
    {
        f_size >= 1 && self.chunk_size <= f_size - 1
    }

    /// Cut the baseline file's bytes into `chunk_size` chunks, in file
    /// order, and fingerprint each one; the final chunk may be shorter.
    /// The bytes and size are retained for later reporting. A file of at
    /// most `chunk_size` bytes is refused and the state is unchanged.
    pub fn chunk_hash_list(&mut self, data: Vec<u8>) -> (r: Result<Vec<u128>, DeltaError>)
        requires
            old(self).wf(),
        ensures
            final(self).wf(),
            final(self)@.chunk_size == old(self)@.chunk_size,
            final(self)@.file2_size == old(self)@.file2_size,
            final(self)@.file2_data == old(self)@.file2_data,
            match r {
                Ok(hash_list) => {
                    &&& data@.len() > old(self)@.chunk_size
                    &&& hash_list@ == fingerprints_of(data@, old(self)@.chunk_size)
                    &&& final(self)@.file1_size == data@.len()
                    &&& final(self)@.file1_data == data@
                },
                Err(e) => {
                    &&& data@.len() <= old(self)@.chunk_size
                    &&& e == DeltaError::InsufficientData
                    &&& final(self)@.file1_size == old(self)@.file1_size
                    &&& final(self)@.file1_data == old(self)@.file1_data
                },
            },
    {
        let f_size = data.len();
        if !self.has_at_least_2_chunks(f_size) {
            return Err(DeltaError::InsufficientData);
        }
        self.file1_size = f_size;
        self.file1_data = data;

        let ghost data0 = self@.file1_data;
        let ghost c = self@.chunk_size as int;
        let ghost f2_size0 = self@.file2_size;
        let ghost f2_data0 = self@.file2_data;

        let mut hash_list: Vec<u128> = Vec::new();
        let mut data_buf: Vec<u8> = Vec::with_capacity(self.chunk_size);
        let mut j: usize = 0;
        proof {
            assert(hash_list@.len() * c == 0) by (nonlinear_arith)
                requires
                    hash_list@.len() == 0,
            ;
            assert(data_buf@ =~= data0.subrange(0, 0));
        }
        while j < f_size
            invariant
                self.wf(),
                self@.chunk_size as int == c,
                self@.file1_data == data0,
                self@.file1_size == data0.len(),
                self@.file2_size == f2_size0,
                self@.file2_data == f2_data0,
                j <= f_size,
                f_size == data0.len(),
                j == hash_list@.len() * c + data_buf@.len(),
                data_buf@.len() < c,
                data_buf@ == data0.subrange(j - data_buf@.len(), j as int),
                forall|q: int|
                    0 <= q < hash_list@.len() ==> hash_list@[q] == xxh3_128(
                        data0.subrange(q * c, q * c + c),
                    ),
            decreases f_size - j,
        {
            data_buf.push(self.file1_data[j]);
            j = j + 1;
            proof {
                assert(data_buf@ =~= data0.subrange(j - data_buf@.len(), j as int));
            }
            if data_buf.len() == self.chunk_size {
                let ghost k = hash_list@.len() as int;
                let h = chunk_fingerprint(data_buf.as_slice());
                hash_list.push(h);
                data_buf.clear();
                proof {
                    assert((k + 1) * c == k * c + c) by (nonlinear_arith);
                    assert(data0.subrange(k * c, k * c + c) =~= data0.subrange(
                        j - (k * c + c - (j - c)),
                        j as int,
                    ));
                    assert(data_buf@ =~= data0.subrange(j - data_buf@.len(), j as int));
                }
            }
        }

        let ghost k = hash_list@.len() as int;
        let ghost tail = data_buf@.len() as int;
        proof {
            vstd::arithmetic::div_mod::lemma_fundamental_div_mod_converse(
                f_size as int,
                c,
                k,
                tail,
            );
        }
        if data_buf.len() > 0 {
            let h = chunk_fingerprint(data_buf.as_slice());
            hash_list.push(h);
        }
        proof {
            let n_chunks = num_chunks(data0.len() as int, c);
            assert forall|q: int| 0 <= q < n_chunks implies hash_list@[q] == xxh3_128(
                chunk_at(data0, c, q),
            ) by {
                if q < k {
                    assert((q + 1) * c <= k * c && (q + 1) * c == q * c + c) by (nonlinear_arith)
                        requires
                            0 <= q,
                            q + 1 <= k,
                            c >= 1,
                    ;
                    assert(chunk_at(data0, c, q) == data0.subrange(q * c, q * c + c));
                } else {
                    assert((q + 1) * c > data0.len() && q * c == data0.len() - tail) by (
                    nonlinear_arith)
                        requires
                            q == k,
                            data0.len() == k * c + tail,
                            0 < tail < c,
                    ;
                    assert(chunk_at(data0, c, q) =~= data0.subrange(
                        data0.len() - tail,
                        data0.len() as int,
                    ));
                }
            }
            assert(hash_list@ =~= fingerprints_of(data0, c));
        }
        Ok(hash_list)
    }

    /// Fill the gaps the scan left: every baseline chunk index that got no
    /// entry receives an absent placeholder, so the delta map becomes total
    /// over `0..hash_list.len()`. Existing entries are kept as they are,
    /// which also makes a second run a no-op.
    pub fn try_fill_missing_chunks(
        &self,
        hash_list: &Vec<u128>,
        deltas: &mut HashMap<usize, Chunk>,
    )
        requires
            self.wf(),
            hash_list@.len() * self@.chunk_size + self@.chunk_size <= usize::MAX,
        ensures
            delta_view(final(deltas)@) == fill_missing(
                delta_view(old(deltas)@),
                hash_list@.len() as int,
                self@.chunk_size as int,
            ),
    {
        let ghost c = self@.chunk_size as int;
        let ghost v_old = delta_view(old(deltas)@);
        let n = hash_list.len();
        let mut i: usize = 0;
        proof {
            assert(delta_view(deltas@) =~= fill_missing(v_old, 0, c));
        }
        while i < n
            invariant
                i <= n,
                n == hash_list@.len(),
                self.wf(),
                self@.chunk_size as int == c,
                n * c + c <= usize::MAX,
                delta_view(deltas@) == fill_missing(v_old, i as int, c),
            decreases n - i,
        {
            let ghost pre = deltas@;
            if deltas.get(&i).is_none() {
                proof {
                    assert(i * c + c <= n * c + c) by (nonlinear_arith)
                        requires
                            i <= n,
                            c >= 1,
                    ;
                }
                let chunk = Chunk::new(i, Vec::new(), self.chunk_size, false);
                proof {
                    assert(chunk@.problem_bytes =~= Seq::<u8>::empty());
                    assert(chunk@ == absent_chunk(i as int, c));
                }
                deltas.insert(i, chunk);
            }
            i = i + 1;
            proof {
                let lhs = delta_view(deltas@);
                let rhs = fill_missing(v_old, i as int, c);
                assert forall|k: usize| lhs.contains_key(k) == rhs.contains_key(k) by {
                    assert(delta_view(pre).contains_key(k) == pre.contains_key(k));
                    assert(lhs.contains_key(k) == deltas@.contains_key(k));
                }
                assert forall|k: usize| #[trigger] lhs.contains_key(k) implies lhs[k] == rhs[k] by {
                    assert(delta_view(pre).contains_key(k) == pre.contains_key(k));
                    if pre.contains_key(k) {
                        assert(delta_view(pre)[k] == pre[k]@);
                    }
                    assert(lhs[k] == deltas@[k]@);
                }
                assert(lhs =~~= rhs);
            }
        }
    }

    /// Scan the target file's bytes against a baseline fingerprint list
    /// and return the complete delta map: one entry per baseline chunk
    /// index, present where a trailing window matched that chunk (with the
    /// unaligned bytes that preceded the match attached), absent
    /// otherwise. Unmatched bytes left at the end of the target are
    /// discarded. The bytes and size are retained for later reporting. A
    /// target of at most `chunk_size` bytes is refused and the state is
    /// unchanged.
    pub fn diff(&mut self, hash_list: &Vec<u128>, data: Vec<u8>) -> (r: Result<
        HashMap<usize, Chunk>,
        DeltaError,
    >)
        requires
            old(self).wf(),
            hash_list@.len() * old(self)@.chunk_size + old(self)@.chunk_size <= usize::MAX,
        ensures
            final(self).wf(),
            final(self)@.chunk_size == old(self)@.chunk_size,
            final(self)@.file1_size == old(self)@.file1_size,
            final(self)@.file1_data == old(self)@.file1_data,
            match r {
                Ok(dm) => {
                    &&& data@.len() > old(self)@.chunk_size
                    &&& delta_view(dm@) == delta_map_of(
                        hash_list@,
                        old(self)@.chunk_size as int,
                        data@,
                    )
                    &&& final(self)@.file2_size == data@.len()
                    &&& final(self)@.file2_data == data@
                },
                Err(e) => {
                    &&& data@.len() <= old(self)@.chunk_size
                    &&& e == DeltaError::InsufficientData
                    &&& final(self)@.file2_size == old(self)@.file2_size
                    &&& final(self)@.file2_data == old(self)@.file2_data
                },
            },
    {
        let f_size = data.len();
        if !self.has_at_least_2_chunks(f_size) {
            return Err(DeltaError::InsufficientData);
        }
        self.file2_size = f_size;
        self.file2_data = data;

        let ghost data0 = self@.file2_data;
        let ghost c = self@.chunk_size as int;
        let ghost f1_size0 = self@.file1_size;
        let ghost f1_data0 = self@.file1_data;

        let mut delta_map: HashMap<usize, Chunk> = HashMap::new();
        let mut problem_bytes: Vec<u8> = Vec::new();
        let mut data_buf: Vec<u8> = Vec::with_capacity(self.chunk_size);
        let position_map = Self::hash_list_to_position_map(hash_list);

        let mut j: usize = 0;
        proof {
            assert(delta_view(delta_map@) =~= scan(hash_list@, c, data0, 0).entries);
        }
        while j < f_size
            invariant
                self.wf(),
                self@.chunk_size as int == c,
                c >= 1,
                self@.file2_data == data0,
                self@.file2_size == data0.len(),
                self@.file1_size == f1_size0,
                self@.file1_data == f1_data0,
                f_size == data0.len(),
                j <= f_size,
                hash_list@.len() * c + c <= usize::MAX,
                position_map@ == position_map_of(hash_list@),
                data_buf@ == scan(hash_list@, c, data0, j as int).window,
                problem_bytes@ == scan(hash_list@, c, data0, j as int).problems,
                delta_view(delta_map@) == scan(hash_list@, c, data0, j as int).entries,
            decreases f_size - j,
        {
            let ghost st = scan(hash_list@, c, data0, j as int);
            data_buf.push(self.file2_data[j]);
            j = j + 1;
            let ghost st1 = scan(hash_list@, c, data0, j as int);
            let ghost grown = st.window.push(data0[j - 1]);
            proof {
                assert(st1 == scan_step(hash_list@, c, st, data0[j - 1]));
            }
            if data_buf.len() >= self.chunk_size {
                if data_buf.len() > self.chunk_size {
                    problem_bytes.push(data_buf[0]);
                    data_buf.remove(0);
                    proof {
                        assert(data_buf@ =~= grown.drop_first());
                    }
                }
                let h = chunk_fingerprint(data_buf.as_slice());
                match position_map.get(&h) {
                    Some(p) => {
                        let pos = *p;
                        proof {
                            assert(hash_list@.len() <= hash_list@.len() * c) by (nonlinear_arith)
                                requires
                                    c >= 1,
                            ;
                            lemma_position_map_of(hash_list@);
                            assert(pos * c <= hash_list@.len() * c) by (nonlinear_arith)
                                requires
                                    pos <= hash_list@.len(),
                                    c >= 1,
                            ;
                        }
                        let chunk = Chunk::new(pos, problem_bytes, self.chunk_size, true);
                        delta_map.insert(pos, chunk);
                        problem_bytes = Vec::new();
                        data_buf.clear();
                        proof {
                            assert(delta_view(delta_map@) =~= st1.entries);
                        }
                    },
                    None => {},
                }
            }
        }
        self.try_fill_missing_chunks(hash_list, &mut delta_map);
        Ok(delta_map)
    }

    /// Build the position index of a fingerprint list: fingerprint to
    /// chunk index, inserted in file order. Insertion is unconditional,
    /// so of two chunks sharing a fingerprint the higher index wins.
    pub fn hash_list_to_position_map(hash_list: &Vec<u128>) -> (pm: HashMap<u128, usize>)
        ensures
            pm@ == position_map_of(hash_list@),
    {
        let mut position_map: HashMap<u128, usize> = HashMap::new();
        let n = hash_list.len();
        let mut i: usize = 0;
        while i < n
            invariant
                i <= n,
                n == hash_list@.len(),
                position_map@ == position_map_of(hash_list@.take(i as int)),
            decreases n - i,
        {
            position_map.insert(hash_list[i], i);
            proof {
                assert(hash_list@.take(i + 1).drop_last() =~= hash_list@.take(i as int));
                assert(hash_list@.take(i + 1).last() == hash_list@[i as int]);
            }
            i = i + 1;
        }
        proof {
            assert(hash_list@.take(n as int) =~= hash_list@);
        }
        position_map
    }
}

/// No two baseline chunks share a fingerprint.
pub open spec fn distinct_fingerprints(hashes: Seq<u128>) -> bool {
    forall|i: int, j: int|
        0 <= i < hashes.len() && 0 <= j < hashes.len() && i != j ==> hashes[i] != hashes[j]
}

/// Every key of the position index is the fingerprint of some baseline
/// chunk, every baseline fingerprint is a key, and the stored index is the
/// highest chunk index bearing that fingerprint.
pub proof fn lemma_position_map_of(hashes: Seq<u128>)
    requires
        hashes.len() <= usize::MAX,
    ensures
        forall|h: u128| #[trigger] position_map_of(hashes).contains_key(h) ==> {
            let p = position_map_of(hashes)[h] as int;
            0 <= p < hashes.len() && hashes[p] == h
        },
        forall|i: int| 0 <= i < hashes.len() ==> position_map_of(hashes).contains_key(
            #[trigger] hashes[i],
        ),
        forall|i: int| 0 <= i < hashes.len() ==> position_map_of(hashes)[#[trigger] hashes[i]] >= i,
    decreases hashes.len(),
{
    if hashes.len() > 0 {
        lemma_position_map_of(hashes.drop_last());
        assert forall|h: u128| #[trigger] position_map_of(hashes).contains_key(h) implies {
            let p = position_map_of(hashes)[h] as int;
            0 <= p < hashes.len() && hashes[p] == h
        } by {
            if h != hashes.last() {
                let p = position_map_of(hashes.drop_last())[h] as int;
                assert(hashes.drop_last()[p] == hashes[p]);
            }
        }
        assert forall|i: int| 0 <= i < hashes.len() implies position_map_of(hashes).contains_key(
            #[trigger] hashes[i],
        ) && position_map_of(hashes)[hashes[i]] >= i by {
            if i < hashes.len() - 1 && hashes[i] != hashes.last() {
                assert(hashes.drop_last()[i] == hashes[i]);
            }
        }
    }
}

/// Every entry the scan records sits at a baseline index below the
/// fingerprint-list length.
proof fn lemma_scan_entries_bounded(hashes: Seq<u128>, c_size: int, data: Seq<u8>, n: int)
    requires
        hashes.len() <= usize::MAX,
    ensures
        forall|k: usize|
            #[trigger] scan(hashes, c_size, data, n).entries.contains_key(k) ==> (k as int)
                < hashes.len(),
    decreases n,
{
    if n > 0 {
        lemma_scan_entries_bounded(hashes, c_size, data, n - 1);
        lemma_position_map_of(hashes);
        assert(scan(hashes, c_size, data, n) == scan_step(
            hashes,
            c_size,
            scan(hashes, c_size, data, n - 1),
            data[n - 1],
        ));
    }
}

/// Total coverage: the delta map of any target against any baseline
/// fingerprint list has exactly one entry per baseline chunk index — the
/// indices `0..N` where `N` is the fingerprint-list length, with no gap
/// and nothing besides.
pub proof fn lemma_total_coverage(hashes: Seq<u128>, c_size: int, data: Seq<u8>)
    requires
        hashes.len() <= usize::MAX,
    ensures
        forall|k: usize|
            #[trigger] delta_map_of(hashes, c_size, data).contains_key(k) <==> (k as int)
                < hashes.len(),
{
    lemma_scan_entries_bounded(hashes, c_size, data, data.len() as int);
}

/// The gap filler is idempotent: filling an already filled map is a no-op.
pub proof fn lemma_fill_missing_idempotent(entries: Map<usize, ChunkModel>, n: int, c_size: int)
    ensures
        fill_missing(fill_missing(entries, n, c_size), n, c_size) == fill_missing(
            entries,
            n,
            c_size,
        ),
{
    assert(fill_missing(fill_missing(entries, n, c_size), n, c_size) =~= fill_missing(
        entries,
        n,
        c_size,
    ));
}

/// Final-chunk boundary: a baseline of length `2 * c_size + 1` yields
/// exactly three fingerprints, and the third is computed over the one
/// final byte, neither padded nor refused.
pub proof fn lemma_final_chunk_boundary(data: Seq<u8>, c_size: int)
    requires
        c_size >= 1,
        data.len() == 2 * c_size + 1,
    ensures
        fingerprints_of(data, c_size).len() == 3,
        fingerprints_of(data, c_size)[2] == xxh3_128(
            data.subrange(2 * c_size, 2 * c_size + 1),
        ),
{
    let len = data.len() as int;
    if c_size == 1 {
        assert(num_chunks(len, 1) == 3);
        assert(chunk_at(data, 1, 2) =~= data.subrange(2 * c_size, 2 * c_size + 1));
    } else {
        assert(len % c_size == 1 && len / c_size == 2) by (nonlinear_arith)
            requires
                c_size >= 2,
                len == 2 * c_size + 1,
        ;
        assert(3 * c_size > len && 2 * c_size == len - 1) by (nonlinear_arith)
            requires
                c_size >= 2,
                len == 2 * c_size + 1,
        ;
        assert(chunk_at(data, c_size, 2) =~= data.subrange(2 * c_size, 2 * c_size + 1));
    }
}

/// With no duplicate fingerprints, the position index maps each chunk's
/// fingerprint to that chunk's own index.
proof fn lemma_position_map_distinct(hashes: Seq<u128>, i: int)
    requires
        hashes.len() <= usize::MAX,
        distinct_fingerprints(hashes),
        0 <= i < hashes.len(),
    ensures
        position_map_of(hashes).contains_key(hashes[i]),
        position_map_of(hashes)[hashes[i]] as int == i,
{
    lemma_position_map_of(hashes);
    let p = position_map_of(hashes)[hashes[i]] as int;
    assert(hashes[p] == hashes[i]);
}

/// The scan state at step `j` of an identity diff whose chunks all carry
/// distinct fingerprints: the window holds the bytes read since the last
/// chunk boundary, nothing has been displaced, and every whole chunk read
/// so far has been recorded present with no problem bytes.
proof fn lemma_identity_scan(data: Seq<u8>, c_size: int, j: int)
    requires
        c_size >= 1,
        data.len() as int % c_size == 0,
        data.len() <= usize::MAX,
        distinct_fingerprints(fingerprints_of(data, c_size)),
        0 <= j <= data.len(),
    ensures
        ({
            let st = scan(fingerprints_of(data, c_size), c_size, data, j);
            &&& st.window == data.subrange(j - (j % c_size), j)
            &&& st.problems == Seq::<u8>::empty()
            &&& forall|k: usize|
                #[trigger] st.entries.contains_key(k) <==> (k as int) < j / c_size
            &&& forall|k: usize|
                st.entries.contains_key(k) ==> st.entries[k] == present_chunk(
                    k as int,
                    c_size,
                    Seq::<u8>::empty(),
                )
        }),
    decreases j,
{
    let hashes = fingerprints_of(data, c_size);
    let c = c_size;
    if j == 0 {
        assert(0int % c == 0 && 0int / c == 0) by (nonlinear_arith)
            requires
                c >= 1,
        ;
        assert(data.subrange(0, 0) =~= Seq::<u8>::empty());
    } else {
        lemma_identity_scan(data, c, j - 1);
        let st_prev = scan(hashes, c, data, j - 1);
        let st = scan(hashes, c, data, j);
        assert(st == scan_step(hashes, c, st_prev, data[j - 1]));
        let t_prev = (j - 1) % c;
        let q = (j - 1) / c;
        vstd::arithmetic::div_mod::lemma_fundamental_div_mod(j - 1, c);
        vstd::arithmetic::div_mod::lemma_mod_pos_bound(j - 1, c);
        assert(j - 1 == c * q + t_prev && 0 <= t_prev < c);
        let grown = st_prev.window.push(data[j - 1]);
        assert(grown =~= data.subrange(j - 1 - t_prev, j));
        assert(grown.len() == t_prev + 1);
        if t_prev + 1 < c {
            // the window keeps accumulating; `j` stays inside chunk `q`
            vstd::arithmetic::div_mod::lemma_fundamental_div_mod_converse(
                j,
                c,
                q,
                t_prev + 1,
            );
            assert(st.window == grown);
        } else {
            // the window holds exactly chunk `q`; it matches at index `q`
            assert((q + 1) * c == q * c + c) by (nonlinear_arith);
            assert(j == (q + 1) * c && q * c == j - c);
            vstd::arithmetic::div_mod::lemma_fundamental_div_mod_converse(j, c, q + 1, 0);
            assert((q + 1) * c <= data.len());
            assert(q + 1 <= data.len() as int / c) by (nonlinear_arith)
                requires
                    c >= 1,
                    (q + 1) * c <= data.len(),
                    data.len() as int % c == 0,
            ;
            assert(q < num_chunks(data.len() as int, c));
            assert(chunk_at(data, c, q) =~= data.subrange(j - c, j));
            assert(grown == data.subrange(j - c, j));
            assert(xxh3_128(grown) == hashes[q]);
            lemma_position_map_distinct(hashes, q);
            assert(st.entries == st_prev.entries.insert(
                (q as usize),
                present_chunk(q, c, Seq::<u8>::empty()),
            ));
            assert(st.window =~= data.subrange(j - (j % c), j));
            assert forall|k: usize| #[trigger] st.entries.contains_key(k) <==> (k as int) < j
                / c by {
                assert(j / c == q + 1);
            }
        }
    }
}

/// Identity diff: scanning a file against its own fingerprint list, when
/// the file length is an exact multiple of the chunk size and no two
/// chunks share a fingerprint, recovers every baseline chunk — each entry
/// of the delta map is present with no problem bytes.
pub proof fn lemma_identity_diff(data: Seq<u8>, c_size: int)
    requires
        c_size >= 1,
        data.len() > c_size,
        data.len() as int % c_size == 0,
        data.len() <= usize::MAX,
        distinct_fingerprints(fingerprints_of(data, c_size)),
    ensures
        ({
            let m = delta_map_of(fingerprints_of(data, c_size), c_size, data);
            forall|k: usize|
                #[trigger] m.contains_key(k) ==> m[k].is_present && m[k].problem_bytes
                    == Seq::<u8>::empty()
        }),
{
    let hashes = fingerprints_of(data, c_size);
    let len = data.len() as int;
    lemma_identity_scan(data, c_size, len);
    assert(num_chunks(len, c_size) == len / c_size);
}

} // verus!
