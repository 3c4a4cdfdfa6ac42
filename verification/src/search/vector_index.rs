//! The vector store: embedding vectors with their metadata, kept in step, and
//! their form on disk. The components of a vector are carried as the bits of
//! single-precision numbers.
use vstd::prelude::*;

use crate::json;
use crate::json::JsonField;
use crate::score::Score;
use crate::select;
use crate::text;
use crate::text::chars;
use crate::text::chars::CharClass;
use crate::text::edit;
use crate::text::find;
use crate::text::split;

verus! {

/// What is stored beside each vector.
#[derive(Debug)]
pub struct VectorMeta {
    /// The chunk.
    pub chunk_id: String,
    /// The path of its file.
    pub file_path: String,
    /// The name of its file.
    pub file_name: String,
    /// Its text.
    pub content: String,
    /// The section it stands in.
    pub section: Option<String>,
}

/// The texts of a metadata record: chunk, path, name, content and section.
pub type MetaView = (Seq<char>, Seq<char>, Seq<char>, Seq<char>, Option<Seq<char>>);

impl View for VectorMeta {
    type V = MetaView;

    open spec fn view(&self) -> MetaView {
        (
            self.chunk_id@,
            self.file_path@,
            self.file_name@,
            self.content@,
            text::option_view(self.section),
        )
    }
}

/// The texts of a list of records.
pub open spec fn meta_views(v: Seq<VectorMeta>) -> Seq<MetaView> {
    Seq::new(v.len(), |i: int| v[i]@)
}

/// The components of a list of vectors.
pub open spec fn rows(v: Seq<Vec<u32>>) -> Seq<Seq<u32>> {
    Seq::new(v.len(), |i: int| v[i]@)
}

/// A hit of the vector search.
#[derive(Clone, Debug)]
pub struct VectorSearchResult {
    /// The chunk.
    pub chunk_id: String,
    /// The path of its file.
    pub file_path: String,
    /// The name of its file.
    pub file_name: String,
    /// Its text.
    pub content: String,
    /// The section it stands in.
    pub section: Option<String>,
    /// The distance from the query; lower is closer.
    pub distance: Score,
    /// The similarity to the query; higher is closer.
    pub similarity: Score,
}

/// Vectors and their metadata, in step.
#[derive(Debug)]
pub struct VectorIndex {
    /// The metadata of each vector.
    pub metadata: Vec<VectorMeta>,
    /// The vectors.
    pub points: Vec<Vec<u32>>,
    /// The search graph is older than the vectors.
    pub dirty: bool,
}

/// The items with position `n - 1` down to 0 looked at in turn; one that is to
/// go is replaced by the item that is then the last.
pub open spec fn swapped_out<T>(items: Seq<T>, gone: Seq<bool>, n: int) -> Seq<T>
    decreases gone.len() - n,
{
    if n >= gone.len() {
        items
    } else {
        let after = swapped_out(items, gone, n + 1);
        if gone[n] {
            after.update(n, after.last()).drop_last()
        } else {
            after
        }
    }
}

/// Which records belong to a file.
pub open spec fn of_file(metas: Seq<VectorMeta>, path: Seq<char>) -> Seq<bool> {
    Seq::new(metas.len(), |i: int| metas[i].file_path@ == path)
}

/// The folder's path with a slash at its end.
pub open spec fn folder_prefix(folder: Seq<char>) -> Seq<char> {
    if folder.len() > 0 && folder.last() == '/' {
        folder
    } else {
        folder.push('/')
    }
}

/// The path is that of the folder or of something in it.
pub open spec fn in_folder(path: Seq<char>, folder: Seq<char>) -> bool {
    find::begins(path, folder_prefix(folder)) || path == folder
}

/// Which records belong to a folder.
pub open spec fn of_folder(metas: Seq<VectorMeta>, folder: Seq<char>) -> Seq<bool> {
    Seq::new(metas.len(), |i: int| in_folder(metas[i].file_path@, folder))
}

/// Some flag is set.
pub open spec fn any_set(flags: Seq<bool>) -> bool {
    exists|i: int| 0 <= i < flags.len() && #[trigger] flags[i]
}

/// How many flags are set.
pub open spec fn count_set(flags: Seq<bool>) -> nat
    decreases flags.len(),
{
    if flags.len() == 0 {
        0
    } else {
        count_set(flags.drop_last()) + if flags.last() {
            1nat
        } else {
            0nat
        }
    }
}

/// The records of a file, in order.
pub open spec fn chunks_of(metas: Seq<VectorMeta>, path: Seq<char>) -> Seq<VectorMeta>
    decreases metas.len(),
{
    if metas.len() == 0 {
        metas
    } else if metas.last().file_path@ == path {
        chunks_of(metas.drop_last(), path).push(metas.last())
    } else {
        chunks_of(metas.drop_last(), path)
    }
}

impl Clone for VectorMeta {
    fn clone(&self) -> (r: Self)
        ensures
            r == *self,
    {
        VectorMeta {
            chunk_id: self.chunk_id.clone(),
            file_path: self.file_path.clone(),
            file_name: self.file_name.clone(),
            content: self.content.clone(),
            section: text::copy_option(&self.section),
        }
    }
}

impl VectorIndex {
    /// Each vector has its metadata.
    pub open spec fn aligned(&self) -> bool {
        self.metadata@.len() == self.points@.len()
    }

    /// An empty index.
    pub fn new() -> (r: VectorIndex)
        ensures
            r.aligned(),
            r.points@.len() == 0,
            !r.dirty,
    {
        VectorIndex { metadata: Vec::new(), points: Vec::new(), dirty: false }
    }

    /// Adds vectors with their metadata, as many as both lists have. The search
    /// graph is then to be built again before the next search.
    pub fn add_vectors(&mut self, vectors: Vec<Vec<u32>>, metas: Vec<VectorMeta>)
        ensures
            ({
                let n = if vectors@.len() < metas@.len() {
                    vectors@.len() as int
                } else {
                    metas@.len() as int
                };
                if vectors@.len() == 0 {
                    *final(self) == *old(self)
                } else {
                    &&& final(self).points@ == old(self).points@ + vectors@.take(n)
                    &&& final(self).metadata@ == old(self).metadata@ + metas@.take(n)
                    &&& final(self).dirty
                }
            }),
            old(self).aligned() ==> final(self).aligned(),
    {
        let mut vectors = vectors;
        let mut metas = metas;
        if vectors.len() == 0 {
            return ;
        }
        let n: usize = if vectors.len() < metas.len() {
            vectors.len()
        } else {
            metas.len()
        };
        vectors.truncate(n);
        metas.truncate(n);
        self.points.append(&mut vectors);
        self.metadata.append(&mut metas);
        self.dirty = true;
    }

    fn swap_out(&mut self, gone: &Vec<bool>)
        requires
            gone@.len() == old(self).metadata@.len(),
            old(self).metadata@.len() <= old(self).points@.len(),
        ensures
            final(self).metadata@ == swapped_out(old(self).metadata@, gone@, 0),
            final(self).points@ == swapped_out(old(self).points@, gone@, 0),
            final(self).dirty == old(self).dirty,
            final(self).metadata@.len() == old(self).metadata@.len() - count_set(gone@),
            final(self).points@.len() == old(self).points@.len() - count_set(gone@),
    {
        let ghost metas = self.metadata@;
        let ghost points = self.points@;
        let mut n: usize = gone.len();
        while n > 0
            invariant
                n <= gone@.len(),
                gone@.len() == metas.len() <= points.len(),
                self.metadata@ == swapped_out(metas, gone@, n as int),
                self.points@ == swapped_out(points, gone@, n as int),
                self.metadata@.len() == metas.len() - count_set(gone@.skip(n as int)),
                self.points@.len() == points.len() - count_set(gone@.skip(n as int)),
                count_set(gone@.skip(n as int)) <= gone@.len() - n,
                self.dirty == old(self).dirty,
            decreases n,
        {
            n -= 1;
            proof {
                lemma_count_set_skip(gone@, n as int);
            }
            if gone[n] {
                let _ = self.points.swap_remove(n);
                let _ = self.metadata.swap_remove(n);
            }
        }
        assert(gone@.skip(0) =~= gone@);
    }

    /// Removes the vectors of a file; says whether there were any.
    pub fn remove_file(&mut self, file_path: &str) -> (r: bool)
        requires
            old(self).metadata@.len() <= old(self).points@.len(),
        ensures
            r == any_set(of_file(old(self).metadata@, file_path@)),
            final(self).metadata@ == swapped_out(
                old(self).metadata@,
                of_file(old(self).metadata@, file_path@),
                0,
            ),
            final(self).points@ == swapped_out(
                old(self).points@,
                of_file(old(self).metadata@, file_path@),
                0,
            ),
            final(self).dirty == old(self).dirty,
            old(self).aligned() ==> final(self).aligned(),
    {
        let mut gone: Vec<bool> = Vec::new();
        let mut found: bool = false;
        let mut i: usize = 0;
        while i < self.metadata.len()
            invariant
                i <= self.metadata@.len(),
                *self == *old(self),
                gone@ == of_file(self.metadata@, file_path@).take(i as int),
                found == exists|k: int| 0 <= k < gone@.len() && #[trigger] gone@[k],
            decreases self.metadata@.len() - i,
        {
            let hit: bool = find::same(self.metadata[i].file_path.as_str(), file_path);
            let ghost before = gone@;
            gone.push(hit);
            proof {
                assert(gone@.last() == hit);
                if found {
                    let k = choose|k: int| 0 <= k < before.len() && #[trigger] before[k];
                    assert(gone@[k]);
                }
                if exists|k: int| 0 <= k < gone@.len() && #[trigger] gone@[k] {
                    let k = choose|k: int| 0 <= k < gone@.len() && #[trigger] gone@[k];
                    if k < before.len() {
                        assert(before[k]);
                    }
                }
            }
            found = found || hit;
            i += 1;
        }
        assert(gone@ =~= of_file(self.metadata@, file_path@));
        self.swap_out(&gone);
        found
    }

    /// Removes the vectors of all files in a folder; says how many went.
    pub fn remove_files_in_folder(&mut self, folder_path: &str) -> (r: usize)
        requires
            old(self).metadata@.len() <= old(self).points@.len(),
        ensures
            r == count_set(of_folder(old(self).metadata@, folder_path@)),
            final(self).metadata@ == swapped_out(
                old(self).metadata@,
                of_folder(old(self).metadata@, folder_path@),
                0,
            ),
            final(self).points@ == swapped_out(
                old(self).points@,
                of_folder(old(self).metadata@, folder_path@),
                0,
            ),
            final(self).dirty == old(self).dirty,
            old(self).aligned() ==> final(self).aligned(),
    {
        let prefix: String = if find::ends_with(folder_path, "/") {
            edit::owned(folder_path)
        } else {
            edit::concat2(folder_path, "/")
        };
        proof {
            reveal_strlit("/");
            assert("/"@ =~= seq!['/']);
            let f = folder_path@;
            if f.len() > 0 {
                assert(f.subrange(f.len() - 1, f.len() as int) =~= seq![f.last()]);
                assert(seq![f.last()][0] == f.last());
                assert(seq!['/'][0] == '/');
            }
            assert(f + seq!['/'] =~= f.push('/'));
            assert(prefix@ =~= folder_prefix(f));
        }
        let before: usize = self.metadata.len();
        let mut gone: Vec<bool> = Vec::new();
        let mut i: usize = 0;
        while i < self.metadata.len()
            invariant
                i <= self.metadata@.len(),
                *self == *old(self),
                prefix@ == folder_prefix(folder_path@),
                gone@ == of_folder(self.metadata@, folder_path@).take(i as int),
            decreases self.metadata@.len() - i,
        {
            let path: &str = self.metadata[i].file_path.as_str();
            let hit: bool = find::starts_with(path, prefix.as_str()) || find::same(
                path,
                folder_path,
            );
            gone.push(hit);
            i += 1;
        }
        assert(gone@ =~= of_folder(self.metadata@, folder_path@));
        self.swap_out(&gone);
        before - self.metadata.len()
    }

    /// The number of vectors.
    pub fn len(&self) -> (n: usize)
        ensures
            n == self.points@.len(),
    {
        self.points.len()
    }

    /// The records of a file, in order.
    pub fn get_chunks_for_file(&self, file_path: &str) -> (r: Vec<VectorMeta>)
        ensures
            r@ == chunks_of(self.metadata@, file_path@),
    {
        let mut out: Vec<VectorMeta> = Vec::new();
        let mut i: usize = 0;
        while i < self.metadata.len()
            invariant
                i <= self.metadata@.len(),
                out@ == chunks_of(self.metadata@.take(i as int), file_path@),
            decreases self.metadata@.len() - i,
        {
            assert(self.metadata@.take(i + 1).drop_last() =~= self.metadata@.take(i as int));
            if find::same(self.metadata[i].file_path.as_str(), file_path) {
                out.push(self.metadata[i].clone());
            }
            i += 1;
        }
        assert(self.metadata@.take(self.metadata@.len() as int) =~= self.metadata@);
        out
    }

    /// Empties the index.
    pub fn clear(&mut self)
        ensures
            final(self).points@.len() == 0,
            final(self).metadata@.len() == 0,
            final(self).dirty == old(self).dirty,
    {
        self.points.clear();
        self.metadata.clear();
    }
}

proof fn lemma_count_set_skip(flags: Seq<bool>, n: int)
    requires
        0 <= n < flags.len(),
    ensures
        count_set(flags.skip(n)) == count_set(flags.skip(n + 1)) + if flags[n] {
            1nat
        } else {
            0nat
        },
    decreases flags.len() - n,
{
    let s = flags.skip(n);
    if s.len() == 1 {
        assert(s.drop_last() =~= Seq::empty());
        assert(flags.skip(n + 1) =~= Seq::empty());
    } else {
        lemma_count_set_skip(flags.drop_last(), n);
        assert(flags.drop_last().skip(n) =~= s.drop_last());
        assert(flags.drop_last().skip(n + 1) =~= flags.skip(n + 1).drop_last());
    }
}

/// A hit of the search graph.
#[derive(Clone, Copy, Debug)]
pub struct GraphHit {
    /// The identifier of the point in the graph.
    pub point: u32,
    /// Its distance from the query.
    pub distance: Score,
    /// Its similarity to the query.
    pub similarity: Score,
}

/// The first vector with an identifier, from `i` on.
pub open spec fn vector_of(ids: Seq<u32>, point: u32, i: int) -> Option<int>
    decreases ids.len() - i,
{
    if i >= ids.len() {
        None
    } else if ids[i] == point {
        Some(i)
    } else {
        vector_of(ids, point, i + 1)
    }
}

/// The result of a hit, where its point is one of the vectors.
pub open spec fn hit_result(metas: Seq<VectorMeta>, ids: Seq<u32>, hit: GraphHit) -> Option<
    VectorSearchResult,
> {
    match vector_of(ids, hit.point, 0) {
        Some(i) => if i < metas.len() {
            Some(
                VectorSearchResult {
                    chunk_id: metas[i].chunk_id,
                    file_path: metas[i].file_path,
                    file_name: metas[i].file_name,
                    content: metas[i].content,
                    section: metas[i].section,
                    distance: hit.distance,
                    similarity: hit.similarity,
                },
            )
        } else {
            None
        },
        None => None,
    }
}

/// The first `n` hits, or all where there are fewer.
pub open spec fn first_hits(hits: Seq<GraphHit>, n: int) -> Seq<GraphHit> {
    if hits.len() < n {
        hits
    } else {
        hits.take(n)
    }
}

/// The results of the hits, in order.
pub open spec fn hit_results(
    metas: Seq<VectorMeta>,
    ids: Seq<u32>,
    hits: Seq<GraphHit>,
) -> Seq<VectorSearchResult>
    decreases hits.len(),
{
    if hits.len() == 0 {
        Seq::empty()
    } else {
        match hit_result(metas, ids, hits.last()) {
            Some(r) => hit_results(metas, ids, hits.drop_last()).push(r),
            None => hit_results(metas, ids, hits.drop_last()),
        }
    }
}

impl VectorIndex {
    /// The results of the first `top_n` hits of the search graph, in which vector
    /// `i` has the identifier `ids[i]`.
    pub fn results_of_hits(
        &self,
        ids: &Vec<u32>,
        hits: &Vec<GraphHit>,
        top_n: usize,
    ) -> (r: Vec<VectorSearchResult>)
        ensures
            r@ == hit_results(self.metadata@, ids@, first_hits(hits@, top_n as int)),
            r@.len() <= top_n,
    {
        let count: usize = if hits.len() < top_n {
            hits.len()
        } else {
            top_n
        };
        let mut out: Vec<VectorSearchResult> = Vec::new();
        let mut k: usize = 0;
        while k < count
            invariant
                k <= count <= hits@.len(),
                out@.len() <= k,
                out@ == hit_results(self.metadata@, ids@, hits@.take(k as int)),
            decreases count - k,
        {
            assert(hits@.take(k + 1).drop_last() =~= hits@.take(k as int));
            let hit: GraphHit = hits[k];
            let mut i: usize = 0;
            while i < ids.len() && ids[i] != hit.point
                invariant
                    i <= ids@.len(),
                    vector_of(ids@, hit.point, 0) == vector_of(ids@, hit.point, i as int),
                decreases ids@.len() - i,
            {
                i += 1;
            }
            if i < ids.len() && i < self.metadata.len() {
                let meta: VectorMeta = self.metadata[i].clone();
                out.push(
                    VectorSearchResult {
                        chunk_id: meta.chunk_id,
                        file_path: meta.file_path,
                        file_name: meta.file_name,
                        content: meta.content,
                        section: meta.section,
                        distance: hit.distance,
                        similarity: hit.similarity,
                    },
                );
            }
            k += 1;
        }
        assert(first_hits(hits@, top_n as int) =~= hits@.take(count as int));
        out
    }
}

/// Byte `k` of a 32-bit number, the least significant first.
pub open spec fn byte_of(x: u32, k: int) -> u8 {
    if k == 0 {
        (x % 256) as u8
    } else if k == 1 {
        ((x / 256) % 256) as u8
    } else if k == 2 {
        ((x / 65536) % 256) as u8
    } else {
        (x / 16777216) as u8
    }
}

/// The bytes of a list of 32-bit numbers.
pub open spec fn bytes_of(words: Seq<u32>) -> Seq<u8> {
    Seq::new(4 * words.len(), |i: int| byte_of(words[i / 4], i % 4))
}

/// The 32-bit number whose four bytes start at `i`.
pub open spec fn word_at(b: Seq<u8>, i: int) -> u32 {
    (b[i] + 256 * b[i + 1] + 65536 * b[i + 2] + 16777216 * b[i + 3]) as u32
}

/// All components, vector after vector.
pub open spec fn components(points: Seq<Seq<u32>>) -> Seq<u32>
    decreases points.len(),
{
    if points.len() == 0 {
        Seq::empty()
    } else {
        components(points.drop_last()) + points.last()
    }
}

/// The length of the first vector; 0 where there is none.
pub open spec fn dimension(points: Seq<Seq<u32>>) -> nat {
    if points.len() == 0 {
        0
    } else {
        points[0].len()
    }
}

/// The file of vectors: the dimension, the number of vectors, and all
/// components, each in four bytes.
pub open spec fn encoded_points(points: Seq<Seq<u32>>) -> Seq<u8> {
    bytes_of(seq![dimension(points) as u32, points.len() as u32] + components(points))
}

/// The components that the file of vectors holds behind its header.
pub open spec fn stored_components(b: Seq<u8>) -> Seq<u32> {
    Seq::new(((b.len() - 8) / 4) as nat, |j: int| word_at(b, 8 + 4 * j))
}

/// The part of a sequence from `i` up to `j`, as far as there is one.
pub open spec fn part(s: Seq<u32>, i: int, j: int) -> Seq<u32> {
    s.subrange(
        if i < s.len() {
            i
        } else {
            s.len() as int
        },
        if j < s.len() {
            j
        } else {
            s.len() as int
        },
    )
}

/// The vectors of a file: as many as its header says, each with as many of its
/// components as the file has; none where there is no whole header.
pub open spec fn decoded_points(b: Seq<u8>) -> Seq<Seq<u32>> {
    if b.len() < 8 {
        Seq::empty()
    } else {
        let dim = word_at(b, 0) as int;
        Seq::new(
            word_at(b, 4) as nat,
            |i: int| part(stored_components(b), i * dim, i * dim + dim),
        )
    }
}

/// All vectors have the length of the first.
pub open spec fn uniform(points: Seq<Seq<u32>>) -> bool {
    forall|i: int| 0 <= i < points.len() ==> (#[trigger] points[i]).len() == points[0].len()
}

fn push_word(out: &mut Vec<u8>, x: u32, Ghost(words): Ghost<Seq<u32>>)
    requires
        old(out)@ == bytes_of(words),
    ensures
        final(out)@ == bytes_of(words.push(x)),
{
    out.push((x % 256) as u8);
    out.push(((x / 256) % 256) as u8);
    out.push(((x / 65536) % 256) as u8);
    out.push((x / 16777216) as u8);
    proof {
        let all = bytes_of(words.push(x));
        assert forall|i: int| 0 <= i < all.len() implies all[i] == #[trigger] out@[i] by {
            if i < 4 * words.len() {
                assert(words.push(x)[i / 4] == words[i / 4]);
            } else {
                assert(i / 4 == words.len());
            }
        }
        assert(out@ =~= all);
    }
}

fn read_word(b: &[u8], i: usize) -> (x: u32)
    requires
        i + 4 <= b@.len(),
    ensures
        x == word_at(b@, i as int),
{
    let len: usize = b.len();
    b[i] as u32 + 256 * b[i + 1] as u32 + 65536 * b[i + 2] as u32 + 16777216 * b[i + 3] as u32
}

/// The file of vectors for a list of vectors that is not empty.
pub fn encode_points(points: &Vec<Vec<u32>>) -> (r: Vec<u8>)
    ensures
        r@ == encoded_points(rows(points@)),
{
    let ghost ps = rows(points@);
    let mut out: Vec<u8> = Vec::new();
    let ghost mut words = Seq::<u32>::empty();
    assert(out@ =~= bytes_of(words));
    let dim: u32 = if points.len() == 0 {
        0
    } else {
        points[0].len() as u32
    };
    push_word(&mut out, dim, Ghost(words));
    proof {
        words = words.push(dim);
    }
    let count: u32 = points.len() as u32;
    push_word(&mut out, count, Ghost(words));
    proof {
        words = words.push(count);
    }
    let ghost head = words;
    assert(head =~= seq![dimension(ps) as u32, ps.len() as u32]);
    assert(head + components(ps.take(0)) =~= head);
    let mut i: usize = 0;
    while i < points.len()
        invariant
            i <= points@.len(),
            ps == rows(points@),
            out@ == bytes_of(words),
            words == head + components(ps.take(i as int)),
        decreases points@.len() - i,
    {
        assert(ps.take(i + 1).drop_last() =~= ps.take(i as int));
        let row: &Vec<u32> = &points[i];
        let ghost base = words;
        let mut k: usize = 0;
        assert(base + row@.take(0) =~= base);
        while k < row.len()
            invariant
                k <= row@.len(),
                out@ == bytes_of(words),
                words == base + row@.take(k as int),
            decreases row@.len() - k,
        {
            push_word(&mut out, row[k], Ghost(words));
            proof {
                words = words.push(row@[k as int]);
            }
            assert(words =~= base + row@.take(k + 1));
            k += 1;
        }
        assert(row@.take(row@.len() as int) =~= row@);
        assert(words =~= head + components(ps.take(i + 1)));
        i += 1;
    }
    assert(ps.take(ps.len() as int) =~= ps);
    out
}

/// The vectors of a file.
pub fn decode_points(b: &[u8]) -> (r: Vec<Vec<u32>>)
    ensures
        rows(r@) == decoded_points(b@),
{
    let len: usize = b.len();
    let mut out: Vec<Vec<u32>> = Vec::new();
    if len < 8 {
        assert(rows(out@) =~= Seq::empty());
        return out;
    }
    let dim: u32 = read_word(b, 0);
    let count: u32 = read_word(b, 4);
    let avail: usize = (len - 8) / 4;
    let ghost cs = stored_components(b@);
    let mut used: usize = 0;
    let mut i: u32 = 0;
    while i < count
        invariant
            len == b@.len(),
            len >= 8,
            cs == stored_components(b@),
            avail == cs.len(),
            8 + 4 * avail <= len,
            dim == word_at(b@, 0),
            i <= count,
            used <= avail,
            used == if i * dim < avail {
                i * dim
            } else {
                avail as int
            },
            rows(out@) == Seq::new(
                i as nat,
                |k: int| part(cs, k * (dim as int), k * (dim as int) + dim),
            ),
        decreases count - i,
    {
        let mut row: Vec<u32> = Vec::new();
        let start: usize = used;
        let mut k: u32 = 0;
        while k < dim && used < avail
            invariant
                len == b@.len(),
                cs == stored_components(b@),
                avail == cs.len(),
                8 + 4 * avail <= len,
                k <= dim,
                start <= used <= avail,
                used == start + k,
                row@ == cs.subrange(start as int, used as int),
            decreases dim - k,
        {
            row.push(read_word(b, 8 + 4 * used));
            used += 1;
            k += 1;
        }
        let ghost before = rows(out@);
        proof {
            assert((i + 1) * dim == i * dim + dim) by (nonlinear_arith);
            assert(row@ =~= part(cs, i * dim, i * dim + dim));
        }
        out.push(row);
        assert(rows(out@) =~= before.push(row@));
        i += 1;
    }
    out
}

proof fn lemma_word_of_bytes(words: Seq<u32>, j: int)
    requires
        0 <= j < words.len(),
    ensures
        word_at(bytes_of(words), 4 * j) == words[j],
{
    let b = bytes_of(words);
    let x = words[j];
    lemma_quarter(j, 0);
    lemma_quarter(j, 1);
    lemma_quarter(j, 2);
    lemma_quarter(j, 3);
    assert(b[4 * j] == byte_of(x, 0));
    assert(b[4 * j + 1] == byte_of(x, 1));
    assert(b[4 * j + 2] == byte_of(x, 2));
    assert(b[4 * j + 3] == byte_of(x, 3));
    lemma_bytes_of_word(x);
}

proof fn lemma_quarter(j: int, k: int)
    requires
        0 <= j,
        0 <= k < 4,
    ensures
        (4 * j + k) / 4 == j,
        (4 * j + k) % 4 == k,
{
}

/// A number is the sum of its bytes.
proof fn lemma_bytes_of_word(x: u32)
    ensures
        byte_of(x, 0) + 256 * byte_of(x, 1) + 65536 * byte_of(x, 2) + 16777216 * byte_of(x, 3) == x,
{
    let a = x as int / 256;
    let b = a / 256;
    let c = b / 256;
    assert(x as int / 65536 == b);
    assert(x as int / 16777216 == c);
    assert(0 <= c < 256);
    assert(x == 256 * a + x % 256);
    assert(a == 256 * b + a % 256);
    assert(b == 256 * c + b % 256);
}

proof fn lemma_components(points: Seq<Seq<u32>>, dim: int, i: int)
    requires
        forall|k: int| 0 <= k < points.len() ==> (#[trigger] points[k]).len() == dim,
        0 <= i < points.len(),
    ensures
        components(points).len() == points.len() * dim,
        i * dim + dim <= points.len() * dim,
        components(points).subrange(i * dim, i * dim + dim) == points[i],
    decreases points.len(),
{
    let n = points.len();
    let last = points.last();
    let front = points.drop_last();
    assert(last.len() == dim);
    assert(n * dim == (n - 1) * dim + dim) by (nonlinear_arith);
    if n == 1 {
        assert(components(front) =~= Seq::empty());
        assert(components(points) =~= last);
        assert(0 * dim == 0 && 1 * dim == dim);
        assert(last.subrange(0, dim) =~= last);
    } else {
        assert(forall|k: int| 0 <= k < front.len() ==> (#[trigger] front[k]) == points[k]);
        if i < n - 1 {
            lemma_components(front, dim, i);
            assert(components(points).subrange(i * dim, i * dim + dim) =~= components(
                front,
            ).subrange(i * dim, i * dim + dim));
        } else {
            lemma_components(front, dim, 0);
            assert(components(points).subrange(i * dim, i * dim + dim) =~= last);
        }
        assert(i * dim + dim <= n * dim) by (nonlinear_arith)
            requires
                i < n,
                dim >= 0,
        ;
    }
}

/// Reading a file of vectors gives back the vectors that were written, where
/// they all have one length and the counts fit into the header.
pub proof fn law_points_survive(points: Seq<Seq<u32>>)
    requires
        uniform(points),
        points.len() <= u32::MAX,
        dimension(points) <= u32::MAX,
    ensures
        encoded_points(points).len() >= 8,
        decoded_points(encoded_points(points)) == points,
{
    let dim = dimension(points) as int;
    let words = seq![dimension(points) as u32, points.len() as u32] + components(points);
    let b = encoded_points(points);
    lemma_word_of_bytes(words, 0);
    lemma_word_of_bytes(words, 1);
    assert(words[0] == dim);
    assert(words[1] == points.len());
    let cs = stored_components(b);
    assert(cs =~= components(points)) by {
        assert forall|j: int| 0 <= j < cs.len() implies cs[j] == #[trigger] components(
            points,
        )[j] by {
            lemma_word_of_bytes(words, j + 2);
            assert(words[j + 2] == components(points)[j]);
        }
    }
    assert forall|i: int| 0 <= i < points.len() implies #[trigger] decoded_points(b)[i]
        == points[i] by {
        lemma_components(points, dim, i);
        assert(i * dim >= 0) by (nonlinear_arith)
            requires
                i >= 0,
                dim >= 0,
        ;
        assert(part(cs, i * dim, i * dim + dim) =~= points[i]);
    }
    assert(decoded_points(b) =~= points);
}

/// The fields of the line that stores a record.
pub open spec fn meta_fields(m: MetaView) -> Seq<(Seq<char>, json::FieldView)> {
    seq![
        ("chunk_id"@, json::FieldView::Text(m.0)),
        ("file_path"@, json::FieldView::Text(m.1)),
        ("file_name"@, json::FieldView::Text(m.2)),
        ("content_len"@, json::FieldView::Count(chars::utf8_len(m.3) as u64)),
        ("content"@, json::FieldView::Text(m.3)),
        (
            "section"@,
            match m.4 {
                Some(section) => json::FieldView::Text(section),
                None => json::FieldView::Absent,
            },
        ),
    ]
}

/// The line that stores a record.
pub open spec fn meta_line(m: MetaView) -> Seq<char> {
    json::object_json(meta_fields(m))
}

/// The file of metadata: a line for each record.
pub open spec fn encoded_metas(metas: Seq<MetaView>) -> Seq<char> {
    edit::joined(Seq::new(metas.len(), |i: int| meta_line(metas[i])), "\n"@)
}

/// The record of a line: chunk, path and name have to be there; the content is
/// empty where there is none.
pub open spec fn line_meta(line: Seq<char>) -> Option<MetaView> {
    match (
        json::json_text(line, "chunk_id"@),
        json::json_text(line, "file_path"@),
        json::json_text(line, "file_name"@),
    ) {
        (Some(chunk_id), Some(file_path), Some(file_name)) => Some(
            (
                chunk_id,
                file_path,
                file_name,
                match json::json_text(line, "content"@) {
                    Some(content) => content,
                    None => Seq::empty(),
                },
                json::json_text(line, "section"@),
            ),
        ),
        _ => None,
    }
}

/// The records of the lines, those without one left out.
pub open spec fn line_metas(lines: Seq<Seq<char>>) -> Seq<MetaView>
    decreases lines.len(),
{
    if lines.len() == 0 {
        Seq::empty()
    } else {
        let before = line_metas(lines.drop_last());
        match line_meta(lines.last()) {
            Some(m) => if lines.last().len() == 0 {
                before
            } else {
                before.push(m)
            },
            None => before,
        }
    }
}

/// The records of a file of metadata.
pub open spec fn decoded_metas(file: Seq<char>) -> Seq<MetaView> {
    line_metas(split::lines(file))
}

proof fn lemma_meta_keys(m: MetaView)
    ensures
        json::distinct_keys(meta_fields(m)),
{
    reveal_strlit("chunk_id");
    reveal_strlit("file_path");
    reveal_strlit("file_name");
    reveal_strlit("content_len");
    reveal_strlit("content");
    reveal_strlit("section");
    let f = meta_fields(m);
    assert("chunk_id"@.len() == 8);
    assert("file_path"@.len() == 9);
    assert("file_name"@.len() == 9);
    assert("content_len"@.len() == 11);
    assert("content"@.len() == 7);
    assert("section"@.len() == 7);
    assert("file_path"@[5] == 'p');
    assert("file_name"@[5] == 'n');
    assert("content"@[0] == 'c');
    assert("section"@[0] == 's');
    assert forall|i: int, j: int| 0 <= i < j < f.len() implies (#[trigger] f[i]).0
        != (#[trigger] f[j]).0 by {}
}

/// The line that stores `m`.
fn write_meta(m: &VectorMeta) -> (r: String)
    ensures
        r@ == meta_line(m@),
        !r@.contains('\n'),
        r@.len() > 0,
        r@.last() == '}',
        line_meta(r@) == Some(m@),
{
    let mut fields: Vec<(String, JsonField)> = Vec::new();
    fields.push((edit::owned("chunk_id"), JsonField::Text(m.chunk_id.clone())));
    fields.push((edit::owned("file_path"), JsonField::Text(m.file_path.clone())));
    fields.push((edit::owned("file_name"), JsonField::Text(m.file_name.clone())));
    let content_len: u64 = chars::byte_len(m.content.as_str()) as u64;
    fields.push((edit::owned("content_len"), JsonField::Count(content_len)));
    fields.push((edit::owned("content"), JsonField::Text(m.content.clone())));
    let section: JsonField = match &m.section {
        Some(s) => JsonField::Text(s.clone()),
        None => JsonField::Absent,
    };
    fields.push((edit::owned("section"), section));
    assert(json::field_views(fields@) =~= meta_fields(m@));
    proof {
        lemma_meta_keys(m@);
    }
    let ghost fs = fields@;
    let r: String = json::write_object(fields);
    assert(fs[0].0@ == "chunk_id"@ && fs[1].0@ == "file_path"@ && fs[2].0@ == "file_name"@
        && fs[4].0@ == "content"@ && fs[5].0@ == "section"@);
    r
}

/// The record of a line.
fn read_meta(line: &str) -> (r: Option<VectorMeta>)
    ensures
        match r {
            Some(m) => line_meta(line@) == Some(m@),
            None => line_meta(line@) is None,
        },
{
    match (
        json::read_text(line, "chunk_id"),
        json::read_text(line, "file_path"),
        json::read_text(line, "file_name"),
    ) {
        (Some(chunk_id), Some(file_path), Some(file_name)) => {
            let content: String = match json::read_text(line, "content") {
                Some(s) => s,
                None => String::new(),
            };
            let section: Option<String> = json::read_text(line, "section");
            Some(VectorMeta { chunk_id, file_path, file_name, content, section })
        },
        _ => None,
    }
}

proof fn lemma_pieces_append(s: Seq<char>, t: Seq<char>, k: CharClass)
    requires
        forall|i: int| 0 <= i < t.len() ==> !k.has(#[trigger] t[i]),
    ensures
        split::pieces(s + t, k) == split::pieces(s, k).drop_last().push(
            split::pieces(s, k).last() + t,
        ),
    decreases t.len(),
{
    split::lemma_pieces_nonempty(s, k);
    let p = split::pieces(s, k);
    if t.len() == 0 {
        assert(s + t =~= s);
        assert(p.last() + t =~= p.last());
        assert(p.drop_last().push(p.last()) =~= p);
    } else {
        let u = t.drop_last();
        assert(forall|i: int| 0 <= i < u.len() ==> u[i] == t[i]);
        lemma_pieces_append(s, u, k);
        assert((s + t).drop_last() =~= s + u);
        assert((s + t).last() == t.last());
        assert(k.has(t[t.len() - 1]) == false);
        let before = p.drop_last().push(p.last() + u);
        assert(before.drop_last() =~= p.drop_last());
        assert((p.last() + u).push(t.last()) =~= p.last() + t);
    }
}

/// Lines that are not empty, hold no newline and end in no carriage return
/// come back from the text that joins them.
proof fn lemma_lines_of_joined(ls: Seq<Seq<char>>)
    requires
        ls.len() > 0,
        forall|i: int|
            0 <= i < ls.len() ==> !(#[trigger] ls[i]).contains('\n') && ls[i].len() > 0
                && ls[i].last() != '\r',
    ensures
        split::lines(edit::joined(ls, "\n"@)) == ls,
{
    lemma_pieces_of_joined(ls);
    let all = split::pieces(edit::joined(ls, "\n"@), CharClass::Is('\n'));
    assert(ls[ls.len() - 1].len() > 0);
    assert(split::lines(edit::joined(ls, "\n"@)) =~= ls);
}

proof fn lemma_pieces_of_joined(ls: Seq<Seq<char>>)
    requires
        ls.len() > 0,
        forall|i: int| 0 <= i < ls.len() ==> !(#[trigger] ls[i]).contains('\n'),
    ensures
        split::pieces(edit::joined(ls, "\n"@), CharClass::Is('\n')) == ls,
    decreases ls.len(),
{
    let k = CharClass::Is('\n');
    let last = ls.last();
    reveal_strlit("\n");
    assert(!ls[ls.len() - 1].contains('\n'));
    assert(forall|i: int| 0 <= i < last.len() ==> !k.has(#[trigger] last[i]));
    if ls.len() == 1 {
        let none = Seq::<char>::empty();
        lemma_pieces_append(none, last, k);
        assert(none + last =~= last);
        assert(split::pieces(none, k) =~= seq![none]);
        assert(seq![none].drop_last().push(last) =~= ls);
    } else {
        let front = ls.drop_last();
        assert(forall|i: int| 0 <= i < front.len() ==> (#[trigger] front[i]) == ls[i]);
        lemma_pieces_of_joined(front);
        let head = edit::joined(front, "\n"@);
        let cut = head + "\n"@;
        assert(cut.drop_last() =~= head);
        assert(cut.last() == '\n');
        assert(split::pieces(cut, k) == front.push(Seq::<char>::empty()));
        lemma_pieces_append(cut, last, k);
        assert(front.push(Seq::<char>::empty()).drop_last() =~= front);
        assert(Seq::<char>::empty() + last =~= last);
        assert(front.push(last) =~= ls);
    }
}

proof fn lemma_line_metas(lines: Seq<Seq<char>>, metas: Seq<MetaView>)
    requires
        lines.len() == metas.len(),
        forall|i: int|
            0 <= i < lines.len() ==> (#[trigger] lines[i]).len() > 0 && line_meta(lines[i]) == Some(
                metas[i],
            ),
    ensures
        line_metas(lines) == metas,
    decreases lines.len(),
{
    if lines.len() > 0 {
        let front = lines.drop_last();
        assert(forall|i: int| 0 <= i < front.len() ==> (#[trigger] front[i]) == lines[i]);
        lemma_line_metas(front, metas.drop_last());
        assert(lines[lines.len() - 1].len() > 0);
        assert(metas.drop_last().push(metas.last()) =~= metas);
    } else {
        assert(metas =~= Seq::empty());
    }
}

/// The file of metadata for a list of records. Reading the file gives them
/// back.
pub fn encode_metas(metas: &Vec<VectorMeta>) -> (r: String)
    ensures
        r@ == encoded_metas(meta_views(metas@)),
        decoded_metas(r@) == meta_views(metas@),
{
    let ghost ms = meta_views(metas@);
    let mut lines: Vec<String> = Vec::new();
    let mut i: usize = 0;
    while i < metas.len()
        invariant
            i <= metas@.len(),
            ms == meta_views(metas@),
            lines@.len() == i,
            forall|k: int|
                0 <= k < i ==> (#[trigger] lines@[k])@ == meta_line(ms[k]) && !lines@[k]@.contains(
                    '\n',
                ) && lines@[k]@.len() > 0 && lines@[k]@.last() == '}' && line_meta(lines@[k]@)
                    == Some(ms[k]),
        decreases metas@.len() - i,
    {
        lines.push(write_meta(&metas[i]));
        i += 1;
    }
    let ghost ls = text::views(lines@);
    assert(ls =~= Seq::new(ms.len(), |k: int| meta_line(ms[k])));
    proof {
        assert forall|k: int| 0 <= k < ls.len() implies !(#[trigger] ls[k]).contains('\n')
            && ls[k].len() > 0 && ls[k].last() != '\r' && line_meta(ls[k]) == Some(ms[k]) by {
            assert(ls[k] == lines@[k]@);
        }
        if metas@.len() > 0 {
            lemma_lines_of_joined(ls);
            lemma_line_metas(ls, ms);
        }
    }
    edit::join(lines.as_slice(), "\n")
}

/// The records of a file of metadata.
pub fn decode_metas(file: &str) -> (r: Vec<VectorMeta>)
    ensures
        meta_views(r@) == decoded_metas(file@),
{
    let lines: Vec<String> = split::split_lines(file);
    let ghost ls = text::views(lines@);
    let mut out: Vec<VectorMeta> = Vec::new();
    let mut i: usize = 0;
    while i < lines.len()
        invariant
            i <= lines@.len(),
            ls == text::views(lines@),
            meta_views(out@) == line_metas(ls.take(i as int)),
        decreases lines@.len() - i,
    {
        assert(ls.take(i + 1).drop_last() =~= ls.take(i as int));
        let line: &str = lines[i].as_str();
        let ghost before = meta_views(out@);
        if !line.is_empty() {
            if let Some(m) = read_meta(line) {
                out.push(m);
                assert(meta_views(out@) =~= before.push(m@));
            }
        }
        i += 1;
    }
    assert(ls.take(ls.len() as int) =~= ls);
    out
}

impl VectorIndex {
    /// The two files of the index: vectors and metadata. What is stored can be
    /// read back, of an empty index too.
    pub fn save(&self) -> (r: (Vec<u8>, String))
        ensures
            r.0@ == encoded_points(rows(self.points@)),
            r.1@ == encoded_metas(meta_views(self.metadata@)),
            r.0@.len() >= 8,
            decoded_metas(r.1@) == meta_views(self.metadata@),
            uniform(rows(self.points@)) && self.points@.len() <= u32::MAX && dimension(
                rows(self.points@),
            ) <= u32::MAX ==> decoded_points(r.0@) == rows(self.points@),
    {
        let bytes: Vec<u8> = encode_points(&self.points);
        let lines: String = encode_metas(&self.metadata);
        proof {
            let ps = rows(self.points@);
            if uniform(ps) && ps.len() <= u32::MAX && dimension(ps) <= u32::MAX {
                law_points_survive(ps);
            }
        }
        (bytes, lines)
    }

    /// The index that the two files store; an empty one where the file of
    /// vectors has no whole header.
    pub fn load(vectors: &[u8], metadata: &str) -> (r: VectorIndex)
        ensures
            rows(r.points@) == decoded_points(vectors@),
            meta_views(r.metadata@) == if vectors@.len() < 8 {
                Seq::empty()
            } else {
                decoded_metas(metadata@)
            },
            !r.dirty,
    {
        let points: Vec<Vec<u32>> = decode_points(vectors);
        if vectors.len() < 8 {
            let r: VectorIndex = VectorIndex::new();
            assert(rows(r.points@) =~= Seq::empty());
            assert(meta_views(r.metadata@) =~= Seq::empty());
            return r;
        }
        VectorIndex { metadata: decode_metas(metadata), points, dirty: false }
    }
}

/// The positions that are left, in the order in which they end up.
pub open spec fn places(len: nat, gone: Seq<bool>) -> Seq<int> {
    swapped_out(Seq::new(len, |i: int| i), gone, 0)
}

proof fn lemma_swapped_out_len<T>(items: Seq<T>, gone: Seq<bool>, n: int)
    requires
        gone.len() <= items.len(),
        0 <= n <= gone.len(),
    ensures
        n <= swapped_out(items, gone, n).len() <= items.len(),
        gone.len() - n <= swapped_out(items, gone, n).len() + count_set(gone.skip(n)) - n,
        swapped_out(items, gone, n).len() == items.len() - count_set(gone.skip(n)),
        forall|i: int| 0 <= i < n ==> #[trigger] swapped_out(items, gone, n)[i] == items[i],
    decreases gone.len() - n,
{
    if n < gone.len() {
        lemma_swapped_out_len(items, gone, n + 1);
        lemma_count_set_skip(gone, n);
    } else {
        assert(gone.skip(n) =~= Seq::empty());
    }
}

proof fn lemma_swapped_out_places<T>(items: Seq<T>, ids: Seq<int>, gone: Seq<bool>, n: int)
    requires
        gone.len() <= items.len(),
        ids == Seq::new(items.len(), |i: int| i),
        0 <= n <= gone.len(),
    ensures
        swapped_out(ids, gone, n).len() == swapped_out(items, gone, n).len(),
        forall|i: int|
            0 <= i < swapped_out(items, gone, n).len() ==> {
                let p = #[trigger] swapped_out(ids, gone, n)[i];
                &&& 0 <= p < items.len()
                &&& swapped_out(items, gone, n)[i] == items[p]
                &&& p >= gone.len() || p < n || !gone[p]
            },
        forall|p: int|
            0 <= p < items.len() && (p >= gone.len() || p < n || !gone[p])
                ==> #[trigger] swapped_out(ids, gone, n).contains(p),
    decreases gone.len() - n,
{
    if n >= gone.len() {
        assert forall|p: int| 0 <= p < items.len() implies #[trigger] swapped_out(
            ids,
            gone,
            n,
        ).contains(p) by {
            assert(ids[p] == p);
        }
    } else {
        lemma_swapped_out_places(items, ids, gone, n + 1);
        lemma_swapped_out_len(items, gone, n + 1);
        lemma_swapped_out_len(ids, gone, n + 1);
        let before = swapped_out(ids, gone, n + 1);
        let after = swapped_out(ids, gone, n);
        let items_before = swapped_out(items, gone, n + 1);
        let items_after = swapped_out(items, gone, n);
        assert(before[n] == n);
        if gone[n] {
            let m = before.len() - 1;
            assert forall|i: int| 0 <= i < items_after.len() implies {
                let p = #[trigger] after[i];
                &&& 0 <= p < items.len()
                &&& items_after[i] == items[p]
                &&& p >= gone.len() || p < n || !gone[p]
            } by {
                if i == n {
                    assert(after[i] == before[m]);
                    assert(items_after[i] == items_before[m]);
                } else {
                    assert(after[i] == before[i]);
                    assert(items_after[i] == items_before[i]);
                }
                lemma_ids_distinct(ids, gone, n + 1);
                assert(after[i] != n);
            }
            assert forall|p: int|
                0 <= p < items.len() && (p >= gone.len() || p < n || !gone[p]) implies #[trigger] after.contains(
                p,
            ) by {
                assert(before.contains(p));
                let i = choose|i: int| 0 <= i < before.len() && before[i] == p;
                assert(p != n);
                if i == m {
                    assert(after[n] == p);
                } else {
                    assert(after[i] == p);
                }
            }
        } else {
            assert forall|p: int|
                0 <= p < items.len() && (p >= gone.len() || p < n || !gone[p]) implies #[trigger] after.contains(
                p,
            ) by {
                assert(before.contains(p));
            }
        }
    }
}

proof fn lemma_ids_distinct(ids: Seq<int>, gone: Seq<bool>, n: int)
    requires
        ids == Seq::new(ids.len(), |i: int| i),
        gone.len() <= ids.len(),
        0 <= n <= gone.len(),
    ensures
        swapped_out(ids, gone, n).no_duplicates(),
    decreases gone.len() - n,
{
    if n < gone.len() {
        lemma_ids_distinct(ids, gone, n + 1);
        lemma_swapped_out_len(ids, gone, n + 1);
    }
}

/// Taking out marked items leaves the items at the places that are not marked.
proof fn lemma_left<T>(items: Seq<T>, gone: Seq<bool>)
    requires
        gone.len() == items.len(),
    ensures
        ({
            let ps = places(items.len(), gone);
            &&& ps.no_duplicates()
            &&& forall|p: int| #[trigger] ps.contains(p) <==> 0 <= p < items.len() && !gone[p]
            &&& swapped_out(items, gone, 0) == Seq::new(ps.len(), |i: int| items[ps[i]])
        }),
{
    let ids = Seq::new(items.len(), |i: int| i);
    let ps = places(items.len(), gone);
    lemma_swapped_out_places(items, ids, gone, 0);
    lemma_ids_distinct(ids, gone, 0);
    assert forall|p: int| #[trigger] ps.contains(p) implies 0 <= p < items.len() && !gone[p] by {
        let i = choose|i: int| 0 <= i < ps.len() && ps[i] == p;
        assert(swapped_out(ids, gone, 0)[i] == p);
    }
    assert forall|p: int| 0 <= p < items.len() && !gone[p] implies #[trigger] ps.contains(p) by {
        assert(swapped_out(ids, gone, 0).contains(p));
    }
    assert(swapped_out(items, gone, 0) =~= Seq::new(ps.len(), |i: int| items[ps[i]]));
}

/// After the vectors of a file are removed, what is left is exactly the
/// vectors of other files, each once and each with its own metadata; and
/// nothing is left of the file.
pub proof fn law_removal(metas: Seq<VectorMeta>, points: Seq<Vec<u32>>, path: Seq<char>)
    requires
        metas.len() == points.len(),
    ensures
        ({
            let gone = of_file(metas, path);
            let ps = places(metas.len(), gone);
            let metas_left = swapped_out(metas, gone, 0);
            let points_left = swapped_out(points, gone, 0);
            &&& ps.no_duplicates()
            &&& forall|p: int|
                #[trigger] ps.contains(p) <==> 0 <= p < metas.len() && metas[p].file_path@ != path
            &&& metas_left == Seq::new(ps.len(), |i: int| metas[ps[i]])
            &&& points_left == Seq::new(ps.len(), |i: int| points[ps[i]])
            &&& chunks_of(metas_left, path).len() == 0
        }),
{
    let gone = of_file(metas, path);
    let ps = places(metas.len(), gone);
    let metas_left = swapped_out(metas, gone, 0);
    lemma_left(metas, gone);
    lemma_left(points, gone);
    assert forall|i: int| 0 <= i < metas_left.len() implies (#[trigger] metas_left[i]).file_path@
        != path by {
        assert(ps.contains(ps[i]));
    }
    lemma_no_chunks(metas_left, path);
}

/// After the vectors of a folder are removed, what is left is exactly the
/// vectors of files outside it, each once and each with its own metadata.
pub proof fn law_folder_removal(
    metas: Seq<VectorMeta>,
    points: Seq<Vec<u32>>,
    folder: Seq<char>,
)
    requires
        metas.len() == points.len(),
    ensures
        ({
            let gone = of_folder(metas, folder);
            let ps = places(metas.len(), gone);
            &&& ps.no_duplicates()
            &&& forall|p: int|
                #[trigger] ps.contains(p) <==> 0 <= p < metas.len() && !in_folder(
                    metas[p].file_path@,
                    folder,
                )
            &&& swapped_out(metas, gone, 0) == Seq::new(ps.len(), |i: int| metas[ps[i]])
            &&& swapped_out(points, gone, 0) == Seq::new(ps.len(), |i: int| points[ps[i]])
        }),
{
    lemma_left(metas, of_folder(metas, folder));
    lemma_left(points, of_folder(metas, folder));
}

proof fn lemma_vector_of(ids: Seq<u32>, i: int, k: int)
    requires
        ids.no_duplicates(),
        0 <= k <= i < ids.len(),
    ensures
        vector_of(ids, ids[i], k) == Some(i),
    decreases i - k,
{
    if k < i {
        lemma_vector_of(ids, i, k + 1);
    }
}

/// A hit on the point of a vector gives the metadata of that vector, whatever
/// order the search graph has its points in.
pub proof fn law_hit_is_its_vector(
    metas: Seq<VectorMeta>,
    ids: Seq<u32>,
    hit: GraphHit,
    i: int,
)
    requires
        ids.no_duplicates(),
        ids.len() == metas.len(),
        0 <= i < ids.len(),
        hit.point == ids[i],
    ensures
        hit_result(metas, ids, hit) == Some(
            (VectorSearchResult {
                chunk_id: metas[i].chunk_id,
                file_path: metas[i].file_path,
                file_name: metas[i].file_name,
                content: metas[i].content,
                section: metas[i].section,
                distance: hit.distance,
                similarity: hit.similarity,
            }),
        ),
{
    lemma_vector_of(ids, i, 0);
}

proof fn lemma_no_chunks(metas: Seq<VectorMeta>, path: Seq<char>)
    requires
        forall|i: int| 0 <= i < metas.len() ==> (#[trigger] metas[i]).file_path@ != path,
    ensures
        chunks_of(metas, path).len() == 0,
    decreases metas.len(),
{
    if metas.len() > 0 {
        assert(metas[metas.len() - 1].file_path@ != path);
        let front = metas.drop_last();
        assert(forall|i: int| 0 <= i < front.len() ==> (#[trigger] front[i]) == metas[i]);
        lemma_no_chunks(front, path);
    }
}

proof fn lemma_hit_results(metas: Seq<VectorMeta>, ids: Seq<u32>, hits: Seq<GraphHit>)
    requires
        forall|k: int| 0 <= k < hits.len() ==> hit_result(metas, ids, #[trigger] hits[k]) is Some,
    ensures
        hit_results(metas, ids, hits).len() == hits.len(),
        forall|k: int|
            0 <= k < hits.len() ==> Some(#[trigger] hit_results(metas, ids, hits)[k])
                == hit_result(metas, ids, hits[k]),
    decreases hits.len(),
{
    if hits.len() > 0 {
        let front = hits.drop_last();
        assert forall|k: int| 0 <= k < front.len() implies hit_result(
            metas,
            ids,
            #[trigger] front[k],
        ) is Some by {
            assert(front[k] == hits[k]);
        }
        lemma_hit_results(metas, ids, front);
        assert(hit_result(metas, ids, hits[hits.len() - 1]) is Some);
        assert forall|k: int| 0 <= k < hits.len() implies Some(
            #[trigger] hit_results(metas, ids, hits)[k],
        ) == hit_result(metas, ids, hits[k]) by {
            if k < front.len() {
                assert(front[k] == hits[k]);
                assert(hit_results(metas, ids, hits)[k] == hit_results(metas, ids, front)[k]);
            }
        }
    }
}

/// Where the graph hits points of vectors, each at most once, every hit gives
/// one result, in the order of the hits: with the metadata of its vector, here
/// `of[k]`, and the distance of the hit. Where no chunk is stored twice, none is
/// found twice.
pub proof fn law_search_results(
    metas: Seq<VectorMeta>,
    ids: Seq<u32>,
    hits: Seq<GraphHit>,
    of: Seq<int>,
)
    requires
        ids.no_duplicates(),
        ids.len() == metas.len(),
        of.len() == hits.len(),
        forall|k: int|
            0 <= k < hits.len() ==> 0 <= of[k] < ids.len() && (#[trigger] hits[k]).point
                == ids[of[k]],
        of.no_duplicates(),
    ensures
        ({
            let r = hit_results(metas, ids, hits);
            &&& r.len() == hits.len()
            &&& forall|k: int|
                0 <= k < r.len() ==> (#[trigger] r[k]).chunk_id == metas[of[k]].chunk_id
                    && r[k].file_path == metas[of[k]].file_path && r[k].file_name
                    == metas[of[k]].file_name && r[k].content == metas[of[k]].content
                    && r[k].section == metas[of[k]].section && r[k].distance == hits[k].distance
                    && r[k].similarity == hits[k].similarity
            &&& (forall|i: int, j: int|
                0 <= i < j < metas.len() ==> (#[trigger] metas[i]).chunk_id@ != (
                #[trigger] metas[j]).chunk_id@) ==> forall|i: int, j: int|
                0 <= i < j < r.len() ==> (#[trigger] r[i]).chunk_id@ != (
                #[trigger] r[j]).chunk_id@
        }),
{
    let r = hit_results(metas, ids, hits);
    assert forall|k: int| 0 <= k < hits.len() implies hit_result(
        metas,
        ids,
        #[trigger] hits[k],
    ) is Some by {
        law_hit_is_its_vector(metas, ids, hits[k], of[k]);
    }
    lemma_hit_results(metas, ids, hits);
    assert forall|k: int| 0 <= k < r.len() implies (#[trigger] r[k]).chunk_id
        == metas[of[k]].chunk_id && r[k].file_path == metas[of[k]].file_path && r[k].file_name
        == metas[of[k]].file_name && r[k].content == metas[of[k]].content && r[k].section
        == metas[of[k]].section && r[k].distance == hits[k].distance && r[k].similarity
        == hits[k].similarity by {
        law_hit_is_its_vector(metas, ids, hits[k], of[k]);
    }
    if forall|i: int, j: int|
        0 <= i < j < metas.len() ==> (#[trigger] metas[i]).chunk_id@ != (
        #[trigger] metas[j]).chunk_id@ {
        assert forall|i: int, j: int| 0 <= i < j < r.len() implies (#[trigger] r[i]).chunk_id@ != (
        #[trigger] r[j]).chunk_id@ by {
            assert(hits[i].point == ids[of[i]] && hits[j].point == ids[of[j]]);
            assert(of[i] != of[j]);
            if of[i] < of[j] {
                assert(metas[of[i]].chunk_id@ != metas[of[j]].chunk_id@);
            } else {
                assert(metas[of[j]].chunk_id@ != metas[of[i]].chunk_id@);
            }
        }
    }
}

/// The records of a file are exactly those with its path, in order.
pub proof fn law_chunks_of(metas: Seq<VectorMeta>, path: Seq<char>) -> (ps: Seq<int>)
    ensures
        select::exactly(ps, metas.len() as int, |i: int| metas[i].file_path@ == path),
        chunks_of(metas, path) == Seq::new(ps.len(), |k: int| metas[ps[k]]),
{
    let p = |i: int| metas[i].file_path@ == path;
    let f = |n: int| chunks_of(metas.take(n), path);
    assert forall|n: int| 0 < n <= metas.len() implies #[trigger] f(n) == if p(n - 1) {
        f(n - 1).push(metas[n - 1])
    } else {
        f(n - 1)
    } by {
        assert(metas.take(n).drop_last() =~= metas.take(n - 1));
    }
    assert(metas.take(0) =~= Seq::empty());
    assert(metas.take(metas.len() as int) =~= metas);
    select::lemma_exactly(metas.len() as int, p, |i: int| metas[i], f)
}

/// As many vectors go as have their file in the folder.
pub proof fn law_count_set(flags: Seq<bool>) -> (ps: Seq<int>)
    ensures
        select::exactly(ps, flags.len() as int, |i: int| flags[i]),
        count_set(flags) == ps.len(),
{
    let p = |i: int| flags[i];
    let f = |n: int| count_set(flags.take(n));
    assert forall|n: int| 0 < n <= flags.len() implies #[trigger] f(n) == if p(n - 1) {
        f(n - 1) + 1
    } else {
        f(n - 1)
    } by {
        assert(flags.take(n).drop_last() =~= flags.take(n - 1));
    }
    assert(flags.take(flags.len() as int) =~= flags);
    select::lemma_counted(flags.len() as int, p, f)
}

/// What is in a folder: the folder itself and everything behind it and a slash;
/// not what only begins with the same characters.
pub proof fn law_in_folder(folder: Seq<char>, rest: Seq<char>, c: char)
    requires
        folder.len() > 0,
        folder.last() != '/',
        c != '/',
    ensures
        in_folder(folder, folder),
        in_folder(folder.push('/') + rest, folder),
        in_folder(folder.push('/') + rest, folder.push('/')),
        !in_folder(folder.push(c) + rest, folder),
{
    let prefix = folder.push('/');
    let inside = prefix + rest;
    assert(inside.subrange(0, (0 + prefix.len()) as int) =~= prefix);
    let beside = folder.push(c) + rest;
    if find::begins(beside, prefix) {
        let part = beside.subrange(0, (0 + prefix.len()) as int);
        assert(part[folder.len() as int] == '/');
        assert(beside[folder.len() as int] == c);
    }
    assert(beside.len() > folder.len());
}

/// The file of vectors: four bytes for the dimension, four for the number of
/// vectors, and four for each component, vector after vector, the least significant
/// byte first.
pub proof fn law_vector_file(points: Seq<Seq<u32>>, i: int, k: int)
    requires
        uniform(points),
        points.len() <= u32::MAX,
        dimension(points) <= u32::MAX,
        0 <= i < points.len(),
        0 <= k < points[0].len(),
    ensures
        ({
            let b = encoded_points(points);
            let dim = points[0].len() as int;
            let at = 8 + 4 * (i * dim + k);
            &&& b.len() == 8 + 4 * (points.len() * dim)
            &&& b[0] + 256 * b[1] + 65536 * b[2] + 16777216 * b[3] == dim
            &&& b[4] + 256 * b[5] + 65536 * b[6] + 16777216 * b[7] == points.len()
            &&& 0 <= at && at + 3 < b.len()
            &&& b[at] + 256 * b[at + 1] + 65536 * b[at + 2] + 16777216 * b[at + 3] == points[i][k]
        }),
{
    let dim = dimension(points) as int;
    let words = seq![dimension(points) as u32, points.len() as u32] + components(points);
    let n = points.len() as int;
    lemma_components(points, dim, i);
    assert(0 <= i * dim + k < n * dim) by (nonlinear_arith)
        requires
            0 <= i < n,
            0 <= k < dim,
    ;
    lemma_stored_word(words, 0);
    lemma_stored_word(words, 1);
    let j = i * dim + k;
    lemma_stored_word(words, 2 + j);
    assert(words[2 + j] == components(points)[j]);
    assert(components(points).subrange(i * dim, i * dim + dim)[k] == components(points)[j]);
}

proof fn lemma_stored_word(words: Seq<u32>, j: int)
    requires
        0 <= j < words.len(),
    ensures
        ({
            let b = bytes_of(words);
            &&& b.len() == 4 * words.len()
            &&& b[4 * j] + 256 * b[4 * j + 1] + 65536 * b[4 * j + 2] + 16777216 * b[4 * j + 3]
                == words[j]
        }),
{
    let x = words[j];
    lemma_quarter(j, 0);
    lemma_quarter(j, 1);
    lemma_quarter(j, 2);
    lemma_quarter(j, 3);
    let b = bytes_of(words);
    assert(b[4 * j] == byte_of(x, 0));
    assert(b[4 * j + 1] == byte_of(x, 1));
    assert(b[4 * j + 2] == byte_of(x, 2));
    assert(b[4 * j + 3] == byte_of(x, 3));
    lemma_bytes_of_word(x);
}

/// The line of a record has its fields under their names.
pub proof fn law_meta_fields(m: MetaView)
    ensures
        meta_fields(m).contains(("chunk_id"@, json::FieldView::Text(m.0))),
        meta_fields(m).contains(("file_path"@, json::FieldView::Text(m.1))),
        meta_fields(m).contains(("file_name"@, json::FieldView::Text(m.2))),
        meta_fields(m).contains(("content"@, json::FieldView::Text(m.3))),
        m.4 is Some ==> meta_fields(m).contains(("section"@, json::FieldView::Text(m.4->0))),
        m.4 is None ==> meta_fields(m).contains(("section"@, json::FieldView::Absent)),
{
    let f = meta_fields(m);
    assert(f[0] == ("chunk_id"@, json::FieldView::Text(m.0)));
    assert(f[1] == ("file_path"@, json::FieldView::Text(m.1)));
    assert(f[2] == ("file_name"@, json::FieldView::Text(m.2)));
    assert(f[4] == ("content"@, json::FieldView::Text(m.3)));
    assert(f[5].0 == "section"@);
    if m.4 is Some {
        assert(f[5] == ("section"@, json::FieldView::Text(m.4->0)));
    } else {
        assert(f[5] == ("section"@, json::FieldView::Absent));
    }
}

} // verus!
