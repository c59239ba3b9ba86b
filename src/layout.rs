use vstd::prelude::*;
use crate::error::NetError;
use crate::matrix::Matrix;
use crate::schema::{
    block_size, lemma_block_fits, lemma_block_size_nonneg, lemma_offset_mono, offset, param_count, LayerSchema,
};

verus! {

/// The blocks laid end to end, in order.
pub open spec fn concat<T>(blocks: Seq<Seq<T>>) -> Seq<T>
    decreases blocks.len(),
{
    if blocks.len() == 0 {
        Seq::empty()
    } else {
        concat(blocks.drop_last()) + blocks.last()
    }
}

/// The slice of a flat parameter vector that holds transition `idx`.
pub open spec fn block_of<T>(s: Seq<usize>, flat: Seq<T>, idx: int) -> Seq<T> {
    flat.subrange(offset(s, idx), offset(s, idx + 1))
}

/// One block per transition, each of the size the schema lays out.
pub open spec fn blocks_fit<T>(s: Seq<usize>, blocks: Seq<Seq<T>>) -> bool {
    blocks.len() == s.len() - 1 && forall|l: int|
        0 <= l < blocks.len() ==> #[trigger] blocks[l].len() == block_size(s, l)
}

/// The views of a sequence of vectors.
pub open spec fn views<T>(vs: Seq<Vec<T>>) -> Seq<Seq<T>> {
    vs.map_values(|v: Vec<T>| v@)
}

/// The first `k` blocks of a fitting sequence of blocks fill exactly the
/// first `offset(s, k)` slots, and block `i < k` starts at `offset(s, i)`.
pub proof fn lemma_concat_prefix<T>(s: Seq<usize>, blocks: Seq<Seq<T>>, k: int)
    requires
        blocks_fit(s, blocks),
        0 <= k <= blocks.len(),
    ensures
        concat(blocks.take(k)).len() == offset(s, k),
        forall|i: int| 0 <= i < k ==> #[trigger] block_of(s, concat(blocks.take(k)), i) == blocks[i],
    decreases k,
{
    if k > 0 {
        let p = blocks.take(k);
        assert(p.drop_last() =~= blocks.take(k - 1));
        lemma_concat_prefix(s, blocks, k - 1);
        let c = concat(blocks.take(k - 1));
        assert(concat(p) == c + blocks[k - 1]);
        assert forall|i: int| 0 <= i < k implies #[trigger] block_of(s, concat(p), i) == blocks[i] by {
            lemma_block_size_nonneg(s, i);
            if i < k - 1 {
                lemma_offset_mono(s, i + 1, k - 1);
                lemma_offset_mono(s, 0, i);
                assert(block_of(s, concat(p), i) =~= block_of(s, c, i));
            } else {
                lemma_offset_mono(s, 0, i);
                assert(block_of(s, concat(p), i) =~= blocks[k - 1]);
            }
        }
    }
}

/// One block per transition, each of the size the schema lays out, laid end
/// to end: the result has exactly the schema's parameter count.
pub proof fn lemma_concat_len<T>(s: Seq<usize>, blocks: Seq<Seq<T>>)
    requires
        blocks_fit(s, blocks),
    ensures
        concat(blocks).len() == param_count(s),
{
    lemma_concat_prefix(s, blocks, blocks.len() as int);
    assert(blocks.take(blocks.len() as int) =~= blocks);
}

/// Laying fitting blocks end to end and projecting transition `i` back out
/// gives block `i` exactly.
pub proof fn lemma_project_concat<T>(s: Seq<usize>, blocks: Seq<Seq<T>>, i: int)
    requires
        blocks_fit(s, blocks),
        0 <= i < blocks.len(),
    ensures
        block_of(s, concat(blocks), i) == blocks[i],
{
    lemma_concat_prefix(s, blocks, blocks.len() as int);
    assert(blocks.take(blocks.len() as int) =~= blocks);
}

/// Splitting a parameter vector of the right length into its per-transition
/// blocks and laying them end to end gives back the vector.
pub proof fn lemma_blocks_concat<T>(s: Seq<usize>, flat: Seq<T>)
    requires
        s.len() >= 1,
        flat.len() == param_count(s),
    ensures
        concat(Seq::new((s.len() - 1) as nat, |l: int| block_of(s, flat, l))) == flat,
{
    let n = s.len() - 1;
    let bs = Seq::new(n as nat, |l: int| block_of(s, flat, l));
    assert forall|k: int| 0 <= k <= n implies #[trigger] concat(bs.take(k)) == flat.take(
        offset(s, k),
    ) by {
        lemma_concat_take(s, flat, bs, k);
    }
    assert(bs.take(n) =~= bs);
    assert(flat.take(offset(s, n)) =~= flat);
}

proof fn lemma_concat_take<T>(s: Seq<usize>, flat: Seq<T>, bs: Seq<Seq<T>>, k: int)
    requires
        s.len() >= 1,
        flat.len() == param_count(s),
        bs == Seq::new((s.len() - 1) as nat, |l: int| block_of(s, flat, l)),
        0 <= k <= s.len() - 1,
    ensures
        concat(bs.take(k)) == flat.take(offset(s, k)),
    decreases k,
{
    lemma_offset_mono(s, k, s.len() - 1);
    lemma_offset_mono(s, 0, k);
    if k > 0 {
        lemma_concat_take(s, flat, bs, k - 1);
        assert(bs.take(k).drop_last() =~= bs.take(k - 1));
        lemma_offset_mono(s, 0, k - 1);
        lemma_block_size_nonneg(s, k - 1);
        assert(flat.take(offset(s, k)) =~= flat.take(offset(s, k - 1)) + bs[k - 1]);
    } else {
        assert(flat.take(0) =~= Seq::<T>::empty());
    }
}

impl LayerSchema {
    /// Number of layers.
    pub fn len(&self) -> (r: usize)
        ensures
            r == self@.len(),
    {
        self.sizes_ref().len()
    }

    /// Neuron count of layer `i`.
    pub fn size(&self, i: usize) -> (r: usize)
        requires
            i < self@.len(),
        ensures
            r == self@[i as int],
    {
        self.sizes_ref()[i]
    }

    /// Where transition `idx` starts in the flat parameter vector: the block
    /// sizes of all earlier transitions, summed. The one place that computes
    /// offsets, shared by projection and by assembly.
    pub fn block_offset(&self, idx: usize) -> (r: usize)
        requires
            self.wf(),
            idx < self@.len(),
        ensures
            r == offset(self@, idx as int),
    {
        let mut start: usize = 0;
        let mut l: usize = 0;
        while l < idx
            invariant
                self.wf(),
                idx < self@.len(),
                l <= idx,
                start == offset(self@, l as int),
            decreases idx - l,
        {
            proof {
                lemma_block_fits(self@, l as int);
            }
            start = start + (self.size(l) + 1) * self.size(l + 1);
            l = l + 1;
        }
        start
    }

    /// Shape of the weight matrix of transition `l`: `schema[l] + 1` rows (the
    /// first for the bias) and `schema[l + 1]` columns.
    pub fn transition_shape(&self, l: usize) -> (r: (usize, usize))
        requires
            self.wf(),
            l < self@.len() - 1,
        ensures
            r.0 == self@[l as int] + 1,
            r.1 == self@[l + 1],
            r.0 * r.1 == block_size(self@, l as int),
    {
        let n = self.len();
        proof {
            lemma_block_fits(self@, l as int);
            assert(l + 1 < n);
        }
        (self.size(l) + 1, self.size(l + 1))
    }

    /// Length of the flat parameter vector.
    pub fn param_count(&self) -> (r: usize)
        requires
            self.wf(),
        ensures
            r == param_count(self@),
    {
        self.block_offset(self.len() - 1)
    }

    /// Lays the per-transition blocks end to end, in transition order. Fails
    /// with `ParameterLength` unless there is one block per transition, each
    /// of `(schema[l] + 1) * schema[l + 1]` values.
    pub fn concat_blocks<T: Copy>(&self, blocks: &Vec<Vec<T>>) -> (r: Result<Vec<T>, NetError>)
        requires
            self.wf(),
        ensures
            r is Ok <==> blocks_fit(self@, views(blocks@)),
            r matches Ok(v) ==> v@ == concat(views(blocks@)) && v@.len() == param_count(self@),
            r matches Err(e) ==> e == NetError::ParameterLength,
    {
        let ghost bs = views(blocks@);
        let n = self.len() - 1;
        assert(bs.len() == blocks@.len());
        if blocks.len() != n {
            return Err(NetError::ParameterLength);
        }
        let mut l: usize = 0;
        while l < n
            invariant
                self.wf(),
                n == self@.len() - 1,
                bs == views(blocks@),
                blocks@.len() == n,
                l <= n,
                forall|k: int| 0 <= k < l ==> #[trigger] bs[k].len() == block_size(self@, k),
            decreases n - l,
        {
            proof {
                lemma_block_fits(self@, l as int);
            }
            let b = (self.size(l) + 1) * self.size(l + 1);
            assert(bs[l as int] == blocks@[l as int]@);
            if blocks[l].len() != b {
                return Err(NetError::ParameterLength);
            }
            l = l + 1;
        }
        let mut v: Vec<T> = Vec::new();
        let mut l: usize = 0;
        while l < n
            invariant
                self.wf(),
                n == self@.len() - 1,
                bs == views(blocks@),
                blocks_fit(self@, bs),
                l <= n,
                v@ == concat(bs.take(l as int)),
            decreases n - l,
        {
            let blk = &blocks[l];
            assert(bs[l as int] == blocks@[l as int]@);
            let mut j: usize = 0;
            while j < blk.len()
                invariant
                    l < n,
                    bs == views(blocks@),
                    blk@ == bs[l as int],
                    j <= blk@.len(),
                    v@ == concat(bs.take(l as int)) + blk@.take(j as int),
                decreases blk@.len() - j,
            {
                v.push(blk[j]);
                proof {
                    assert(blk@.take(j + 1) =~= blk@.take(j as int).push(blk@[j as int]));
                }
                j = j + 1;
            }
            proof {
                assert(bs.take(l + 1).drop_last() =~= bs.take(l as int));
                assert(blk@.take(j as int) =~= blk@);
            }
            l = l + 1;
        }
        proof {
            assert(bs.take(n as int) =~= bs);
            lemma_concat_prefix(self@, bs, n as int);
        }
        Ok(v)
    }
}

/// The weight matrix of transition `idx`: `(schema[idx] + 1) x schema[idx + 1]`
/// values read row-major out of the flat parameter vector, which must have
/// exactly the schema's parameter count.
pub fn project<T: Copy>(schema: &LayerSchema, flat: &Vec<T>, idx: usize) -> (m: Matrix<T>)
    requires
        schema.wf(),
        idx < schema@.len() - 1,
        flat@.len() == param_count(schema@),
    ensures
        m.wf(),
        m.nrows() == schema@[idx as int] + 1,
        m.ncols() == schema@[idx + 1],
        m.elems() == block_of(schema@, flat@, idx as int),
{
    proof {
        lemma_block_fits(schema@, idx as int);
    }
    let start = schema.block_offset(idx);
    let (rows, cols) = schema.transition_shape(idx);
    let end = start + rows * cols;
    let mut data: Vec<T> = Vec::new();
    let mut i: usize = start;
    while i < end
        invariant
            start <= i <= end,
            end <= flat@.len(),
            data@ == flat@.subrange(start as int, i as int),
        decreases end - i,
    {
        data.push(flat[i]);
        proof {
            assert(flat@.subrange(start as int, i + 1) =~= flat@.subrange(start as int, i as int).push(flat@[i as int]));
        }
        i = i + 1;
    }
    Matrix::from_parts(rows, cols, data)
}

} // verus!
