use vstd::prelude::*;
use crate::error::NetError;

verus! {

/// Every layer has at least one neuron, and there are at least two layers.
pub open spec fn schema_ok(s: Seq<usize>) -> bool {
    s.len() >= 2 && forall|i: int| 0 <= i < s.len() ==> #[trigger] s[i] > 0
}

/// Number of parameters of transition `l`: a weight matrix of
/// `(s[l] + 1) x s[l + 1]`, the extra row being the bias.
pub open spec fn block_size(s: Seq<usize>, l: int) -> int {
    (s[l] + 1) * s[l + 1]
}

/// Position in the flat parameter vector at which transition `idx` starts:
/// the sum of the block sizes of all earlier transitions.
pub open spec fn offset(s: Seq<usize>, idx: int) -> int
    decreases idx,
{
    if idx <= 0 {
        0
    } else {
        offset(s, idx - 1) + block_size(s, idx - 1)
    }
}

/// Length of the whole parameter vector.
pub open spec fn param_count(s: Seq<usize>) -> int {
    offset(s, s.len() - 1)
}

pub proof fn lemma_block_size_nonneg(s: Seq<usize>, l: int)
    ensures
        block_size(s, l) >= 0,
{
    assert((s[l] + 1) * s[l + 1] >= 0) by (nonlinear_arith);
}

/// Offsets grow with the transition index.
pub proof fn lemma_offset_mono(s: Seq<usize>, i: int, j: int)
    requires
        0 <= i <= j,
    ensures
        offset(s, i) <= offset(s, j),
    decreases j - i,
{
    if i < j {
        lemma_offset_mono(s, i, j - 1);
        lemma_block_size_nonneg(s, j - 1);
    }
}

/// In a valid schema whose parameter count fits in `usize`, every block and
/// every offset fits too.
pub proof fn lemma_block_fits(s: Seq<usize>, l: int)
    requires
        schema_ok(s),
        param_count(s) <= usize::MAX,
        0 <= l < s.len() - 1,
    ensures
        0 <= offset(s, l),
        offset(s, l) + block_size(s, l) == offset(s, l + 1),
        offset(s, l + 1) <= param_count(s),
        s[l] + 1 <= block_size(s, l),
{
    lemma_offset_mono(s, 0, l);
    lemma_offset_mono(s, l + 1, s.len() - 1);
    assert(s[l + 1] > 0);
    assert((s[l] + 1) * s[l + 1] >= s[l] + 1) by (nonlinear_arith)
        requires
            s[l + 1] >= 1,
            s[l] >= 0,
    ;
}

/// The neuron counts of a network's layers, input layer first.
pub struct LayerSchema {
    sizes: Vec<usize>,
}

impl View for LayerSchema {
    type V = Seq<usize>;

    closed spec fn view(&self) -> Seq<usize> {
        self.sizes@
    }
}

impl LayerSchema {
    pub(crate) fn sizes_ref(&self) -> (r: &Vec<usize>)
        ensures
            r@ == self@,
    {
        &self.sizes
    }

    /// A valid schema whose parameter count fits in `usize`.
    pub open spec fn wf(&self) -> bool {
        schema_ok(self@) && param_count(self@) <= usize::MAX
    }

    /// Builds a schema; fails on fewer than two layers or an empty layer, or
    /// when the parameter count would not fit in `usize`.
    pub fn new(sizes: Vec<usize>) -> (r: Result<LayerSchema, NetError>)
        ensures
            r is Ok <==> schema_ok(sizes@) && param_count(sizes@) <= usize::MAX,
            r matches Ok(s) ==> s@ == sizes@ && s.wf(),
            r == Err::<LayerSchema, NetError>(NetError::InvalidSchema) <==> !schema_ok(sizes@),
            r == Err::<LayerSchema, NetError>(NetError::TooLarge) <==> schema_ok(sizes@)
                && param_count(sizes@) > usize::MAX,
    {
        let n = sizes.len();
        if n < 2 {
            return Err(NetError::InvalidSchema);
        }
        let mut i: usize = 0;
        while i < n
            invariant
                n == sizes@.len(),
                i <= n,
                forall|k: int| 0 <= k < i ==> #[trigger] sizes@[k] > 0,
            decreases n - i,
        {
            if sizes[i] == 0 {
                return Err(NetError::InvalidSchema);
            }
            i = i + 1;
        }
        let mut total: usize = 0;
        let mut l: usize = 0;
        while l + 1 < n
            invariant
                n == sizes@.len(),
                n >= 2,
                l + 1 <= n,
                total as int == offset(sizes@, l as int),
                schema_ok(sizes@),
            decreases n - l,
        {
            let rows = match sizes[l].checked_add(1) {
                Some(r) => r,
                None => {
                    proof {
                        assert(sizes@[l as int + 1] >= 1);
                        assert(block_size(sizes@, l as int) > usize::MAX) by (nonlinear_arith)
                            requires
                                block_size(sizes@, l as int) == (sizes@[l as int] + 1)
                                    * sizes@[l as int + 1],
                                sizes@[l as int] + 1 > usize::MAX,
                                sizes@[l as int + 1] >= 1,
                        ;
                        lemma_offset_mono(sizes@, l as int + 1, n as int - 1);
                        lemma_offset_mono(sizes@, 0, l as int);
                    }
                    return Err(NetError::TooLarge);
                }
            };
            let b = match rows.checked_mul(sizes[l + 1]) {
                Some(b) => b,
                None => {
                    proof {
                        lemma_offset_mono(sizes@, l as int + 1, n as int - 1);
                        lemma_offset_mono(sizes@, 0, l as int);
                    }
                    return Err(NetError::TooLarge);
                }
            };
            total = match total.checked_add(b) {
                Some(t) => t,
                None => {
                    proof {
                        lemma_offset_mono(sizes@, l as int + 1, n as int - 1);
                    }
                    return Err(NetError::TooLarge);
                }
            };
            l = l + 1;
        }
        Ok(LayerSchema { sizes })
    }
}

} // verus!
