//! The embedding capability: who turns text into vectors. The in-core
//! stand-in draws pseudo-random fixed-point components; an HTTP-backed
//! implementation lives with the I/O around the library.

use vstd::prelude::*;
use rand::Rng;
use crate::types::{SCALE, Vector, wf_components};

verus! {

/// Relies on rand's thread_rng/gen_range: a fixed-point fraction in
/// `[0, SCALE)`. Only the range is promised; the draw is random.
#[verifier::external_body]
fn random_fraction() -> (r: i64)
    ensures
        0 <= r < SCALE,
{
    rand::thread_rng().gen_range(0..1_000_000i64)
}

/// The embedding capability: a model name, a fixed dimensionality, and a
/// map from text to vectors of exactly that dimensionality with
/// components in fixed-point range.
pub trait Embedder: Sized {
    /// The dimensionality this embedder promises, left arbitrary for
    /// implementations outside the verified core.
    open spec fn spec_dims(&self) -> usize {
        vstd::pervasive::arbitrary()
    }

    fn model_id(&self) -> &str;

    fn dims(&self) -> (r: usize)
        ensures
            r == self.spec_dims(),
    ;

    fn embed(&self, text: &str) -> (r: Vector)
        ensures
            r@.len() == self.spec_dims(),
            wf_components(r@),
    ;
}

/// The pseudo-random stand-in embedder: deterministic in nothing but its
/// dimensionality; every component is a fresh draw in `[0, SCALE)`.
pub struct DummyEmbedder {
    pub model: String,
    pub dims_: usize,
}

impl DummyEmbedder {
    pub fn new(model: &str, dims: usize) -> (r: Self)
        ensures
            r.spec_dims() == dims,
    {
        DummyEmbedder { model: model.to_owned(), dims_: dims }
    }
}

impl Embedder for DummyEmbedder {
    open spec fn spec_dims(&self) -> usize {
        self.dims_
    }

    fn model_id(&self) -> &str {
        self.model.as_str()
    }

    fn dims(&self) -> (r: usize)
        ensures
            r == self.spec_dims(),
    {
        self.dims_
    }

    fn embed(&self, _text: &str) -> (r: Vector)
        ensures
            r@.len() == self.spec_dims(),
            wf_components(r@),
    {
        let mut v: Vec<i64> = Vec::new();
        let mut i: usize = 0;
        while i < self.dims_
            invariant
                i <= self.dims_,
                v@.len() == i,
                wf_components(v@),
            decreases self.dims_ - i,
        {
            let ghost pre = v@;
            let x = random_fraction();
            v.push(x);
            proof {
                assert forall|j: int| 0 <= j < v@.len() implies -SCALE <= #[trigger] v@[j]
                    <= SCALE by {
                    if j < pre.len() {
                        assert(v@[j] == pre[j]);
                    }
                }
            }
            i = i + 1;
        }
        Vector(v)
    }
}

} // verus!
