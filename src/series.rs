use vstd::prelude::*;

use crate::config::{mean_of, Config};
use crate::error::{EngineError, ItemFailure};
use crate::pixels::PixelsView;

verus! {

/// `out` is what gathering the per-item `results` gives: every value, in
/// order, when all items succeeded; else the first failing item.
pub open spec fn gathered(
    results: Seq<Result<u64, EngineError>>,
    out: Result<Seq<u64>, ItemFailure>,
) -> bool {
    match out {
        Ok(values) => {
            &&& values.len() == results.len()
            &&& forall|i: int|
                0 <= i < results.len() ==> #[trigger] results[i] == Ok::<u64, EngineError>(values[i])
        },
        Err(f) => {
            &&& f.index < results.len()
            &&& results[f.index as int] == Err::<u64, EngineError>(f.error)
            &&& forall|i: int| 0 <= i < f.index ==> (#[trigger] results[i]) is Ok
        },
    }
}

/// `results` are the outcomes of measuring `images` under `cfg`, item by item.
pub open spec fn measured(
    cfg: Config,
    images: Seq<PixelsView>,
    results: Seq<Result<u64, EngineError>>,
) -> bool {
    &&& results.len() == images.len()
    &&& forall|i: int|
        0 <= i < images.len() ==> match #[trigger] results[i] {
            Ok(v) => mean_of(cfg, images[i]) == Ok::<int, EngineError>(v as int),
            Err(e) => mean_of(cfg, images[i]) == Err::<int, EngineError>(e),
        }
}

pub open spec fn series_view(r: Result<Vec<u64>, ItemFailure>) -> Result<Seq<u64>, ItemFailure> {
    match r {
        Ok(v) => Ok(v@),
        Err(f) => Err(f),
    }
}

/// Assembles the per-item outcomes of a run, in input order, into the run's
/// series: all of it, or the first failure and no values at all.
pub fn gather_series(results: Vec<Result<u64, EngineError>>) -> (r: Result<Vec<u64>, ItemFailure>)
    ensures
        gathered(results@, series_view(r)),
{
    let mut values: Vec<u64> = Vec::new();
    let mut i: usize = 0;
    while i < results.len()
        invariant
            i <= results.len(),
            values@.len() == i,
            forall|k: int| 0 <= k < i ==> #[trigger] results@[k] == Ok::<u64, EngineError>(values@[k]),
        decreases results.len() - i,
    {
        match results[i] {
            Ok(v) => values.push(v),
            Err(e) => {
                assert(forall|k: int| 0 <= k < i ==> (#[trigger] results@[k]) is Ok);
                return Err(ItemFailure { index: i, error: e });
            },
        }
        i = i + 1;
    }
    Ok(values)
}

/// All or nothing: when any one item fails, the run yields no values.
pub proof fn lemma_all_or_nothing(
    results: Seq<Result<u64, EngineError>>,
    out: Result<Seq<u64>, ItemFailure>,
    i: int,
)
    requires
        gathered(results, out),
        0 <= i < results.len(),
        results[i] is Err,
    ensures
        out is Err,
{
    if out is Ok {
        assert(results[i] == Ok::<u64, EngineError>(out->Ok_0[i]));
    }
}

/// Gathering is a function of the per-item outcomes.
pub proof fn lemma_gathered_unique(
    results: Seq<Result<u64, EngineError>>,
    a: Result<Seq<u64>, ItemFailure>,
    b: Result<Seq<u64>, ItemFailure>,
)
    requires
        gathered(results, a),
        gathered(results, b),
    ensures
        a == b,
{
    match (a, b) {
        (Ok(x), Ok(y)) => {
            assert forall|i: int| 0 <= i < x.len() implies x[i] == y[i] by {
                assert(results[i] == Ok::<u64, EngineError>(x[i]));
                assert(results[i] == Ok::<u64, EngineError>(y[i]));
            }
            assert(x =~= y);
        },
        (Ok(x), Err(f)) => {
            assert(results[f.index as int] == Ok::<u64, EngineError>(x[f.index as int]));
        },
        (Err(f), Ok(y)) => {
            assert(results[f.index as int] == Ok::<u64, EngineError>(y[f.index as int]));
        },
        (Err(f), Err(g)) => {
            if f.index < g.index {
                assert(results[f.index as int] is Ok);
            } else if g.index < f.index {
                assert(results[g.index as int] is Ok);
            }
        },
    }
}

/// Determinism: measuring the same images under the same configuration
/// twice and gathering each time gives the same series.
pub proof fn lemma_run_deterministic(
    cfg: Config,
    images: Seq<PixelsView>,
    first: Seq<Result<u64, EngineError>>,
    second: Seq<Result<u64, EngineError>>,
    out_first: Result<Seq<u64>, ItemFailure>,
    out_second: Result<Seq<u64>, ItemFailure>,
)
    requires
        measured(cfg, images, first),
        measured(cfg, images, second),
        gathered(first, out_first),
        gathered(second, out_second),
    ensures
        out_first == out_second,
{
    assert forall|i: int| 0 <= i < first.len() implies first[i] == second[i] by {
        match (first[i], second[i]) {
            (Ok(x), Ok(y)) => {
                assert(mean_of(cfg, images[i]) == Ok::<int, EngineError>(x as int));
                assert(mean_of(cfg, images[i]) == Ok::<int, EngineError>(y as int));
            },
            _ => {},
        }
    }
    assert(first =~= second);
    lemma_gathered_unique(first, out_first, out_second);
}

} // verus!
