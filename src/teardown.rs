//! Bulk teardown: every entry is finalized, whatever the earlier ones did, and
//! the failures are handed back together at the end.
use vstd::prelude::*;

verus! {

/// What a teardown hands back when at least one entry failed to finalize.
pub enum TeardownFailure<E> {
    /// Exactly one entry failed; its error is passed on as it is.
    Single(E),
    /// Two or more entries failed; their errors, in the order they came.
    Many(Vec<E>),
}

/// The errors among `outcomes`, in order.
pub open spec fn errors_of<E>(outcomes: Seq<Result<(), E>>) -> Seq<E>
    decreases outcomes.len(),
{
    if outcomes.len() == 0 {
        Seq::empty()
    } else {
        let rest = errors_of(outcomes.drop_last());
        match outcomes.last() {
            Ok(_) => rest,
            Err(e) => rest.push(e),
        }
    }
}

/// The errors that a teardown result carries.
pub open spec fn failures_of<E>(result: Result<(), TeardownFailure<E>>) -> Seq<E> {
    match result {
        Ok(_) => Seq::empty(),
        Err(TeardownFailure::Single(e)) => seq![e],
        Err(TeardownFailure::Many(errors)) => errors@,
    }
}

/// A teardown result is `Ok` when nothing failed, `Single` when one entry
/// failed, and `Many` only for two or more failures.
pub open spec fn well_shaped<E>(result: Result<(), TeardownFailure<E>>) -> bool {
    match result {
        Err(TeardownFailure::Many(errors)) => errors@.len() >= 2,
        _ => true,
    }
}

/// `order` lists every key of `entries` once; `outcomes[2 * i]` is what
/// `finalize_key` returned for the `i`-th key, and `outcomes[2 * i + 1]` what
/// `finalize_value` returned for its value.
pub open spec fn finalizes_all<K, V, E, FK: Fn(K) -> Result<(), E>, FV: Fn(V) -> Result<(), E>>(
    entries: Map<K, V>,
    finalize_key: FK,
    finalize_value: FV,
    order: Seq<K>,
    outcomes: Seq<Result<(), E>>,
) -> bool {
    &&& order.no_duplicates()
    &&& order.to_set() == entries.dom()
    &&& outcomes.len() == 2 * order.len()
    &&& forall|i: int| 0 <= i < order.len() ==> {
        &&& finalize_key.ensures((#[trigger] order[i],), outcomes[2 * i])
        &&& finalize_value.ensures((entries[order[i]],), outcomes[2 * i + 1])
    }
}

impl<E> TeardownFailure<E> {
    /// The number of failures carried.
    pub fn count(&self) -> (n: usize)
        ensures
            n == failures_of(Err::<(), TeardownFailure<E>>(*self)).len(),
    {
        match self {
            TeardownFailure::Single(_) => 1,
            TeardownFailure::Many(errors) => errors.len(),
        }
    }
}

/// Turns the failures collected over a teardown into its result: nothing for
/// none, the error itself for one, all of them together for more.
pub fn aggregate<E>(failures: Vec<E>) -> (result: Result<(), TeardownFailure<E>>)
    ensures
        failures_of(result) == failures@,
        well_shaped(result),
{
    let mut failures = failures;
    if failures.len() == 0 {
        Ok(())
    } else if failures.len() == 1 {
        let ghost before = failures@;
        let e = failures.pop().unwrap();
        assert(seq![e] =~= before);
        Err(TeardownFailure::Single(e))
    } else {
        Err(TeardownFailure::Many(failures))
    }
}

} // verus!
