use std::sync::Arc;

use vstd::prelude::*;

use crate::server::types::{Backend, Query, WordData};

verus! {

/// Runs a query through each backend in turn.
pub struct Runner {
    backends: Vec<Box<dyn Backend>>,
}

/// The answers of the backends that succeeded, in order.
pub open spec fn successes_spec<'a>(results: Seq<Result<WordData<'a>, String>>) -> Seq<WordData<'a>>
    decreases results.len(),
{
    if results.len() == 0 {
        Seq::empty()
    } else {
        match results[0] {
            Ok(w) => seq![w] + successes_spec(results.drop_first()),
            Err(_) => successes_spec(results.drop_first()),
        }
    }
}

impl Runner {
    pub fn new(backends: Vec<Box<dyn Backend>>) -> (res: Self)
        ensures
            res.backend_count() == backends@.len(),
    {
        Runner { backends }
    }

    /// How many backends there are.
    pub closed spec fn backend_count(&self) -> nat {
        self.backends@.len()
    }

    /// Whether `results` holds, in order, an answer of each backend to `query`.
    pub closed spec fn answered<'a>(&self, query: Arc<Query<'a>>, results: Seq<Result<WordData<'a>, String>>) -> bool {
        &&& results.len() == self.backends@.len()
        &&& forall|i: int| 0 <= i < results.len() ==> (#[trigger] self.backends@[i]).answers(query, results[i])
    }

    /// Asks every backend, in order, the same query, and keeps the answers of
    /// those that succeed (see `successes_spec`).
    pub fn run<'a>(&self, query: Arc<Query<'a>>) -> (res: Vec<WordData<'a>>)
        ensures
            res@.len() <= self.backend_count(),
            exists|results: Seq<Result<WordData<'a>, String>>| #[trigger] self.answered(query, results) && res@ == successes_spec(results),
    {
        let mut results: Vec<Result<WordData<'a>, String>> = Vec::new();
        let mut i: usize = 0;
        while i < self.backends.len()
            invariant
                i <= self.backends@.len(),
                results@.len() == i,
                forall|j: int| 0 <= j < i ==> (#[trigger] self.backends@[j]).answers(query, results@[j]),
            decreases self.backends@.len() - i,
        {
            let r = self.backends[i].query(Arc::clone(&query));
            let ghost before = results@;
            results.push(r);
            assert(results@[i as int] == r);
            assert(forall|j: int| 0 <= j < i ==> results@[j] == before[j]);
            i = i + 1;
        }
        let ghost all = results@;
        assert(self.answered(query, all));
        Self::successes(results)
    }

    /// The answers of the backends that succeeded, in order.
    pub fn successes<'a>(results: Vec<Result<WordData<'a>, String>>) -> (res: Vec<WordData<'a>>)
        ensures
            res@ == successes_spec(results@),
            res@.len() <= results@.len(),
    {
        let mut out: Vec<WordData<'a>> = Vec::new();
        let mut results = results;
        let ghost all = results@;
        assert(out@ + successes_spec(results@) =~= successes_spec(all));
        while results.len() > 0
            invariant
                successes_spec(all) == out@ + successes_spec(results@),
                out@.len() + results@.len() <= all.len(),
            decreases results@.len(),
        {
            let ghost before = results@;
            let r = results.remove(0);
            assert(results@ =~= before.drop_first());
            match r {
                Ok(w) => {
                    let ghost prev = out@;
                    out.push(w);
                    assert(prev + (seq![w] + successes_spec(results@)) =~= out@ + successes_spec(results@));
                },
                Err(_) => {},
            }
        }
        assert(out@ + Seq::<WordData<'a>>::empty() =~= out@);
        out
    }
}

} // verus!
