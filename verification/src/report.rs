//! The aggregate outcome of one run.
//!
//! A run fails if extraction failed or any worker reported an error.  Every
//! worker's terminal error is retained, in worker order — not just the
//! first — so an operator sees the full failure set.

use vstd::prelude::*;

use crate::errors::ParseError;

verus! {

/// The error messages of the failed workers, in worker order.
pub open spec fn failed_workers(rs: Seq<Result<(), String>>) -> Seq<String>
    decreases rs.len(),
{
    if rs.len() == 0 {
        seq![]
    } else {
        let rest = failed_workers(rs.drop_first());
        match rs.first() {
            Ok(_) => rest,
            Err(m) => seq![m] + rest,
        }
    }
}

proof fn lemma_failed_workers_push(rs: Seq<Result<(), String>>, x: Result<(), String>)
    ensures
        failed_workers(rs.push(x)) == failed_workers(rs) + (match x {
            Ok(_) => Seq::<String>::empty(),
            Err(m) => seq![m],
        }),
    decreases rs.len(),
{
    let suffix = (match x {
        Ok(_) => Seq::<String>::empty(),
        Err(m) => seq![m],
    });
    if rs.len() == 0 {
        assert(rs.push(x).drop_first() =~= Seq::<Result<(), String>>::empty());
        assert(rs.push(x).first() == x);
        assert(rs.push(x).len() == 1);
        assert(failed_workers(Seq::<Result<(), String>>::empty()) =~= Seq::<String>::empty());
        assert(failed_workers(rs) + suffix =~= suffix);
        match x {
            Ok(_) => {
                assert(failed_workers(rs.push(x)) =~= suffix);
            },
            Err(m) => {
                assert(failed_workers(rs.push(x)) == seq![m] + failed_workers(
                    rs.push(x).drop_first(),
                ));
                assert(failed_workers(rs.push(x)) =~= suffix);
            },
        }
    } else {
        assert(rs.push(x).drop_first() =~= rs.drop_first().push(x));
        assert(rs.push(x).first() == rs.first());
        lemma_failed_workers_push(rs.drop_first(), x);
        match rs.first() {
            Ok(_) => {},
            Err(m) => {
                assert(seq![m] + (failed_workers(rs.drop_first()) + suffix) =~= (seq![m]
                    + failed_workers(rs.drop_first())) + suffix);
            },
        }
    }
}

/// A run has no failed-worker messages exactly when every worker succeeded.
pub proof fn lemma_failed_workers_empty(rs: Seq<Result<(), String>>)
    ensures
        failed_workers(rs).len() == 0 <==> (forall|i: int| 0 <= i < rs.len() ==> rs[i] is Ok),
    decreases rs.len(),
{
    if rs.len() > 0 {
        lemma_failed_workers_empty(rs.drop_first());
        assert(forall|i: int|
            0 <= i < rs.drop_first().len() ==> rs.drop_first()[i] == rs[i + 1]);
        if failed_workers(rs).len() == 0 {
            assert(rs.first() is Ok);
            assert forall|i: int| 0 <= i < rs.len() implies rs[i] is Ok by {
                if i > 0 {
                    assert(rs.drop_first()[i - 1] is Ok);
                }
            }
        }
        if forall|i: int| 0 <= i < rs.len() ==> rs[i] is Ok {
            assert(rs.first() == rs[0]);
            assert(forall|i: int| 0 <= i < rs.drop_first().len() ==> rs.drop_first()[i] is Ok);
        }
    }
}

/// The aggregate result of a run: the extraction error, if extraction
/// failed, and the terminal error of every failed worker.
#[derive(Debug)]
pub struct RunReport {
    pub parse_error: Option<ParseError>,
    pub worker_errors: Vec<String>,
}

impl RunReport {
    /// The run succeeded: extraction completed and every worker succeeded.
    pub open spec fn spec_success(&self) -> bool {
        self.parse_error is None && self.worker_errors@.len() == 0
    }

    pub fn is_success(&self) -> (r: bool)
        ensures
            r == self.spec_success(),
    {
        self.parse_error.is_none() && self.worker_errors.len() == 0
    }
}

/// Build the aggregate outcome of a run from the extraction outcome and the
/// collected per-worker results.  The report succeeds exactly when
/// extraction completed and every worker reported success; no worker error
/// is dropped.
#[verifier::loop_isolation(false)]
pub fn aggregate_run(parse_error: Option<ParseError>, worker_results: &Vec<Result<(), String>>) -> (r:
    RunReport)
    ensures
        r.parse_error == parse_error,
        r.worker_errors@ == failed_workers(worker_results@),
        r.spec_success() <==> (parse_error is None && (forall|i: int|
            0 <= i < worker_results@.len() ==> worker_results@[i] is Ok)),
{
    let ghost all = worker_results@;
    let mut worker_errors: Vec<String> = Vec::new();
    proof {
        assert(all.take(0) =~= Seq::<Result<(), String>>::empty());
        assert(worker_errors@ =~= failed_workers(all.take(0)));
    }
    let mut idx: usize = 0;
    while idx < worker_results.len()
        invariant
            idx <= worker_results.len(),
            worker_errors@ == failed_workers(all.take(idx as int)),
        decreases worker_results.len() - idx,
    {
        let ghost pre = all.take(idx as int);
        proof {
            lemma_failed_workers_push(pre, all[idx as int]);
            assert(all.take(idx as int + 1) =~= pre.push(all[idx as int]));
        }
        match &worker_results[idx] {
            Ok(_) => {
                proof {
                    assert(worker_errors@ =~= failed_workers(all.take(idx as int + 1)));
                }
            },
            Err(m) => {
                let msg = m.clone();
                worker_errors.push(msg);
                proof {
                    assert(worker_errors@ =~= failed_workers(all.take(idx as int + 1)));
                }
            },
        }
        idx = idx + 1;
    }
    proof {
        assert(all.take(all.len() as int) =~= all);
        lemma_failed_workers_empty(all);
    }
    RunReport { parse_error, worker_errors }
}

} // verus!
