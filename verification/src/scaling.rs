//! How a run's concurrency is divided among worker runtimes and worker
//! processes.

use vstd::prelude::*;

verus! {

/// The concurrency of worker `i` of `n` sharing `total`: the even share,
/// plus one for each of the first `total % n` workers.
pub open spec fn worker_share(total: nat, n: nat, i: nat) -> nat {
    total / n + if i < total % n {
        1nat
    } else {
        0nat
    }
}

/// Sum of a sequence of counts.
pub open spec fn sum_of(s: Seq<usize>) -> nat
    decreases s.len(),
{
    if s.len() == 0 {
        0
    } else {
        sum_of(s.drop_last()) + s.last() as nat
    }
}

/// Per-worker concurrency of a multi-runtime run: `None` for zero workers
/// (a run needs at least one), else the share of each worker in order.
/// Workers whose share is zero are skipped by the caller.
pub fn runtime_worker_concurrency(total: usize, workers: usize) -> (r: Option<Vec<usize>>)
    ensures
        workers == 0 ==> r is None,
        workers > 0 ==> (r matches Some(v) && v@.len() == workers && forall|i: int|
            0 <= i < workers ==> #[trigger] v@[i] == worker_share(
                total as nat,
                workers as nat,
                i as nat,
            )),
{
    if workers == 0 {
        return None;
    }
    let base = total / workers;
    let remainder = total % workers;
    let mut out: Vec<usize> = Vec::new();
    let mut i: usize = 0;
    while i < workers
        invariant
            workers > 0,
            base == total / workers,
            remainder == total % workers,
            i <= workers,
            out@.len() == i,
            forall|k: int|
                0 <= k < i ==> #[trigger] out@[k] == worker_share(
                    total as nat,
                    workers as nat,
                    k as nat,
                ),
        decreases workers - i,
    {
        proof {
            if i < remainder {
                vstd::arithmetic::div_mod::lemma_fundamental_div_mod(total as int, workers as int);
                if workers == 1 {
                    vstd::arithmetic::div_mod::lemma_mod_bound(total as int, 1);
                }
                assert(base + 1 <= usize::MAX) by (nonlinear_arith)
                    requires
                        workers * base + remainder == total,
                        workers >= 2,
                        remainder > 0,
                ;
            }
        }
        let share = if i < remainder {
            base + 1
        } else {
            base
        };
        out.push(share);
        i = i + 1;
    }
    Some(out)
}

/// The shares of all workers add up to the total concurrency, no two
/// shares differ by more than one, and earlier workers never get less than
/// later ones (the remainder goes to the first workers).
pub proof fn law_worker_shares_sum(total: nat, n: nat)
    requires
        n > 0,
    ensures
        share_prefix(total, n, n) == total,
        forall|i: nat, j: nat|
            i < n && j < n ==> worker_share(total, n, i) <= worker_share(total, n, j) + 1,
        forall|i: nat, j: nat|
            i <= j < n ==> worker_share(total, n, j) <= worker_share(total, n, i),
{
    vstd::arithmetic::div_mod::lemma_fundamental_div_mod(total as int, n as int);
    vstd::arithmetic::div_mod::lemma_mod_bound(total as int, n as int);
    lemma_share_prefix_all(total, n, n);
}

/// The sum of the first `k` workers' shares.
pub open spec fn share_prefix(total: nat, n: nat, k: nat) -> nat
    decreases k,
{
    if k == 0 {
        0
    } else {
        share_prefix(total, n, (k - 1) as nat) + worker_share(total, n, (k - 1) as nat)
    }
}

proof fn lemma_share_prefix_all(total: nat, n: nat, k: nat)
    requires
        n > 0,
        k <= n,
    ensures
        share_prefix(total, n, k) == k * (total / n) + if k < total % n {
            k
        } else {
            total % n
        },
    decreases k,
{
    vstd::arithmetic::div_mod::lemma_mod_bound(total as int, n as int);
    if k > 0 {
        lemma_share_prefix_all(total, n, (k - 1) as nat);
        let q = total / n;
        let r = total % n;
        let k1 = (k - 1) as nat;
        assert(k1 * q + q == k * q) by (nonlinear_arith)
            requires
                k1 + 1 == k,
        ;
        assert(share_prefix(total, n, k) == share_prefix(total, n, k1) + worker_share(total, n, k1));
        assert(share_prefix(total, n, k1) == k1 * q + if k1 < r { k1 } else { r });
        assert(worker_share(total, n, k1) == q + if k1 < r { 1nat } else { 0nat });
        if k1 < r {
            assert(share_prefix(total, n, k) == k * q + k1 + 1);
        } else {
            assert(share_prefix(total, n, k) == k * q + r);
        }
        assert(share_prefix(total, n, k) == k * q + if k < r { k } else { r });
    } else {
        assert(0 * (total / n) == 0);
    }
}

/// Threads per process of a multi-process run: the total concurrency
/// divided by the process count, rounded up.
pub fn process_concurrency(total: usize, processes: usize) -> (r: usize)
    requires
        processes > 0,
        total + processes <= usize::MAX,
    ensures
        r == (total + processes - 1) / (processes as int),
        r * processes >= total,
        r * processes < total + processes,
{
    let r = (total + processes - 1) / processes;
    proof {
        vstd::arithmetic::div_mod::lemma_fundamental_div_mod(
            (total + processes - 1) as int,
            processes as int,
        );
        vstd::arithmetic::div_mod::lemma_mod_bound((total + processes - 1) as int, processes as int);
        assert(r * processes >= total && r * processes < total + processes) by (nonlinear_arith)
            requires
                r * processes + (total + processes - 1) % (processes as int) == total + processes - 1,
                0 <= (total + processes - 1) % (processes as int) < processes,
        ;
    }
    r
}

} // verus!
