use crate::arff::{valid_catalog, valid_record, valid_records, ArffError, Class};
use crate::decision::{grown, height, live_count, correct_count, pruned_from, records_fit, DecisionTree, Node};
use crate::arff::{class_count, feature_count};
use crate::record::Record;
use vstd::prelude::*;

verus! {

/// What one fold of cross-validation measured.
#[derive(Debug)]
pub struct FoldResult {
    /// Test records whose class the tree predicted.
    pub correct: usize,
    /// Test records in the fold.
    pub tested: usize,
    /// Nodes reachable from the root of the fold's tree.
    pub live_nodes: usize,
    /// Longest root-to-leaf path of the fold's tree, in nodes.
    pub depth: usize,
}

/// Records per fold: `n / fold_count` rounded up.
pub open spec fn chunk_size(n: nat, fold_count: nat) -> nat {
    if fold_count == 0 {
        0
    } else {
        n / fold_count + if n % fold_count != 0 {
            1nat
        } else {
            0nat
        }
    }
}

/// Consecutive half-open ranges of `chunk` positions from `start` up to `n`; the last may
/// be shorter.
pub open spec fn folds_from(start: nat, chunk: nat, n: nat) -> Seq<(usize, usize)>
    decreases n - start,
{
    if start >= n || chunk == 0 {
        Seq::empty()
    } else {
        let end = if start + chunk > n {
            n
        } else {
            start + chunk
        };
        seq![(start as usize, end as usize)] + folds_from(end, chunk, n)
    }
}

/// Position `i` lies in range `k`.
pub open spec fn in_fold(fs: Seq<(usize, usize)>, k: int, i: int) -> bool {
    fs[k].0 <= i < fs[k].1
}

/// Position `i` lies in one of the ranges.
pub open spec fn covered(fs: Seq<(usize, usize)>, i: int) -> bool {
    exists|k: int| 0 <= k < fs.len() && (#[trigger] fs[k]).0 <= i < fs[k].1
}

/// The test folds of `n` records split `fold_count` ways.
pub open spec fn folds(n: nat, fold_count: nat) -> Seq<(usize, usize)> {
    folds_from(0, chunk_size(n, fold_count), n)
}

/// The test ranges of cross-validation over `n` records in `fold_count` folds.
pub fn fold_bounds(n: usize, fold_count: usize) -> (r: Vec<(usize, usize)>)
    requires
        fold_count > 0,
    ensures
        r@ == folds(n as nat, fold_count as nat),
{
    let whole: usize = n / fold_count;
    assert(n % fold_count != 0 ==> whole < n) by (nonlinear_arith)
        requires
            fold_count > 0,
            whole == n / fold_count,
    {
        if n % fold_count != 0 {
            assert(fold_count >= 2);
        }
    }
    let chunk: usize = if n % fold_count != 0 {
        whole + 1
    } else {
        whole
    };
    let mut r: Vec<(usize, usize)> = Vec::new();
    let mut start: usize = 0;
    while start < n
        invariant
            fold_count > 0,
            chunk == chunk_size(n as nat, fold_count as nat),
            start <= n,
            r@ + folds_from(start as nat, chunk as nat, n as nat) == folds(n as nat, fold_count as nat),
        decreases n - start,
    {
        assert(chunk > 0) by (nonlinear_arith)
            requires
                fold_count > 0,
                start < n,
                chunk == n / fold_count + if n % fold_count != 0 { 1int } else { 0int },
        {
            if n / fold_count == 0 {
                assert(n % fold_count == n);
            }
        }
        let end = if chunk > n - start {
            n
        } else {
            start + chunk
        };
        let ghost tail = folds_from(end as nat, chunk as nat, n as nat);
        assert(folds_from(start as nat, chunk as nat, n as nat) == seq![(start, end)] + tail);
        r.push((start, end));
        assert(r@ + tail =~= r@.drop_last() + (seq![(start, end)] + tail));
        start = end;
    }
    assert(r@ + folds_from(start as nat, chunk as nat, n as nat) =~= r@);
    r
}

proof fn lemma_folds_from_partition(start: nat, chunk: nat, n: nat)
    requires
        n <= usize::MAX,
    ensures
        forall|k: int|
            0 <= k < folds_from(start, chunk, n).len() ==> start <= (#[trigger] folds_from(start, chunk, n)[k]).0
                < folds_from(start, chunk, n)[k].1 <= n,
        forall|k1: int, k2: int|
            0 <= k1 < k2 < folds_from(start, chunk, n).len() ==> (#[trigger] folds_from(start, chunk, n)[k1]).1
                <= (#[trigger] folds_from(start, chunk, n)[k2]).0,
        chunk > 0 ==> forall|i: int| start <= i < n ==> #[trigger] covered(folds_from(start, chunk, n), i),
    decreases n - start,
{
    if start < n && chunk > 0 {
        let end: nat = if start + chunk > n {
            n
        } else {
            start + chunk
        };
        let tail = folds_from(end, chunk, n);
        let all = folds_from(start, chunk, n);
        lemma_folds_from_partition(end, chunk, n);
        assert(all == seq![(start as usize, end as usize)] + tail);
        assert forall|k: int| 0 <= k < all.len() implies start <= (#[trigger] all[k]).0 < all[k].1 <= n by {
            if k > 0 {
                assert(all[k] == tail[k - 1]);
            }
        }
        assert forall|k1: int, k2: int| 0 <= k1 < k2 < all.len() implies (#[trigger] all[k1]).1 <= (#[trigger] all[k2]).0 by {
            assert(all[k2] == tail[k2 - 1]);
            if k1 > 0 {
                assert(all[k1] == tail[k1 - 1]);
            }
        }
        assert forall|i: int| start <= i < n implies #[trigger] covered(all, i) by {
            if i < end {
                assert(all[0].0 <= i < all[0].1);
            } else {
                assert(covered(tail, i));
                let k = choose|k: int| 0 <= k < tail.len() && (#[trigger] tail[k]).0 <= i < tail[k].1;
                assert(all[k + 1] == tail[k]);
            }
        }
    }
}

/// Cross-validation folds partition the records: each position below `n` lies in exactly
/// one test fold, and every fold lies within `0..n`.
pub proof fn lemma_folds_partition(n: nat, fold_count: nat)
    requires
        fold_count > 0,
        n <= usize::MAX,
    ensures
        forall|k: int|
            0 <= k < folds(n, fold_count).len() ==> (#[trigger] folds(n, fold_count)[k]).0 < folds(
                n,
                fold_count,
            )[k].1 <= n,
        forall|i: int| 0 <= i < n ==> #[trigger] covered(folds(n, fold_count), i),
        forall|i: int, k1: int, k2: int|
            0 <= k1 < folds(n, fold_count).len() && 0 <= k2 < folds(n, fold_count).len()
                && #[trigger] in_fold(folds(n, fold_count), k1, i) && #[trigger] in_fold(
                folds(n, fold_count),
                k2,
                i,
            ) ==> k1 == k2,
{
    let chunk = chunk_size(n, fold_count);
    lemma_folds_from_partition(0, chunk, n);
    if n > 0 {
        assert(chunk > 0) by (nonlinear_arith)
            requires
                fold_count > 0,
                n > 0,
                chunk == n / fold_count + if n % fold_count != 0 { 1int } else { 0int },
        {
            if n / fold_count == 0 {
                assert(n % fold_count == n);
            }
        }
    }
    let f = folds(n, fold_count);
    assert forall|i: int, k1: int, k2: int|
        0 <= k1 < f.len() && 0 <= k2 < f.len() && #[trigger] in_fold(f, k1, i) && #[trigger] in_fold(f, k2, i) implies k1
            == k2 by {
        if k1 < k2 {
            assert(f[k1].1 <= f[k2].0);
        } else if k2 < k1 {
            assert(f[k2].1 <= f[k1].0);
        }
    }
}

/// Two records with the same class and features.
pub open spec fn same_record(a: Record, b: Record) -> bool {
    a.class == b.class && a.features@ == b.features@
}

/// Appends copies of `records[lo..hi]` to `out`.
fn copy_range(records: &[Record], lo: usize, hi: usize, out: &mut Vec<Record>)
    requires
        lo <= hi <= records@.len(),
    ensures
        final(out)@.len() == old(out)@.len() + (hi - lo),
        forall|j: int| 0 <= j < old(out)@.len() ==> #[trigger] final(out)@[j] == old(out)@[j],
        forall|j: int|
            0 <= j < hi - lo ==> same_record(#[trigger] final(out)@[old(out)@.len() + j], records@[lo + j]),
{
    let ghost start = out@;
    let mut i: usize = lo;
    while i < hi
        invariant
            lo <= i <= hi,
            hi <= records@.len(),
            out@.len() == start.len() + (i - lo),
            forall|j: int| 0 <= j < start.len() ==> #[trigger] out@[j] == start[j],
            forall|j: int| 0 <= j < i - lo ==> same_record(#[trigger] out@[start.len() + j], records@[lo + j]),
        decreases hi - i,
    {
        let copy = records[i].duplicate();
        out.push(copy);
        i = i + 1;
    }
}

/// Size of the part of a training set that trees are grown on when pruning: 70%, rounded
/// down; the rest validates the pruning.
pub open spec fn grow_len(len: nat) -> nat {
    len * 7 / 10
}

fn grow_len_of(len: usize) -> (r: usize)
    ensures
        r == grow_len(len as nat),
        len > 0 ==> r < len,
{
    let tens = len / 10;
    let ones = len % 10;
    let r = tens * 7 + ones * 7 / 10;
    assert(r == len * 7 / 10) by (nonlinear_arith)
        requires
            tens == len / 10,
            ones == len % 10,
            r == tens * 7 + ones * 7 / 10,
    {
        assert(len == tens * 10 + ones);
        assert(len * 7 == (tens * 7) * 10 + ones * 7);
    }
    assert(len > 0 ==> len * 7 / 10 < len) by (nonlinear_arith);
    r
}

/// Records of `n` left for training when `fold` is held out for testing.
pub open spec fn training_len(n: nat, fold: (usize, usize)) -> nat {
    (n - (fold.1 - fold.0)) as nat
}

/// The fold leaves at least one record to grow a tree on.
pub open spec fn fold_trainable(n: nat, fold: (usize, usize), prune: bool) -> bool {
    if prune {
        grow_len(training_len(n, fold)) > 0
    } else {
        training_len(n, fold) > 0
    }
}

/// Records with the same classes and features, in the same order.
pub open spec fn same_records(a: Seq<Record>, b: Seq<Record>) -> bool {
    &&& a.len() == b.len()
    &&& forall|i: int| 0 <= i < a.len() ==> same_record(#[trigger] a[i], b[i])
}

/// The records outside the test fold: those before it, then those after it.
pub open spec fn fold_training(recs: Seq<Record>, fold: (usize, usize)) -> Seq<Record> {
    recs.subrange(0, fold.0 as int) + recs.subrange(fold.1 as int, recs.len() as int)
}

/// `t` is a tree that training builds for the fold: grown from (copies of) its training
/// records, or, with `prune`, grown from their first 70% and then pruned.
pub open spec fn fold_tree(recs: Seq<Record>, cat: Seq<Class>, fold: (usize, usize), prune: bool, t: Seq<Node>) -> bool {
    exists|tr: Seq<Record>, t0: Seq<Node>|
        #![trigger same_records(tr, fold_base(recs, fold, prune)), grown_from(t0, tr, cat)]
        same_records(tr, fold_base(recs, fold, prune)) && grown_from(t0, tr, cat) && (if prune {
            pruned_from(t0, t)
        } else {
            t0 == t
        })
}

/// The records a fold's tree is grown from: its training records, or their first 70% when
/// pruning.
pub open spec fn fold_base(recs: Seq<Record>, fold: (usize, usize), prune: bool) -> Seq<Record> {
    let ft = fold_training(recs, fold);
    if prune {
        ft.take(grow_len(ft.len()) as int)
    } else {
        ft
    }
}

/// `t0` is what training builds from `data` under the catalog `cat`.
pub open spec fn grown_from(t0: Seq<Node>, data: Seq<Record>, cat: Seq<Class>) -> bool {
    exists|routed: Seq<Seq<usize>>, used: Seq<Seq<bool>>|
        grown(t0, data, class_count(cat), feature_count(cat), routed, used, seq![])
}

/// What one fold reports of its tree `t` over the test records.
pub open spec fn measured(t: Seq<Node>, test: Seq<Record>, r: FoldResult) -> bool {
    &&& t.len() > 0 ==> r.correct == correct_count(t, test, -1)
    &&& t.len() == 0 ==> r.correct == 0
    &&& r.live_nodes == live_count(t, t.len() as int)
    &&& r.depth == height(t, 0)
}

/// The fold's report is that of a tree that training builds for it.
pub open spec fn fold_ok(recs: Seq<Record>, cat: Seq<Class>, fold: (usize, usize), prune: bool, r: FoldResult) -> bool {
    exists|t: Seq<Node>| #[trigger] fold_tree(recs, cat, fold, prune, t) && measured(t, recs.subrange(fold.0 as int, fold.1 as int), r)
}

/// k-fold cross-validation over `records` in their given order. For each test fold, a tree
/// is trained on the records outside it (the part before the fold, then the part after);
/// with `prune`, on the first 70% of those, and then pruned against the rest. Fails with
/// `EmptyTrainingSet` when some fold leaves nothing to train on.
pub fn cross_validate(records: &[Record], class_tags: &Vec<Class>, fold_count: usize, prune: bool) -> (r:
    Result<Vec<FoldResult>, ArffError>)
    requires
        fold_count > 0,
        valid_catalog(class_tags@),
        valid_records(class_tags@, records@),
    ensures
        match r {
            Ok(results) => {
                let fs = folds(records@.len(), fold_count as nat);
                &&& forall|k: int| 0 <= k < fs.len() ==> fold_trainable(records@.len(), #[trigger] fs[k], prune)
                &&& results@.len() == fs.len()
                &&& forall|k: int|
                    0 <= k < fs.len() ==> (#[trigger] results@[k]).tested == fs[k].1 - fs[k].0
                        && results@[k].correct <= results@[k].tested
                &&& forall|k: int| 0 <= k < fs.len() ==> fold_ok(records@, class_tags@, fs[k], prune, #[trigger] results@[k])
            },
            Err(e) => e is EmptyTrainingSet && exists|k: int|
                0 <= k < folds(records@.len(), fold_count as nat).len() && !fold_trainable(
                    records@.len(),
                    #[trigger] folds(records@.len(), fold_count as nat)[k],
                    prune,
                ),
        },
{
    let n = records.len();
    let bounds = fold_bounds(n, fold_count);
    proof {
        lemma_folds_partition(n as nat, fold_count as nat);
    }
    let ghost cat = class_tags@;
    let mut results: Vec<FoldResult> = Vec::new();
    let mut k: usize = 0;
    while k < bounds.len()
        invariant
            bounds@ == folds(n as nat, fold_count as nat),
            n == records@.len(),
            cat == class_tags@,
            valid_catalog(cat),
            valid_records(cat, records@),
            forall|j: int| 0 <= j < bounds@.len() ==> (#[trigger] bounds@[j]).0 < bounds@[j].1 <= n,
            k <= bounds@.len(),
            results@.len() == k,
            forall|j: int| 0 <= j < k ==> fold_trainable(n as nat, #[trigger] bounds@[j], prune),
            forall|j: int|
                0 <= j < k ==> (#[trigger] results@[j]).tested == bounds@[j].1 - bounds@[j].0
                    && results@[j].correct <= results@[j].tested,
            forall|j: int| 0 <= j < k ==> fold_ok(records@, cat, bounds@[j], prune, #[trigger] results@[j]),
        decreases bounds@.len() - k,
    {
        let (lo, hi) = bounds[k];
        assert(lo < hi <= n) by {
            assert(bounds@[k as int].0 < bounds@[k as int].1 <= n);
        }
        let mut training: Vec<Record> = Vec::new();
        copy_range(records, 0, lo, &mut training);
        copy_range(records, hi, n, &mut training);
        let test = &records[lo..hi];
        assert forall|j: int| 0 <= j < training@.len() implies valid_record(cat, #[trigger] training@[j]) by {
            if j < lo {
                assert(same_record(training@[0 + j], records@[0 + j]));
                assert(valid_record(cat, records@[j]));
            } else {
                assert(same_record(training@[lo + (j - lo)], records@[hi + (j - lo)]));
                assert(valid_record(cat, records@[hi + (j - lo)]));
            }
        }
        assert(test@ == records@.subrange(lo as int, hi as int));
        assert forall|j: int| 0 <= j < test@.len() implies valid_record(cat, #[trigger] test@[j]) by {
            assert(test@[j] == records@[lo + j]);
        }
        let ghost ft = fold_training(records@, (lo, hi));
        assert(same_records(training@, ft)) by {
            assert forall|i: int| 0 <= i < training@.len() implies same_record(#[trigger] training@[i], ft[i]) by {
                if i < lo {
                    assert(same_record(training@[0 + i], records@[0 + i]));
                    assert(ft[i] == records@[i]);
                } else {
                    assert(same_record(training@[lo + (i - lo)], records@[hi + (i - lo)]));
                    assert(ft[i] == records@[hi + (i - lo)]);
                }
            }
        }
        let mut tree = DecisionTree::new(0, 0);
        if prune {
            let cut = grow_len_of(training.len());
            if cut == 0 {
                return Err(ArffError::EmptyTrainingSet);
            }
            let mut grow: Vec<Record> = Vec::new();
            copy_range(training.as_slice(), 0, cut, &mut grow);
            let mut check: Vec<Record> = Vec::new();
            copy_range(training.as_slice(), cut, training.len(), &mut check);
            assert forall|j: int| 0 <= j < grow@.len() implies valid_record(cat, #[trigger] grow@[j]) by {
                assert(same_record(grow@[0 + j], training@[0 + j]));
                assert(valid_record(cat, training@[j]));
            }
            assert forall|j: int| 0 <= j < check@.len() implies (#[trigger] check@[j]).features@.len() == cat.len() - 1 by {
                assert(same_record(check@[0 + j], training@[cut + j]));
                assert(valid_record(cat, training@[cut + j]));
            }
            tree.train(grow.as_slice(), class_tags);
            let ghost t0 = tree.spec_nodes();
            tree.prune(check.as_slice());
            proof {
                let base = ft.take(grow_len(ft.len()) as int);
                assert(same_records(grow@, base)) by {
                    assert forall|i: int| 0 <= i < grow@.len() implies same_record(#[trigger] grow@[i], base[i]) by {
                        assert(same_record(grow@[0 + i], training@[0 + i]));
                        assert(same_record(training@[i], ft[i]));
                    }
                }
                let (routed, used) = choose|routed: Seq<Seq<usize>>, used: Seq<Seq<bool>>|
                    grown(t0, grow@, class_count(class_tags@), feature_count(class_tags@), routed, used, seq![]);
                let fb = if prune {
                    ft.take(grow_len(ft.len()) as int)
                } else {
                    ft
                };
                assert(fb == base);
                assert(same_records(grow@, fb));
                assert(grown(t0, grow@, class_count(cat), feature_count(cat), routed, used, seq![]));
                assert(grown_from(t0, grow@, cat));
                assert(pruned_from(t0, tree.spec_nodes()));
                assert(fold_base(records@, (lo, hi), prune) == fb);
                assert(same_records(grow@, fold_base(records@, (lo, hi), prune)));
                assert(fold_tree(records@, cat, (lo, hi), prune, tree.spec_nodes()));
            }
        } else {
            if training.len() == 0 {
                return Err(ArffError::EmptyTrainingSet);
            }
            tree.train(training.as_slice(), class_tags);
            proof {
                let (routed, used) = choose|routed: Seq<Seq<usize>>, used: Seq<Seq<bool>>|
                    grown(tree.spec_nodes(), training@, class_count(class_tags@), feature_count(class_tags@), routed, used, seq![]);
                let fb = if prune {
                    ft.take(grow_len(ft.len()) as int)
                } else {
                    ft
                };
                assert(fb == ft);
                assert(same_records(training@, fb));
                assert(grown(tree.spec_nodes(), training@, class_count(cat), feature_count(cat), routed, used, seq![]));
                assert(grown_from(tree.spec_nodes(), training@, cat));
                assert(fold_base(records@, (lo, hi), prune) == fb);
                assert(same_records(training@, fold_base(records@, (lo, hi), prune)));
                assert(fold_tree(records@, cat, (lo, hi), prune, tree.spec_nodes()));
            }
        }
        assert(records_fit(test@, tree.feature_total())) by {
            assert forall|j: int| 0 <= j < test@.len() implies (#[trigger] test@[j]).features@.len() == tree.feature_total() by {
                assert(valid_record(cat, test@[j]));
            }
        }
        let correct = if tree.node_count() > 0 {
            tree.count_correct(test)
        } else {
            0
        };
        let live_nodes = tree.count_live_nodes();
        let depth = tree.max_depth();
        let ghost prev_results = results@;
        let report = FoldResult { correct, tested: hi - lo, live_nodes, depth };
        assert(measured(tree.spec_nodes(), records@.subrange(lo as int, hi as int), report));
        assert(fold_ok(records@, cat, bounds@[k as int], prune, report));
        results.push(report);
        assert forall|j: int| 0 <= j < k + 1 implies fold_ok(records@, cat, bounds@[j], prune, #[trigger] results@[j]) by {
            if j < k {
                assert(results@[j] == prev_results[j]);
            }
        }
        k = k + 1;
    }
    Ok(results)
}

/// Sum of the live-node counts and of the depths of the first `k` folds.
pub open spec fn shape_sums(results: Seq<FoldResult>, k: int) -> (nat, nat)
    decreases k,
{
    if k <= 0 {
        (0, 0)
    } else {
        let r = shape_sums(results, k - 1);
        ((r.0 + results[k - 1].live_nodes) as nat, (r.1 + results[k - 1].depth) as nat)
    }
}

/// The integer means of the live-node counts and of the depths over `fold_count` folds:
/// each sum divided by `fold_count`, rounded down.
pub fn average_shape(results: &Vec<FoldResult>, fold_count: usize) -> (r: (u128, u128))
    requires
        fold_count > 0,
    ensures
        r.0 == shape_sums(results@, results@.len() as int).0 / (fold_count as nat),
        r.1 == shape_sums(results@, results@.len() as int).1 / (fold_count as nat),
{
    let mut live: u128 = 0;
    let mut depth: u128 = 0;
    let mut i: usize = 0;
    while i < results.len()
        invariant
            i <= results@.len(),
            live == shape_sums(results@, i as int).0,
            depth == shape_sums(results@, i as int).1,
            live <= i * 0xffff_ffff_ffff_ffff,
            depth <= i * 0xffff_ffff_ffff_ffff,
        decreases results@.len() - i,
    {
        live = live + results[i].live_nodes as u128;
        depth = depth + results[i].depth as u128;
        i = i + 1;
    }
    (live / fold_count as u128, depth / fold_count as u128)
}

} // verus!
