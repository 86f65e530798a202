//! The dependency graph of a block, as the scheduler builds it from the
//! transactions' access lists.
//!
//! Transaction `i` depends on transaction `p` when `p` is the last
//! transaction before `i` whose access list names a key that `i`'s list
//! names too. Every transaction carries the cost of the most expensive
//! chain of dependencies that ends in it; the dependency through which
//! that chain runs is its critical parent.
use vstd::prelude::*;
use crate::types::{TxAccess, TxIdx};
use crate::outside::{boxcar_capacity, boxcar_items, boxcar_new, boxcar_push, fx_build_hasher, fx_map_get, fx_map_insert, fx_map_with_capacity, ResourceMap};

verus! {

broadcast use {
    vstd::seq_lib::lemma_seq_contains_after_push,
    vstd::seq_lib::lemma_seq_concat_contains_all_elements,
    vstd::seq_lib::lemma_seq_empty_contains_nothing,
};

/// The keys that the access list of transaction `i` names, in order.
pub open spec fn keys_of(s: Seq<TxAccess>, i: int) -> Seq<u64> {
    s[i].access_list@
}

/// The gas limit of transaction `i`, cut to 32 bits as the cost model counts it.
pub open spec fn gas_of(s: Seq<TxAccess>, i: int) -> int {
    (s[i].gas_limit as u32) as int
}

/// The last transaction before `i` whose access list names `key`.
pub open spec fn last_toucher(s: Seq<TxAccess>, i: int, key: u64) -> Option<int>
    decreases i,
{
    if i <= 0 {
        None
    } else if keys_of(s, i - 1).contains(key) {
        Some(i - 1)
    } else {
        last_toucher(s, i - 1, key)
    }
}

/// The heaviest dependency among the first `k` keys of transaction `i`,
/// given the path costs `costs` of the transactions before it: its cost
/// and the transaction it leads to. Keys are taken in order, a dependency
/// replaces the current one only when it is strictly heavier, and the
/// search starts from cost 0 with no dependency.
pub open spec fn critical_scan(s: Seq<TxAccess>, costs: Seq<int>, i: int, k: int) -> (int, Option<int>)
    decreases k,
{
    if k <= 0 {
        (0, None)
    } else {
        let prev = critical_scan(s, costs, i, k - 1);
        match last_toucher(s, i, keys_of(s, i)[k - 1]) {
            Some(p) => if costs[p] > prev.0 {
                (costs[p], Some(p))
            } else {
                prev
            },
            None => prev,
        }
    }
}

/// The path costs of the first `n` transactions: the cost of the heaviest
/// dependency of each, plus its own gas.
pub open spec fn path_costs(s: Seq<TxAccess>, n: int) -> Seq<int>
    decreases n,
{
    if n <= 0 {
        Seq::empty()
    } else {
        let prev = path_costs(s, n - 1);
        prev.push(critical_scan(s, prev, n - 1, keys_of(s, n - 1).len() as int).0 + gas_of(s, n - 1))
    }
}

/// The critical parent of transaction `i`: the transaction through which its
/// heaviest chain of dependencies runs (none when no dependency weighs more
/// than 0).
pub open spec fn critical_parent(s: Seq<TxAccess>, i: int) -> Option<int> {
    critical_scan(s, path_costs(s, i), i, keys_of(s, i).len() as int).1
}

/// The path costs of the first `n` transactions all fit in a `u32`.
pub open spec fn costs_fit(s: Seq<TxAccess>, n: int) -> bool {
    forall|j: int| 0 <= j < n ==> #[trigger] path_costs(s, n)[j] <= u32::MAX
}

/// The distinct dependencies met among the first `k` keys of transaction
/// `i`, in the order they are first met.
pub open spec fn parent_scan(s: Seq<TxAccess>, i: int, k: int) -> Seq<int>
    decreases k,
{
    if k <= 0 {
        Seq::empty()
    } else {
        let prev = parent_scan(s, i, k - 1);
        match last_toucher(s, i, keys_of(s, i)[k - 1]) {
            Some(p) => if prev.contains(p) {
                prev
            } else {
                prev.push(p)
            },
            None => prev,
        }
    }
}

/// The dependencies (parents) of transaction `i`, in the order its access
/// list first leads to them.
pub open spec fn parents_of(s: Seq<TxAccess>, i: int) -> Seq<int> {
    parent_scan(s, i, keys_of(s, i).len() as int)
}

/// The parents of transaction `i` as the scheduler stores them: cut to 16 bits.
pub open spec fn stored_parents(s: Seq<TxAccess>, i: int) -> Seq<u16> {
    parents_of(s, i).map_values(|p: int| p as u16)
}

/// The transactions before `n` that depend on `p`, in increasing order.
pub open spec fn children_upto(s: Seq<TxAccess>, p: int, n: int) -> Seq<usize>
    decreases n,
{
    if n <= 0 {
        Seq::empty()
    } else if parents_of(s, n - 1).contains(p) {
        children_upto(s, p, n - 1).push((n - 1) as usize)
    } else {
        children_upto(s, p, n - 1)
    }
}

/// The transactions before `n` whose critical parent is `p`, in increasing order.
pub open spec fn critical_children_upto(s: Seq<TxAccess>, p: int, n: int) -> Seq<usize>
    decreases n,
{
    if n <= 0 {
        Seq::empty()
    } else if critical_parent(s, n - 1) == Some(p) {
        critical_children_upto(s, p, n - 1).push((n - 1) as usize)
    } else {
        critical_children_upto(s, p, n - 1)
    }
}

/// The transactions before `n` that have no critical parent, in increasing order.
pub open spec fn roots_upto(s: Seq<TxAccess>, n: int) -> Seq<usize>
    decreases n,
{
    if n <= 0 {
        Seq::empty()
    } else if critical_parent(s, n - 1) is None {
        roots_upto(s, n - 1).push((n - 1) as usize)
    } else {
        roots_upto(s, n - 1)
    }
}

/// What the resource map holds once the first `i` transactions are in:
/// each key that one of them names maps to the last of them that names it
/// and that transaction's path cost.
pub open spec fn resource_model(s: Seq<TxAccess>, i: int) -> Map<u64, (usize, u32)> {
    Map::new(
        |key: u64| last_toucher(s, i, key) is Some,
        |key: u64| {
            let p = last_toucher(s, i, key)->0;
            (p as usize, path_costs(s, i)[p] as u32)
        },
    )
}

// ---------------------------------------------------------------------
// Lemmas
// ---------------------------------------------------------------------

/// The last toucher of a key comes before `i` and names the key.
pub proof fn lemma_last_toucher(s: Seq<TxAccess>, i: int, key: u64)
    ensures
        last_toucher(s, i, key) matches Some(p) ==> 0 <= p < i && keys_of(s, p).contains(key),
        last_toucher(s, i, key) is None ==> forall|j: int| 0 <= j < i ==> !#[trigger] keys_of(s, j).contains(key),
        last_toucher(s, i, key) matches Some(p) ==> forall|j: int| p < j < i ==> !#[trigger] keys_of(s, j).contains(key),
    decreases i,
{
    if i > 0 {
        lemma_last_toucher(s, i - 1, key);
    }
}

/// `path_costs(s, n)` has `n` entries, and each is the same in every longer table.
pub proof fn lemma_path_costs_prefix(s: Seq<TxAccess>, m: int, n: int)
    requires
        0 <= m <= n,
    ensures
        path_costs(s, n).len() == n,
        path_costs(s, n).subrange(0, m) == path_costs(s, m),
        forall|j: int| 0 <= j < n ==> #[trigger] path_costs(s, n)[j] >= 0,
    decreases n,
{
    if n > 0 {
        lemma_path_costs_prefix(s, n - 1, n - 1);
        lemma_critical_scan(s, path_costs(s, n - 1), n - 1, keys_of(s, n - 1).len() as int);
        if m < n {
            lemma_path_costs_prefix(s, m, n - 1);
            assert(path_costs(s, n).subrange(0, m) =~= path_costs(s, n - 1).subrange(0, m));
        } else {
            lemma_path_costs_prefix(s, n - 1, n - 1);
            assert(path_costs(s, n).subrange(0, m) =~= path_costs(s, n));
        }
    }
}

/// The scan yields either cost 0 and no parent, or a dependency `p < i`
/// together with its cost, which is above 0.
pub proof fn lemma_critical_scan(s: Seq<TxAccess>, costs: Seq<int>, i: int, k: int)
    ensures
        critical_scan(s, costs, i, k).1 is None ==> critical_scan(s, costs, i, k).0 == 0,
        critical_scan(s, costs, i, k).1 matches Some(p) ==> 0 <= p < i && critical_scan(s, costs, i, k).0 == costs[p]
            && costs[p] > 0,
    decreases k,
{
    if k > 0 {
        lemma_critical_scan(s, costs, i, k - 1);
        let key = keys_of(s, i)[k - 1];
        lemma_last_toucher(s, i, key);
    }
}


/// The dependencies found by the scan are distinct transactions before `i`.
pub proof fn lemma_parent_scan(s: Seq<TxAccess>, i: int, k: int)
    ensures
        forall|j: int| 0 <= j < parent_scan(s, i, k).len() ==> 0 <= #[trigger] parent_scan(s, i, k)[j] < i,
        parent_scan(s, i, k).no_duplicates(),
    decreases k,
{
    if k > 0 {
        lemma_parent_scan(s, i, k - 1);
        lemma_last_toucher(s, i, keys_of(s, i)[k - 1]);
    }
}

/// The children of `p` among the first `n` transactions are exactly the
/// transactions before `n` that list `p` as a parent, in increasing order.
pub proof fn lemma_children_upto(s: Seq<TxAccess>, p: int, n: int)
    requires
        0 <= n <= usize::MAX,
    ensures
        forall|c: usize| #[trigger] children_upto(s, p, n).contains(c) <==> (c < n && parents_of(s, c as int).contains(p)),
        forall|a: int, b: int| 0 <= a < b < children_upto(s, p, n).len() ==> children_upto(s, p, n)[a] < children_upto(s, p, n)[b],
        forall|a: int| 0 <= a < children_upto(s, p, n).len() ==> children_upto(s, p, n)[a] < n,
    decreases n,
{
    if n > 0 {
        lemma_children_upto(s, p, n - 1);
        let prev = children_upto(s, p, n - 1);
        assert forall|c: usize| #[trigger] children_upto(s, p, n).contains(c) <==> (c < n && parents_of(s, c as int).contains(p)) by {
            if parents_of(s, n - 1).contains(p) {
                assert(children_upto(s, p, n) == prev.push((n - 1) as usize));
            }
        }
    }
}

/// The transactions whose critical parent is `p`, among the first `n`.
pub proof fn lemma_critical_children_upto(s: Seq<TxAccess>, p: int, n: int)
    requires
        0 <= n <= usize::MAX,
    ensures
        forall|c: usize| #[trigger] critical_children_upto(s, p, n).contains(c) <==> (c < n && critical_parent(s, c as int) == Some(p)),
        forall|a: int, b: int| 0 <= a < b < critical_children_upto(s, p, n).len() ==> critical_children_upto(s, p, n)[a] < critical_children_upto(s, p, n)[b],
        forall|a: int| 0 <= a < critical_children_upto(s, p, n).len() ==> critical_children_upto(s, p, n)[a] < n,
        critical_children_upto(s, p, n).len() <= n,
    decreases n,
{
    if n > 0 {
        lemma_critical_children_upto(s, p, n - 1);
        let prev = critical_children_upto(s, p, n - 1);
        assert forall|c: usize| #[trigger] critical_children_upto(s, p, n).contains(c) <==> (c < n && critical_parent(s, c as int) == Some(p)) by {
            if critical_parent(s, n - 1) == Some(p) {
                assert(critical_children_upto(s, p, n) == prev.push((n - 1) as usize));
            }
        }
    }
}

/// The transactions without a critical parent, among the first `n`.
pub proof fn lemma_roots_upto(s: Seq<TxAccess>, n: int)
    requires
        0 <= n <= usize::MAX,
    ensures
        forall|c: usize| #[trigger] roots_upto(s, n).contains(c) <==> (c < n && critical_parent(s, c as int) is None),
        forall|a: int, b: int| 0 <= a < b < roots_upto(s, n).len() ==> roots_upto(s, n)[a] < roots_upto(s, n)[b],
        forall|a: int| 0 <= a < roots_upto(s, n).len() ==> roots_upto(s, n)[a] < n,
    decreases n,
{
    if n > 0 {
        lemma_roots_upto(s, n - 1);
        let prev = roots_upto(s, n - 1);
        assert forall|c: usize| #[trigger] roots_upto(s, n).contains(c) <==> (c < n && critical_parent(s, c as int) is None) by {
            if critical_parent(s, n - 1) is None {
                assert(roots_upto(s, n) == prev.push((n - 1) as usize));
            }
        }
    }
}

// ---------------------------------------------------------------------
// Building the graph
// ---------------------------------------------------------------------

/// Whether `v` holds `x`.
fn vec_contains(v: &Vec<usize>, x: usize) -> (b: bool)
    ensures
        b == v@.contains(x),
{
    let mut k: usize = 0;
    while k < v.len()
        invariant
            k <= v.len(),
            forall|j: int| 0 <= j < k ==> v@[j] != x,
        decreases v.len() - k,
    {
        if v[k] == x {
            return true;
        }
        k = k + 1;
    }
    false
}

/// First pass over the keys of transaction `i`: finds its dependencies in
/// the resource map, records `i` as a child of each of them (once), and
/// returns the heaviest dependency's cost, the heaviest dependency
/// (`usize::MAX` for none) and the dependencies cut to 16 bits.
fn scan_dependencies(
    txs: &Vec<TxAccess>,
    n: usize,
    i: usize,
    res: &ResourceMap,
    children: &mut Vec<Vec<TxIdx>>,
) -> (r: (u32, usize, Vec<u16>))
    requires
        i < n <= txs.len(),
        costs_fit(txs@, n as int),
        res@ == resource_model(txs@, i as int),
        old(children)@.len() == n,
        forall|p: int| 0 <= p < n ==> (#[trigger] old(children)@[p])@ == children_upto(txs@, p, i as int),
    ensures
        final(children)@.len() == n,
        forall|p: int| 0 <= p < n ==> (#[trigger] final(children)@[p])@ == children_upto(txs@, p, i + 1),
        r.2@ == stored_parents(txs@, i as int),
        r.0 as int == critical_scan(txs@, path_costs(txs@, i as int), i as int, keys_of(txs@, i as int).len() as int).0,
        (if r.1 == usize::MAX { None } else { Some(r.1 as int) }) == critical_parent(txs@, i as int),
{
    let ghost s = txs@;
    let ghost costs = path_costs(s, i as int);
    proof {
        lemma_path_costs_prefix(s, i as int, n as int);
        lemma_path_costs_prefix(s, n as int, n as int);
        assert forall|j: int| 0 <= j < i implies 0 <= #[trigger] costs[j] <= u32::MAX by {
            assert(costs[j] == path_costs(s, n as int)[j]);
        }
    }
    let keys = &txs[i].access_list;
    let mut cost: u32 = 0;
    let mut crit: usize = usize::MAX;
    let mut parents_i: Vec<u16> = Vec::new();
    let mut k: usize = 0;
    while k < keys.len()
        invariant
            s == txs@,
            costs == path_costs(s, i as int),
            costs.len() == i,
            forall|j: int| 0 <= j < i ==> 0 <= #[trigger] costs[j] <= u32::MAX,
            i < n <= txs.len(),
            keys@ == keys_of(s, i as int),
            k <= keys.len(),
            res@ == resource_model(s, i as int),
            (cost as int, if crit == usize::MAX { None } else { Some(crit as int) }) == critical_scan(s, costs, i as int, k as int),
            children@.len() == n,
            forall|p: int| 0 <= p < n ==> (#[trigger] children@[p])@ == children_upto(s, p, i as int) + (if parent_scan(s, i as int, k as int).contains(p) {
                seq![i]
            } else {
                Seq::empty()
            }),
            parents_i@ == parent_scan(s, i as int, k as int).map_values(|p: int| p as u16),
        decreases keys.len() - k,
    {
        let key = keys[k];
        proof {
            lemma_last_toucher(s, i as int, key);
            lemma_parent_scan(s, i as int, k as int);
            lemma_critical_scan(s, costs, i as int, k as int);
        }
        match fx_map_get(res, key) {
            Some(entry) => {
                let p = entry.0;
                let c = entry.1;
                assert(last_toucher(s, i as int, key) == Some(p as int));
                assert(c as int == costs[p as int]);
                if c > cost {
                    cost = c;
                    crit = p;
                }
                proof {
                    lemma_children_upto(s, p as int, i as int);
                }
                if !vec_contains(&children[p], i) {
                    proof {
                        if parent_scan(s, i as int, k as int).contains(p as int) {
                            assert(children@[p as int]@.contains(i));
                        }
                    }
                    children[p].push(i);
                    parents_i.push(p as u16);
                    assert(parents_i@ =~= parent_scan(s, i as int, k + 1).map_values(|p: int| p as u16));
                } else {
                    assert(parent_scan(s, i as int, k as int).contains(p as int));
                }
                assert forall|q: int| 0 <= q < n implies (#[trigger] children@[q])@ == children_upto(s, q, i as int) + (if parent_scan(s, i as int, k + 1).contains(q) {
                    seq![i]
                } else {
                    Seq::empty()
                }) by {
                    if q != p as int {
                        assert(parent_scan(s, i as int, k + 1).contains(q) == parent_scan(s, i as int, k as int).contains(q));
                    }
                }
            },
            None => {
                assert(last_toucher(s, i as int, key) is None);
            },
        }
        k = k + 1;
    }
    proof {
        assert forall|p: int| 0 <= p < n implies (#[trigger] children@[p])@ == children_upto(s, p, i + 1) by {
            assert(parents_of(s, i as int) == parent_scan(s, i as int, k as int));
        }
    }
    (cost, crit, parents_i)
}


/// The cost of the heaviest dependency of transaction `i` (see
/// `critical_scan`), read off the resource map.
fn heaviest_dependency_cost(txs: &Vec<TxAccess>, i: usize, res: &ResourceMap) -> (cost: u32)
    requires
        i < txs.len(),
        costs_fit(txs@, i as int),
        res@ == resource_model(txs@, i as int),
    ensures
        cost as int == critical_scan(txs@, path_costs(txs@, i as int), i as int, keys_of(txs@, i as int).len() as int).0,
{
    let ghost s = txs@;
    let ghost costs = path_costs(s, i as int);
    proof {
        lemma_path_costs_prefix(s, i as int, i as int);
    }
    let keys = &txs[i].access_list;
    let mut cost: u32 = 0;
    let mut k: usize = 0;
    while k < keys.len()
        invariant
            s == txs@,
            costs == path_costs(s, i as int),
            costs.len() == i,
            forall|j: int| 0 <= j < i ==> 0 <= #[trigger] costs[j] <= u32::MAX,
            i < txs.len(),
            keys@ == keys_of(s, i as int),
            k <= keys.len(),
            res@ == resource_model(s, i as int),
            cost as int == critical_scan(s, costs, i as int, k as int).0,
        decreases keys.len() - k,
    {
        let key = keys[k];
        proof {
            lemma_last_toucher(s, i as int, key);
            lemma_critical_scan(s, costs, i as int, k as int);
        }
        match fx_map_get(res, key) {
            Some(entry) => {
                assert(last_toucher(s, i as int, key) == Some(entry.0 as int));
                if entry.1 > cost {
                    cost = entry.1;
                }
            },
            None => {},
        }
        k = k + 1;
    }
    cost
}

/// Whether the path costs of the first `block_size` transactions all fit
/// in 32 bits, which `ChironScheduler::new` requires.
pub fn critical_costs_fit(block_size: usize, txs: &Vec<TxAccess>) -> (b: bool)
    requires
        block_size <= txs.len(),
    ensures
        b == costs_fit(txs@, block_size as int),
{
    let ghost s = txs@;
    let mut res = fx_map_with_capacity(txs.len(), fx_build_hasher());
    assert(res@ =~= resource_model(s, 0));
    let mut i: usize = 0;
    while i < block_size
        invariant
            s == txs@,
            i <= block_size <= txs.len(),
            costs_fit(s, i as int),
            res@ == resource_model(s, i as int),
        decreases block_size - i,
    {
        let cost = heaviest_dependency_cost(txs, i, &res);
        let total: u64 = cost as u64 + (txs[i].gas_limit as u32) as u64;
        proof {
            lemma_path_costs_prefix(s, i as int, i + 1);
            lemma_path_costs_prefix(s, i + 1, i + 1);
            lemma_path_costs_prefix(s, i + 1, block_size as int);
            lemma_path_costs_prefix(s, block_size as int, block_size as int);
            assert(total as int == path_costs(s, i + 1)[i as int]);
        }
        if total > u32::MAX as u64 {
            assert(path_costs(s, block_size as int)[i as int] == path_costs(s, i + 1)[i as int]);
            return false;
        }
        record_keys(txs, i, &mut res, total as u32);
        assert forall|j: int| 0 <= j < i + 1 implies #[trigger] path_costs(s, i + 1)[j] <= u32::MAX by {
            if j < i {
                assert(path_costs(s, i + 1)[j] == path_costs(s, i as int)[j]);
            }
        }
        i = i + 1;
    }
    true
}

/// Second pass over the keys of transaction `i`: each of them now maps to
/// `i` and `i`'s path cost.
fn record_keys(txs: &Vec<TxAccess>, i: usize, res: &mut ResourceMap, cost: u32)
    requires
        i < txs.len(),
        old(res)@ == resource_model(txs@, i as int),
        cost as int == path_costs(txs@, i + 1)[i as int],
    ensures
        final(res)@ == resource_model(txs@, i + 1),
{
    let ghost s = txs@;
    let ghost before = resource_model(s, i as int);
    let keys = &txs[i].access_list;
    let mut k: usize = 0;
    while k < keys.len()
        invariant
            s == txs@,
            i < txs.len(),
            keys@ == keys_of(s, i as int),
            k <= keys.len(),
            res@ == Map::new(
                |key: u64| before.contains_key(key) || keys@.take(k as int).contains(key),
                |key: u64| if keys@.take(k as int).contains(key) {
                    (i, cost)
                } else {
                    before[key]
                },
            ),
        decreases keys.len() - k,
    {
        fx_map_insert(res, keys[k], (i, cost));
        proof {
            assert(keys@.take(k + 1) == keys@.take(k as int).push(keys@[k as int]));
        }
        k = k + 1;
        assert(res@ =~= Map::new(
            |key: u64| before.contains_key(key) || keys@.take(k as int).contains(key),
            |key: u64| if keys@.take(k as int).contains(key) {
                (i, cost)
            } else {
                before[key]
            },
        ));
    }
    proof {
        assert(keys@.take(k as int) == keys@);
        lemma_path_costs_prefix(s, i as int, i + 1);
        assert forall|key: u64| #[trigger] res@.contains_key(key) == resource_model(s, i + 1).contains_key(key) by {
            lemma_last_toucher(s, i as int, key);
        }
        assert forall|key: u64| res@.contains_key(key) implies #[trigger] res@[key] == resource_model(s, i + 1)[key] by {
            lemma_last_toucher(s, i as int, key);
            if !keys@.contains(key) {
                let p = last_toucher(s, i as int, key)->0;
                assert(path_costs(s, i + 1)[p] == path_costs(s, i as int)[p]);
            }
        }
        assert(res@ =~= resource_model(s, i + 1));
    }
}

/// The dependency graph of a block: the children and (16-bit) parents of
/// each transaction, the transactions whose critical parent each one is,
/// and the transactions without a critical parent.
pub(crate) struct DependencyGraph {
    pub(crate) children: Vec<Vec<TxIdx>>,
    pub(crate) parents: Vec<Vec<u16>>,
    pub(crate) critical_children: Vec<boxcar::Vec<usize>>,
    pub(crate) roots: Vec<TxIdx>,
}

/// Builds the dependency graph of the first `block_size` transactions.
pub(crate) fn build_dependency_graph(block_size: usize, txs: &Vec<TxAccess>) -> (g: DependencyGraph)
    requires
        block_size <= txs.len(),
        block_size < boxcar_capacity(),
        costs_fit(txs@, block_size as int),
    ensures
        g.children@.len() == block_size,
        forall|p: int| 0 <= p < block_size ==> (#[trigger] g.children@[p])@ == children_upto(txs@, p, block_size as int),
        g.parents@.len() == block_size,
        forall|i: int| 0 <= i < block_size ==> (#[trigger] g.parents@[i])@ == stored_parents(txs@, i),
        g.critical_children@.len() == block_size,
        forall|p: int| 0 <= p < block_size ==> boxcar_items(#[trigger] g.critical_children@[p])
            == critical_children_upto(txs@, p, block_size as int),
        g.roots@ == roots_upto(txs@, block_size as int),
{
    let ghost s = txs@;
    let n = block_size;
    let mut res = fx_map_with_capacity(txs.len(), fx_build_hasher());
    let mut children: Vec<Vec<TxIdx>> = Vec::new();
    let mut critical_children: Vec<boxcar::Vec<usize>> = Vec::new();
    let mut parents: Vec<Vec<u16>> = Vec::new();
    let mut roots: Vec<TxIdx> = Vec::new();
    let mut j: usize = 0;
    while j < n
        invariant
            j <= n,
            children@.len() == j,
            critical_children@.len() == j,
            forall|p: int| 0 <= p < j ==> (#[trigger] children@[p])@ == Seq::<usize>::empty(),
            forall|p: int| 0 <= p < j ==> boxcar_items(#[trigger] critical_children@[p]) == Seq::<usize>::empty(),
        decreases n - j,
    {
        children.push(Vec::new());
        critical_children.push(boxcar_new());
        j = j + 1;
    }
    assert(res@ =~= resource_model(s, 0));
    let mut i: usize = 0;
    while i < n
        invariant
            s == txs@,
            i <= n,
            n <= txs.len(),
            n < boxcar_capacity(),
            costs_fit(s, n as int),
            res@ == resource_model(s, i as int),
            children@.len() == n,
            forall|p: int| 0 <= p < n ==> (#[trigger] children@[p])@ == children_upto(s, p, i as int),
            parents@.len() == i,
            forall|q: int| 0 <= q < i ==> (#[trigger] parents@[q])@ == stored_parents(s, q),
            critical_children@.len() == n,
            forall|p: int| 0 <= p < n ==> boxcar_items(#[trigger] critical_children@[p]) == critical_children_upto(s, p, i as int),
            roots@ == roots_upto(s, i as int),
        decreases n - i,
    {
        let (cost, crit, parents_i) = scan_dependencies(txs, n, i, &res, &mut children);
        proof {
            lemma_path_costs_prefix(s, i + 1, n as int);
            lemma_path_costs_prefix(s, i as int, i as int);
            assert(path_costs(s, i + 1)[i as int] == path_costs(s, n as int)[i as int]);
        }
        let path_cost = cost + (txs[i].gas_limit as u32);
        record_keys(txs, i, &mut res, path_cost);
        parents.push(parents_i);
        proof {
            lemma_critical_scan(s, path_costs(s, i as int), i as int, keys_of(s, i as int).len() as int);
        }
        if crit == usize::MAX {
            roots.push(i);
        } else {
            proof {
                lemma_critical_children_upto(s, crit as int, i as int);
            }
            boxcar_push(&mut critical_children[crit], i);
        }
        i = i + 1;
        assert forall|p: int| 0 <= p < n implies boxcar_items(#[trigger] critical_children@[p]) == critical_children_upto(s, p, i as int) by {}
    }
    DependencyGraph { children, parents, critical_children, roots }
}

} // verus!
