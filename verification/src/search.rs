//! The search ranker: for a nonempty query, the catalog indices of every
//! entry whose name contains the query case-insensitively, ordered by rank.
//! The rank of a match is the index of the query's first occurrence inside
//! the lowercased name (so a prefix match ranks first); ties keep catalog
//! order. The result is capped at a configured bound.

use vstd::prelude::*;

use crate::bytes::{find_first, find_sub, lower_seq, to_lower};
use crate::bytes::lemma_find_sub_valid;
use crate::catalog::{AppData, Catalog};

verus! {

/// Rank of a name for a query: the index of the first occurrence of the
/// lowercased query inside the lowercased name; `None` when the name does
/// not match.
pub open spec fn rank_of(name: Seq<u8>, q: Seq<u8>) -> Option<int> {
    find_sub(lower_seq(name), lower_seq(q))
}

/// The entry matches the query.
pub open spec fn entry_matches(d: AppData, q: Seq<u8>) -> bool {
    rank_of(d.name, q) is Some
}

/// Indices among the first `n` entries whose rank is exactly `r`, ascending.
pub open spec fn idx_with_rank(es: Seq<AppData>, q: Seq<u8>, r: int, n: int) -> Seq<int>
    decreases n,
{
    if n <= 0 {
        Seq::empty()
    } else {
        idx_with_rank(es, q, r, n - 1) + if rank_of(es[n - 1].name, q) == Some(r) {
            seq![n - 1]
        } else {
            Seq::<int>::empty()
        }
    }
}

/// Indices of every entry whose rank lies below `b`: ranks ascending,
/// catalog order within one rank.
pub open spec fn ranked_indices(es: Seq<AppData>, q: Seq<u8>, b: int) -> Seq<int>
    decreases b,
{
    if b <= 0 {
        Seq::empty()
    } else {
        ranked_indices(es, q, b - 1) + idx_with_rank(es, q, b - 1, es.len() as int)
    }
}

/// One more than the longest name length: a bound no rank reaches.
pub open spec fn rank_bound(es: Seq<AppData>) -> int
    decreases es.len(),
{
    if es.len() == 0 {
        1
    } else {
        let rb = rank_bound(es.drop_last());
        if es.last().name.len() as int + 1 > rb {
            es.last().name.len() as int + 1
        } else {
            rb
        }
    }
}

/// The full ranked order of the matching catalog indices.
pub open spec fn search_order(es: Seq<AppData>, q: Seq<u8>) -> Seq<int> {
    ranked_indices(es, q, rank_bound(es))
}

/// How many results a cap leaves.
pub open spec fn capped(cap: int, total: int) -> int {
    if cap < total {
        cap
    } else {
        total
    }
}

/// Every name's length lies below the rank bound.
proof fn lemma_rank_bound_covers(es: Seq<AppData>)
    ensures
        rank_bound(es) >= 1,
        forall|k: int| 0 <= k < es.len() ==> (#[trigger] es[k]).name.len() < rank_bound(es),
    decreases es.len(),
{
    if es.len() > 0 {
        lemma_rank_bound_covers(es.drop_last());
        assert forall|k: int| 0 <= k < es.len() implies (#[trigger] es[k]).name.len() < rank_bound(
            es,
        ) by {
            if k < es.len() - 1 {
                assert(es.drop_last()[k] == es[k]);
            } else {
                assert(es.last() == es[k]);
            }
        }
    }
}

/// A rank is a real occurrence index: nonnegative and below the name length
/// plus one.
proof fn lemma_rank_range(name: Seq<u8>, q: Seq<u8>)
    ensures
        match rank_of(name, q) {
            Some(r) => 0 <= r && r + lower_seq(q).len() <= name.len(),
            None => true,
        },
{
    lemma_find_sub_valid(lower_seq(name), lower_seq(q));
}

/// Properties of `idx_with_rank`: its elements are exactly the indices of
/// rank `r` below `n`, in ascending order.
proof fn lemma_idx_with_rank_props(es: Seq<AppData>, q: Seq<u8>, r: int, n: int)
    ensures
        forall|k: int|
            0 <= k < idx_with_rank(es, q, r, n).len() ==> 0 <= #[trigger] idx_with_rank(
                es,
                q,
                r,
                n,
            )[k] < n && rank_of(es[idx_with_rank(es, q, r, n)[k]].name, q) == Some(r),
        forall|k: int, l: int|
            0 <= k < l < idx_with_rank(es, q, r, n).len() ==> #[trigger] idx_with_rank(
                es,
                q,
                r,
                n,
            )[k] < #[trigger] idx_with_rank(es, q, r, n)[l],
        forall|j: int|
            0 <= j < n && rank_of((#[trigger] es[j]).name, q) == Some(r) ==> idx_with_rank(
                es,
                q,
                r,
                n,
            ).contains(j),
    decreases n,
{
    if n > 0 {
        lemma_idx_with_rank_props(es, q, r, n - 1);
        let prev = idx_with_rank(es, q, r, n - 1);
        let cur = idx_with_rank(es, q, r, n);
        assert forall|j: int|
            0 <= j < n && rank_of((#[trigger] es[j]).name, q) == Some(r) implies cur.contains(
            j,
        ) by {
            if j < n - 1 {
                assert(prev.contains(j));
                let k = choose|k: int| 0 <= k < prev.len() && prev[k] == j;
                assert(cur[k] == j);
            } else {
                assert(cur[cur.len() - 1] == j);
            }
        }
    }
}

/// Properties of `ranked_indices`: every element is a matching index with
/// rank below the bound; ranks never decrease along the order; equal-rank
/// entries keep their catalog order; and every matching index with rank
/// below the bound occurs.
proof fn lemma_ranked_indices_props(es: Seq<AppData>, q: Seq<u8>, b: int)
    ensures
        forall|k: int|
            0 <= k < ranked_indices(es, q, b).len() ==> {
                let v = #[trigger] ranked_indices(es, q, b)[k];
                0 <= v < es.len() && rank_of(es[v].name, q) is Some && rank_of(es[v].name, q).unwrap()
                    < b
            },
        forall|k: int, l: int|
            0 <= k < l < ranked_indices(es, q, b).len() ==> rank_of(
                es[#[trigger] ranked_indices(es, q, b)[k]].name,
                q,
            ).unwrap() <= rank_of(es[#[trigger] ranked_indices(es, q, b)[l]].name, q).unwrap(),
        forall|k: int, l: int|
            0 <= k < l < ranked_indices(es, q, b).len() && rank_of(
                es[#[trigger] ranked_indices(es, q, b)[k]].name,
                q,
            ) == rank_of(es[#[trigger] ranked_indices(es, q, b)[l]].name, q) ==> ranked_indices(
                es,
                q,
                b,
            )[k] < ranked_indices(es, q, b)[l],
        forall|j: int|
            0 <= j < es.len() && rank_of((#[trigger] es[j]).name, q) is Some && rank_of(
                es[j].name,
                q,
            ).unwrap() < b ==> ranked_indices(es, q, b).contains(j),
    decreases b,
{
    assert forall|j: int|
        0 <= j < es.len() && rank_of((#[trigger] es[j]).name, q) is Some implies rank_of(
        es[j].name,
        q,
    ).unwrap() >= 0 by {
        lemma_rank_range(es[j].name, q);
    }
    if b > 0 {
        lemma_ranked_indices_props(es, q, b - 1);
        lemma_idx_with_rank_props(es, q, b - 1, es.len() as int);
        let prev = ranked_indices(es, q, b - 1);
        let blk = idx_with_rank(es, q, b - 1, es.len() as int);
        let cur = ranked_indices(es, q, b);
        assert(cur == prev + blk);
        assert forall|k: int| 0 <= k < cur.len() implies {
            let v = #[trigger] cur[k];
            0 <= v < es.len() && rank_of(es[v].name, q) is Some && rank_of(es[v].name, q).unwrap()
                < b
        } by {
            if k < prev.len() {
                assert(cur[k] == prev[k]);
            } else {
                assert(cur[k] == blk[k - prev.len()]);
            }
        }
        assert forall|k: int, l: int| 0 <= k < l < cur.len() implies rank_of(
            es[#[trigger] cur[k]].name,
            q,
        ).unwrap() <= rank_of(es[#[trigger] cur[l]].name, q).unwrap() by {
            if l < prev.len() {
                assert(cur[k] == prev[k] && cur[l] == prev[l]);
            } else if k >= prev.len() {
                assert(cur[k] == blk[k - prev.len()] && cur[l] == blk[l - prev.len()]);
            } else {
                assert(cur[k] == prev[k] && cur[l] == blk[l - prev.len()]);
            }
        }
        assert forall|k: int, l: int|
            0 <= k < l < cur.len() && rank_of(es[#[trigger] cur[k]].name, q) == rank_of(
                es[#[trigger] cur[l]].name,
                q,
            ) implies cur[k] < cur[l] by {
            if l < prev.len() {
                assert(cur[k] == prev[k] && cur[l] == prev[l]);
            } else if k >= prev.len() {
                assert(cur[k] == blk[k - prev.len()] && cur[l] == blk[l - prev.len()]);
            } else {
                assert(cur[k] == prev[k] && cur[l] == blk[l - prev.len()]);
                assert(rank_of(es[prev[k]].name, q).unwrap() < b - 1 || rank_of(
                    es[prev[k]].name,
                    q,
                ).unwrap() == b - 1);
            }
        }
        assert forall|j: int|
            0 <= j < es.len() && rank_of((#[trigger] es[j]).name, q) is Some && rank_of(
                es[j].name,
                q,
            ).unwrap() < b implies cur.contains(j) by {
            if rank_of(es[j].name, q).unwrap() < b - 1 {
                assert(prev.contains(j));
                let k = choose|k: int| 0 <= k < prev.len() && prev[k] == j;
                assert(cur[k] == j);
            } else {
                assert(rank_of(es[j].name, q) == Some(b - 1));
                assert(blk.contains(j));
                let k = choose|k: int| 0 <= k < blk.len() && blk[k] == j;
                assert(cur[prev.len() + k] == j);
            }
        }
    }
}

/// For entries of equal rank, the ranked order keeps their catalog order.
pub proof fn lemma_search_stable(es: Seq<AppData>, q: Seq<u8>)
    ensures
        forall|k: int, l: int|
            0 <= k < l < search_order(es, q).len() && rank_of(
                es[#[trigger] search_order(es, q)[k]].name,
                q,
            ) == rank_of(es[#[trigger] search_order(es, q)[l]].name, q) ==> search_order(es, q)[k]
                < search_order(es, q)[l],
{
    lemma_ranked_indices_props(es, q, rank_bound(es));
}

/// The ranked order lists exactly the matching indices: every element is a
/// matching catalog index, ranks never decrease along it, and every matching
/// index occurs in it.
pub proof fn lemma_search_complete(es: Seq<AppData>, q: Seq<u8>)
    requires
        lower_seq(q).len() >= 1,
    ensures
        forall|k: int|
            0 <= k < search_order(es, q).len() ==> {
                let v = #[trigger] search_order(es, q)[k];
                0 <= v < es.len() && entry_matches(es[v], q)
            },
        forall|k: int, l: int|
            0 <= k < l < search_order(es, q).len() ==> rank_of(
                es[#[trigger] search_order(es, q)[k]].name,
                q,
            ).unwrap() <= rank_of(es[#[trigger] search_order(es, q)[l]].name, q).unwrap(),
        forall|j: int|
            0 <= j < es.len() && entry_matches(#[trigger] es[j], q) ==> search_order(
                es,
                q,
            ).contains(j),
{
    lemma_ranked_indices_props(es, q, rank_bound(es));
    lemma_rank_bound_covers(es);
    assert forall|j: int|
        0 <= j < es.len() && entry_matches(#[trigger] es[j], q) implies search_order(
        es,
        q,
    ).contains(j) by {
        lemma_rank_range(es[j].name, q);
        assert(rank_of(es[j].name, q).unwrap() < rank_bound(es));
    }
}

/// The computed rank of one entry agrees with the spec.
spec fn rank_entry_ok(rk: Option<usize>, d: AppData, q: Seq<u8>) -> bool {
    match rk {
        Some(u) => rank_of(d.name, q) == Some(u as int),
        None => rank_of(d.name, q) is None,
    }
}

/// Rank one entry's name for a query.
fn entry_rank(name: &Vec<u8>, query: &Vec<u8>) -> (r: Option<usize>)
    requires
        query@.len() >= 1,
    ensures
        match r {
            Some(i) => rank_of(name@, query@) == Some(i as int),
            None => rank_of(name@, query@) is None,
        },
{
    let nl = to_lower(name);
    let ql = to_lower(query);
    find_first(&nl, &ql)
}

/// The whole ranked order of matching catalog indices for a nonempty query,
/// uncapped.
fn ranked_order(catalog: &Catalog, query: &Vec<u8>) -> (r: Vec<usize>)
    requires
        query@.len() >= 1,
    ensures
        r@.len() == search_order(catalog@, query@).len(),
        forall|k: int| 0 <= k < r@.len() ==> r@[k] as int == search_order(catalog@, query@)[k],
{
    let ghost es = catalog@;
    let ghost q = query@;
    let n = catalog.len();

    // Rank every entry once.
    let mut ranks: Vec<Option<usize>> = Vec::new();
    let mut i: usize = 0;
    while i < n
        invariant
            i <= n,
            n == es.len(),
            es == catalog@,
            q == query@,
            q.len() >= 1,
            ranks@.len() == i,
            forall|k: int| 0 <= k < i ==> rank_entry_ok(#[trigger] ranks@[k], es[k], q),
        decreases n - i,
    {
        let e = catalog.get(i);
        let rk = entry_rank(&e.name, query);
        ranks.push(rk);
        i = i + 1;
    }

    // The longest name bounds every rank.
    let mut maxlen: usize = 0;
    let mut i2: usize = 0;
    proof {
        assert(rank_bound(es.take(0)) == 1);
    }
    while i2 < n
        invariant
            i2 <= n,
            n == es.len(),
            es == catalog@,
            maxlen + 1 == rank_bound(es.take(i2 as int)),
        decreases n - i2,
    {
        proof {
            assert(es.take(i2 as int + 1).drop_last() =~= es.take(i2 as int));
            assert(es.take(i2 as int + 1).last() == es[i2 as int]);
        }
        let e = catalog.get(i2);
        let nl = e.name.len();
        if nl > maxlen {
            maxlen = nl;
        }
        i2 = i2 + 1;
    }
    proof {
        assert(es.take(n as int) =~= es);
    }

    // Walk the ranks upward, appending each rank's indices in catalog order.
    let mut idxs: Vec<usize> = Vec::new();
    let mut r: usize = 0;
    proof {
        assert(ranked_indices(es, q, 0).len() == 0);
    }
    loop
        invariant_except_break
            idxs@.len() == ranked_indices(es, q, r as int).len(),
            forall|k: int|
                0 <= k < idxs@.len() ==> idxs@[k] as int == ranked_indices(es, q, r as int)[k],
        invariant
            r <= maxlen,
            n == es.len(),
            es == catalog@,
            q == query@,
            q.len() >= 1,
            maxlen + 1 == rank_bound(es),
            ranks@.len() == n,
            forall|k: int| 0 <= k < n ==> rank_entry_ok(#[trigger] ranks@[k], es[k], q),
        ensures
            idxs@.len() == ranked_indices(es, q, rank_bound(es)).len(),
            forall|k: int|
                0 <= k < idxs@.len() ==> idxs@[k] as int == ranked_indices(
                    es,
                    q,
                    rank_bound(es),
                )[k],
        decreases maxlen - r,
    {
        let ghost base = ranked_indices(es, q, r as int);
        let mut j: usize = 0;
        while j < n
            invariant
                j <= n,
                n == es.len(),
                es == catalog@,
                q == query@,
                r <= maxlen,
                base == ranked_indices(es, q, r as int),
                ranks@.len() == n,
                forall|k: int| 0 <= k < n ==> rank_entry_ok(#[trigger] ranks@[k], es[k], q),
                idxs@.len() == base.len() + idx_with_rank(es, q, r as int, j as int).len(),
                forall|k: int|
                    0 <= k < idxs@.len() ==> idxs@[k] as int == (base + idx_with_rank(
                        es,
                        q,
                        r as int,
                        j as int,
                    ))[k],
            decreases n - j,
        {
            let hit = match ranks[j] {
                Some(u) => u == r,
                None => false,
            };
            if hit {
                idxs.push(j);
            }
            proof {
                let prevb = idx_with_rank(es, q, r as int, j as int);
                let curb = idx_with_rank(es, q, r as int, j as int + 1);
                if rank_of(es[j as int].name, q) == Some(r as int) {
                    assert(curb == prevb + seq![j as int]);
                } else {
                    assert(curb == prevb + Seq::<int>::empty());
                    assert(curb =~= prevb);
                }
            }
            j = j + 1;
        }
        proof {
            assert(ranked_indices(es, q, r as int + 1) == ranked_indices(es, q, r as int)
                + idx_with_rank(es, q, r as int, es.len() as int));
        }
        if r == maxlen {
            break;
        }
        r = r + 1;
    }
    idxs
}

/// Outcome of a search: no query issued, a query that matched nothing, or
/// the capped ranked indices into the catalog.
pub enum SearchOutcome {
    /// The query was empty: no search is active; the caller browses by
    /// category instead.
    NoQuery,
    /// A nonempty query matched no entry: shown as an empty-result state.
    NoMatches,
    /// The top-ranked matching catalog indices, at most the cap of them.
    Ranked(Vec<usize>),
}

/// Search the catalog. An empty query is no search at all; a nonempty query
/// yields the matching entries' indices, best rank first, ties in catalog
/// order, truncated to at most `cap` results.
pub fn search(catalog: &Catalog, query: &Vec<u8>, cap: usize) -> (r: SearchOutcome)
    ensures
        query@.len() == 0 <==> r is NoQuery,
        query@.len() > 0 && search_order(catalog@, query@).len() == 0 <==> r is NoMatches,
        match r {
            SearchOutcome::Ranked(v) => {
                &&& search_order(catalog@, query@).len() > 0
                &&& v@.len() == capped(cap as int, search_order(catalog@, query@).len() as int)
                &&& forall|k: int|
                    0 <= k < v@.len() ==> v@[k] as int == search_order(catalog@, query@)[k]
            },
            _ => true,
        },
{
    if query.len() == 0 {
        return SearchOutcome::NoQuery;
    }
    let full = ranked_order(catalog, query);
    if full.len() == 0 {
        return SearchOutcome::NoMatches;
    }
    let keep: usize = if cap < full.len() {
        cap
    } else {
        full.len()
    };
    let mut out: Vec<usize> = Vec::new();
    let mut i: usize = 0;
    while i < keep
        invariant
            i <= keep,
            keep <= full.len(),
            out@.len() == i,
            forall|k: int| 0 <= k < i ==> out@[k] == full@[k],
        decreases keep - i,
    {
        out.push(full[i]);
        i = i + 1;
    }
    SearchOutcome::Ranked(out)
}

} // verus!
