//! The evaluation order of an analysis graph: every node after the nodes it
//! reads.
//!
//! A graph is given by the arguments of each node: node `k` reads the nodes
//! whose ids are listed in `arguments[k]`, ids being positions in the list.
use vstd::prelude::*;

use crate::error::{Error, ErrorKind};

verus! {

/// Every argument names a node of the graph.
pub open spec fn valid_references(arguments: Seq<Vec<usize>>) -> bool {
    forall|k: int, a: int|
        0 <= k < arguments.len() && 0 <= a < arguments[k]@.len() ==> #[trigger] arguments[k]@[a]
            < arguments.len()
}

/// `order` lists every node once, and each node after every node it reads.
pub open spec fn is_topological_order(arguments: Seq<Vec<usize>>, order: Seq<usize>) -> bool {
    &&& order.len() == arguments.len()
    &&& order.no_duplicates()
    &&& forall|p: int| 0 <= p < order.len() ==> #[trigger] order[p] < arguments.len()
    &&& forall|k: int| 0 <= k < arguments.len() ==> #[trigger] order.contains(k as usize)
    &&& forall|p: int, a: int|
        0 <= p < order.len() && 0 <= a < arguments[order[p] as int]@.len() ==> order.subrange(
            0,
            p,
        ).contains(#[trigger] arguments[order[p] as int]@[a])
}

/// The number of nodes not yet placed.
pub open spec fn count_unplaced(placed: Seq<bool>) -> nat
    decreases placed.len(),
{
    if placed.len() == 0 {
        0
    } else {
        count_unplaced(placed.drop_last()) + (if placed.last() {
            0nat
        } else {
            1nat
        })
    }
}

proof fn lemma_count_extremes(placed: Seq<bool>)
    ensures
        (forall|k: int| 0 <= k < placed.len() ==> !#[trigger] placed[k]) ==> count_unplaced(placed)
            == placed.len(),
        (forall|k: int| 0 <= k < placed.len() ==> #[trigger] placed[k]) ==> count_unplaced(placed)
            == 0,
    decreases placed.len(),
{
    if placed.len() > 0 {
        lemma_count_extremes(placed.drop_last());
        assert(forall|k: int| 0 <= k < placed.len() - 1 ==> placed.drop_last()[k] == placed[k]);
    }
}

proof fn lemma_place_one(placed: Seq<bool>, k: int)
    requires
        0 <= k < placed.len(),
        !placed[k],
    ensures
        count_unplaced(placed.update(k, true)) + 1 == count_unplaced(placed),
    decreases placed.len(),
{
    let updated = placed.update(k, true);
    if k == placed.len() - 1 {
        assert(updated.drop_last() =~= placed.drop_last());
    } else {
        lemma_place_one(placed.drop_last(), k);
        assert(updated.drop_last() =~= placed.drop_last().update(k, true));
    }
}

/// When every unplaced node reads another unplaced node, no order exists: the
/// first unplaced node of any order would come after an unplaced node.
proof fn lemma_stuck_has_no_order(arguments: Seq<Vec<usize>>, placed: Seq<bool>, order: Seq<usize>)
    requires
        placed.len() == arguments.len(),
        placed.len() <= usize::MAX,
        valid_references(arguments),
        exists|k: int| 0 <= k < placed.len() && !#[trigger] placed[k],
        forall|k: int|
            0 <= k < placed.len() && !#[trigger] placed[k] ==> exists|a: int|
                0 <= a < arguments[k]@.len() && !placed[#[trigger] arguments[k]@[a] as int],
    ensures
        !is_topological_order(arguments, order),
{
    if is_topological_order(arguments, order) {
        if order.len() > 0 {
            lemma_prefix_placed(arguments, placed, order, order.len() - 1);
        }
        let k = choose|k: int| 0 <= k < placed.len() && !#[trigger] placed[k];
        assert(order.contains(k as usize));
        let p = choose|p: int| 0 <= p < order.len() && order[p] == k as usize;
        assert(placed[order[p] as int]);
    }
}

proof fn lemma_prefix_placed(arguments: Seq<Vec<usize>>, placed: Seq<bool>, order: Seq<usize>, p: int)
    requires
        placed.len() == arguments.len(),
        valid_references(arguments),
        forall|k: int|
            0 <= k < placed.len() && !#[trigger] placed[k] ==> exists|a: int|
                0 <= a < arguments[k]@.len() && !placed[#[trigger] arguments[k]@[a] as int],
        is_topological_order(arguments, order),
        0 <= p < order.len(),
    ensures
        forall|q: int| 0 <= q <= p ==> #[trigger] placed[order[q] as int],
    decreases p,
{
    if p > 0 {
        lemma_prefix_placed(arguments, placed, order, p - 1);
    }
    let k = order[p] as int;
    if !placed[k] {
        let a = choose|a: int| 0 <= a < arguments[k]@.len() && !placed[#[trigger] arguments[k]@[a] as int];
        assert(order.subrange(0, p).contains(arguments[k]@[a]));
        let q = choose|q: int| 0 <= q < p && order.subrange(0, p)[q] == arguments[k]@[a];
        assert(order[q] == arguments[k]@[a]);
        assert(placed[order[q] as int]);
    }
}

/// An evaluation order of the graph: each node after the nodes it reads.
///
/// An argument that names no node gives `MissingArgument`; a graph with a
/// cycle, which has no such order, gives `PropertyViolation`.
pub fn topological_order(arguments: &Vec<Vec<usize>>) -> (r: Result<Vec<usize>, Error>)
    ensures
        !valid_references(arguments@) <==> r is Err && r->Err_0.kind == ErrorKind::MissingArgument,
        r is Ok ==> is_topological_order(arguments@, r->Ok_0@),
        r is Err && valid_references(arguments@) ==> r->Err_0.kind == ErrorKind::PropertyViolation
            && forall|order: Seq<usize>| !is_topological_order(arguments@, order),
{
    let n = arguments.len();
    let mut k: usize = 0;
    while k < n
        invariant
            n == arguments@.len(),
            k <= n,
            forall|k2: int, a: int|
                0 <= k2 < k && 0 <= a < arguments@[k2]@.len() ==> #[trigger] arguments@[k2]@[a] < n,
        decreases n - k,
    {
        let mut a: usize = 0;
        while a < arguments[k].len()
            invariant
                n == arguments@.len(),
                k < n,
                a <= arguments@[k as int]@.len(),
                forall|k2: int, a2: int|
                    0 <= k2 < k && 0 <= a2 < arguments@[k2]@.len() ==> #[trigger] arguments@[k2]@[a2]
                        < n,
                forall|a2: int| 0 <= a2 < a ==> #[trigger] arguments@[k as int]@[a2] < n,
            decreases arguments@[k as int]@.len() - a,
        {
            if arguments[k][a] >= n {
                return Err(Error::new(ErrorKind::MissingArgument, "an argument names no node"));
            }
            a = a + 1;
        }
        k = k + 1;
    }
    let mut placed: Vec<bool> = vec![false; n];
    let mut order: Vec<usize> = Vec::new();
    proof {
        lemma_count_extremes(placed@);
    }
    loop
        invariant
            n == arguments@.len(),
            valid_references(arguments@),
            placed@.len() == n,
            order@.no_duplicates(),
            forall|p: int| 0 <= p < order@.len() ==> #[trigger] order@[p] < n,
            forall|j: int| 0 <= j < n ==> (#[trigger] placed@[j] <==> order@.contains(j as usize)),
            forall|p: int, a: int|
                0 <= p < order@.len() && 0 <= a < arguments@[order@[p] as int]@.len()
                    ==> order@.subrange(0, p).contains(
                    #[trigger] arguments@[order@[p] as int]@[a],
                ),
            count_unplaced(placed@) + order@.len() == n,
        decreases count_unplaced(placed@),
    {
        let mut any_unplaced = false;
        let mut ready: Option<usize> = None;
        let mut j: usize = 0;
        while j < n
            invariant
                n == arguments@.len(),
                valid_references(arguments@),
                placed@.len() == n,
                j <= n,
                any_unplaced <==> exists|j2: int| 0 <= j2 < j && !#[trigger] placed@[j2],
                ready is Some ==> ready->Some_0 < n && !placed@[ready->Some_0 as int] && forall|a: int|
                    0 <= a < arguments@[ready->Some_0 as int]@.len() ==> placed@[#[trigger] arguments@[ready->Some_0 as int]@[a] as int],
                ready is None ==> forall|j2: int|
                    0 <= j2 < j && !#[trigger] placed@[j2] ==> exists|a: int|
                        0 <= a < arguments@[j2]@.len() && !placed@[#[trigger] arguments@[j2]@[a] as int],
            decreases n - j,
        {
            if !placed[j] {
                any_unplaced = true;
                if ready.is_none() {
                    let mut all_placed = true;
                    let mut a: usize = 0;
                    while a < arguments[j].len()
                        invariant
                            n == arguments@.len(),
                            valid_references(arguments@),
                            placed@.len() == n,
                            j < n,
                            a <= arguments@[j as int]@.len(),
                            all_placed <==> forall|a2: int| 0 <= a2 < a ==> placed@[#[trigger] arguments@[j as int]@[a2] as int],
                        decreases arguments@[j as int]@.len() - a,
                    {
                        if !placed[arguments[j][a]] {
                            all_placed = false;
                        }
                        a = a + 1;
                    }
                    if all_placed {
                        ready = Some(j);
                    }
                }
            }
            j = j + 1;
        }
        if !any_unplaced {
            proof {
                lemma_count_extremes(placed@);
                assert forall|j2: int| 0 <= j2 < n implies #[trigger] order@.contains(j2 as usize) by {
                    assert(placed@[j2]);
                }
            }
            return Ok(order);
        }
        match ready {
            None => {
                proof {
                    assert forall|o: Seq<usize>| !is_topological_order(arguments@, o) by {
                        lemma_stuck_has_no_order(arguments@, placed@, o);
                    }
                }
                return Err(Error::new(ErrorKind::PropertyViolation, "the graph has a cycle"));
            },
            Some(next) => {
                let ghost before = order@;
                proof {
                    lemma_place_one(placed@, next as int);
                }
                placed.set(next, true);
                order.push(next);
                proof {
                    assert forall|p: int, a: int|
                        0 <= p < order@.len() && 0 <= a < arguments@[order@[p] as int]@.len()
                            implies order@.subrange(0, p).contains(
                            #[trigger] arguments@[order@[p] as int]@[a],
                        ) by {
                        if p < before.len() {
                            assert(order@.subrange(0, p) =~= before.subrange(0, p));
                        } else {
                            let arg = arguments@[next as int]@[a];
                            assert(placed@[arg as int]);
                            assert(before.contains(arg));
                            assert(order@.subrange(0, p) =~= before);
                        }
                    }
                    assert forall|j2: int| 0 <= j2 < n implies (#[trigger] placed@[j2]
                        <==> order@.contains(j2 as usize)) by {
                        if j2 == next as int {
                            assert(order@[order@.len() - 1] == next);
                        } else if order@.contains(j2 as usize) {
                            let p = choose|p: int| 0 <= p < order@.len() && order@[p] == j2 as usize;
                            assert(p < before.len());
                            assert(before[p] == j2 as usize);
                        } else {
                            if before.contains(j2 as usize) {
                                let p = choose|p: int| 0 <= p < before.len() && before[p] == j2 as usize;
                                assert(order@[p] == j2 as usize);
                            }
                        }
                    }
                }
            },
        }
    }
}

/// Whether a node evaluated after position `p` of `order` reads node `x`.
pub open spec fn read_after(arguments: Seq<Vec<usize>>, order: Seq<usize>, p: int, x: usize) -> bool {
    exists|q: int| p < q < order.len() && #[trigger] arguments[order[q] as int]@.contains(x)
}

/// Whether the release of node `x` may be dropped once the node at position
/// `p` of `order` has been evaluated: that node reads it and no later one does.
pub open spec fn droppable_after(
    arguments: Seq<Vec<usize>>,
    order: Seq<usize>,
    p: int,
    x: usize,
) -> bool {
    arguments[order[p] as int]@.contains(x) && !read_after(arguments, order, p, x)
}

fn vec_contains(v: &Vec<usize>, x: usize) -> (r: bool)
    ensures
        r == v@.contains(x),
{
    let mut i: usize = 0;
    while i < v.len()
        invariant
            i <= v@.len(),
            forall|j: int| 0 <= j < i ==> v@[j] != x,
        decreases v@.len() - i,
    {
        if v[i] == x {
            return true;
        }
        i = i + 1;
    }
    false
}

fn is_read_after(arguments: &Vec<Vec<usize>>, order: &Vec<usize>, p: usize, x: usize) -> (r: bool)
    requires
        p < order@.len(),
        forall|q: int| 0 <= q < order@.len() ==> #[trigger] order@[q] < arguments@.len(),
    ensures
        r == read_after(arguments@, order@, p as int, x),
{
    let n = order.len();
    let mut q: usize = p + 1;
    while q < n
        invariant
            n == order@.len(),
            p < q <= order@.len(),
            forall|q: int| 0 <= q < order@.len() ==> #[trigger] order@[q] < arguments@.len(),
            forall|q2: int| p < q2 < q ==> !(#[trigger] arguments@[order@[q2] as int]@.contains(x)),
        decreases order@.len() - q,
    {
        if vec_contains(&arguments[order[q]], x) {
            return true;
        }
        q = q + 1;
    }
    false
}

/// The release table's bookkeeping: for each position `p` of `order`, the
/// nodes whose releases may be dropped once `order[p]` has been evaluated,
/// that is the nodes it reads that no later node reads, each listed once.
pub fn release_schedule(arguments: &Vec<Vec<usize>>, order: &Vec<usize>) -> (r: Vec<Vec<usize>>)
    requires
        forall|q: int| 0 <= q < order@.len() ==> #[trigger] order@[q] < arguments@.len(),
    ensures
        r@.len() == order@.len(),
        forall|p: int| 0 <= p < order@.len() ==> (#[trigger] r@[p])@.no_duplicates(),
        forall|p: int, x: usize|
            0 <= p < order@.len() ==> (#[trigger] r@[p]@.contains(x) <==> droppable_after(
                arguments@,
                order@,
                p,
                x,
            )),
{
    let mut schedule: Vec<Vec<usize>> = Vec::new();
    let mut p: usize = 0;
    while p < order.len()
        invariant
            p <= order@.len(),
            forall|q: int| 0 <= q < order@.len() ==> #[trigger] order@[q] < arguments@.len(),
            schedule@.len() == p,
            forall|p2: int| 0 <= p2 < p ==> (#[trigger] schedule@[p2])@.no_duplicates(),
            forall|p2: int, x: usize|
                0 <= p2 < p ==> (#[trigger] schedule@[p2]@.contains(x) <==> droppable_after(
                    arguments@,
                    order@,
                    p2,
                    x,
                )),
        decreases order@.len() - p,
    {
        let node = order[p];
        let reads = &arguments[node];
        let mut drops: Vec<usize> = Vec::new();
        let mut a: usize = 0;
        while a < reads.len()
            invariant
                p < order@.len(),
                node == order@[p as int],
                reads == arguments@[node as int],
                forall|q: int| 0 <= q < order@.len() ==> #[trigger] order@[q] < arguments@.len(),
                a <= reads@.len(),
                drops@.no_duplicates(),
                forall|x: usize|
                    #[trigger] drops@.contains(x) <==> (reads@.subrange(0, a as int).contains(x)
                        && !read_after(arguments@, order@, p as int, x)),
            decreases reads@.len() - a,
        {
            let x = reads[a];
            let ghost before = drops@;
            let mut pushed = false;
            if !vec_contains(&drops, x) && !is_read_after(arguments, order, p, x) {
                drops.push(x);
                pushed = true;
            }
            proof {
                let next = reads@.subrange(0, a + 1);
                let prev = reads@.subrange(0, a as int);
                assert(next =~= prev.push(x));
                assert forall|y: usize| next.contains(y) <==> (prev.contains(y) || y == x) by {
                    if next.contains(y) {
                        let i = choose|i: int| 0 <= i < next.len() && next[i] == y;
                        if i < prev.len() {
                            assert(prev[i] == y);
                        }
                    }
                    if prev.contains(y) {
                        let i = choose|i: int| 0 <= i < prev.len() && prev[i] == y;
                        assert(next[i] == y);
                    }
                    if y == x {
                        assert(next[a as int] == x);
                    }
                }
                if pushed {
                    assert(drops@ == before.push(x));
                    assert forall|y: usize| drops@.contains(y) <==> (before.contains(y) || y == x) by {
                        if drops@.contains(y) {
                            let i = choose|i: int| 0 <= i < drops@.len() && drops@[i] == y;
                            if i < before.len() {
                                assert(before[i] == y);
                            }
                        }
                        if before.contains(y) {
                            let i = choose|i: int| 0 <= i < before.len() && before[i] == y;
                            assert(drops@[i] == y);
                        }
                        if y == x {
                            assert(drops@[before.len() as int] == x);
                        }
                    }
                    assert(drops@.no_duplicates()) by {
                        assert forall|i: int, j: int|
                            0 <= i < drops@.len() && 0 <= j < drops@.len() && i != j implies drops@[i]
                            != drops@[j] by {
                            if i == before.len() as int && j < before.len() {
                                assert(before[j] == drops@[j]);
                            } else if j == before.len() as int && i < before.len() {
                                assert(before[i] == drops@[i]);
                            }
                        }
                    }
                }
                assert forall|y: usize|
                    #[trigger] drops@.contains(y) <==> (next.contains(y) && !read_after(
                        arguments@,
                        order@,
                        p as int,
                        y,
                    )) by {
                    if y != x {
                        assert(drops@.contains(y) == before.contains(y));
                    }
                }
            }
            a = a + 1;
        }
        proof {
            assert(reads@.subrange(0, reads@.len() as int) =~= reads@);
        }
        schedule.push(drops);
        proof {
            assert forall|p2: int, x: usize|
                0 <= p2 < p + 1 implies (#[trigger] schedule@[p2]@.contains(x) <==> droppable_after(
                arguments@,
                order@,
                p2,
                x,
            )) by {
                if p2 == p {
                    assert(schedule@[p2] == drops);
                }
            }
        }
        p = p + 1;
    }
    schedule
}

} // verus!
