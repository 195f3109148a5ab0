//! Kahn's algorithm in wavefronts: the nodes of a graph are put into
//! layers such that every node stands in the first layer after all of its
//! predecessors.

use vstd::prelude::*;

verus! {

/// The graph is a square matrix: `adj[x][y]` says whether there is an
/// edge from `x` to `y`.
pub open spec fn square(adj: Seq<Seq<bool>>) -> bool {
    forall|x: int| 0 <= x < adj.len() ==> (#[trigger] adj[x]).len() == adj.len()
}

/// The matrix that a vector of rows holds.
pub open spec fn matrix(rows: Seq<Vec<bool>>) -> Seq<Seq<bool>> {
    Seq::new(rows.len(), |x: int| rows[x]@)
}

/// Whether the graph has an edge from `x` to `y`.
pub open spec fn arc(adj: Seq<Seq<bool>>, x: int, y: int) -> bool {
    0 <= x < adj.len() && 0 <= y < adj[x].len() && adj[x][y]
}

/// `layer` puts every node in the first layer after all of its
/// predecessors: a predecessor stands in an earlier layer, and a node that
/// is not in layer 0 has a predecessor in the layer just before its own.
pub open spec fn layered(adj: Seq<Seq<bool>>, layer: Seq<int>) -> bool {
    &&& layer.len() == adj.len()
    &&& forall|x: int| 0 <= x < layer.len() ==> #[trigger] layer[x] >= 0
    &&& forall|x: int, y: int| #[trigger] arc(adj, x, y) ==> layer[x] < layer[y]
    &&& forall|y: int|
        0 <= y < layer.len() && #[trigger] layer[y] > 0 ==> exists|x: int|
            #[trigger] arc(adj, x, y) && layer[x] == layer[y] - 1
}

/// The wavefronts `fronts` list the nodes layer by layer: wavefront `k`
/// holds exactly the nodes of layer `k`, in ascending order, and no
/// wavefront is empty.
pub open spec fn lists_layers(layer: Seq<int>, fronts: Seq<Vec<usize>>) -> bool {
    &&& forall|k: int|
        0 <= k < fronts.len() ==> {
            &&& (#[trigger] fronts[k])@.len() > 0
            &&& forall|p: int, q: int|
                0 <= p < q < fronts[k]@.len() ==> fronts[k]@[p] < fronts[k]@[q]
            &&& forall|p: int|
                0 <= p < fronts[k]@.len() ==> (#[trigger] fronts[k]@[p]) < layer.len()
                    && layer[fronts[k]@[p] as int] == k
        }
    &&& forall|x: int|
        0 <= x < layer.len() ==> 0 <= #[trigger] layer[x] < fronts.len() && exists|p: int|
            0 <= p < fronts[layer[x]]@.len() && #[trigger] fronts[layer[x]]@[p] == x
}

/// `fronts` is the schedule of the graph: the wavefronts of its layering.
pub open spec fn is_schedule(adj: Seq<Seq<bool>>, fronts: Seq<Vec<usize>>) -> bool {
    exists|layer: Seq<int>| #[trigger] layered(adj, layer) && lists_layers(layer, fronts)
}

/// The nodes `remaining` cannot be ordered: there is at least one, and
/// each of them has a predecessor among them.
pub open spec fn stuck(adj: Seq<Seq<bool>>, remaining: Seq<usize>) -> bool {
    &&& remaining.len() > 0
    &&& forall|p: int|
        0 <= p < remaining.len() ==> (#[trigger] remaining[p]) < adj.len() && exists|q: int|
            0 <= q < remaining.len() && #[trigger] arc(
                adj,
                remaining[q] as int,
                remaining[p] as int,
            )
}

/// Whether `nodes` lists the node `y`.
pub open spec fn lists(nodes: Seq<usize>, y: int) -> bool {
    exists|p: int| 0 <= p < nodes.len() && #[trigger] nodes[p] == y
}

/// `layer` puts the nodes outside `remaining` into layers among
/// themselves: every predecessor of such a node is outside `remaining` as
/// well and stands in an earlier layer.
pub open spec fn layers_others(adj: Seq<Seq<bool>>, layer: Seq<int>, remaining: Seq<usize>) -> bool {
    &&& layer.len() == adj.len()
    &&& forall|x: int, y: int|
        #[trigger] arc(adj, x, y) && y < adj.len() && !lists(remaining, y) ==> !lists(remaining, x)
            && 0 <= layer[x] < layer[y]
}

/// `remaining` lists, in ascending order, exactly the nodes that no
/// wavefront takes: they are stuck, while all other nodes can be put into
/// layers among themselves, wavefront by wavefront.
pub open spec fn is_rest(adj: Seq<Seq<bool>>, remaining: Seq<usize>) -> bool {
    &&& stuck(adj, remaining)
    &&& forall|p: int, q: int| 0 <= p < q < remaining.len() ==> remaining[p] < remaining[q]
    &&& exists|layer: Seq<int>| #[trigger] layers_others(adj, layer, remaining)
}

/// The number of predecessors of `y` among the nodes below `upto` that are not done.
pub open spec fn pending(adj: Seq<Seq<bool>>, done: Seq<bool>, y: int, upto: int) -> nat
    decreases upto,
{
    if upto <= 0 {
        0
    } else {
        pending(adj, done, y, upto - 1) + if arc(adj, upto - 1, y) && !done[upto - 1] {
            1nat
        } else {
            0nat
        }
    }
}

/// The number of nodes below `upto` that are done.
pub open spec fn done_count(done: Seq<bool>, upto: int) -> nat
    decreases upto,
{
    if upto <= 0 {
        0
    } else {
        done_count(done, upto - 1) + if done[upto - 1] {
            1nat
        } else {
            0nat
        }
    }
}

/// No pending predecessor means that every predecessor is done.
proof fn lemma_pending_zero(adj: Seq<Seq<bool>>, done: Seq<bool>, y: int, upto: int)
    requires
        0 <= upto <= adj.len(),
        done.len() == adj.len(),
    ensures
        pending(adj, done, y, upto) == 0 <==> forall|x: int|
            0 <= x < upto && #[trigger] arc(adj, x, y) ==> done[x],
    decreases upto,
{
    if upto > 0 {
        lemma_pending_zero(adj, done, y, upto - 1);
        if pending(adj, done, y, upto) == 0 {
            assert forall|x: int| 0 <= x < upto && #[trigger] arc(adj, x, y) implies done[x] by {
                if x == upto - 1 {
                } else {
                    assert(pending(adj, done, y, upto - 1) == 0);
                }
            }
        } else {
            if pending(adj, done, y, upto - 1) == 0 {
                assert(arc(adj, upto - 1, y) && !done[upto - 1]);
            }
        }
    }
}

/// Marking a node as done takes it out of the pending predecessors of its successors.
proof fn lemma_pending_release(
    adj: Seq<Seq<bool>>,
    done: Seq<bool>,
    node: int,
    y: int,
    upto: int,
)
    requires
        0 <= upto <= adj.len(),
        done.len() == adj.len(),
        0 <= node < adj.len(),
        !done[node],
    ensures
        pending(adj, done, y, upto) == pending(adj, done.update(node, true), y, upto) + if node
            < upto && arc(adj, node, y) {
            1nat
        } else {
            0nat
        },
    decreases upto,
{
    if upto > 0 {
        lemma_pending_release(adj, done, node, y, upto - 1);
    }
}

/// Marking a node as done raises the number of done nodes by one.
proof fn lemma_done_count_release(done: Seq<bool>, node: int, upto: int)
    requires
        0 <= upto <= done.len(),
        0 <= node < done.len(),
        !done[node],
    ensures
        done_count(done.update(node, true), upto) == done_count(done, upto) + if node < upto {
            1nat
        } else {
            0nat
        },
        done_count(done, upto) <= upto,
    decreases upto,
{
    if upto > 0 {
        lemma_done_count_release(done, node, upto - 1);
    }
}

/// As many done nodes as there are nodes means that every node is done.
proof fn lemma_done_count_all(done: Seq<bool>, upto: int)
    requires
        0 <= upto <= done.len(),
    ensures
        done_count(done, upto) <= upto,
        done_count(done, upto) == upto <==> forall|x: int| 0 <= x < upto ==> #[trigger] done[x],
    decreases upto,
{
    if upto > 0 {
        lemma_done_count_all(done, upto - 1);
        if forall|x: int| 0 <= x < upto ==> #[trigger] done[x] {
            assert(done[upto - 1]);
        }
    }
}

/// The number of predecessors of each node.
fn count_predecessors(adj: &Vec<Vec<bool>>) -> (in_degree: Vec<usize>)
    requires
        square(matrix(adj@)),
    ensures
        in_degree@.len() == adj@.len(),
        forall|y: int|
            0 <= y < adj@.len() ==> #[trigger] in_degree@[y] == pending(
                matrix(adj@),
                Seq::new(adj@.len(), |x: int| false),
                y,
                adj@.len() as int,
            ),
{
    let n = adj.len();
    let ghost none = Seq::new(adj@.len(), |x: int| false);
    let mut in_degree: Vec<usize> = Vec::with_capacity(n);
    let mut y: usize = 0;
    while y < n
        invariant
            n == adj@.len(),
            square(matrix(adj@)),
            y <= n,
            in_degree@.len() == y,
            none == Seq::new(adj@.len(), |x: int| false),
            forall|j: int|
                0 <= j < y ==> #[trigger] in_degree@[j] == pending(matrix(adj@), none, j, n as int),
        decreases n - y,
    {
        let mut degree: usize = 0;
        let mut x: usize = 0;
        while x < n
            invariant
                n == adj@.len(),
                square(matrix(adj@)),
                y < n,
                x <= n,
                degree <= x,
                none == Seq::new(adj@.len(), |x: int| false),
                degree == pending(matrix(adj@), none, y as int, x as int),
            decreases n - x,
        {
            proof {
                assert(matrix(adj@)[x as int] == adj@[x as int]@);
            }
            if adj[x][y] {
                degree += 1;
            }
            x += 1;
        }
        in_degree.push(degree);
        y += 1;
    }
    in_degree
}

/// The nodes that are ready: not done, and without a pending predecessor.
fn collect_ready(in_degree: &Vec<usize>, done: &Vec<bool>) -> (ready: Vec<usize>)
    requires
        in_degree@.len() == done@.len(),
    ensures
        forall|p: int, q: int| 0 <= p < q < ready@.len() ==> ready@[p] < ready@[q],
        forall|p: int|
            0 <= p < ready@.len() ==> (#[trigger] ready@[p]) < done@.len() && !done@[ready@[p] as int]
                && in_degree@[ready@[p] as int] == 0,
        forall|y: int|
            0 <= y < done@.len() && !done@[y] && in_degree@[y] == 0 ==> exists|p: int|
                0 <= p < ready@.len() && #[trigger] ready@[p] == y,
{
    let n = done.len();
    let mut ready: Vec<usize> = Vec::new();
    let mut y: usize = 0;
    while y < n
        invariant
            n == done@.len(),
            in_degree@.len() == n,
            y <= n,
            forall|p: int, q: int| 0 <= p < q < ready@.len() ==> ready@[p] < ready@[q],
            forall|p: int|
                0 <= p < ready@.len() ==> (#[trigger] ready@[p]) < y && !done@[ready@[p] as int]
                    && in_degree@[ready@[p] as int] == 0,
            forall|j: int|
                0 <= j < y && !done@[j] && in_degree@[j] == 0 ==> exists|p: int|
                    0 <= p < ready@.len() && #[trigger] ready@[p] == j,
        decreases n - y,
    {
        if !done[y] && in_degree[y] == 0 {
            let ghost before = ready@;
            ready.push(y);
            proof {
                assert forall|j: int|
                    0 <= j < y + 1 && !done@[j] && in_degree@[j] == 0 implies exists|p: int|
                    0 <= p < ready@.len() && #[trigger] ready@[p] == j by {
                    if j < y {
                        let p = choose|p: int| 0 <= p < before.len() && #[trigger] before[p] == j;
                        assert(ready@[p] == j);
                    } else {
                        assert(ready@[ready@.len() - 1] == j);
                    }
                }
            }
        }
        y += 1;
    }
    ready
}

/// The nodes that are not done, in ascending order.
fn collect_remaining(done: &Vec<bool>) -> (remaining: Vec<usize>)
    ensures
        forall|p: int, q: int| 0 <= p < q < remaining@.len() ==> remaining@[p] < remaining@[q],
        forall|p: int|
            0 <= p < remaining@.len() ==> (#[trigger] remaining@[p]) < done@.len()
                && !done@[remaining@[p] as int],
        forall|y: int|
            0 <= y < done@.len() && !done@[y] ==> exists|p: int|
                0 <= p < remaining@.len() && #[trigger] remaining@[p] == y,
{
    let n = done.len();
    let mut remaining: Vec<usize> = Vec::new();
    let mut y: usize = 0;
    while y < n
        invariant
            n == done@.len(),
            y <= n,
            forall|p: int, q: int| 0 <= p < q < remaining@.len() ==> remaining@[p] < remaining@[q],
            forall|p: int|
                0 <= p < remaining@.len() ==> (#[trigger] remaining@[p]) < y
                    && !done@[remaining@[p] as int],
            forall|j: int|
                0 <= j < y && !done@[j] ==> exists|p: int|
                    0 <= p < remaining@.len() && #[trigger] remaining@[p] == j,
        decreases n - y,
    {
        if !done[y] {
            let ghost before = remaining@;
            remaining.push(y);
            proof {
                assert forall|j: int| 0 <= j < y + 1 && !done@[j] implies exists|p: int|
                    0 <= p < remaining@.len() && #[trigger] remaining@[p] == j by {
                    if j < y {
                        let p = choose|p: int| 0 <= p < before.len() && #[trigger] before[p] == j;
                        assert(remaining@[p] == j);
                    } else {
                        assert(remaining@[remaining@.len() - 1] == j);
                    }
                }
            }
        }
        y += 1;
    }
    remaining
}

/// Mark `node` as done and take it out of the count of pending
/// predecessors of each of its successors.
fn release(adj: &Vec<Vec<bool>>, in_degree: &mut Vec<usize>, done: &mut Vec<bool>, node: usize)
    requires
        square(matrix(adj@)),
        old(in_degree)@.len() == adj@.len(),
        old(done)@.len() == adj@.len(),
        node < adj@.len(),
        !old(done)@[node as int],
        forall|y: int|
            0 <= y < adj@.len() ==> #[trigger] old(in_degree)@[y] == pending(
                matrix(adj@),
                old(done)@,
                y,
                adj@.len() as int,
            ),
    ensures
        final(in_degree)@.len() == adj@.len(),
        final(done)@ == old(done)@.update(node as int, true),
        forall|y: int|
            0 <= y < adj@.len() ==> #[trigger] final(in_degree)@[y] == pending(
                matrix(adj@),
                final(done)@,
                y,
                adj@.len() as int,
            ),
        forall|y: int|
            0 <= y < adj@.len() && !arc(matrix(adj@), node as int, y) ==> #[trigger] final(in_degree)@[y]
                == old(in_degree)@[y],
{
    let n = adj.len();
    let ghost after = done@.update(node as int, true);
    let mut y: usize = 0;
    while y < n
        invariant
            n == adj@.len(),
            square(matrix(adj@)),
            in_degree@.len() == n,
            done@ == old(done)@,
            done@.len() == n,
            node < n,
            !done@[node as int],
            after == done@.update(node as int, true),
            y <= n,
            forall|j: int|
                0 <= j < y ==> #[trigger] in_degree@[j] == pending(matrix(adj@), after, j, n as int),
            forall|j: int|
                y <= j < n ==> #[trigger] in_degree@[j] == pending(matrix(adj@), done@, j, n as int),
            forall|j: int|
                0 <= j < n && !arc(matrix(adj@), node as int, j) ==> #[trigger] in_degree@[j] == old(
                    in_degree,
                )@[j],
        decreases n - y,
    {
        proof {
            lemma_pending_release(matrix(adj@), done@, node as int, y as int, n as int);
            assert(matrix(adj@)[node as int] == adj@[node as int]@);
        }
        if adj[node][y] {
            in_degree[y] = in_degree[y] - 1;
        }
        y += 1;
    }
    done[node] = true;
}

/// What holds between two rounds: the nodes that are done are layered
/// among themselves in the layers before `round`, the wavefronts list them,
/// and a node that is not done waits for a node that is not done either or
/// stands in the last wavefront.
#[verifier::opaque]
pub open spec fn in_progress(
    adj: Seq<Seq<bool>>,
    done: Seq<bool>,
    layer: Seq<int>,
    fronts: Seq<Vec<usize>>,
) -> bool {
    let round = fronts.len() as int;
    &&& done.len() == adj.len()
    &&& layer.len() == adj.len()
    &&& forall|x: int| 0 <= x < adj.len() && #[trigger] done[x] ==> 0 <= layer[x] < round
    &&& forall|x: int, y: int|
        #[trigger] arc(adj, x, y) && y < adj.len() && done[y] ==> done[x] && layer[x] < layer[y]
    &&& forall|y: int|
        0 <= y < adj.len() && #[trigger] done[y] && layer[y] > 0 ==> exists|x: int|
            #[trigger] arc(adj, x, y) && layer[x] == layer[y] - 1
    &&& round > 0 ==> forall|y: int|
        0 <= y < adj.len() && !#[trigger] done[y] ==> exists|x: int|
            #[trigger] arc(adj, x, y) && (!done[x] || layer[x] == round - 1)
    &&& forall|k: int|
        0 <= k < round ==> {
            &&& (#[trigger] fronts[k])@.len() > 0
            &&& forall|p: int, q: int|
                0 <= p < q < fronts[k]@.len() ==> fronts[k]@[p] < fronts[k]@[q]
            &&& forall|p: int|
                0 <= p < fronts[k]@.len() ==> (#[trigger] fronts[k]@[p]) < adj.len()
                    && done[fronts[k]@[p] as int] && layer[fronts[k]@[p] as int] == k
        }
    &&& forall|x: int|
        0 <= x < adj.len() && #[trigger] done[x] ==> exists|p: int|
            0 <= p < fronts[layer[x]]@.len() && #[trigger] fronts[layer[x]]@[p] == x
}

/// Release every node of the wavefront `ready`, which becomes layer `round`.
fn release_all(
    adj: &Vec<Vec<bool>>,
    in_degree: &mut Vec<usize>,
    done: &mut Vec<bool>,
    ready: &Vec<usize>,
    Ghost(layer): Ghost<Seq<int>>,
    Ghost(round): Ghost<int>,
) -> (next: Ghost<Seq<int>>)
    requires
        square(matrix(adj@)),
        old(in_degree)@.len() == adj@.len(),
        old(done)@.len() == adj@.len(),
        layer.len() == adj@.len(),
        forall|y: int|
            0 <= y < adj@.len() ==> #[trigger] old(in_degree)@[y] == pending(
                matrix(adj@),
                old(done)@,
                y,
                adj@.len() as int,
            ),
        forall|p: int, q: int| 0 <= p < q < ready@.len() ==> ready@[p] < ready@[q],
        forall|p: int|
            0 <= p < ready@.len() ==> (#[trigger] ready@[p]) < adj@.len() && !old(
                done,
            )@[ready@[p] as int],
    ensures
        final(in_degree)@.len() == adj@.len(),
        final(done)@.len() == adj@.len(),
        next@.len() == adj@.len(),
        forall|y: int|
            0 <= y < adj@.len() ==> #[trigger] final(in_degree)@[y] == pending(
                matrix(adj@),
                final(done)@,
                y,
                adj@.len() as int,
            ),
        forall|x: int|
            0 <= x < adj@.len() ==> #[trigger] final(done)@[x] == (old(done)@[x] || exists|p: int|
                0 <= p < ready@.len() && #[trigger] ready@[p] == x),
        forall|x: int|
            0 <= x < adj@.len() ==> #[trigger] next@[x] == (if old(done)@[x] || !final(done)@[x] {
                layer[x]
            } else {
                round
            }),
        done_count(final(done)@, adj@.len() as int) == done_count(
            old(done)@,
            adj@.len() as int,
        ) + ready@.len(),
{
    let ghost mut current = layer;
    let mut idx: usize = 0;
    while idx < ready.len()
        invariant
            square(matrix(adj@)),
            in_degree@.len() == adj@.len(),
            done@.len() == adj@.len(),
            current.len() == adj@.len(),
            idx <= ready@.len(),
            forall|y: int|
                0 <= y < adj@.len() ==> #[trigger] in_degree@[y] == pending(
                    matrix(adj@),
                    done@,
                    y,
                    adj@.len() as int,
                ),
            forall|p: int, q: int| 0 <= p < q < ready@.len() ==> ready@[p] < ready@[q],
            forall|p: int|
                0 <= p < ready@.len() ==> (#[trigger] ready@[p]) < adj@.len() && !old(
                    done,
                )@[ready@[p] as int],
            forall|x: int|
                0 <= x < adj@.len() ==> #[trigger] done@[x] == (old(done)@[x] || exists|p: int|
                    0 <= p < idx && #[trigger] ready@[p] == x),
            forall|x: int|
                0 <= x < adj@.len() ==> #[trigger] current[x] == (if old(done)@[x] || !done@[x] {
                    layer[x]
                } else {
                    round
                }),
            done_count(done@, adj@.len() as int) == done_count(old(done)@, adj@.len() as int)
                + idx,
        decreases ready@.len() - idx,
    {
        let node = ready[idx];
        let ghost before = done@;
        proof {
            if before[node as int] {
                let p = choose|p: int| 0 <= p < idx && #[trigger] ready@[p] == node as int;
                assert(ready@[p] < ready@[idx as int]);
            }
            lemma_done_count_release(before, node as int, adj@.len() as int);
        }
        release(adj, in_degree, done, node);
        proof {
            current = current.update(node as int, round);
            assert forall|x: int| 0 <= x < adj@.len() implies #[trigger] done@[x] == (old(
                done,
            )@[x] || exists|p: int| 0 <= p < idx + 1 && #[trigger] ready@[p] == x) by {
                if x == node {
                    assert(ready@[idx as int] == x);
                } else {
                    if exists|p: int| 0 <= p < idx + 1 && #[trigger] ready@[p] == x {
                        let p = choose|p: int| 0 <= p < idx + 1 && #[trigger] ready@[p] == x;
                        assert(p < idx);
                    }
                }
            }
        }
        idx += 1;
    }
    Ghost(current)
}

/// The wavefronts of a graph: round after round, every node without a
/// pending predecessor goes into the next wavefront, in ascending order,
/// and is taken out of the pending predecessors of its successors.
///
/// Where a round finds no such node while nodes are left, the graph has a
/// cycle, and the nodes that are left are returned as the error.
pub fn wavefronts_of_graph(adj: &Vec<Vec<bool>>) -> (r: Result<Vec<Vec<usize>>, Vec<usize>>)
    requires
        square(matrix(adj@)),
    ensures
        match r {
            Ok(fronts) => is_schedule(matrix(adj@), fronts@),
            Err(remaining) => is_rest(matrix(adj@), remaining@),
        },
        r.is_ok() <==> has_schedule(matrix(adj@)),
{
    let n = adj.len();
    let mut in_degree = count_predecessors(adj);
    let mut done: Vec<bool> = Vec::with_capacity(n);
    let mut i: usize = 0;
    while i < n
        invariant
            i <= n,
            done@.len() == i,
            forall|x: int| 0 <= x < i ==> !#[trigger] done@[x],
        decreases n - i,
    {
        done.push(false);
        i += 1;
    }
    let mut fronts: Vec<Vec<usize>> = Vec::new();
    let mut processed: usize = 0;
    let ghost mut layer: Seq<int> = Seq::new(n as nat, |x: int| 0int);
    proof {
        assert(done@ =~= Seq::new(adj@.len(), |x: int| false));
        lemma_done_count_none(done@, n as int);
        reveal(in_progress);
    }
    while processed < n
        invariant
            n == adj@.len(),
            square(matrix(adj@)),
            in_degree@.len() == n,
            done@.len() == n,
            layer.len() == n,
            processed <= n,
            processed == done_count(done@, n as int),
            in_progress(matrix(adj@), done@, layer, fronts@),
            forall|y: int|
                0 <= y < n ==> #[trigger] in_degree@[y] == pending(matrix(adj@), done@, y, n as int),
        decreases n - processed,
    {
        // Collect all nodes without a pending predecessor: the current wavefront.
        let ready = collect_ready(&in_degree, &done);
        if ready.len() == 0 {
            // No such node: the nodes that are left wait for each other.
            let remaining = collect_remaining(&done);
            proof {
                lemma_stuck(matrix(adj@), done@, in_degree@, ready@, remaining@);
                lemma_stuck_excludes_schedule(matrix(adj@), remaining@);
                lemma_rest(matrix(adj@), done@, layer, fronts@, remaining@);
            }
            return Err(remaining);
        }
        let ghost round = fronts@.len() as int;
        let ghost before = done@;
        let ghost degree_before = in_degree@;
        let ghost layer_before = layer;
        let next = release_all(adj, &mut in_degree, &mut done, &ready, Ghost(layer), Ghost(round));
        proof {
            layer = next@;
            lemma_done_count_all(done@, n as int);
        }
        processed = processed + ready.len();
        let ghost fronts_before = fronts@;
        let ghost wavefront = ready@;
        fronts.push(ready);
        proof {
            assert(fronts@.last()@ == wavefront);
            assert(fronts@.drop_last() =~= fronts_before);
            lemma_round(
                matrix(adj@),
                before,
                done@,
                degree_before,
                layer_before,
                layer,
                fronts_before,
                fronts@,
                wavefront,
            );
        }
    }
    proof {
        lemma_done_count_all(done@, n as int);
        lemma_finished(matrix(adj@), done@, layer, fronts@);
    }
    Ok(fronts)
}

/// Once every node is done, the layers are the layering of the graph and
/// the wavefronts list them.
proof fn lemma_finished(
    adj: Seq<Seq<bool>>,
    done: Seq<bool>,
    layer: Seq<int>,
    fronts: Seq<Vec<usize>>,
)
    requires
        square(adj),
        in_progress(adj, done, layer, fronts),
        forall|x: int| 0 <= x < adj.len() ==> #[trigger] done[x],
    ensures
        layered(adj, layer),
        lists_layers(layer, fronts),
        is_schedule(adj, fronts),
{
    reveal(in_progress);
    assert forall|x: int, y: int| #[trigger] arc(adj, x, y) implies layer[x] < layer[y] by {
        assert(adj[x].len() == adj.len());
        assert(done[y]);
    }
    assert forall|y: int| 0 <= y < layer.len() && #[trigger] layer[y] > 0 implies exists|x: int|
        #[trigger] arc(adj, x, y) && layer[x] == layer[y] - 1 by {
        assert(done[y]);
    }
    assert forall|x: int| 0 <= x < layer.len() implies #[trigger] layer[x] >= 0 by {
        assert(done[x]);
    }
    assert(layered(adj, layer));
    assert forall|k: int| 0 <= k < fronts.len() implies {
        &&& (#[trigger] fronts[k])@.len() > 0
        &&& forall|p: int, q: int| 0 <= p < q < fronts[k]@.len() ==> fronts[k]@[p] < fronts[k]@[q]
        &&& forall|p: int|
            0 <= p < fronts[k]@.len() ==> (#[trigger] fronts[k]@[p]) < layer.len()
                && layer[fronts[k]@[p] as int] == k
    } by {}
    assert forall|x: int| 0 <= x < layer.len() implies 0 <= #[trigger] layer[x] < fronts.len()
        && exists|p: int|
        0 <= p < fronts[layer[x]]@.len() && #[trigger] fronts[layer[x]]@[p] == x by {
        assert(done[x]);
    }
}

/// Between two rounds, the nodes that are done are layered among
/// themselves, so the nodes that are not done are all that is left.
proof fn lemma_rest(
    adj: Seq<Seq<bool>>,
    done: Seq<bool>,
    layer: Seq<int>,
    fronts: Seq<Vec<usize>>,
    remaining: Seq<usize>,
)
    requires
        in_progress(adj, done, layer, fronts),
        forall|p: int|
            0 <= p < remaining.len() ==> (#[trigger] remaining[p]) < done.len()
                && !done[remaining[p] as int],
        forall|y: int|
            0 <= y < done.len() && !done[y] ==> exists|p: int|
                0 <= p < remaining.len() && #[trigger] remaining[p] == y,
    ensures
        layers_others(adj, layer, remaining),
{
    reveal(in_progress);
    assert forall|x: int, y: int|
        #[trigger] arc(adj, x, y) && y < adj.len() && !lists(remaining, y) implies !lists(
        remaining,
        x,
    ) && 0 <= layer[x] < layer[y] by {
        assert(done[y]);
        assert(done[x]);
        if lists(remaining, x) {
            let p = choose|p: int| 0 <= p < remaining.len() && #[trigger] remaining[p] == x;
            assert(!done[remaining[p] as int]);
        }
    }
}

/// A node of which one rest says that it is stuck cannot be layered by
/// another: it waits for a node that stands lower and is stuck as well.
proof fn lemma_rest_within(
    adj: Seq<Seq<bool>>,
    a: Seq<usize>,
    b: Seq<usize>,
    layer: Seq<int>,
    p: int,
)
    requires
        stuck(adj, a),
        layers_others(adj, layer, b),
        0 <= p < a.len(),
    ensures
        lists(b, a[p] as int),
    decreases layer[a[p] as int],
{
    let x = a[p] as int;
    if !lists(b, x) {
        let q = choose|q: int| 0 <= q < a.len() && #[trigger] arc(adj, a[q] as int, a[p] as int);
        assert(arc(adj, a[q] as int, x));
        assert(0 <= layer[a[q] as int] < layer[x]);
        lemma_rest_within(adj, a, b, layer, q);
    }
}

/// Every node of one rest is a node of the other.
proof fn lemma_rest_subset(adj: Seq<Seq<bool>>, a: Seq<usize>, b: Seq<usize>)
    requires
        stuck(adj, a),
        exists|layer: Seq<int>| #[trigger] layers_others(adj, layer, b),
    ensures
        forall|p: int| 0 <= p < a.len() ==> b.contains(#[trigger] a[p]),
{
    let layer = choose|layer: Seq<int>| #[trigger] layers_others(adj, layer, b);
    assert forall|p: int| 0 <= p < a.len() implies b.contains(#[trigger] a[p]) by {
        lemma_rest_within(adj, a, b, layer, p);
        let q = choose|q: int| 0 <= q < b.len() && #[trigger] b[q] == a[p] as int;
        assert(b[q] == a[p]);
    }
}

/// **What is left is determined by the graph.** Two lists of the nodes
/// that no wavefront takes are the same list.
pub proof fn lemma_rest_unique(adj: Seq<Seq<bool>>, a: Seq<usize>, b: Seq<usize>)
    requires
        is_rest(adj, a),
        is_rest(adj, b),
    ensures
        a == b,
{
    lemma_rest_subset(adj, a, b);
    lemma_rest_subset(adj, b, a);
    lemma_ascending_same(a, b);
}

/// Where no node is ready while some are not done, those are stuck.
proof fn lemma_stuck(
    adj: Seq<Seq<bool>>,
    done: Seq<bool>,
    in_degree: Seq<usize>,
    ready: Seq<usize>,
    remaining: Seq<usize>,
)
    requires
        square(adj),
        done.len() == adj.len(),
        in_degree.len() == adj.len(),
        done_count(done, adj.len() as int) < adj.len(),
        forall|y: int|
            0 <= y < adj.len() ==> #[trigger] in_degree[y] == pending(
                adj,
                done,
                y,
                adj.len() as int,
            ),
        ready.len() == 0,
        forall|y: int|
            0 <= y < done.len() && !done[y] && in_degree[y] == 0 ==> exists|p: int|
                0 <= p < ready.len() && #[trigger] ready[p] == y,
        forall|p: int|
            0 <= p < remaining.len() ==> (#[trigger] remaining[p]) < done.len()
                && !done[remaining[p] as int],
        forall|y: int|
            0 <= y < done.len() && !done[y] ==> exists|p: int|
                0 <= p < remaining.len() && #[trigger] remaining[p] == y,
    ensures
        stuck(adj, remaining),
{
    let n = adj.len() as int;
    lemma_done_count_all(done, n);
    let y0 = choose|x: int| 0 <= x < n && !#[trigger] done[x];
    let p0 = choose|p: int| 0 <= p < remaining.len() && #[trigger] remaining[p] == y0;
    assert forall|p: int| 0 <= p < remaining.len() implies (#[trigger] remaining[p]) < adj.len()
        && exists|q: int|
        0 <= q < remaining.len() && #[trigger] arc(adj, remaining[q] as int, remaining[p] as int) by {
        let y = remaining[p] as int;
        if in_degree[y] == 0 {
            let q = choose|q: int| 0 <= q < ready.len() && #[trigger] ready[q] == y;
        }
        lemma_pending_zero(adj, done, y, n);
        let x = choose|x: int| 0 <= x < n && #[trigger] arc(adj, x, y) && !done[x];
        let q = choose|q: int| 0 <= q < remaining.len() && #[trigger] remaining[q] == x;
        assert(arc(adj, remaining[q] as int, remaining[p] as int));
    }
}

/// Where no node is done, none is counted.
proof fn lemma_done_count_none(done: Seq<bool>, upto: int)
    requires
        0 <= upto <= done.len(),
        forall|x: int| 0 <= x < done.len() ==> !#[trigger] done[x],
    ensures
        done_count(done, upto) == 0,
    decreases upto,
{
    if upto > 0 {
        lemma_done_count_none(done, upto - 1);
    }
}

/// A round keeps what holds between rounds.
#[verifier::rlimit(60)]
proof fn lemma_round(
    adj: Seq<Seq<bool>>,
    before: Seq<bool>,
    done: Seq<bool>,
    in_degree: Seq<usize>,
    layer_before: Seq<int>,
    layer: Seq<int>,
    fronts_before: Seq<Vec<usize>>,
    fronts: Seq<Vec<usize>>,
    ready: Seq<usize>,
)
    requires
        square(adj),
        in_progress(adj, before, layer_before, fronts_before),
        in_degree.len() == adj.len(),
        before.len() == adj.len(),
        forall|y: int|
            0 <= y < adj.len() ==> #[trigger] in_degree[y] == pending(
                adj,
                before,
                y,
                adj.len() as int,
            ),
        fronts.len() == fronts_before.len() + 1,
        fronts.drop_last() == fronts_before,
        fronts.last()@ == ready,
        ready.len() > 0,
        forall|p: int, q: int| 0 <= p < q < ready.len() ==> ready[p] < ready[q],
        forall|p: int|
            0 <= p < ready.len() ==> (#[trigger] ready[p]) < before.len() && !before[ready[p] as int]
                && in_degree[ready[p] as int] == 0,
        forall|y: int|
            0 <= y < before.len() && !before[y] && in_degree[y] == 0 ==> exists|p: int|
                0 <= p < ready.len() && #[trigger] ready[p] == y,
        done.len() == adj.len(),
        layer.len() == adj.len(),
        forall|x: int|
            0 <= x < adj.len() ==> #[trigger] done[x] == (before[x] || exists|p: int|
                0 <= p < ready.len() && #[trigger] ready[p] == x),
        forall|x: int|
            0 <= x < adj.len() ==> #[trigger] layer[x] == (if before[x] || !done[x] {
                layer_before[x]
            } else {
                fronts_before.len() as int
            }),
    ensures
        in_progress(adj, done, layer, fronts),
{
    reveal(in_progress);
    let round = fronts_before.len() as int;
    let n = adj.len() as int;
    assert forall|k: int| 0 <= k < fronts_before.len() implies #[trigger] fronts[k]
        == fronts_before[k] by {
        assert(fronts.drop_last()[k] == fronts[k]);
    }
    // A node of the wavefront has all of its predecessors done before the round.
    assert forall|x: int, y: int|
        #[trigger] arc(adj, x, y) && y < adj.len() && done[y] implies done[x] && layer[x]
        < layer[y] by {
        if !before[y] {
            let p = choose|p: int| 0 <= p < ready.len() && #[trigger] ready[p] == y;
            lemma_pending_zero(adj, before, y, n);
            assert(before[x]);
        }
    }
    assert forall|y: int|
        0 <= y < adj.len() && #[trigger] done[y] && layer[y] > 0 implies exists|x: int|
        #[trigger] arc(adj, x, y) && layer[x] == layer[y] - 1 by {
        if !before[y] {
            let p = choose|p: int| 0 <= p < ready.len() && #[trigger] ready[p] == y;
            lemma_pending_zero(adj, before, y, n);
            let x = choose|x: int|
                #[trigger] arc(adj, x, y) && (!before[x] || layer_before[x] == round - 1);
            assert(before[x]);
            assert(arc(adj, x, y) && layer[x] == layer[y] - 1);
        } else {
            let x = choose|x: int| #[trigger] arc(adj, x, y) && layer_before[x] == layer_before[y] - 1;
            assert(before[x]);
            assert(arc(adj, x, y) && layer[x] == layer[y] - 1);
        }
    }
    assert forall|y: int| 0 <= y < adj.len() && !#[trigger] done[y] implies exists|x: int|
        #[trigger] arc(adj, x, y) && (!done[x] || layer[x] == round) by {
        assert(!before[y]);
        if in_degree[y] == 0 {
            let p = choose|p: int| 0 <= p < ready.len() && #[trigger] ready[p] == y;
        }
        lemma_pending_zero(adj, before, y, n);
        let x = choose|x: int| 0 <= x < n && #[trigger] arc(adj, x, y) && !before[x];
        assert(arc(adj, x, y) && (!done[x] || layer[x] == round));
    }
    assert forall|k: int| 0 <= k < fronts.len() implies {
        &&& (#[trigger] fronts[k])@.len() > 0
        &&& forall|p: int, q: int| 0 <= p < q < fronts[k]@.len() ==> fronts[k]@[p] < fronts[k]@[q]
        &&& forall|p: int|
            0 <= p < fronts[k]@.len() ==> (#[trigger] fronts[k]@[p]) < adj.len()
                && done[fronts[k]@[p] as int] && layer[fronts[k]@[p] as int] == k
    } by {
        if k < round {
            assert(fronts[k] == fronts_before[k]);
            assert forall|p: int| 0 <= p < fronts[k]@.len() implies (
            #[trigger] fronts[k]@[p]) < adj.len() && done[fronts[k]@[p] as int]
                && layer[fronts[k]@[p] as int] == k by {
                assert(before[fronts_before[k]@[p] as int]);
            }
        } else {
            assert(fronts[k] == fronts.last());
            assert forall|p: int| 0 <= p < fronts[k]@.len() implies (
            #[trigger] fronts[k]@[p]) < adj.len() && done[fronts[k]@[p] as int]
                && layer[fronts[k]@[p] as int] == k by {
                let x = ready[p] as int;
                assert(ready[p] == x);
            }
        }
    }
    assert forall|x: int| 0 <= x < adj.len() && #[trigger] done[x] implies exists|p: int|
        0 <= p < fronts[layer[x]]@.len() && #[trigger] fronts[layer[x]]@[p] == x by {
        if before[x] {
            let p = choose|p: int|
                0 <= p < fronts_before[layer_before[x]]@.len()
                    && #[trigger] fronts_before[layer_before[x]]@[p] == x;
            assert(fronts[layer[x]] == fronts_before[layer_before[x]]);
            assert(fronts[layer[x]]@[p] == x);
        } else {
            let p = choose|p: int| 0 <= p < ready.len() && #[trigger] ready[p] == x;
            assert(fronts[layer[x]] == fronts.last());
            assert(fronts[layer[x]]@[p] == x);
        }
    }
}

/// The graph can be scheduled: it has a sequence of wavefronts.
pub open spec fn has_schedule(adj: Seq<Seq<bool>>) -> bool {
    exists|fronts: Seq<Vec<usize>>| is_schedule(adj, fronts)
}

/// **A graph with a cycle has no schedule.** Where some nodes are stuck,
/// the nodes cannot be put into layers.
pub proof fn lemma_stuck_excludes_schedule(adj: Seq<Seq<bool>>, remaining: Seq<usize>)
    requires
        stuck(adj, remaining),
    ensures
        !has_schedule(adj),
{
    if has_schedule(adj) {
        let fronts = choose|fronts: Seq<Vec<usize>>| is_schedule(adj, fronts);
        lemma_schedule_excludes_stuck(adj, fronts, remaining);
    }
}

/// Among nodes `nodes`, one stands in the lowest layer.
proof fn lemma_lowest_layer(layer: Seq<int>, nodes: Seq<usize>) -> (p: int)
    requires
        nodes.len() > 0,
        forall|q: int| 0 <= q < nodes.len() ==> (#[trigger] nodes[q]) < layer.len(),
    ensures
        0 <= p < nodes.len(),
        forall|q: int| 0 <= q < nodes.len() ==> layer[nodes[p] as int] <= layer[#[trigger] nodes[q] as int],
    decreases nodes.len(),
{
    if nodes.len() == 1 {
        0
    } else {
        let shorter = nodes.drop_last();
        assert forall|q: int| 0 <= q < shorter.len() implies (#[trigger] shorter[q]) < layer.len() by {
            assert(shorter[q] == nodes[q]);
        }
        let best = lemma_lowest_layer(layer, shorter);
        let last = nodes.len() - 1;
        let p = if layer[nodes[last] as int] < layer[shorter[best] as int] {
            last
        } else {
            best
        };
        assert forall|q: int| 0 <= q < nodes.len() implies layer[nodes[p] as int]
            <= layer[#[trigger] nodes[q] as int] by {
            if q < last {
                assert(shorter[q] == nodes[q]);
            }
        }
        p
    }
}

/// **A graph with a schedule has no cycle.** Where the nodes can be put
/// into layers, no set of nodes is stuck.
pub proof fn lemma_schedule_excludes_stuck(
    adj: Seq<Seq<bool>>,
    fronts: Seq<Vec<usize>>,
    remaining: Seq<usize>,
)
    requires
        is_schedule(adj, fronts),
    ensures
        !stuck(adj, remaining),
{
    if stuck(adj, remaining) {
        let layer = choose|layer: Seq<int>| #[trigger]
            layered(adj, layer) && lists_layers(layer, fronts);
        let p = lemma_lowest_layer(layer, remaining);
        let q = choose|q: int|
            0 <= q < remaining.len() && #[trigger] arc(
                adj,
                remaining[q] as int,
                remaining[p] as int,
            );
        assert(layer[remaining[q] as int] < layer[remaining[p] as int]);
    }
}

/// Two layerings of a graph agree on the nodes that either puts in a layer up to `k`.
pub proof fn lemma_layers_agree(adj: Seq<Seq<bool>>, first: Seq<int>, second: Seq<int>, k: int)
    requires
        layered(adj, first),
        layered(adj, second),
    ensures
        forall|x: int|
            0 <= x < adj.len() && (first[x] <= k || second[x] <= k) ==> #[trigger] first[x]
                == second[x],
    decreases k + 1,
{
    if k >= 0 {
        lemma_layers_agree(adj, first, second, k - 1);
        assert forall|x: int|
            0 <= x < adj.len() && (first[x] <= k || second[x] <= k) implies #[trigger] first[x]
            == second[x] by {
            if first[x] == k {
                lemma_layer_follows(adj, first, second, k, x);
            } else if second[x] == k {
                lemma_layer_follows(adj, second, first, k, x);
            }
        }
    } else {
        assert forall|x: int|
            0 <= x < adj.len() && (first[x] <= k || second[x] <= k) implies #[trigger] first[x]
            == second[x] by {
            assert(first[x] >= 0);
            assert(second[x] >= 0);
        }
    }
}

/// A node in layer `k` of one layering is in layer `k` of another that
/// agrees with the first on the layers before `k`.
proof fn lemma_layer_follows(
    adj: Seq<Seq<bool>>,
    first: Seq<int>,
    second: Seq<int>,
    k: int,
    x: int,
)
    requires
        layered(adj, first),
        layered(adj, second),
        0 <= x < adj.len(),
        first[x] == k,
        forall|y: int|
            0 <= y < adj.len() && (first[y] < k || second[y] < k) ==> #[trigger] first[y]
                == second[y],
    ensures
        second[x] == k,
{
    assert(second[x] >= 0);
    if k > 0 {
        let p = choose|p: int| #[trigger] arc(adj, p, x) && first[p] == first[x] - 1;
        assert(first[p] == second[p]);
        assert(second[p] < second[x]);
    }
    if second[x] > k {
        let q = choose|q: int| #[trigger] arc(adj, q, x) && second[q] == second[x] - 1;
        assert(first[q] < first[x]);
        assert(first[q] == second[q]);
    }
}

/// Two strictly ascending lists with the same elements are the same list.
proof fn lemma_ascending_same(a: Seq<usize>, b: Seq<usize>)
    requires
        forall|p: int, q: int| 0 <= p < q < a.len() ==> a[p] < a[q],
        forall|p: int, q: int| 0 <= p < q < b.len() ==> b[p] < b[q],
        forall|p: int| 0 <= p < a.len() ==> b.contains(#[trigger] a[p]),
        forall|p: int| 0 <= p < b.len() ==> a.contains(#[trigger] b[p]),
    ensures
        a == b,
    decreases a.len(),
{
    if a.len() == 0 {
        if b.len() > 0 {
            assert(a.contains(b[0]));
        }
        assert(a =~= b);
    } else {
        let la = a.len() - 1;
        assert(b.contains(a[la]));
        let qb = choose|q: int| 0 <= q < b.len() && b[q] == a[la];
        let lb = b.len() - 1;
        assert(a.contains(b[lb]));
        let qa = choose|q: int| 0 <= q < a.len() && a[q] == b[lb];
        // The last elements are the greatest, so they are the same.
        assert(a[la] == b[lb]) by {
            if qb < lb {
                assert(b[qb] < b[lb]);
            }
            if qa < la {
                assert(a[qa] < a[la]);
            }
        }
        let a1 = a.drop_last();
        let b1 = b.drop_last();
        assert forall|p: int| 0 <= p < a1.len() implies b1.contains(#[trigger] a1[p]) by {
            assert(b.contains(a[p]));
            let q = choose|q: int| 0 <= q < b.len() && b[q] == a[p];
            assert(a[p] < a[la]);
            assert(q < lb);
            assert(b1[q] == a1[p]);
        }
        assert forall|p: int| 0 <= p < b1.len() implies a1.contains(#[trigger] b1[p]) by {
            assert(a.contains(b[p]));
            let q = choose|q: int| 0 <= q < a.len() && a[q] == b[p];
            assert(b[p] < b[lb]);
            assert(q < la);
            assert(a1[q] == b1[p]);
        }
        lemma_ascending_same(a1, b1);
        assert(a =~= a1.push(a[la]));
        assert(b =~= b1.push(b[lb]));
    }
}

/// **The schedule of a graph is unique.** Two sequences of wavefronts
/// that are schedules of the same graph hold the same nodes in the same
/// order, wavefront by wavefront.
pub proof fn lemma_schedule_unique(
    adj: Seq<Seq<bool>>,
    first: Seq<Vec<usize>>,
    second: Seq<Vec<usize>>,
)
    requires
        is_schedule(adj, first),
        is_schedule(adj, second),
    ensures
        first.len() == second.len(),
        forall|k: int| 0 <= k < first.len() ==> (#[trigger] first[k])@ == second[k]@,
{
    let l1 = choose|layer: Seq<int>| #[trigger] layered(adj, layer) && lists_layers(layer, first);
    let l2 = choose|layer: Seq<int>| #[trigger] layered(adj, layer) && lists_layers(layer, second);
    assert forall|x: int| 0 <= x < adj.len() implies l1[x] == l2[x] by {
        lemma_layers_agree(adj, l1, l2, l1[x]);
    }
    assert(l1 =~= l2);
    if first.len() > 0 {
        let x = first[first.len() - 1]@[0];
        assert(l1[x as int] == first.len() - 1);
    }
    if second.len() > 0 {
        let x = second[second.len() - 1]@[0];
        assert(l2[x as int] == second.len() - 1);
    }
    assert forall|k: int| 0 <= k < first.len() implies (#[trigger] first[k])@ == second[k]@ by {
        let a = first[k]@;
        let b = second[k]@;
        assert forall|p: int| 0 <= p < a.len() implies b.contains(#[trigger] a[p]) by {
            let x = a[p] as int;
            assert(l1[x] == k);
            let q = choose|q: int| 0 <= q < second[l2[x]]@.len() && #[trigger] second[l2[x]]@[q] == x;
            assert(b[q] == a[p]);
        }
        assert forall|p: int| 0 <= p < b.len() implies a.contains(#[trigger] b[p]) by {
            let x = b[p] as int;
            assert(l2[x] == k);
            let q = choose|q: int| 0 <= q < first[l1[x]]@.len() && #[trigger] first[l1[x]]@[q] == x;
            assert(a[q] == b[p]);
        }
        lemma_ascending_same(a, b);
    }
}

/// Two nodes of one wavefront have no edge between them.
pub proof fn lemma_wavefront_independent(
    adj: Seq<Seq<bool>>,
    fronts: Seq<Vec<usize>>,
    k: int,
    p: int,
    q: int,
)
    requires
        is_schedule(adj, fronts),
        0 <= k < fronts.len(),
        0 <= p < fronts[k]@.len(),
        0 <= q < fronts[k]@.len(),
    ensures
        !arc(adj, fronts[k]@[p] as int, fronts[k]@[q] as int),
{
    let layer = choose|layer: Seq<int>| #[trigger] layered(adj, layer) && lists_layers(layer, fronts);
    assert(layer[fronts[k]@[p] as int] == k);
    assert(layer[fronts[k]@[q] as int] == k);
}

} // verus!
