//! The order in which the tasks of a manifest are launched.
//!
//! Tasks are numbered in the order of the manifest, and a dependency graph
//! gives for each task the numbers of the tasks it depends on. The launch
//! order puts every task behind its dependencies. A task is free once all
//! its dependencies are placed, and at each place of the launch order stands
//! the free task that comes first in the manifest.

use vstd::prelude::*;

verus! {

/// Whether every dependency in the graph is the number of one of its tasks.
pub open spec fn well_formed(graph: Seq<Seq<int>>) -> bool {
    forall|v: int, j: int|
        0 <= v < graph.len() && 0 <= j < graph[v].len() ==> 0 <= #[trigger] graph[v][j]
            < graph.len()
}

/// Whether `order` holds each of the numbers below `n` once.
pub open spec fn is_arrangement(order: Seq<int>, n: nat) -> bool {
    &&& order.len() == n
    &&& order.no_duplicates()
    &&& forall|a: int| 0 <= a < order.len() ==> 0 <= #[trigger] order[a] < n
}

/// Where `v` stands in `order`: the index of its last occurrence, or -1
/// where it does not occur.
pub open spec fn position<A>(order: Seq<A>, v: A) -> int
    decreases order.len(),
{
    if order.len() == 0 {
        -1
    } else if order.last() == v {
        order.len() - 1
    } else {
        position(order.drop_last(), v)
    }
}

/// Whether every task stands behind all of its dependencies.
pub open spec fn dependencies_first(graph: Seq<Seq<int>>, order: Seq<int>) -> bool {
    forall|a: int, j: int|
        0 <= a < order.len() && 0 <= j < graph[order[a]].len() ==> 0 <= position(
            order,
            #[trigger] graph[order[a]][j],
        ) < a
}
/// Whether task `v` is free once the tasks in `placed` are placed: it is
/// not placed itself, and each of its dependencies is.
pub open spec fn is_free(graph: Seq<Seq<int>>, placed: Seq<int>, v: int) -> bool {
    &&& 0 <= v < graph.len()
    &&& !placed.contains(v)
    &&& forall|j: int| 0 <= j < graph[v].len() ==> placed.contains(#[trigger] graph[v][j])
}

/// Whether no task that is free at a place comes before the task that
/// stands there in the manifest.
pub open spec fn first_free_each(graph: Seq<Seq<int>>, order: Seq<int>) -> bool {
    forall|a: int, v: int|
        0 <= a < order.len() && #[trigger] is_free(graph, order.take(a), v) ==> order[a] <= v
}

/// Whether `order` is the launch order of the graph: it holds every task
/// once, each behind its dependencies, and at each place the first task of
/// the manifest among those that are free there.
pub open spec fn is_launch_order(graph: Seq<Seq<int>>, order: Seq<int>) -> bool {
    &&& is_arrangement(order, graph.len())
    &&& dependencies_first(graph, order)
    &&& first_free_each(graph, order)
}

/// Whether the tasks can be put in an order with every task behind its
/// dependencies.
pub open spec fn orderable(graph: Seq<Seq<int>>) -> bool {
    exists|order: Seq<int>|
        is_arrangement(order, graph.len()) && #[trigger] dependencies_first(graph, order)
}

/// The launch order of an orderable graph.
pub open spec fn launch_order(graph: Seq<Seq<int>>) -> Seq<int> {
    choose|order: Seq<int>| is_launch_order(graph, order)
}

/// Whether `walk` leads from a task along dependencies back to the same
/// task.
pub open spec fn is_cycle(graph: Seq<Seq<int>>, walk: Seq<int>) -> bool {
    &&& walk.len() >= 2
    &&& walk[0] == walk.last()
    &&& forall|k: int|
        0 <= k < walk.len() - 1 ==> 0 <= #[trigger] walk[k] < graph.len() && graph[walk[k]].contains(
            walk[k + 1],
        )
}

/// Whether dependencies run in a circle somewhere.
pub open spec fn has_cycle(graph: Seq<Seq<int>>) -> bool {
    exists|walk: Seq<int>| is_cycle(graph, walk)
}

/// How often `v` stands in `s`.
spec fn count(s: Seq<int>, v: int) -> nat
    decreases s.len(),
{
    if s.len() == 0 {
        0
    } else {
        count(s.drop_last(), v) + if s.last() == v {
            1nat
        } else {
            0nat
        }
    }
}

/// How many of `among`, repeats counted, do not stand in `done`.
spec fn unmet(among: Seq<int>, done: Seq<int>) -> nat
    decreases among.len(),
{
    if among.len() == 0 {
        0
    } else {
        unmet(among.drop_last(), done) + if done.contains(among.last()) {
            0nat
        } else {
            1nat
        }
    }
}

/// `position` is an index of `v` where `v` occurs, and -1 only where it
/// does not.
pub proof fn lemma_position<A>(order: Seq<A>, v: A)
    ensures
        -1 <= position(order, v) < order.len(),
        position(order, v) >= 0 ==> order[position(order, v)] == v,
        position(order, v) >= 0 <==> order.contains(v),
    decreases order.len(),
{
    if order.len() > 0 {
        if order.last() == v {
            assert(order[order.len() - 1] == v);
        } else {
            let front = order.drop_last();
            lemma_position(front, v);
            if position(front, v) >= 0 {
                assert(order[position(front, v)] == v);
            }
            if order.contains(v) {
                let i = choose|i: int| 0 <= i < order.len() && order[i] == v;
                assert(front[i] == v);
            }
        }
    }
}

/// In a sequence without repeats, what stands at an index has that index
/// as its position.
pub proof fn lemma_position_at<A>(order: Seq<A>, at: int)
    requires
        order.no_duplicates(),
        0 <= at < order.len(),
    ensures
        position(order, order[at]) == at,
{
    lemma_position(order, order[at]);
}

/// One more element at the end leaves the position of every other value
/// as it is.
pub proof fn lemma_position_push<A>(order: Seq<A>, last: A, v: A)
    requires
        v != last,
    ensures
        position(order.push(last), v) == position(order, v),
{
    assert(order.push(last).drop_last() =~= order);
}
/// Counting up to an index and one further.
proof fn lemma_count_take(s: Seq<int>, k: int, v: int)
    requires
        0 <= k < s.len(),
    ensures
        count(s.take(k + 1), v) == count(s.take(k), v) + if s[k] == v {
            1nat
        } else {
            0nat
        },
        count(s.take(k + 1), v) <= count(s, v),
    decreases s.len() - k,
{
    assert(s.take(k + 1).drop_last() =~= s.take(k));
    if k + 1 == s.len() {
        assert(s.take(k + 1) =~= s);
    } else {
        lemma_count_take(s, k + 1, v);
    }
}

/// With nothing done, every dependency is unmet.
proof fn lemma_unmet_start(among: Seq<int>)
    ensures
        unmet(among, Seq::<int>::empty()) == among.len(),
    decreases among.len(),
{
    if among.len() > 0 {
        lemma_unmet_start(among.drop_last());
    }
}

/// One more task done meets as many dependencies as name that task.
proof fn lemma_unmet_push(among: Seq<int>, done: Seq<int>, u: int)
    requires
        !done.contains(u),
    ensures
        count(among, u) <= unmet(among, done),
        unmet(among, done.push(u)) == unmet(among, done) - count(among, u),
    decreases among.len(),
{
    if among.len() > 0 {
        lemma_unmet_push(among.drop_last(), done, u);
        let d = among.last();
        let more = done.push(u);
        if d == u {
            assert(more[done.len() as int] == u);
        } else {
            if done.contains(d) {
                let i = choose|i: int| 0 <= i < done.len() && done[i] == d;
                assert(more[i] == d);
            }
            if more.contains(d) {
                let i = choose|i: int| 0 <= i < more.len() && more[i] == d;
                assert(done[i] == d);
            }
        }
    }
}

/// No dependency is unmet exactly where all of them are done.
proof fn lemma_unmet_none(among: Seq<int>, done: Seq<int>)
    ensures
        unmet(among, done) == 0 <==> forall|j: int|
            0 <= j < among.len() ==> done.contains(#[trigger] among[j]),
    decreases among.len(),
{
    if among.len() > 0 {
        let front = among.drop_last();
        lemma_unmet_none(front, done);
        if unmet(among, done) == 0 {
            assert forall|j: int| 0 <= j < among.len() implies done.contains(
                #[trigger] among[j],
            ) by {
                if j < front.len() {
                    assert(front[j] == among[j]);
                }
            }
        }
        if forall|j: int| 0 <= j < among.len() ==> done.contains(#[trigger] among[j]) {
            assert(done.contains(among[among.len() - 1]));
            assert forall|j: int| 0 <= j < front.len() implies done.contains(
                #[trigger] front[j],
            ) by {
                assert(front[j] == among[j]);
            }
        }
    }
}

/// A sequence without repeats of numbers below `n` has at most `n`
/// elements, and where it has fewer, a number below `n` is missing.
pub proof fn lemma_arrangement_bound(order: Seq<int>, n: nat)
    requires
        order.no_duplicates(),
        forall|a: int| 0 <= a < order.len() ==> 0 <= #[trigger] order[a] < n,
    ensures
        order.len() <= n,
        order.len() < n ==> exists|v: int| 0 <= v < n && !order.contains(v),
        order.len() == n ==> forall|v: int| 0 <= v < n ==> order.contains(v),
{
    let all = vstd::set_lib::set_int_range(0, n as int);
    let held = order.to_set();
    vstd::set_lib::lemma_int_range(0, n as int);
    order.unique_seq_to_set();
    vstd::seq_lib::seq_to_set_is_finite(order);
    assert(held.subset_of(all)) by {
        assert forall|v: int| held.contains(v) implies all.contains(v) by {
            let i = choose|i: int| 0 <= i < order.len() && order[i] == v;
            assert(0 <= order[i] < n);
        }
    }
    vstd::set_lib::lemma_len_subset(held, all);
    if order.len() < n {
        if forall|v: int| 0 <= v < n ==> order.contains(v) {
            assert(all.subset_of(held));
            vstd::set_lib::lemma_len_subset(all, held);
        }
    }
    if order.len() == n {
        vstd::set_lib::lemma_subset_equality(held, all);
        assert forall|v: int| 0 <= v < n implies order.contains(v) by {
            assert(all.contains(v));
            assert(held.contains(v));
        }
    }
}

/// Whether `dependents` lists for each task the tasks that depend on it,
/// once for each time they name it.
spec fn is_dependents(graph: Seq<Seq<int>>, dependents: Seq<Seq<int>>) -> bool {
    &&& dependents.len() == graph.len()
    &&& forall|u: int, v: int|
        0 <= u < graph.len() && 0 <= v < graph.len() ==> #[trigger] count(dependents[u], v)
            == count(graph[v], u)
    &&& forall|u: int, t: int|
        0 <= u < graph.len() && 0 <= t < dependents[u].len() ==> 0 <= #[trigger] dependents[u][t]
            < graph.len()
}

/// What holds of the tasks placed so far: `order` holds them, each once and
/// behind its dependencies, with the first free task of the manifest at
/// each place, and `placed` marks them.
spec fn order_inv(graph: Seq<Seq<int>>, order: Seq<int>, placed: Seq<bool>) -> bool {
    &&& well_formed(graph)
    &&& placed.len() == graph.len()
    &&& order.no_duplicates()
    &&& forall|a: int| 0 <= a < order.len() ==> 0 <= #[trigger] order[a] < graph.len()
    &&& forall|v: int| 0 <= v < graph.len() ==> #[trigger] placed[v] == order.contains(v)
    &&& dependencies_first(graph, order)
    &&& first_free_each(graph, order)
}

/// Whether `waiting` counts for each task its dependencies that are not in
/// `order`.
spec fn counts_inv(graph: Seq<Seq<int>>, order: Seq<int>, waiting: Seq<int>) -> bool {
    &&& waiting.len() == graph.len()
    &&& forall|v: int| 0 <= v < graph.len() ==> #[trigger] waiting[v] == unmet(graph[v], order)
}

/// What holds while the tasks that depend on a task just placed are told
/// so, one mention after the other; `told` mentions have been dealt with,
/// and `before` is the order without the task just placed.
spec fn telling_inv(
    graph: Seq<Seq<int>>,
    mentions: Seq<int>,
    before: Seq<int>,
    told: int,
    waiting: Seq<int>,
) -> bool {
    &&& 0 <= told <= mentions.len()
    &&& waiting.len() == graph.len()
    &&& forall|v: int|
        0 <= v < graph.len() ==> #[trigger] waiting[v] == unmet(graph[v], before) - count(
            mentions.take(told),
            v,
        )
}

/// A task stands in a launch order at the place at which it is free.
proof fn lemma_placed_is_free(graph: Seq<Seq<int>>, order: Seq<int>, a: int)
    requires
        order.no_duplicates(),
        forall|b: int| 0 <= b < order.len() ==> 0 <= #[trigger] order[b] < graph.len(),
        dependencies_first(graph, order),
        0 <= a < order.len(),
    ensures
        is_free(graph, order.take(a), order[a]),
{
    let front = order.take(a);
    let v = order[a];
    if front.contains(v) {
        let i = choose|i: int| 0 <= i < front.len() && front[i] == v;
        assert(order[i] == order[a]);
    }
    assert forall|j: int| 0 <= j < graph[v].len() implies front.contains(#[trigger] graph[v][j]) by {
        let p = position(order, graph[order[a]][j]);
        lemma_position(order, graph[v][j]);
        assert(front[p] == graph[v][j]);
    }
}

/// Placing the first free task of the manifest at the end of the order.
proof fn lemma_place(
    graph: Seq<Seq<int>>,
    order: Seq<int>,
    waiting: Seq<int>,
    placed: Seq<bool>,
    u: int,
)
    requires
        order_inv(graph, order, placed),
        counts_inv(graph, order, waiting),
        0 <= u < graph.len(),
        !placed[u],
        waiting[u] == 0,
        forall|v: int| 0 <= v < u ==> #[trigger] placed[v] || waiting[v] != 0,
    ensures
        !order.contains(u),
        order_inv(graph, order.push(u), placed.update(u, true)),
{
    let more = order.push(u);
    let m = order.len() as int;
    assert(placed[u] == order.contains(u));
    assert(waiting[u] == unmet(graph[u], order));
    lemma_unmet_none(graph[u], order);
    assert forall|v: int| 0 <= v < graph.len() implies #[trigger] placed.update(u, true)[v]
        == more.contains(v) by {
        assert(placed[v] == order.contains(v));
        if v == u {
            assert(more[m] == u);
        } else {
            if order.contains(v) {
                let i = choose|i: int| 0 <= i < order.len() && order[i] == v;
                assert(more[i] == v);
            }
            if more.contains(v) {
                let i = choose|i: int| 0 <= i < more.len() && more[i] == v;
                assert(order[i] == v);
            }
        }
    }
    assert(dependencies_first(graph, more)) by {
        assert forall|a: int, j: int|
            0 <= a < more.len() && 0 <= j < graph[more[a]].len() implies 0 <= position(
            more,
            #[trigger] graph[more[a]][j],
        ) < a by {
            let d = graph[more[a]][j];
            if a < m {
                assert(more[a] == order[a]);
                assert(0 <= position(order, graph[order[a]][j]) < a);
            } else {
                assert(order.contains(graph[u][j]));
            }
            lemma_position(order, d);
            lemma_position_push(order, u, d);
        }
    }
    assert(first_free_each(graph, more)) by {
        assert forall|a: int, v: int|
            0 <= a < more.len() && #[trigger] is_free(graph, more.take(a), v) implies more[a]
            <= v by {
            if a < m {
                assert(more.take(a) =~= order.take(a));
                assert(is_free(graph, order.take(a), v));
                assert(more[a] == order[a]);
            } else {
                assert(more.take(a) =~= order);
                assert(placed[v] == order.contains(v));
                assert(waiting[v] == unmet(graph[v], order));
                lemma_unmet_none(graph[v], order);
                if v < u {
                    assert(placed[v] || waiting[v] != 0);
                }
            }
        }
    }
}

/// One mention while the dependents of a task just placed are told: the
/// task mentioned has a dependency left to wait for, and waits for one
/// fewer after that.
proof fn lemma_tell_step(
    graph: Seq<Seq<int>>,
    dependents: Seq<Seq<int>>,
    before: Seq<int>,
    u: int,
    told: int,
    waiting: Seq<int>,
)
    requires
        is_dependents(graph, dependents),
        0 <= u < graph.len(),
        !before.contains(u),
        telling_inv(graph, dependents[u], before, told, waiting),
        told < dependents[u].len(),
    ensures
        ({
            let w = dependents[u][told];
            &&& 0 <= w < graph.len()
            &&& waiting[w] >= 1
            &&& telling_inv(
                graph,
                dependents[u],
                before,
                told + 1,
                waiting.update(w, waiting[w] - 1),
            )
        }),
{
    let mentions = dependents[u];
    let w = mentions[told];
    let fewer = waiting.update(w, waiting[w] - 1);
    assert(0 <= w < graph.len());
    lemma_count_take(mentions, told, w);
    lemma_unmet_push(graph[w], before, u);
    assert(count(dependents[u], w) == count(graph[w], u));
    assert forall|v: int| 0 <= v < graph.len() implies #[trigger] fewer[v] == unmet(
        graph[v],
        before,
    ) - count(mentions.take(told + 1), v) by {
        lemma_count_take(mentions, told, v);
    }
}

/// Once every dependent of the task just placed is told, the counts are
/// those for the order with that task.
proof fn lemma_tell_end(
    graph: Seq<Seq<int>>,
    dependents: Seq<Seq<int>>,
    before: Seq<int>,
    u: int,
    waiting: Seq<int>,
)
    requires
        is_dependents(graph, dependents),
        0 <= u < graph.len(),
        !before.contains(u),
        telling_inv(graph, dependents[u], before, dependents[u].len() as int, waiting),
    ensures
        counts_inv(graph, before.push(u), waiting),
{
    let mentions = dependents[u];
    assert(mentions.take(mentions.len() as int) =~= mentions);
    assert forall|v: int| 0 <= v < graph.len() implies #[trigger] waiting[v] == unmet(
        graph[v],
        before.push(u),
    ) by {
        lemma_unmet_push(graph[v], before, u);
        assert(count(dependents[u], v) == count(graph[v], u));
    }
}

/// Where tasks are left and none of them is free, dependencies run in a
/// circle and the tasks cannot be ordered.
proof fn lemma_none_free(
    graph: Seq<Seq<int>>,
    order: Seq<int>,
    waiting: Seq<int>,
    placed: Seq<bool>,
)
    requires
        order_inv(graph, order, placed),
        counts_inv(graph, order, waiting),
        order.len() < graph.len(),
        forall|v: int| 0 <= v < graph.len() ==> #[trigger] placed[v] || waiting[v] != 0,
    ensures
        has_cycle(graph),
        !orderable(graph),
{
    lemma_arrangement_bound(order, graph.len());
    let missing = choose|v: int| 0 <= v < graph.len() && !order.contains(v);
    assert(stuck(graph, order)) by {
        assert forall|v: int| 0 <= v < graph.len() && !order.contains(v) implies exists|j: int|
            0 <= j < graph[v].len() && !order.contains(#[trigger] graph[v][j]) by {
            assert(placed[v] == order.contains(v));
            assert(waiting[v] == unmet(graph[v], order));
            lemma_unmet_none(graph[v], order);
        }
    }
    lemma_stuck_has_cycle(graph, order, missing);
    lemma_cycle_or_order(graph);
}

/// Whether `dependents` lists the mentions made by the tasks below `task`
/// and by the first `listed` dependencies of `task` itself.
spec fn dependents_upto(
    graph: Seq<Seq<int>>,
    dependents: Seq<Seq<int>>,
    task: int,
    listed: int,
) -> bool {
    &&& dependents.len() == graph.len()
    &&& forall|u: int, v: int|
        0 <= u < graph.len() && 0 <= v < graph.len() ==> #[trigger] count(dependents[u], v) == (
        if v < task {
            count(graph[v], u)
        } else if v == task {
            count(graph[v].take(listed), u)
        } else {
            0
        })
    &&& forall|u: int, t: int|
        0 <= u < graph.len() && 0 <= t < dependents[u].len() ==> 0 <= #[trigger] dependents[u][t]
            < graph.len()
}

/// Listing one more dependency of a task.
proof fn lemma_dependents_step(
    graph: Seq<Seq<int>>,
    dependents: Seq<Seq<int>>,
    task: int,
    listed: int,
)
    requires
        well_formed(graph),
        0 <= task < graph.len(),
        0 <= listed < graph[task].len(),
        dependents_upto(graph, dependents, task, listed),
    ensures
        ({
            let d = graph[task][listed];
            dependents_upto(
                graph,
                dependents.update(d, dependents[d].push(task)),
                task,
                listed + 1,
            )
        }),
{
    let d = graph[task][listed];
    let more = dependents.update(d, dependents[d].push(task));
    assert(dependents[d].push(task).drop_last() =~= dependents[d]);
    assert forall|u: int, v: int| 0 <= u < graph.len() && 0 <= v < graph.len() implies #[trigger] count(
        more[u],
        v,
    ) == (if v < task {
        count(graph[v], u)
    } else if v == task {
        count(graph[v].take(listed + 1), u)
    } else {
        0
    }) by {
        assert(count(dependents[u], v) == (if v < task {
            count(graph[v], u)
        } else if v == task {
            count(graph[v].take(listed), u)
        } else {
            0
        }));
        if v == task {
            lemma_count_take(graph[task], listed, u);
        }
    }
}

/// Going on to the next task.
proof fn lemma_dependents_next(graph: Seq<Seq<int>>, dependents: Seq<Seq<int>>, task: int)
    requires
        0 <= task < graph.len(),
        dependents_upto(graph, dependents, task, graph[task].len() as int),
    ensures
        dependents_upto(graph, dependents, task + 1, 0),
        task + 1 == graph.len() ==> is_dependents(graph, dependents),
{
    assert(graph[task].take(graph[task].len() as int) =~= graph[task]);
    assert forall|u: int, v: int| 0 <= u < graph.len() && 0 <= v < graph.len() implies #[trigger] count(
        dependents[u],
        v,
    ) == (if v < task + 1 {
        count(graph[v], u)
    } else if v == task + 1 {
        count(graph[v].take(0), u)
    } else {
        0
    }) by {
        assert(count(dependents[u], v) == (if v < task {
            count(graph[v], u)
        } else if v == task {
            count(graph[v].take(graph[task].len() as int), u)
        } else {
            0
        }));
        if v == task + 1 {
            assert(graph[v].take(0) =~= Seq::<int>::empty());
        }
    }
}

/// The numbers in `s`, as integers.
pub open spec fn ints(s: Seq<usize>) -> Seq<int> {
    s.map_values(|x: usize| x as int)
}

/// The graph that lists for each task the numbers in `lists`.
pub open spec fn graph_of(lists: Seq<Seq<usize>>) -> Seq<Seq<int>> {
    lists.map_values(|list: Seq<usize>| ints(list))
}

/// Whether every dependency in `deps` is the number of one of its tasks.
pub fn graph_is_well_formed(deps: &Vec<Vec<usize>>) -> (sound: bool)
    ensures
        sound == well_formed(graph_of(deps.deep_view())),
{
    let ghost graph = graph_of(deps.deep_view());
    let n = deps.len();
    let mut v: usize = 0;
    while v < n
        invariant
            v <= n,
            n == deps.len(),
            graph == graph_of(deps.deep_view()),
            forall|a: int, j: int|
                0 <= a < v && 0 <= j < graph[a].len() ==> 0 <= #[trigger] graph[a][j] < n,
        decreases n - v,
    {
        let mut j: usize = 0;
        while j < deps[v].len()
            invariant
                v < n,
                n == deps.len(),
                j <= deps@[v as int]@.len(),
                graph == graph_of(deps.deep_view()),
                forall|a: int, b: int|
                    0 <= a < v && 0 <= b < graph[a].len() ==> 0 <= #[trigger] graph[a][b] < n,
                forall|b: int| 0 <= b < j ==> 0 <= #[trigger] graph[v as int][b] < n,
            decreases deps@[v as int]@.len() - j,
        {
            proof {
                assert(graph[v as int][j as int] == deps@[v as int]@[j as int]);
            }
            if deps[v][j] >= n {
                return false;
            }
            j += 1;
        }
        proof {
            assert(graph[v as int].len() == deps@[v as int]@.len());
        }
        v += 1;
    }
    true
}

/// For each task the tasks that depend on it, and for each task the number
/// of its dependencies.
#[verifier::rlimit(50)]
fn dependents_of(deps: &Vec<Vec<usize>>) -> (built: (Vec<Vec<usize>>, Vec<usize>))
    requires
        well_formed(graph_of(deps.deep_view())),
    ensures
        is_dependents(graph_of(deps.deep_view()), graph_of(built.0.deep_view())),
        built.1.len() == deps.len(),
        forall|v: int| 0 <= v < deps.len() ==> #[trigger] built.1@[v] == deps@[v].len(),
{
    let n = deps.len();
    let ghost graph = graph_of(deps.deep_view());
    let mut dependents: Vec<Vec<usize>> = Vec::new();
    let mut waiting: Vec<usize> = Vec::new();
    while dependents.len() < n
        invariant
            dependents.len() <= n,
            waiting.len() == dependents.len(),
            forall|u: int| 0 <= u < dependents.len() ==> (#[trigger] dependents@[u])@.len() == 0,
            forall|v: int| 0 <= v < waiting.len() ==> #[trigger] waiting@[v] == 0,
        decreases n - dependents.len(),
    {
        dependents.push(Vec::new());
        waiting.push(0);
    }
    proof {
        let none = graph_of(dependents.deep_view());
        assert forall|u: int, v: int| 0 <= u < n && 0 <= v < n implies #[trigger] count(none[u], v)
            == 0 by {
            assert(none[u] =~= Seq::<int>::empty());
        }
        assert forall|u: int, v: int|
            0 <= u < graph.len() && 0 <= v < graph.len() implies #[trigger] count(
            graph[v].take(0),
            u,
        ) == 0 by {
            assert(graph[v].take(0) =~= Seq::<int>::empty());
        }
        assert(dependents_upto(graph, none, 0, 0));
    }
    let mut task: usize = 0;
    while task < n
        invariant
            task <= n,
            n == deps.len(),
            graph == graph_of(deps.deep_view()),
            well_formed(graph),
            dependents.len() == n,
            waiting.len() == n,
            dependents_upto(graph, graph_of(dependents.deep_view()), task as int, 0),
            n == 0 ==> is_dependents(graph, graph_of(dependents.deep_view())),
            task == n ==> is_dependents(graph, graph_of(dependents.deep_view())),
            forall|v: int|
                0 <= v < n ==> #[trigger] waiting@[v] == (if v < task {
                    deps@[v].len()
                } else {
                    0
                }),
        decreases n - task,
    {
        let mut listed: usize = 0;
        while listed < deps[task].len()
            invariant
                task < n,
                n == deps.len(),
                listed <= deps@[task as int].len(),
                graph == graph_of(deps.deep_view()),
                well_formed(graph),
                dependents.len() == n,
                waiting.len() == n,
                dependents_upto(
                    graph,
                    graph_of(dependents.deep_view()),
                    task as int,
                    listed as int,
                ),
                forall|v: int|
                    0 <= v < n ==> #[trigger] waiting@[v] == (if v < task {
                        deps@[v].len()
                    } else if v == task {
                        listed
                    } else {
                        0
                    }),
            decreases deps@[task as int].len() - listed,
        {
            let d = deps[task][listed];
            let ghost before = graph_of(dependents.deep_view());
            proof {
                assert(graph[task as int][listed as int] == d);
                lemma_dependents_step(graph, before, task as int, listed as int);
            }
            dependents[d].push(task);
            let more = waiting[task] + 1;
            waiting.set(task, more);
            proof {
                let after = graph_of(dependents.deep_view());
                let expected = before.update(d as int, before[d as int].push(task as int));
                assert(after.len() == expected.len());
                assert forall|u: int| 0 <= u < after.len() implies after[u] =~= expected[u] by {
                    if u == d {
                    } else {
                    }
                }
                assert(after =~= expected);
            }
            listed += 1;
        }
        proof {
            assert(graph[task as int].len() == deps@[task as int].len());
            lemma_dependents_next(graph, graph_of(dependents.deep_view()), task as int);
        }
        task += 1;
    }
    proof {
        if n == 0 {
            assert(is_dependents(graph, graph_of(dependents.deep_view())));
        }
    }
    (dependents, waiting)
}

/// The launch order of the tasks whose dependencies `deps` lists by number:
/// at each place the first task of the manifest among those not yet placed
/// whose dependencies are all placed. Gives nothing where dependencies run
/// in a circle, so that the tasks cannot be ordered.
#[verifier::rlimit(50)]
pub fn launch_order_of(deps: &Vec<Vec<usize>>) -> (found: Option<Vec<usize>>)
    requires
        well_formed(graph_of(deps.deep_view())),
    ensures
        match found {
            Some(order) => is_launch_order(graph_of(deps.deep_view()), ints(order@)),
            None => !orderable(graph_of(deps.deep_view())) && has_cycle(
                graph_of(deps.deep_view()),
            ),
        },
{
    let n = deps.len();
    let ghost graph = graph_of(deps.deep_view());
    let (dependents, mut waiting) = dependents_of(deps);
    let mut placed: Vec<bool> = Vec::new();
    while placed.len() < n
        invariant
            placed.len() <= n,
            forall|v: int| 0 <= v < placed.len() ==> !#[trigger] placed@[v],
        decreases n - placed.len(),
    {
        placed.push(false);
    }
    let mut order: Vec<usize> = Vec::new();
    proof {
        let none = ints(order@);
        assert(none =~= Seq::<int>::empty());
        assert forall|v: int| 0 <= v < graph.len() implies #[trigger] ints(waiting@)[v] == unmet(
            graph[v],
            none,
        ) by {
            assert(waiting@[v] == deps@[v].len());
            assert(graph[v].len() == deps@[v]@.len());
            lemma_unmet_start(graph[v]);
        }
    }
    while order.len() < n
        invariant
            n == deps.len(),
            graph == graph_of(deps.deep_view()),
            dependents.len() == n,
            waiting.len() == n,
            placed.len() == n,
            is_dependents(graph, graph_of(dependents.deep_view())),
            order_inv(graph, ints(order@), placed@),
            counts_inv(graph, ints(order@), ints(waiting@)),
        decreases n - order.len(),
    {
        let mut u: usize = 0;
        while u < n && (placed[u] || waiting[u] != 0)
            invariant
                u <= n,
                waiting.len() == n,
                placed.len() == n,
                forall|v: int| 0 <= v < u ==> #[trigger] placed@[v] || ints(waiting@)[v] != 0,
            decreases n - u,
        {
            u += 1;
        }
        if u == n {
            proof {
                lemma_none_free(graph, ints(order@), ints(waiting@), placed@);
            }
            return None;
        }
        let ghost before = ints(order@);
        let ghost marks = placed@;
        let ghost mentions = graph_of(dependents.deep_view())[u as int];
        proof {
            assert(ints(waiting@)[u as int] == 0);
            lemma_place(graph, before, ints(waiting@), marks, u as int);
            assert(mentions.take(0) =~= Seq::<int>::empty());
        }
        order.push(u);
        placed.set(u, true);
        proof {
            assert(ints(order@) =~= before.push(u as int));
        }
        let mut told: usize = 0;
        while told < dependents[u].len()
            invariant
                n == deps.len(),
                graph == graph_of(deps.deep_view()),
                dependents.len() == n,
                waiting.len() == n,
                u < n,
                !before.contains(u as int),
                mentions == graph_of(dependents.deep_view())[u as int],
                mentions.len() == dependents@[u as int]@.len(),
                is_dependents(graph, graph_of(dependents.deep_view())),
                telling_inv(graph, mentions, before, told as int, ints(waiting@)),
            decreases dependents@[u as int]@.len() - told,
        {
            let w = dependents[u][told];
            let ghost counts = ints(waiting@);
            proof {
                lemma_tell_step(
                    graph,
                    graph_of(dependents.deep_view()),
                    before,
                    u as int,
                    told as int,
                    counts,
                );
                assert(mentions[told as int] == w);
                assert(counts[w as int] == waiting@[w as int]);
            }
            let left = waiting[w] - 1;
            waiting.set(w, left);
            proof {
                assert(ints(waiting@) =~= counts.update(w as int, counts[w as int] - 1));
            }
            told += 1;
        }
        proof {
            lemma_tell_end(
                graph,
                graph_of(dependents.deep_view()),
                before,
                u as int,
                ints(waiting@),
            );
        }
    }
    proof {
        lemma_arrangement_bound(ints(order@), n as nat);
    }
    Some(order)
}

/// At each place of a launch order stands a task that is free there, and no
/// task that is free there comes before it in the manifest.
pub proof fn lemma_launch_order_places_first_free(graph: Seq<Seq<int>>, order: Seq<int>, a: int)
    requires
        is_launch_order(graph, order),
        0 <= a < order.len(),
    ensures
        is_free(graph, order.take(a), order[a]),
        forall|v: int| is_free(graph, order.take(a), v) ==> order[a] <= v,
{
    lemma_placed_is_free(graph, order, a);
}

/// A graph has one launch order at most.
pub proof fn lemma_launch_order_unique(graph: Seq<Seq<int>>, first: Seq<int>, second: Seq<int>)
    requires
        is_launch_order(graph, first),
        is_launch_order(graph, second),
    ensures
        first == second,
{
    lemma_orders_agree(graph, first, second, graph.len() as int);
    assert(first =~= second);
}

/// Two launch orders of a graph agree on their first `k` places.
proof fn lemma_orders_agree(graph: Seq<Seq<int>>, first: Seq<int>, second: Seq<int>, k: int)
    requires
        is_launch_order(graph, first),
        is_launch_order(graph, second),
        0 <= k <= graph.len(),
    ensures
        forall|i: int| 0 <= i < k ==> first[i] == second[i],
    decreases k,
{
    if k > 0 {
        let c = k - 1;
        lemma_orders_agree(graph, first, second, c);
        assert(first.take(c) =~= second.take(c));
        lemma_placed_is_free(graph, first, c);
        lemma_placed_is_free(graph, second, c);
        assert(is_free(graph, second.take(c), first[c]));
        assert(is_free(graph, first.take(c), second[c]));
    }
}

/// Dependencies that run in a circle cannot be ordered.
pub proof fn lemma_cycle_blocks(graph: Seq<Seq<int>>, walk: Seq<int>)
    requires
        is_cycle(graph, walk),
    ensures
        !orderable(graph),
{
    if orderable(graph) {
        let alt = choose|alt: Seq<int>|
            is_arrangement(alt, graph.len()) && #[trigger] dependencies_first(graph, alt);
        lemma_walk_descends(graph, alt, walk, walk.len() - 1);
    }
}

/// Along a walk from task to dependency, positions in an order that puts
/// dependencies first fall.
proof fn lemma_walk_descends(graph: Seq<Seq<int>>, alt: Seq<int>, walk: Seq<int>, k: int)
    requires
        is_arrangement(alt, graph.len()),
        dependencies_first(graph, alt),
        0 <= k < walk.len(),
        forall|i: int|
            0 <= i < walk.len() - 1 ==> 0 <= #[trigger] walk[i] < graph.len() && graph[walk[i]].contains(
                walk[i + 1],
            ),
    ensures
        k > 0 ==> 0 <= position(alt, walk[k]) < position(alt, walk[0]),
    decreases k,
{
    if k > 0 {
        lemma_walk_descends(graph, alt, walk, k - 1);
        let v = walk[k - 1];
        lemma_arrangement_bound(alt, graph.len());
        assert(alt.contains(v));
        let a = choose|a: int| 0 <= a < alt.len() && alt[a] == v;
        lemma_position_at(alt, a);
        assert(graph[v].contains(walk[k - 1 + 1]));
        let j = choose|j: int| 0 <= j < graph[v].len() && graph[v][j] == walk[k];
        assert(0 <= position(alt, graph[alt[a]][j]) < a);
    }
}

/// Whether no task outside `order` is free: each has a dependency outside
/// `order`.
pub open spec fn stuck(graph: Seq<Seq<int>>, order: Seq<int>) -> bool {
    forall|v: int|
        0 <= v < graph.len() && !order.contains(v) ==> exists|j: int|
            0 <= j < graph[v].len() && !order.contains(#[trigger] graph[v][j])
}

/// A dependency of `v` outside `order`.
spec fn held_by(graph: Seq<Seq<int>>, order: Seq<int>, v: int) -> int {
    let j = choose|j: int| 0 <= j < graph[v].len() && !order.contains(#[trigger] graph[v][j]);
    graph[v][j]
}

/// The walk of `steps` steps that starts at `v` and goes on from each task
/// to a dependency of it outside `order`.
spec fn descent(graph: Seq<Seq<int>>, order: Seq<int>, v: int, steps: nat) -> Seq<int>
    decreases steps,
{
    if steps == 0 {
        seq![v]
    } else {
        let before = descent(graph, order, v, (steps - 1) as nat);
        before.push(held_by(graph, order, before.last()))
    }
}

/// The walk stays outside `order` and goes along dependencies.
proof fn lemma_descent(graph: Seq<Seq<int>>, order: Seq<int>, v: int, steps: nat)
    requires
        well_formed(graph),
        stuck(graph, order),
        0 <= v < graph.len(),
        !order.contains(v),
    ensures
        ({
            let walk = descent(graph, order, v, steps);
            &&& walk.len() == steps + 1
            &&& forall|k: int|
                0 <= k < walk.len() ==> 0 <= #[trigger] walk[k] < graph.len() && !order.contains(
                    walk[k],
                )
            &&& forall|k: int|
                0 <= k < walk.len() - 1 ==> graph[#[trigger] walk[k]].contains(walk[k + 1])
        }),
    decreases steps,
{
    if steps > 0 {
        lemma_descent(graph, order, v, (steps - 1) as nat);
        let before = descent(graph, order, v, (steps - 1) as nat);
        let last = before.last();
        assert(0 <= before[before.len() - 1] < graph.len());
        let j = choose|j: int|
            0 <= j < graph[last].len() && !order.contains(#[trigger] graph[last][j]);
        let walk = before.push(graph[last][j]);
        assert(0 <= graph[last][j] < graph.len());
        assert forall|k: int| 0 <= k < walk.len() - 1 implies graph[#[trigger] walk[k]].contains(
            walk[k + 1],
        ) by {
            if k < before.len() - 1 {
                assert(graph[before[k]].contains(before[k + 1]));
            } else {
                assert(graph[last][j] == walk[k + 1]);
            }
        }
    }
}

/// A sequence of more than `n` numbers below `n` holds one of them twice.
proof fn lemma_repeat(walk: Seq<int>, n: nat) -> (pair: (int, int))
    requires
        walk.len() > n,
        forall|k: int| 0 <= k < walk.len() ==> 0 <= #[trigger] walk[k] < n,
    ensures
        0 <= pair.0 < pair.1 < walk.len(),
        walk[pair.0] == walk[pair.1],
{
    if walk.no_duplicates() {
        lemma_arrangement_bound(walk, n);
    }
    let (a, b) = choose|a: int, b: int|
        0 <= a < walk.len() && 0 <= b < walk.len() && a != b && walk[a] == walk[b];
    if a < b {
        (a, b)
    } else {
        (b, a)
    }
}

/// The part of a walk along dependencies between two places that hold the
/// same task is a circle.
proof fn lemma_circle(graph: Seq<Seq<int>>, walk: Seq<int>, i: int, j: int)
    requires
        0 <= i < j < walk.len(),
        walk[i] == walk[j],
        forall|k: int| 0 <= k < walk.len() ==> 0 <= #[trigger] walk[k] < graph.len(),
        forall|k: int| 0 <= k < walk.len() - 1 ==> graph[#[trigger] walk[k]].contains(walk[k + 1]),
    ensures
        is_cycle(graph, walk.subrange(i, j + 1)),
{
    let circle = walk.subrange(i, j + 1);
    assert(circle.len() == j - i + 1);
    assert(circle[0] == walk[i]);
    assert(circle.last() == walk[j]);
    assert forall|k: int| 0 <= k < circle.len() - 1 implies 0 <= #[trigger] circle[k] < graph.len()
        && graph[circle[k]].contains(circle[k + 1]) by {
        assert(circle[k] == walk[i + k]);
        assert(circle[k + 1] == walk[i + k + 1]);
        assert(graph[walk[i + k]].contains(walk[i + k + 1]));
    }
}

/// Where the tasks outside `order` hold each other up, dependencies run in
/// a circle.
pub proof fn lemma_stuck_has_cycle(graph: Seq<Seq<int>>, order: Seq<int>, v: int)
    requires
        well_formed(graph),
        stuck(graph, order),
        0 <= v < graph.len(),
        !order.contains(v),
    ensures
        has_cycle(graph),
{
    let n = graph.len();
    lemma_descent(graph, order, v, n);
    let walk = descent(graph, order, v, n);
    let (i, j) = lemma_repeat(walk, n);
    lemma_circle(graph, walk, i, j);
    assert(is_cycle(graph, walk.subrange(i, j + 1)));
}

/// Tasks can be ordered exactly where dependencies do not run in a circle:
/// a graph cannot be both, and a graph that was found to be one of the two
/// is not the other.
pub proof fn lemma_cycle_or_order(graph: Seq<Seq<int>>)
    ensures
        !(has_cycle(graph) && orderable(graph)),
{
    if has_cycle(graph) {
        let walk = choose|walk: Seq<int>| is_cycle(graph, walk);
        lemma_cycle_blocks(graph, walk);
    }
}

} // verus!

