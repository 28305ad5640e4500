//! Automatic layout of a GRAFCET, in whole numbers: which transitions are
//! loops back, the level of every step below the initial one, its column in
//! its level, which transitions belong to an OR divergence, and the order of
//! the return routes. The editor turns this plan into coordinates.
use vstd::prelude::*;
use crate::grafcet::{Grafcet, GrafcetView, StepKind, StepView, TransitionView, step_index, lemma_step_index};

verus! {

// ── Steps and their identifiers ───────────────────────────────────────────────

/// No two steps share an identifier.
pub open spec fn distinct_step_ids(steps: Seq<StepView>) -> bool {
    forall|i: int, j: int| 0 <= i < j < steps.len() ==> #[trigger] steps[i].id != #[trigger] steps[j].id
}

/// Index of the step a transition leaves, or -1.
pub open spec fn source_index(g: GrafcetView, i: int) -> int {
    step_index(g.steps, g.transitions[i].from_step)
}

/// Index of the step a transition reaches, or -1.
pub open spec fn target_index(g: GrafcetView, i: int) -> int {
    step_index(g.steps, g.transitions[i].to_step)
}

/// Whether no two steps share an identifier (see `distinct_step_ids`).
pub fn distinct_ids_of(g: &Grafcet) -> (r: bool)
    ensures
        r == distinct_step_ids(g@.steps),
{
    let ghost ss = g@.steps;
    let n = g.steps.len();
    let mut i: usize = 0;
    while i < n
        invariant
            ss == g@.steps,
            n == ss.len(),
            0 <= i <= n,
            forall|a: int, b: int| 0 <= a < b < n && a < i ==> #[trigger] ss[a].id != #[trigger] ss[b].id,
        decreases n - i,
    {
        let mut j: usize = i + 1;
        while j < n
            invariant
                ss == g@.steps,
                n == ss.len(),
                0 <= i < n,
                i + 1 <= j <= n,
                forall|a: int, b: int| 0 <= a < b < n && a < i ==> #[trigger] ss[a].id != #[trigger] ss[b].id,
                forall|b: int| i < b < j ==> ss[i as int].id != #[trigger] ss[b].id,
            decreases n - j,
        {
            if g.steps[i].id == g.steps[j].id {
                assert(ss[i as int].id == ss[j as int].id);
                return false;
            }
            j = j + 1;
        }
        i = i + 1;
    }
    true
}

/// Index of the first initial step, or -1.
pub open spec fn first_initial(steps: Seq<StepView>) -> int
    decreases steps.len(),
{
    if steps.len() == 0 {
        -1
    } else {
        let r = first_initial(steps.drop_last());
        if r >= 0 {
            r
        } else if steps.last().kind == StepKind::Initial {
            steps.len() - 1
        } else {
            -1
        }
    }
}

/// Where the layout starts: the first initial step, else the first step.
pub open spec fn start_index(steps: Seq<StepView>) -> int {
    if first_initial(steps) >= 0 {
        first_initial(steps)
    } else {
        0
    }
}

proof fn lemma_first_initial(steps: Seq<StepView>)
    ensures
        -1 <= first_initial(steps) < steps.len(),
    decreases steps.len(),
{
    if steps.len() > 0 {
        lemma_first_initial(steps.drop_last());
    }
}

proof fn lemma_own_index(steps: Seq<StepView>, k: int)
    requires
        distinct_step_ids(steps),
        0 <= k < steps.len(),
    ensures
        step_index(steps, steps[k].id) == k,
{
    lemma_step_index(steps, steps[k].id);
    let r = step_index(steps, steps[k].id);
    if r >= 0 && r != k {
        if r < k {
            assert(steps[r].id != steps[k].id);
        } else {
            assert(steps[k].id != steps[r].id);
        }
    }
}

/// Index of the step where the layout starts (see `start_index`).
fn start_of(g: &Grafcet) -> (r: usize)
    requires
        g@.steps.len() > 0,
    ensures
        r as int == start_index(g@.steps),
        r < g@.steps.len(),
{
    let ghost ss = g@.steps;
    let n = g.steps.len();
    let mut i: usize = 0;
    while i < n
        invariant
            n == g.steps@.len(),
            ss == g@.steps,
            0 <= i <= n,
            first_initial(ss.take(i as int)) == -1,
        decreases n - i,
    {
        assert(ss.take(i + 1).drop_last() =~= ss.take(i as int));
        assert(ss.take(i + 1).last() == ss[i as int]);
        if g.steps[i].kind == StepKind::Initial {
            proof {
                lemma_prefix_initial(ss, i + 1);
            }
            return i;
        }
        i = i + 1;
    }
    assert(ss.take(n as int) =~= ss);
    0
}

proof fn lemma_prefix_initial(s: Seq<StepView>, k: int)
    requires
        0 <= k <= s.len(),
        first_initial(s.take(k)) >= 0,
    ensures
        first_initial(s) == first_initial(s.take(k)),
    decreases s.len() - k,
{
    if k < s.len() {
        assert(s.take(k + 1).drop_last() =~= s.take(k));
        lemma_prefix_initial(s, k + 1);
    } else {
        assert(s.take(k) =~= s);
    }
}

// ── Loops back: a depth-first search ──────────────────────────────────────────

/// Number of entries of `s` equal to `c`.
pub open spec fn count_of(s: Seq<u8>, c: u8) -> nat
    decreases s.len(),
{
    if s.len() == 0 {
        0
    } else {
        count_of(s.drop_last(), c) + if s.last() == c {
            1nat
        } else {
            0nat
        }
    }
}

proof fn lemma_count_le(s: Seq<u8>, c: u8)
    ensures
        count_of(s, c) <= s.len(),
    decreases s.len(),
{
    if s.len() > 0 {
        lemma_count_le(s.drop_last(), c);
    }
}

proof fn lemma_count_update(s: Seq<u8>, k: int, x: u8, c: u8)
    requires
        0 <= k < s.len(),
    ensures
        count_of(s.update(k, x), c) + (if s[k] == c { 1int } else { 0int }) == count_of(s, c) + (if x
            == c {
            1int
        } else {
            0int
        }),
    decreases s.len(),
{
    if k < s.len() - 1 {
        assert(s.update(k, x).drop_last() =~= s.drop_last().update(k, x));
        lemma_count_update(s.drop_last(), k, x, c);
    } else {
        assert(s.update(k, x).drop_last() =~= s.drop_last());
    }
}

proof fn lemma_count_all(s: Seq<u8>, c: u8)
    requires
        count_of(s, c) == s.len(),
    ensures
        forall|k: int| 0 <= k < s.len() ==> s[k] == c,
    decreases s.len(),
{
    if s.len() > 0 {
        lemma_count_le(s.drop_last(), c);
        lemma_count_all(s.drop_last(), c);
        assert forall|k: int| 0 <= k < s.len() implies s[k] == c by {
            if k < s.len() - 1 {
                assert(s.drop_last()[k] == s[k]);
            }
        }
    }
}

/// State of the search: the colour of each step (0 not reached, 1 on the
/// current path, 2 finished), when it was reached and when it finished, and
/// the transitions found to go back along the current path.
struct Search {
    colors: Vec<u8>,
    reached: Vec<usize>,
    finish: Vec<usize>,
    tick: usize,
    clock: usize,
    back: Vec<bool>,
}

/// Mathematical model of the state of the search.
pub struct SearchView {
    pub colors: Seq<u8>,
    pub reached: Seq<usize>,
    pub finish: Seq<usize>,
    pub tick: usize,
    pub clock: usize,
    pub back: Seq<bool>,
}

spec fn search_view(st: Search) -> SearchView {
    SearchView {
        colors: st.colors@,
        reached: st.reached@,
        finish: st.finish@,
        tick: st.tick,
        clock: st.clock,
        back: st.back@,
    }
}

/// Step `u` is put on the path.
pub open spec fn grey_at(st: SearchView, u: int) -> SearchView {
    SearchView {
        colors: st.colors.update(u, 1),
        reached: st.reached.update(u, st.tick),
        tick: (st.tick + 1) as usize,
        ..st
    }
}

/// Step `u` is finished.
pub open spec fn black_at(st: SearchView, u: int) -> SearchView {
    SearchView {
        colors: st.colors.update(u, 2),
        finish: st.finish.update(u, st.clock),
        clock: (st.clock + 1) as usize,
        ..st
    }
}

/// The search visits step `u`: puts it on the path, follows the
/// transitions that leave it in their order, then finishes it. `f` bounds
/// the depth of the search.
pub open spec fn visit_spec(g: GrafcetView, st: SearchView, u: int, f: nat) -> SearchView
    decreases f, g.transitions.len() + 2,
{
    black_at(edges_spec(g, grey_at(st, u), u, 0, f), u)
}

/// The search follows, from step `u`, the transitions from place `j` on: a
/// transition to a step on the path goes back; one to a step not reached
/// yet is followed by a visit of that step.
pub open spec fn edges_spec(g: GrafcetView, st: SearchView, u: int, j: int, f: nat) -> SearchView
    decreases f, g.transitions.len() - j + 1,
{
    if j < 0 || j >= g.transitions.len() {
        st
    } else {
        let v = target_index(g, j);
        let st1 = if source_index(g, j) == u && v >= 0 {
            if st.colors[v] == 1 {
                SearchView { back: st.back.update(j, true), ..st }
            } else if st.colors[v] == 0 && st.tick <= g.steps.len() && g.steps.len() - st.tick < f {
                visit_spec(g, st, v, (g.steps.len() - st.tick) as nat)
            } else {
                st
            }
        } else {
            st
        };
        edges_spec(g, st1, u, j + 1, f)
    }
}

/// The search visits, in their order, the steps from place `k` on that it
/// has not reached yet.
pub open spec fn search_all(g: GrafcetView, st: SearchView, k: int) -> SearchView
    decreases g.steps.len() - k,
{
    if k < 0 || k >= g.steps.len() {
        st
    } else {
        let st1 = if st.colors[k] == 0 && g.steps.len() >= st.tick {
            visit_spec(g, st, k, (g.steps.len() - st.tick) as nat)
        } else {
            st
        };
        search_all(g, st1, k + 1)
    }
}

/// Nothing reached, nothing marked.
pub open spec fn initial_search(n: nat, m: nat) -> SearchView {
    SearchView {
        colors: Seq::new(n, |i: int| 0u8),
        reached: Seq::new(n, |i: int| 0usize),
        finish: Seq::new(n, |i: int| 0usize),
        tick: 0,
        clock: 0,
        back: Seq::new(m, |i: int| false),
    }
}

/// The whole depth-first search: from the start step, then from every step
/// not reached yet, in their order.
pub open spec fn depth_first(g: GrafcetView) -> SearchView {
    search_all(
        g,
        visit_spec(g, initial_search(g.steps.len(), g.transitions.len()), start_index(g.steps), g.steps.len()),
        0,
    )
}

/// A transition leads from step `x` to step `y` (by index).
pub open spec fn step_link(g: GrafcetView, x: int, y: int) -> bool {
    exists|i: int| 0 <= i < g.transitions.len() && #[trigger] source_index(g, i) == x && target_index(g, i) == y
}

/// The steps of `c` (by index) follow each other by transitions, and a
/// transition leads from the last back to the first.
pub open spec fn is_step_cycle(g: GrafcetView, c: Seq<int>) -> bool {
    &&& c.len() >= 1
    &&& forall|j: int| 0 <= j < c.len() ==> 0 <= #[trigger] c[j] < g.steps.len()
    &&& forall|j: int| 0 <= j < c.len() - 1 ==> step_link(g, #[trigger] c[j], c[j + 1])
    &&& step_link(g, c.last(), c[0])
}

/// Some steps of the GRAFCET form a cycle.
pub open spec fn has_step_cycle(g: GrafcetView) -> bool {
    exists|c: Seq<int>| is_step_cycle(g, c)
}

/// The steps on the current path of the search, from its root: each leads to
/// the next by a transition, and they are exactly the steps on the path.
spec fn grey_path(g: GrafcetView, st: Search, path: Seq<int>) -> bool {
    &&& forall|j: int| 0 <= j < path.len() ==> 0 <= #[trigger] path[j] < g.steps.len()
    &&& forall|j: int| 0 <= j < path.len() - 1 ==> step_link(g, #[trigger] path[j], path[j + 1])
    &&& forall|k: int| 0 <= k < g.steps.len() ==> (st.colors@[k] == 1 <==> #[trigger] path.contains(k))
}

/// What the search knows of a transition whose source step is finished.
spec fn edge_settled(g: GrafcetView, st: Search, i: int) -> bool {
    let a = source_index(g, i);
    let b = target_index(g, i);
    let back = st.back@[i];
    &&& b < 0 ==> !back
    &&& b >= 0 && !back ==> st.colors@[b] == 2 && st.finish@[b] < st.finish@[a]
    &&& b >= 0 && back ==> st.colors@[b] == 1 || (st.colors@[b] == 2 && st.finish@[b] >= st.finish@[a])
}

spec fn search_inv(g: GrafcetView, st: Search) -> bool {
    let n = g.steps.len();
    let m = g.transitions.len();
    &&& distinct_step_ids(g.steps)
    &&& st.colors@.len() == n
    &&& st.reached@.len() == n
    &&& st.finish@.len() == n
    &&& st.back@.len() == m
    &&& forall|k: int| 0 <= k < n ==> #[trigger] st.colors@[k] <= 2
    &&& st.tick + count_of(st.colors@, 0) == n
    &&& st.clock == count_of(st.colors@, 2)
    &&& forall|k: int| 0 <= k < n && st.colors@[k] != 0 ==> #[trigger] st.reached@[k] < st.tick
    &&& forall|k: int| 0 <= k < n && st.colors@[k] == 2 ==> #[trigger] st.finish@[k] < st.clock
    &&& forall|k: int, l: int|
        0 <= k < n && 0 <= l < n && k != l && st.colors@[k] == 2 && st.colors@[l] == 2
            ==> #[trigger] st.finish@[k] != #[trigger] st.finish@[l]
    &&& forall|i: int| 0 <= i < m && source_index(g, i) < 0 ==> !(#[trigger] st.back@[i])
    &&& forall|i: int|
        0 <= i < m && source_index(g, i) >= 0 && st.colors@[source_index(g, i)] == 0 ==> !(
        #[trigger] st.back@[i])
    &&& forall|i: int|
        0 <= i < m && source_index(g, i) >= 0 && st.colors@[source_index(g, i)] == 1 && #[trigger] st.back@[i]
            ==> {
            let a = source_index(g, i);
            let b = target_index(g, i);
            &&& b >= 0
            &&& st.colors@[b] == 1
            &&& st.reached@[b] <= st.reached@[a]
        }
    &&& forall|i: int|
        0 <= i < m && source_index(g, i) >= 0 && st.colors@[source_index(g, i)] == 2 ==> #[trigger] edge_settled(g, st, i)
    &&& forall|i: int| 0 <= i < m && #[trigger] st.back@[i] ==> has_step_cycle(g)
}

/// What a visit leaves unchanged: steps on the path stay there, finished
/// steps keep their finishing time, steps not reached (but `x`) are not put on
/// the path, and only transitions leaving steps that were not reached change
/// their mark.
spec fn search_frame(g: GrafcetView, old_st: Search, st: Search, x: int) -> bool {
    let n = g.steps.len();
    let m = g.transitions.len();
    &&& st.tick >= old_st.tick
    &&& st.clock >= old_st.clock
    &&& forall|k: int|
        #![trigger st.colors@[k]]
        #![trigger old_st.colors@[k]]
        0 <= k < n && old_st.colors@[k] == 1 ==> st.colors@[k] == 1 && st.reached@[k] == old_st.reached@[k]
    &&& forall|k: int|
        #![trigger st.colors@[k]]
        #![trigger old_st.colors@[k]]
        0 <= k < n && old_st.colors@[k] == 2 ==> st.colors@[k] == 2 && st.finish@[k] == old_st.finish@[k]
            && st.reached@[k] == old_st.reached@[k]
    &&& forall|k: int|
        #![trigger st.colors@[k]]
        #![trigger old_st.colors@[k]]
        0 <= k < n && k != x && old_st.colors@[k] == 0 ==> st.colors@[k] != 1
    &&& forall|i: int|
        0 <= i < m && source_index(g, i) >= 0 && old_st.colors@[source_index(g, i)] != 0 ==> #[trigger] st.back@[i]
            == old_st.back@[i]
}

proof fn lemma_indices(g: GrafcetView)
    ensures
        forall|i: int| 0 <= i < g.transitions.len() ==> -1 <= #[trigger] source_index(g, i) < g.steps.len(),
        forall|i: int| 0 <= i < g.transitions.len() ==> -1 <= #[trigger] target_index(g, i) < g.steps.len(),
{
    assert forall|i: int| 0 <= i < g.transitions.len() implies -1 <= #[trigger] source_index(g, i) < g.steps.len() by {
        lemma_step_index(g.steps, g.transitions[i].from_step);
    }
    assert forall|i: int| 0 <= i < g.transitions.len() implies -1 <= #[trigger] target_index(g, i) < g.steps.len() by {
        lemma_step_index(g.steps, g.transitions[i].to_step);
    }
}

proof fn lemma_frame_trans(g: GrafcetView, a: Search, b: Search, c: Search, x: int)
    requires
        search_inv(g, a),
        search_inv(g, b),
        search_frame(g, a, b, x),
        search_frame(g, b, c, -1),
    ensures
        search_frame(g, a, c, x),
{
    let n = g.steps.len();
    let m = g.transitions.len();
    lemma_indices(g);
    assert forall|k: int| 0 <= k < n && a.colors@[k] == 1 implies #[trigger] c.colors@[k] == 1 && c.reached@[k] == a.reached@[k] by {
        assert(b.colors@[k] == 1 && b.reached@[k] == a.reached@[k]);
        assert(c.colors@[k] == 1 && c.reached@[k] == b.reached@[k]);
    }
    assert forall|k: int| 0 <= k < n && a.colors@[k] == 2 implies #[trigger] c.colors@[k] == 2 && c.finish@[k] == a.finish@[k] && c.reached@[k] == a.reached@[k] by {
        assert(b.colors@[k] == 2 && b.finish@[k] == a.finish@[k] && b.reached@[k] == a.reached@[k]);
        assert(c.colors@[k] == 2 && c.finish@[k] == b.finish@[k] && c.reached@[k] == b.reached@[k]);
    }
    assert forall|k: int| 0 <= k < n && k != x && a.colors@[k] == 0 implies #[trigger] c.colors@[k] != 1 by {
        assert(b.colors@[k] <= 2);
        assert(b.colors@[k] != 1);
        if b.colors@[k] == 2 {
        } else {
            assert(b.colors@[k] == 0);
        }
    }
    assert forall|i: int|
        0 <= i < m && source_index(g, i) >= 0 && a.colors@[source_index(g, i)] != 0 implies #[trigger] c.back@[i]
        == a.back@[i] by {
        let s = source_index(g, i);
        assert(a.colors@[s] <= 2);
        assert(b.colors@[s] == a.colors@[s]);
    }
}

/// What the search knows of a transition it followed from the step on top of
/// its path.
spec fn explored(g: GrafcetView, st: Search, i: int) -> bool {
    let b = target_index(g, i);
    &&& b < 0 ==> !st.back@[i]
    &&& b >= 0 && !st.back@[i] ==> st.colors@[b] == 2
    &&& b >= 0 && st.back@[i] ==> st.colors@[b] == 1
}

/// Visits step `u` and every step it leads to that was not reached yet.
fn visit(g: &Grafcet, st: &mut Search, u: usize, fuel: usize, Ghost(path): Ghost<Seq<int>>)
    requires
        fuel + old(st).tick == g@.steps.len(),
        search_inv(g@, *old(st)),
        u < g@.steps.len(),
        old(st).colors@[u as int] == 0,
        grey_path(g@, *old(st), path),
        path.len() > 0 ==> step_link(g@, path.last(), u as int),
    ensures
        search_inv(g@, *final(st)),
        search_frame(g@, *old(st), *final(st), -1),
        final(st).colors@[u as int] == 2,
        final(st).tick > old(st).tick,
        search_view(*final(st)) == visit_spec(g@, search_view(*old(st)), u as int, fuel as nat),
    decreases fuel,
{
    let ghost g0 = g@;
    let ghost st0 = *st;
    let n = g.steps.len();
    let m = g.transitions.len();
    proof {
        lemma_indices(g0);
        lemma_count_update(st.colors@, u as int, 1, 0);
        lemma_count_update(st.colors@, u as int, 1, 2);
    }
    let ghost cbefore = st.colors@;
    st.colors.set(u, 1);
    st.reached.set(u, st.tick);
    st.tick = st.tick + 1;
    let ghost gv = search_view(*st);
    assert(gv == grey_at(search_view(st0), u as int));
    proof {
        assert forall|i: int|
            0 <= i < m && source_index(g0, i) >= 0 && st.colors@[source_index(g0, i)] == 2 implies #[trigger] edge_settled(g0, *st, i) by {
            assert(st0.colors@[source_index(g0, i)] == 2);
            assert(edge_settled(g0, st0, i));
        }
        assert forall|i: int|
            0 <= i < m && source_index(g0, i) >= 0 && st.colors@[source_index(g0, i)] == 1 && #[trigger] st.back@[i]
                implies ({
                let a = source_index(g0, i);
                let b = target_index(g0, i);
                &&& b >= 0
                &&& st.colors@[b] == 1
                &&& st.reached@[b] <= st.reached@[a]
            }) by {
            let a = source_index(g0, i);
            if a == u {
                assert(st0.colors@[a] == 0);
            } else {
                assert(st0.colors@[a] == 1);
            }
        }
        assert(search_inv(g0, *st));
    }
    let ghost path2 = path.push(u as int);
    proof {
        assert forall|j: int| 0 <= j < path2.len() - 1 implies step_link(g0, #[trigger] path2[j], path2[j + 1]) by {
            if j < path.len() - 1 {
                assert(path2[j] == path[j] && path2[j + 1] == path[j + 1]);
            } else {
                assert(path2[j] == path.last());
            }
        }
        assert forall|k: int| 0 <= k < n implies (st.colors@[k] == 1 <==> #[trigger] path2.contains(k)) by {
            if k != u {
                assert(st.colors@[k] == st0.colors@[k]);
                if path2.contains(k) {
                    let q = choose|q: int| 0 <= q < path2.len() && path2[q] == k;
                    assert(path[q] == k);
                }
                if path.contains(k) {
                    let q = choose|q: int| 0 <= q < path.len() && path[q] == k;
                    assert(path2[q] == k);
                }
            } else {
                assert(path2[path.len() as int] == k);
            }
        }
        assert(grey_path(g0, *st, path2));
    }
    let id = g.steps[u].id;
    let mut j: usize = 0;
    while j < m
        invariant
            g0 == g@,
            n == g@.steps.len(),
            m == g@.transitions.len(),
            u < n,
            id == g@.steps[u as int].id,
            0 <= j <= m,
            fuel + st0.tick == n,
            search_inv(g0, st0),
            search_inv(g0, *st),
            search_frame(g0, st0, *st, u as int),
            st0.colors@[u as int] == 0,
            st.colors@[u as int] == 1,
            st.tick > st0.tick,
            st.reached@[u as int] == st0.tick,
            forall|k: int| 0 <= k < n && k != u && #[trigger] st.colors@[k] == 1 ==> st0.colors@[k] == 1,
            forall|i: int| 0 <= i < j && source_index(g0, i) == u ==> #[trigger] explored(g0, *st, i),
            forall|i: int| j <= i < m && source_index(g0, i) == u ==> !(#[trigger] st.back@[i]),
            edges_spec(g0, search_view(*st), u as int, j as int, fuel as nat) == edges_spec(g0, gv, u as int, 0, fuel as nat),
            grey_path(g0, *st, path2),
            path2.last() == u as int,
        decreases m - j,
    {
        let t_from = g.transitions[j].from_step;
        let t_to = g.transitions[j].to_step;
        proof {
            lemma_indices(g0);
            lemma_own_index(g0.steps, u as int);
            lemma_step_index(g0.steps, t_from);
            lemma_step_index(g0.steps, t_to);
        }
        let ghost start_j = *st;
        if t_from == id {
            assert(source_index(g0, j as int) == u);
            match g.find_step(t_to) {
                None => {
                    assert(target_index(g0, j as int) == -1);
                },
                Some(v) => {
                    assert(target_index(g0, j as int) == v);
                    if st.colors[v] == 1 {
                        let ghost before = *st;
                        proof {
                            if v != u {
                                assert(st0.colors@[v as int] == 1);
                                assert(st0.reached@[v as int] < st0.tick);
                                assert(before.reached@[v as int] == st0.reached@[v as int]);
                            }
                            assert(before.reached@[v as int] <= before.reached@[u as int]);
                        }
                        proof {
                            assert(path2.contains(v as int));
                            let q = choose|q: int| 0 <= q < path2.len() && path2[q] == v as int;
                            let c = path2.subrange(q, path2.len() as int);
                            assert(source_index(g0, j as int) == u && target_index(g0, j as int) == v);
                            assert(step_link(g0, c.last(), c[0]));
                            assert forall|x: int| 0 <= x < c.len() - 1 implies step_link(g0, #[trigger] c[x], c[x + 1]) by {
                                assert(c[x] == path2[q + x] && c[x + 1] == path2[q + x + 1]);
                            }
                            assert forall|x: int| 0 <= x < c.len() implies 0 <= #[trigger] c[x] < g0.steps.len() by {
                                assert(c[x] == path2[q + x]);
                            }
                            assert(is_step_cycle(g0, c));
                        }
                        st.back.set(j, true);
                        proof {
                            assert forall|i: int|
                                0 <= i < m && source_index(g0, i) >= 0 && st.colors@[source_index(g0, i)] == 2 implies #[trigger] edge_settled(g0, *st, i) by {
                                assert(edge_settled(g0, before, i));
                            }
                            assert(search_inv(g0, *st));
                            assert forall|i: int| 0 <= i < j && source_index(g0, i) == u implies #[trigger] explored(g0, *st, i) by {
                                assert(explored(g0, before, i));
                            }
                            assert(explored(g0, *st, j as int));
                        }
                    } else if st.colors[v] == 0 {
                        let ghost before = *st;
                        proof {
                            lemma_count_le(st.colors@, 0);
                        }
                        proof {
                            assert(source_index(g0, j as int) == u && target_index(g0, j as int) == v);
                            assert(step_link(g0, path2.last(), v as int));
                        }
                        visit(g, st, v, n - st.tick, Ghost(path2));
                        proof {
                            assert forall|k: int| 0 <= k < n implies (st.colors@[k] == 1 <==> #[trigger] path2.contains(k)) by {
                                assert(before.colors@[k] <= 2);
                                if before.colors@[k] == 1 {
                                    assert(st.colors@[k] == 1);
                                } else if before.colors@[k] == 2 {
                                    assert(st.colors@[k] == 2);
                                } else {
                                    assert(st.colors@[k] != 1);
                                }
                            }
                            lemma_frame_trans(g0, st0, before, *st, u as int);
                            assert(before.colors@[u as int] == 1);
                            assert(st.back@[j as int] == before.back@[j as int]);
                            assert(st.colors@[v as int] == 2);
                            assert forall|i: int| 0 <= i < j && source_index(g0, i) == u implies #[trigger] explored(g0, *st, i) by {
                                assert(explored(g0, before, i));
                                assert(st.back@[i] == before.back@[i]);
                                let b = target_index(g0, i);
                                if b >= 0 {
                                    assert(before.colors@[b] <= 2);
                                    if before.colors@[b] == 2 {
                                        assert(st.colors@[b] == 2);
                                    } else if before.colors@[b] == 1 {
                                        assert(st.colors@[b] == 1);
                                    }
                                }
                            }
                            assert(explored(g0, *st, j as int));
                        }
                    }
                },
            }
        } else {
            assert(source_index(g0, j as int) != u);
        }
        proof {
            let sv = search_view(start_j);
            assert(sv.tick > st0.tick);
            assert(g0.steps.len() - sv.tick < fuel);
            assert(edges_spec(g0, sv, u as int, j as int, fuel as nat) == edges_spec(
                g0,
                search_view(*st),
                u as int,
                j + 1,
                fuel as nat,
            ));
        }
        j = j + 1;
    }
    assert(edges_spec(g0, search_view(*st), u as int, m as int, fuel as nat) == search_view(*st));
    proof {
        lemma_count_update(st.colors@, u as int, 2, 2);
        lemma_count_update(st.colors@, u as int, 2, 0);
        lemma_count_le(st.colors@.update(u as int, 2), 2);
    }
    let ghost last = *st;
    st.colors.set(u, 2);
    st.finish.set(u, st.clock);
    st.clock = st.clock + 1;
    assert(search_view(*st) == black_at(search_view(last), u as int));
    proof {
        assert forall|i: int|
            0 <= i < m && source_index(g0, i) >= 0 && st.colors@[source_index(g0, i)] == 2 implies #[trigger] edge_settled(g0, *st, i) by {
            let a = source_index(g0, i);
            let b = target_index(g0, i);
            if a == u {
                assert(explored(g0, last, i));
                if b >= 0 && !last.back@[i] {
                    assert(last.colors@[b] == 2);
                    assert(last.finish@[b] < last.clock);
                }
            } else {
                assert(last.colors@[a] == 2);
                assert(edge_settled(g0, last, i));
                assert(last.finish@[a] < last.clock);
                if b >= 0 && b == u {
                }
            }
        }
        assert forall|i: int|
            0 <= i < m && source_index(g0, i) >= 0 && st.colors@[source_index(g0, i)] == 1 && #[trigger] st.back@[i]
                implies ({
                let a = source_index(g0, i);
                let b = target_index(g0, i);
                &&& b >= 0
                &&& st.colors@[b] == 1
                &&& st.reached@[b] <= st.reached@[a]
            }) by {
            let a = source_index(g0, i);
            let b = target_index(g0, i);
            assert(last.colors@[a] == 1);
            assert(a != u);
            assert(st0.colors@[a] == 1);
            if b == u {
                assert(last.reached@[u as int] == st0.tick);
                assert(last.reached@[a] == st0.reached@[a]);
            }
        }
        assert forall|k: int, l: int|
            0 <= k < n && 0 <= l < n && k != l && st.colors@[k] == 2 && st.colors@[l] == 2
                implies #[trigger] st.finish@[k] != #[trigger] st.finish@[l] by {
            if k != u && l != u {
                assert(last.colors@[k] == 2 && last.colors@[l] == 2);
            } else if k == u {
                assert(last.colors@[l] == 2);
            } else {
                assert(last.colors@[k] == 2);
            }
        }
        assert(search_inv(g0, *st));
        assert forall|k: int| 0 <= k < n && st0.colors@[k] == 0 implies #[trigger] st.colors@[k] != 1 by {
            if k != u {
                if last.colors@[k] == 1 {
                    assert(st0.colors@[k] == 1);
                }
            }
        }
        assert forall|i: int|
            0 <= i < m && source_index(g0, i) >= 0 && st0.colors@[source_index(g0, i)] != 0 implies #[trigger] st.back@[i]
            == st0.back@[i] by {
            let a = source_index(g0, i);
            assert(a != u);
        }
    }
}

proof fn lemma_count_const(s: Seq<u8>, c: u8)
    requires
        forall|k: int| 0 <= k < s.len() ==> s[k] == c,
    ensures
        count_of(s, c) == s.len(),
    decreases s.len(),
{
    if s.len() > 0 {
        lemma_count_const(s.drop_last(), c);
    }
}

/// Marks the transitions that go back: a depth-first search from the start
/// step, then from each step not reached yet, in their order, follows the
/// transitions leaving a step in their order; a transition that reaches a
/// step of the current path goes back. Returns these marks and the order in
/// which the steps were finished.
fn find_loops(g: &Grafcet) -> (r: (Vec<bool>, Vec<usize>))
    requires
        distinct_step_ids(g@.steps),
        g@.steps.len() > 0,
    ensures
        loops_of(g@, r.0@, r.1@),
        forall|i: int| 0 <= i < r.0@.len() && #[trigger] r.0@[i] ==> has_step_cycle(g@),
        r.0@ == depth_first(g@).back,
        r.1@ == depth_first(g@).finish,
{
    let ghost g0 = g@;
    let n = g.steps.len();
    let m = g.transitions.len();
    let mut colors: Vec<u8> = Vec::new();
    let mut reached: Vec<usize> = Vec::new();
    let mut finish: Vec<usize> = Vec::new();
    let mut k: usize = 0;
    while k < n
        invariant
            n == g@.steps.len(),
            0 <= k <= n,
            colors@.len() == k,
            reached@.len() == k,
            finish@.len() == k,
            forall|l: int| 0 <= l < k ==> #[trigger] colors@[l] == 0,
            forall|l: int| 0 <= l < k ==> #[trigger] reached@[l] == 0,
            forall|l: int| 0 <= l < k ==> #[trigger] finish@[l] == 0,
        decreases n - k,
    {
        colors.push(0);
        reached.push(0);
        finish.push(0);
        k = k + 1;
    }
    let mut back: Vec<bool> = Vec::new();
    let mut i: usize = 0;
    while i < m
        invariant
            m == g@.transitions.len(),
            0 <= i <= m,
            back@.len() == i,
            forall|l: int| 0 <= l < i ==> !(#[trigger] back@[l]),
        decreases m - i,
    {
        back.push(false);
        i = i + 1;
    }
    proof {
        lemma_count_const(colors@, 0);
        lemma_count_le(colors@, 2);
        if count_of(colors@, 2) > 0 {
            lemma_count_update(colors@, 0, 0, 2);
            assert(colors@.update(0, 0) =~= colors@);
        }
        lemma_indices(g0);
    }
    let mut st = Search { colors, reached, finish, tick: 0, clock: 0, back };
    proof {
        assert(count_of(st.colors@, 2) == 0) by {
            lemma_no_count(st.colors@, 0, 2);
        }
        let init = initial_search(n as nat, m as nat);
        assert(st.colors@ =~= init.colors);
        assert(st.reached@ =~= init.reached);
        assert(st.finish@ =~= init.finish);
        assert(st.back@ =~= init.back);
        assert(search_view(st) == init);
    }
    let start = start_of(g);
    proof {
        assert(grey_path(g0, st, Seq::<int>::empty()));
    }
    visit(g, &mut st, start, n, Ghost(Seq::empty()));
    let mut k: usize = 0;
    while k < n
        invariant
            g0 == g@,
            n == g@.steps.len(),
            m == g@.transitions.len(),
            0 <= k <= n,
            search_inv(g0, st),
            forall|l: int| 0 <= l < n ==> #[trigger] st.colors@[l] != 1,
            forall|l: int| 0 <= l < k ==> #[trigger] st.colors@[l] == 2,
            search_all(g0, search_view(st), k as int) == depth_first(g0),
        decreases n - k,
    {
        let ghost at_k = search_view(st);
        if st.colors[k] == 0 {
            let ghost before = st;
            proof {
                lemma_count_le(st.colors@, 0);
            }
            let fuel = n - st.tick;
            proof {
                assert forall|l: int| 0 <= l < n implies (st.colors@[l] == 1 <==> #[trigger] Seq::<int>::empty().contains(l)) by {
                    assert(st.colors@[l] != 1);
                }
            }
            visit(g, &mut st, k, fuel, Ghost(Seq::empty()));
            proof {
                assert forall|l: int| 0 <= l < n implies #[trigger] st.colors@[l] != 1 by {
                    assert(before.colors@[l] != 1);
                }
                assert forall|l: int| 0 <= l < k implies #[trigger] st.colors@[l] == 2 by {
                    assert(before.colors@[l] == 2);
                }
            }
        }
        proof {
            assert(st.colors@[k as int] <= 2);
            lemma_count_le(at_k.colors, 0);
            assert(search_all(g0, at_k, k as int) == search_all(g0, search_view(st), k + 1));
        }
        k = k + 1;
    }
    proof {
        assert(search_all(g0, search_view(st), n as int) == search_view(st));
        lemma_indices(g0);
        assert forall|i: int| 0 <= i < m implies (#[trigger] st.back@[i] <==> {
            let a = source_index(g0, i);
            let b = target_index(g0, i);
            a >= 0 && b >= 0 && st.finish@[b] >= st.finish@[a]
        }) by {
            let a = source_index(g0, i);
            if a >= 0 {
                assert(st.colors@[a] == 2);
                assert(edge_settled(g0, st, i));
                let b = target_index(g0, i);
                if b >= 0 {
                    assert(st.colors@[b] == 2);
                }
            }
        }
        assert forall|l: int| 0 <= l < n implies #[trigger] st.finish@[l] < n by {
            assert(st.colors@[l] == 2);
            lemma_count_le(st.colors@, 2);
        }
    }
    (st.back, st.finish)
}

proof fn lemma_no_count(s: Seq<u8>, c: u8, d: u8)
    requires
        c != d,
        count_of(s, c) == s.len(),
    ensures
        count_of(s, d) == 0,
    decreases s.len(),
{
    if s.len() > 0 {
        lemma_count_le(s.drop_last(), c);
        lemma_no_count(s.drop_last(), c, d);
    }
}

/// The marks of the loops back and the finishing order of a depth-first
/// search agree: the finishing order numbers the steps without repeating a
/// number, and a transition goes back exactly when both its ends are steps
/// and it does not reach a step finished before the one it leaves. The
/// transitions that are not marked therefore never close a cycle.
pub open spec fn loops_of(g: GrafcetView, back: Seq<bool>, finish: Seq<usize>) -> bool {
    let n = g.steps.len();
    &&& back.len() == g.transitions.len()
    &&& finish.len() == n
    &&& forall|k: int| 0 <= k < n ==> #[trigger] finish[k] < n
    &&& forall|k: int, l: int| 0 <= k < l < n ==> #[trigger] finish[k] != #[trigger] finish[l]
    &&& forall|i: int|
        0 <= i < g.transitions.len() ==> (#[trigger] back[i] <==> {
            let a = source_index(g, i);
            let b = target_index(g, i);
            a >= 0 && b >= 0 && finish[b] >= finish[a]
        })
}

// ── Levels: a breadth-first search over the transitions that do not go back ──

/// Index of the first entry for `id`, or -1.
pub open spec fn entry_index(lv: Seq<(u32, usize)>, id: u32) -> int
    decreases lv.len(),
{
    if lv.len() == 0 {
        -1
    } else {
        let r = entry_index(lv.drop_last(), id);
        if r >= 0 {
            r
        } else if lv.last().0 == id {
            lv.len() - 1
        } else {
            -1
        }
    }
}

/// Level given to `id`, or -1 when it has none.
pub open spec fn level_of(lv: Seq<(u32, usize)>, id: u32) -> int {
    let k = entry_index(lv, id);
    if k >= 0 {
        lv[k].1 as int
    } else {
        -1
    }
}

/// No identifier has two entries.
pub open spec fn distinct_entries(lv: Seq<(u32, usize)>) -> bool {
    forall|a: int, b: int| 0 <= a < b < lv.len() ==> #[trigger] lv[a].0 != #[trigger] lv[b].0
}

/// `lv` gives every identifier reachable from `start` along transitions that
/// do not go back its distance from `start` (the fewest such transitions),
/// and no other identifier a level: `start` has level 0, a transition from an
/// identifier with a level reaches one whose level is at most one more, and
/// every other identifier with a level is on a level below the start's and is
/// reached by a transition from an identifier exactly one level up.
pub open spec fn shortest_levels(g: GrafcetView, back: Seq<bool>, start: u32, lv: Seq<(u32, usize)>) -> bool {
    let ts = g.transitions;
    &&& distinct_entries(lv)
    &&& level_of(lv, start) == 0
    &&& forall|k: int| 0 <= k < lv.len() && #[trigger] lv[k].0 != start ==> lv[k].1 >= 1
    &&& forall|i: int|
        0 <= i < ts.len() && !back[i] && level_of(lv, ts[i].from_step) >= 0 ==> {
            &&& level_of(lv, #[trigger] ts[i].to_step) >= 0
            &&& level_of(lv, ts[i].to_step) <= level_of(lv, ts[i].from_step) + 1
        }
    &&& forall|k: int|
        0 <= k < lv.len() && #[trigger] lv[k].0 != start ==> exists|i: int|
            0 <= i < ts.len() && !back[i] && ts[i].to_step == lv[k].0 && level_of(lv, ts[i].from_step)
                == lv[k].1 - 1
}

proof fn lemma_entry_index(lv: Seq<(u32, usize)>, id: u32)
    ensures
        -1 <= entry_index(lv, id) < lv.len(),
        entry_index(lv, id) >= 0 ==> lv[entry_index(lv, id)].0 == id,
        entry_index(lv, id) == -1 ==> forall|k: int| 0 <= k < lv.len() ==> #[trigger] lv[k].0 != id,
    decreases lv.len(),
{
    if lv.len() > 0 {
        lemma_entry_index(lv.drop_last(), id);
        assert forall|k: int| 0 <= k < lv.len() - 1 implies lv.drop_last()[k] == lv[k] by {}
    }
}

proof fn lemma_entry_own(lv: Seq<(u32, usize)>, k: int)
    requires
        distinct_entries(lv),
        0 <= k < lv.len(),
    ensures
        entry_index(lv, lv[k].0) == k,
        level_of(lv, lv[k].0) == lv[k].1,
{
    lemma_entry_index(lv, lv[k].0);
    let r = entry_index(lv, lv[k].0);
    if r != k {
        if r < k {
            assert(lv[r].0 != lv[k].0);
        } else {
            assert(lv[k].0 != lv[r].0);
        }
    }
}

proof fn lemma_level_push(lv: Seq<(u32, usize)>, e: (u32, usize), x: u32)
    requires
        entry_index(lv, e.0) == -1,
    ensures
        level_of(lv.push(e), x) == if x == e.0 {
            e.1 as int
        } else {
            level_of(lv, x)
        },
        entry_index(lv.push(e), x) == if x == e.0 {
            lv.len() as int
        } else {
            entry_index(lv, x)
        },
{
    lemma_entry_index(lv, x);
    assert(lv.push(e).drop_last() =~= lv);
    if x == e.0 {
    } else {
        let k = entry_index(lv, x);
        if k >= 0 {
            assert(lv.push(e)[k] == lv[k]);
        }
    }
}

/// Index of the entry for `id`.
fn find_entry(lv: &Vec<(u32, usize)>, id: u32) -> (r: Option<usize>)
    ensures
        match r {
            Some(k) => k as int == entry_index(lv@, id),
            None => entry_index(lv@, id) == -1,
        },
{
    let n = lv.len();
    let mut k: usize = 0;
    while k < n
        invariant
            n == lv@.len(),
            0 <= k <= n,
            entry_index(lv@.take(k as int), id) == -1,
        decreases n - k,
    {
        assert(lv@.take(k + 1).drop_last() =~= lv@.take(k as int));
        if lv[k].0 == id {
            proof {
                lemma_prefix_entry(lv@, id, k + 1);
            }
            return Some(k);
        }
        k = k + 1;
    }
    assert(lv@.take(n as int) =~= lv@);
    None
}

proof fn lemma_prefix_entry(s: Seq<(u32, usize)>, id: u32, k: int)
    requires
        0 <= k <= s.len(),
        entry_index(s.take(k), id) >= 0,
    ensures
        entry_index(s, id) == entry_index(s.take(k), id),
    decreases s.len() - k,
{
    if k < s.len() {
        assert(s.take(k + 1).drop_last() =~= s.take(k));
        lemma_prefix_entry(s, id, k + 1);
    } else {
        assert(s.take(k) =~= s);
    }
}

/// Entry `k` was reached, one level down, by transition `came[k]`.
spec fn reached_by(ts: Seq<TransitionView>, back: Seq<bool>, lv: Seq<(u32, usize)>, came: Seq<int>, k: int) -> bool {
    &&& 0 <= came[k] < ts.len()
    &&& lv[k].1 >= 1
    &&& !back[came[k]]
    &&& ts[came[k]].to_step == lv[k].0
    &&& level_of(lv, ts[came[k]].from_step) == lv[k].1 - 1
}

proof fn lemma_entries_bound(ts: Seq<TransitionView>, back: Seq<bool>, lv: Seq<(u32, usize)>, came: Seq<int>)
    requires
        lv.len() >= 1,
        distinct_entries(lv),
        came.len() == lv.len(),
        forall|k: int| 1 <= k < lv.len() ==> #[trigger] reached_by(ts, back, lv, came, k),
    ensures
        lv.len() <= ts.len() + 1,
{
    let q = came.subrange(1, came.len() as int);
    assert forall|a: int, b: int| 0 <= a < b < q.len() implies q[a] != q[b] by {
        assert(reached_by(ts, back, lv, came, a + 1));
        assert(reached_by(ts, back, lv, came, b + 1));
        assert(lv[a + 1].0 != lv[b + 1].0);
    }
    assert forall|k: int| 0 <= k < q.len() implies 0 <= #[trigger] q[k] < ts.len() by {
        assert(reached_by(ts, back, lv, came, k + 1));
    }
    crate::circuits::lemma_distinct_in_range(q, 0, ts.len() as int);
}

/// Levels of the identifiers reachable from `start` (see `shortest_levels`),
/// found level by level.
fn levels_from(g: &Grafcet, back: &Vec<bool>, start: u32) -> (lv: Vec<(u32, usize)>)
    requires
        back@.len() == g@.transitions.len(),
    ensures
        shortest_levels(g@, back@, start, lv@),
        1 <= lv@.len() <= g@.transitions.len() + 1,
        lv@[0] == (start, 0usize),
        forall|k: int| 0 <= k < lv@.len() ==> #[trigger] lv@[k].1 <= g@.transitions.len() + 1,
{
    let ghost ts = g@.transitions;
    let m = g.transitions.len();
    let mut lv: Vec<(u32, usize)> = Vec::new();
    lv.push((start, 0));
    let ghost mut came: Seq<int> = seq![0int];
    let mut frontier: Vec<u32> = Vec::new();
    frontier.push(start);
    let mut d: usize = 0;
    proof {
        lemma_entry_own(lv@, 0);
        assert forall|x: u32| level_of(lv@, x) == d <==> frontier@.contains(x) by {
            lemma_entry_index(lv@, x);
            if frontier@.contains(x) {
                assert(frontier@[0] == x);
            }
            if level_of(lv@, x) == d {
                assert(frontier@[0] == x);
            }
        }
    }
    while frontier.len() > 0
        invariant
            ts == g@.transitions,
            m == ts.len(),
            back@.len() == m,
            lv@.len() >= 1,
            lv@[0] == (start, 0usize),
            distinct_entries(lv@),
            d <= lv@.len(),
            frontier@.len() > 0 ==> d < lv@.len(),
            forall|k: int| 0 <= k < lv@.len() ==> #[trigger] lv@[k].1 <= d,
            forall|x: u32| level_of(lv@, x) == d <==> #[trigger] frontier@.contains(x),
            forall|i: int|
                0 <= i < m && !back@[i] && 0 <= level_of(lv@, ts[i].from_step) < d ==> {
                    &&& level_of(lv@, #[trigger] ts[i].to_step) >= 0
                    &&& level_of(lv@, ts[i].to_step) <= level_of(lv@, ts[i].from_step) + 1
                },
            came.len() == lv@.len(),
            forall|k: int| 1 <= k < lv@.len() ==> #[trigger] reached_by(ts, back@, lv@, came, k),
        decreases m + 1 - lv@.len(), frontier@.len(),
    {
        proof {
            lemma_entries_bound(ts, back@, lv@, came);
        }
        let ghost lv0 = lv@;
        let nl = lv.len();
        let d1 = d + 1;
        let mut next: Vec<u32> = Vec::new();
        let nf = frontier.len();
        let mut p: usize = 0;
        while p < nf
            invariant
                ts == g@.transitions,
                m == ts.len(),
                back@.len() == m,
                nf == frontier@.len(),
                0 <= p <= nf,
                d1 == d + 1,
                d < lv0.len(),
                lv0.len() >= 1,
                lv0[0] == (start, 0usize),
                distinct_entries(lv0),
                forall|k: int| 0 <= k < lv0.len() ==> #[trigger] lv0[k].1 <= d,
                forall|x: u32| level_of(lv0, x) == d <==> #[trigger] frontier@.contains(x),
                lv@.len() >= lv0.len(),
                forall|k: int| 0 <= k < lv0.len() ==> #[trigger] lv@[k] == lv0[k],
                forall|k: int| lv0.len() <= k < lv@.len() ==> #[trigger] lv@[k].1 == d + 1,
                distinct_entries(lv@),
                forall|x: u32| level_of(lv0, x) >= 0 ==> #[trigger] level_of(lv@, x) == level_of(lv0, x),
                forall|x: u32| level_of(lv0, x) == -1 && #[trigger] level_of(lv@, x) >= 0 ==> level_of(lv@, x) == d + 1,
                next@.len() == lv@.len() - lv0.len(),
                forall|q: int| 0 <= q < next@.len() ==> #[trigger] next@[q] == lv@[lv0.len() + q].0,
                forall|i: int|
                    0 <= i < m && !back@[i] && 0 <= level_of(lv@, ts[i].from_step) < d ==> {
                        &&& level_of(lv@, #[trigger] ts[i].to_step) >= 0
                        &&& level_of(lv@, ts[i].to_step) <= level_of(lv@, ts[i].from_step) + 1
                    },
                forall|i: int|
                    0 <= i < m && !back@[i] && frontier@.take(p as int).contains(ts[i].from_step) ==> {
                        &&& level_of(lv@, #[trigger] ts[i].to_step) >= 0
                        &&& level_of(lv@, ts[i].to_step) <= d + 1
                    },
                came.len() == lv@.len(),
                forall|k: int| 1 <= k < lv@.len() ==> #[trigger] reached_by(ts, back@, lv@, came, k),
            decreases nf - p,
        {
            let f = frontier[p];
            proof {
                assert(frontier@.contains(f));
                assert(level_of(lv0, f) == d);
            }
            let mut i: usize = 0;
            while i < m
                invariant
                    ts == g@.transitions,
                    m == ts.len(),
                    back@.len() == m,
                    nf == frontier@.len(),
                    0 <= p < nf,
                    f == frontier@[p as int],
                    level_of(lv0, f) == d,
                    0 <= i <= m,
                    d1 == d + 1,
                    d < lv0.len(),
                    lv0.len() >= 1,
                    distinct_entries(lv0),
                    forall|k: int| 0 <= k < lv0.len() ==> #[trigger] lv0[k].1 <= d,
                    lv@.len() >= lv0.len(),
                    forall|k: int| 0 <= k < lv0.len() ==> #[trigger] lv@[k] == lv0[k],
                    forall|k: int| lv0.len() <= k < lv@.len() ==> #[trigger] lv@[k].1 == d + 1,
                    distinct_entries(lv@),
                    forall|x: u32| level_of(lv0, x) >= 0 ==> #[trigger] level_of(lv@, x) == level_of(lv0, x),
                    forall|x: u32| level_of(lv0, x) == -1 && #[trigger] level_of(lv@, x) >= 0 ==> level_of(lv@, x) == d + 1,
                    next@.len() == lv@.len() - lv0.len(),
                    forall|q: int| 0 <= q < next@.len() ==> #[trigger] next@[q] == lv@[lv0.len() + q].0,
                    forall|j: int|
                        0 <= j < m && !back@[j] && 0 <= level_of(lv@, ts[j].from_step) < d ==> {
                            &&& level_of(lv@, #[trigger] ts[j].to_step) >= 0
                            &&& level_of(lv@, ts[j].to_step) <= level_of(lv@, ts[j].from_step) + 1
                        },
                    forall|j: int|
                        0 <= j < m && !back@[j] && frontier@.take(p as int).contains(ts[j].from_step) ==> {
                            &&& level_of(lv@, #[trigger] ts[j].to_step) >= 0
                            &&& level_of(lv@, ts[j].to_step) <= d + 1
                        },
                    forall|j: int|
                        0 <= j < i && !back@[j] && ts[j].from_step == f ==> {
                            &&& level_of(lv@, #[trigger] ts[j].to_step) >= 0
                            &&& level_of(lv@, ts[j].to_step) <= d + 1
                        },
                    came.len() == lv@.len(),
                    forall|k: int| 1 <= k < lv@.len() ==> #[trigger] reached_by(ts, back@, lv@, came, k),
                decreases m - i,
            {
                if !back[i] && g.transitions[i].from_step == f {
                    let b = g.transitions[i].to_step;
                    let found = find_entry(&lv, b);
                    if found.is_some() {
                        proof {
                            lemma_entry_index(lv@, b);
                            let k = entry_index(lv@, b);
                            if k < lv0.len() {
                                assert(lv@[k] == lv0[k]);
                            }
                        }
                    }
                    if found.is_none() {
                        let ghost before = lv@;
                        let ghost vbefore = came;
                        let e = (b, d1);
                        lv.push(e);
                        next.push(b);
                        proof {
                            came = came.push(i as int);
                            assert(lv@ == before.push(e));
                            assert forall|x: u32| #[trigger] level_of(lv@, x) == if x == b { (d + 1) as int } else { level_of(before, x) } by {
                                lemma_level_push(before, e, x);
                            }
                            lemma_entry_index(before, b);
                            assert forall|a: int, c: int| 0 <= a < c < lv@.len() implies #[trigger] lv@[a].0 != #[trigger] lv@[c].0 by {
                                if c == lv@.len() - 1 {
                                    assert(before[a].0 != b);
                                } else {
                                    assert(before[a].0 != before[c].0);
                                }
                            }
                            assert forall|k: int| 1 <= k < lv@.len() implies #[trigger] reached_by(ts, back@, lv@, came, k) by {
                                if k < before.len() {
                                    assert(reached_by(ts, back@, before, vbefore, k));
                                    let fr = ts[vbefore[k]].from_step;
                                    assert(level_of(before, fr) >= 0);
                                    assert(fr != b);
                                } else {
                                    assert(level_of(before, f) == d);
                                }
                            }
                            assert forall|q: int| 0 <= q < next@.len() implies #[trigger] next@[q] == lv@[lv0.len() + q].0 by {
                                if q < next@.len() - 1 {
                                }
                            }
                        }
                    }
                }
                i = i + 1;
            }
            proof {
                assert forall|j: int|
                    0 <= j < m && !back@[j] && frontier@.take(p + 1).contains(ts[j].from_step) implies {
                        &&& level_of(lv@, #[trigger] ts[j].to_step) >= 0
                        &&& level_of(lv@, ts[j].to_step) <= d + 1
                    } by {
                    let w = choose|w: int| 0 <= w < p + 1 && #[trigger] frontier@.take(p + 1)[w] == ts[j].from_step;
                    if w < p {
                        assert(frontier@.take(p as int)[w] == ts[j].from_step);
                        assert(frontier@.take(p as int).contains(ts[j].from_step));
                    }
                }
            }
            p = p + 1;
        }
        proof {
            assert(frontier@.take(nf as int) =~= frontier@);
            assert forall|x: u32| level_of(lv@, x) == d + 1 <==> #[trigger] next@.contains(x) by {
                lemma_entry_index(lv@, x);
                lemma_entry_index(lv0, x);
                if next@.contains(x) {
                    let q = choose|q: int| 0 <= q < next@.len() && #[trigger] next@[q] == x;
                    lemma_entry_own(lv@, lv0.len() + q);
                }
                if level_of(lv@, x) == d + 1 {
                    if level_of(lv0, x) >= 0 {
                        let k = entry_index(lv0, x);
                        assert(lv0[k].1 <= d);
                    } else {
                        let k = entry_index(lv@, x);
                        assert(k >= lv0.len()) by {
                            if k < lv0.len() {
                                assert(lv@[k] == lv0[k]);
                                assert(lv0[k].0 == x);
                            }
                        }
                        assert(next@[k - lv0.len()] == x);
                    }
                }
            }
            assert forall|i: int|
                0 <= i < m && !back@[i] && 0 <= level_of(lv@, ts[i].from_step) < d + 1 implies {
                    &&& level_of(lv@, #[trigger] ts[i].to_step) >= 0
                    &&& level_of(lv@, ts[i].to_step) <= level_of(lv@, ts[i].from_step) + 1
                } by {
                let fr = ts[i].from_step;
                if level_of(lv@, fr) == d {
                    if level_of(lv0, fr) >= 0 {
                        assert(level_of(lv0, fr) == d);
                        assert(frontier@.contains(fr));
                    } else {
                        assert(level_of(lv@, fr) == d + 1);
                    }
                }
            }
            assert forall|k: int| 0 <= k < lv@.len() implies #[trigger] lv@[k].1 <= d + 1 by {
                if k < lv0.len() {
                    assert(lv@[k] == lv0[k]);
                }
            }
        }
        proof {
            lemma_entries_bound(ts, back@, lv@, came);
        }
        frontier = next;
        d = d1;
    }
    proof {
        assert forall|i: int|
            0 <= i < m && !back@[i] && level_of(lv@, ts[i].from_step) >= 0 implies {
                &&& level_of(lv@, #[trigger] ts[i].to_step) >= 0
                &&& level_of(lv@, ts[i].to_step) <= level_of(lv@, ts[i].from_step) + 1
            } by {
            let fr = ts[i].from_step;
            lemma_entry_index(lv@, fr);
            let k = entry_index(lv@, fr);
            assert(lv@[k].1 <= d);
            if level_of(lv@, fr) == d {
                assert(frontier@.contains(fr));
            }
        }
        assert forall|k: int| 0 <= k < lv@.len() && #[trigger] lv@[k].0 != start implies exists|i: int|
            0 <= i < ts.len() && !back@[i] && ts[i].to_step == lv@[k].0 && level_of(lv@, ts[i].from_step)
                == lv@[k].1 - 1 by {
            if k == 0 {
            } else {
                assert(reached_by(ts, back@, lv@, came, k));
            }
        }
        assert forall|k: int| 0 <= k < lv@.len() && #[trigger] lv@[k].0 != start implies lv@[k].1 >= 1 by {
            if k > 0 {
                assert(reached_by(ts, back@, lv@, came, k));
            }
        }
        lemma_entry_own(lv@, 0);
        lemma_entries_bound(ts, back@, lv@, came);
    }
    lv
}

// ── Steps that the search does not reach, columns, and transitions ─────────────

/// Highest level of the entries, 0 when there is none.
pub open spec fn max_level(lv: Seq<(u32, usize)>) -> nat
    decreases lv.len(),
{
    if lv.len() == 0 {
        0
    } else {
        let r = max_level(lv.drop_last());
        if lv.last().1 as nat > r {
            lv.last().1 as nat
        } else {
            r
        }
    }
}

/// The steps without a level, in their order, each one level below the
/// previous one, the first just below the highest level.
pub open spec fn extra_entries(steps: Seq<StepView>, lv: Seq<(u32, usize)>) -> Seq<(u32, usize)>
    decreases steps.len(),
{
    if steps.len() == 0 {
        Seq::empty()
    } else {
        let r = extra_entries(steps.drop_last(), lv);
        if level_of(lv, steps.last().id) == -1 {
            r.push((steps.last().id, (max_level(lv) + 1 + r.len()) as usize))
        } else {
            r
        }
    }
}

/// Number of entries at level `l`.
pub open spec fn count_level(lv: Seq<(u32, usize)>, l: int) -> nat
    decreases lv.len(),
{
    if lv.len() == 0 {
        0
    } else {
        count_level(lv.drop_last(), l) + if lv.last().1 == l {
            1nat
        } else {
            0nat
        }
    }
}

/// Number of entries at level `l` whose identifier is below `id`: the column
/// of `id` when a level is ordered by identifier.
pub open spec fn count_lower(lv: Seq<(u32, usize)>, l: int, id: u32) -> nat
    decreases lv.len(),
{
    if lv.len() == 0 {
        0
    } else {
        count_lower(lv.drop_last(), l, id) + if lv.last().1 == l && lv.last().0 < id {
            1nat
        } else {
            0nat
        }
    }
}

/// Number of transitions that leave `from` and do not go back.
pub open spec fn forward_from(ts: Seq<TransitionView>, back: Seq<bool>, from: u32) -> nat
    decreases ts.len(),
{
    if ts.len() == 0 {
        0
    } else {
        let k = ts.len() - 1;
        forward_from(ts.drop_last(), back, from) + if !back[k] && ts[k].from_step == from {
            1nat
        } else {
            0nat
        }
    }
}

/// Transition `j` does not go back and leaves step `from`.
pub open spec fn forward_leaving(ts: Seq<TransitionView>, back: Seq<bool>, from: u32, j: int) -> bool {
    0 <= j < ts.len() && !back[j] && ts[j].from_step == from
}

proof fn lemma_forward_two(ts: Seq<TransitionView>, back: Seq<bool>, from: u32, i: int, j: int)
    requires
        forward_leaving(ts, back, from, i),
        forward_leaving(ts, back, from, j),
        i != j,
    ensures
        forward_from(ts, back, from) >= 2,
    decreases ts.len(),
{
    let k = ts.len() - 1;
    let p = ts.drop_last();
    if i < k && j < k {
        assert(p[i] == ts[i] && p[j] == ts[j]);
        lemma_forward_two(p, back, from, i, j);
    } else {
        let o = if i == k { j } else { i };
        assert(p[o] == ts[o]);
        lemma_forward_one(p, back, from, o);
    }
}

proof fn lemma_forward_one(ts: Seq<TransitionView>, back: Seq<bool>, from: u32, i: int)
    requires
        forward_leaving(ts, back, from, i),
    ensures
        forward_from(ts, back, from) >= 1,
    decreases ts.len(),
{
    let k = ts.len() - 1;
    let p = ts.drop_last();
    if i < k {
        assert(p[i] == ts[i]);
        lemma_forward_one(p, back, from, i);
    }
}

proof fn lemma_forward_some(ts: Seq<TransitionView>, back: Seq<bool>, from: u32)
    requires
        forward_from(ts, back, from) >= 1,
    ensures
        exists|j: int| #[trigger] forward_leaving(ts, back, from, j),
    decreases ts.len(),
{
    let k = ts.len() - 1;
    let p = ts.drop_last();
    if forward_leaving(ts, back, from, k) {
    } else {
        lemma_forward_some(p, back, from);
        let j = choose|j: int| #[trigger] forward_leaving(p, back, from, j);
        assert(p[j] == ts[j]);
        assert(forward_leaving(ts, back, from, j));
    }
}

proof fn lemma_forward_other(ts: Seq<TransitionView>, back: Seq<bool>, from: u32, i: int)
    requires
        forward_leaving(ts, back, from, i),
        forward_from(ts, back, from) >= 2,
    ensures
        exists|j: int| j != i && #[trigger] forward_leaving(ts, back, from, j),
    decreases ts.len(),
{
    let k = ts.len() - 1;
    let p = ts.drop_last();
    if i == k {
        lemma_forward_some(p, back, from);
        let j = choose|j: int| #[trigger] forward_leaving(p, back, from, j);
        assert(p[j] == ts[j]);
        assert(forward_leaving(ts, back, from, j));
    } else if forward_leaving(ts, back, from, k) {
    } else {
        assert(p[i] == ts[i]);
        lemma_forward_other(p, back, from, i);
        let j = choose|j: int| j != i && #[trigger] forward_leaving(p, back, from, j);
        assert(p[j] == ts[j]);
        assert(forward_leaving(ts, back, from, j));
    }
}

/// Law: a transition belongs to an OR divergence exactly when it does not go
/// back and another transition that does not go back leaves the same step; a
/// transition that goes back never counts as a branch.
pub proof fn law_divergence_counts_forward_only(ts: Seq<TransitionView>, back: Seq<bool>, i: int)
    requires
        0 <= i < ts.len(),
        back.len() == ts.len(),
    ensures
        (!back[i] && forward_from(ts, back, ts[i].from_step) >= 2) <==> (!back[i] && exists|j: int|
            j != i && #[trigger] forward_leaving(ts, back, ts[i].from_step, j)),
{
    let f = ts[i].from_step;
    if !back[i] {
        assert(forward_leaving(ts, back, f, i));
        if forward_from(ts, back, f) >= 2 {
            lemma_forward_other(ts, back, f, i);
        }
        if exists|j: int| j != i && #[trigger] forward_leaving(ts, back, f, j) {
            let j = choose|j: int| j != i && #[trigger] forward_leaving(ts, back, f, j);
            lemma_forward_two(ts, back, f, i, j);
        }
    }
}

/// Where a return route is ranked: by the level of the step it reaches
/// (one above the top when it reaches no step).
pub open spec fn return_key(g: GrafcetView, lv: Seq<(u32, usize)>, i: int) -> int {
    if target_index(g, i) >= 0 {
        level_of(lv, g.transitions[i].to_step) + 1
    } else {
        0
    }
}

/// Number of transitions among the first `upto` that go back and come
/// before transition `i`: a lower key, or the same key and an earlier place.
pub open spec fn routes_before(g: GrafcetView, back: Seq<bool>, lv: Seq<(u32, usize)>, i: int, upto: int) -> nat
    decreases upto,
{
    if upto <= 0 {
        0
    } else {
        let j = upto - 1;
        routes_before(g, back, lv, i, j) + if back[j] && (return_key(g, lv, j) < return_key(g, lv, i) || (
        return_key(g, lv, j) == return_key(g, lv, i) && j < i)) {
            1nat
        } else {
            0nat
        }
    }
}

proof fn lemma_max_level(lv: Seq<(u32, usize)>)
    ensures
        forall|k: int| 0 <= k < lv.len() ==> #[trigger] lv[k].1 <= max_level(lv),
        lv.len() > 0 ==> exists|k: int| 0 <= k < lv.len() && #[trigger] lv[k].1 == max_level(lv),
    decreases lv.len(),
{
    if lv.len() > 0 {
        lemma_max_level(lv.drop_last());
        assert forall|k: int| 0 <= k < lv.len() implies #[trigger] lv[k].1 <= max_level(lv) by {
            if k < lv.len() - 1 {
                assert(lv.drop_last()[k] == lv[k]);
            }
        }
        if lv.last().1 as nat > max_level(lv.drop_last()) || lv.len() == 1 {
            assert(lv[lv.len() - 1].1 == max_level(lv));
        } else {
            let k = choose|k: int| 0 <= k < lv.len() - 1 && #[trigger] lv.drop_last()[k].1 == max_level(lv.drop_last());
            assert(lv[k] == lv.drop_last()[k]);
        }
    }
}

proof fn lemma_extra_len(steps: Seq<StepView>, lv: Seq<(u32, usize)>)
    ensures
        extra_entries(steps, lv).len() <= steps.len(),
    decreases steps.len(),
{
    if steps.len() > 0 {
        lemma_extra_len(steps.drop_last(), lv);
    }
}

/// Highest level of the entries.
fn max_level_of(lv: &Vec<(u32, usize)>) -> (r: usize)
    ensures
        r == max_level(lv@),
{
    let n = lv.len();
    let mut r: usize = 0;
    let mut k: usize = 0;
    while k < n
        invariant
            n == lv@.len(),
            0 <= k <= n,
            r == max_level(lv@.take(k as int)),
        decreases n - k,
    {
        assert(lv@.take(k + 1).drop_last() =~= lv@.take(k as int));
        if lv[k].1 > r {
            r = lv[k].1;
        }
        k = k + 1;
    }
    assert(lv@.take(n as int) =~= lv@);
    r
}

/// The entries of the steps without a level (see `extra_entries`).
fn extras_of(g: &Grafcet, lv: &Vec<(u32, usize)>) -> (r: Vec<(u32, usize)>)
    requires
        max_level(lv@) + g@.steps.len() + 1 <= usize::MAX,
    ensures
        r@ == extra_entries(g@.steps, lv@),
{
    let ghost ss = g@.steps;
    let top = max_level_of(lv);
    let n = g.steps.len();
    let mut r: Vec<(u32, usize)> = Vec::new();
    let mut k: usize = 0;
    while k < n
        invariant
            ss == g@.steps,
            n == ss.len(),
            top == max_level(lv@),
            max_level(lv@) + n + 1 <= usize::MAX,
            0 <= k <= n,
            r@ == extra_entries(ss.take(k as int), lv@),
        decreases n - k,
    {
        assert(ss.take(k + 1).drop_last() =~= ss.take(k as int));
        assert(ss.take(k + 1).last() == ss[k as int]);
        proof {
            lemma_extra_len(ss.take(k as int), lv@);
        }
        let id = g.steps[k].id;
        if find_entry(lv, id).is_none() {
            let e = (id, top + 1 + r.len());
            r.push(e);
        }
        k = k + 1;
    }
    assert(ss.take(n as int) =~= ss);
    r
}

/// Level, column and size of the level of a step (see `count_level` and
/// `count_lower`).
fn place_of(lv: &Vec<(u32, usize)>, id: u32) -> (r: (usize, usize, usize))
    ensures
        r.0 as int == level_of(lv@, id) || level_of(lv@, id) < 0,
        level_of(lv@, id) >= 0 ==> r.1 == count_lower(lv@, level_of(lv@, id), id) && r.2 == count_level(
            lv@,
            level_of(lv@, id),
        ),
{
    proof {
        lemma_entry_index(lv@, id);
    }
    let level = match find_entry(lv, id) {
        Some(k) => lv[k].1,
        None => 0,
    };
    let n = lv.len();
    let mut column: usize = 0;
    let mut count: usize = 0;
    let mut k: usize = 0;
    while k < n
        invariant
            n == lv@.len(),
            0 <= k <= n,
            column == count_lower(lv@.take(k as int), level as int, id),
            count == count_level(lv@.take(k as int), level as int),
            column <= k,
            count <= k,
        decreases n - k,
    {
        assert(lv@.take(k + 1).drop_last() =~= lv@.take(k as int));
        if lv[k].1 == level {
            count = count + 1;
            if lv[k].0 < id {
                column = column + 1;
            }
        }
        k = k + 1;
    }
    assert(lv@.take(n as int) =~= lv@);
    (level, column, count)
}

/// Number of transitions that leave `from` and do not go back.
fn forward_from_of(g: &Grafcet, back: &Vec<bool>, from: u32) -> (r: usize)
    requires
        back@.len() == g@.transitions.len(),
    ensures
        r == forward_from(g@.transitions, back@, from),
{
    let ghost ts = g@.transitions;
    let m = g.transitions.len();
    let mut r: usize = 0;
    let mut j: usize = 0;
    while j < m
        invariant
            ts == g@.transitions,
            m == ts.len(),
            back@.len() == m,
            0 <= j <= m,
            r == forward_from(ts.take(j as int), back@, from),
            r <= j,
        decreases m - j,
    {
        assert(ts.take(j + 1).drop_last() =~= ts.take(j as int));
        if !back[j] && g.transitions[j].from_step == from {
            r = r + 1;
        }
        j = j + 1;
    }
    assert(ts.take(m as int) =~= ts);
    r
}

proof fn lemma_extra_facts(steps: Seq<StepView>, lv: Seq<(u32, usize)>)
    requires
        max_level(lv) + steps.len() + 1 <= usize::MAX,
    ensures
        forall|q: int| 0 <= q < extra_entries(steps, lv).len() ==> #[trigger] extra_entries(steps, lv)[q].1 <= max_level(lv) + steps.len(),
        forall|k: int| 0 <= k < steps.len() && level_of(lv, #[trigger] steps[k].id) == -1 ==> exists|q: int|
            0 <= q < extra_entries(steps, lv).len() && #[trigger] extra_entries(steps, lv)[q].0 == steps[k].id,
    decreases steps.len(),
{
    if steps.len() > 0 {
        let s0 = steps.drop_last();
        lemma_extra_facts(s0, lv);
        lemma_extra_len(s0, lv);
        let r = extra_entries(s0, lv);
        let e = extra_entries(steps, lv);
        assert forall|q: int| 0 <= q < e.len() implies #[trigger] e[q].1 <= max_level(lv) + steps.len() by {
            if q < r.len() {
                assert(e[q] == r[q]);
            }
        }
        assert forall|k: int| 0 <= k < steps.len() && level_of(lv, #[trigger] steps[k].id) == -1 implies exists|q: int|
            0 <= q < e.len() && #[trigger] e[q].0 == steps[k].id by {
            if k < steps.len() - 1 {
                assert(s0[k] == steps[k]);
                let q = choose|q: int| 0 <= q < r.len() && #[trigger] r[q].0 == s0[k].id;
                assert(e[q] == r[q]);
            } else {
                assert(e[r.len() as int].0 == steps[k].id);
            }
        }
    }
}

/// Rank keys of the return routes (see `return_key`).
fn return_keys(g: &Grafcet, lv: &Vec<(u32, usize)>) -> (r: Vec<usize>)
    requires
        forall|k: int| 0 <= k < lv@.len() ==> #[trigger] lv@[k].1 < usize::MAX,
    ensures
        r@.len() == g@.transitions.len(),
        forall|j: int| 0 <= j < r@.len() ==> #[trigger] r@[j] as int == return_key(g@, lv@, j),
{
    let m = g.transitions.len();
    let mut r: Vec<usize> = Vec::new();
    let mut j: usize = 0;
    while j < m
        invariant
            m == g@.transitions.len(),
            forall|k: int| 0 <= k < lv@.len() ==> #[trigger] lv@[k].1 < usize::MAX,
            0 <= j <= m,
            r@.len() == j,
            forall|q: int| 0 <= q < j ==> #[trigger] r@[q] as int == return_key(g@, lv@, q),
        decreases m - j,
    {
        let to = g.transitions[j].to_step;
        proof {
            lemma_entry_index(lv@, to);
        }
        let key = match g.find_step(to) {
            None => 0,
            Some(_) => match find_entry(lv, to) {
                Some(k) => lv[k].1 + 1,
                None => 0,
            },
        };
        r.push(key);
        j = j + 1;
    }
    r
}

/// Rank of each return route among the routes that go back (see
/// `routes_before`); 0 for the other transitions.
fn route_ranks(g: &Grafcet, back: &Vec<bool>, lv: &Vec<(u32, usize)>) -> (r: Vec<usize>)
    requires
        back@.len() == g@.transitions.len(),
        forall|k: int| 0 <= k < lv@.len() ==> #[trigger] lv@[k].1 < usize::MAX,
    ensures
        r@.len() == g@.transitions.len(),
        forall|i: int| 0 <= i < r@.len() ==> #[trigger] r@[i] as int == if back@[i] {
            routes_before(g@, back@, lv@, i, g@.transitions.len() as int) as int
        } else {
            0
        },
{
    let keys = return_keys(g, lv);
    let m = g.transitions.len();
    let mut r: Vec<usize> = Vec::new();
    let mut i: usize = 0;
    while i < m
        invariant
            m == g@.transitions.len(),
            back@.len() == m,
            keys@.len() == m,
            forall|j: int| 0 <= j < m ==> #[trigger] keys@[j] as int == return_key(g@, lv@, j),
            0 <= i <= m,
            r@.len() == i,
            forall|q: int| 0 <= q < i ==> #[trigger] r@[q] as int == if back@[q] {
                routes_before(g@, back@, lv@, q, m as int) as int
            } else {
                0
            },
        decreases m - i,
    {
        let mut c: usize = 0;
        if back[i] {
            let mut j: usize = 0;
            while j < m
                invariant
                    m == g@.transitions.len(),
                    back@.len() == m,
                    keys@.len() == m,
                    forall|q: int| 0 <= q < m ==> #[trigger] keys@[q] as int == return_key(g@, lv@, q),
                    0 <= i < m,
                    0 <= j <= m,
                    c == routes_before(g@, back@, lv@, i as int, j as int),
                    c <= j,
                decreases m - j,
            {
                if back[j] && (keys[j] < keys[i] || (keys[j] == keys[i] && j < i)) {
                    c = c + 1;
                }
                j = j + 1;
            }
        }
        r.push(c);
        i = i + 1;
    }
    r
}

/// Whether each transition belongs to an OR divergence: it does not go back,
/// and another transition that does not go back leaves the same step.
fn divergences(g: &Grafcet, back: &Vec<bool>) -> (r: Vec<bool>)
    requires
        back@.len() == g@.transitions.len(),
    ensures
        r@.len() == g@.transitions.len(),
        forall|i: int| 0 <= i < r@.len() ==> #[trigger] r@[i] == (!back@[i] && forward_from(
            g@.transitions,
            back@,
            g@.transitions[i].from_step,
        ) >= 2),
{
    let m = g.transitions.len();
    let mut r: Vec<bool> = Vec::new();
    let mut i: usize = 0;
    while i < m
        invariant
            m == g@.transitions.len(),
            back@.len() == m,
            0 <= i <= m,
            r@.len() == i,
            forall|q: int| 0 <= q < i ==> #[trigger] r@[q] == (!back@[q] && forward_from(
                g@.transitions,
                back@,
                g@.transitions[q].from_step,
            ) >= 2),
        decreases m - i,
    {
        let d = !back[i] && forward_from_of(g, back, g.transitions[i].from_step) >= 2;
        r.push(d);
        i = i + 1;
    }
    r
}

/// Every step has a level once the steps not reached are added.
proof fn lemma_every_step_placed(ss: Seq<StepView>, bfs: Seq<(u32, usize)>, lv: Seq<(u32, usize)>)
    requires
        lv == bfs + extra_entries(ss, bfs),
        max_level(bfs) + ss.len() + 1 <= usize::MAX,
    ensures
        forall|k: int| 0 <= k < ss.len() ==> level_of(lv, #[trigger] ss[k].id) >= 0,
{
    lemma_extra_facts(ss, bfs);
    assert forall|k: int| 0 <= k < ss.len() implies level_of(lv, #[trigger] ss[k].id) >= 0 by {
        let id = ss[k].id;
        lemma_entry_index(bfs, id);
        lemma_entry_index(lv, id);
        if level_of(bfs, id) >= 0 {
            assert(lv.take(bfs.len() as int) =~= bfs);
            lemma_prefix_entry(lv, id, bfs.len() as int);
        } else {
            let q = choose|q: int| 0 <= q < extra_entries(ss, bfs).len() && #[trigger] extra_entries(ss, bfs)[q].0 == id;
            assert(lv[bfs.len() + q] == extra_entries(ss, bfs)[q]);
        }
    }
}

/// Level, column and level size of every step (see `place_of`).
fn places_of(g: &Grafcet, levels: &Vec<(u32, usize)>) -> (r: Vec<(usize, usize, usize)>)
    requires
        forall|k: int| 0 <= k < g@.steps.len() ==> level_of(levels@, #[trigger] g@.steps[k].id) >= 0,
    ensures
        r@.len() == g@.steps.len(),
        forall|k: int| 0 <= k < g@.steps.len() ==> {
            let id = g@.steps[k].id;
            &&& (#[trigger] r@[k]).0 as int == level_of(levels@, id)
            &&& r@[k].1 == count_lower(levels@, level_of(levels@, id), id)
            &&& r@[k].2 == count_level(levels@, level_of(levels@, id))
        },
{
    let ghost ss = g@.steps;
    let ghost lv = levels@;
    let n = g.steps.len();
    let mut places: Vec<(usize, usize, usize)> = Vec::new();
    let mut k: usize = 0;
    while k < n
        invariant
            ss == g@.steps,
            n == ss.len(),
            lv == levels@,
            forall|j: int| 0 <= j < n ==> level_of(lv, #[trigger] ss[j].id) >= 0,
            0 <= k <= n,
            places@.len() == k,
            forall|j: int| 0 <= j < k ==> {
                let id = ss[j].id;
                &&& (#[trigger] places@[j]).0 as int == level_of(lv, id)
                &&& places@[j].1 == count_lower(lv, level_of(lv, id), id)
                &&& places@[j].2 == count_level(lv, level_of(lv, id))
            },
        decreases n - k,
    {
        let id = g.steps[k].id;
        assert(id == ss[k as int].id);
        assert(level_of(lv, id) >= 0);
        let place = place_of(levels, id);
        places.push(place);
        k = k + 1;
    }
    places
}

// ── The plan ──────────────────────────────────────────────────────────────────

/// Whole-number layout of a GRAFCET. Steps and transitions are listed in the
/// order of the GRAFCET.
pub struct LayoutPlan {
    /// Index of the step the layout starts from.
    pub start: usize,
    /// Whether each transition goes back (is drawn as a return route).
    pub back: Vec<bool>,
    /// Order in which the search finished each step.
    pub finish: Vec<usize>,
    /// How many entries of `levels` the search from the start reached.
    pub reached: usize,
    /// Level of each identifier: those reached first, then the other steps.
    pub levels: Vec<(u32, usize)>,
    /// For each step: its level, its column in the level (levels are ordered
    /// by identifier) and the number of identifiers in the level.
    pub places: Vec<(usize, usize, usize)>,
    /// Whether each transition belongs to an OR divergence.
    pub divergent: Vec<bool>,
    /// Rank of each return route, counted from the innermost; 0 for the other
    /// transitions.
    pub route_rank: Vec<usize>,
}

/// Plans the automatic layout of a GRAFCET; `None` when it has no step.
/// The loops back come from a depth-first search from the start step (the
/// first initial step, else the first step); the levels are distances from
/// the start along the other transitions, the steps not reached coming below
/// in their order; return routes are ranked by the level of the step they
/// reach, then by their place.
pub fn layout_plan(g: &Grafcet) -> (r: Option<LayoutPlan>)
    requires
        distinct_step_ids(g@.steps),
        g@.steps.len() + g@.transitions.len() + 3 <= usize::MAX,
    ensures
        r.is_none() <==> g@.steps.len() == 0,
        r matches Some(p) ==> {
            let n = g@.steps.len();
            let m = g@.transitions.len();
            let lv = p.levels@;
            let bfs = lv.take(p.reached as int);
            &&& p.start as int == start_index(g@.steps)
            &&& loops_of(g@, p.back@, p.finish@)
            &&& !has_step_cycle(g@) ==> forall|i: int| 0 <= i < m ==> !#[trigger] p.back@[i]
            &&& p.back@ == depth_first(g@).back
            &&& p.finish@ == depth_first(g@).finish
            &&& p.reached <= lv.len()
            &&& shortest_levels(g@, p.back@, g@.steps[p.start as int].id, bfs)
            &&& lv.skip(p.reached as int) == extra_entries(g@.steps, bfs)
            &&& p.places@.len() == n
            &&& forall|k: int| 0 <= k < n ==> level_of(lv, #[trigger] g@.steps[k].id) >= 0
            &&& forall|k: int| 0 <= k < n ==> {
                let id = g@.steps[k].id;
                &&& (#[trigger] p.places@[k]).0 as int == level_of(lv, id)
                &&& p.places@[k].1 == count_lower(lv, level_of(lv, id), id)
                &&& p.places@[k].2 == count_level(lv, level_of(lv, id))
            }
            &&& p.divergent@.len() == m
            &&& forall|i: int| 0 <= i < m ==> #[trigger] p.divergent@[i] == (!p.back@[i] && forward_from(
                g@.transitions,
                p.back@,
                g@.transitions[i].from_step,
            ) >= 2)
            &&& forall|i: int| 0 <= i < m ==> (#[trigger] p.divergent@[i] <==> !p.back@[i] && exists|j: int|
                j != i && #[trigger] forward_leaving(g@.transitions, p.back@, g@.transitions[i].from_step, j))
            &&& p.route_rank@.len() == m
            &&& forall|i: int| 0 <= i < m ==> #[trigger] p.route_rank@[i] as int == if p.back@[i] {
                routes_before(g@, p.back@, lv, i, m as int) as int
            } else {
                0
            }
        },
{
    if g.steps.len() == 0 {
        return None;
    }
    let ghost ss = g@.steps;
    let n = g.steps.len();
    let m = g.transitions.len();
    let start = start_of(g);
    let (back, finish) = find_loops(g);
    let bfs = levels_from(g, &back, g.steps[start].id);
    proof {
        lemma_max_level(bfs@);
        lemma_extra_facts(ss, bfs@);
        lemma_extra_len(ss, bfs@);
    }
    let extras = extras_of(g, &bfs);
    let reached = bfs.len();
    let mut levels: Vec<(u32, usize)> = Vec::new();
    let mut q: usize = 0;
    while q < reached
        invariant
            reached == bfs@.len(),
            levels@ == bfs@.take(q as int),
            0 <= q <= reached,
        decreases reached - q,
    {
        levels.push(bfs[q]);
        q = q + 1;
        assert(levels@ =~= bfs@.take(q as int));
    }
    assert(bfs@.take(reached as int) =~= bfs@);
    let mut q: usize = 0;
    while q < extras.len()
        invariant
            levels@ == bfs@ + extras@.take(q as int),
            0 <= q <= extras@.len(),
        decreases extras@.len() - q,
    {
        levels.push(extras[q]);
        q = q + 1;
        assert(levels@ =~= bfs@ + extras@.take(q as int));
    }
    assert(extras@.take(extras@.len() as int) =~= extras@);
    let ghost lv = levels@;
    assert(lv.take(reached as int) =~= bfs@);
    assert(lv.skip(reached as int) =~= extras@);
    proof {
        assert forall|k: int| 0 <= k < lv.len() implies #[trigger] lv[k].1 < usize::MAX by {
            if k < reached {
                assert(lv[k] == bfs@[k]);
            } else {
                assert(lv[k] == extras@[k - reached]);
            }
        }
    }
    proof {
        lemma_every_step_placed(ss, bfs@, lv);
    }
    let places = places_of(g, &levels);
    let divergent = divergences(g, &back);
    let route_rank = route_ranks(g, &back, &levels);
    proof {
        assert forall|i: int| 0 <= i < m implies (#[trigger] divergent@[i] <==> !back@[i] && exists|j: int|
            j != i && #[trigger] forward_leaving(g@.transitions, back@, g@.transitions[i].from_step, j)) by {
            law_divergence_counts_forward_only(g@.transitions, back@, i);
        }
    }
    Some(LayoutPlan { start, back, finish, reached, levels, places, divergent, route_rank })
}

// ── Laws ──────────────────────────────────────────────────────────────────────

proof fn lemma_bfs_no_gap(g: GrafcetView, back: Seq<bool>, start: u32, lv: Seq<(u32, usize)>, k: int, l: int)
    requires
        shortest_levels(g, back, start, lv),
        0 <= k < lv.len(),
        0 <= l <= lv[k].1,
    ensures
        exists|j: int| 0 <= j < lv.len() && #[trigger] lv[j].1 == l,
    decreases lv[k].1,
{
    if l == lv[k].1 {
        assert(lv[k].1 == l);
    } else {
        lemma_entry_own(lv, k);
        if lv[k].0 == start {
            assert(level_of(lv, start) == 0);
        }
        let i = choose|i: int|
            0 <= i < g.transitions.len() && !back[i] && g.transitions[i].to_step == lv[k].0 && level_of(
                lv,
                g.transitions[i].from_step,
            ) == lv[k].1 - 1;
        let fr = g.transitions[i].from_step;
        lemma_entry_index(lv, fr);
        let j = entry_index(lv, fr);
        lemma_bfs_no_gap(g, back, start, lv, j, l);
    }
}

proof fn lemma_extra_values(steps: Seq<StepView>, lv: Seq<(u32, usize)>)
    requires
        max_level(lv) + steps.len() + 1 <= usize::MAX,
    ensures
        forall|q: int| 0 <= q < extra_entries(steps, lv).len() ==> #[trigger] extra_entries(steps, lv)[q].1 == max_level(lv) + 1 + q,
    decreases steps.len(),
{
    if steps.len() > 0 {
        lemma_extra_values(steps.drop_last(), lv);
        lemma_extra_len(steps.drop_last(), lv);
        let r = extra_entries(steps.drop_last(), lv);
        let e = extra_entries(steps, lv);
        assert forall|q: int| 0 <= q < e.len() implies #[trigger] e[q].1 == max_level(lv) + 1 + q by {
            if q < r.len() {
                assert(e[q] == r[q]);
            }
        }
    }
}

/// Levels have no gap: below a level in use, every level is in use. The row
/// of a level among the levels in use is therefore the level itself.
pub proof fn law_levels_without_gaps(
    g: GrafcetView,
    back: Seq<bool>,
    start: u32,
    lv: Seq<(u32, usize)>,
    reached: int,
    k: int,
    l: int,
)
    requires
        0 <= reached <= lv.len(),
        shortest_levels(g, back, start, lv.take(reached)),
        lv.skip(reached) == extra_entries(g.steps, lv.take(reached)),
        max_level(lv.take(reached)) + g.steps.len() + 1 <= usize::MAX,
        0 <= k < lv.len(),
        0 <= l <= lv[k].1,
    ensures
        exists|j: int| 0 <= j < lv.len() && #[trigger] lv[j].1 == l,
{
    let bfs = lv.take(reached);
    let ex = lv.skip(reached);
    lemma_extra_values(g.steps, bfs);
    lemma_max_level(bfs);
    if l <= max_level(bfs) {
        if reached == 0 {
            assert(level_of(bfs, start) == 0);
            lemma_entry_index(bfs, start);
        }
        let k0 = choose|k0: int| 0 <= k0 < bfs.len() && #[trigger] bfs[k0].1 == max_level(bfs);
        lemma_bfs_no_gap(g, back, start, bfs, k0, l);
        let j = choose|j: int| 0 <= j < bfs.len() && #[trigger] bfs[j].1 == l;
        assert(lv[j] == bfs[j]);
    } else {
        if k < reached {
            assert(lv[k] == bfs[k]);
        } else {
            assert(lv[k] == ex[k - reached]);
            let q = l - max_level(bfs) - 1;
            assert(ex[q].1 == l);
            assert(lv[reached + q] == ex[q]);
        }
    }
}

/// `path` is a chain of transitions that do not go back: each leaves the step
/// the previous one reaches.
pub open spec fn forward_path(g: GrafcetView, back: Seq<bool>, path: Seq<int>) -> bool {
    &&& forall|q: int| 0 <= q < path.len() ==> 0 <= #[trigger] path[q] < g.transitions.len() && !back[path[q]]
    &&& forall|q: int| 0 <= q < path.len() ==> source_index(g, #[trigger] path[q]) >= 0 && target_index(g, path[q]) >= 0
    &&& forall|q: int| 0 <= q < path.len() - 1 ==> target_index(g, #[trigger] path[q]) == source_index(g, path[q + 1])
}

/// The transitions that do not go back never close a cycle: along a chain of
/// them the finishing order decreases, so the chain never returns to the step
/// it left.
pub proof fn law_forward_transitions_acyclic(g: GrafcetView, back: Seq<bool>, finish: Seq<usize>, path: Seq<int>)
    requires
        loops_of(g, back, finish),
        path.len() > 0,
        forward_path(g, back, path),
    ensures
        finish[target_index(g, path.last())] < finish[source_index(g, path[0])],
        target_index(g, path.last()) != source_index(g, path[0]),
    decreases path.len(),
{
    assert(!back[path[0]]);
    if path.len() > 1 {
        let rest = path.drop_first();
        assert forall|q: int| 0 <= q < rest.len() implies 0 <= #[trigger] rest[q] < g.transitions.len() && !back[rest[q]] by {
            assert(rest[q] == path[q + 1]);
        }
        assert forall|q: int| 0 <= q < rest.len() implies source_index(g, #[trigger] rest[q]) >= 0 && target_index(g, rest[q]) >= 0 by {
            assert(rest[q] == path[q + 1]);
        }
        assert forall|q: int| 0 <= q < rest.len() - 1 implies target_index(g, #[trigger] rest[q]) == source_index(g, rest[q + 1]) by {
            assert(rest[q] == path[q + 1]);
            assert(rest[q + 1] == path[q + 2]);
        }
        law_forward_transitions_acyclic(g, back, finish, rest);
        assert(rest.last() == path.last());
        assert(target_index(g, path[0]) == source_index(g, path[1]));
    }
}

/// Return route `a` comes before route `b`: a lower key, or the same key and
/// an earlier place.
pub open spec fn route_before(g: GrafcetView, lv: Seq<(u32, usize)>, a: int, b: int) -> bool {
    return_key(g, lv, a) < return_key(g, lv, b) || (return_key(g, lv, a) == return_key(g, lv, b) && a < b)
}

proof fn lemma_routes_before_more(g: GrafcetView, back: Seq<bool>, lv: Seq<(u32, usize)>, i: int, j: int, upto: int)
    requires
        route_before(g, lv, i, j),
        0 <= i,
        0 <= upto,
    ensures
        routes_before(g, back, lv, j, upto) >= routes_before(g, back, lv, i, upto) + if i < upto && back[i] {
            1int
        } else {
            0int
        },
    decreases upto,
{
    if upto > 0 {
        let k = upto - 1;
        lemma_routes_before_more(g, back, lv, i, j, k);
        assert(routes_before(g, back, lv, j, upto) == routes_before(g, back, lv, j, k) + if back[k] && route_before(g, lv, k, j) {
            1nat
        } else {
            0nat
        });
        assert(routes_before(g, back, lv, i, upto) == routes_before(g, back, lv, i, k) + if back[k] && route_before(g, lv, k, i) {
            1nat
        } else {
            0nat
        });
        if k == i {
            assert(!route_before(g, lv, i, i));
        } else if route_before(g, lv, k, i) {
            assert(route_before(g, lv, k, j));
        }
    }
}

/// Return routes get distinct ranks, hence distinct abscissas: two different
/// transitions that go back never share a rank.
pub proof fn law_route_ranks_distinct(g: GrafcetView, back: Seq<bool>, lv: Seq<(u32, usize)>, i: int, j: int)
    requires
        back.len() == g.transitions.len(),
        0 <= i < g.transitions.len(),
        0 <= j < g.transitions.len(),
        i != j,
        back[i],
        back[j],
    ensures
        routes_before(g, back, lv, i, g.transitions.len() as int) != routes_before(
            g,
            back,
            lv,
            j,
            g.transitions.len() as int,
        ),
{
    let m = g.transitions.len() as int;
    if route_before(g, lv, i, j) {
        lemma_routes_before_more(g, back, lv, i, j, m);
    } else {
        assert(route_before(g, lv, j, i));
        lemma_routes_before_more(g, back, lv, j, i, m);
    }
}

} // verus!
