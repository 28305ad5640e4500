//! Extraction of the simple closed circuits of a GEMMA.
use vstd::prelude::*;
use crate::gemma::{Gemma, GemmaTransitionView, GemmaView};
use crate::generate::distinct_state_names;
use crate::text::{same_text, str_eq};

verus! {

/// The names of the states, in their order.
pub open spec fn state_names(g: GemmaView) -> Seq<Seq<char>> {
    Seq::new(g.states.len(), |i: int| g.states[i].id)
}

/// Index of the last state named `s`, or -1 (a later state of the same name
/// shadows an earlier one).
pub open spec fn last_name_index(ids: Seq<Seq<char>>, s: Seq<char>) -> int
    decreases ids.len(),
{
    if ids.len() == 0 {
        -1
    } else if ids.last() == s {
        ids.len() - 1
    } else {
        last_name_index(ids.drop_last(), s)
    }
}

/// Some transition goes from `a` to `b`.
pub open spec fn has_edge(ts: Seq<GemmaTransitionView>, a: Seq<char>, b: Seq<char>) -> bool {
    exists|k: int| 0 <= k < ts.len() && #[trigger] ts[k].from == a && ts[k].to == b
}

/// `p` is a path that starts at state `si`, visits pairwise distinct names,
/// follows transitions, and only visits states whose (last) index is greater
/// than `si`.
pub open spec fn is_open_path(g: GemmaView, si: int, p: Seq<Seq<char>>) -> bool {
    &&& 0 <= si < g.states.len()
    &&& p.len() >= 1
    &&& p[0] == g.states[si].id
    &&& forall|k: int| 1 <= k < p.len() ==> last_name_index(state_names(g), #[trigger] p[k]) > si
    &&& forall|a: int, b: int| 0 <= a < b < p.len() ==> #[trigger] p[a] != #[trigger] p[b]
    &&& forall|k: int| 0 <= k < p.len() - 1 ==> has_edge(g.transitions, #[trigger] p[k], p[k + 1])
}

/// `c` is a closed circuit found from state `si`: an open path of at least two
/// states whose last state has a transition back to the first.
pub open spec fn is_circuit_from(g: GemmaView, si: int, c: Seq<Seq<char>>) -> bool {
    &&& is_open_path(g, si, c)
    &&& c.len() >= 2
    &&& has_edge(g.transitions, c.last(), c[0])
}

/// `c` is a simple closed circuit of the GEMMA, written from its state of
/// smallest index (the return to the first state is implicit).
pub open spec fn is_closed_circuit(g: GemmaView, c: Seq<Seq<char>>) -> bool {
    exists|si: int| is_circuit_from(g, si, c)
}

/// The state that follows the first `n` states of circuit `c`.
pub open spec fn successor_in(c: Seq<Seq<char>>, n: int) -> Seq<char> {
    if c.len() == n {
        c[0]
    } else {
        c[n]
    }
}

/// The circuits from `si` that extend `p` through one of the first `i`
/// transitions leaving the end of `p`.
pub open spec fn covered(g: GemmaView, si: int, p: Seq<Seq<char>>, i: int, c: Seq<Seq<char>>) -> bool {
    &&& is_circuit_from(g, si, c)
    &&& p.is_prefix_of(c)
    &&& exists|k: int|
        0 <= k < i && #[trigger] g.transitions[k].from == p.last() && g.transitions[k].to
            == successor_in(c, p.len() as int)
}

/// Transition `k` is the first one from its source to its destination: an
/// earlier transition with the same two ends is followed in its place.
pub open spec fn first_edge(ts: Seq<GemmaTransitionView>, k: int) -> bool {
    forall|j: int| 0 <= j < k ==> !(#[trigger] ts[j].from == ts[k].from && ts[j].to == ts[k].to)
}

/// The circuits that the search from state `si` finds, in the order found,
/// by following from path `p` the transitions from place `k` on: a
/// transition from the end of `p` back to the first state closes `p` (when
/// it has at least two states); one to a state of greater index not yet on
/// `p` extends it, and the search goes on from there before the next
/// transition. A transition with the same ends as an earlier one is skipped.
pub open spec fn found_from(g: GemmaView, si: int, p: Seq<Seq<char>>, k: int) -> Seq<Seq<Seq<char>>>
    decreases g.states.len() - p.len(), g.transitions.len() - k,
{
    if k < 0 || k >= g.transitions.len() || si < 0 || si >= g.states.len() || p.len() == 0 {
        Seq::empty()
    } else {
        let t = g.transitions[k];
        let rest = found_from(g, si, p, k + 1);
        if t.from != p.last() || !first_edge(g.transitions, k) {
            rest
        } else if t.to == g.states[si].id {
            if p.len() >= 2 {
                seq![p] + rest
            } else {
                rest
            }
        } else if last_name_index(state_names(g), t.to) > si && !p.contains(t.to) && p.len()
            < g.states.len() {
            found_from(g, si, p.push(t.to), 0) + rest
        } else {
            rest
        }
    }
}

/// The circuits found from each of the first `s` states, in turn.
pub open spec fn found_upto(g: GemmaView, s: int) -> Seq<Seq<Seq<char>>>
    decreases s,
{
    if s <= 0 {
        Seq::empty()
    } else {
        found_upto(g, s - 1) + found_from(g, s - 1, seq![g.states[s - 1].id], 0)
    }
}

pub(crate) proof fn lemma_last_name_index(ids: Seq<Seq<char>>, s: Seq<char>)
    ensures
        -1 <= last_name_index(ids, s) < ids.len(),
        last_name_index(ids, s) >= 0 ==> ids[last_name_index(ids, s)] == s,
        last_name_index(ids, s) == -1 ==> forall|j: int| 0 <= j < ids.len() ==> ids[j] != s,
    decreases ids.len(),
{
    if ids.len() > 0 {
        lemma_last_name_index(ids.drop_last(), s);
        if last_name_index(ids, s) == -1 {
            assert forall|j: int| 0 <= j < ids.len() implies ids[j] != s by {
                if j < ids.len() - 1 {
                    assert(ids.drop_last()[j] == ids[j]);
                }
            }
        }
    }
}

/// Distinct integers of `[lo, hi)` are at most `hi - lo` many.
pub(crate) proof fn lemma_distinct_in_range(q: Seq<int>, lo: int, hi: int)
    requires
        forall|a: int, b: int| 0 <= a < b < q.len() ==> q[a] != q[b],
        forall|k: int| 0 <= k < q.len() ==> lo <= #[trigger] q[k] < hi,
    ensures
        q.len() <= if hi >= lo {
            hi - lo
        } else {
            0
        },
    decreases q.len(),
{
    if q.len() > 0 {
        assert(lo <= q[0] < hi);
        if exists|k: int| 0 <= k < q.len() && q[k] == hi - 1 {
            let k = choose|k: int| 0 <= k < q.len() && q[k] == hi - 1;
            let q2 = q.remove(k);
            assert forall|a: int, b: int| 0 <= a < b < q2.len() implies q2[a] != q2[b] by {
                let a2 = if a < k { a } else { a + 1 };
                let b2 = if b < k { b } else { b + 1 };
                assert(q2[a] == q[a2]);
                assert(q2[b] == q[b2]);
            }
            assert forall|j: int| 0 <= j < q2.len() implies lo <= #[trigger] q2[j] < hi - 1 by {
                let j2 = if j < k { j } else { j + 1 };
                assert(q2[j] == q[j2]);
                assert(j2 != k);
            }
            lemma_distinct_in_range(q2, lo, hi - 1);
        } else {
            let q2 = q.drop_last();
            assert forall|j: int| 0 <= j < q2.len() implies lo <= #[trigger] q2[j] < hi - 1 by {
                assert(q2[j] == q[j]);
            }
            assert forall|a: int, b: int| 0 <= a < b < q2.len() implies q2[a] != q2[b] by {
                assert(q2[a] == q[a]);
                assert(q2[b] == q[b]);
            }
            lemma_distinct_in_range(q2, lo, hi - 1);
            assert(q.last() == q[q.len() - 1]);
            assert(q[q.len() - 1] != hi - 1);
        }
    }
}

/// An open path from `si` has at most `states - si` states.
proof fn lemma_open_path_len(g: GemmaView, si: int, p: Seq<Seq<char>>)
    requires
        is_open_path(g, si, p),
    ensures
        p.len() <= g.states.len() - si,
{
    let ids = state_names(g);
    let q = Seq::new((p.len() - 1) as nat, |k: int| last_name_index(ids, p[k + 1]));
    assert forall|k: int| 0 <= k < q.len() implies si + 1 <= #[trigger] q[k] < g.states.len() by {
        lemma_last_name_index(ids, p[k + 1]);
        assert(last_name_index(ids, p[k + 1]) > si);
    }
    assert forall|a: int, b: int| 0 <= a < b < q.len() implies q[a] != q[b] by {
        lemma_last_name_index(ids, p[a + 1]);
        lemma_last_name_index(ids, p[b + 1]);
        assert(last_name_index(ids, p[a + 1]) > si);
        assert(last_name_index(ids, p[b + 1]) > si);
        assert(p[a + 1] != p[b + 1]);
    }
    lemma_distinct_in_range(q, si + 1, g.states.len() as int);
}

/// Some first transition of its ends, from place `k` on, leads from the end
/// of `p` to the state that follows `p` in circuit `x`.
pub open spec fn led_from(g: GemmaView, p: Seq<Seq<char>>, k: int, x: Seq<Seq<char>>) -> bool {
    exists|k2: int|
        k <= k2 < g.transitions.len() && first_edge(g.transitions, k2) && #[trigger] g.transitions[k2].from
            == p.last() && g.transitions[k2].to == successor_in(x, p.len() as int)
}

/// Each circuit found from path `p` extends it and is led to by its own
/// first transition; hence no circuit is found twice.
proof fn lemma_found_from_unique(g: GemmaView, si: int, p: Seq<Seq<char>>, k: int)
    requires
        0 <= si < g.states.len(),
        p.len() >= 1,
        p[0] == g.states[si].id,
        k >= 0,
    ensures
        forall|j: int|
            0 <= j < found_from(g, si, p, k).len() ==> p.is_prefix_of(#[trigger] found_from(g, si, p, k)[j])
                && led_from(g, p, k, found_from(g, si, p, k)[j]),
        found_from(g, si, p, k).no_duplicates(),
    decreases g.states.len() - p.len(), g.transitions.len() - k,
{
    let f = found_from(g, si, p, k);
    if k >= g.transitions.len() {
        return;
    }
    let t = g.transitions[k];
    let rest = found_from(g, si, p, k + 1);
    lemma_found_from_unique(g, si, p, k + 1);
    assert forall|j: int| 0 <= j < rest.len() implies #[trigger] led_from(g, p, k, rest[j]) by {
        assert(led_from(g, p, k + 1, rest[j]));
        let k2 = choose|k2: int|
            k + 1 <= k2 < g.transitions.len() && first_edge(g.transitions, k2) && #[trigger] g.transitions[k2].from
                == p.last() && g.transitions[k2].to == successor_in(rest[j], p.len() as int);
        assert(g.transitions[k2].from == p.last());
    }
    // A circuit of `rest` is not led to by transition `k` when `k` is a first
    // transition from the end of `p`.
    assert forall|j: int|
        0 <= j < rest.len() && t.from == p.last() && first_edge(g.transitions, k) implies successor_in(
        #[trigger] rest[j],
        p.len() as int,
    ) != t.to by {
        let k2 = choose|k2: int|
            k + 1 <= k2 < g.transitions.len() && first_edge(g.transitions, k2) && #[trigger] g.transitions[k2].from
                == p.last() && g.transitions[k2].to == successor_in(rest[j], p.len() as int);
        if successor_in(rest[j], p.len() as int) == t.to {
            assert(g.transitions[k].from == g.transitions[k2].from && g.transitions[k].to == g.transitions[k2].to);
        }
    }
    if t.from != p.last() || !first_edge(g.transitions, k) {
        assert(f == rest);
    } else if t.to == g.states[si].id {
        if p.len() >= 2 {
            let a = seq![p];
            assert(f == a + rest);
            assert(p.is_prefix_of(p));
            assert(g.transitions[k].to == successor_in(p, p.len() as int));
            assert(led_from(g, p, k, p));
            assert forall|j: int| 0 <= j < f.len() implies p.is_prefix_of(#[trigger] f[j]) && led_from(g, p, k, f[j]) by {
                if j > 0 {
                    assert(f[j] == rest[j - 1]);
                }
            }
            assert forall|i: int, j: int| 0 <= i < f.len() && 0 <= j < f.len() && i != j implies f[i] != f[j] by {
                if i > 0 && j > 0 {
                    assert(f[i] == rest[i - 1] && f[j] == rest[j - 1]);
                } else if i == 0 {
                    assert(f[j] == rest[j - 1]);
                    assert(successor_in(rest[j - 1], p.len() as int) != t.to);
                } else {
                    assert(f[i] == rest[i - 1]);
                    assert(successor_in(rest[i - 1], p.len() as int) != t.to);
                }
            }
        } else {
            assert(f == rest);
        }
    } else if last_name_index(state_names(g), t.to) > si && !p.contains(t.to) && p.len() < g.states.len() {
        let p2 = p.push(t.to);
        let a = found_from(g, si, p2, 0);
        lemma_found_from_unique(g, si, p2, 0);
        assert(f == a + rest);
        assert forall|j: int| 0 <= j < a.len() implies p.is_prefix_of(#[trigger] a[j]) && a[j].len() > p.len()
            && a[j][p.len() as int] == t.to by {
            assert(p2.is_prefix_of(a[j]));
            assert forall|l: int| 0 <= l < p.len() implies a[j][l] == p[l] by {
                assert(p2[l] == p[l]);
            }
            assert(a[j][p.len() as int] == p2[p.len() as int]);
        }
        assert forall|j: int| 0 <= j < f.len() implies p.is_prefix_of(#[trigger] f[j]) && led_from(g, p, k, f[j]) by {
            if j < a.len() {
                assert(f[j] == a[j]);
                assert(a[j][p.len() as int] == t.to);
                assert(g.transitions[k].to == successor_in(a[j], p.len() as int));
            } else {
                assert(f[j] == rest[j - a.len()]);
            }
        }
        assert forall|i: int, j: int| 0 <= i < f.len() && 0 <= j < f.len() && i != j implies f[i] != f[j] by {
            if i < a.len() && j < a.len() {
                assert(f[i] == a[i] && f[j] == a[j]);
            } else if i >= a.len() && j >= a.len() {
                assert(f[i] == rest[i - a.len()] && f[j] == rest[j - a.len()]);
            } else if i < a.len() {
                assert(f[i] == a[i] && f[j] == rest[j - a.len()]);
                assert(successor_in(a[i], p.len() as int) == t.to);
                assert(successor_in(rest[j - a.len()], p.len() as int) != t.to);
            } else {
                assert(f[j] == a[j] && f[i] == rest[i - a.len()]);
                assert(successor_in(a[j], p.len() as int) == t.to);
                assert(successor_in(rest[i - a.len()], p.len() as int) != t.to);
            }
        }
    } else {
        assert(f == rest);
    }
}

/// With distinct state names, the search lists no circuit twice, and each
/// circuit starts at one of the first `s` states.
proof fn lemma_found_upto_unique(g: GemmaView, s: int)
    requires
        0 <= s <= g.states.len(),
        forall|i: int, j: int| 0 <= i < j < g.states.len() ==> #[trigger] g.states[i].id != #[trigger] g.states[j].id,
    ensures
        found_upto(g, s).no_duplicates(),
        forall|j: int|
            0 <= j < found_upto(g, s).len() ==> exists|si: int|
                0 <= si < s && (#[trigger] found_upto(g, s)[j]).len() >= 1 && found_upto(g, s)[j][0]
                    == #[trigger] g.states[si].id,
    decreases s,
{
    if s > 0 {
        lemma_found_upto_unique(g, s - 1);
        let p = seq![g.states[s - 1].id];
        let a = found_upto(g, s - 1);
        let b = found_from(g, s - 1, p, 0);
        lemma_found_from_unique(g, s - 1, p, 0);
        let f = found_upto(g, s);
        assert(f == a + b);
        assert forall|j: int| 0 <= j < b.len() implies (#[trigger] b[j]).len() >= 1 && b[j][0] == g.states[s - 1].id by {
            assert(p.is_prefix_of(b[j]));
        }
        assert forall|j: int| 0 <= j < f.len() implies exists|si: int|
            0 <= si < s && (#[trigger] f[j]).len() >= 1 && f[j][0] == #[trigger] g.states[si].id by {
            if j < a.len() {
                assert(f[j] == a[j]);
                let si = choose|si: int| 0 <= si < s - 1 && a[j].len() >= 1 && a[j][0] == #[trigger] g.states[si].id;
                assert(g.states[si].id == f[j][0]);
            } else {
                assert(f[j] == b[j - a.len()]);
                assert(g.states[s - 1].id == f[j][0]);
            }
        }
        assert forall|i: int, j: int| 0 <= i < f.len() && 0 <= j < f.len() && i != j implies f[i] != f[j] by {
            if i < a.len() && j < a.len() {
                assert(f[i] == a[i] && f[j] == a[j]);
            } else if i >= a.len() && j >= a.len() {
                assert(f[i] == b[i - a.len()] && f[j] == b[j - a.len()]);
            } else {
                let (x, y) = if i < a.len() { (i, j) } else { (j, i) };
                assert(f[x] == a[x] && f[y] == b[y - a.len()]);
                let si = choose|si: int| 0 <= si < s - 1 && a[x].len() >= 1 && a[x][0] == #[trigger] g.states[si].id;
                assert(b[y - a.len()][0] == g.states[s - 1].id);
                assert(g.states[si].id != g.states[s - 1].id);
            }
        }
    }
}

/// Index of the last state named `s`.
fn last_index_of(gemma: &Gemma, s: &str) -> (r: Option<usize>)
    ensures
        match r {
            Some(i) => i as int == last_name_index(state_names(gemma@), s@),
            None => last_name_index(state_names(gemma@), s@) == -1,
        },
{
    let ghost ids = state_names(gemma@);
    let n = gemma.states.len();
    let mut r: Option<usize> = None;
    let mut i: usize = 0;
    while i < n
        invariant
            n == gemma.states@.len(),
            ids.len() == n,
            ids == state_names(gemma@),
            0 <= i <= n,
            match r {
                Some(j) => j as int == last_name_index(ids.take(i as int), s@),
                None => last_name_index(ids.take(i as int), s@) == -1,
            },
        decreases n - i,
    {
        assert(ids.take(i + 1).drop_last() =~= ids.take(i as int));
        assert(ids.take(i + 1).last() == gemma@.states[i as int].id);
        if str_eq(gemma.states[i].id.as_str(), s) {
            r = Some(i);
        }
        i = i + 1;
    }
    assert(ids.take(n as int) =~= ids);
    r
}

/// Whether transition `i` is the first one with its two ends.
fn first_of_its_ends(gemma: &Gemma, i: usize) -> (r: bool)
    requires
        i < gemma@.transitions.len(),
    ensures
        r == first_edge(gemma@.transitions, i as int),
{
    let ghost ts = gemma@.transitions;
    let t = &gemma.transitions[i];
    assert(ts[i as int] == t@);
    let mut j: usize = 0;
    while j < i
        invariant
            ts == gemma@.transitions,
            i < ts.len(),
            ts[i as int] == t@,
            0 <= j <= i,
            forall|l: int| 0 <= l < j ==> !(#[trigger] ts[l].from == ts[i as int].from && ts[l].to == ts[i as int].to),
        decreases i - j,
    {
        let u = &gemma.transitions[j];
        assert(ts[j as int] == u@);
        if same_text(&u.from, &t.from) && same_text(&u.to, &t.to) {
            assert(ts[j as int].from == ts[i as int].from && ts[j as int].to == ts[i as int].to);
            return false;
        }
        j = j + 1;
    }
    true
}

/// Whether `s` is one of the names of `path`.
fn path_contains(path: &Vec<String>, s: &String) -> (r: bool)
    ensures
        r == path.deep_view().contains(s@),
{
    let n = path.len();
    let mut i: usize = 0;
    while i < n
        invariant
            n == path@.len(),
            0 <= i <= n,
            forall|j: int| 0 <= j < i ==> path.deep_view()[j] != s@,
        decreases n - i,
    {
        if same_text(&path[i], s) {
            assert(path.deep_view()[i as int] == s@);
            return true;
        }
        i = i + 1;
    }
    false
}

/// A copy of a path of names.
fn copy_names(p: &Vec<String>) -> (r: Vec<String>)
    ensures
        r.deep_view() == p.deep_view(),
{
    let mut r: Vec<String> = Vec::new();
    let n = p.len();
    let mut i: usize = 0;
    while i < n
        invariant
            n == p@.len(),
            0 <= i <= n,
            r.deep_view() =~= p.deep_view().take(i as int),
        decreases n - i,
    {
        let ghost before = r.deep_view();
        let e = p[i].clone();
        assert(e@ == p.deep_view()[i as int]);
        r.push(e);
        assert(r.deep_view() =~= before.push(e@));
        i = i + 1;
        assert(r.deep_view() =~= p.deep_view().take(i as int));
    }
    assert(p.deep_view().take(n as int) =~= p.deep_view());
    r
}

proof fn lemma_contains_concat<A>(a: Seq<A>, b: Seq<A>, x: A)
    ensures
        (a + b).contains(x) <==> a.contains(x) || b.contains(x),
{
    if (a + b).contains(x) {
        let j = choose|j: int| 0 <= j < (a + b).len() && (a + b)[j] == x;
        if j < a.len() {
            assert(a[j] == x);
        } else {
            assert(b[j - a.len()] == x);
        }
    }
    if a.contains(x) {
        let j = choose|j: int| 0 <= j < a.len() && a[j] == x;
        assert((a + b)[j] == x);
    }
    if b.contains(x) {
        let j = choose|j: int| 0 <= j < b.len() && b[j] == x;
        assert((a + b)[a.len() + j] == x);
    }
}

/// A transition that cannot continue `p` adds no circuit.
proof fn lemma_cover_unchanged(g: GemmaView, si: int, p: Seq<Seq<char>>, i: int)
    requires
        is_open_path(g, si, p),
        0 <= i < g.transitions.len(),
        g.transitions[i].from != p.last() || !first_edge(g.transitions, i) || (g.transitions[i].to == p[0] && p.len() < 2) || (
        g.transitions[i].to != p[0] && (last_name_index(state_names(g), g.transitions[i].to) <= si
            || p.contains(g.transitions[i].to))),
    ensures
        forall|c: Seq<Seq<char>>| covered(g, si, p, i + 1, c) <==> covered(g, si, p, i, c),
{
    assert forall|c: Seq<Seq<char>>| covered(g, si, p, i + 1, c) implies covered(g, si, p, i, c) by {
        let k = choose|k: int|
            0 <= k < i + 1 && #[trigger] g.transitions[k].from == p.last() && g.transitions[k].to
                == successor_in(c, p.len() as int);
        if k == i && !first_edge(g.transitions, i) {
            let j = choose|j: int| 0 <= j < i && #[trigger] g.transitions[j].from == g.transitions[i].from && g.transitions[j].to == g.transitions[i].to;
            assert(g.transitions[j].from == p.last() && g.transitions[j].to == successor_in(c, p.len() as int));
        } else if k == i {
            if c.len() == p.len() {
                assert(c.len() >= 2);
                assert(c =~= p);
            } else {
                assert(c[p.len() as int] == g.transitions[i].to);
                assert(c[0] == p[0]);
                if g.transitions[i].to == p[0] {
                    assert(c[p.len() as int] == c[0]);
                } else if last_name_index(state_names(g), g.transitions[i].to) <= si {
                    assert(last_name_index(state_names(g), c[p.len() as int]) > si);
                } else {
                    let j = choose|j: int| 0 <= j < p.len() && p[j] == g.transitions[i].to;
                    assert(c[j] == p[j]);
                    assert(c[j] != c[p.len() as int]);
                }
            }
        }
    }
}

/// A transition from the end of `p` back to its start closes `p`.
proof fn lemma_cover_close(g: GemmaView, si: int, p: Seq<Seq<char>>, i: int)
    requires
        is_open_path(g, si, p),
        0 <= i < g.transitions.len(),
        g.transitions[i].from == p.last(),
        g.transitions[i].to == p[0],
        p.len() >= 2,
    ensures
        forall|c: Seq<Seq<char>>| covered(g, si, p, i + 1, c) <==> (covered(g, si, p, i, c) || c == p),
{
    assert(has_edge(g.transitions, p.last(), p[0]));
    assert(is_circuit_from(g, si, p));
    assert forall|c: Seq<Seq<char>>| covered(g, si, p, i + 1, c) <==> (covered(g, si, p, i, c) || c == p) by {
        if c == p {
            assert(p.is_prefix_of(p));
            assert(g.transitions[i].from == p.last() && g.transitions[i].to == successor_in(c, p.len() as int));
        }
        if covered(g, si, p, i + 1, c) && !covered(g, si, p, i, c) {
            let k = choose|k: int|
                0 <= k < i + 1 && #[trigger] g.transitions[k].from == p.last() && g.transitions[k].to
                    == successor_in(c, p.len() as int);
            assert(k == i);
            if c.len() > p.len() {
                assert(c[p.len() as int] == c[0]);
            }
            assert(c =~= p);
        }
    }
}

/// A transition from the end of `p` to a fresh state extends `p`.
proof fn lemma_cover_extend(g: GemmaView, si: int, p: Seq<Seq<char>>, i: int)
    requires
        is_open_path(g, si, p),
        0 <= i < g.transitions.len(),
        g.transitions[i].from == p.last(),
        g.transitions[i].to != p[0],
    ensures
        forall|c: Seq<Seq<char>>| covered(g, si, p, i + 1, c) <==> (covered(g, si, p, i, c) || (
        is_circuit_from(g, si, c) && p.push(g.transitions[i].to).is_prefix_of(c))),
{
    let nx = g.transitions[i].to;
    let p2 = p.push(nx);
    assert forall|c: Seq<Seq<char>>| covered(g, si, p, i + 1, c) <==> (covered(g, si, p, i, c) || (
    is_circuit_from(g, si, c) && p2.is_prefix_of(c))) by {
        if is_circuit_from(g, si, c) && p2.is_prefix_of(c) {
            assert(c[p.len() as int] == p2[p.len() as int]);
            assert(p.is_prefix_of(c));
            assert(g.transitions[i].from == p.last() && g.transitions[i].to == successor_in(c, p.len() as int));
        }
        if covered(g, si, p, i + 1, c) && !covered(g, si, p, i, c) {
            let k = choose|k: int|
                0 <= k < i + 1 && #[trigger] g.transitions[k].from == p.last() && g.transitions[k].to
                    == successor_in(c, p.len() as int);
            assert(k == i);
            if c.len() == p.len() {
                assert(c[0] == p[0]);
            }
            assert(c[p.len() as int] == nx);
            assert(p2.is_prefix_of(c));
        }
    }
}

/// Once every transition was looked at, the covered circuits are all the
/// circuits that extend `p`.
proof fn lemma_cover_all(g: GemmaView, si: int, p: Seq<Seq<char>>)
    requires
        is_open_path(g, si, p),
    ensures
        forall|c: Seq<Seq<char>>| covered(g, si, p, g.transitions.len() as int, c) <==> (
        is_circuit_from(g, si, c) && p.is_prefix_of(c)),
{
    assert forall|c: Seq<Seq<char>>| is_circuit_from(g, si, c) && p.is_prefix_of(c) implies covered(
        g,
        si,
        p,
        g.transitions.len() as int,
        c,
    ) by {
        let nx = successor_in(c, p.len() as int);
        let last = p.last();
        assert(c[p.len() - 1] == last);
        if c.len() == p.len() {
            assert(c.last() == last);
            assert(has_edge(g.transitions, c.last(), c[0]));
        } else {
            assert(has_edge(g.transitions, c[p.len() - 1], c[p.len() as int]));
        }
        assert(has_edge(g.transitions, last, nx));
        let k = choose|k: int|
            0 <= k < g.transitions.len() && #[trigger] g.transitions[k].from == last
                && g.transitions[k].to == nx;
    }
}

/// `p` extended by a state of larger index that it does not visit yet, through
/// a transition, is still an open path.
proof fn lemma_extend_open_path(g: GemmaView, si: int, p: Seq<Seq<char>>, i: int)
    requires
        is_open_path(g, si, p),
        0 <= i < g.transitions.len(),
        g.transitions[i].from == p.last(),
        last_name_index(state_names(g), g.transitions[i].to) > si,
        !p.contains(g.transitions[i].to),
    ensures
        is_open_path(g, si, p.push(g.transitions[i].to)),
        p.len() + 1 <= g.states.len() - si,
{
    let nx = g.transitions[i].to;
    let p2 = p.push(nx);
    assert(has_edge(g.transitions, p.last(), nx));
    assert forall|a: int, b: int| 0 <= a < b < p2.len() implies #[trigger] p2[a] != #[trigger] p2[b] by {
        assert(p[a] == p2[a]);
        if b == p2.len() - 1 {
            if p2[a] == nx {
                assert(p.contains(nx));
            }
        } else {
            assert(p[b] == p2[b]);
        }
    }
    assert forall|k: int| 1 <= k < p2.len() implies last_name_index(state_names(g), #[trigger] p2[k]) > si by {
        if k < p.len() {
            assert(p2[k] == p[k]);
        }
    }
    assert forall|k: int| 0 <= k < p2.len() - 1 implies has_edge(g.transitions, #[trigger] p2[k], p2[k + 1]) by {
        if k < p.len() - 1 {
            assert(p2[k] == p[k]);
            assert(p2[k + 1] == p[k + 1]);
        }
    }
    lemma_open_path_len(g, si, p2);
}

/// Depth-first search of the circuits from state `start_idx` that extend
/// `path` (whose last name is `current`). Appends exactly those circuits to
/// `circuits` and leaves `path` as it was.
pub fn circuits_dfs(
    gemma: &Gemma,
    current: &str,
    start: &str,
    start_idx: usize,
    path: &mut Vec<String>,
    circuits: &mut Vec<Vec<String>>,
)
    requires
        is_open_path(gemma@, start_idx as int, old(path).deep_view()),
        current@ == old(path).deep_view().last(),
        start@ == gemma@.states[start_idx as int].id,
    ensures
        final(path).deep_view() == old(path).deep_view(),
        final(circuits).deep_view() == old(circuits).deep_view() + found_from(
            gemma@,
            start_idx as int,
            old(path).deep_view(),
            0,
        ),
        exists|x: Seq<Seq<Seq<char>>>|
            final(circuits).deep_view() == old(circuits).deep_view() + x && forall|c: Seq<Seq<char>>|
                #[trigger] x.contains(c) <==> (is_circuit_from(gemma@, start_idx as int, c)
                    && old(path).deep_view().is_prefix_of(c)),
    decreases gemma.states@.len() - old(path)@.len(),
{
    let ghost g = gemma@;
    let ghost si = start_idx as int;
    let ghost p = path.deep_view();
    let ghost c0 = circuits.deep_view();
    let ghost mut acc: Seq<Seq<Seq<char>>> = Seq::empty();
    let n = gemma.transitions.len();
    let mut i: usize = 0;
    assert(acc + found_from(g, si, p, 0) =~= found_from(g, si, p, 0));
    while i < n
        invariant
            g == gemma@,
            n == gemma.transitions@.len(),
            0 <= i <= n,
            si == start_idx as int,
            is_open_path(g, si, p),
            current@ == p.last(),
            start@ == g.states[si].id,
            path.deep_view() == p,
            p.len() == old(path)@.len(),
            circuits.deep_view() == c0 + acc,
            acc + found_from(g, si, p, i as int) == found_from(g, si, p, 0),
            forall|c: Seq<Seq<char>>| #[trigger] acc.contains(c) <==> covered(g, si, p, i as int, c),
        decreases n - i,
    {
        let t = &gemma.transitions[i];
        assert(g.transitions[i as int] == t@);
        let ghost old_acc = acc;
        let ghost mut added: Seq<Seq<Seq<char>>> = Seq::empty();
        let from_here = str_eq(t.from.as_str(), current) && first_of_its_ends(gemma, i);
        let next = &t.to;
        let nxs = next.as_str();
        let back_to_start = str_eq(nxs, start);
        if from_here && back_to_start && path.len() >= 2 {
            proof {
                lemma_cover_close(g, si, p, i as int);
            }
            let copy = copy_names(path);
            let ghost before = circuits.deep_view();
            circuits.push(copy);
            assert(circuits.deep_view() =~= before.push(p));
            proof {
                added = seq![p];
                assert(forall|c: Seq<Seq<char>>| added.contains(c) <==> c == p) by {
                    assert(added[0] == p);
                }
            }
        } else if from_here && !back_to_start {
            let idx = last_index_of(gemma, nxs);
            let fresh = match idx {
                Some(ni) => ni > start_idx && !path_contains(path, next),
                None => false,
            };
            if fresh {
                proof {
                    lemma_extend_open_path(g, si, p, i as int);
                    lemma_cover_extend(g, si, p, i as int);
                }
                path.push(next.clone());
                let ghost p2 = path.deep_view();
                assert(p2 =~= p.push(next@));
                assert(path@.len() == old(path)@.len() + 1);
                let ghost before = circuits.deep_view();
                circuits_dfs(gemma, nxs, start, start_idx, path, circuits);
                let ghost x2 = choose|x: Seq<Seq<Seq<char>>>|
                    circuits.deep_view() == before + x && forall|c: Seq<Seq<char>>|
                        #[trigger] x.contains(c) <==> (is_circuit_from(g, si, c) && p2.is_prefix_of(c));
                assert(x2 =~= found_from(g, si, p2, 0)) by {
                    assert(circuits.deep_view() == before + found_from(g, si, p2, 0));
                    assert(x2 =~= circuits.deep_view().subrange(before.len() as int, circuits.deep_view().len() as int));
                    assert(found_from(g, si, p2, 0) =~= circuits.deep_view().subrange(before.len() as int, circuits.deep_view().len() as int));
                }
                let ghost pre_pop = path.deep_view();
                let _ = path.pop();
                assert(path.deep_view() =~= pre_pop.drop_last());
                assert(path.deep_view() =~= p);
                proof {
                    added = x2;
                }
            } else {
                proof {
                    lemma_cover_unchanged(g, si, p, i as int);
                }
            }
        } else {
            proof {
                lemma_cover_unchanged(g, si, p, i as int);
            }
        }
        proof {
            lemma_open_path_len(g, si, p);
            assert(found_from(g, si, p, i as int) == added + found_from(g, si, p, i + 1));
            assert(old_acc + found_from(g, si, p, i as int) == (old_acc + added) + found_from(g, si, p, i + 1));
            acc = old_acc + added;
            assert(circuits.deep_view() =~= c0 + acc);
            assert forall|c: Seq<Seq<char>>| #[trigger] acc.contains(c) <==> covered(g, si, p, i + 1, c) by {
                lemma_contains_concat(old_acc, added, c);
            }
        }
        i = i + 1;
    }
    proof {
        lemma_cover_all(g, si, p);
        assert(found_from(g, si, p, n as int) =~= Seq::<Seq<Seq<char>>>::empty());
        assert(acc =~= acc + found_from(g, si, p, n as int));
    }
}

/// All the simple closed circuits of the GEMMA, found by depth-first search.
/// Each circuit is the ordered list of its state names; the return to the
/// first state is implicit. Each circuit starts at its state of smallest
/// index, so that no circuit is found again as one of its rotations.
pub fn extract_closed_circuits(gemma: &Gemma) -> (r: Vec<Vec<String>>)
    ensures
        r.deep_view() == found_upto(gemma@, gemma@.states.len() as int),
        distinct_state_names(gemma@.states) ==> r.deep_view().no_duplicates(),
        forall|c: Seq<Seq<char>>| #[trigger] r.deep_view().contains(c) <==> is_closed_circuit(gemma@, c),
{
    let ghost g = gemma@;
    let mut circuits: Vec<Vec<String>> = Vec::new();
    let n = gemma.states.len();
    let mut si: usize = 0;
    assert(circuits.deep_view() =~= found_upto(g, 0));
    while si < n
        invariant
            g == gemma@,
            n == g.states.len(),
            0 <= si <= n,
            circuits.deep_view() == found_upto(g, si as int),
            forall|c: Seq<Seq<char>>| #[trigger] circuits.deep_view().contains(c) <==> exists|s: int| 0 <= s < si && is_circuit_from(g, s, c),
        decreases n - si,
    {
        let start = &gemma.states[si].id;
        let mut path: Vec<String> = Vec::new();
        path.push(start.clone());
        let ghost p = path.deep_view();
        assert(p =~= seq![start@]);
        assert(g.states[si as int].id == start@);
        assert(is_open_path(g, si as int, p));
        let ghost before = circuits.deep_view();
        circuits_dfs(gemma, start.as_str(), start.as_str(), si, &mut path, &mut circuits);
        let ghost x = choose|x: Seq<Seq<Seq<char>>>|
            circuits.deep_view() == before + x && forall|c: Seq<Seq<char>>|
                #[trigger] x.contains(c) <==> (is_circuit_from(g, si as int, c) && p.is_prefix_of(c));
        assert forall|c: Seq<Seq<char>>| #[trigger] circuits.deep_view().contains(c) <==> exists|s: int| 0 <= s < si + 1 && is_circuit_from(g, s, c) by {
            let all = circuits.deep_view();
            if all.contains(c) {
                let j = choose|j: int| 0 <= j < all.len() && all[j] == c;
                if j < before.len() {
                    assert(before[j] == c);
                    assert(before.contains(c));
                } else {
                    assert(x[j - before.len()] == c);
                    assert(x.contains(c));
                }
            }
            if exists|s: int| 0 <= s < si + 1 && is_circuit_from(g, s, c) {
                let s = choose|s: int| 0 <= s < si + 1 && is_circuit_from(g, s, c);
                if s < si {
                    assert(before.contains(c));
                    let j = choose|j: int| 0 <= j < before.len() && before[j] == c;
                    assert(all[j] == c);
                } else {
                    assert(c[0] == p[0]);
                    assert(p.is_prefix_of(c));
                    assert(x.contains(c));
                    let j = choose|j: int| 0 <= j < x.len() && x[j] == c;
                    assert(all[before.len() + j] == c);
                }
            }
        }
        si = si + 1;
    }
    assert forall|c: Seq<Seq<char>>| #[trigger] circuits.deep_view().contains(c) <==> is_closed_circuit(g, c) by {
        if is_closed_circuit(g, c) {
            let s = choose|s: int| is_circuit_from(g, s, c);
            assert(0 <= s < n);
        }
    }
    proof {
        if distinct_state_names(g.states) {
            lemma_found_upto_unique(g, n as int);
        }
    }
    circuits
}

} // verus!
