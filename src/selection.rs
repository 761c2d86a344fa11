//! Priority-bounded dependency-closure selection over an index graph.
//!
//! Entries are numbered `0..n`; `prio[i]` is the priority of entry `i` and
//! `deps[i]` lists the entries (present in the table) that `i` depends on.
use vstd::prelude::*;
use vstd::seq_lib::lemma_seq_contains_after_push;
use vstd::set_lib::{lemma_int_range, lemma_len_subset, set_int_range};

verus! {

/// Every index of `s` names an entry of a table of `n` entries.
pub open spec fn ids_below(s: Seq<usize>, n: int) -> bool {
    forall|i: int| 0 <= i < s.len() ==> s[i] < n
}

/// A scored dependency graph: one priority and one dependency list per entry.
pub open spec fn graph_ok(prio: Seq<u64>, deps: Seq<Seq<usize>>) -> bool {
    &&& prio.len() == deps.len()
    &&& forall|i: int| 0 <= i < deps.len() ==> ids_below(#[trigger] deps[i], deps.len() as int)
}

// ---------------------------------------------------------------------------
// Stable ascending sort by priority (insertion sort).

/// Where an item of priority `k` goes in `t`: after every trailing item whose
/// priority is greater than `k` has been passed over from the back.
pub open spec fn insert_pos(prio: Seq<u64>, t: Seq<usize>, k: u64) -> nat
    decreases t.len(),
{
    if t.len() == 0 {
        0
    } else if prio[t.last() as int] > k {
        insert_pos(prio, t.drop_last(), k)
    } else {
        t.len()
    }
}

/// `s` ordered by ascending priority; items of equal priority keep their order.
pub open spec fn sort_by_priority(prio: Seq<u64>, s: Seq<usize>) -> Seq<usize>
    decreases s.len(),
{
    if s.len() == 0 {
        Seq::empty()
    } else {
        let t = sort_by_priority(prio, s.drop_last());
        t.insert(insert_pos(prio, t, prio[s.last() as int]) as int, s.last())
    }
}

// ---------------------------------------------------------------------------
// Seed set.

/// The entries among `0..i` whose priority reaches `threshold`, in table order.
pub open spec fn eligible(prio: Seq<u64>, threshold: u64, i: nat) -> Seq<usize>
    decreases i,
{
    if i == 0 {
        Seq::empty()
    } else {
        let r = eligible(prio, threshold, (i - 1) as nat);
        if prio[i - 1] >= threshold {
            r.push((i - 1) as usize)
        } else {
            r
        }
    }
}

/// The seed worklist: the `cap` highest-priority eligible entries, in ascending
/// priority order (so the highest one is resolved first).
pub open spec fn seeds(prio: Seq<u64>, cap: nat, threshold: u64) -> Seq<usize> {
    let s = sort_by_priority(prio, eligible(prio, threshold, prio.len()));
    let keep = if cap < s.len() { cap } else { s.len() };
    s.subrange(s.len() - keep, s.len() as int)
}

// ---------------------------------------------------------------------------
// The resolution walk.

/// State of the walk: a stack of frontiers and the entries emitted so far.
pub struct Walk {
    pub stack: Seq<Seq<usize>>,
    pub out: Seq<usize>,
}

/// The entries whose expansion opened the frontiers above them: the last item
/// of every frontier but the top one.
pub open spec fn parents(stack: Seq<Seq<usize>>) -> Seq<usize> {
    Seq::new(
        (if stack.len() == 0 { 0 } else { stack.len() - 1 }) as nat,
        |k: int| stack[k].last(),
    )
}

/// `stack` without its exhausted frontiers at the top.
pub open spec fn trim_exhausted(stack: Seq<Seq<usize>>) -> Seq<Seq<usize>>
    decreases stack.len(),
{
    if stack.len() > 0 && stack.last().len() == 0 {
        trim_exhausted(stack.drop_last())
    } else {
        stack
    }
}

/// The dependencies in `ds` of entry `e` that still need resolving: not yet
/// emitted, not `e` itself and not an entry whose expansion is under way.
pub open spec fn pending(ds: Seq<usize>, e: usize, out: Seq<usize>, path: Seq<usize>) -> Seq<
    usize,
>
    decreases ds.len(),
{
    if ds.len() == 0 {
        Seq::empty()
    } else {
        let r = pending(ds.drop_last(), e, out, path);
        let d = ds.last();
        if !out.contains(d) && d != e && !path.contains(d) {
            r.push(d)
        } else {
            r
        }
    }
}

/// One step: drop exhausted frontiers, then look at the last id of the top one.
/// An emitted id is dropped; an id with nothing pending is emitted; otherwise
/// its pending dependencies, in ascending priority, become a new frontier.
pub open spec fn step(prio: Seq<u64>, deps: Seq<Seq<usize>>, w: Walk) -> Walk {
    let st = trim_exhausted(w.stack);
    if st.len() == 0 {
        Walk { stack: st, out: w.out }
    } else {
        let top = st.last();
        let e = top.last();
        let popped = st.update(st.len() - 1, top.drop_last());
        if w.out.contains(e) {
            Walk { stack: popped, out: w.out }
        } else {
            let p = pending(deps[e as int], e, w.out, parents(st));
            if p.len() == 0 {
                Walk { stack: popped, out: w.out.push(e) }
            } else {
                Walk { stack: st.push(sort_by_priority(prio, p)), out: w.out }
            }
        }
    }
}

pub open spec fn stopped(w: Walk, cap: nat) -> bool {
    w.stack.len() == 0 || w.out.len() >= cap
}

/// The walk after at most `fuel` steps, halting once it has stopped.
pub open spec fn run(prio: Seq<u64>, deps: Seq<Seq<usize>>, cap: nat, w: Walk, fuel: nat) -> Walk
    decreases fuel,
{
    if fuel == 0 || stopped(w, cap) {
        w
    } else {
        run(prio, deps, cap, step(prio, deps, w), (fuel - 1) as nat)
    }
}

pub open spec fn initial_walk(prio: Seq<u64>, cap: nat, threshold: u64) -> Walk {
    Walk { stack: seq![seeds(prio, cap, threshold)], out: Seq::empty() }
}

pub open spec fn halts_within(
    prio: Seq<u64>,
    deps: Seq<Seq<usize>>,
    cap: nat,
    threshold: u64,
    fuel: nat,
) -> bool {
    stopped(run(prio, deps, cap, initial_walk(prio, cap, threshold), fuel), cap)
}

/// The selected sequence: what the walk has emitted when it stops.
pub open spec fn selection(prio: Seq<u64>, deps: Seq<Seq<usize>>, cap: nat, threshold: u64) -> Seq<
    usize,
> {
    let fuel = choose|f: nat| halts_within(prio, deps, cap, threshold, f);
    run(prio, deps, cap, initial_walk(prio, cap, threshold), fuel).out
}


// ---------------------------------------------------------------------------
// Invariant of the walk.

pub open spec fn top_len(stack: Seq<Seq<usize>>) -> int {
    if stack.len() > 0 {
        stack.last().len() as int
    } else {
        0
    }
}

/// What stays true of the walk: ids are in range and emitted at most once;
/// only the top frontier may be exhausted; the parents are distinct, not yet
/// emitted, and never occur in the frontiers they opened; and each dependency
/// of a parent is emitted, is an ancestor, or still waits in its frontier.
pub open spec fn walk_inv(deps: Seq<Seq<usize>>, w: Walk) -> bool {
    let n = deps.len() as int;
    let par = parents(w.stack);
    &&& forall|k: int| 0 <= k < w.stack.len() ==> ids_below(#[trigger] w.stack[k], n)
    &&& ids_below(w.out, n)
    &&& w.out.no_duplicates()
    &&& forall|k: int| 0 <= k < w.stack.len() - 1 ==> (#[trigger] w.stack[k]).len() > 0
    &&& par.no_duplicates()
    &&& forall|i: int| 0 <= i < par.len() ==> !w.out.contains(#[trigger] par[i])
    &&& forall|k: int, j: int|
        0 <= k < w.stack.len() && 0 <= j < w.stack[k].len() ==> !par.take(k).contains(
            #[trigger] w.stack[k][j],
        )
    &&& forall|k: int, d: usize|
        1 <= k < w.stack.len() && #[trigger] deps[par[k - 1] as int].contains(d) ==> (
        w.out.contains(d) || d == par[k - 1] || par.take(k - 1).contains(d)
            || w.stack[k].contains(d))
}

/// The lexicographic measure `(n - |out|, n + 1 - |stack|, |top|)` drops from `a` to `b`.
pub open spec fn progress(n: int, a: Walk, b: Walk) -> bool {
    &&& 0 <= n - b.out.len()
    &&& 0 <= n + 1 - b.stack.len()
    &&& 0 <= top_len(b.stack)
    &&& (n - b.out.len() < n - a.out.len() || (n - b.out.len() == n - a.out.len() && (n + 1
        - b.stack.len() < n + 1 - a.stack.len() || (n + 1 - b.stack.len() == n + 1
        - a.stack.len() && top_len(b.stack) < top_len(a.stack)))))
}

/// A duplicate-free list of ids below `n` holds at most `n` ids.
pub proof fn lemma_distinct_ids_bounded(s: Seq<usize>, n: int)
    requires
        s.no_duplicates(),
        ids_below(s, n),
        0 <= n,
    ensures
        s.len() <= n,
{
    let t = s.map_values(|x: usize| x as int);
    assert(t.no_duplicates()) by {
        assert forall|i: int, j: int| 0 <= i < t.len() && 0 <= j < t.len() && i != j implies t[i]
            != t[j] by {
            assert(s[i] != s[j]);
        }
    }
    t.unique_seq_to_set();
    lemma_int_range(0, n);
    assert(t.to_set().subset_of(set_int_range(0, n))) by {
        assert forall|x: int| t.to_set().contains(x) implies set_int_range(0, n).contains(x) by {
            let i = choose|i: int| 0 <= i < t.len() && t[i] == x;
            assert(s[i] < n);
        }
    }
    lemma_len_subset(t.to_set(), set_int_range(0, n));
}

pub proof fn lemma_insert_contains(t: Seq<usize>, pos: int, v: usize, x: usize)
    requires
        0 <= pos <= t.len(),
    ensures
        t.insert(pos, v).contains(x) <==> (t.contains(x) || v == x),
{
    t.insert_ensures(pos, v);
    let u = t.insert(pos, v);
    if u.contains(x) {
        let i = choose|i: int| 0 <= i < u.len() && u[i] == x;
        if i < pos {
            assert(t[i] == x);
        } else if i > pos {
            assert(t[i - 1] == x);
        }
    }
    if t.contains(x) {
        let j = choose|j: int| 0 <= j < t.len() && t[j] == x;
        if j < pos {
            assert(u[j] == x);
        } else {
            assert(u[j + 1] == x);
        }
    }
    if v == x {
        assert(u[pos] == x);
    }
}

pub proof fn lemma_insert_pos_bound(prio: Seq<u64>, t: Seq<usize>, k: u64)
    ensures
        insert_pos(prio, t, k) <= t.len(),
    decreases t.len(),
{
    if t.len() > 0 {
        lemma_insert_pos_bound(prio, t.drop_last(), k);
    }
}

/// Sorting keeps the items.
pub proof fn lemma_sort_contains(prio: Seq<u64>, s: Seq<usize>, x: usize)
    ensures
        sort_by_priority(prio, s).len() == s.len(),
        sort_by_priority(prio, s).contains(x) <==> s.contains(x),
    decreases s.len(),
{
    if s.len() > 0 {
        let t = sort_by_priority(prio, s.drop_last());
        lemma_sort_contains(prio, s.drop_last(), x);
        let pos = insert_pos(prio, t, prio[s.last() as int]);
        lemma_insert_pos_bound(prio, t, prio[s.last() as int]);
        lemma_insert_contains(t, pos as int, s.last(), x);
        t.insert_ensures(pos as int, s.last());
        assert(s =~= s.drop_last().push(s.last()));
        lemma_seq_contains_after_push(s.drop_last(), s.last(), x);
    }
}

/// What `pending` keeps.
pub proof fn lemma_pending_contains(
    ds: Seq<usize>,
    e: usize,
    out: Seq<usize>,
    path: Seq<usize>,
    d: usize,
)
    ensures
        pending(ds, e, out, path).contains(d) <==> (ds.contains(d) && !out.contains(d) && d != e
            && !path.contains(d)),
    decreases ds.len(),
{
    if ds.len() > 0 {
        let r = pending(ds.drop_last(), e, out, path);
        lemma_pending_contains(ds.drop_last(), e, out, path, d);
        assert(ds =~= ds.drop_last().push(ds.last()));
        lemma_seq_contains_after_push(ds.drop_last(), ds.last(), d);
        lemma_seq_contains_after_push(r, ds.last(), d);
    }
}

pub proof fn lemma_pending_empty(ds: Seq<usize>, e: usize, out: Seq<usize>, path: Seq<usize>)
    requires
        forall|d: usize| #[trigger] ds.contains(d) ==> (out.contains(d) || d == e || path.contains(d)),
    ensures
        pending(ds, e, out, path).len() == 0,
{
    let p = pending(ds, e, out, path);
    if p.len() > 0 {
        lemma_pending_contains(ds, e, out, path, p[0]);
        assert(p.contains(p[0]));
    }
}

pub proof fn lemma_parents_update_top(stack: Seq<Seq<usize>>, f: Seq<usize>)
    requires
        stack.len() > 0,
    ensures
        parents(stack.update(stack.len() - 1, f)) =~= parents(stack),
{
}

pub proof fn lemma_parents_push(stack: Seq<Seq<usize>>, f: Seq<usize>)
    requires
        stack.len() > 0,
    ensures
        parents(stack.push(f)) =~= parents(stack).push(stack.last().last()),
{
}

pub proof fn lemma_parents_drop_last(stack: Seq<Seq<usize>>)
    requires
        stack.len() > 1,
    ensures
        parents(stack.drop_last()) =~= parents(stack).drop_last(),
{
}

/// Dropping exhausted frontiers keeps the invariant; it removes at most the top
/// one, and then the entry it uncovers is ready to be emitted.
pub proof fn lemma_trim(deps: Seq<Seq<usize>>, w: Walk)
    requires
        walk_inv(deps, w),
    ensures
        ({
            let st = trim_exhausted(w.stack);
            &&& walk_inv(deps, Walk { stack: st, out: w.out })
            &&& st.len() > 0 ==> st.last().len() > 0
            &&& st.len() <= w.stack.len()
            &&& st.len() == w.stack.len() ==> st == w.stack
            &&& st.len() < w.stack.len() ==> st == w.stack.drop_last()
            &&& st.len() < w.stack.len() && st.len() > 0 ==> {
                let e = st.last().last();
                &&& !w.out.contains(e)
                &&& pending(deps[e as int], e, w.out, parents(st)).len() == 0
            }
        }),
{
    if w.stack.len() > 0 && w.stack.last().len() == 0 {
        let s1 = w.stack.drop_last();
        if s1.len() == 0 {
            assert(trim_exhausted(s1) == s1);
            assert(parents(s1) =~= Seq::<usize>::empty());
        } else {
            let L = s1.len() as int;
            assert(s1.last().len() > 0) by {
                assert(w.stack[L - 1].len() > 0);
            }
            assert(trim_exhausted(s1) == s1);
            let par = parents(w.stack);
            lemma_parents_drop_last(w.stack);
            let pst = parents(s1);
            assert(pst =~= par.take(L - 1));
            assert forall|k: int, j: int|
                0 <= k < s1.len() && 0 <= j < s1[k].len() implies !pst.take(k).contains(
                #[trigger] s1[k][j],
            ) by {
                assert(pst.take(k) =~= par.take(k));
                assert(w.stack[k][j] == s1[k][j]);
            }
            assert forall|k: int, d: usize|
                1 <= k < s1.len() && #[trigger] deps[pst[k - 1] as int].contains(d) implies (
            w.out.contains(d) || d == pst[k - 1] || pst.take(k - 1).contains(d)
                || s1[k].contains(d)) by {
                assert(pst.take(k - 1) =~= par.take(k - 1));
                assert(pst[k - 1] == par[k - 1]);
            }
            let e = s1.last().last();
            assert(e == par[L - 1]);
            assert(!w.out.contains(e));
            assert forall|d: usize| #[trigger] deps[e as int].contains(d) implies (w.out.contains(d)
                || d == e || pst.contains(d)) by {
                assert(deps[par[L - 1] as int].contains(d));
                assert(!w.stack[L].contains(d));
                assert(pst =~= par.take(L - 1));
            }
            lemma_pending_empty(deps[e as int], e, w.out, pst);
        }
    }
}

/// Removing the last id of the top frontier, and emitting it unless it was
/// already emitted, keeps the invariant.
pub proof fn lemma_pop_top(deps: Seq<Seq<usize>>, v: Walk, emit: bool)
    requires
        walk_inv(deps, v),
        v.stack.len() > 0,
        v.stack.last().len() > 0,
        emit <==> !v.out.contains(v.stack.last().last()),
    ensures
        ({
            let top = v.stack.last();
            let e = top.last();
            let out2 = if emit { v.out.push(e) } else { v.out };
            walk_inv(deps, Walk { stack: v.stack.update(v.stack.len() - 1, top.drop_last()), out: out2 })
        }),
{
    let n = deps.len() as int;
    let L = v.stack.len() - 1;
    let top = v.stack.last();
    let e = top.last();
    let out2 = if emit { v.out.push(e) } else { v.out };
    let s2 = v.stack.update(L, top.drop_last());
    let par = parents(v.stack);
    lemma_parents_update_top(v.stack, top.drop_last());
    assert(parents(s2) == par);
    assert(ids_below(top, n));
    assert(e < n);
    assert(!par.take(L).contains(top[top.len() - 1]));
    assert(par.take(L) =~= par);
    assert(ids_below(out2, n));
    assert forall|x: usize| v.out.contains(x) implies out2.contains(x) by {
        if emit {
            lemma_seq_contains_after_push(v.out, e, x);
        }
    }
    if emit {
        assert(out2.no_duplicates()) by {
            assert forall|i: int, j: int|
                0 <= i < out2.len() && 0 <= j < out2.len() && i != j implies out2[i] != out2[j] by {
                if i < v.out.len() && j < v.out.len() {
                } else if i == v.out.len() {
                    assert(v.out.contains(out2[j]));
                } else {
                    assert(v.out.contains(out2[i]));
                }
            }
        }
        assert forall|i: int| 0 <= i < par.len() implies !out2.contains(#[trigger] par[i]) by {
            lemma_seq_contains_after_push(v.out, e, par[i]);
            assert(par.contains(par[i]));
        }
    }
    assert forall|k: int| 0 <= k < s2.len() implies ids_below(#[trigger] s2[k], n) by {
        if k < L {
            assert(s2[k] == v.stack[k]);
        } else {
            assert(ids_below(v.stack[k], n));
        }
    }
    assert forall|k: int| 0 <= k < s2.len() - 1 implies (#[trigger] s2[k]).len() > 0 by {
        assert(s2[k] == v.stack[k]);
    }
    assert forall|k: int, j: int|
        0 <= k < s2.len() && 0 <= j < s2[k].len() implies !par.take(k).contains(
        #[trigger] s2[k][j],
    ) by {
        if k < L {
            assert(s2[k] == v.stack[k]);
        } else {
            assert(s2[k][j] == v.stack[k][j]);
        }
    }
    assert forall|k: int, d: usize|
        1 <= k < s2.len() && #[trigger] deps[par[k - 1] as int].contains(d) implies (out2.contains(d)
        || d == par[k - 1] || par.take(k - 1).contains(d) || s2[k].contains(d)) by {
        if k < L {
            assert(s2[k] == v.stack[k]);
        } else if v.stack[k].contains(d) && !out2.contains(d) && d != par[k - 1]
            && !par.take(k - 1).contains(d) {
            let i = choose|i: int| 0 <= i < v.stack[k].len() && v.stack[k][i] == d;
            if i == top.len() - 1 {
                if emit {
                    lemma_seq_contains_after_push(v.out, e, d);
                }
            } else {
                assert(s2[k][i] == d);
            }
        }
    }
}

/// Opening a frontier of the pending dependencies of the top id keeps the invariant.
pub proof fn lemma_expand(prio: Seq<u64>, deps: Seq<Seq<usize>>, v: Walk)
    requires
        graph_ok(prio, deps),
        walk_inv(deps, v),
        v.stack.len() > 0,
        v.stack.last().len() > 0,
        !v.out.contains(v.stack.last().last()),
    ensures
        ({
            let e = v.stack.last().last();
            let p = pending(deps[e as int], e, v.out, parents(v.stack));
            walk_inv(deps, Walk { stack: v.stack.push(sort_by_priority(prio, p)), out: v.out })
        }),
{
    let n = deps.len() as int;
    let L = v.stack.len() - 1;
    let top = v.stack.last();
    let e = top.last();
    let par = parents(v.stack);
    let p = pending(deps[e as int], e, v.out, par);
    let f = sort_by_priority(prio, p);
    let s2 = v.stack.push(f);
    lemma_parents_push(v.stack, f);
    let par2 = parents(s2);
    assert(par2 =~= par.push(e));
    assert(ids_below(top, n));
    assert(e < n);
    assert(!par.take(L).contains(top[top.len() - 1]));
    assert(par.take(L) =~= par);
    assert(!par.contains(e));
    assert forall|x: usize| #[trigger] f.contains(x) implies deps[e as int].contains(x) && !v.out.contains(x)
        && x != e && !par.contains(x) by {
        lemma_sort_contains(prio, p, x);
        lemma_pending_contains(deps[e as int], e, v.out, par, x);
    }
    assert(ids_below(f, n)) by {
        assert forall|i: int| 0 <= i < f.len() implies f[i] < n by {
            assert(f.contains(f[i]));
            let j = choose|j: int| 0 <= j < deps[e as int].len() && deps[e as int][j] == f[i];
            assert(ids_below(deps[e as int], n));
        }
    }
    assert forall|k: int| 0 <= k < s2.len() implies ids_below(#[trigger] s2[k], n) by {
        if k < v.stack.len() {
            assert(s2[k] == v.stack[k]);
        }
    }
    assert forall|k: int| 0 <= k < s2.len() - 1 implies (#[trigger] s2[k]).len() > 0 by {
        assert(s2[k] == v.stack[k]);
    }
    assert(par2.no_duplicates()) by {
        assert forall|i: int, j: int|
            0 <= i < par2.len() && 0 <= j < par2.len() && i != j implies par2[i] != par2[j] by {
            if i < par.len() && j < par.len() {
            } else if i == par.len() {
                assert(par.contains(par2[j]));
            } else {
                assert(par.contains(par2[i]));
            }
        }
    }
    assert forall|i: int| 0 <= i < par2.len() implies !v.out.contains(#[trigger] par2[i]) by {
        if i < par.len() {
            assert(par2[i] == par[i]);
        }
    }
    assert forall|k: int, j: int|
        0 <= k < s2.len() && 0 <= j < s2[k].len() implies !par2.take(k).contains(
        #[trigger] s2[k][j],
    ) by {
        if k < v.stack.len() {
            assert(par2.take(k) =~= par.take(k));
            assert(s2[k][j] == v.stack[k][j]);
        } else {
            assert(par2.take(k) =~= par.push(e));
            assert(f.contains(f[j]));
            lemma_seq_contains_after_push(par, e, f[j]);
        }
    }
    assert forall|k: int, d: usize|
        1 <= k < s2.len() && #[trigger] deps[par2[k - 1] as int].contains(d) implies (
    v.out.contains(d) || d == par2[k - 1] || par2.take(k - 1).contains(d) || s2[k].contains(d)) by {
        if k < v.stack.len() {
            assert(par2.take(k - 1) =~= par.take(k - 1));
            assert(par2[k - 1] == par[k - 1]);
            assert(s2[k] == v.stack[k]);
        } else {
            assert(par2[k - 1] == e);
            assert(par2.take(k - 1) =~= par);
            lemma_pending_contains(deps[e as int], e, v.out, par, d);
            lemma_sort_contains(prio, p, d);
        }
    }
}


pub proof fn lemma_walk_bounds(deps: Seq<Seq<usize>>, w: Walk)
    requires
        walk_inv(deps, w),
    ensures
        w.out.len() <= deps.len(),
        w.stack.len() <= deps.len() + 1,
{
    let n = deps.len() as int;
    lemma_distinct_ids_bounded(w.out, n);
    let par = parents(w.stack);
    assert(ids_below(par, n)) by {
        assert forall|i: int| 0 <= i < par.len() implies par[i] < n by {
            assert(ids_below(w.stack[i], n));
            assert(w.stack[i].len() > 0);
        }
    }
    lemma_distinct_ids_bounded(par, n);
}

/// A step that does not empty the stack keeps the invariant and makes progress.
pub proof fn lemma_step(prio: Seq<u64>, deps: Seq<Seq<usize>>, w: Walk)
    requires
        graph_ok(prio, deps),
        walk_inv(deps, w),
        trim_exhausted(w.stack).len() > 0,
    ensures
        walk_inv(deps, step(prio, deps, w)),
        progress(deps.len() as int, w, step(prio, deps, w)),
{
    lemma_trim(deps, w);
    let st = trim_exhausted(w.stack);
    let v = Walk { stack: st, out: w.out };
    let top = st.last();
    let e = top.last();
    let w2 = step(prio, deps, w);
    if w.out.contains(e) {
        lemma_pop_top(deps, v, false);
    } else {
        let p = pending(deps[e as int], e, w.out, parents(st));
        if p.len() == 0 {
            lemma_pop_top(deps, v, true);
        } else {
            lemma_expand(prio, deps, v);
        }
    }
    lemma_walk_bounds(deps, w2);
}

/// Once the walk has not stopped after `k` steps, step `k + 1` is one more step.
pub proof fn lemma_run_next(prio: Seq<u64>, deps: Seq<Seq<usize>>, cap: nat, w: Walk, k: nat)
    requires
        !stopped(run(prio, deps, cap, w, k), cap),
    ensures
        run(prio, deps, cap, w, k + 1) == step(prio, deps, run(prio, deps, cap, w, k)),
    decreases k,
{
    if k > 0 {
        assert(!stopped(w, cap));
        assert(run(prio, deps, cap, w, k) == run(prio, deps, cap, step(prio, deps, w), (k - 1) as nat));
        lemma_run_next(prio, deps, cap, step(prio, deps, w), (k - 1) as nat);
        assert(run(prio, deps, cap, w, k + 1) == run(prio, deps, cap, step(prio, deps, w), k));
        assert((k - 1) as nat + 1 == k);
    } else {
        assert(run(prio, deps, cap, w, 1) == run(prio, deps, cap, step(prio, deps, w), 0));
    }
}

/// A stopped walk stays where it is.
pub proof fn lemma_run_stopped(
    prio: Seq<u64>,
    deps: Seq<Seq<usize>>,
    cap: nat,
    w: Walk,
    f1: nat,
    f2: nat,
)
    requires
        stopped(run(prio, deps, cap, w, f1), cap),
        stopped(run(prio, deps, cap, w, f2), cap),
    ensures
        run(prio, deps, cap, w, f1) == run(prio, deps, cap, w, f2),
    decreases f1,
{
    if !stopped(w, cap) && f1 > 0 && f2 > 0 {
        lemma_run_stopped(prio, deps, cap, step(prio, deps, w), (f1 - 1) as nat, (f2 - 1) as nat);
    }
}

/// The invariant holds all along the walk.
pub proof fn lemma_run_inv(prio: Seq<u64>, deps: Seq<Seq<usize>>, cap: nat, w: Walk, k: nat)
    requires
        graph_ok(prio, deps),
        walk_inv(deps, w),
    ensures
        walk_inv(deps, run(prio, deps, cap, w, k)),
    decreases k,
{
    if k > 0 && !stopped(w, cap) {
        lemma_step_inv(prio, deps, w);
        lemma_run_inv(prio, deps, cap, step(prio, deps, w), (k - 1) as nat);
    }
}

pub proof fn lemma_step_inv(prio: Seq<u64>, deps: Seq<Seq<usize>>, w: Walk)
    requires
        graph_ok(prio, deps),
        walk_inv(deps, w),
    ensures
        walk_inv(deps, step(prio, deps, w)),
{
    lemma_trim(deps, w);
    if trim_exhausted(w.stack).len() > 0 {
        lemma_step(prio, deps, w);
    } else {
        assert(parents(trim_exhausted(w.stack)) =~= Seq::<usize>::empty());
    }
}


/// The eligible entries are in range and reach the threshold.
pub proof fn lemma_eligible(prio: Seq<u64>, threshold: u64, i: nat)
    requires
        i <= prio.len(),
        prio.len() <= usize::MAX,
    ensures
        ids_below(eligible(prio, threshold, i), i as int),
        forall|j: int|
            0 <= j < eligible(prio, threshold, i).len() ==> prio[eligible(prio, threshold, i)[j] as int]
                >= threshold,
    decreases i,
{
    if i > 0 {
        lemma_eligible(prio, threshold, (i - 1) as nat);
    }
}

// ---------------------------------------------------------------------------
// Properties of the selection.

/// `rank` strictly decreases along every dependency edge.
pub open spec fn ranked(deps: Seq<Seq<usize>>, rank: Seq<nat>) -> bool {
    &&& rank.len() == deps.len()
    &&& forall|i: int, j: int|
        0 <= i < deps.len() && 0 <= j < deps[i].len() ==> rank[#[trigger] deps[i][j] as int]
            < rank[i]
}

/// The dependency graph has no cycle.
pub open spec fn acyclic(deps: Seq<Seq<usize>>) -> bool {
    exists|rank: Seq<nat>| ranked(deps, rank)
}

/// Every dependency of an entry of `out` occurs in `out` before it.
pub open spec fn dependency_closed(deps: Seq<Seq<usize>>, out: Seq<usize>) -> bool {
    forall|i: int, d: usize|
        0 <= i < out.len() && #[trigger] deps[out[i] as int].contains(d) ==> out.take(i).contains(d)
}

pub open spec fn rank_inv(deps: Seq<Seq<usize>>, rank: Seq<nat>, w: Walk) -> bool {
    let par = parents(w.stack);
    &&& forall|k: int, j: int|
        1 <= k < w.stack.len() && 0 <= j < w.stack[k].len() ==> rank[#[trigger] w.stack[k][j] as int]
            < rank[par[k - 1] as int]
    &&& forall|i: int, j: int|
        0 <= i < j < par.len() ==> rank[#[trigger] par[j] as int] < rank[#[trigger] par[i] as int]
    &&& dependency_closed(deps, w.out)
}

pub proof fn lemma_init_inv(prio: Seq<u64>, deps: Seq<Seq<usize>>, cap: nat, threshold: u64)
    requires
        graph_ok(prio, deps),
        prio.len() <= usize::MAX,
    ensures
        walk_inv(deps, initial_walk(prio, cap, threshold)),
        forall|rank: Seq<nat>| rank_inv(deps, rank, #[trigger] initial_walk(prio, cap, threshold)),
{
    let init = initial_walk(prio, cap, threshold);
    let sd = seeds(prio, cap, threshold);
    let el = eligible(prio, threshold, prio.len());
    lemma_eligible(prio, threshold, prio.len());
    assert forall|j: int| 0 <= j < sd.len() implies sd[j] < deps.len() by {
        let srt = sort_by_priority(prio, el);
        lemma_sort_contains(prio, el, sd[j]);
        assert(srt.contains(sd[j]));
    }
    assert(parents(init.stack) =~= Seq::<usize>::empty());
}

pub proof fn lemma_step_rank(prio: Seq<u64>, deps: Seq<Seq<usize>>, rank: Seq<nat>, w: Walk)
    requires
        graph_ok(prio, deps),
        ranked(deps, rank),
        walk_inv(deps, w),
        rank_inv(deps, rank, w),
    ensures
        rank_inv(deps, rank, step(prio, deps, w)),
{
    lemma_trim(deps, w);
    let st = trim_exhausted(w.stack);
    let w2 = step(prio, deps, w);
    let par = parents(st);
    if st.len() == 0 {
        assert(parents(w2.stack) =~= Seq::<usize>::empty());
        return;
    }
    let K = st.len() - 1;
    if st.len() < w.stack.len() {
        lemma_parents_drop_last(w.stack);
        assert(par =~= parents(w.stack).drop_last());
    } else {
        assert(st == w.stack);
    }
    // the trimmed stack keeps the rank facts
    assert forall|k: int, j: int| 1 <= k < st.len() && 0 <= j < st[k].len() implies rank[
        #[trigger] st[k][j] as int] < rank[par[k - 1] as int] by {
        assert(st[k] == w.stack[k]);
        assert(par[k - 1] == parents(w.stack)[k - 1]);
    }
    assert forall|i: int, j: int| 0 <= i < j < par.len() implies rank[#[trigger] par[j] as int]
        < rank[#[trigger] par[i] as int] by {
        assert(par[j] == parents(w.stack)[j]);
        assert(par[i] == parents(w.stack)[i]);
    }
    let top = st.last();
    let e = top.last();
    assert(ids_below(st[K], deps.len() as int));
    if w.out.contains(e) {
        lemma_parents_update_top(st, top.drop_last());
        assert forall|k: int, j: int| 1 <= k < w2.stack.len() && 0 <= j < w2.stack[k].len()
            implies rank[#[trigger] w2.stack[k][j] as int] < rank[parents(w2.stack)[k - 1] as int] by {
            assert(w2.stack[k][j] == st[k][j]);
        }
    } else {
        let p = pending(deps[e as int], e, w.out, par);
        if p.len() == 0 {
            lemma_parents_update_top(st, top.drop_last());
            assert forall|k: int, j: int| 1 <= k < w2.stack.len() && 0 <= j < w2.stack[k].len()
                implies rank[#[trigger] w2.stack[k][j] as int] < rank[parents(w2.stack)[k - 1] as int] by {
                assert(w2.stack[k][j] == st[k][j]);
            }
            assert forall|d: usize| #[trigger] deps[e as int].contains(d) implies w.out.contains(d) by {
                lemma_pending_contains(deps[e as int], e, w.out, par, d);
                let j = choose|j: int| 0 <= j < deps[e as int].len() && deps[e as int][j] == d;
                assert(rank[d as int] < rank[e as int]);
                if par.contains(d) {
                    let i = choose|i: int| 0 <= i < par.len() && par[i] == d;
                    assert(rank[st[K][top.len() - 1] as int] < rank[par[K - 1] as int]);
                    if i < K - 1 {
                        assert(rank[par[K - 1] as int] < rank[par[i] as int]);
                    }
                }
            }
            let out2 = w.out.push(e);
            assert forall|i: int, d: usize| 0 <= i < out2.len() && #[trigger] deps[out2[i] as int].contains(d)
                implies out2.take(i).contains(d) by {
                if i < w.out.len() {
                    assert(out2.take(i) =~= w.out.take(i));
                } else {
                    assert(out2.take(i) =~= w.out);
                }
            }
        } else {
            let f = sort_by_priority(prio, p);
            lemma_parents_push(st, f);
            let par2 = parents(w2.stack);
            assert(par2 =~= par.push(e));
            if K >= 1 {
                assert(rank[st[K][top.len() - 1] as int] < rank[par[K - 1] as int]);
            }
            assert forall|k: int, j: int| 1 <= k < w2.stack.len() && 0 <= j < w2.stack[k].len()
                implies rank[#[trigger] w2.stack[k][j] as int] < rank[par2[k - 1] as int] by {
                if k < st.len() {
                    assert(w2.stack[k][j] == st[k][j]);
                } else {
                    let x = f[j];
                    assert(f.contains(x));
                    lemma_sort_contains(prio, p, x);
                    lemma_pending_contains(deps[e as int], e, w.out, par, x);
                    let jj = choose|jj: int| 0 <= jj < deps[e as int].len() && deps[e as int][jj] == x;
                    assert(rank[deps[e as int][jj] as int] < rank[e as int]);
                }
            }
            assert forall|i: int, j: int| 0 <= i < j < par2.len() implies rank[#[trigger] par2[j] as int]
                < rank[#[trigger] par2[i] as int] by {
                if j == K {
                    if i < K - 1 {
                        assert(rank[par[K - 1] as int] < rank[par[i] as int]);
                    }
                }
            }
        }
    }
}

pub proof fn lemma_run_props(
    prio: Seq<u64>,
    deps: Seq<Seq<usize>>,
    cap: nat,
    rank: Seq<nat>,
    w: Walk,
    k: nat,
)
    requires
        graph_ok(prio, deps),
        walk_inv(deps, w),
        w.out.len() <= cap,
    ensures
        run(prio, deps, cap, w, k).out.len() <= cap,
        ranked(deps, rank) && rank_inv(deps, rank, w) ==> rank_inv(
            deps,
            rank,
            run(prio, deps, cap, w, k),
        ),
    decreases k,
{
    if k > 0 && !stopped(w, cap) {
        lemma_step_inv(prio, deps, w);
        if ranked(deps, rank) && rank_inv(deps, rank, w) {
            lemma_step_rank(prio, deps, rank, w);
        }
        lemma_run_props(prio, deps, cap, rank, step(prio, deps, w), (k - 1) as nat);
    }
}

/// The selection holds at most `cap` entries, and the seed worklist it starts
/// from holds at most `cap` entries, each of priority at least `threshold`.
pub proof fn lemma_selection_cap_threshold(
    prio: Seq<u64>,
    deps: Seq<Seq<usize>>,
    cap: nat,
    threshold: u64,
)
    requires
        graph_ok(prio, deps),
        prio.len() <= usize::MAX,
    ensures
        selection(prio, deps, cap, threshold).len() <= cap,
        seeds(prio, cap, threshold).len() <= cap,
        forall|j: int|
            0 <= j < seeds(prio, cap, threshold).len() ==> prio[seeds(prio, cap, threshold)[j] as int]
                >= threshold,
{
    let init = initial_walk(prio, cap, threshold);
    lemma_init_inv(prio, deps, cap, threshold);
    let f = choose|f: nat| halts_within(prio, deps, cap, threshold, f);
    lemma_run_props(prio, deps, cap, Seq::empty(), init, f);
    let sd = seeds(prio, cap, threshold);
    let el = eligible(prio, threshold, prio.len());
    lemma_eligible(prio, threshold, prio.len());
    assert forall|j: int| 0 <= j < sd.len() implies prio[sd[j] as int] >= threshold by {
        let srt = sort_by_priority(prio, el);
        lemma_sort_contains(prio, el, sd[j]);
        assert(srt.contains(sd[j]));
        let i = choose|i: int| 0 <= i < el.len() && el[i] == sd[j];
    }
}

/// With no dependency cycle, every dependency of a selected entry is selected
/// at an earlier position.
pub proof fn lemma_selection_dependency_closed(
    prio: Seq<u64>,
    deps: Seq<Seq<usize>>,
    cap: nat,
    threshold: u64,
)
    requires
        graph_ok(prio, deps),
        prio.len() <= usize::MAX,
        acyclic(deps),
    ensures
        dependency_closed(deps, selection(prio, deps, cap, threshold)),
{
    let rank = choose|rank: Seq<nat>| ranked(deps, rank);
    let init = initial_walk(prio, cap, threshold);
    lemma_init_inv(prio, deps, cap, threshold);
    assert(rank_inv(deps, rank, init));
    let f = choose|f: nat| halts_within(prio, deps, cap, threshold, f);
    lemma_run_props(prio, deps, cap, rank, init, f);
}

/// Selecting twice from the same scored table gives the same sequence: the
/// selection is a function of the priorities, the graph, the cap and the threshold.
pub proof fn lemma_reselection_same(
    prio: Seq<u64>,
    deps: Seq<Seq<usize>>,
    cap: nat,
    threshold: u64,
    prio2: Seq<u64>,
    deps2: Seq<Seq<usize>>,
)
    requires
        prio2 == prio,
        deps2 == deps,
    ensures
        selection(prio, deps, cap, threshold) == selection(prio2, deps2, cap, threshold),
{
}

/// `path` starts at a seed and each of its entries depends on the one before.
pub open spec fn seed_path(deps: Seq<Seq<usize>>, seeds: Seq<usize>, path: Seq<usize>) -> bool {
    &&& path.len() > 0
    &&& seeds.contains(path[0])
    &&& forall|i: int| 0 <= i < path.len() - 1 ==> #[trigger] deps[path[i] as int].contains(path[i + 1])
}

/// `x` is a seed or, through a chain of dependencies, needed by one.
pub open spec fn from_seeds(deps: Seq<Seq<usize>>, seeds: Seq<usize>, x: usize) -> bool {
    exists|path: Seq<usize>| #[trigger] seed_path(deps, seeds, path) && path.last() == x
}

pub proof fn lemma_from_seeds_step(deps: Seq<Seq<usize>>, seeds: Seq<usize>, p: usize, x: usize)
    requires
        from_seeds(deps, seeds, p),
        deps[p as int].contains(x),
    ensures
        from_seeds(deps, seeds, x),
{
    let path = choose|path: Seq<usize>| #[trigger] seed_path(deps, seeds, path) && path.last() == p;
    let q = path.push(x);
    assert forall|i: int| 0 <= i < q.len() - 1 implies #[trigger] deps[q[i] as int].contains(q[i + 1]) by {
        if i < path.len() - 1 {
            assert(q[i] == path[i] && q[i + 1] == path[i + 1]);
        } else {
            assert(q[i] == p && q[i + 1] == x);
        }
    }
    assert(seed_path(deps, seeds, q));
}

pub open spec fn walk_from_seeds(deps: Seq<Seq<usize>>, seeds: Seq<usize>, w: Walk) -> bool {
    &&& forall|k: int, j: int|
        0 <= k < w.stack.len() && 0 <= j < w.stack[k].len() ==> from_seeds(
            deps,
            seeds,
            #[trigger] w.stack[k][j],
        )
    &&& forall|i: int| 0 <= i < w.out.len() ==> from_seeds(deps, seeds, #[trigger] w.out[i])
}

pub proof fn lemma_step_from_seeds(
    prio: Seq<u64>,
    deps: Seq<Seq<usize>>,
    seeds: Seq<usize>,
    w: Walk,
)
    requires
        graph_ok(prio, deps),
        walk_inv(deps, w),
        walk_from_seeds(deps, seeds, w),
    ensures
        walk_from_seeds(deps, seeds, step(prio, deps, w)),
{
    lemma_trim(deps, w);
    let st = trim_exhausted(w.stack);
    let w2 = step(prio, deps, w);
    assert forall|k: int, j: int| 0 <= k < st.len() && 0 <= j < st[k].len() implies from_seeds(
        deps,
        seeds,
        #[trigger] st[k][j],
    ) by {
        if st.len() < w.stack.len() {
            assert(st[k] == w.stack[k]);
        }
    }
    if st.len() == 0 {
        return;
    }
    let K = st.len() - 1;
    let top = st.last();
    let e = top.last();
    assert(from_seeds(deps, seeds, st[K][top.len() - 1]));
    if w.out.contains(e) {
        assert forall|k: int, j: int| 0 <= k < w2.stack.len() && 0 <= j < w2.stack[k].len() implies from_seeds(
            deps,
            seeds,
            #[trigger] w2.stack[k][j],
        ) by {
            assert(w2.stack[k][j] == st[k][j]);
        }
    } else {
        let p = pending(deps[e as int], e, w.out, parents(st));
        if p.len() == 0 {
            assert forall|k: int, j: int| 0 <= k < w2.stack.len() && 0 <= j < w2.stack[k].len() implies from_seeds(
                deps,
                seeds,
                #[trigger] w2.stack[k][j],
            ) by {
                assert(w2.stack[k][j] == st[k][j]);
            }
            assert forall|i: int| 0 <= i < w2.out.len() implies from_seeds(deps, seeds, #[trigger] w2.out[i]) by {
                if i < w.out.len() {
                    assert(w2.out[i] == w.out[i]);
                }
            }
        } else {
            let f = sort_by_priority(prio, p);
            assert forall|k: int, j: int| 0 <= k < w2.stack.len() && 0 <= j < w2.stack[k].len() implies from_seeds(
                deps,
                seeds,
                #[trigger] w2.stack[k][j],
            ) by {
                if k < st.len() {
                    assert(w2.stack[k][j] == st[k][j]);
                } else {
                    let x = f[j];
                    assert(f.contains(x));
                    lemma_sort_contains(prio, p, x);
                    lemma_pending_contains(deps[e as int], e, w.out, parents(st), x);
                    lemma_from_seeds_step(deps, seeds, e, x);
                }
            }
        }
    }
}

pub proof fn lemma_run_from_seeds(
    prio: Seq<u64>,
    deps: Seq<Seq<usize>>,
    cap: nat,
    seeds: Seq<usize>,
    w: Walk,
    k: nat,
)
    requires
        graph_ok(prio, deps),
        walk_inv(deps, w),
        walk_from_seeds(deps, seeds, w),
    ensures
        walk_from_seeds(deps, seeds, run(prio, deps, cap, w, k)),
    decreases k,
{
    if k > 0 && !stopped(w, cap) {
        lemma_step_inv(prio, deps, w);
        lemma_step_from_seeds(prio, deps, seeds, w);
        lemma_run_from_seeds(prio, deps, cap, seeds, step(prio, deps, w), (k - 1) as nat);
    }
}

/// Every selected entry is a seed, whose priority reaches the threshold, or a
/// dependency, directly or through other dependencies, of a seed.
pub proof fn lemma_selection_from_seeds(
    prio: Seq<u64>,
    deps: Seq<Seq<usize>>,
    cap: nat,
    threshold: u64,
)
    requires
        graph_ok(prio, deps),
        prio.len() <= usize::MAX,
    ensures
        forall|i: int|
            0 <= i < selection(prio, deps, cap, threshold).len() ==> from_seeds(
                deps,
                seeds(prio, cap, threshold),
                #[trigger] selection(prio, deps, cap, threshold)[i],
            ),
{
    let sd = seeds(prio, cap, threshold);
    let init = initial_walk(prio, cap, threshold);
    lemma_init_inv(prio, deps, cap, threshold);
    assert forall|k: int, j: int| 0 <= k < init.stack.len() && 0 <= j < init.stack[k].len() implies from_seeds(
        deps,
        sd,
        #[trigger] init.stack[k][j],
    ) by {
        assert(init.stack[k] == sd);
        assert(sd.contains(sd[j]));
        assert(seed_path(deps, sd, seq![sd[j]]));
    }
    let f = choose|f: nat| halts_within(prio, deps, cap, threshold, f);
    lemma_run_from_seeds(prio, deps, cap, sd, init, f);
}

// ---------------------------------------------------------------------------
// Executable selection.

/// The lists of a `Vec` of `Vec`s as sequences.
pub open spec fn nested_view(v: &Vec<Vec<usize>>) -> Seq<Seq<usize>> {
    v@.map_values(|f: Vec<usize>| f@)
}

fn insert_by_priority(prio: &Vec<u64>, t: &mut Vec<usize>, x: usize)
    requires
        x < prio.len(),
        ids_below(old(t)@, prio.len() as int),
    ensures
        final(t)@ == old(t)@.insert(insert_pos(prio@, old(t)@, prio@[x as int]) as int, x),
{
    let k = prio[x];
    let mut j: usize = t.len();
    proof {
        assert(t@.subrange(0, j as int) =~= t@);
    }
    while j > 0 && prio[t[j - 1]] > k
        invariant
            j <= t.len(),
            t@ == old(t)@,
            ids_below(t@, prio.len() as int),
            insert_pos(prio@, t@, k) == insert_pos(prio@, t@.subrange(0, j as int), k),
        decreases j,
    {
        proof {
            assert(t@.subrange(0, j as int).drop_last() =~= t@.subrange(0, j - 1));
        }
        j -= 1;
    }
    t.insert(j, x);
}

/// `s` in ascending priority order, stable among equal priorities.
pub fn sort_ids_by_priority(prio: &Vec<u64>, s: &Vec<usize>) -> (r: Vec<usize>)
    requires
        ids_below(s@, prio.len() as int),
    ensures
        r@ == sort_by_priority(prio@, s@),
{
    let mut r: Vec<usize> = Vec::new();
    let mut i: usize = 0;
    while i < s.len()
        invariant
            i <= s.len(),
            ids_below(s@, prio.len() as int),
            r@ == sort_by_priority(prio@, s@.subrange(0, i as int)),
        decreases s.len() - i,
    {
        proof {
            let u = s@.subrange(0, i as int);
            assert forall|j: int| 0 <= j < r@.len() implies r@[j] < prio.len() by {
                lemma_sort_contains(prio@, u, r@[j]);
                assert(r@.contains(r@[j]));
            }
            assert(s@.subrange(0, i + 1).drop_last() =~= u);
        }
        insert_by_priority(prio, &mut r, s[i]);
        i += 1;
    }
    proof {
        assert(s@.subrange(0, s.len() as int) =~= s@);
    }
    r
}

/// The entries whose priority reaches `threshold`, in table order.
fn eligible_ids(prio: &Vec<u64>, threshold: u64) -> (r: Vec<usize>)
    ensures
        r@ == eligible(prio@, threshold, prio.len() as nat),
        ids_below(r@, prio.len() as int),
{
    let mut r: Vec<usize> = Vec::new();
    let mut i: usize = 0;
    while i < prio.len()
        invariant
            i <= prio.len(),
            r@ == eligible(prio@, threshold, i as nat),
            ids_below(r@, i as int),
        decreases prio.len() - i,
    {
        if prio[i] >= threshold {
            r.push(i);
        }
        i += 1;
    }
    r
}

/// The seed worklist of a selection.
pub fn seed_ids(prio: &Vec<u64>, cap: usize, threshold: u64) -> (r: Vec<usize>)
    ensures
        r@ == seeds(prio@, cap as nat, threshold),
{
    let el = eligible_ids(prio, threshold);
    let sorted = sort_ids_by_priority(prio, &el);
    let keep: usize = if cap < sorted.len() { cap } else { sorted.len() };
    let start: usize = sorted.len() - keep;
    let mut r: Vec<usize> = Vec::new();
    let mut i: usize = start;
    while i < sorted.len()
        invariant
            start <= i <= sorted.len(),
            r@ == sorted@.subrange(start as int, i as int),
        decreases sorted.len() - i,
    {
        r.push(sorted[i]);
        proof {
            assert(r@ =~= sorted@.subrange(start as int, i + 1));
        }
        i += 1;
    }
    r
}


/// Whether `d` is the last id of one of the frontiers below the top.
fn is_parent(stack: &Vec<Vec<usize>>, d: usize) -> (r: bool)
    requires
        forall|k: int| 0 <= k < stack.len() - 1 ==> (#[trigger] stack@[k]@).len() > 0,
    ensures
        r == parents(nested_view(stack)).contains(d),
{
    let ghost par = parents(nested_view(stack));
    if stack.len() == 0 {
        return false;
    }
    let mut k: usize = 0;
    while k + 1 < stack.len()
        invariant
            k < stack.len(),
            par == parents(nested_view(stack)),
            forall|j: int| 0 <= j < k ==> par[j] != d,
            forall|k: int| 0 <= k < stack.len() - 1 ==> (#[trigger] stack@[k]@).len() > 0,
        decreases stack.len() - k,
    {
        let f = &stack[k];
        if f[f.len() - 1] == d {
            proof {
                assert(par[k as int] == d);
            }
            return true;
        }
        k += 1;
    }
    proof {
        assert forall|x: usize| par.contains(x) implies x != d by {
            let j = choose|j: int| 0 <= j < par.len() && par[j] == x;
        }
    }
    false
}

/// The pending dependencies `ds` of `e`; `done` marks the emitted entries.
fn pending_ids(
    ds: &Vec<usize>,
    e: usize,
    done: &Vec<bool>,
    stack: &Vec<Vec<usize>>,
    Ghost(out): Ghost<Seq<usize>>,
) -> (r: Vec<usize>)
    requires
        ids_below(ds@, done.len() as int),
        forall|x: int| 0 <= x < done.len() ==> done@[x] == out.contains(x as usize),
        forall|k: int| 0 <= k < stack.len() - 1 ==> (#[trigger] stack@[k]@).len() > 0,
    ensures
        r@ == pending(ds@, e, out, parents(nested_view(stack))),
{
    let ghost par = parents(nested_view(stack));
    let mut r: Vec<usize> = Vec::new();
    let mut i: usize = 0;
    while i < ds.len()
        invariant
            i <= ds.len(),
            r@ == pending(ds@.subrange(0, i as int), e, out, par),
            par == parents(nested_view(stack)),
            ids_below(ds@, done.len() as int),
            forall|x: int| 0 <= x < done.len() ==> done@[x] == out.contains(x as usize),
            forall|k: int| 0 <= k < stack.len() - 1 ==> (#[trigger] stack@[k]@).len() > 0,
        decreases ds.len() - i,
    {
        let d = ds[i];
        proof {
            assert(ds@[i as int] == d);
            assert(ds@.subrange(0, i + 1).drop_last() =~= ds@.subrange(0, i as int));
            assert(done@[d as int] == out.contains(d));
        }
        if !done[d] && d != e && !is_parent(stack, d) {
            r.push(d);
        }
        i += 1;
    }
    proof {
        assert(ds@.subrange(0, ds.len() as int) =~= ds@);
    }
    r
}

/// Selects at most `cap` entries: the highest-priority entries whose priority
/// reaches `threshold`, each preceded by the dependencies it still needs, as
/// the walk described by [`step`] emits them.
///
/// On a dependency cycle the walk does not wait for an entry that is itself, or
/// one of its ancestors, under expansion: cycle members are emitted without
/// that dependency before them. Every dependency precedes its entry only when
/// the graph has no cycle, which is what the `ensures` states.
pub fn select(prio: &Vec<u64>, deps: &Vec<Vec<usize>>, cap: usize, threshold: u64) -> (r: Vec<
    usize,
>)
    requires
        graph_ok(prio@, nested_view(deps)),
    ensures
        r@ == selection(prio@, nested_view(deps), cap as nat, threshold),
        r@.len() <= cap,
        r@.no_duplicates(),
        ids_below(r@, deps@.len() as int),
        acyclic(nested_view(deps)) ==> dependency_closed(nested_view(deps), r@),
        forall|i: int|
            0 <= i < r@.len() ==> from_seeds(
                nested_view(deps),
                seeds(prio@, cap as nat, threshold),
                #[trigger] r@[i],
            ),
{
    let ghost g = nested_view(deps);
    let ghost pr = prio@;
    let ghost capn = cap as nat;
    let ghost init = initial_walk(pr, capn, threshold);
    let n = deps.len();
    let seed = seed_ids(prio, cap, threshold);
    let mut stack: Vec<Vec<usize>> = Vec::new();
    stack.push(seed);
    let mut out: Vec<usize> = Vec::new();
    let mut done: Vec<bool> = Vec::new();
    let mut i: usize = 0;
    while i < n
        invariant
            i <= n,
            done.len() == i,
            forall|x: int| 0 <= x < i ==> !done@[x],
        decreases n - i,
    {
        done.push(false);
        i += 1;
    }
    let ghost mut fuel: nat = 0;
    proof {
        assert(nested_view(&stack) =~= init.stack);
        assert(init.out =~= out@);
        let sd = seeds(pr, capn, threshold);
        let el = eligible(pr, threshold, pr.len());
        assert forall|j: int| 0 <= j < sd.len() implies sd[j] < n by {
            let srt = sort_by_priority(pr, el);
            lemma_sort_contains(pr, el, sd[j]);
            assert(srt.contains(sd[j]));
            lemma_eligible(pr, threshold, pr.len());
        }
        assert(parents(init.stack) =~= Seq::<usize>::empty());
        assert(walk_inv(g, init));
    }
    while stack.len() > 0 && out.len() < cap
        invariant
            n == g.len(),
            capn == cap as nat,
            init == initial_walk(pr, capn, threshold),
            g == nested_view(deps),
            pr == prio@,
            graph_ok(pr, g),
            done.len() == n,
            forall|x: int| 0 <= x < n ==> done@[x] == out@.contains(x as usize),
            walk_inv(g, Walk { stack: nested_view(&stack), out: out@ }),
            run(pr, g, capn, init, fuel) == (Walk { stack: nested_view(&stack), out: out@ }),
        decreases
            (if stack.len() > 0 { 1int } else { 0int }),
            n - out.len(),
            n + 1 - stack.len(),
            top_len(nested_view(&stack)),
    {
        let ghost w = Walk { stack: nested_view(&stack), out: out@ };
        proof {
            assert(w.stack.len() == stack.len());
            assert(!stopped(w, capn));
            lemma_trim(g, w);
            lemma_run_next(pr, g, capn, init, fuel);
        }
        while stack.len() > 0 && stack[stack.len() - 1].len() == 0
            invariant
                trim_exhausted(nested_view(&stack)) == trim_exhausted(w.stack),
            decreases stack.len(),
        {
            let ghost v = nested_view(&stack);
            proof {
                assert(v.last().len() == 0);
                assert(trim_exhausted(v) == trim_exhausted(v.drop_last()));
            }
            stack.pop();
            proof {
                assert(nested_view(&stack) =~= v.drop_last());
            }
        }
        let ghost st = nested_view(&stack);
        proof {
            assert(trim_exhausted(st) == st);
        }
        if stack.len() > 0 {
            proof {
                lemma_step(pr, g, w);
            }
            let last = stack.len() - 1;
            let e = stack[last][stack[last].len() - 1];
            proof {
                assert(st.last().last() == e);
                assert(ids_below(st.last(), n as int));
            }
            if done[e] {
                let mut top = stack.pop().unwrap();
                top.pop();
                stack.push(top);
                proof {
                    assert(nested_view(&stack) =~= st.update(last as int, st.last().drop_last()));
                }
            } else {
                proof {
                    assert forall|k: int| 0 <= k < stack.len() - 1 implies (#[trigger] stack@[k]@).len() > 0 by {
                        assert(st[k] == stack@[k]@);
                    }
                }
                let p = pending_ids(&deps[e], e, &done, &stack, Ghost(out@));
                proof {
                    assert(deps@[e as int]@ == g[e as int]);
                    assert(ids_below(g[e as int], n as int));
                }
                if p.len() == 0 {
                    let mut top = stack.pop().unwrap();
                    top.pop();
                    stack.push(top);
                    out.push(e);
                    done.set(e, true);
                    proof {
                        assert(nested_view(&stack) =~= st.update(last as int, st.last().drop_last()));
                        assert forall|x: int| 0 <= x < n implies done@[x] == out@.contains(x as usize) by {
                            lemma_seq_contains_after_push(w.out, e, x as usize);
                        }
                    }
                } else {
                    proof {
                        assert forall|j: int| 0 <= j < p@.len() implies p@[j] < prio.len() by {
                            lemma_pending_contains(g[e as int], e, out@, parents(st), p@[j]);
                            assert(p@.contains(p@[j]));
                        }
                    }
                    let f = sort_ids_by_priority(prio, &p);
                    stack.push(f);
                    proof {
                        assert(nested_view(&stack) =~= st.push(f@));
                    }
                }
            }
        } else {
            proof {
                assert(parents(st) =~= Seq::<usize>::empty());
            }
        }
        proof {
            fuel = fuel + 1;
        }
    }
    proof {
        let w = Walk { stack: nested_view(&stack), out: out@ };
        assert(w.stack.len() == stack.len());
        assert(stopped(run(pr, g, capn, init, fuel), capn));
        assert(halts_within(pr, g, capn, threshold, fuel));
        let f = choose|f: nat| halts_within(pr, g, capn, threshold, f);
        lemma_run_stopped(pr, g, capn, init, fuel, f);
        lemma_selection_cap_threshold(pr, g, capn, threshold);
        lemma_selection_from_seeds(pr, g, capn, threshold);
        if acyclic(g) {
            lemma_selection_dependency_closed(pr, g, capn, threshold);
        }
    }
    out
}

} // verus!
