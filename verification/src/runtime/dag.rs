//! The dependency graph of the registered services and its topological order.
use vstd::prelude::*;
use std::collections::VecDeque;

use crate::service::{names_match, ServiceName, ServiceSpec};
use crate::util::{
    dedup_first, lemma_dedup_first_no_duplicates, lemma_dedup_first_push,
    lemma_dedup_first_same_elements,
};

verus! {

/// Errors of the dependency graph.
#[derive(Debug)]
pub enum DagError {
    /// A service names a dependency that no registered service has.
    UnknownDependency { service: ServiceName, dep: ServiceName },
    /// Some services can never start because their dependencies form a cycle
    /// (or wait on one); the names of those services, each once.
    Cycle(Vec<ServiceName>),
}

// ---------------------------------------------------------------------------
// The graph that a list of specs describes.
// ---------------------------------------------------------------------------

/// Index of the last of the first `n` specs whose name is `name`, if any.
pub open spec fn resolve_upto<F>(specs: Seq<ServiceSpec<F>>, name: Seq<char>, n: int) -> Option<usize>
    decreases n,
{
    if n <= 0 {
        None
    } else if specs[n - 1].name@ == name {
        Some((n - 1) as usize)
    } else {
        resolve_upto(specs, name, n - 1)
    }
}

/// The service a name refers to: the last registered one of that name.
pub open spec fn resolve<F>(specs: Seq<ServiceSpec<F>>, name: Seq<char>) -> Option<usize> {
    resolve_upto(specs, name, specs.len() as int)
}

/// The service that the `k`-th dependency of service `v` refers to.
pub open spec fn dep_target<F>(specs: Seq<ServiceSpec<F>>, v: int, k: int) -> Option<usize> {
    resolve(specs, specs[v].deps@[k]@)
}

/// Every dependency of every service names a registered service.
pub open spec fn all_deps_known<F>(specs: Seq<ServiceSpec<F>>) -> bool {
    forall|v: int, k: int|
        0 <= v < specs.len() && 0 <= k < specs[v].deps@.len() ==> (#[trigger] dep_target(
            specs,
            v,
            k,
        )) is Some
}

/// The `k`-th dependency of service `v` is the first unknown one, in the
/// order in which the services and their dependencies are listed.
pub open spec fn first_unknown<F>(specs: Seq<ServiceSpec<F>>, v: int, k: int) -> bool {
    &&& 0 <= v < specs.len()
    &&& 0 <= k < specs[v].deps@.len()
    &&& dep_target(specs, v, k) is None
    &&& forall|v2: int, k2: int|
        0 <= v2 < v && 0 <= k2 < specs[v2].deps@.len() ==> (#[trigger] dep_target(
            specs,
            v2,
            k2,
        )) is Some
    &&& forall|k2: int| 0 <= k2 < k ==> (#[trigger] dep_target(specs, v, k2)) is Some
}

/// Every dependency of the service at position `p` of `s` refers to a service
/// placed earlier in `s`.
pub open spec fn deps_met_at<F>(specs: Seq<ServiceSpec<F>>, s: Seq<usize>, p: int) -> bool {
    forall|k: int|
        0 <= k < specs[s[p] as int].deps@.len() ==> {
            &&& (#[trigger] dep_target(specs, s[p] as int, k)) is Some
            &&& s.take(p).contains(dep_target(specs, s[p] as int, k)->0)
        }
}

/// `s` lists services so that each one comes after all its dependencies.
pub open spec fn is_schedule<F>(specs: Seq<ServiceSpec<F>>, s: Seq<usize>) -> bool {
    forall|p: int| 0 <= p < s.len() ==> s[p] < specs.len() && #[trigger] deps_met_at(specs, s, p)
}

/// Service `v` can be started: some schedule reaches it.
pub open spec fn schedulable<F>(specs: Seq<ServiceSpec<F>>, v: usize) -> bool {
    exists|s: Seq<usize>| #[trigger] is_schedule(specs, s) && s.contains(v)
}

/// Every registered service can be started.
pub open spec fn all_schedulable<F>(specs: Seq<ServiceSpec<F>>) -> bool {
    forall|v: usize| v < specs.len() ==> #[trigger] schedulable(specs, v)
}

/// `order` is a topological order: every service exactly once, each after
/// all of its dependencies.
pub open spec fn is_topo_order<F>(specs: Seq<ServiceSpec<F>>, order: Seq<usize>) -> bool {
    &&& order.len() == specs.len()
    &&& order.no_duplicates()
    &&& forall|v: usize| v < specs.len() ==> #[trigger] order.contains(v)
    &&& is_schedule(specs, order)
}

/// Position of `x` in `s`, for a sequence without repeats that holds `x`.
pub open spec fn pos_in(s: Seq<usize>, x: usize) -> int {
    choose|p: int| 0 <= p < s.len() && s[p] == x
}

/// The latest position in `s` of the services that the first `k`
/// dependencies of service `v` refer to; -1 when `k` is 0.
pub open spec fn last_dep_pos_upto<F>(specs: Seq<ServiceSpec<F>>, s: Seq<usize>, v: int, k: int) -> int
    decreases k,
{
    if k <= 0 {
        -1
    } else {
        let rest = last_dep_pos_upto(specs, s, v, k - 1);
        let p = pos_in(s, dep_target(specs, v, k - 1)->0);
        if p > rest {
            p
        } else {
            rest
        }
    }
}

/// The position in `s` of the last of service `v`'s dependencies to start;
/// -1 when it has none.
pub open spec fn last_dep_pos<F>(specs: Seq<ServiceSpec<F>>, s: Seq<usize>, v: int) -> int {
    last_dep_pos_upto(specs, s, v, specs[v].deps@.len() as int)
}

/// In `s`, service `a` becomes ready before service `b`: its last dependency
/// started earlier, or at the same point and `a` is registered first.
pub open spec fn ready_before<F>(specs: Seq<ServiceSpec<F>>, s: Seq<usize>, a: usize, b: usize) -> bool {
    let pa = last_dep_pos(specs, s, a as int);
    let pb = last_dep_pos(specs, s, b as int);
    pa < pb || (pa == pb && a < b)
}

/// `p` lists services in the order in which they become ready, judged by the
/// positions of their dependencies in `s`.
pub open spec fn sorted_ready<F>(specs: Seq<ServiceSpec<F>>, s: Seq<usize>, p: Seq<usize>) -> bool {
    forall|a: int, b: int|
        #![trigger p[a], p[b]]
        0 <= a < b < p.len() ==> ready_before(specs, s, p[a], p[b])
}

/// `s` starts each service as soon as the last of its dependencies has
/// started, and services that become ready together in registration order:
/// the order of Kahn's algorithm with a first-in first-out queue.
pub open spec fn in_ready_order<F>(specs: Seq<ServiceSpec<F>>, s: Seq<usize>) -> bool {
    sorted_ready(specs, s, s)
}

/// The first `k` dependencies of service `v` refer to services in `s`.
pub open spec fn deps_in<F>(specs: Seq<ServiceSpec<F>>, s: Seq<usize>, v: int, k: int) -> bool {
    forall|k0: int|
        0 <= k0 < k ==> (#[trigger] dep_target(specs, v, k0)) is Some && s.contains(
            dep_target(specs, v, k0)->0,
        )
}

/// Every dependency of service `v` refers to a service in `s`.
pub open spec fn deps_all_in<F>(specs: Seq<ServiceSpec<F>>, s: Seq<usize>, v: int) -> bool {
    deps_in(specs, s, v, specs[v].deps@.len() as int)
}

/// The entries of `s` never decrease.
spec fn nondecreasing(s: Seq<usize>) -> bool {
    forall|a: int, b: int| #![trigger s[a], s[b]] 0 <= a < b < s.len() ==> s[a] <= s[b]
}

/// No entry of `s` exceeds `bound`.
spec fn all_at_most(s: Seq<usize>, bound: int) -> bool {
    forall|t: int| 0 <= t < s.len() ==> #[trigger] s[t] <= bound
}

/// The names of the services among the first `n` that can never start, in
/// index order (with repeats where names repeat).
pub open spec fn stuck_names_upto<F>(specs: Seq<ServiceSpec<F>>, n: int) -> Seq<Seq<char>>
    decreases n,
{
    if n <= 0 {
        Seq::empty()
    } else {
        let rest = stuck_names_upto(specs, n - 1);
        if schedulable(specs, (n - 1) as usize) {
            rest
        } else {
            rest.push(specs[n - 1].name@)
        }
    }
}

/// The names of all services that can never start, in index order.
pub open spec fn stuck_names<F>(specs: Seq<ServiceSpec<F>>) -> Seq<Seq<char>> {
    stuck_names_upto(specs, specs.len() as int)
}

/// A service that can never start has its name among the stuck names.
proof fn lemma_stuck_names_contains<F>(specs: Seq<ServiceSpec<F>>, w: usize, n: int)
    requires
        0 <= w < n,
        !schedulable(specs, w),
    ensures
        stuck_names_upto(specs, n).contains(specs[w as int].name@),
    decreases n,
{
    if w == n - 1 {
        let rest = stuck_names_upto(specs, n - 1);
        assert(stuck_names_upto(specs, n)[rest.len() as int] == specs[w as int].name@);
    } else {
        lemma_stuck_names_contains(specs, w, n - 1);
        let rest = stuck_names_upto(specs, n - 1);
        let t = choose|t: int| 0 <= t < rest.len() && rest[t] == specs[w as int].name@;
        assert(stuck_names_upto(specs, n)[t] == rest[t]);
    }
}

/// The views of a list of names.
pub open spec fn name_views(names: Seq<ServiceName>) -> Seq<Seq<char>> {
    names.map_values(|n: ServiceName| n@)
}

// ---------------------------------------------------------------------------
// Counting, for the in-degrees of Kahn's algorithm.
// ---------------------------------------------------------------------------

/// How often `x` occurs in `s`.
pub open spec fn count_of(s: Seq<usize>, x: usize) -> nat
    decreases s.len(),
{
    if s.len() == 0 {
        0
    } else {
        count_of(s.drop_last(), x) + if s.last() == x {
            1nat
        } else {
            0nat
        }
    }
}

/// How many entries of `s` are not in `done`.
pub open spec fn count_missing(s: Seq<usize>, done: Seq<usize>) -> nat
    decreases s.len(),
{
    if s.len() == 0 {
        0
    } else {
        count_missing(s.drop_last(), done) + if done.contains(s.last()) {
            0nat
        } else {
            1nat
        }
    }
}

proof fn lemma_count_of_take_step(s: Seq<usize>, j: int, x: usize)
    requires
        0 <= j < s.len(),
    ensures
        count_of(s.take(j + 1), x) == count_of(s.take(j), x) + if s[j] == x {
            1nat
        } else {
            0nat
        },
{
    assert(s.take(j + 1).drop_last() =~= s.take(j));
}

proof fn lemma_count_of_take_le(s: Seq<usize>, j: int, x: usize)
    requires
        0 <= j <= s.len(),
    ensures
        count_of(s.take(j), x) <= count_of(s, x),
    decreases s.len() - j,
{
    if j == s.len() {
        assert(s.take(j) =~= s);
    } else {
        lemma_count_of_take_step(s, j, x);
        lemma_count_of_take_le(s, j + 1, x);
    }
}

proof fn lemma_count_of_push(s: Seq<usize>, y: usize, x: usize)
    ensures
        count_of(s.push(y), x) == count_of(s, x) + if y == x {
            1nat
        } else {
            0nat
        },
{
    assert(s.push(y).drop_last() =~= s);
}

proof fn lemma_count_missing_none_done(s: Seq<usize>)
    ensures
        count_missing(s, Seq::empty()) == s.len(),
    decreases s.len(),
{
    if s.len() > 0 {
        lemma_count_missing_none_done(s.drop_last());
    }
}

proof fn lemma_count_missing_zero(s: Seq<usize>, done: Seq<usize>)
    ensures
        count_missing(s, done) == 0 <==> forall|k: int| 0 <= k < s.len() ==> done.contains(
            #[trigger] s[k],
        ),
    decreases s.len(),
{
    if s.len() > 0 {
        let init = s.drop_last();
        lemma_count_missing_zero(init, done);
        if count_missing(s, done) == 0 {
            assert forall|k: int| 0 <= k < s.len() implies done.contains(#[trigger] s[k]) by {
                if k < s.len() - 1 {
                    assert(s[k] == init[k]);
                }
            }
        }
        if forall|k: int| 0 <= k < s.len() ==> done.contains(#[trigger] s[k]) {
            assert forall|k: int| 0 <= k < init.len() implies done.contains(#[trigger] init[k]) by {
                assert(init[k] == s[k]);
            }
            assert(done.contains(s[s.len() - 1]));
        }
    }
}

proof fn lemma_count_missing_push(s: Seq<usize>, done: Seq<usize>, x: usize)
    requires
        !done.contains(x),
    ensures
        count_missing(s, done.push(x)) + count_of(s, x) == count_missing(s, done),
    decreases s.len(),
{
    if s.len() > 0 {
        lemma_count_missing_push(s.drop_last(), done, x);
        let y = s.last();
        if y == x {
            assert(done.push(x)[done.len() as int] == x);
        } else {
            assert(done.push(x).contains(y) ==> done.contains(y)) by {
                if done.push(x).contains(y) {
                    let t = choose|t: int| 0 <= t < done.push(x).len() && done.push(x)[t] == y;
                    assert(t < done.len());
                    assert(done[t] == y);
                }
            }
            assert(done.contains(y) ==> done.push(x).contains(y)) by {
                if done.contains(y) {
                    let t = choose|t: int| 0 <= t < done.len() && done[t] == y;
                    assert(done.push(x)[t] == y);
                }
            }
        }
    }
}

// ---------------------------------------------------------------------------
// Facts about distinct indices below a bound.
// ---------------------------------------------------------------------------

spec fn below(n: nat) -> Set<usize> {
    Set::new(|x: usize| x < n)
}

proof fn lemma_below_len(n: nat)
    requires
        n <= usize::MAX + 1,
    ensures
        below(n).finite(),
        below(n).len() == n,
    decreases n,
{
    if n == 0 {
        assert(below(0) =~= Set::<usize>::empty());
    } else {
        lemma_below_len((n - 1) as nat);
        assert(below(n) =~= below((n - 1) as nat).insert((n - 1) as usize));
    }
}

/// Distinct indices below `n` number at most `n`, and exactly `n` only when
/// every index below `n` occurs.
proof fn lemma_distinct_below(s: Seq<usize>, n: nat)
    requires
        n <= usize::MAX + 1,
        s.no_duplicates(),
        forall|t: int| 0 <= t < s.len() ==> #[trigger] s[t] < n,
    ensures
        s.len() <= n,
        s.len() == n <==> forall|v: usize| v < n ==> #[trigger] s.contains(v),
{
    lemma_below_len(n);
    s.unique_seq_to_set();
    assert(s.to_set().subset_of(below(n))) by {
        assert forall|x: usize| s.to_set().contains(x) implies below(n).contains(x) by {
            let t = choose|t: int| 0 <= t < s.len() && s[t] == x;
        }
    }
    vstd::set_lib::lemma_len_subset(s.to_set(), below(n));
    if s.len() == n {
        vstd::set_lib::lemma_subset_equality(s.to_set(), below(n));
        assert forall|v: usize| v < n implies #[trigger] s.contains(v) by {
            assert(below(n).contains(v));
            assert(s.to_set().contains(v));
        }
    }
    if forall|v: usize| v < n ==> #[trigger] s.contains(v) {
        assert(below(n).subset_of(s.to_set())) by {
            assert forall|x: usize| below(n).contains(x) implies s.to_set().contains(x) by {
                assert(s.contains(x));
            }
        }
        vstd::set_lib::lemma_len_subset(below(n), s.to_set());
    }
}

// ---------------------------------------------------------------------------
// Facts about schedules.
// ---------------------------------------------------------------------------

proof fn lemma_resolve_upto_bound<F>(specs: Seq<ServiceSpec<F>>, name: Seq<char>, n: int)
    requires
        n <= specs.len(),
        specs.len() <= usize::MAX,
    ensures
        resolve_upto(specs, name, n) matches Some(i) ==> i < n && specs[i as int].name@ == name,
        resolve_upto(specs, name, n) is None ==> forall|i: int|
            0 <= i < n ==> #[trigger] specs[i].name@ != name,
    decreases n,
{
    if n > 0 {
        lemma_resolve_upto_bound(specs, name, n - 1);
    }
}

/// A service whose dependency is unknown appears in no schedule, so no
/// topological order exists.
proof fn lemma_unknown_blocks_order<F>(specs: Seq<ServiceSpec<F>>, v: int, k: int)
    requires
        specs.len() <= usize::MAX,
        0 <= v < specs.len(),
        0 <= k < specs[v].deps@.len(),
        dep_target(specs, v, k) is None,
    ensures
        forall|o: Seq<usize>| !is_topo_order(specs, o),
{
    assert forall|o: Seq<usize>| !is_topo_order(specs, o) by {
        if is_topo_order(specs, o) {
            assert(o.contains(v as usize));
            let p = choose|p: int| 0 <= p < o.len() && o[p] == v as usize;
            assert(deps_met_at(specs, o, p));
            assert(dep_target(specs, o[p] as int, k) is Some);
        }
    }
}

/// If every service outside `done` waits on a dependency outside `done`, then
/// a schedule only ever holds services in `done`.
proof fn lemma_schedule_stays_in<F>(specs: Seq<ServiceSpec<F>>, done: Seq<usize>, s: Seq<usize>, p: int)
    requires
        is_schedule(specs, s),
        0 <= p <= s.len(),
        forall|v: usize|
            v < specs.len() && !done.contains(v) ==> exists|k: int|
                0 <= k < specs[v as int].deps@.len() && !(#[trigger] dep_target(
                    specs,
                    v as int,
                    k,
                ) matches Some(d) && done.contains(d)),
    ensures
        forall|q: int| 0 <= q < p ==> done.contains(#[trigger] s[q]),
    decreases p,
{
    if p > 0 {
        lemma_schedule_stays_in(specs, done, s, p - 1);
        let last = p - 1;
        if !done.contains(s[last]) {
            let v = s[last];
            assert(deps_met_at(specs, s, last));
            assert(v < specs.len());
            let k = choose|k: int|
                0 <= k < specs[v as int].deps@.len() && !(#[trigger] dep_target(
                    specs,
                    v as int,
                    k,
                ) matches Some(d) && done.contains(d));
            assert(deps_met_at(specs, s, last));
            let d = dep_target(specs, v as int, k)->0;
            assert(s.take(last).contains(d));
            let q = choose|q: int| 0 <= q < s.take(last).len() && s.take(last)[q] == d;
            assert(s[q] == d);
            assert(done.contains(s[q]));
        }
    }
}

proof fn lemma_pos_in(s: Seq<usize>, p: int)
    requires
        s.no_duplicates(),
        0 <= p < s.len(),
    ensures
        pos_in(s, s[p]) == p,
{
    assert(s.contains(s[p]));
    let q = pos_in(s, s[p]);
    assert(0 <= q < s.len() && s[q] == s[p]);
}

proof fn lemma_pos_in_prefix(s: Seq<usize>, n: int, x: usize)
    requires
        s.no_duplicates(),
        0 <= n <= s.len(),
        s.take(n).contains(x),
    ensures
        pos_in(s, x) == pos_in(s.take(n), x),
        0 <= pos_in(s, x) < n,
{
    let t = choose|t: int| 0 <= t < s.take(n).len() && s.take(n)[t] == x;
    assert(s.take(n).no_duplicates());
    lemma_pos_in(s.take(n), t);
    lemma_pos_in(s, t);
}

/// When the dependencies lie in the first `n` entries of `s`, the latest of
/// their positions is the same in `s` as in that prefix, and below `n`.
proof fn lemma_last_dep_pos_prefix<F>(specs: Seq<ServiceSpec<F>>, s: Seq<usize>, v: int, k: int, n: int)
    requires
        s.no_duplicates(),
        0 <= n <= s.len(),
        deps_in(specs, s.take(n), v, k),
    ensures
        last_dep_pos_upto(specs, s, v, k) == last_dep_pos_upto(specs, s.take(n), v, k),
        -1 <= last_dep_pos_upto(specs, s, v, k) < n,
    decreases k,
{
    if k > 0 {
        assert(deps_in(specs, s.take(n), v, k - 1)) by {
            assert forall|k0: int| 0 <= k0 < k - 1 implies (#[trigger] dep_target(specs, v, k0)) is Some
                && s.take(n).contains(dep_target(specs, v, k0)->0) by {
                assert(0 <= k0 < k);
            }
        }
        lemma_last_dep_pos_prefix(specs, s, v, k - 1, n);
        assert(dep_target(specs, v, k - 1) is Some && s.take(n).contains(
            dep_target(specs, v, k - 1)->0,
        ));
        lemma_pos_in_prefix(s, n, dep_target(specs, v, k - 1)->0);
    }
}

proof fn lemma_last_dep_pos_at_least<F>(specs: Seq<ServiceSpec<F>>, s: Seq<usize>, v: int, k: int, k0: int)
    requires
        0 <= k0 < k,
    ensures
        last_dep_pos_upto(specs, s, v, k) >= pos_in(s, dep_target(specs, v, k0)->0),
    decreases k,
{
    if k0 < k - 1 {
        lemma_last_dep_pos_at_least(specs, s, v, k - 1, k0);
    }
}

proof fn lemma_count_of_positive(s: Seq<usize>, x: usize)
    requires
        count_of(s, x) > 0,
    ensures
        exists|k: int| 0 <= k < s.len() && s[k] == x,
    decreases s.len(),
{
    if s.last() != x {
        lemma_count_of_positive(s.drop_last(), x);
        let k = choose|k: int| 0 <= k < s.drop_last().len() && s.drop_last()[k] == x;
        assert(s[k] == x);
    } else {
        assert(s[s.len() - 1] == x);
    }
}

/// Judging readiness by `s` instead of by a prefix of it holding every
/// dependency involved changes nothing.
proof fn lemma_sorted_ready_transfer<F>(specs: Seq<ServiceSpec<F>>, s: Seq<usize>, n: int, p: Seq<usize>)
    requires
        s.no_duplicates(),
        0 <= n <= s.len(),
        forall|x: int| 0 <= x < p.len() ==> deps_all_in(specs, s.take(n), #[trigger] p[x] as int),
        sorted_ready(specs, s.take(n), p),
    ensures
        sorted_ready(specs, s, p),
{
    assert forall|a: int, b: int| #![trigger p[a], p[b]] 0 <= a < b < p.len() implies ready_before(
        specs,
        s,
        p[a],
        p[b],
    ) by {
        assert(deps_all_in(specs, s.take(n), p[a] as int));
        assert(deps_all_in(specs, s.take(n), p[b] as int));
        lemma_last_dep_pos_prefix(specs, s, p[a] as int, specs[p[a] as int].deps@.len() as int, n);
        lemma_last_dep_pos_prefix(specs, s, p[b] as int, specs[p[b] as int].deps@.len() as int, n);
        assert(ready_before(specs, s.take(n), p[a], p[b]));
    }
}

proof fn lemma_sorted_ready_push<F>(specs: Seq<ServiceSpec<F>>, s: Seq<usize>, p: Seq<usize>, m: usize)
    requires
        sorted_ready(specs, s, p),
        forall|a: int| 0 <= a < p.len() ==> ready_before(specs, s, #[trigger] p[a], m),
    ensures
        sorted_ready(specs, s, p.push(m)),
{
    let pm = p.push(m);
    assert forall|a: int, b: int| #![trigger pm[a], pm[b]] 0 <= a < b < pm.len() implies ready_before(
        specs,
        s,
        pm[a],
        pm[b],
    ) by {
        assert(pm[a] == p[a]);
        if b < p.len() {
            assert(pm[b] == p[b]);
        } else {
            assert(pm[b] == m);
        }
    }
}

/// What a prefix holds, the whole sequence holds.
proof fn lemma_deps_in_grow<F>(specs: Seq<ServiceSpec<F>>, s: Seq<usize>, t: Seq<usize>, v: int)
    requires
        deps_all_in(specs, s, v),
        forall|y: usize| s.contains(y) ==> #[trigger] t.contains(y),
    ensures
        deps_all_in(specs, t, v),
{
    assert forall|k0: int| 0 <= k0 < specs[v].deps@.len() implies (#[trigger] dep_target(specs, v, k0)) is Some
        && t.contains(dep_target(specs, v, k0)->0) by {
        assert(s.contains(dep_target(specs, v, k0)->0));
    }
}

/// Two topological orders that both start services in the order in which
/// they become ready are the same order: the ready order is unique.
pub proof fn lemma_ready_order_unique<F>(specs: Seq<ServiceSpec<F>>, o1: Seq<usize>, o2: Seq<usize>)
    requires
        specs.len() <= usize::MAX,
        is_topo_order(specs, o1),
        is_topo_order(specs, o2),
        in_ready_order(specs, o1),
        in_ready_order(specs, o2),
    ensures
        o1 == o2,
{
    lemma_ready_order_prefix(specs, o1, o2, o1.len() as int);
    assert(o1.take(o1.len() as int) =~= o1);
    assert(o2.take(o2.len() as int) =~= o2);
}

proof fn lemma_ready_order_prefix<F>(specs: Seq<ServiceSpec<F>>, o1: Seq<usize>, o2: Seq<usize>, p: int)
    requires
        specs.len() <= usize::MAX,
        is_topo_order(specs, o1),
        is_topo_order(specs, o2),
        in_ready_order(specs, o1),
        in_ready_order(specs, o2),
        0 <= p <= o1.len(),
    ensures
        o1.take(p) == o2.take(p),
    decreases p,
{
    if p > 0 {
        let m = p - 1;
        lemma_ready_order_prefix(specs, o1, o2, m);
        let a = o1[m];
        let b = o2[m];
        if a != b {
            // `b` comes later in `o1`, `a` later in `o2`.
            assert(deps_met_at(specs, o1, m));
            assert(deps_met_at(specs, o2, m));
            assert(o1.contains(b));
            let qb = choose|t: int| 0 <= t < o1.len() && o1[t] == b;
            assert(o2.contains(a));
            let qa = choose|t: int| 0 <= t < o2.len() && o2[t] == a;
            if qb < m {
                assert(o1.take(m)[qb] == b);
                assert(o2.take(m)[qb] == b);
                assert(o2[qb] == o2[m]);
            }
            if qa < m {
                assert(o2.take(m)[qa] == a);
                assert(o1.take(m)[qa] == a);
                assert(o1[qa] == o1[m]);
            }
            assert(qb > m);
            assert(qa > m);
            // Both dependencies sets lie in the common prefix.
            assert(deps_met_at(specs, o1, m));
            assert(deps_met_at(specs, o2, m));
            let ka = specs[a as int].deps@.len() as int;
            let kb = specs[b as int].deps@.len() as int;
            assert(deps_in(specs, o1.take(m), a as int, ka)) by {
                assert forall|k0: int| 0 <= k0 < ka implies (#[trigger] dep_target(
                    specs,
                    a as int,
                    k0,
                )) is Some && o1.take(m).contains(dep_target(specs, a as int, k0)->0) by {
                    assert(dep_target(specs, o1[m] as int, k0) is Some);
                }
            }
            assert(deps_in(specs, o2.take(m), b as int, kb)) by {
                assert forall|k0: int| 0 <= k0 < kb implies (#[trigger] dep_target(
                    specs,
                    b as int,
                    k0,
                )) is Some && o2.take(m).contains(dep_target(specs, b as int, k0)->0) by {
                    assert(dep_target(specs, o2[m] as int, k0) is Some);
                }
            }
            lemma_last_dep_pos_prefix(specs, o1, a as int, ka, m);
            lemma_last_dep_pos_prefix(specs, o2, a as int, ka, m);
            lemma_last_dep_pos_prefix(specs, o1, b as int, kb, m);
            lemma_last_dep_pos_prefix(specs, o2, b as int, kb, m);
            assert(ready_before(specs, o1, o1[m], o1[qb]));
            assert(ready_before(specs, o2, o2[m], o2[qa]));
        }
        assert(o1.take(p) =~= o2.take(p)) by {
            assert forall|t: int| 0 <= t < p implies o1.take(p)[t] == o2.take(p)[t] by {
                if t < m {
                    assert(o1.take(m)[t] == o2.take(m)[t]);
                }
            }
        }
    }
}

/// A topological order exists exactly when every dependency is known and
/// every service can be scheduled.
pub proof fn lemma_topo_order_needs_all_schedulable<F>(specs: Seq<ServiceSpec<F>>, o: Seq<usize>)
    requires
        specs.len() <= usize::MAX,
        is_topo_order(specs, o),
    ensures
        all_deps_known(specs),
        all_schedulable(specs),
{
    assert forall|v: usize| v < specs.len() implies #[trigger] schedulable(specs, v) by {
        assert(o.contains(v));
    }
    assert forall|v: int, k: int|
        0 <= v < specs.len() && 0 <= k < specs[v].deps@.len() implies (#[trigger] dep_target(
        specs,
        v,
        k,
    )) is Some by {
        assert(o.contains(v as usize));
        let p = choose|p: int| 0 <= p < o.len() && o[p] == v as usize;
        assert(deps_met_at(specs, o, p));
        assert(dep_target(specs, o[p] as int, k) is Some);
    }
}

/// Service `v` has been placed or is ready to be placed.
spec fn pending(out: Seq<usize>, q: Seq<usize>, v: usize) -> bool {
    out.contains(v) || q.contains(v)
}

// ---------------------------------------------------------------------------
// Executable code.
// ---------------------------------------------------------------------------

/// The service that `name` refers to: the last registered one of that name.
fn resolve_name<F>(specs: &[ServiceSpec<F>], name: ServiceName) -> (r: Option<usize>)
    ensures
        r == resolve(specs@, name@),
{
    let mut n = specs.len();
    while n > 0
        invariant
            n <= specs@.len(),
            resolve(specs@, name@) == resolve_upto(specs@, name@, n as int),
        decreases n,
    {
        if names_match(specs[n - 1].name, name) {
            return Some(n - 1);
        }
        n = n - 1;
    }
    None
}

/// Keeps the first occurrence of each name, in order.
fn dedup_names(v: Vec<ServiceName>) -> (out: Vec<ServiceName>)
    ensures
        name_views(out@) == dedup_first(name_views(v@)),
{
    let mut out: Vec<ServiceName> = Vec::new();
    let mut i: usize = 0;
    proof {
        assert(name_views(v@).take(0) =~= Seq::<Seq<char>>::empty());
        assert(dedup_first(Seq::<Seq<char>>::empty()) =~= Seq::<Seq<char>>::empty()) by {
            reveal_with_fuel(Seq::remove_duplicates, 1);
        }
    }
    while i < v.len()
        invariant
            i <= v.len(),
            name_views(out@) == dedup_first(name_views(v@).take(i as int)),
        decreases v.len() - i,
    {
        let x = v[i];
        let mut seen = false;
        let mut j: usize = 0;
        while j < out.len()
            invariant
                j <= out.len(),
                seen <==> exists|k: int| 0 <= k < j && out@[k]@ == x@,
            decreases out.len() - j,
        {
            if names_match(out[j], x) {
                seen = true;
            }
            j = j + 1;
        }
        let ghost prefix = name_views(v@).take(i as int);
        proof {
            assert(name_views(v@).take(i + 1) =~= prefix.push(x@));
            lemma_dedup_first_push(prefix, x@);
            assert(seen <==> name_views(out@).contains(x@)) by {
                if name_views(out@).contains(x@) {
                    let k = choose|k: int|
                        0 <= k < name_views(out@).len() && name_views(out@)[k] == x@;
                    assert(out@[k]@ == x@);
                }
                if seen {
                    let k = choose|k: int| 0 <= k < j && out@[k]@ == x@;
                    assert(name_views(out@)[k] == x@);
                }
            }
        }
        if !seen {
            out.push(x);
            proof {
                assert(name_views(out@) =~= dedup_first(prefix).push(x@));
            }
        }
        i = i + 1;
    }
    proof {
        assert(name_views(v@).take(v.len() as int) =~= name_views(v@));
    }
    out
}

/// Topologically sorts services by their declared dependencies (Kahn's
/// algorithm) and returns the order as indices into `specs`.
///
/// A dependency refers to the last service registered under its name. The
/// first unknown dependency, in listing order, is reported; otherwise the sort
/// succeeds exactly when a topological order exists, and when it does not,
/// the error names (once each, in index order) every service that can never
/// start.
pub fn topo_sort<F>(specs: &[ServiceSpec<F>]) -> (r: Result<Vec<usize>, DagError>)
    ensures
        (r matches Err(DagError::UnknownDependency { .. })) <==> !all_deps_known(specs@),
        r matches Err(DagError::UnknownDependency { service, dep }) ==> exists|v: int, k: int|
            first_unknown(specs@, v, k) && service == specs@[v].name && dep == specs@[v].deps@[k],
        r is Ok <==> all_deps_known(specs@) && all_schedulable(specs@),
        r is Ok <==> exists|o: Seq<usize>| is_topo_order(specs@, o),
        r matches Ok(order) ==> is_topo_order(specs@, order@),
        r matches Ok(order) ==> in_ready_order(specs@, order@),
        r matches Err(DagError::Cycle(names)) ==> name_views(names@) == dedup_first(
            stuck_names(specs@),
        ),
        r matches Err(DagError::Cycle(names)) ==> names@.len() > 0 && name_views(
            names@,
        ).no_duplicates(),
{
    let n = specs.len();
    // Resolve every dependency, reporting the first unknown one.
    let mut targets: Vec<Vec<usize>> = Vec::new();
    let mut i: usize = 0;
    while i < n
        invariant
            n == specs@.len(),
            i <= n,
            targets@.len() == i,
            forall|v: int| 0 <= v < i ==> (#[trigger] targets@[v])@.len() == specs@[v].deps@.len(),
            forall|v: int, k: int|
                0 <= v < i && 0 <= k < specs@[v].deps@.len() ==> dep_target(specs@, v, k) == Some(
                    #[trigger] targets@[v]@[k],
                ),
        decreases n - i,
    {
        let mut row: Vec<usize> = Vec::new();
        let mut k: usize = 0;
        while k < specs[i].deps.len()
            invariant
                n == specs@.len(),
                i < n,
                row@.len() == k,
                k <= specs@[i as int].deps@.len(),
                forall|v: int| 0 <= v < i ==> (#[trigger] targets@[v])@.len() == specs@[v].deps@.len(),
                forall|v: int, k2: int|
                    0 <= v < i && 0 <= k2 < specs@[v].deps@.len() ==> dep_target(specs@, v, k2)
                        == Some(#[trigger] targets@[v]@[k2]),
                forall|k2: int| 0 <= k2 < k ==> dep_target(specs@, i as int, k2) == Some(#[trigger] row@[k2]),
            decreases specs@[i as int].deps@.len() - k,
        {
            let d = specs[i].deps[k];
            match resolve_name(specs, d) {
                None => {
                    proof {
                        assert(first_unknown(specs@, i as int, k as int)) by {
                            assert forall|v2: int, k2: int|
                                0 <= v2 < i && 0 <= k2 < specs@[v2].deps@.len() implies (
                            #[trigger] dep_target(specs@, v2, k2)) is Some by {
                                assert(dep_target(specs@, v2, k2) == Some(targets@[v2]@[k2]));
                            }
                            assert forall|k2: int| 0 <= k2 < k implies (#[trigger] dep_target(
                                specs@,
                                i as int,
                                k2,
                            )) is Some by {
                                assert(dep_target(specs@, i as int, k2) == Some(row@[k2]));
                            }
                        }
                        lemma_unknown_blocks_order(specs@, i as int, k as int);
                    }
                    return Err(DagError::UnknownDependency { service: specs[i].name, dep: d });
                },
                Some(t) => {
                    row.push(t);
                },
            }
            k = k + 1;
        }
        targets.push(row);
        i = i + 1;
    }
    proof {
        assert forall|v: int, k: int|
            0 <= v < specs@.len() && 0 <= k < specs@[v].deps@.len() implies (#[trigger] dep_target(
            specs@,
            v,
            k,
        )) is Some by {
            assert(dep_target(specs@, v, k) == Some(targets@[v]@[k]));
        }
    }
    let ghost g: Seq<Seq<usize>> = targets@.map_values(|row: Vec<usize>| row@);
    proof {
        assert forall|v: int, k: int| 0 <= v < n && 0 <= k < g[v].len() implies #[trigger] g[v][k] < n by {
            assert(dep_target(specs@, v, k) == Some(targets@[v]@[k]));
            lemma_resolve_upto_bound(specs@, specs@[v].deps@[k]@, n as int);
        }
    }
    // In-degrees and reverse edges.
    let mut indegree: Vec<usize> = vec![0usize; n];
    let mut outgoing: Vec<Vec<usize>> = Vec::new();
    let mut i: usize = 0;
    while i < n
        invariant
            i <= n,
            outgoing@.len() == i,
            forall|v: int| 0 <= v < i ==> (#[trigger] outgoing@[v])@.len() == 0,
        decreases n - i,
    {
        outgoing.push(Vec::new());
        i = i + 1;
    }
    let mut i: usize = 0;
    while i < n
        invariant
            n == specs@.len(),
            i <= n,
            targets@.len() == n,
            g == targets@.map_values(|row: Vec<usize>| row@),
            forall|v: int, k: int| 0 <= v < n && 0 <= k < g[v].len() ==> #[trigger] g[v][k] < n,
            indegree@.len() == n,
            outgoing@.len() == n,
            forall|v: int| 0 <= v < n ==> #[trigger] indegree@[v] == if v < i {
                g[v].len()
            } else {
                0
            },
            forall|v: int, m: usize|
                0 <= v < n && m < n ==> #[trigger] count_of(outgoing@[v]@, m) == if m < i {
                    count_of(g[m as int], v as usize)
                } else {
                    0
                },
            forall|v: int, t: int|
                0 <= v < n && 0 <= t < outgoing@[v]@.len() ==> #[trigger] outgoing@[v]@[t] < n,
            forall|v: int| 0 <= v < n ==> nondecreasing(#[trigger] outgoing@[v]@),
            forall|v: int| 0 <= v < n ==> all_at_most(#[trigger] outgoing@[v]@, i - 1),
        decreases n - i,
    {
        let mut k: usize = 0;
        while k < targets[i].len()
            invariant
                n == specs@.len(),
                i < n,
                targets@.len() == n,
                g == targets@.map_values(|row: Vec<usize>| row@),
                forall|v: int, k: int| 0 <= v < n && 0 <= k < g[v].len() ==> #[trigger] g[v][k] < n,
                k <= g[i as int].len(),
                indegree@.len() == n,
                outgoing@.len() == n,
                forall|v: int| 0 <= v < n ==> #[trigger] indegree@[v] == if v < i {
                    g[v].len()
                } else if v == i {
                    k as nat
                } else {
                    0
                },
                forall|v: int, m: usize|
                    0 <= v < n && m < n ==> #[trigger] count_of(outgoing@[v]@, m) == if m < i {
                        count_of(g[m as int], v as usize)
                    } else if m == i {
                        count_of(g[m as int].take(k as int), v as usize)
                    } else {
                        0
                    },
                forall|v: int, t: int|
                    0 <= v < n && 0 <= t < outgoing@[v]@.len() ==> #[trigger] outgoing@[v]@[t] < n,
                forall|v: int| 0 <= v < n ==> nondecreasing(#[trigger] outgoing@[v]@),
                forall|v: int| 0 <= v < n ==> all_at_most(#[trigger] outgoing@[v]@, i as int),
            decreases g[i as int].len() - k,
        {
            let d = targets[i][k];
            assert(g[i as int][k as int] == d);
            indegree[i] = indegree[i] + 1;
            let ghost before = outgoing@;
            outgoing[d].push(i);
            proof {
                assert forall|v: int, m: usize| 0 <= v < n && m < n implies #[trigger] count_of(
                    outgoing@[v]@,
                    m,
                ) == if m < i {
                    count_of(g[m as int], v as usize)
                } else if m == i {
                    count_of(g[m as int].take(k + 1), v as usize)
                } else {
                    0
                } by {
                    if v == d {
                        lemma_count_of_push(before[v]@, i, m);
                    }
                    if m == i {
                        lemma_count_of_take_step(g[i as int], k as int, v as usize);
                    }
                }
                assert forall|v: int| 0 <= v < n implies nondecreasing(#[trigger] outgoing@[v]@)
                    && all_at_most(outgoing@[v]@, i as int) by {
                    if v == d {
                        assert(all_at_most(before[v]@, i as int));
                        assert(outgoing@[v]@ == before[v]@.push(i));
                    }
                }
            }
            k = k + 1;
        }
        proof {
            assert(g[i as int].take(g[i as int].len() as int) =~= g[i as int]);
        }
        i = i + 1;
    }
    // Kahn's algorithm.
    let mut q: VecDeque<usize> = VecDeque::new();
    let mut i: usize = 0;
    while i < n
        invariant
            i <= n,
            indegree@.len() == n,
            q@.no_duplicates(),
            forall|t: int| 0 <= t < q@.len() ==> #[trigger] q@[t] < i,
            forall|v: usize| v < i ==> (#[trigger] q@.contains(v) <==> indegree@[v as int] == 0),
            forall|a: int, b: int| #![trigger q@[a], q@[b]] 0 <= a < b < q@.len() ==> q@[a] < q@[b],
        decreases n - i,
    {
        let ghost before = q@;
        if indegree[i] == 0 {
            q.push_back(i);
        }
        proof {
            assert forall|v: usize| v <= i implies (#[trigger] q@.contains(v) <==> indegree@[v as int]
                == 0) by {
                if q@.contains(v) && v != i {
                    let t = choose|t: int| 0 <= t < q@.len() && q@[t] == v;
                    assert(before[t] == v);
                }
                if before.contains(v) {
                    let t = choose|t: int| 0 <= t < before.len() && before[t] == v;
                    assert(q@[t] == v);
                }
                if v == i && indegree@[v as int] == 0 {
                    assert(q@[q@.len() - 1] == v);
                }
            }
            assert forall|a: int, b: int| #![trigger q@[a], q@[b]] 0 <= a < b < q@.len() implies q@[a]
                < q@[b] by {
                if b < before.len() {
                    assert(q@[a] == before[a] && q@[b] == before[b]);
                } else {
                    assert(q@[a] == before[a]);
                    assert(before[a] < i);
                }
            }
        }
        i = i + 1;
    }
    let mut out: Vec<usize> = Vec::with_capacity(n);
    proof {
        assert forall|v: int| 0 <= v < n implies indegree@[v] == count_missing(
            g[v],
            out@,
        ) by {
            lemma_count_missing_none_done(g[v]);
            assert(out@ =~= Seq::<usize>::empty());
        }
        assert forall|v: usize| v < n implies (#[trigger] pending(out@, q@, v) <==> indegree@[v as int]
            == 0) by {
            assert(!out@.contains(v));
            assert(q@.contains(v) <==> indegree@[v as int] == 0);
        }
        // The first services to start are those without dependencies, in
        // registration order.
        assert forall|t: int| 0 <= t < q@.len() implies deps_all_in(specs@, out@, #[trigger] q@[t] as int)
            && specs@[q@[t] as int].deps@.len() == 0 by {
            let v = q@[t];
            assert(q@.contains(v));
            assert(indegree@[v as int] == 0);
            assert(g[v as int].len() == targets@[v as int]@.len());
        }
        assert(out@ + q@ =~= q@);
        assert forall|a: int, b: int| #![trigger (out@ + q@)[a], (out@ + q@)[b]]
            0 <= a < b < (out@ + q@).len() implies ready_before(specs@, out@, (out@ + q@)[a], (out@ + q@)[b]) by {
            assert(specs@[q@[a] as int].deps@.len() == 0);
            assert(specs@[q@[b] as int].deps@.len() == 0);
            assert(q@[a] < q@[b]);
        }
    }
    while q.len() > 0
        invariant
            n == specs@.len(),
            targets@.len() == n,
            g == targets@.map_values(|row: Vec<usize>| row@),
            forall|v: int, k: int| 0 <= v < n && 0 <= k < g[v].len() ==> #[trigger] g[v][k] < n,
            forall|v: int, k: int|
                0 <= v < n && 0 <= k < specs@[v].deps@.len() ==> dep_target(specs@, v, k) == Some(
                    #[trigger] targets@[v]@[k],
                ),
            forall|v: int| 0 <= v < n ==> (#[trigger] targets@[v])@.len() == specs@[v].deps@.len(),
            indegree@.len() == n,
            outgoing@.len() == n,
            forall|v: int, m: usize|
                0 <= v < n && m < n ==> #[trigger] count_of(outgoing@[v]@, m) == count_of(
                    g[m as int],
                    v as usize,
                ),
            forall|v: int, t: int|
                0 <= v < n && 0 <= t < outgoing@[v]@.len() ==> #[trigger] outgoing@[v]@[t] < n,
            out@.no_duplicates(),
            forall|t: int| 0 <= t < out@.len() ==> #[trigger] out@[t] < n,
            out@.len() <= n,
            q@.no_duplicates(),
            forall|t: int| 0 <= t < q@.len() ==> #[trigger] q@[t] < n,
            forall|v: usize| !(out@.contains(v) && #[trigger] q@.contains(v)),
            forall|v: int| 0 <= v < n ==> #[trigger] indegree@[v] == count_missing(g[v], out@),
            forall|v: usize|
                v < n ==> (#[trigger] pending(out@, q@, v) <==> indegree@[v as int] == 0),
            is_schedule(specs@, out@),
            forall|v: int| 0 <= v < n ==> nondecreasing(#[trigger] outgoing@[v]@),
            forall|t: int| 0 <= t < q@.len() ==> deps_all_in(specs@, out@, #[trigger] q@[t] as int),
            sorted_ready(specs@, out@, out@ + q@),
        decreases n - out@.len(),
    {
        let ghost q_old = q@;
        let i = q.pop_front().unwrap();
        let ghost out_old = out@;
        let ghost qb = q@;
        proof {
            assert(q_old[0] == i);
            assert(q_old.contains(i));
            assert(!out_old.contains(i));
            assert forall|v: usize| #[trigger] q@.contains(v) implies q_old.contains(v) && v != i by {
                let t = choose|t: int| 0 <= t < q@.len() && q@[t] == v;
                assert(q_old[t + 1] == v);
            }
            assert forall|v: usize| q_old.contains(v) && v != i implies #[trigger] q@.contains(v) by {
                let t = choose|t: int| 0 <= t < q_old.len() && q_old[t] == v;
                assert(t != 0);
                assert(q@[t - 1] == v);
            }
            assert(pending(out_old, q_old, i));
            assert(indegree@[i as int] == 0);
            assert(count_missing(g[i as int], out_old) == 0);
            lemma_count_missing_zero(g[i as int], out_old);
        }
        out.push(i);
        proof {
            lemma_distinct_below(out@, n as nat);
            assert forall|p: int| 0 <= p < out@.len() implies out@[p] < specs@.len()
                && #[trigger] deps_met_at(specs@, out@, p) by {
                if p < out_old.len() {
                    assert(deps_met_at(specs@, out_old, p));
                    assert(out@.take(p) =~= out_old.take(p));
                } else {
                    assert(out@.take(p) =~= out_old);
                    assert forall|k: int| 0 <= k < specs@[out@[p] as int].deps@.len() implies {
                        &&& (#[trigger] dep_target(specs@, out@[p] as int, k)) is Some
                        &&& out@.take(p).contains(dep_target(specs@, out@[p] as int, k)->0)
                    } by {
                        assert(dep_target(specs@, i as int, k) == Some(targets@[i as int]@[k]));
                        assert(targets@[i as int]@[k] == g[i as int][k]);
                        assert(out_old.contains(g[i as int][k]));
                    }
                }
            }
            assert(out@[out_old.len() as int] == i);
            assert(out@.contains(i));
            assert forall|v: usize| v < n implies (#[trigger] pending(out@, q@, v) <==> indegree@[v as int] == 0) by {
                if out@.contains(v) && v != i {
                    let t = choose|t: int| 0 <= t < out@.len() && out@[t] == v;
                    assert(out_old[t] == v);
                }
                if out_old.contains(v) {
                    let t = choose|t: int| 0 <= t < out_old.len() && out_old[t] == v;
                    assert(out@[t] == v);
                }
                if v != i {
                    assert(q@.contains(v) <==> q_old.contains(v));
                    assert(out@.contains(v) <==> out_old.contains(v));
                    assert(pending(out_old, q_old, v) <==> indegree@[v as int] == 0);
                }
            }
            assert forall|v: usize| !(out@.contains(v) && #[trigger] q@.contains(v)) by {
                if out@.contains(v) && v != i {
                    let t = choose|t: int| 0 <= t < out@.len() && out@[t] == v;
                    assert(out_old[t] == v);
                }
            }
            assert forall|v: int| 0 <= v < n implies #[trigger] indegree@[v] + count_of(
                outgoing@[i as int]@.take(0),
                v as usize,
            ) == count_missing(g[v], out_old) by {
                assert(outgoing@[i as int]@.take(0) =~= Seq::<usize>::empty());
            }
            // Readiness is judged alike against the longer list of started
            // services.
            let lo = out_old.len() as int;
            assert(out@.take(lo) =~= out_old);
            assert(out_old + q_old =~= out@ + q@);
            assert forall|x: int| 0 <= x < (out_old + q_old).len() implies deps_all_in(
                specs@,
                out@.take(lo),
                #[trigger] (out_old + q_old)[x] as int,
            ) by {
                if x < out_old.len() {
                    assert((out_old + q_old)[x] == out_old[x]);
                    assert(deps_met_at(specs@, out_old, x));
                    let v = out_old[x] as int;
                    assert forall|k0: int| 0 <= k0 < specs@[v].deps@.len() implies (#[trigger] dep_target(
                        specs@,
                        v,
                        k0,
                    )) is Some && out_old.contains(dep_target(specs@, v, k0)->0) by {
                        let y = dep_target(specs@, v, k0)->0;
                        assert(out_old.take(x).contains(y));
                        let w = choose|w: int| 0 <= w < out_old.take(x).len() && out_old.take(x)[w] == y;
                        assert(out_old[w] == y);
                    }
                } else {
                    assert((out_old + q_old)[x] == q_old[x - out_old.len()]);
                }
            }
            lemma_sorted_ready_transfer(specs@, out@, lo, out_old + q_old);
            assert forall|t: int| 0 <= t < qb.len() implies deps_all_in(specs@, out_old, #[trigger] qb[t] as int) by {
                assert(qb[t] == q_old[t + 1]);
            }
        }
        let mut j: usize = 0;
        while j < outgoing[i].len()
            invariant
                n == specs@.len(),
                i < n,
                indegree@.len() == n,
                outgoing@.len() == n,
                forall|v: int, m: usize|
                    0 <= v < n && m < n ==> #[trigger] count_of(outgoing@[v]@, m) == count_of(
                        g[m as int],
                        v as usize,
                    ),
                forall|v: int, t: int|
                    0 <= v < n && 0 <= t < outgoing@[v]@.len() ==> #[trigger] outgoing@[v]@[t] < n,
                out@ == out_old.push(i),
                !out_old.contains(i),
                j <= outgoing@[i as int]@.len(),
                q@.no_duplicates(),
                forall|t: int| 0 <= t < q@.len() ==> #[trigger] q@[t] < n,
                forall|v: usize| !(out@.contains(v) && #[trigger] q@.contains(v)),
                forall|v: int|
                    0 <= v < n ==> #[trigger] indegree@[v] + count_of(
                        outgoing@[i as int]@.take(j as int),
                        v as usize,
                    ) == count_missing(g[v], out_old),
                forall|v: usize|
                    v < n ==> (#[trigger] pending(out@, q@, v) <==> indegree@[v as int] == 0),
                targets@.len() == n,
                g == targets@.map_values(|row: Vec<usize>| row@),
                forall|v: int, k: int|
                    0 <= v < n && 0 <= k < specs@[v].deps@.len() ==> dep_target(specs@, v, k) == Some(
                        #[trigger] targets@[v]@[k],
                    ),
                forall|v: int| 0 <= v < n ==> (#[trigger] targets@[v])@.len() == specs@[v].deps@.len(),
                forall|v: int| 0 <= v < n ==> nondecreasing(#[trigger] outgoing@[v]@),
                out@.no_duplicates(),
                is_schedule(specs@, out@),
                q@.len() >= qb.len(),
                forall|t: int| 0 <= t < qb.len() ==> #[trigger] q@[t] == qb[t],
                forall|t: int| 0 <= t < qb.len() ==> deps_all_in(specs@, out_old, #[trigger] qb[t] as int),
                forall|t: int|
                    qb.len() <= t < q@.len() ==> j > 0 && (#[trigger] q@[t]) <= outgoing@[i as int]@[j - 1]
                        && deps_all_in(specs@, out@, q@[t] as int) && last_dep_pos(
                        specs@,
                        out@,
                        q@[t] as int,
                    ) == out_old.len(),
                sorted_ready(specs@, out@, out@ + q@),
            decreases outgoing@[i as int]@.len() - j,
        {
            let m = outgoing[i][j];
            let ghost row = outgoing@[i as int]@;
            proof {
                lemma_count_of_take_step(row, j as int, m);
                lemma_count_of_take_le(row, j + 1, m);
                lemma_count_missing_push(g[m as int], out_old, i);
                assert(count_of(row, m) == count_of(g[m as int], i));
            }
            let ghost q_before = q@;
            proof {
                if q_before.len() > qb.len() {
                    let t0 = qb.len() as int;
                    assert(q@[t0] == q_before[t0]);
                    assert(j > 0);
                }
            }
            let ghost deg_before = indegree@;
            assert(deg_before[m as int] > 0);
            assert(!pending(out@, q@, m));
            indegree[m] = indegree[m] - 1;
            if indegree[m] == 0 {
                q.push_back(m);
            }
            proof {
                assert(!out@.contains(m) && !q_before.contains(m));
                assert forall|v: usize| #[trigger] q@.contains(v) implies q_before.contains(v) || v == m by {
                    let t = choose|t: int| 0 <= t < q@.len() && q@[t] == v;
                    if t < q_before.len() {
                        assert(q_before[t] == v);
                    } else {
                        assert(q@ == q_before.push(m));
                        assert(q@[t] == m);
                    }
                }
                assert forall|v: usize| q_before.contains(v) implies #[trigger] q@.contains(v) by {
                    let t = choose|t: int| 0 <= t < q_before.len() && q_before[t] == v;
                    assert(q@[t] == v);
                }
                if indegree@[m as int] == 0 {
                    assert(q@[q@.len() - 1] == m);
                }
                assert forall|v: usize| v < n implies (#[trigger] pending(out@, q@, v) <==> indegree@[
                    v as int] == 0) by {
                    if v != m {
                        assert(pending(out@, q_before, v) <==> deg_before[v as int] == 0);
                        assert(q@.contains(v) <==> q_before.contains(v));
                    } else if indegree@[m as int] == 0 {
                        assert(q@.contains(m));
                    }
                }
                assert forall|v: usize| !(out@.contains(v) && #[trigger] q@.contains(v)) by {
                    if v != m {
                        assert(q@.contains(v) ==> q_before.contains(v));
                    }
                }
                assert forall|v: int| 0 <= v < n implies #[trigger] indegree@[v] + count_of(
                    row.take(j + 1),
                    v as usize,
                ) == count_missing(g[v], out_old) by {
                    lemma_count_of_take_step(row, j as int, v as usize);
                }
                let lo = out_old.len() as int;
                assert(row[j as int] == m);
                assert(nondecreasing(outgoing@[i as int]@));
                assert forall|t: int| qb.len() <= t < q_before.len() implies (#[trigger] q_before[t]) <= row[j as int] by {
                    assert(j > 0);
                    assert(q_before[t] <= row[j - 1]);
                    assert(row[j - 1] <= row[j as int]);
                }
                if indegree@[m as int] == 0 {
                    // Every dependency of `m` has started, the last one being `i`.
                    assert(count_missing(g[m as int], out@) == 0);
                    lemma_count_missing_zero(g[m as int], out@);
                    let dm = specs@[m as int].deps@.len() as int;
                    assert(deps_all_in(specs@, out@, m as int)) by {
                        assert forall|k0: int| 0 <= k0 < dm implies (#[trigger] dep_target(
                            specs@,
                            m as int,
                            k0,
                        )) is Some && out@.contains(dep_target(specs@, m as int, k0)->0) by {
                            assert(dep_target(specs@, m as int, k0) == Some(targets@[m as int]@[k0]));
                            assert(targets@[m as int]@[k0] == g[m as int][k0]);
                        }
                    }
                    lemma_count_of_positive(g[m as int], i);
                    let k0 = choose|k0: int| 0 <= k0 < g[m as int].len() && g[m as int][k0] == i;
                    assert(dep_target(specs@, m as int, k0) == Some(targets@[m as int]@[k0]));
                    assert(out@.take(out@.len() as int) =~= out@);
                    lemma_last_dep_pos_prefix(specs@, out@, m as int, dm, out@.len() as int);
                    lemma_pos_in(out@, lo);
                    lemma_last_dep_pos_at_least(specs@, out@, m as int, dm, k0);
                    assert(last_dep_pos(specs@, out@, m as int) == lo);
                    let pp = out@ + q_before;
                    assert forall|a: int| 0 <= a < pp.len() implies ready_before(specs@, out@, #[trigger] pp[a], m) by {
                        if a < out@.len() {
                            assert(pp[a] == out@[a]);
                            assert(deps_met_at(specs@, out@, a));
                            lemma_last_dep_pos_prefix(
                                specs@,
                                out@,
                                out@[a] as int,
                                specs@[out@[a] as int].deps@.len() as int,
                                a,
                            );
                        } else {
                            let t = a - out@.len();
                            assert(pp[a] == q_before[t]);
                            if t < qb.len() {
                                assert(q_before[t] == qb[t]);
                                assert(out@.take(lo) =~= out_old);
                                lemma_last_dep_pos_prefix(
                                    specs@,
                                    out@,
                                    qb[t] as int,
                                    specs@[qb[t] as int].deps@.len() as int,
                                    lo,
                                );
                            } else {
                                assert(q_before[t] <= row[j as int]);
                                if q_before[t] == m {
                                    assert(q_before.contains(m));
                                }
                            }
                        }
                    }
                    lemma_sorted_ready_push(specs@, out@, pp, m);
                    assert(out@ + q@ =~= pp.push(m));
                } else {
                    assert(q@ == q_before);
                }
                assert forall|t: int| 0 <= t < qb.len() implies #[trigger] q@[t] == qb[t] by {
                    assert(q@[t] == q_before[t]);
                }
                assert forall|t: int| qb.len() <= t < q@.len() implies j + 1 > 0 && (#[trigger] q@[t])
                    <= row[j as int] && deps_all_in(specs@, out@, q@[t] as int) && last_dep_pos(
                    specs@,
                    out@,
                    q@[t] as int,
                ) == out_old.len() by {
                    if t < q_before.len() {
                        assert(q@[t] == q_before[t]);
                    } else {
                        assert(q@[t] == m);
                    }
                }
            }
            j = j + 1;
        }
        proof {
            let row = outgoing@[i as int]@;
            assert(row.take(row.len() as int) =~= row);
            assert forall|v: int| 0 <= v < n implies #[trigger] indegree@[v] == count_missing(
                g[v],
                out@,
            ) by {
                lemma_count_missing_push(g[v], out_old, i);
            }
            assert forall|y: usize| out_old.contains(y) implies #[trigger] out@.contains(y) by {
                let w = choose|w: int| 0 <= w < out_old.len() && out_old[w] == y;
                assert(out@[w] == y);
            }
            assert forall|t: int| 0 <= t < q@.len() implies deps_all_in(specs@, out@, #[trigger] q@[t] as int) by {
                if t < qb.len() {
                    lemma_deps_in_grow(specs@, out_old, out@, qb[t] as int);
                }
            }
        }
    }
    proof {
        assert(out@ + q@ =~= out@);
    }
    proof {
        assert forall|v: usize| v < n implies (out@.contains(v) <==> indegree@[v as int] == 0) by {
            assert(!q@.contains(v));
            assert(pending(out@, q@, v) <==> indegree@[v as int] == 0);
        }
        assert forall|v: usize| v < n && out@.contains(v) implies #[trigger] schedulable(specs@, v) by {
            assert(is_schedule(specs@, out@));
        }
    }
    if out.len() == n {
        proof {
            lemma_distinct_below(out@, n as nat);
            assert(is_topo_order(specs@, out@));
            lemma_topo_order_needs_all_schedulable(specs@, out@);
        }
        return Ok(out);
    }
    proof {
        assert forall|v: usize|
            v < specs@.len() && !out@.contains(v) implies exists|k: int|
                0 <= k < specs@[v as int].deps@.len() && !(#[trigger] dep_target(
                    specs@,
                    v as int,
                    k,
                ) matches Some(d) && out@.contains(d)) by {
            lemma_count_missing_zero(g[v as int], out@);
            let k = choose|k: int| 0 <= k < g[v as int].len() && !out@.contains(#[trigger] g[v as int][k]);
            assert(dep_target(specs@, v as int, k) == Some(targets@[v as int]@[k]));
        }
        assert forall|v: usize| v < n && !out@.contains(v) implies !#[trigger] schedulable(specs@, v) by {
            if schedulable(specs@, v) {
                let s = choose|s: Seq<usize>| #[trigger] is_schedule(specs@, s) && s.contains(v);
                lemma_schedule_stays_in(specs@, out@, s, s.len() as int);
                let t = choose|t: int| 0 <= t < s.len() && s[t] == v;
                assert(out@.contains(s[t]));
            }
        }
        lemma_distinct_below(out@, n as nat);
        let v = choose|v: usize| v < n && !out@.contains(v);
        assert(!schedulable(specs@, v));
        assert forall|o: Seq<usize>| !is_topo_order(specs@, o) by {
            if is_topo_order(specs@, o) {
                lemma_topo_order_needs_all_schedulable(specs@, o);
            }
        }
    }
    // Every service that never became ready waits on a cycle.
    let mut remaining: Vec<ServiceName> = Vec::new();
    let mut v: usize = 0;
    while v < n
        invariant
            n == specs@.len(),
            v <= n,
            indegree@.len() == n,
            forall|w: usize| w < n ==> (indegree@[w as int] > 0 <==> !#[trigger] schedulable(specs@, w)),
            name_views(remaining@) == stuck_names_upto(specs@, v as int),
        decreases n - v,
    {
        proof {
            assert(indegree@[v as int] > 0 <==> !schedulable(specs@, v));
        }
        if indegree[v] > 0 {
            remaining.push(specs[v].name);
        }
        proof {
            assert(name_views(remaining@) =~= stuck_names_upto(specs@, v + 1));
        }
        v = v + 1;
    }
    let names = dedup_names(remaining);
    proof {
        let stuck = stuck_names(specs@);
        lemma_dedup_first_no_duplicates(stuck);
        lemma_dedup_first_same_elements(stuck);
        let w = choose|w: usize| w < n && !out@.contains(w);
        lemma_stuck_names_contains(specs@, w, n as int);
        assert(dedup_first(stuck).contains(specs@[w as int].name@));
    }
    Err(DagError::Cycle(names))
}

} // verus!
