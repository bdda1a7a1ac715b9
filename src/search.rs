//! The shortest-time search over the whole network from one station.
use vstd::prelude::*;

use crate::network::{Metro, STOP_TIME, neighbors, trips_ok, trip_ok, time_fits};
use crate::records::Trip;

verus! {

/// Stands for an unknown distance and for a missing predecessor.
pub const NONE: usize = usize::MAX;

/// What a search knows after some rounds: for each station its distance, the
/// station it was last reached from, and whether it was visited.
pub struct SearchState {
    pub dist: Seq<usize>,
    pub prev: Seq<usize>,
    pub visited: Seq<bool>,
}

/// `r` is the unvisited station of least distance, the first one among equals.
pub open spec fn is_next(d: Seq<usize>, vis: Seq<bool>, r: int) -> bool {
    &&& 0 <= r < d.len()
    &&& r < vis.len()
    &&& !vis[r]
    &&& forall|v: int| 0 <= v < d.len() && v < vis.len() && !vis[v] ==> d[r] <= #[trigger] d[v]
    &&& forall|v: int| 0 <= v < r && !vis[v] ==> #[trigger] d[v] > d[r]
}

pub open spec fn next_of(d: Seq<usize>, vis: Seq<bool>) -> int {
    choose|r: int| is_next(d, vis, r)
}

/// Relaxing one trip `(other end, seconds)` from `cur`. The test compares the
/// plain sum, while the stored distance adds the stop time at the station reached.
pub open spec fn relax_one(d: Seq<usize>, p: Seq<usize>, cur: int, e: (usize, usize)) -> (Seq<usize>, Seq<usize>) {
    let o = e.0 as int;
    if d[cur] != NONE && d[cur] + e.1 < d[o] {
        (d.update(o, (d[cur] + e.1 + STOP_TIME) as usize), p.update(o, cur as usize))
    } else {
        (d, p)
    }
}

/// Relaxing the trips `ns` from `cur`, in order.
pub open spec fn relax_all(d: Seq<usize>, p: Seq<usize>, cur: int, ns: Seq<(usize, usize)>) -> (Seq<usize>, Seq<usize>)
    decreases ns.len(),
{
    if ns.len() == 0 {
        (d, p)
    } else {
        let r = relax_all(d, p, cur, ns.drop_last());
        relax_one(r.0, r.1, cur, ns.last())
    }
}

pub open spec fn initial(n: nat, start: int) -> SearchState {
    SearchState {
        dist: Seq::new(n, |i: int| if i == start { 0usize } else { NONE }),
        prev: Seq::new(n, |i: int| NONE),
        visited: Seq::new(n, |i: int| false),
    }
}

/// The state after `k` rounds, each visiting the next station and relaxing its trips.
pub open spec fn rounds(n: nat, ts: Seq<Trip>, start: int, k: nat) -> SearchState
    decreases k,
{
    if k == 0 {
        initial(n, start)
    } else {
        let s = rounds(n, ts, start, (k - 1) as nat);
        let c = next_of(s.dist, s.visited);
        let r = relax_all(s.dist, s.prev, c, neighbors(ts, c));
        SearchState { dist: r.0, prev: r.1, visited: s.visited.update(c, true) }
    }
}

/// The state once every station of `m` was visited.
pub open spec fn searched(m: &Metro, start: int) -> SearchState {
    rounds(m.n() as nat, m.trips@, start, m.n() as nat)
}

pub open spec fn count_visited(v: Seq<bool>) -> nat
    decreases v.len(),
{
    if v.len() == 0 {
        0
    } else {
        count_visited(v.drop_last()) + if v.last() { 1nat } else { 0nat }
    }
}

/// The largest trip time plus the stop time.
pub open spec fn max_step(ts: Seq<Trip>) -> nat
    decreases ts.len(),
{
    if ts.len() == 0 {
        0
    } else {
        let m = max_step(ts.drop_last());
        let s = (ts.last().time + STOP_TIME) as nat;
        if s > m { s } else { m }
    }
}

proof fn lemma_max_step(ts: Seq<Trip>, n: int)
    requires
        n > 0,
        trips_ok(n, ts),
    ensures
        forall|j: int| 0 <= j < ts.len() ==> (#[trigger] ts[j]).time + STOP_TIME <= max_step(ts),
        n * max_step(ts) < usize::MAX,
    decreases ts.len(),
{
    if ts.len() > 0 {
        let rest = ts.drop_last();
        assert(trips_ok(n, rest));
        lemma_max_step(rest, n);
        assert(trip_ok(n, ts[ts.len() - 1]));
        assert(time_fits(n, ts.last()));
        let m = max_step(rest);
        let st = (ts.last().time + STOP_TIME) as nat;
        if st > m {
            assert(max_step(ts) == st);
            assert(n * st < usize::MAX);
        } else {
            assert(max_step(ts) == m);
        }
        assert forall|j: int| 0 <= j < ts.len() implies (#[trigger] ts[j]).time + STOP_TIME <= max_step(ts) by {
            if j < ts.len() - 1 {
                assert(rest[j] == ts[j]);
            }
        }
    } else {
        assert(max_step(ts) == 0);
        assert(n * 0 == 0) by (nonlinear_arith);
    }
}

proof fn lemma_count_update(v: Seq<bool>, c: int)
    requires
        0 <= c < v.len(),
        !v[c],
    ensures
        count_visited(v.update(c, true)) == count_visited(v) + 1,
    decreases v.len(),
{
    let u = v.update(c, true);
    if c == v.len() - 1 {
        assert(u.drop_last() =~= v.drop_last());
    } else {
        assert(u.drop_last() =~= v.drop_last().update(c, true));
        lemma_count_update(v.drop_last(), c);
    }
}

proof fn lemma_count_bound(v: Seq<bool>)
    ensures
        count_visited(v) <= v.len(),
        count_visited(v) < v.len() ==> exists|i: int| 0 <= i < v.len() && !v[i],
    decreases v.len(),
{
    if v.len() > 0 {
        lemma_count_bound(v.drop_last());
        if count_visited(v) < v.len() && v.last() {
            let i = choose|i: int| 0 <= i < v.drop_last().len() && !v.drop_last()[i];
            assert(!v[i]);
        }
    }
}

spec fn first_min(d: Seq<usize>, vis: Seq<bool>, i: int) -> int
    decreases i,
{
    if i <= 0 {
        -1
    } else {
        let b = first_min(d, vis, i - 1);
        if !vis[i - 1] && (b == -1 || d[i - 1] < d[b]) {
            i - 1
        } else {
            b
        }
    }
}

proof fn lemma_first_min(d: Seq<usize>, vis: Seq<bool>, i: int)
    requires
        0 <= i <= vis.len(),
        d.len() == vis.len(),
    ensures
        ({
            let best = first_min(d, vis, i);
            &&& best == -1 ==> forall|v: int| 0 <= v < i ==> vis[v]
            &&& best != -1 ==> 0 <= best < i && !vis[best]
                && (forall|v: int| 0 <= v < i && !vis[v] ==> d[best] <= #[trigger] d[v])
                && (forall|v: int| 0 <= v < best && !vis[v] ==> #[trigger] d[v] > d[best])
        }),
    decreases i,
{
    if i > 0 {
        lemma_first_min(d, vis, i - 1);
    }
}

proof fn lemma_next_exists(d: Seq<usize>, vis: Seq<bool>)
    requires
        d.len() == vis.len(),
        exists|i: int| 0 <= i < vis.len() && !vis[i],
    ensures
        is_next(d, vis, next_of(d, vis)),
{
    lemma_first_min(d, vis, vis.len() as int);
    assert(is_next(d, vis, first_min(d, vis, vis.len() as int)));
}

proof fn lemma_next_unique(d: Seq<usize>, vis: Seq<bool>, r: int)
    requires
        is_next(d, vis, r),
    ensures
        next_of(d, vis) == r,
{
    let q = next_of(d, vis);
    assert(is_next(d, vis, q));
    if q < r {
        assert(d[q] > d[r]);
    } else if r < q {
        assert(d[r] > d[q]);
    }
}

/// What holds of the search after each round: distances are bounded by the
/// rounds so far, the start keeps distance zero and no predecessor, and a
/// station of unknown distance has no predecessor.
pub open spec fn search_inv(s: SearchState, n: int, start: int, k: int, step: int) -> bool {
    &&& s.dist.len() == n
    &&& s.prev.len() == n
    &&& s.visited.len() == n
    &&& count_visited(s.visited) == k
    &&& s.dist[start] == 0
    &&& s.prev[start] == NONE
    &&& forall|v: int| 0 <= v < n && #[trigger] s.dist[v] != NONE ==> s.dist[v] <= k * step
    &&& forall|v: int| 0 <= v < n && #[trigger] s.dist[v] == NONE ==> s.prev[v] == NONE
    &&& forall|v: int| 0 <= v < n ==> #[trigger] s.prev[v] == NONE || s.prev[v] < n
}

proof fn lemma_relax_all(d: Seq<usize>, p: Seq<usize>, cur: int, ns: Seq<(usize, usize)>, n: int, start: int, k: int, step: int)
    requires
        0 <= start < n,
        0 <= cur < n,
        1 <= k <= n,
        d.len() == n,
        p.len() == n,
        d[start] == 0,
        p[start] == NONE,
        n * step < usize::MAX,
        d[cur] == NONE || d[cur] <= (k - 1) * step,
        forall|q: int| 0 <= q < ns.len() ==> (#[trigger] ns[q]).0 < n && ns[q].1 + STOP_TIME <= step,
        forall|v: int| 0 <= v < n && #[trigger] d[v] != NONE ==> d[v] <= k * step,
        forall|v: int| 0 <= v < n && #[trigger] d[v] == NONE ==> p[v] == NONE,
        forall|v: int| 0 <= v < n ==> #[trigger] p[v] == NONE || p[v] < n,
    ensures
        ({
            let r = relax_all(d, p, cur, ns);
            &&& r.0.len() == n
            &&& r.1.len() == n
            &&& r.0[cur] == d[cur]
            &&& r.0[start] == 0
            &&& r.1[start] == NONE
            &&& forall|v: int| 0 <= v < n && #[trigger] r.0[v] != NONE ==> r.0[v] <= k * step
            &&& forall|v: int| 0 <= v < n && #[trigger] r.0[v] == NONE ==> r.1[v] == NONE
            &&& forall|v: int| 0 <= v < n ==> #[trigger] r.1[v] == NONE || r.1[v] < n
        }),
    decreases ns.len(),
{
    if ns.len() > 0 {
        let rest = ns.drop_last();
        lemma_relax_all(d, p, cur, rest, n, start, k, step);
        let r = relax_all(d, p, cur, rest);
        let e = ns.last();
        assert(e == ns[ns.len() - 1]);
        if r.0[cur] != NONE && r.0[cur] + e.1 < r.0[e.0 as int] {
            assert((k - 1) * step + step == k * step) by (nonlinear_arith);
            assert(k * step <= n * step) by (nonlinear_arith)
                requires k <= n, step >= 0;
        }
    }
}

proof fn lemma_rounds(n: int, ts: Seq<Trip>, start: int, k: nat)
    requires
        0 <= start < n,
        k <= n,
        trips_ok(n, ts),
    ensures
        search_inv(rounds(n as nat, ts, start, k), n, start, k as int, max_step(ts) as int),
    decreases k,
{
    let step = max_step(ts) as int;
    lemma_max_step(ts, n);
    if k == 0 {
        let s = initial(n as nat, start);
        assert(s.visited =~= Seq::new(n as nat, |i: int| false));
        lemma_count_zero(s.visited);
    } else {
        lemma_rounds(n, ts, start, (k - 1) as nat);
        let s = rounds(n as nat, ts, start, (k - 1) as nat);
        lemma_count_bound(s.visited);
        lemma_next_exists(s.dist, s.visited);
        let c = next_of(s.dist, s.visited);
        let ns = neighbors(ts, c);
        lemma_neighbors_step(ts, n, c, step);
        assert((k - 1) * step <= k * step) by (nonlinear_arith)
            requires step >= 0, k >= 1;
        lemma_relax_all(s.dist, s.prev, c, ns, n, start, k as int, step);
        lemma_count_update(s.visited, c);
    }
}

proof fn lemma_count_zero(v: Seq<bool>)
    requires
        forall|i: int| 0 <= i < v.len() ==> !v[i],
    ensures
        count_visited(v) == 0,
    decreases v.len(),
{
    if v.len() > 0 {
        lemma_count_zero(v.drop_last());
    }
}

proof fn lemma_neighbors_step(ts: Seq<Trip>, n: int, c: int, step: int)
    requires
        trips_ok(n, ts),
        forall|j: int| 0 <= j < ts.len() ==> (#[trigger] ts[j]).time + STOP_TIME <= step,
    ensures
        forall|q: int| 0 <= q < neighbors(ts, c).len() ==> (#[trigger] neighbors(ts, c)[q]).0 < n
            && neighbors(ts, c)[q].1 + STOP_TIME <= step,
    decreases ts.len(),
{
    if ts.len() > 0 {
        let rest = ts.drop_last();
        assert(trips_ok(n, rest));
        assert forall|j: int| 0 <= j < rest.len() implies (#[trigger] rest[j]).time + STOP_TIME <= step by {
            assert(rest[j] == ts[j]);
        }
        lemma_neighbors_step(rest, n, c, step);
        assert(trip_ok(n, ts[ts.len() - 1]));
        assert(ts[ts.len() - 1].time + STOP_TIME <= step);
        let nr = neighbors(rest, c);
        assert forall|q: int| 0 <= q < neighbors(ts, c).len() implies (#[trigger] neighbors(ts, c)[q]).0 < n
            && neighbors(ts, c)[q].1 + STOP_TIME <= step by {
            if q < nr.len() {
                assert(nr[q].0 < n);
            }
        }
    }
}

/// A search over a well-formed network ends with the start at distance zero
/// and without a predecessor, every predecessor a station, and no predecessor
/// for a station that was never reached.
pub proof fn lemma_searched(m: &Metro, start: int)
    requires
        m.wf(),
        0 <= start < m.n(),
    ensures
        search_inv(searched(m, start), m.n(), start, m.n(), max_step(m.trips@) as int),
{
    lemma_rounds(m.n(), m.trips@, start, m.n() as nat);
}

/// Some trip joins stations `a` and `b`.
pub open spec fn linked(ts: Seq<Trip>, a: int, b: int) -> bool {
    exists|j: int|
        0 <= j < ts.len() && ((#[trigger] ts[j]).first == a && ts[j].second == b || ts[j].second == a
            && ts[j].first == b)
}

/// A walk over the trips: consecutive stations are joined by a trip.
pub open spec fn is_walk(ts: Seq<Trip>, w: Seq<int>) -> bool {
    &&& w.len() >= 1
    &&& forall|i: int| 0 <= i < w.len() - 1 ==> linked(ts, #[trigger] w[i], w[i + 1])
}

/// Some walk over the trips leads from `s` to `v`.
pub open spec fn connected(ts: Seq<Trip>, s: int, v: int) -> bool {
    exists|w: Seq<int>| #[trigger] is_walk(ts, w) && w[0] == s && w.last() == v
}

proof fn lemma_neighbors_linked(ts: Seq<Trip>, c: int)
    ensures
        forall|q: int| 0 <= q < neighbors(ts, c).len() ==> linked(ts, c, (#[trigger] neighbors(ts, c)[q]).0 as int),
    decreases ts.len(),
{
    if ts.len() > 0 {
        let rest = ts.drop_last();
        lemma_neighbors_linked(rest, c);
        let nr = neighbors(rest, c);
        let last = ts.len() - 1;
        assert forall|q: int| 0 <= q < neighbors(ts, c).len() implies linked(ts, c, (#[trigger] neighbors(ts, c)[q]).0 as int) by {
            if q < nr.len() {
                let o = nr[q].0 as int;
                assert(linked(rest, c, o));
                let j = choose|j: int|
                    0 <= j < rest.len() && ((#[trigger] rest[j]).first == c && rest[j].second == o || rest[j].second == c
                        && rest[j].first == o);
                assert(rest[j] == ts[j]);
            } else {
                assert(ts[last] == ts.last());
            }
        }
    }
}

proof fn lemma_connected_step(ts: Seq<Trip>, s: int, u: int, v: int)
    requires
        connected(ts, s, u),
        linked(ts, u, v),
    ensures
        connected(ts, s, v),
{
    let w = choose|w: Seq<int>| #[trigger] is_walk(ts, w) && w[0] == s && w.last() == u;
    let w2 = w.push(v);
    assert forall|i: int| 0 <= i < w2.len() - 1 implies linked(ts, #[trigger] w2[i], w2[i + 1]) by {
        if i < w.len() - 1 {
            assert(w2[i] == w[i] && w2[i + 1] == w[i + 1]);
        }
    }
    assert(is_walk(ts, w2));
}

proof fn lemma_relax_connected(d: Seq<usize>, p: Seq<usize>, cur: int, ns: Seq<(usize, usize)>, ts: Seq<Trip>, s: int)
    requires
        forall|q: int| 0 <= q < ns.len() ==> linked(ts, cur, (#[trigger] ns[q]).0 as int) && 0 <= ns[q].0 < d.len(),
        0 <= cur < d.len(),
        forall|v: int| 0 <= v < d.len() && #[trigger] d[v] != NONE ==> connected(ts, s, v),
    ensures
        relax_all(d, p, cur, ns).0.len() == d.len(),
        forall|v: int| 0 <= v < d.len() && #[trigger] relax_all(d, p, cur, ns).0[v] != NONE ==> connected(ts, s, v),
    decreases ns.len(),
{
    if ns.len() > 0 {
        let rest = ns.drop_last();
        assert forall|q: int| 0 <= q < rest.len() implies linked(ts, cur, (#[trigger] rest[q]).0 as int) && 0 <= rest[q].0 < d.len() by {
            assert(rest[q] == ns[q]);
        }
        lemma_relax_connected(d, p, cur, rest, ts, s);
        let r = relax_all(d, p, cur, rest);
        let e = ns.last();
        assert(e == ns[ns.len() - 1]);
        if r.0[cur] != NONE && r.0[cur] + e.1 < r.0[e.0 as int] {
            lemma_connected_step(ts, s, cur, e.0 as int);
        }
    }
}

proof fn lemma_rounds_connected(n: int, ts: Seq<Trip>, start: int, k: nat)
    requires
        0 <= start < n,
        k <= n,
        trips_ok(n, ts),
    ensures
        forall|v: int| 0 <= v < n && #[trigger] rounds(n as nat, ts, start, k).dist[v] != NONE ==> connected(ts, start, v),
    decreases k,
{
    lemma_rounds(n, ts, start, k);
    if k == 0 {
        assert(is_walk(ts, seq![start]));
    } else {
        lemma_rounds_connected(n, ts, start, (k - 1) as nat);
        lemma_rounds(n, ts, start, (k - 1) as nat);
        let s = rounds(n as nat, ts, start, (k - 1) as nat);
        lemma_count_bound(s.visited);
        lemma_next_exists(s.dist, s.visited);
        let c = next_of(s.dist, s.visited);
        lemma_max_step(ts, n);
        lemma_neighbors_step(ts, n, c, max_step(ts) as int);
        lemma_neighbors_linked(ts, c);
        lemma_relax_connected(s.dist, s.prev, c, neighbors(ts, c), ts, start);
    }
}

/// A station that no walk over the trips joins to the departure keeps an
/// unknown distance and no predecessor.
pub proof fn lemma_unreached(m: &Metro, start: int, end: int)
    requires
        m.wf(),
        0 <= start < m.n(),
        0 <= end < m.n(),
        !connected(m.trips@, start, end),
    ensures
        searched(m, start).dist[end] == NONE,
        searched(m, start).prev[end] == NONE,
{
    lemma_rounds_connected(m.n(), m.trips@, start, m.n() as nat);
    lemma_searched(m, start);
    let st = searched(m, start);
    assert(st.dist[end] == NONE);
    assert(st.prev[end] == NONE);
}

/// The unvisited station of least distance, first among equals; it is marked visited.
fn get_next(distance: &Vec<usize>, visited: &mut Vec<bool>) -> (r: usize)
    requires
        distance@.len() == old(visited)@.len(),
        exists|i: int| 0 <= i < old(visited)@.len() && !old(visited)@[i],
    ensures
        is_next(distance@, old(visited)@, r as int),
        final(visited)@ == old(visited)@.update(r as int, true),
{
    let n = visited.len();
    let mut best: usize = n;
    let mut i: usize = 0;
    while i < n
        invariant
            i <= n,
            n == visited@.len(),
            distance@.len() == n,
            best == n ==> forall|v: int| 0 <= v < i ==> visited@[v],
            best != n ==> best < i && !visited@[best as int]
                && (forall|v: int| 0 <= v < i && !visited@[v] ==> distance@[best as int] <= #[trigger] distance@[v])
                && (forall|v: int| 0 <= v < best && !visited@[v] ==> #[trigger] distance@[v] > distance@[best as int]),
        decreases n - i,
    {
        if !visited[i] && (best == n || distance[i] < distance[best]) {
            best = i;
        }
        i = i + 1;
    }
    visited.set(best, true);
    best
}

/// A number of seconds as whole minutes and remaining seconds.
pub fn get_time(time: usize) -> (r: (usize, usize))
    ensures
        r == (time / 60, time % 60),
{
    let minutes = time / 60;
    let seconds = time - (minutes * 60);
    (minutes, seconds)
}

impl Metro {
    /// Runs the search from `start` over every station, returning the distances
    /// and predecessors once all stations were visited.
    pub fn search(&self, start: usize) -> (r: (Vec<usize>, Vec<usize>))
        requires
            self.wf(),
            start < self.n(),
        ensures
            r.0@ == searched(self, start as int).dist,
            r.1@ == searched(self, start as int).prev,
    {
        let n = self.stations.len();
        let ghost ts = self.trips@;
        let ghost step = max_step(ts) as int;
        let mut distance: Vec<usize> = Vec::new();
        let mut prevs: Vec<usize> = Vec::new();
        let mut visited: Vec<bool> = Vec::new();
        let mut i: usize = 0;
        while i < n
            invariant
                i <= n,
                n == self.n(),
                distance@ =~= Seq::new(i as nat, |q: int| if q == start { 0usize } else { NONE }),
                prevs@ =~= Seq::new(i as nat, |q: int| NONE),
                visited@ =~= Seq::new(i as nat, |q: int| false),
            decreases n - i,
        {
            if i == start {
                distance.push(0);
            } else {
                distance.push(NONE);
            }
            prevs.push(NONE);
            visited.push(false);
            i = i + 1;
        }
        proof {
            lemma_max_step(ts, n as int);
        }
        let mut k: usize = 0;
        while k < n
            invariant
                self.wf(),
                start < n,
                n == self.n(),
                ts == self.trips@,
                step == max_step(ts) as int,
                n * step < usize::MAX,
                forall|q: int| 0 <= q < ts.len() ==> (#[trigger] ts[q]).time + STOP_TIME <= step,
                k <= n,
                distance@ == rounds(n as nat, ts, start as int, k as nat).dist,
                prevs@ == rounds(n as nat, ts, start as int, k as nat).prev,
                visited@ == rounds(n as nat, ts, start as int, k as nat).visited,
            decreases n - k,
        {
            proof {
                lemma_rounds(n as int, ts, start as int, k as nat);
                lemma_count_bound(visited@);
            }
            let ghost s = rounds(n as nat, ts, start as int, k as nat);
            let current = get_next(&distance, &mut visited);
            proof {
                lemma_next_unique(s.dist, s.visited, current as int);
                lemma_neighbors_step(ts, n as int, current as int, step);
                assert(k * step <= n * step) by (nonlinear_arith)
                    requires k <= n, step >= 0;
                assert((k + 1) * step <= n * step) by (nonlinear_arith)
                    requires k + 1 <= n, step >= 0;
            }
            let paths = self.get_paths_to_neighboors(current);
            let ghost dist_before = distance@;
            let ghost prev_before = prevs@;
            let mut j: usize = 0;
            while j < paths.len()
                invariant
                    self.wf(),
                    n == self.n(),
                    start < n,
                    current < n,
                    k < n,
                    step == max_step(ts) as int,
                    n * step < usize::MAX,
                    (k + 1) * step <= n * step,
                    dist_before == s.dist,
                    prev_before == s.prev,
                    search_inv(s, n as int, start as int, k as int, step),
                    paths@ == neighbors(ts, current as int),
                    forall|q: int| 0 <= q < paths@.len() ==> (#[trigger] paths@[q]).0 < n
                        && paths@[q].1 + STOP_TIME <= step,
                    j <= paths@.len(),
                    (distance@, prevs@) == relax_all(dist_before, prev_before, current as int, paths@.take(j as int)),
                decreases paths@.len() - j,
            {
                proof {
                    assert(k * step <= (k + 1) * step) by (nonlinear_arith)
                        requires step >= 0;
                    lemma_relax_all(dist_before, prev_before, current as int, paths@.take(j as int), n as int, start as int, k as int + 1, step);
                    assert(paths@.take(j as int + 1).drop_last() =~= paths@.take(j as int));
                    assert(paths@.take(j as int + 1).last() == paths@[j as int]);
                    assert(k * step + step == (k + 1) * step) by (nonlinear_arith);
                    assert(s.dist[current as int] == NONE || s.dist[current as int] <= k * step);
                }
                let (other, time) = paths[j];
                let dc = distance[current];
                if dc != NONE && dc + time < distance[other] {
                    distance.set(other, dc + time + STOP_TIME);
                    prevs.set(other, current);
                }
                j = j + 1;
            }
            proof {
                assert(paths@.take(j as int) =~= paths@);
            }
            k = k + 1;
        }
        (distance, prevs)
    }
}

} // verus!
