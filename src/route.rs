//! Turning the predecessors of a search into an itinerary: the stations passed,
//! where the line changes, and the terminus to ride toward on each line.
use vstd::prelude::*;

use crate::network::{Metro, terminus, walk_limit};
use crate::records::{StationView, Trip};
use crate::search::{NONE, connected, lemma_searched, lemma_unreached, searched};

verus! {

/// Why no itinerary could be given.
#[derive(Clone, Copy, PartialEq, Eq, Debug)]
pub enum RouteError {
    /// The destination cannot be reached from the departure.
    NoRoute,
    /// A ride along some line of the route reaches no terminus.
    NoTerminus,
}

/// Whether following predecessors from `x` reaches `start` within `fuel` steps.
pub open spec fn reaches(p: Seq<usize>, x: int, start: int, fuel: nat) -> bool
    decreases fuel,
{
    x == start || (fuel > 0 && 0 <= x < p.len() && p[x] != NONE && reaches(
        p,
        p[x] as int,
        start,
        (fuel - 1) as nat,
    ))
}

/// The stations met when following predecessors from `x`, `x` first.
pub open spec fn back_path(p: Seq<usize>, x: int, start: int, fuel: nat) -> Seq<usize>
    decreases fuel,
{
    if x == start || fuel == 0 || !(0 <= x < p.len()) || p[x] == NONE {
        seq![x as usize]
    } else {
        seq![x as usize] + back_path(p, p[x] as int, start, (fuel - 1) as nat)
    }
}

/// The route from `start` to `end` in travel order.
pub open spec fn path_of(p: Seq<usize>, start: int, end: int) -> Seq<usize> {
    back_path(p, end, start, p.len()).reverse()
}

/// Whether the line changes on arriving at position `i` of the path.
pub open spec fn changes_at(ss: Seq<StationView>, path: Seq<usize>, i: int) -> bool {
    ss[path[i - 1] as int].line != ss[path[i] as int].line
}

/// The stations among positions `1..k` of the path where the line changes.
pub open spec fn changes_upto(ss: Seq<StationView>, path: Seq<usize>, k: int) -> Seq<usize>
    decreases k,
{
    if k <= 1 {
        seq![]
    } else if changes_at(ss, path, k - 1) {
        changes_upto(ss, path, k - 1).push(path[k - 1])
    } else {
        changes_upto(ss, path, k - 1)
    }
}

/// The termini toward which one rides: one for the first line, then one after
/// each change among positions `1..k` that has a next station.
pub open spec fn dirs_upto(ss: Seq<StationView>, ts: Seq<Trip>, path: Seq<usize>, k: int) -> Option<Seq<usize>>
    decreases k,
{
    if k <= 1 {
        match terminus(ss, ts, path[0] as int, path[1] as int, walk_limit(ts)) {
            Some(t) => Some(seq![t]),
            None => None,
        }
    } else {
        match dirs_upto(ss, ts, path, k - 1) {
            None => None,
            Some(ds) => if changes_at(ss, path, k - 1) && k < path.len() {
                match terminus(ss, ts, path[k - 1] as int, path[k] as int, walk_limit(ts)) {
                    Some(t) => Some(ds.push(t)),
                    None => None,
                }
            } else {
                Some(ds)
            },
        }
    }
}

/// The route from the predecessors `p`: its stations, its changes of line and
/// its termini.
pub open spec fn route(ss: Seq<StationView>, ts: Seq<Trip>, p: Seq<usize>, start: int, end: int) -> Result<
    (Seq<usize>, Seq<usize>, Seq<usize>),
    RouteError,
> {
    if !reaches(p, end, start, p.len()) {
        Err(RouteError::NoRoute)
    } else {
        let path = path_of(p, start, end);
        if path.len() < 2 {
            Ok((path, seq![], seq![]))
        } else {
            match dirs_upto(ss, ts, path, path.len() as int) {
                None => Err(RouteError::NoTerminus),
                Some(ds) => Ok((path, changes_upto(ss, path, path.len() as int), ds)),
            }
        }
    }
}

/// An itinerary between two stations.
#[derive(Debug)]
pub struct Results {
    pub start: usize,
    /// The stations where the line changes, in travel order.
    pub changes: Vec<usize>,
    /// The terminus to ride toward on each line, in travel order.
    pub directions: Vec<usize>,
    /// The travel time, as minutes and seconds.
    pub time: (usize, usize),
    pub end: usize,
    /// Every station passed, from `start` to `end`.
    pub path: Vec<usize>,
}

proof fn lemma_dirs_none_stays(ss: Seq<StationView>, ts: Seq<Trip>, path: Seq<usize>, k: int, m: int)
    requires
        1 <= k <= m,
        dirs_upto(ss, ts, path, k) is None,
    ensures
        dirs_upto(ss, ts, path, m) is None,
    decreases m - k,
{
    if k < m {
        lemma_dirs_none_stays(ss, ts, path, k, m - 1);
    }
}

proof fn lemma_back_path(p: Seq<usize>, x: int, start: int, fuel: nat)
    requires
        p.len() <= usize::MAX,
        0 <= start < p.len(),
        0 <= x < p.len(),
        forall|v: int| 0 <= v < p.len() ==> #[trigger] p[v] == NONE || p[v] < p.len(),
    ensures
        forall|q: int| 0 <= q < back_path(p, x, start, fuel).len() ==> (#[trigger] back_path(p, x, start, fuel)[q]) < p.len(),
        back_path(p, x, start, fuel).len() >= 1,
        back_path(p, x, start, fuel)[0] == x,
        reaches(p, x, start, fuel) && x != start ==> back_path(p, x, start, fuel).len() >= 2,
        reaches(p, x, start, fuel) ==> back_path(p, x, start, fuel).last() == start,
    decreases fuel,
{
    if !(x == start || fuel == 0 || p[x] == NONE) {
        let y = p[x] as int;
        lemma_back_path(p, y, start, (fuel - 1) as nat);
        let rest = back_path(p, y, start, (fuel - 1) as nat);
        let all = back_path(p, x, start, fuel);
        assert(all == seq![x as usize] + rest);
        assert(all[0] == x);
        assert(all.last() == rest.last());
        assert forall|q: int| 0 <= q < all.len() implies (#[trigger] all[q]) < p.len() by {
            if q > 0 {
                assert(all[q] == rest[q - 1]);
            }
        }
    } else {
        assert(back_path(p, x, start, fuel) == seq![x as usize]);
    }
}

impl Metro {
    /// The stations, changes of line and termini of the route that the
    /// predecessors `prevs` give from `start` to `end`.
    pub fn get_changes(&self, start: usize, end: usize, prevs: &Vec<usize>) -> (r: Result<
        (Vec<usize>, Vec<usize>, Vec<usize>),
        RouteError,
    >)
        requires
            self.wf(),
            start < self.n(),
            end < self.n(),
            prevs@.len() == self.n(),
            forall|v: int| 0 <= v < prevs@.len() ==> #[trigger] prevs@[v] == NONE || prevs@[v] < prevs@.len(),
        ensures
            route(self.stations_view(), self.trips@, prevs@, start as int, end as int) is Err ==> r is Err
                && r->Err_0 == route(self.stations_view(), self.trips@, prevs@, start as int, end as int)->Err_0,
            route(self.stations_view(), self.trips@, prevs@, start as int, end as int) is Ok ==> r is Ok && ({
                let t = route(self.stations_view(), self.trips@, prevs@, start as int, end as int)->Ok_0;
                &&& r->Ok_0.0@ == t.0
                &&& r->Ok_0.1@ == t.1
                &&& r->Ok_0.2@ == t.2
            }),
    {
        let ghost p = prevs@;
        let ghost ss = self.stations_view();
        let ghost ts = self.trips@;
        let n = self.stations.len();
        let mut back: Vec<usize> = Vec::new();
        let mut cur = end;
        let mut fuel: usize = n;
        while cur != start
            invariant
                self.wf(),
                n == self.n(),
                p == prevs@,
                p.len() == n,
                start < n,
                cur < n,
                fuel <= n,
                forall|v: int| 0 <= v < p.len() ==> #[trigger] p[v] == NONE || p[v] < p.len(),
                back_path(p, end as int, start as int, n as nat) == back@ + back_path(p, cur as int, start as int, fuel as nat),
                reaches(p, end as int, start as int, n as nat) == reaches(p, cur as int, start as int, fuel as nat),
                forall|q: int| 0 <= q < back@.len() ==> #[trigger] back@[q] < n,
            decreases fuel,
        {
            if fuel == 0 || prevs[cur] == NONE {
                return Err(RouteError::NoRoute);
            }
            let ghost old_back = back@;
            back.push(cur);
            proof {
                assert(back_path(p, cur as int, start as int, fuel as nat) == seq![cur] + back_path(p, p[cur as int] as int, start as int, (fuel - 1) as nat));
                assert(old_back + (seq![cur] + back_path(p, p[cur as int] as int, start as int, (fuel - 1) as nat))
                    =~= back@ + back_path(p, p[cur as int] as int, start as int, (fuel - 1) as nat));
            }
            cur = prevs[cur];
            fuel = fuel - 1;
        }
        back.push(start);
        assert(reaches(p, end as int, start as int, n as nat));
        proof {
            assert(back_path(p, cur as int, start as int, fuel as nat) == seq![start]);
            assert(back@ =~= back_path(p, end as int, start as int, n as nat));
        }
        let len = back.len();
        let mut path: Vec<usize> = Vec::new();
        let mut i: usize = 0;
        while i < len
            invariant
                len == back@.len(),
                len >= 1,
                i <= len,
                p == prevs@,
                reaches(p, end as int, start as int, n as nat),
                back@ == back_path(p, end as int, start as int, n as nat),
                path@.len() == i,
                forall|q: int| 0 <= q < i ==> #[trigger] path@[q] == back@[len - 1 - q],
            decreases len - i,
        {
            path.push(back[len - 1 - i]);
            i = i + 1;
        }
        proof {
            assert(path@ =~= back@.reverse());
            assert(path@ == path_of(p, start as int, end as int));
            lemma_back_path(p, end as int, start as int, n as nat);
        }
        let mut changes: Vec<usize> = Vec::new();
        let mut directions: Vec<usize> = Vec::new();
        if len < 2 {
            return Ok((path, changes, directions));
        }
        match self.get_terminus(path[0], path[1]) {
            None => {
                proof { lemma_dirs_none_stays(ss, ts, path@, 1, len as int); }
                return Err(RouteError::NoTerminus);
            },
            Some(t) => {
                directions.push(t);
            },
        }
        assert(directions@ =~= seq![directions@[0]]);
        let mut i: usize = 1;
        while i < len
            invariant
                self.wf(),
                ss == self.stations_view(),
                ts == self.trips@,
                n == self.n(),
                len == path@.len(),
                len >= 2,
                1 <= i <= len,
                p == prevs@,
                p.len() == n,
                reaches(p, end as int, start as int, n as nat),
                path@ == path_of(p, start as int, end as int),
                forall|q: int| 0 <= q < len ==> #[trigger] path@[q] < n,
                changes@ == changes_upto(ss, path@, i as int),
                dirs_upto(ss, ts, path@, i as int) == Some(directions@),
            decreases len - i,
        {
            let a = path[i - 1];
            let b = path[i];
            if !(self.stations[a].line == self.stations[b].line) {
                changes.push(b);
                if i + 1 < len {
                    match self.get_terminus(b, path[i + 1]) {
                        None => {
                            proof {
                                assert(changes_at(ss, path@, i as int));
                                assert(dirs_upto(ss, ts, path@, i as int + 1) is None);
                                lemma_dirs_none_stays(ss, ts, path@, i as int + 1, len as int);
                            }
                            return Err(RouteError::NoTerminus);
                        },
                        Some(t) => {
                            directions.push(t);
                        },
                    }
                }
            }
            i = i + 1;
        }
        Ok((path, changes, directions))
    }

    /// The fastest route from `start` to `end`, searching the whole network.
    /// Reaching a station costs its travel time plus a stop of `STOP_TIME`.
    pub fn dijkstra(&self, start: usize, end: usize) -> (r: Result<Results, RouteError>)
        requires
            self.wf(),
            start < self.n(),
            end < self.n(),
        ensures
            ({
                let s = searched(self, start as int);
                let t = route(self.stations_view(), self.trips@, s.prev, start as int, end as int);
                &&& t is Err ==> r is Err && r->Err_0 == t->Err_0
                &&& t is Ok ==> r is Ok && ({
                    let res = r->Ok_0;
                    &&& res.start == start
                    &&& res.end == end
                    &&& res.time == (s.dist[end as int] / 60, s.dist[end as int] % 60)
                    &&& res.path@ == t->Ok_0.0
                    &&& res.changes@ == t->Ok_0.1
                    &&& res.directions@ == t->Ok_0.2
                })
            }),
            start == end ==> r is Ok && r->Ok_0.time == (0usize, 0usize) && r->Ok_0.changes@.len() == 0
                && r->Ok_0.directions@.len() == 0 && r->Ok_0.path@ == seq![start],
            start != end && searched(self, start as int).dist[end as int] == NONE ==> r is Err
                && r->Err_0 == RouteError::NoRoute,
    {
        proof {
            lemma_searched(self, start as int);
        }
        let (distance, prevs) = self.search(start);
        let time = crate::search::get_time(distance[end]);
        proof {
            let p = prevs@;
            if start == end {
                assert(back_path(p, end as int, start as int, p.len()) == seq![start]);
                assert(seq![start].reverse() =~= seq![start]);
            }
        }
        match self.get_changes(start, end, &prevs) {
            Err(e) => Err(e),
            Ok((path, changes, directions)) => Ok(Results { start, changes, directions, time, end, path }),
        }
    }
}

proof fn lemma_dirs_len(ss: Seq<StationView>, ts: Seq<Trip>, path: Seq<usize>, k: int)
    requires
        1 <= k < path.len(),
        dirs_upto(ss, ts, path, k) is Some,
    ensures
        dirs_upto(ss, ts, path, k)->0.len() == changes_upto(ss, path, k).len() + 1,
    decreases k,
{
    if k > 1 {
        lemma_dirs_len(ss, ts, path, k - 1);
    }
}

/// On a route of two stations or more whose last two stations share a line,
/// there is one terminus more than there are changes of line: one for the
/// first line and one after each change.
pub proof fn lemma_directions_count(m: &Metro, start: int, end: int)
    requires
        m.wf(),
        0 <= start < m.n(),
        0 <= end < m.n(),
        start != end,
        route(m.stations_view(), m.trips@, searched(m, start).prev, start, end) is Ok,
        ({
            let path = route(m.stations_view(), m.trips@, searched(m, start).prev, start, end)->Ok_0.0;
            path.len() >= 2 && !changes_at(m.stations_view(), path, path.len() - 1)
        }),
    ensures
        ({
            let t = route(m.stations_view(), m.trips@, searched(m, start).prev, start, end)->Ok_0;
            t.2.len() == t.1.len() + 1
        }),
{
    let ss = m.stations_view();
    let ts = m.trips@;
    let p = searched(m, start).prev;
    let path = path_of(p, start, end);
    let len = path.len() as int;
    if dirs_upto(ss, ts, path, len - 1) is None {
        lemma_dirs_none_stays(ss, ts, path, len - 1, len);
    }
    lemma_dirs_len(ss, ts, path, len - 1);
}

/// The path cut before each change of line among positions `1..k`: the
/// stretches ridden on one line, in order.
pub open spec fn segments(ss: Seq<StationView>, path: Seq<usize>, k: int) -> Seq<Seq<usize>>
    decreases k,
{
    if k <= 1 {
        seq![seq![path[0]]]
    } else {
        let s = segments(ss, path, k - 1);
        if changes_at(ss, path, k - 1) {
            s.push(seq![path[k - 1]])
        } else {
            s.drop_last().push(s.last().push(path[k - 1]))
        }
    }
}

/// What cutting a path at its changes of line gives: stretches on one line
/// each, the later ones starting at the changes, which joined give the path back.
pub open spec fn segments_rebuild(ss: Seq<StationView>, path: Seq<usize>, changes: Seq<usize>, k: int) -> bool {
    let segs = segments(ss, path, k);
    &&& segs.flatten() == path.take(k)
    &&& segs.len() == changes.len() + 1
    &&& forall|j: int| 1 <= j < segs.len() ==> (#[trigger] segs[j])[0] == changes[j - 1]
    &&& forall|j: int| 0 <= j < segs.len() ==> (#[trigger] segs[j]).len() >= 1
    &&& forall|j: int, q: int| 0 <= j < segs.len() && 0 <= q < segs[j].len()
        ==> ss[(#[trigger] segs[j][q]) as int].line == ss[segs[j][0] as int].line
}

proof fn lemma_segments(ss: Seq<StationView>, path: Seq<usize>, k: int)
    requires
        1 <= k <= path.len(),
    ensures
        segments_rebuild(ss, path, changes_upto(ss, path, k), k),
    decreases k,
{
    let segs = segments(ss, path, k);
    if k == 1 {
        segs.lemma_flatten_one_element();
        assert(segs.flatten() =~= path.take(1));
    } else {
        lemma_segments(ss, path, k - 1);
        let s = segments(ss, path, k - 1);
        let ch = changes_upto(ss, path, k - 1);
        s.lemma_flatten_and_flatten_alt_are_equivalent();
        segs.lemma_flatten_and_flatten_alt_are_equivalent();
        if changes_at(ss, path, k - 1) {
            assert(segs.drop_last() =~= s);
            assert(segs.flatten_alt() == s.flatten_alt() + seq![path[k - 1]]);
            assert(segs.flatten() =~= path.take(k));
            let ch2 = changes_upto(ss, path, k);
            assert(ch2 == ch.push(path[k - 1]));
            assert forall|j: int| 1 <= j < segs.len() implies (#[trigger] segs[j])[0] == ch2[j - 1] by {
                if j < segs.len() - 1 {
                    assert(segs[j] == s[j]);
                }
            }
            assert forall|j: int, q: int| 0 <= j < segs.len() && 0 <= q < segs[j].len()
                implies ss[(#[trigger] segs[j][q]) as int].line == ss[segs[j][0] as int].line by {
                if j < segs.len() - 1 {
                    assert(segs[j] == s[j]);
                }
            }
        } else {
            let last = s.last();
            let rest = s.drop_last();
            assert(segs.drop_last() =~= rest);
            rest.lemma_flatten_and_flatten_alt_are_equivalent();
            assert(s.flatten_alt() == rest.flatten_alt() + last);
            assert(segs.flatten_alt() == rest.flatten_alt() + last.push(path[k - 1]));
            assert(segs.flatten() =~= path.take(k));
            let lj = s.len() - 1;
            assert(s[lj] == last);
            assert(last[last.len() - 1] == path[k - 2]) by {
                assert(s.flatten() == path.take(k - 1));
                assert(s.flatten_alt() == rest.flatten_alt() + last);
                assert((rest.flatten_alt() + last)[(k - 2)] == last[last.len() - 1]);
            }
            assert forall|j: int| 1 <= j < segs.len() implies (#[trigger] segs[j])[0] == ch[j - 1] by {
                if j < segs.len() - 1 {
                    assert(segs[j] == s[j]);
                } else {
                    assert(segs[j] == last.push(path[k - 1]));
                    assert(segs[j][0] == last[0]);
                }
            }
            assert forall|j: int, q: int| 0 <= j < segs.len() && 0 <= q < segs[j].len()
                implies ss[(#[trigger] segs[j][q]) as int].line == ss[segs[j][0] as int].line by {
                if j < segs.len() - 1 {
                    assert(segs[j] == s[j]);
                } else {
                    assert(segs[j] == last.push(path[k - 1]));
                    if q < last.len() {
                        assert(segs[j][q] == s[lj][q]);
                    } else {
                        assert(ss[path[k - 2] as int].line == ss[path[k - 1] as int].line);
                        assert(ss[s[lj][last.len() - 1] as int].line == ss[s[lj][0] as int].line);
                    }
                }
            }
        }
    }
}

/// Cutting the route before each change of line gives stretches ridden on one
/// line each, every stretch after the first starting at its change of line,
/// and joining the stretches gives back exactly the stations of the route.
pub proof fn lemma_segments_rebuild_path(m: &Metro, start: int, end: int)
    requires
        m.wf(),
        0 <= start < m.n(),
        0 <= end < m.n(),
        route(m.stations_view(), m.trips@, searched(m, start).prev, start, end) is Ok,
    ensures
        ({
            let t = route(m.stations_view(), m.trips@, searched(m, start).prev, start, end)->Ok_0;
            segments_rebuild(m.stations_view(), t.0, t.1, t.0.len() as int)
        }),
{
    let ss = m.stations_view();
    let p = searched(m, start).prev;
    let path = path_of(p, start, end);
    assert(back_path(p, end, start, p.len()).len() >= 1);
    assert(path.len() >= 1);
    lemma_segments(ss, path, path.len() as int);
    assert(path.take(path.len() as int) =~= path);
    if path.len() < 2 {
        assert(changes_upto(ss, path, path.len() as int) =~= seq![]);
    }
}

/// Stations that no walk over the trips joins have no route between them.
pub proof fn lemma_disconnected_no_route(m: &Metro, start: int, end: int)
    requires
        m.wf(),
        0 <= start < m.n(),
        0 <= end < m.n(),
        start != end,
        !connected(m.trips@, start, end),
    ensures
        route(m.stations_view(), m.trips@, searched(m, start).prev, start, end) == Err::<
            (Seq<usize>, Seq<usize>, Seq<usize>),
            RouteError,
        >(RouteError::NoRoute),
{
    lemma_unreached(m, start, end);
    let p = searched(m, start).prev;
    assert(!reaches(p, end, start, p.len()));
}

/// `a` is a shorter time than `b`, comparing minutes first, then seconds.
pub open spec fn time_lt(a: (usize, usize), b: (usize, usize)) -> bool {
    a.0 < b.0 || (a.0 == b.0 && a.1 < b.1)
}

/// The position of the fastest itinerary, the first one among equals; `None`
/// when there is none.
pub fn fastest(results: &Vec<Results>) -> (r: Option<usize>)
    ensures
        r is None <==> results@.len() == 0,
        r matches Some(i) ==> {
            &&& i < results@.len()
            &&& forall|j: int| 0 <= j < results@.len() ==> !time_lt(#[trigger] results@[j].time, results@[i as int].time)
            &&& forall|j: int| 0 <= j < i ==> time_lt(results@[i as int].time, #[trigger] results@[j].time)
        },
{
    if results.len() == 0 {
        return None;
    }
    let mut best: usize = 0;
    let mut i: usize = 1;
    while i < results.len()
        invariant
            1 <= i <= results@.len(),
            best < i,
            forall|j: int| 0 <= j < i ==> !time_lt(#[trigger] results@[j].time, results@[best as int].time),
            forall|j: int| 0 <= j < best ==> time_lt(results@[best as int].time, #[trigger] results@[j].time),
        decreases results@.len() - i,
    {
        let a = results[i].time;
        let b = results[best].time;
        if a.0 < b.0 || (a.0 == b.0 && a.1 < b.1) {
            best = i;
        }
        i = i + 1;
    }
    Some(best)
}

/// The route that a search from `s` gives to `e`.
pub open spec fn outcome(m: &Metro, s: int, e: int) -> Result<(Seq<usize>, Seq<usize>, Seq<usize>), RouteError> {
    route(m.stations_view(), m.trips@, searched(m, s).prev, s, e)
}

/// The travel time from `s` to `e`, as minutes and seconds.
pub open spec fn time_of(m: &Metro, s: int, e: int) -> (usize, usize) {
    let d = searched(m, s).dist[e];
    (d / 60, d % 60)
}

/// `res` is the itinerary from `s` to `e`.
pub open spec fn is_itinerary(m: &Metro, res: Results, s: int, e: int) -> bool {
    &&& outcome(m, s, e) is Ok
    &&& res.start == s
    &&& res.end == e
    &&& res.time == time_of(m, s, e)
    &&& res.path@ == outcome(m, s, e)->Ok_0.0
    &&& res.changes@ == outcome(m, s, e)->Ok_0.1
    &&& res.directions@ == outcome(m, s, e)->Ok_0.2
}

/// Pair `(i, j)` comes before pair `(a, b)` when departures are taken in
/// order, and for each departure the arrivals in order.
pub open spec fn pair_before(i: int, j: int, a: int, b: int) -> bool {
    i < a || (i == a && j < b)
}

/// `res` is the itinerary of pair `(a, b)`, none is faster, and every pair
/// before it is slower.
pub open spec fn best_at(m: &Metro, deps: Seq<usize>, arrs: Seq<usize>, res: Results, a: int, b: int) -> bool {
    &&& 0 <= a < deps.len()
    &&& 0 <= b < arrs.len()
    &&& is_itinerary(m, res, deps[a] as int, arrs[b] as int)
    &&& forall|i: int, j: int| 0 <= i < deps.len() && 0 <= j < arrs.len()
        && (#[trigger] outcome(m, deps[i] as int, arrs[j] as int)) is Ok ==> {
        &&& !time_lt(time_of(m, deps[i] as int, arrs[j] as int), res.time)
        &&& pair_before(i, j, a, b) ==> time_lt(res.time, time_of(m, deps[i] as int, arrs[j] as int))
    }
}

impl Metro {
    /// The fastest itinerary from any of `departures` to any of `arrivals`,
    /// the first one found among equally fast ones; when no pair has a route,
    /// the error of the first pair.
    pub fn best_route(&self, departures: &Vec<usize>, arrivals: &Vec<usize>) -> (r: Result<Results, RouteError>)
        requires
            self.wf(),
            departures@.len() > 0,
            arrivals@.len() > 0,
            forall|i: int| 0 <= i < departures@.len() ==> #[trigger] departures@[i] < self.n(),
            forall|j: int| 0 <= j < arrivals@.len() ==> #[trigger] arrivals@[j] < self.n(),
        ensures
            r is Err <==> forall|i: int, j: int| 0 <= i < departures@.len() && 0 <= j < arrivals@.len()
                ==> #[trigger] outcome(self, departures@[i] as int, arrivals@[j] as int) is Err,
            r is Err ==> r->Err_0 == outcome(self, departures@[0] as int, arrivals@[0] as int)->Err_0,
            r is Ok ==> exists|a: int, b: int| #[trigger] best_at(self, departures@, arrivals@, r->Ok_0, a, b),
    {
        let mut best: Option<Results> = None;
        let mut first_err: RouteError = RouteError::NoRoute;
        let ghost mut ba: int = 0;
        let ghost mut bb: int = 0;
        let mut i: usize = 0;
        while i < departures.len()
            invariant
                self.wf(),
                0 < departures@.len(),
                0 < arrivals@.len(),
                i <= departures@.len(),
                forall|q: int| 0 <= q < departures@.len() ==> #[trigger] departures@[q] < self.n(),
                forall|q: int| 0 <= q < arrivals@.len() ==> #[trigger] arrivals@[q] < self.n(),
                i > 0 ==> first_err == outcome(self, departures@[0] as int, arrivals@[0] as int)->Err_0
                    || outcome(self, departures@[0] as int, arrivals@[0] as int) is Ok,
                best is None <==> forall|x: int, y: int| 0 <= x < i && 0 <= y < arrivals@.len()
                    ==> #[trigger] outcome(self, departures@[x] as int, arrivals@[y] as int) is Err,
                best matches Some(res) ==> {
                    &&& 0 <= ba < i
                    &&& 0 <= bb < arrivals@.len()
                    &&& is_itinerary(self, res, departures@[ba] as int, arrivals@[bb] as int)
                    &&& forall|x: int, y: int| 0 <= x < i && 0 <= y < arrivals@.len()
                        && (#[trigger] outcome(self, departures@[x] as int, arrivals@[y] as int)) is Ok ==> {
                        &&& !time_lt(time_of(self, departures@[x] as int, arrivals@[y] as int), res.time)
                        &&& pair_before(x, y, ba, bb) ==> time_lt(res.time, time_of(self, departures@[x] as int, arrivals@[y] as int))
                    }
                },
            decreases departures@.len() - i,
        {
            let mut j: usize = 0;
            while j < arrivals.len()
                invariant
                    self.wf(),
                    0 < departures@.len(),
                    0 < arrivals@.len(),
                    i < departures@.len(),
                    j <= arrivals@.len(),
                    forall|q: int| 0 <= q < departures@.len() ==> #[trigger] departures@[q] < self.n(),
                    forall|q: int| 0 <= q < arrivals@.len() ==> #[trigger] arrivals@[q] < self.n(),
                    (i > 0 || j > 0) ==> first_err == outcome(self, departures@[0] as int, arrivals@[0] as int)->Err_0
                        || outcome(self, departures@[0] as int, arrivals@[0] as int) is Ok,
                    best is None <==> forall|x: int, y: int| 0 <= x < departures@.len() && 0 <= y < arrivals@.len()
                        && pair_before(x, y, i as int, j as int)
                        ==> #[trigger] outcome(self, departures@[x] as int, arrivals@[y] as int) is Err,
                    best matches Some(res) ==> {
                        &&& 0 <= ba < departures@.len()
                        &&& 0 <= bb < arrivals@.len()
                        &&& pair_before(ba, bb, i as int, j as int)
                        &&& is_itinerary(self, res, departures@[ba] as int, arrivals@[bb] as int)
                        &&& forall|x: int, y: int| 0 <= x < departures@.len() && 0 <= y < arrivals@.len()
                            && pair_before(x, y, i as int, j as int)
                            && (#[trigger] outcome(self, departures@[x] as int, arrivals@[y] as int)) is Ok ==> {
                            &&& !time_lt(time_of(self, departures@[x] as int, arrivals@[y] as int), res.time)
                            &&& pair_before(x, y, ba, bb) ==> time_lt(res.time, time_of(self, departures@[x] as int, arrivals@[y] as int))
                        }
                    },
                decreases arrivals@.len() - j,
            {
                let s = departures[i];
                let e = arrivals[j];
                match self.dijkstra(s, e) {
                    Err(err) => {
                        if i == 0 && j == 0 {
                            first_err = err;
                        }
                    },
                    Ok(res) => {
                        let better = match &best {
                            None => true,
                            Some(b) => res.time.0 < b.time.0 || (res.time.0 == b.time.0 && res.time.1 < b.time.1),
                        };
                        if better {
                            best = Some(res);
                            proof {
                                ba = i as int;
                                bb = j as int;
                            }
                        }
                    },
                }
                j = j + 1;
            }
            i = i + 1;
        }
        match best {
            Some(res) => {
                assert(best_at(self, departures@, arrivals@, res, ba, bb));
                let r = Ok(res);
                assert(r->Ok_0 == res);
                r
            },
            None => Err(first_err),
        }
    }
}

} // verus!
