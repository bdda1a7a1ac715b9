//! The network: stations indexed by id and the trips between them.
use vstd::prelude::*;

use crate::records::{
    Station, StationView, Trip, station_of, trip_of, valid_station_record, valid_trip_record,
};

verus! {

/// The time in seconds spent at each station reached during a search.
pub const STOP_TIME: usize = 30;

/// Why a network description was refused; each variant carries the position of
/// the offending record (among all records) or station or trip.
#[derive(Clone, Copy, PartialEq, Eq, Debug)]
pub enum LoadError {
    /// A record starting with `V` is not a valid station record.
    BadStation(usize),
    /// A record starting with `E` is not a valid trip record.
    BadTrip(usize),
    /// The station at this position does not carry this position as its id.
    IdMismatch(usize),
    /// This trip names a station that does not exist.
    UnknownStation(usize),
    /// This trip is too long for times on the network to be counted.
    TooLong(usize),
}

/// The stations and trips that the records describe, in order, or the first
/// malformed record.
pub open spec fn load(recs: Seq<Seq<char>>, k: int) -> Result<(Seq<StationView>, Seq<Trip>), LoadError>
    decreases k,
{
    if k <= 0 {
        Ok((seq![], seq![]))
    } else {
        match load(recs, k - 1) {
            Err(e) => Err(e),
            Ok((ss, ts)) => {
                let r = recs[k - 1];
                if r.len() > 0 && r[0] == 'V' {
                    if valid_station_record(r) {
                        Ok((ss.push(station_of(r)), ts))
                    } else {
                        Err(LoadError::BadStation((k - 1) as usize))
                    }
                } else if r.len() > 0 && r[0] == 'E' {
                    if valid_trip_record(r) {
                        Ok((ss, ts.push(trip_of(r))))
                    } else {
                        Err(LoadError::BadTrip((k - 1) as usize))
                    }
                } else {
                    Ok((ss, ts))
                }
            },
        }
    }
}

/// What a list of records describes.
pub open spec fn load_all(records: Seq<String>) -> Result<(Seq<StationView>, Seq<Trip>), LoadError> {
    load(records.map_values(|s: String| s@), records.len() as int)
}

/// A trip whose times can be summed over a search of `n` stations.
pub open spec fn time_fits(n: int, t: Trip) -> bool {
    n * (t.time + STOP_TIME) < usize::MAX
}

pub open spec fn trip_ok(n: int, t: Trip) -> bool {
    &&& t.first < n
    &&& t.second < n
    &&& time_fits(n, t)
}

/// Each station's id is its position.
pub open spec fn ids_dense(ss: Seq<StationView>) -> bool {
    forall|i: int| 0 <= i < ss.len() ==> (#[trigger] ss[i]).id == i
}

pub open spec fn trips_ok(n: int, ts: Seq<Trip>) -> bool {
    forall|j: int| 0 <= j < ts.len() ==> trip_ok(n, #[trigger] ts[j])
}

/// The trips at station `c`, in order, each as the station at its other end and
/// its travel time.
pub open spec fn neighbors(ts: Seq<Trip>, c: int) -> Seq<(usize, usize)>
    decreases ts.len(),
{
    if ts.len() == 0 {
        seq![]
    } else {
        let rest = neighbors(ts.drop_last(), c);
        let t = ts.last();
        if t.first == c {
            rest.push((t.second, t.time))
        } else if t.second == c {
            rest.push((t.first, t.time))
        } else {
            rest
        }
    }
}

/// The positions of the stations called `name`, in order.
pub open spec fn named(ss: Seq<StationView>, name: Seq<char>) -> Seq<usize>
    decreases ss.len(),
{
    if ss.len() == 0 {
        seq![]
    } else if ss.last().name == name {
        named(ss.drop_last(), name).push((ss.len() - 1) as usize)
    } else {
        named(ss.drop_last(), name)
    }
}

/// The last trip at `curr` that stays on the line of `curr` without leading
/// back to `prev`, as the station it leads to.
pub open spec fn step_on_line(ss: Seq<StationView>, ns: Seq<(usize, usize)>, prev: int, curr: int) -> Option<usize>
    decreases ns.len(),
{
    if ns.len() == 0 {
        None
    } else {
        let o = ns.last().0;
        if ss[o as int].line == ss[curr].line && o != prev {
            Some(o)
        } else {
            step_on_line(ss, ns.drop_last(), prev, curr)
        }
    }
}

/// The terminus reached by riding on from `prev` through `curr` along the line of
/// `curr` for at most `fuel` steps, or `None` when the ride stops short of one.
pub open spec fn terminus(ss: Seq<StationView>, ts: Seq<Trip>, prev: int, curr: int, fuel: nat) -> Option<usize>
    decreases fuel,
{
    if ss[curr].state {
        Some(curr as usize)
    } else if fuel == 0 {
        None
    } else {
        match step_on_line(ss, neighbors(ts, curr), prev, curr) {
            None => None,
            Some(next) => terminus(ss, ts, curr, next as int, (fuel - 1) as nat),
        }
    }
}

/// How far a ride toward a terminus goes: a ride moves from one directed trip to
/// the next as a function of the trip alone, so one that has used more steps
/// than there are directed trips repeats itself and never reaches a terminus.
pub open spec fn walk_limit(ts: Seq<Trip>) -> nat {
    2 * ts.len() + 1
}

/// A metro network. Station `i` sits at position `i` of `stations`.
pub struct Metro {
    pub stations: Vec<Station>,
    pub trips: Vec<Trip>,
}

impl Metro {
    pub open spec fn stations_view(&self) -> Seq<StationView> {
        self.stations@.map_values(|s: Station| s@)
    }

    pub open spec fn n(&self) -> int {
        self.stations@.len() as int
    }

    /// Ids match positions, and every trip joins two stations of the network.
    pub open spec fn wf(&self) -> bool {
        &&& ids_dense(self.stations_view())
        &&& trips_ok(self.n(), self.trips@)
    }

    /// Builds the network from its records, one per line. Records starting with
    /// `V` are stations, those starting with `E` trips, and other records are
    /// skipped.
    pub fn new(records: &Vec<String>) -> (r: Result<Metro, LoadError>)
        ensures
            r is Ok <==> ({
                &&& load_all(records@) is Ok
                &&& ids_dense(load_all(records@)->Ok_0.0)
                &&& trips_ok(
                    load_all(records@)->Ok_0.0.len() as int,
                    load_all(records@)->Ok_0.1,
                )
            }),
            r is Ok ==> ({
                let m = r->Ok_0;
                let l = load_all(records@)->Ok_0;
                &&& m.wf()
                &&& m.stations_view() == l.0
                &&& m.trips@ == l.1
            }),
            load_all(records@) is Err ==> r is Err && r->Err_0 == load_all(records@)->Err_0,
            r matches Err(LoadError::IdMismatch(i)) ==> ({
                let ss = load_all(records@)->Ok_0.0;
                &&& i < ss.len()
                &&& ss[i as int].id != i
                &&& forall|j: int| 0 <= j < i ==> (#[trigger] ss[j]).id == j
            }),
            r matches Err(LoadError::UnknownStation(i)) ==> ({
                let l = load_all(records@)->Ok_0;
                &&& ids_dense(l.0)
                &&& i < l.1.len()
                &&& !(l.1[i as int].first < l.0.len() && l.1[i as int].second < l.0.len())
                &&& forall|j: int| 0 <= j < i ==> trip_ok(l.0.len() as int, #[trigger] l.1[j])
            }),
            r matches Err(LoadError::TooLong(i)) ==> ({
                let l = load_all(records@)->Ok_0;
                &&& ids_dense(l.0)
                &&& i < l.1.len()
                &&& l.1[i as int].first < l.0.len() && l.1[i as int].second < l.0.len()
                &&& !time_fits(l.0.len() as int, l.1[i as int])
                &&& forall|j: int| 0 <= j < i ==> trip_ok(l.0.len() as int, #[trigger] l.1[j])
            }),
    {
        let ghost recs = records@.map_values(|s: String| s@);
        let mut stations: Vec<Station> = Vec::new();
        let mut trips: Vec<Trip> = Vec::new();
        let mut k: usize = 0;
        while k < records.len()
            invariant
                k <= records@.len(),
                recs == records@.map_values(|s: String| s@),
                load(recs, k as int) is Ok,
                stations@.map_values(|s: Station| s@) == load(recs, k as int)->Ok_0.0,
                trips@ == load(recs, k as int)->Ok_0.1,
            decreases records@.len() - k,
        {
            let rec = records[k].as_str();
            let ghost before = load(recs, k as int)->Ok_0;
            let first = crate::records::chars_of(rec);
            proof {
                assert(recs[k as int] == rec@);
            }
            if first.len() > 0 && first[0] == 'V' {
                match Station::new(rec) {
                    Some(s) => {
                        stations.push(s);
                        assert(stations@.map_values(|s: Station| s@) =~= before.0.push(station_of(rec@)));
                    },
                    None => {
                        proof { lemma_load_err_stays(recs, k as int + 1, records@.len() as int); }
                        return Err(LoadError::BadStation(k));
                    },
                }
            } else if first.len() > 0 && first[0] == 'E' {
                match Trip::new(rec) {
                    Some(t) => {
                        trips.push(t);
                    },
                    None => {
                        proof { lemma_load_err_stays(recs, k as int + 1, records@.len() as int); }
                        return Err(LoadError::BadTrip(k));
                    },
                }
            }
            k = k + 1;
        }
        let ghost ss = stations@.map_values(|s: Station| s@);
        let ghost l = load_all(records@);
        assert(l == load(recs, k as int));
        let n = stations.len();
        let mut i: usize = 0;
        while i < n
            invariant
                n == stations@.len(),
                i <= n,
                ss == stations@.map_values(|s: Station| s@),
                l == load_all(records@),
                l is Ok,
                ss == l->Ok_0.0,
                trips@ == l->Ok_0.1,
                forall|j: int| 0 <= j < i ==> (#[trigger] ss[j]).id == j,
            decreases n - i,
        {
            if stations[i].id != i {
                assert(ss[i as int].id != i);
                return Err(LoadError::IdMismatch(i));
            }
            i = i + 1;
        }
        let mut j: usize = 0;
        while j < trips.len()
            invariant
                n == stations@.len(),
                j <= trips@.len(),
                ss == stations@.map_values(|s: Station| s@),
                l == load_all(records@),
                l is Ok,
                ss == l->Ok_0.0,
                trips@ == l->Ok_0.1,
                ids_dense(ss),
                forall|q: int| 0 <= q < j ==> trip_ok(n as int, #[trigger] trips@[q]),
            decreases trips@.len() - j,
        {
            let t = trips[j];
            if t.first >= n || t.second >= n {
                return Err(LoadError::UnknownStation(j));
            }
            if t.time > usize::MAX - STOP_TIME {
                proof {
                    assert(n * (t.time + STOP_TIME) >= t.time + STOP_TIME) by (nonlinear_arith)
                        requires n > t.first;
                }
                return Err(LoadError::TooLong(j));
            }
            let per = t.time + STOP_TIME;
            match n.checked_mul(per) {
                Some(total) if total < usize::MAX => {},
                _ => {
                    return Err(LoadError::TooLong(j));
                },
            }
            j = j + 1;
        }
        Ok(Metro { stations, trips })
    }
}

impl Metro {
    /// The trips at station `current`, in registry order, each as the station at
    /// its other end and its travel time.
    pub fn get_paths_to_neighboors(&self, current: usize) -> (r: Vec<(usize, usize)>)
        ensures
            r@ == neighbors(self.trips@, current as int),
    {
        let mut paths: Vec<(usize, usize)> = Vec::new();
        let mut j: usize = 0;
        while j < self.trips.len()
            invariant
                j <= self.trips@.len(),
                paths@ == neighbors(self.trips@.take(j as int), current as int),
            decreases self.trips@.len() - j,
        {
            let t = self.trips[j];
            proof {
                assert(self.trips@.take(j as int + 1).drop_last() =~= self.trips@.take(j as int));
            }
            if t.first == current {
                paths.push((t.second, t.time));
            } else if t.second == current {
                paths.push((t.first, t.time));
            }
            j = j + 1;
        }
        assert(self.trips@.take(j as int) =~= self.trips@);
        paths
    }

    /// The ids of the stations called `name`, in order.
    pub fn get_station(&self, name: &str) -> (r: Vec<usize>)
        ensures
            r@ == named(self.stations_view(), name@),
    {
        let target = name.to_owned();
        let mut matches: Vec<usize> = Vec::new();
        let mut i: usize = 0;
        while i < self.stations.len()
            invariant
                i <= self.stations@.len(),
                target@ == name@,
                matches@ == named(self.stations_view().take(i as int), name@),
            decreases self.stations@.len() - i,
        {
            proof {
                assert(self.stations_view().take(i as int + 1).drop_last()
                    =~= self.stations_view().take(i as int));
            }
            if self.stations[i].name == target {
                matches.push(i);
            }
            i = i + 1;
        }
        assert(self.stations_view().take(i as int) =~= self.stations_view());
        matches
    }

    /// One step of a ride along the line of `curr`, arriving from `prev`.
    fn next_on_line(&self, prev: usize, curr: usize) -> (r: Option<usize>)
        requires
            self.wf(),
            curr < self.n(),
        ensures
            r == step_on_line(self.stations_view(), neighbors(self.trips@, curr as int), prev as int, curr as int),
            r matches Some(o) ==> o < self.n(),
    {
        let ns = self.get_paths_to_neighboors(curr);
        proof { lemma_neighbors_in_range(self.trips@, self.n(), curr as int); }
        let mut found: Option<usize> = None;
        let mut k: usize = 0;
        while k < ns.len()
            invariant
                self.wf(),
                curr < self.n(),
                ns@ == neighbors(self.trips@, curr as int),
                forall|q: int| 0 <= q < ns@.len() ==> (#[trigger] ns@[q]).0 < self.n(),
                k <= ns@.len(),
                found == step_on_line(self.stations_view(), ns@.take(k as int), prev as int, curr as int),
                found matches Some(o) ==> o < self.n(),
            decreases ns@.len() - k,
        {
            let o = ns[k].0;
            proof {
                assert(ns@.take(k as int + 1).drop_last() =~= ns@.take(k as int));
            }
            if self.stations[o].line == self.stations[curr].line && o != prev {
                found = Some(o);
            }
            k = k + 1;
        }
        assert(ns@.take(k as int) =~= ns@);
        found
    }

    /// The terminus toward which one rides from `prev` through `curr` on the line
    /// of `curr`: the ride keeps to that line, never turns back, and at each
    /// station takes the last trip that qualifies. `None` when the ride stops at a
    /// station that is no terminus, or goes round for ever.
    pub fn get_terminus(&self, prev: usize, curr: usize) -> (r: Option<usize>)
        requires
            self.wf(),
            curr < self.n(),
        ensures
            r == terminus(self.stations_view(), self.trips@, prev as int, curr as int, walk_limit(self.trips@)),
    {
        let mut p = prev;
        let mut c = curr;
        let mut fuel: u128 = 2 * (self.trips.len() as u128) + 1;
        while !self.stations[c].state
            invariant
                self.wf(),
                c < self.n(),
                terminus(self.stations_view(), self.trips@, prev as int, curr as int, walk_limit(self.trips@))
                    == terminus(self.stations_view(), self.trips@, p as int, c as int, fuel as nat),
            decreases fuel,
        {
            if fuel == 0 {
                return None;
            }
            match self.next_on_line(p, c) {
                None => {
                    return None;
                },
                Some(o) => {
                    p = c;
                    c = o;
                },
            }
            fuel = fuel - 1;
        }
        Some(c)
    }
}

proof fn lemma_neighbors_in_range(ts: Seq<Trip>, n: int, c: int)
    requires
        trips_ok(n, ts),
    ensures
        forall|q: int| 0 <= q < neighbors(ts, c).len() ==> (#[trigger] neighbors(ts, c)[q]).0 < n,
    decreases ts.len(),
{
    if ts.len() > 0 {
        assert(trips_ok(n, ts.drop_last()));
        lemma_neighbors_in_range(ts.drop_last(), n, c);
        assert(trip_ok(n, ts[ts.len() - 1]));
        let rest = neighbors(ts.drop_last(), c);
        assert forall|q: int| 0 <= q < neighbors(ts, c).len() implies (#[trigger] neighbors(ts, c)[q]).0 < n by {
            if q < rest.len() {
                assert(rest[q].0 < n);
            }
        }
    }
}

proof fn lemma_load_err_stays(recs: Seq<Seq<char>>, k: int, m: int)
    requires
        0 <= k <= m,
        load(recs, k) is Err,
    ensures
        load(recs, m) == load(recs, k),
    decreases m - k,
{
    if k < m {
        lemma_load_err_stays(recs, k, m - 1);
    }
}

} // verus!
