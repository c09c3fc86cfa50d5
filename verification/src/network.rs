//! The monitoring network: the station set, the distance-sorted adjacency
//! relation built through the spatial index, the isolation metric, and the
//! isolation/pollution analyses built on top of it.

use vstd::prelude::*;
use crate::station::Station;
use crate::geo::{valid_lat, valid_lon, spec_haversine_m, haversine_m, MAX_GEO_DISTANCE_M};
use crate::spatial::{SpatialIndex, cells_adjacent, DEFAULT_CELL_SIZE_UDEG};
use crate::sorting::{sort_keyed, key_leq};
use vstd::relations::sorted_by;
use vstd::arithmetic::div_mod::{lemma_div_is_ordered, lemma_div_multiples_vanish};
use crate::pollution::{PollutionData, spec_get, MAX_POLLUTION_MILLI};
use crate::stats::{
    correlation_scaled,
    spec_correlation,
    pairs_view,
    avg_first,
    sum_first,
};

verus! {


/// The position in `row` naming neighbor `j`, if any.
pub open spec fn row_slot(row: Seq<(usize, u64)>, j: usize) -> int {
    choose|k: int| 0 <= k < row.len() && (#[trigger] row[k]).0 == j
}

/// Some entry of `row` names neighbor `j`.
pub open spec fn row_contains(row: Seq<(usize, u64)>, j: usize) -> bool {
    let k = row_slot(row, j);
    0 <= k < row.len() && row[k].0 == j
}

/// A concrete entry witnesses `row_contains`.
pub proof fn lemma_row_contains(row: Seq<(usize, u64)>, j: usize, k: int)
    requires
        0 <= k < row.len(),
        row[k].0 == j,
    ensures
        row_contains(row, j),
{
    assert(0 <= k < row.len() && row[k].0 == j);
}

/// The position in `ks` whose key carries neighbor `j`, if any.
pub open spec fn key_slot(ks: Seq<(u64, u64)>, j: u64) -> int {
    choose|k: int| 0 <= k < ks.len() && (#[trigger] ks[k]).1 == j
}

/// Some key of `ks` carries neighbor `j`.
pub open spec fn keys_has(ks: Seq<(u64, u64)>, j: u64) -> bool {
    let k = key_slot(ks, j);
    0 <= k < ks.len() && ks[k].1 == j
}

/// A concrete key witnesses `keys_has`.
pub proof fn lemma_keys_has(ks: Seq<(u64, u64)>, j: u64, k: int)
    requires
        0 <= k < ks.len(),
        ks[k].1 == j,
    ensures
        keys_has(ks, j),
{
    assert(0 <= k < ks.len() && ks[k].1 == j);
}

/// `keys_has` looks only at which keys are present, so it survives
/// reordering.
pub proof fn lemma_keys_has_multiset(a: Seq<(u64, u64)>, b: Seq<(u64, u64)>, j: u64)
    requires
        a.to_multiset() == b.to_multiset(),
    ensures
        keys_has(a, j) == keys_has(b, j),
{
    broadcast use vstd::seq_lib::group_to_multiset_ensures;

    if keys_has(a, j) {
        let k = key_slot(a, j);
        assert(a.contains(a[k])) by {
            assert(a[k] == a[k]);
        }
        vstd::seq_lib::to_multiset_contains(a, a[k]);
        vstd::seq_lib::to_multiset_contains(b, a[k]);
        assert(b.contains(a[k]));
        let k2 = choose|k2: int| 0 <= k2 < b.len() && b[k2] == a[k];
        lemma_keys_has(b, j, k2);
    }
    if keys_has(b, j) {
        let k = key_slot(b, j);
        assert(b.contains(b[k])) by {
            assert(b[k] == b[k]);
        }
        vstd::seq_lib::to_multiset_contains(b, b[k]);
        vstd::seq_lib::to_multiset_contains(a, b[k]);
        assert(a.contains(b[k]));
        let k2 = choose|k2: int| 0 <= k2 < a.len() && a[k2] == b[k];
        lemma_keys_has(a, j, k2);
    }
}

/// Stations farther apart than this are never considered neighbors.
pub const MAX_NEIGHBOR_DISTANCE_M: u64 = 300_000;

/// The graph network connecting the air-quality monitors: the stations,
/// and per station an adjacency row of `(neighbor index, distance in
/// meters)` sorted ascending by distance.
pub struct MonitoringNetwork {
    pub stations: Vec<Station>,
    pub adjacency_list: Vec<Vec<(usize, u64)>>,
}

impl MonitoringNetwork {
    /// Station ids are unique and all coordinates lie on the globe.
    pub open spec fn wf(&self) -> bool {
        &&& forall|i: int, j: int|
            0 <= i < j < self.stations@.len() ==> (#[trigger] self.stations@[i]).id@ != (
            #[trigger] self.stations@[j]).id@
        &&& forall|i: int| 0 <= i < self.stations@.len() ==> (#[trigger] self.stations@[i]).coords_valid()
    }

    /// The great-circle distance between stations `i` and `j`, in meters.
    pub open spec fn spec_dist(stations: Seq<Station>, i: int, j: int) -> int {
        spec_haversine_m(
            stations[i].latitude_udeg as int,
            stations[i].longitude_udeg as int,
            stations[j].latitude_udeg as int,
            stations[j].longitude_udeg as int,
        )
    }

    /// Station `j` qualifies as a neighbor of station `i`: distinct, in the
    /// surrounding cell block, and within the cutoff radius.
    pub open spec fn qualifies(stations: Seq<Station>, i: int, j: int) -> bool {
        &&& 0 <= j < stations.len()
        &&& j != i
        &&& cells_adjacent(stations[j], stations[i], DEFAULT_CELL_SIZE_UDEG as int)
        &&& Self::spec_dist(stations, i, j) <= MAX_NEIGHBOR_DISTANCE_M
    }

    /// The row is exactly the distance-sorted neighbor list of station
    /// `i`: every entry is a qualifying neighbor with its true distance,
    /// every qualifying neighbor appears exactly once, and entries ascend
    /// by distance with ties broken by index.
    pub open spec fn good_row(stations: Seq<Station>, i: int, row: Seq<(usize, u64)>) -> bool {
        &&& forall|k: int|
            0 <= k < row.len() ==> Self::qualifies(stations, i, (#[trigger] row[k]).0 as int)
                && row[k].1 == Self::spec_dist(stations, i, row[k].0 as int)
        &&& forall|k1: int, k2: int|
            0 <= k1 < k2 < row.len() ==> (#[trigger] row[k1]).0 != (#[trigger] row[k2]).0
        &&& forall|k1: int, k2: int|
            0 <= k1 < k2 < row.len() ==> ((#[trigger] row[k1]).1 < (#[trigger] row[k2]).1 || (
            row[k1].1 == row[k2].1 && row[k1].0 < row[k2].0))
        &&& forall|j: int|
            0 <= j < stations.len() ==> (#[trigger] Self::qualifies(stations, i, j)
                <==> row_contains(row, j as usize))
    }

    /// The adjacency relation matches the station set: one good row per
    /// station.
    pub open spec fn graph_built(&self) -> bool {
        &&& self.adjacency_list@.len() == self.stations@.len()
        &&& forall|i: int|
            0 <= i < self.stations@.len() ==> Self::good_row(
                self.stations@,
                i,
                (#[trigger] self.adjacency_list@[i])@,
            )
    }

    /// Creates an empty network.
    pub fn new() -> (r: Self)
        ensures
            r.wf(),
            r.stations@.len() == 0,
            r.adjacency_list@.len() == 0,
    {
        MonitoringNetwork { stations: Vec::new(), adjacency_list: Vec::new() }
    }

    /// Adds a station, replacing any station that already carries its id
    /// (last added wins). The adjacency relation is left untouched; it is
    /// rebuilt by `build_adjacency_list`.
    pub fn add_station(&mut self, station: Station)
        requires
            old(self).wf(),
            station.coords_valid(),
        ensures
            final(self).wf(),
            final(self).adjacency_list == old(self).adjacency_list,
            (exists|j: int|
                0 <= j < old(self).stations@.len() && (#[trigger] old(self).stations@[j]).id@
                    == station.id@) ==> exists|j: int|
                0 <= j < old(self).stations@.len() && (#[trigger] old(self).stations@[j]).id@
                    == station.id@ && final(self).stations@ == old(self).stations@.update(
                    j,
                    station,
                ),
            !(exists|j: int|
                0 <= j < old(self).stations@.len() && (#[trigger] old(self).stations@[j]).id@
                    == station.id@) ==> final(self).stations@ == old(self).stations@.push(station),
    {
        let n = self.stations.len();
        let mut i: usize = 0;
        while i < n
            invariant
                n == self.stations@.len(),
                i <= n,
                self.wf(),
                station.coords_valid(),
                forall|k: int| 0 <= k < i ==> (#[trigger] self.stations@[k]).id@ != station.id@,
                self.stations@ == old(self).stations@,
                self.adjacency_list == old(self).adjacency_list,
            decreases n - i,
        {
            if self.stations[i].id == station.id {
                self.stations.set(i, station);
                proof {
                    assert(self.stations@ == old(self).stations@.update(i as int, station));
                    assert(old(self).stations@[i as int].id@ == station.id@);
                }
                return ;
            }
            i = i + 1;
        }
        self.stations.push(station);
    }

    /// Builds the adjacency relation: for every station, the list of
    /// candidate neighbors from the surrounding cell block that lie within
    /// the cutoff radius, sorted ascending by distance (ties by index).
    #[verifier::rlimit(100)]
    pub fn build_adjacency_list(&mut self)
        requires
            old(self).wf(),
        ensures
            final(self).wf(),
            final(self).stations == old(self).stations,
            final(self).graph_built(),
    {
        let n = self.stations.len();
        let idx = SpatialIndex::build(&self.stations, DEFAULT_CELL_SIZE_UDEG);
        let mut adjacency: Vec<Vec<(usize, u64)>> = Vec::new();
        let mut i: usize = 0;
        while i < n
            invariant
                self.wf(),
                n == self.stations@.len(),
                self.stations == old(self).stations,
                idx.wf_for(self.stations@),
                idx.cell_size_udeg == DEFAULT_CELL_SIZE_UDEG,
                adjacency@.len() == i <= n,
                forall|t: int|
                    0 <= t < i ==> Self::good_row(self.stations@, t, (#[trigger] adjacency@[t])@),
            decreases n - i,
        {
            let cand = idx.candidates(&self.stations[i], Ghost(self.stations@));
            let si_lat = self.stations[i].latitude_udeg;
            let si_lon = self.stations[i].longitude_udeg;
            let mut keys: Vec<(u64, u64)> = Vec::new();
            let mut c: usize = 0;
            while c < cand.len()
                invariant
                    self.wf(),
                    n == self.stations@.len(),
                    i < n,
                    si_lat == self.stations@[i as int].latitude_udeg,
                    si_lon == self.stations@[i as int].longitude_udeg,
                    c <= cand@.len(),
                    cand@.no_duplicates(),
                    forall|k: int| 0 <= k < cand@.len() ==> (#[trigger] cand@[k]) < n,
                    forall|j: int|
                        0 <= j < n ==> (cand@.contains(j as usize) <==> cells_adjacent(
                            #[trigger] self.stations@[j],
                            self.stations@[i as int],
                            DEFAULT_CELL_SIZE_UDEG as int,
                        )),
                    forall|k: int|
                        0 <= k < keys@.len() ==> (#[trigger] keys@[k]).1 < n as u64
                            && Self::qualifies(self.stations@, i as int, keys@[k].1 as int) && keys@[k].0
                            == Self::spec_dist(self.stations@, i as int, keys@[k].1 as int),
                    forall|k1: int, k2: int|
                        0 <= k1 < k2 < keys@.len() ==> (#[trigger] keys@[k1]).1 != (
                        #[trigger] keys@[k2]).1,
                    forall|j: int|
                        0 <= j < n ==> (keys_has(keys@, j as u64) <==> (cand@.subrange(
                            0,
                            c as int,
                        ).contains(j as usize) && j != i && #[trigger] Self::spec_dist(self.stations@, i as int, j)
                            <= MAX_NEIGHBOR_DISTANCE_M)),
                decreases cand@.len() - c,
            {
                let j = cand[c];
            let ghost pre = keys@;
            let ghost skipped: bool;
            if j != i {
                let sj_lat = self.stations[j].latitude_udeg;
                let sj_lon = self.stations[j].longitude_udeg;
                let d = haversine_m(si_lat, si_lon, sj_lat, sj_lon);
                if d <= MAX_NEIGHBOR_DISTANCE_M {
                    keys.push((d, j as u64));
                    proof {
                        skipped = false;
                        assert(keys@[keys@.len() - 1] == (d, j as u64));
                        assert((j as u64) as int == j as int);
                        Self::lemma_prefix_excludes(cand@, c as int);
                        assert(!keys_has(pre, j as u64));
                        assert forall|k1: int, k2: int|
                            0 <= k1 < k2 < keys@.len() implies (#[trigger] keys@[k1]).1 != (
                        #[trigger] keys@[k2]).1 by {
                            if k2 == keys@.len() - 1 {
                                if keys@[k1].1 == j as u64 {
                                    lemma_keys_has(pre, j as u64, k1);
                                }
                            }
                        }
                    }
                } else {
                    proof {
                        skipped = true;
                    }
                }
            } else {
                proof {
                    skipped = true;
                }
            }
            proof {
                assert forall|j2: int|
                    0 <= j2 < n implies (keys_has(keys@, j2 as u64) <==> (cand@.subrange(
                    0,
                    c + 1,
                ).contains(j2 as usize) && j2 != i && #[trigger] Self::spec_dist(
                    self.stations@,
                    i as int,
                    j2,
                ) <= MAX_NEIGHBOR_DISTANCE_M)) by {
                    Self::lemma_subrange_step(cand@, c as int, j2 as usize);
                    if skipped {
                        assert(keys@ == pre);
                        if j2 == cand@[c as int] as int && j2 != i {
                            assert(Self::spec_dist(self.stations@, i as int, j2)
                                > MAX_NEIGHBOR_DISTANCE_M);
                        }
                    } else {
                        if keys_has(keys@, j2 as u64) {
                            let k = key_slot(keys@, j2 as u64);
                            if k < pre.len() {
                                lemma_keys_has(pre, j2 as u64, k);
                            } else {
                                assert(keys@[k] == (keys@[keys@.len() - 1].0, j as u64));
                                assert(j2 == j as int);
                            }
                        }
                        if cand@.subrange(0, c + 1).contains(j2 as usize) && j2 != i
                            && Self::spec_dist(self.stations@, i as int, j2)
                            <= MAX_NEIGHBOR_DISTANCE_M {
                            if j2 == cand@[c as int] as int {
                                lemma_keys_has(keys@, j2 as u64, keys@.len() - 1);
                            } else {
                                assert(cand@.subrange(0, c as int).contains(j2 as usize));
                                let k = key_slot(pre, j2 as u64);
                                lemma_keys_has(keys@, j2 as u64, k);
                            }
                        }
                    }
                }
            }
                c = c + 1;
            }
            proof {
                assert(cand@.subrange(0, cand@.len() as int) =~= cand@);
            }
            let ghost presort = keys@;
            sort_keyed(&mut keys);
            proof {
                broadcast use vstd::seq_lib::group_to_multiset_ensures;

                // every sorted key was among the collected keys
                assert forall|k: int|
                    0 <= k < keys@.len() implies (#[trigger] keys@[k]).1 < n as u64
                        && Self::qualifies(self.stations@, i as int, keys@[k].1 as int)
                        && keys@[k].0 == Self::spec_dist(self.stations@, i as int, keys@[k].1 as int) by {
                    assert(keys@.contains(keys@[k])) by {
                        assert(keys@[k] == keys@[k]);
                    }
                    vstd::seq_lib::to_multiset_contains(keys@, keys@[k]);
                    vstd::seq_lib::to_multiset_contains(presort, keys@[k]);
                    assert(presort.contains(keys@[k]));
                    let w = choose|w: int| 0 <= w < presort.len() && presort[w] == keys@[k];
                    assert(presort[w] == keys@[k]);
                }
                // distinct neighbors survive the reordering
                presort.lemma_multiset_has_no_duplicates();
                keys@.lemma_multiset_has_no_duplicates_conv();
                assert forall|k1: int, k2: int|
                    0 <= k1 < k2 < keys@.len() implies (#[trigger] keys@[k1]).1 != (
                #[trigger] keys@[k2]).1 by {
                    if keys@[k1].1 == keys@[k2].1 {
                        assert(keys@[k1].0 == keys@[k2].0);
                        assert(keys@[k1] == keys@[k2]);
                    }
                }
                assert forall|j2: int|
                    0 <= j2 < n implies (keys_has(keys@, j2 as u64) <==> (
                #[trigger] Self::qualifies(self.stations@, i as int, j2))) by {
                    lemma_keys_has_multiset(keys@, presort, j2 as u64);
                }
            }
            let m = keys.len();
            let mut row: Vec<(usize, u64)> = Vec::new();
            let mut k: usize = 0;
            while k < m
                invariant
                    m == keys@.len(),
                    k <= m,
                    n == self.stations@.len(),
                    forall|t: int|
                        0 <= t < keys@.len() ==> (#[trigger] keys@[t]).1 < n as u64,
                    row@.len() == k,
                    forall|t: int|
                        0 <= t < k ==> #[trigger] row@[t] == (keys@[t].1 as usize, keys@[t].0),
                decreases m - k,
            {
                let e = keys[k];
                row.push((e.1 as usize, e.0));
                k = k + 1;
            }
            proof {
                let rv = row@;
                let kv = keys@;
                assert forall|t: int|
                    0 <= t < rv.len() implies Self::qualifies(
                    self.stations@,
                    i as int,
                    (#[trigger] rv[t]).0 as int,
                ) && rv[t].1 == Self::spec_dist(self.stations@, i as int, rv[t].0 as int) by {
                    assert(rv[t] == (kv[t].1 as usize, kv[t].0));
                    assert((kv[t].1 as usize) as int == kv[t].1 as int);
                }
                assert forall|k1: int, k2: int|
                    0 <= k1 < k2 < rv.len() implies (#[trigger] rv[k1]).0 != (
                #[trigger] rv[k2]).0 by {
                    assert(rv[k1] == (kv[k1].1 as usize, kv[k1].0));
                    assert(rv[k2] == (kv[k2].1 as usize, kv[k2].0));
                }
                assert forall|k1: int, k2: int|
                    0 <= k1 < k2 < rv.len() implies ((#[trigger] rv[k1]).1 < (#[trigger] rv[k2]).1
                        || (rv[k1].1 == rv[k2].1 && rv[k1].0 < rv[k2].0)) by {
                    let leq = |x: (u64, u64), y: (u64, u64)| key_leq(x, y);
                    assert(leq(kv[k1], kv[k2]));
                    assert(rv[k1] == (kv[k1].1 as usize, kv[k1].0));
                    assert(rv[k2] == (kv[k2].1 as usize, kv[k2].0));
                }
                assert forall|j2: int|
                    0 <= j2 < n implies (#[trigger] Self::qualifies(self.stations@, i as int, j2)
                    <==> row_contains(rv, j2 as usize)) by {
                    if Self::qualifies(self.stations@, i as int, j2) {
                        let w = key_slot(kv, j2 as u64);
                        assert(rv[w] == (kv[w].1 as usize, kv[w].0));
                        assert((j2 as u64) as usize as int == j2);
                        lemma_row_contains(rv, j2 as usize, w);
                    }
                    if row_contains(rv, j2 as usize) {
                        let w = row_slot(rv, j2 as usize);
                        assert(rv[w] == (kv[w].1 as usize, kv[w].0));
                        lemma_keys_has(kv, j2 as u64, w);
                    }
                }
            }
            let ghost prev_adj = adjacency@;
            adjacency.push(row);
            proof {
                assert forall|t: int|
                    0 <= t < i + 1 implies Self::good_row(
                    self.stations@,
                    t,
                    (#[trigger] adjacency@[t])@,
                ) by {
                    if t < i {
                        assert(adjacency@[t] == prev_adj[t]);
                    }
                }
            }
            i = i + 1;
        }
        self.adjacency_list = adjacency;
    }

    /// One more scanned candidate extends prefix membership by exactly
    /// that candidate.
    proof fn lemma_subrange_step(cand: Seq<usize>, c: int, x: usize)
        requires
            0 <= c < cand.len(),
        ensures
            cand.subrange(0, c + 1).contains(x) <==> (cand.subrange(0, c).contains(x) || cand[c]
                == x),
    {
        assert(cand.subrange(0, c).len() == c);
        assert(cand.subrange(0, c + 1).len() == c + 1);
        if cand.subrange(0, c + 1).contains(x) {
            let w = choose|w: int|
                0 <= w < c + 1 && #[trigger] cand.subrange(0, c + 1)[w] == x;
            if w < c {
                assert(cand.subrange(0, c)[w] == x);
            } else {
                assert(cand[c] == x);
            }
        }
        if cand.subrange(0, c).contains(x) {
            let w = choose|w: int| 0 <= w < c && #[trigger] cand.subrange(0, c)[w] == x;
            assert(cand.subrange(0, c + 1)[w] == x);
        }
        if cand[c] == x {
            assert(cand.subrange(0, c + 1)[c] == x);
        }
    }

    /// With no duplicates, the scanned prefix never holds the current
    /// candidate.
    proof fn lemma_prefix_excludes(cand: Seq<usize>, c: int)
        requires
            0 <= c < cand.len(),
            cand.no_duplicates(),
        ensures
            !cand.subrange(0, c).contains(cand[c]),
    {
        if cand.subrange(0, c).contains(cand[c]) {
            let w = choose|w: int|
                0 <= w < c && #[trigger] cand.subrange(0, c)[w] == cand[c];
            assert(cand[w] == cand[c]);
        }
    }

    /// Computes each station's isolation score: the average distance in
    /// meters to its `min(k, available)` nearest neighbors. A station with
    /// no neighbor within the cutoff radius keeps its previous (typically
    /// absent) score rather than receiving a biasing sentinel.
    pub fn calculate_isolation(&mut self, k: usize)
        requires
            old(self).wf(),
            k >= 1,
            old(self).adjacency_list@.len() == old(self).stations@.len(),
            forall|i: int, t: int|
                0 <= i < old(self).adjacency_list@.len() && 0 <= t
                    < old(self).adjacency_list@[i]@.len() ==> (
                #[trigger] old(self).adjacency_list@[i]@[t]).1 <= MAX_NEIGHBOR_DISTANCE_M,
        ensures
            final(self).wf(),
            final(self).adjacency_list == old(self).adjacency_list,
            final(self).stations@.len() == old(self).stations@.len(),
            forall|i: int|
                0 <= i < old(self).stations@.len() ==> #[trigger] final(self).stations@[i] == (
                if old(self).adjacency_list@[i]@.len() > 0 {
                    Station {
                        avg_distance_to_neighbors: Some(
                            spec_isolation(old(self).adjacency_list@[i]@, k as int) as u64,
                        ),
                        ..old(self).stations@[i]
                    }
                } else {
                    old(self).stations@[i]
                }),
            forall|i: int|
                0 <= i < old(self).stations@.len() && old(self).adjacency_list@[i]@.len() > 0
                    ==> 0 <= #[trigger] spec_isolation(old(self).adjacency_list@[i]@, k as int)
                    <= MAX_NEIGHBOR_DISTANCE_M,
    {
        let n = self.stations.len();
        let mut i: usize = 0;
        while i < n
            invariant
                n == self.stations@.len(),
                n == old(self).stations@.len(),
                i <= n,
                k >= 1,
                self.adjacency_list == old(self).adjacency_list,
                self.adjacency_list@.len() == n,
                forall|a: int, t: int|
                    0 <= a < self.adjacency_list@.len() && 0 <= t
                        < self.adjacency_list@[a]@.len() ==> (
                    #[trigger] self.adjacency_list@[a]@[t]).1 <= MAX_NEIGHBOR_DISTANCE_M,
                forall|t: int|
                    i <= t < n ==> #[trigger] self.stations@[t] == old(self).stations@[t],
                forall|t: int|
                    0 <= t < i ==> #[trigger] self.stations@[t] == (
                    if old(self).adjacency_list@[t]@.len() > 0 {
                        Station {
                            avg_distance_to_neighbors: Some(
                                spec_isolation(old(self).adjacency_list@[t]@, k as int) as u64,
                            ),
                            ..old(self).stations@[t]
                        }
                    } else {
                        old(self).stations@[t]
                    }),
                forall|t: int|
                    0 <= t < i && old(self).adjacency_list@[t]@.len() > 0 ==> 0 <= #[trigger] spec_isolation(
                        old(self).adjacency_list@[t]@,
                        k as int,
                    ) <= MAX_NEIGHBOR_DISTANCE_M,
            decreases n - i,
        {
            let row_len = self.adjacency_list[i].len();
            let m = if k < row_len {
                k
            } else {
                row_len
            };
            if m > 0 {
                let ghost row = self.adjacency_list@[i as int]@;
                let mut sum: u128 = 0;
                let mut t: usize = 0;
                while t < m
                    invariant
                        t <= m,
                        0 < m <= row_len,
                        i < self.adjacency_list@.len(),
                        row == self.adjacency_list@[i as int]@,
                        row_len == row.len(),
                        forall|q: int|
                            0 <= q < row.len() ==> (#[trigger] row[q]).1
                                <= MAX_NEIGHBOR_DISTANCE_M,
                        sum == sum_first(row_dists(row), t as int),
                        sum <= (t as int) * (MAX_NEIGHBOR_DISTANCE_M as int),
                    decreases m - t,
                {
                    let d = self.adjacency_list[i][t].1;
                    proof {
                        assert(row_dists(row)[t as int] == row[t as int].1 as int);
                    }
                    sum = sum + (d as u128);
                    t = t + 1;
                }
                let avg = (sum / (m as u128)) as u64;
                proof {
                    lemma_div_is_ordered(
                        sum as int,
                        (m as int) * (MAX_NEIGHBOR_DISTANCE_M as int),
                        m as int,
                    );
                    assert((m as int) * (MAX_NEIGHBOR_DISTANCE_M as int) == (
                    MAX_NEIGHBOR_DISTANCE_M as int) * (m as int)) by (nonlinear_arith);
                    lemma_div_multiples_vanish(MAX_NEIGHBOR_DISTANCE_M as int, m as int);
                    assert(avg as int == spec_isolation(row, k as int));
                }
                let ghost before = self.stations@;
                let mut st = self.stations.remove(i);
                st.avg_distance_to_neighbors = Some(avg);
                let ghost stv = st;
                self.stations.insert(i, st);
                proof {
                    assert(self.stations@ =~= before.update(i as int, stv));
                }
            }
            i = i + 1;
        }
        proof {
            assert forall|a: int, b: int|
                0 <= a < b < self.stations@.len() implies (#[trigger] self.stations@[a]).id@ != (
            #[trigger] self.stations@[b]).id@ by {
                assert(self.stations@[a].id@ == old(self).stations@[a].id@);
                assert(self.stations@[b].id@ == old(self).stations@[b].id@);
            }
            assert forall|a: int|
                0 <= a < self.stations@.len() implies (
            #[trigger] self.stations@[a]).coords_valid() by {
                assert(self.stations@[a].latitude_udeg == old(self).stations@[a].latitude_udeg);
                assert(self.stations@[a].longitude_udeg == old(self).stations@[a].longitude_udeg);
            }
        }
    }

    /// The defined isolation scores, in station order.
    pub fn isolation_values(&self) -> (r: Vec<u64>)
        ensures
            r@ == iso_values(self.stations@),
    {
        let n = self.stations.len();
        let mut r: Vec<u64> = Vec::new();
        let mut i: usize = 0;
        while i < n
            invariant
                n == self.stations@.len(),
                i <= n,
                r@ == iso_values(self.stations@.subrange(0, i as int)),
            decreases n - i,
        {
            proof {
                assert(self.stations@.subrange(0, i + 1).drop_last() =~= self.stations@.subrange(
                    0,
                    i as int,
                ));
                assert(self.stations@.subrange(0, i + 1).last() == self.stations@[i as int]);
            }
            match self.stations[i].avg_distance_to_neighbors {
                Some(v) => {
                    r.push(v);
                },
                None => {},
            }
            i = i + 1;
        }
        proof {
            assert(self.stations@.subrange(0, n as int) =~= self.stations@);
        }
        r
    }

    /// Summary statistics of the isolation distribution: minimum, maximum,
    /// median, and rounded-down mean, or nothing when no station has a
    /// score.
    pub fn isolation_statistics(&self) -> (r: Option<IsolationStats>)
        requires
            forall|i: int|
                0 <= i < self.stations@.len() && (
                #[trigger] self.stations@[i]).avg_distance_to_neighbors is Some
                    ==> self.stations@[i].avg_distance_to_neighbors->Some_0
                    <= MAX_NEIGHBOR_DISTANCE_M,
        ensures
            r == spec_isolation_statistics(self.stations@),
    {
        let ivs = self.isolation_values();
        let n = ivs.len();
        if n == 0 {
            return None;
        }
        proof {
            lemma_iso_values_bounded(self.stations@, MAX_NEIGHBOR_DISTANCE_M);
        }
        let kp = crate::sorting::sort_indexed(&ivs);
        let mut sum: u128 = 0;
        let mut i: usize = 0;
        while i < n
            invariant
                n == ivs@.len(),
                i <= n,
                forall|t: int| 0 <= t < n ==> (#[trigger] ivs@[t]) <= MAX_NEIGHBOR_DISTANCE_M,
                sum == vsum(ivs@.subrange(0, i as int)),
                sum <= (i as int) * (MAX_NEIGHBOR_DISTANCE_M as int),
            decreases n - i,
        {
            proof {
                assert(ivs@.subrange(0, i + 1).drop_last() =~= ivs@.subrange(0, i as int));
                assert(ivs@.subrange(0, i + 1).last() == ivs@[i as int]);
            }
            sum = sum + (ivs[i] as u128);
            i = i + 1;
        }
        proof {
            assert(ivs@.subrange(0, n as int) =~= ivs@);
            lemma_div_is_ordered(
                sum as int,
                (n as int) * (MAX_NEIGHBOR_DISTANCE_M as int),
                n as int,
            );
            assert((n as int) * (MAX_NEIGHBOR_DISTANCE_M as int) == (
            MAX_NEIGHBOR_DISTANCE_M as int) * (n as int)) by (nonlinear_arith);
            lemma_div_multiples_vanish(MAX_NEIGHBOR_DISTANCE_M as int, n as int);
        }
        let mean = (sum / (n as u128)) as u64;
        Some(
            IsolationStats {
                min_m: kp[0].0,
                max_m: kp[n - 1].0,
                median_m: kp[n / 2].0,
                mean_m: mean,
            },
        )
    }

    /// The Pearson correlation between isolation and pollution over the
    /// stations that carry both values, scaled by one million; zero when
    /// no station qualifies or either series has no variance.
    pub fn analyze_correlation(&self, pollution_data: &PollutionData) -> (r: i64)
        requires
            pollution_data.wf(),
            forall|i: int|
                0 <= i < self.stations@.len() && (
                #[trigger] self.stations@[i]).avg_distance_to_neighbors is Some
                    ==> self.stations@[i].avg_distance_to_neighbors->Some_0
                    <= MAX_NEIGHBOR_DISTANCE_M,
        ensures
            r as int == spec_correlation(
                pairs_view(iso_pollution_pairs(self.stations@, pollution_data.entries@)),
            ),
            -1_000_000 <= r <= 1_000_000,
            iso_pollution_pairs(self.stations@, pollution_data.entries@).len() == 0 ==> r == 0,
    {
        let n = self.stations.len();
        let mut pairs: Vec<(u64, i64)> = Vec::new();
        let mut i: usize = 0;
        while i < n
            invariant
                n == self.stations@.len(),
                i <= n,
                pollution_data.wf(),
                forall|t: int|
                    0 <= t < n && (#[trigger] self.stations@[t]).avg_distance_to_neighbors
                        is Some ==> self.stations@[t].avg_distance_to_neighbors->Some_0
                        <= MAX_NEIGHBOR_DISTANCE_M,
                pairs@ == iso_pollution_pairs(
                    self.stations@.subrange(0, i as int),
                    pollution_data.entries@,
                ),
                forall|t: int|
                    0 <= t < pairs@.len() ==> (#[trigger] pairs@[t]).0 <= 524_287 && -524_287
                        <= pairs@[t].1 <= 524_287,
            decreases n - i,
        {
            proof {
                assert(self.stations@.subrange(0, i + 1).drop_last() =~= self.stations@.subrange(
                    0,
                    i as int,
                ));
                assert(self.stations@.subrange(0, i + 1).last() == self.stations@[i as int]);
            }
            match self.stations[i].avg_distance_to_neighbors {
                Some(v) => {
                    match pollution_data.get(&self.stations[i].id) {
                        Some(p) => {
                            proof {
                                crate::pollution::lemma_get_bounded(
                                    pollution_data.entries@,
                                    self.stations@[i as int].id@,
                                );
                            }
                            pairs.push((v, p));
                        },
                        None => {},
                    }
                },
                None => {},
            }
            i = i + 1;
        }
        proof {
            assert(self.stations@.subrange(0, n as int) =~= self.stations@);
        }
        correlation_scaled(&pairs)
    }

    /// The 75th-percentile thresholds of the isolation and pollution
    /// distributions, each taken independently over whichever stations
    /// have that value defined; nothing when either distribution is empty.
    pub fn thresholds(&self, pollution_data: &PollutionData) -> (r: Option<(u64, i64)>)
        requires
            pollution_data.wf(),
        ensures
            r == spec_thresholds(
                iso_values(self.stations@),
                crate::pollution::pd_values(pollution_data.entries@),
            ),
    {
        let ivs = self.isolation_values();
        let pvs = pollution_data.values();
        proof {
            assert(pvs@ =~= crate::pollution::pd_values(pollution_data.entries@));
        }
        if ivs.len() == 0 || pvs.len() == 0 {
            return None;
        }
        let kp = crate::sorting::sort_indexed(&ivs);
        let qi = (((ivs.len() as u128) * 3 / 4)) as usize;
        proof {
            assert(((ivs@.len() * 3 / 4) as int) < (ivs@.len() as int));
        }
        let iso_threshold = kp[qi].0;
        let np = pvs.len();
        let mut kp2: Vec<(u64, u64)> = Vec::new();
        let mut i: usize = 0;
        while i < np
            invariant
                np == pvs@.len(),
                i <= np,
                forall|t: int|
                    0 <= t < np ==> -MAX_POLLUTION_MILLI <= (#[trigger] pvs@[t])
                        <= MAX_POLLUTION_MILLI,
                kp2@.len() == i,
                forall|t: int|
                    0 <= t < i ==> #[trigger] kp2@[t] == (
                        ((pvs@[t] + MAX_POLLUTION_MILLI) as u64),
                        t as u64,
                    ),
            decreases np - i,
        {
            kp2.push(((pvs[i] + MAX_POLLUTION_MILLI) as u64, i as u64));
            i = i + 1;
        }
        proof {
            assert(kp2@ =~= keyed_of_i64s(pvs@));
        }
        let ghost presort = kp2@;
        crate::sorting::sort_keyed(&mut kp2);
        proof {
            crate::sorting::lemma_canonical_sort(kp2@, keyed_of_i64s(pvs@));
            broadcast use vstd::seq_lib::group_to_multiset_ensures;

            assert forall|t: int|
                0 <= t < kp2@.len() implies (#[trigger] kp2@[t]).0 <= 2 * (
            MAX_POLLUTION_MILLI as u64) by {
                assert(kp2@.contains(kp2@[t])) by {
                    assert(kp2@[t] == kp2@[t]);
                }
                vstd::seq_lib::to_multiset_contains(kp2@, kp2@[t]);
                vstd::seq_lib::to_multiset_contains(presort, kp2@[t]);
                let w = choose|w: int| 0 <= w < presort.len() && presort[w] == kp2@[t];
                assert(presort[w] == kp2@[t]);
            }
        }
        let qp = (((np as u128) * 3 / 4)) as usize;
        proof {
            assert(((pvs@.len() * 3 / 4) as int) < (pvs@.len() as int));
        }
        let pollution_threshold = (kp2[qp].0 as i64) - MAX_POLLUTION_MILLI;
        proof {
            assert(sorted_i64s(pvs@)[(pvs@.len() * 3 / 4) as int] == pollution_threshold as i64);
        }
        Some((iso_threshold, pollution_threshold))
    }

    /// Every station whose isolation and pollution both exceed the given
    /// thresholds, paired with its pollution value and ranked most
    /// isolated first (ties by station index).
    pub fn find_monitoring_gaps(
        &self,
        pollution_data: &PollutionData,
        isolation_threshold: u64,
        pollution_threshold: i64,
    ) -> (r: Vec<(usize, i64)>)
        requires
            pollution_data.wf(),
            forall|i: int|
                0 <= i < self.stations@.len() && (
                #[trigger] self.stations@[i]).avg_distance_to_neighbors is Some
                    ==> self.stations@[i].avg_distance_to_neighbors->Some_0
                    <= MAX_NEIGHBOR_DISTANCE_M,
        ensures
            forall|t: int|
                0 <= t < r@.len() ==> is_gap(
                    self.stations@,
                    pollution_data.entries@,
                    (#[trigger] r@[t]).0 as int,
                    isolation_threshold,
                    pollution_threshold,
                ) && r@[t].1 == spec_get(
                    pollution_data.entries@,
                    self.stations@[r@[t].0 as int].id@,
                )->Some_0,
            forall|i: int|
                0 <= i < self.stations@.len() ==> (#[trigger] is_gap(
                    self.stations@,
                    pollution_data.entries@,
                    i,
                    isolation_threshold,
                    pollution_threshold,
                ) <==> gaps_contain(r@, i as usize)),
            forall|t1: int, t2: int|
                0 <= t1 < t2 < r@.len() ==> (#[trigger] r@[t1]).0 != (#[trigger] r@[t2]).0,
            forall|t1: int, t2: int|
                0 <= t1 < t2 < r@.len() ==> {
                    let v1 = self.stations@[(#[trigger] r@[t1]).0 as int].avg_distance_to_neighbors->Some_0;
                    let v2 = self.stations@[(#[trigger] r@[t2]).0 as int].avg_distance_to_neighbors->Some_0;
                    v1 > v2 || (v1 == v2 && r@[t1].0 < r@[t2].0)
                },
    {
        let n = self.stations.len();
        let mut keys: Vec<(u64, u64)> = Vec::new();
        let mut i: usize = 0;
        while i < n
            invariant
                n == self.stations@.len(),
                i <= n,
                pollution_data.wf(),
                forall|t: int|
                    0 <= t < n && (#[trigger] self.stations@[t]).avg_distance_to_neighbors
                        is Some ==> self.stations@[t].avg_distance_to_neighbors->Some_0
                        <= MAX_NEIGHBOR_DISTANCE_M,
                forall|t: int|
                    0 <= t < keys@.len() ==> (#[trigger] keys@[t]).1 < n as u64 && is_gap(
                        self.stations@,
                        pollution_data.entries@,
                        keys@[t].1 as int,
                        isolation_threshold,
                        pollution_threshold,
                    ) && keys@[t].0 == MAX_NEIGHBOR_DISTANCE_M
                        - self.stations@[keys@[t].1 as int].avg_distance_to_neighbors->Some_0,
                forall|t1: int, t2: int|
                    0 <= t1 < t2 < keys@.len() ==> (#[trigger] keys@[t1]).1 != (
                    #[trigger] keys@[t2]).1,
                forall|j: int|
                    0 <= j < n ==> (keys_has(keys@, j as u64) <==> (j < i && #[trigger] is_gap(
                        self.stations@,
                        pollution_data.entries@,
                        j,
                        isolation_threshold,
                        pollution_threshold,
                    ))),
            decreases n - i,
        {
            let ghost pre = keys@;
            let mut pushed: Ghost<bool> = Ghost(false);
            match self.stations[i].avg_distance_to_neighbors {
                Some(v) => {
                    if v > isolation_threshold {
                        match pollution_data.get(&self.stations[i].id) {
                            Some(p) => {
                                if p > pollution_threshold {
                                    keys.push((MAX_NEIGHBOR_DISTANCE_M - v, i as u64));
                                    pushed = Ghost(true);
                                    proof {
                                        assert(keys@[keys@.len() - 1] == (
                                            (MAX_NEIGHBOR_DISTANCE_M - v) as u64,
                                            i as u64,
                                        ));
                                        assert forall|t1: int, t2: int|
                                            0 <= t1 < t2 < keys@.len() implies (
                                        #[trigger] keys@[t1]).1 != (#[trigger] keys@[t2]).1 by {
                                            if t2 == keys@.len() - 1 {
                                                if keys@[t1].1 == i as u64 {
                                                    lemma_keys_has(pre, i as u64, t1);
                                                }
                                            }
                                        }
                                    }
                                }
                            },
                            None => {},
                        }
                    }
                },
                None => {},
            }
            proof {
                assert forall|j: int|
                    0 <= j < n implies (keys_has(keys@, j as u64) <==> (j < i + 1
                    && #[trigger] is_gap(
                    self.stations@,
                    pollution_data.entries@,
                    j,
                    isolation_threshold,
                    pollution_threshold,
                ))) by {
                    if pushed@ {
                        if keys_has(keys@, j as u64) {
                            let t = key_slot(keys@, j as u64);
                            if t < pre.len() {
                                lemma_keys_has(pre, j as u64, t);
                            } else {
                                assert(j == i as int);
                            }
                        }
                        if j < i + 1 && is_gap(
                            self.stations@,
                            pollution_data.entries@,
                            j,
                            isolation_threshold,
                            pollution_threshold,
                        ) {
                            if j == i as int {
                                lemma_keys_has(keys@, j as u64, keys@.len() - 1);
                            } else {
                                let t = key_slot(pre, j as u64);
                                lemma_keys_has(keys@, j as u64, t);
                            }
                        }
                    } else {
                        assert(keys@ == pre);
                        if j == i as int {
                            assert(!is_gap(
                                self.stations@,
                                pollution_data.entries@,
                                j,
                                isolation_threshold,
                                pollution_threshold,
                            ));
                        }
                    }
                }
            }
            i = i + 1;
        }
        let ghost presort = keys@;
        crate::sorting::sort_keyed(&mut keys);
        proof {
            broadcast use vstd::seq_lib::group_to_multiset_ensures;

            assert forall|t: int|
                0 <= t < keys@.len() implies (#[trigger] keys@[t]).1 < n as u64 && is_gap(
                self.stations@,
                pollution_data.entries@,
                keys@[t].1 as int,
                isolation_threshold,
                pollution_threshold,
            ) && keys@[t].0 == MAX_NEIGHBOR_DISTANCE_M
                - self.stations@[keys@[t].1 as int].avg_distance_to_neighbors->Some_0 by {
                assert(keys@.contains(keys@[t])) by {
                    assert(keys@[t] == keys@[t]);
                }
                vstd::seq_lib::to_multiset_contains(keys@, keys@[t]);
                vstd::seq_lib::to_multiset_contains(presort, keys@[t]);
                let w = choose|w: int| 0 <= w < presort.len() && presort[w] == keys@[t];
                assert(presort[w] == keys@[t]);
            }
            presort.lemma_multiset_has_no_duplicates();
            keys@.lemma_multiset_has_no_duplicates_conv();
            assert forall|t1: int, t2: int|
                0 <= t1 < t2 < keys@.len() implies (#[trigger] keys@[t1]).1 != (
            #[trigger] keys@[t2]).1 by {
                if keys@[t1].1 == keys@[t2].1 {
                    assert(keys@[t1].0 == keys@[t2].0);
                    assert(keys@[t1] == keys@[t2]);
                }
            }
            assert forall|j: int|
                0 <= j < n implies (keys_has(keys@, j as u64) <==> #[trigger] is_gap(
                self.stations@,
                pollution_data.entries@,
                j,
                isolation_threshold,
                pollution_threshold,
            )) by {
                lemma_keys_has_multiset(keys@, presort, j as u64);
            }
        }
        let m = keys.len();
        let mut gaps: Vec<(usize, i64)> = Vec::new();
        let mut t: usize = 0;
        while t < m
            invariant
                m == keys@.len(),
                t <= m,
                n == self.stations@.len(),
                pollution_data.wf(),
                forall|q: int|
                    0 <= q < keys@.len() ==> (#[trigger] keys@[q]).1 < n as u64 && is_gap(
                        self.stations@,
                        pollution_data.entries@,
                        keys@[q].1 as int,
                        isolation_threshold,
                        pollution_threshold,
                    ),
                gaps@.len() == t,
                forall|q: int|
                    0 <= q < t ==> (#[trigger] gaps@[q]).0 as int == keys@[q].1 as int
                        && gaps@[q].1 == spec_get(
                        pollution_data.entries@,
                        self.stations@[keys@[q].1 as int].id@,
                    )->Some_0,
            decreases m - t,
        {
            let ju = keys[t].1;
            let j = ju as usize;
            match pollution_data.get(&self.stations[j].id) {
                Some(p) => {
                    gaps.push((j, p));
                },
                None => {
                    proof {
                        assert(false);
                    }
                },
            }
            t = t + 1;
        }
        proof {
            assert forall|t1: int, t2: int|
                0 <= t1 < t2 < gaps@.len() implies (#[trigger] gaps@[t1]).0 != (
            #[trigger] gaps@[t2]).0 by {
                assert(keys@[t1].1 != keys@[t2].1);
            }
            assert forall|j: int|
                0 <= j < n implies (#[trigger] is_gap(
                self.stations@,
                pollution_data.entries@,
                j,
                isolation_threshold,
                pollution_threshold,
            ) <==> gaps_contain(gaps@, j as usize)) by {
                if is_gap(
                    self.stations@,
                    pollution_data.entries@,
                    j,
                    isolation_threshold,
                    pollution_threshold,
                ) {
                    let w = key_slot(keys@, j as u64);
                    assert(gaps@[w].0 as int == keys@[w].1 as int);
                    lemma_gaps_contain(gaps@, j as usize, w);
                }
                if gaps_contain(gaps@, j as usize) {
                    let w = gap_slot(gaps@, j as usize);
                    assert(gaps@[w].0 as int == keys@[w].1 as int);
                    lemma_keys_has(keys@, j as u64, w);
                }
            }
            assert forall|t1: int, t2: int|
                0 <= t1 < t2 < gaps@.len() implies {
                let v1 = self.stations@[(#[trigger] gaps@[t1]).0 as int].avg_distance_to_neighbors->Some_0;
                let v2 = self.stations@[(#[trigger] gaps@[t2]).0 as int].avg_distance_to_neighbors->Some_0;
                v1 > v2 || (v1 == v2 && gaps@[t1].0 < gaps@[t2].0)
            } by {
                let leq = |x: (u64, u64), y: (u64, u64)| crate::sorting::key_leq(x, y);
                assert(leq(keys@[t1], keys@[t2]));
                assert(keys@[t1].1 != keys@[t2].1);
            }
        }
        gaps
    }

    /// The haversine distance in meters between two points given in
    /// microdegrees.
    pub fn haversine_distance(&self, lat1: i64, lon1: i64, lat2: i64, lon2: i64) -> (r: u64)
        requires
            valid_lat(lat1 as int),
            valid_lon(lon1 as int),
            valid_lat(lat2 as int),
            valid_lon(lon2 as int),
        ensures
            r == spec_haversine_m(lat1 as int, lon1 as int, lat2 as int, lon2 as int),
            r <= MAX_GEO_DISTANCE_M,
    {
        haversine_m(lat1, lon1, lat2, lon2)
    }
}


/// The distances of an adjacency row, in meters, as mathematical integers.
pub open spec fn row_dists(row: Seq<(usize, u64)>) -> Seq<int> {
    row.map_values(|e: (usize, u64)| e.1 as int)
}

/// The isolation score a row yields for a neighbor budget of `k`: the
/// average of its first `min(k, len)` distances, rounded down.
pub open spec fn spec_isolation(row: Seq<(usize, u64)>, k: int) -> int {
    avg_first(row_dists(row), k)
}

/// The defined isolation scores of the stations, in station order.
pub open spec fn iso_values(stations: Seq<Station>) -> Seq<u64>
    decreases stations.len(),
{
    if stations.len() == 0 {
        Seq::empty()
    } else {
        let rest = iso_values(stations.drop_last());
        if stations.last().avg_distance_to_neighbors is Some {
            rest.push(stations.last().avg_distance_to_neighbors->Some_0)
        } else {
            rest
        }
    }
}

/// The sum of a value sequence.
pub open spec fn vsum(vs: Seq<u64>) -> int
    decreases vs.len(),
{
    if vs.len() == 0 {
        0
    } else {
        vsum(vs.drop_last()) + vs.last()
    }
}

proof fn lemma_vsum_bound(vs: Seq<u64>, b: int)
    requires
        b >= 0,
        forall|k: int| 0 <= k < vs.len() ==> (#[trigger] vs[k]) <= b,
    ensures
        0 <= vsum(vs) <= vs.len() * b,
    decreases vs.len(),
{
    if vs.len() > 0 {
        let v0 = vs.drop_last();
        assert forall|k: int| 0 <= k < v0.len() implies (#[trigger] v0[k]) <= b by {
            assert(v0[k] == vs[k]);
        }
        lemma_vsum_bound(v0, b);
        assert(vs.len() * b == v0.len() * b + b) by (nonlinear_arith)
            requires
                vs.len() == v0.len() + 1,
        ;
    }
}

proof fn lemma_iso_values_bounded(stations: Seq<Station>, b: u64)
    requires
        forall|i: int|
            0 <= i < stations.len() && (#[trigger] stations[i]).avg_distance_to_neighbors
                is Some ==> stations[i].avg_distance_to_neighbors->Some_0 <= b,
    ensures
        forall|k: int| 0 <= k < iso_values(stations).len() ==> (#[trigger] iso_values(stations)[k])
            <= b,
    decreases stations.len(),
{
    if stations.len() > 0 {
        let s0 = stations.drop_last();
        assert forall|i: int|
            0 <= i < s0.len() && (#[trigger] s0[i]).avg_distance_to_neighbors is Some implies s0[i].avg_distance_to_neighbors->Some_0
            <= b by {
            assert(s0[i] == stations[i]);
        }
        lemma_iso_values_bounded(s0, b);
        assert(stations.last() == stations[stations.len() - 1]);
        let ivs = iso_values(stations);
        let rest = iso_values(s0);
        assert forall|k: int| 0 <= k < ivs.len() implies (#[trigger] ivs[k]) <= b by {
            if stations.last().avg_distance_to_neighbors is Some {
                let v = stations.last().avg_distance_to_neighbors->Some_0;
                assert(ivs == rest.push(v));
                if k < rest.len() {
                    assert(ivs[k] == rest[k]);
                } else {
                    assert(ivs[k] == v);
                }
            } else {
                assert(ivs == rest);
            }
        }
    }
}

/// The paired isolation/pollution samples: one pair per station that has
/// both an isolation score and a pollution value, in station order.
pub open spec fn iso_pollution_pairs(stations: Seq<Station>, entries: Seq<(String, i64)>) -> Seq<
    (u64, i64),
>
    decreases stations.len(),
{
    if stations.len() == 0 {
        Seq::empty()
    } else {
        let rest = iso_pollution_pairs(stations.drop_last(), entries);
        let st = stations.last();
        if st.avg_distance_to_neighbors is Some && spec_get(entries, st.id@) is Some {
            rest.push(
                (st.avg_distance_to_neighbors->Some_0, spec_get(entries, st.id@)->Some_0),
            )
        } else {
            rest
        }
    }
}

/// Summary statistics of the isolation distribution, in meters.
#[derive(PartialEq, Eq, Structural, Clone, Copy)]
pub struct IsolationStats {
    pub min_m: u64,
    pub max_m: u64,
    pub median_m: u64,
    pub mean_m: u64,
}

/// The statistics drawn from a nonempty isolation distribution: extremes
/// and median of the sorted values, and the rounded-down mean.
pub open spec fn spec_isolation_statistics(stations: Seq<Station>) -> Option<IsolationStats> {
    let ivs = iso_values(stations);
    if ivs.len() == 0 {
        None
    } else {
        let sorted = crate::sorting::sorted_u64s(ivs);
        Some(
            IsolationStats {
                min_m: sorted[0],
                max_m: sorted[sorted.len() as int - 1],
                median_m: sorted[sorted.len() as int / 2],
                mean_m: (vsum(ivs) / ivs.len() as int) as u64,
            },
        )
    }
}

/// Pollution values shifted into unsigned keys paired with their
/// positions, ready for keyed sorting.
pub open spec fn keyed_of_i64s(vs: Seq<i64>) -> Seq<(u64, u64)> {
    Seq::new(vs.len(), |i: int| ((vs[i] + MAX_POLLUTION_MILLI) as u64, i as u64))
}

/// Pollution values in ascending order.
pub open spec fn sorted_i64s(vs: Seq<i64>) -> Seq<i64> {
    keyed_of_i64s(vs).sort_by(|a: (u64, u64), b: (u64, u64)| key_leq(a, b)).map_values(
        |p: (u64, u64)| (p.0 as int - MAX_POLLUTION_MILLI as int) as i64,
    )
}

/// The data-driven threshold pair: the value at rank `floor(3n/4)` of each
/// sorted distribution, or nothing when either distribution is empty.
pub open spec fn spec_thresholds(iso: Seq<u64>, pv: Seq<i64>) -> Option<(u64, i64)> {
    if iso.len() == 0 || pv.len() == 0 {
        None
    } else {
        let si = crate::sorting::sorted_u64s(iso);
        let sp = sorted_i64s(pv);
        Some((si[(iso.len() * 3 / 4) as int], sp[(pv.len() * 3 / 4) as int]))
    }
}

/// The thresholds are a pure function of the two value distributions:
/// equal distributions always yield equal thresholds, no matter which
/// stations or mappings they came from.
pub proof fn lemma_thresholds_deterministic(
    iso1: Seq<u64>,
    pv1: Seq<i64>,
    iso2: Seq<u64>,
    pv2: Seq<i64>,
)
    requires
        iso1 == iso2,
        pv1 == pv2,
    ensures
        spec_thresholds(iso1, pv1) == spec_thresholds(iso2, pv2),
{
}

/// Station `i` is a monitoring gap for the given thresholds: both its
/// isolation and its pollution value are defined and strictly above them.
pub open spec fn is_gap(
    stations: Seq<Station>,
    entries: Seq<(String, i64)>,
    i: int,
    iso_threshold: u64,
    pollution_threshold: i64,
) -> bool {
    &&& 0 <= i < stations.len()
    &&& stations[i].avg_distance_to_neighbors is Some
    &&& stations[i].avg_distance_to_neighbors->Some_0 > iso_threshold
    &&& spec_get(entries, stations[i].id@) is Some
    &&& spec_get(entries, stations[i].id@)->Some_0 > pollution_threshold
}

/// The position in the gap list naming station `i`, if any.
pub open spec fn gap_slot(gaps: Seq<(usize, i64)>, i: usize) -> int {
    choose|k: int| 0 <= k < gaps.len() && (#[trigger] gaps[k]).0 == i
}

/// Some gap entry names station `i`.
pub open spec fn gaps_contain(gaps: Seq<(usize, i64)>, i: usize) -> bool {
    let k = gap_slot(gaps, i);
    0 <= k < gaps.len() && gaps[k].0 == i
}

/// A concrete entry witnesses `gaps_contain`.
pub proof fn lemma_gaps_contain(gaps: Seq<(usize, i64)>, i: usize, k: int)
    requires
        0 <= k < gaps.len(),
        gaps[k].0 == i,
    ensures
        gaps_contain(gaps, i),
{
    assert(0 <= k < gaps.len() && gaps[k].0 == i);
}


/// Growing the neighbor budget never shrinks a station's isolation score:
/// over a distance-sorted neighbor row, the average of the first
/// `min(k2, len)` distances is at least the average of the first
/// `min(k1, len)` for `k1 <= k2`, since the added distances are the
/// farther ones.
pub proof fn lemma_isolation_monotonic(row: Seq<(usize, u64)>, k1: int, k2: int)
    requires
        row.len() >= 1,
        1 <= k1 <= k2,
        forall|a: int, b: int|
            0 <= a < b < row.len() ==> (#[trigger] row[a]).1 <= (#[trigger] row[b]).1,
    ensures
        spec_isolation(row, k1) <= spec_isolation(row, k2),
{
    let s = row_dists(row);
    assert forall|a: int, b: int| 0 <= a < b < s.len() implies s[a] <= s[b] by {
        assert(s[a] == row[a].1 as int && s[b] == row[b].1 as int);
    }
    crate::stats::lemma_avg_first_monotonic(s, k1, k2);
}

} // verus!
