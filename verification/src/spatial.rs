//! Coarse spatial bucketing of stations into grid cells, so that neighbor
//! search only examines the 3-by-3 block of cells around a station. The
//! candidate set is a superset of the true neighbors only while the cutoff
//! radius does not exceed roughly one cell width; it is an approximation,
//! traded for bounded search cost.

use vstd::prelude::*;
use vstd::arithmetic::div_mod::{
    lemma_fundamental_div_mod,
    lemma_div_multiples_vanish,
    lemma_div_multiples_vanish_fancy,
};
use crate::station::Station;

verus! {

/// Default cell edge: one degree, in microdegrees (about 100 km at the
/// equator).
pub const DEFAULT_CELL_SIZE_UDEG: i64 = 1_000_000;

/// Floor division of a coordinate by a positive cell size.
pub fn floor_div(a: i64, b: i64) -> (r: i64)
    requires
        -1_000_000_000 <= a <= 1_000_000_000,
        1 <= b,
    ensures
        r == a as int / b as int,
        -1_000_000_000 <= r <= 1_000_000_000,
{
    let m: u64 = if a < 0 {
        (-a) as u64
    } else {
        a as u64
    };
    let bu = b as u64;
    let q = m / bu;
    let rem = m % bu;
    proof {
        lemma_fundamental_div_mod(m as int, bu as int);
        assert(q <= m) by (nonlinear_arith)
            requires
                m as int == (bu as int) * (q as int) + rem as int,
                bu as int >= 1,
                rem as int >= 0,
                q as int >= 0,
        ;
    }
    if a >= 0 {
        q as i64
    } else {
        if rem == 0 {
            proof {
                lemma_div_multiples_vanish(-(q as int), b as int);
                assert((b as int) * (-(q as int)) == -((bu as int) * (q as int)))
                    by (nonlinear_arith)
                    requires
                        b as int == bu as int,
                ;
            }
            -(q as i64)
        } else {
            proof {
                assert((q as int) + 1 <= 1_000_000_000) by (nonlinear_arith)
                    requires
                        m as int == (bu as int) * (q as int) + rem as int,
                        m <= 1_000_000_000,
                        1 <= rem as int,
                        (rem as int) < (bu as int),
                        q as int >= 0,
                ;
                lemma_div_multiples_vanish_fancy(-(q as int) - 1, b as int - rem, b as int);
                assert((b as int) * (-(q as int) - 1) + (b as int - rem) == -((bu as int) * (
                q as int) + rem)) by (nonlinear_arith)
                    requires
                        b as int == bu as int,
                ;
            }
            -((q + 1) as i64)
        }
    }
}

/// The grid cell of a station: floor of longitude, then latitude, over the
/// cell size.
pub open spec fn spec_station_cell(st: Station, size: int) -> (int, int) {
    (st.longitude_udeg as int / size, st.latitude_udeg as int / size)
}

/// The two stations' cells lie within one step of each other on both axes,
/// i.e. each lies in the 3-by-3 block around the other.
pub open spec fn cells_adjacent(a: Station, b: Station, size: int) -> bool {
    let ca = spec_station_cell(a, size);
    let cb = spec_station_cell(b, size);
    -1 <= ca.0 - cb.0 <= 1 && -1 <= ca.1 - cb.1 <= 1
}

/// The index of some cell entry whose key is this station's cell.
pub open spec fn slot_of(cells: Seq<((i64, i64), Vec<usize>)>, st: Station, size: int) -> int {
    choose|c: int|
        0 <= c < cells.len() && SpatialIndex::key_matches(cells[c].0, st, size)
}

/// Some cell entry carries this station's cell as its key.
pub open spec fn slot_ok(cells: Seq<((i64, i64), Vec<usize>)>, st: Station, size: int) -> bool {
    let c = slot_of(cells, st, size);
    0 <= c < cells.len() && SpatialIndex::key_matches(cells[c].0, st, size)
}

/// A concrete entry with a matching key witnesses `slot_ok`.
pub proof fn lemma_slot_ok(cells: Seq<((i64, i64), Vec<usize>)>, st: Station, size: int, c: int)
    requires
        0 <= c < cells.len(),
        SpatialIndex::key_matches(cells[c].0, st, size),
    ensures
        slot_ok(cells, st, size),
{
    assert(0 <= c < cells.len() && SpatialIndex::key_matches(cells[c].0, st, size));
}

/// Buckets of station indices, one per occupied grid cell.
pub struct SpatialIndex {
    pub cell_size_udeg: i64,
    pub cells: Vec<((i64, i64), Vec<usize>)>,
}

impl SpatialIndex {
    /// The key names exactly the cell of this station.
    pub open spec fn key_matches(key: (i64, i64), st: Station, size: int) -> bool {
        (key.0 as int, key.1 as int) == spec_station_cell(st, size)
    }

    /// The index is a partition of the given stations into their grid
    /// cells: keys are distinct, every bucket holds exactly the stations of
    /// its cell with no repeats, and every station's cell is present.
    pub open spec fn wf_for(self, stations: Seq<Station>) -> bool {
        &&& self.cell_size_udeg >= 1
        &&& forall|c1: int, c2: int|
            0 <= c1 < c2 < self.cells@.len() ==> (#[trigger] self.cells@[c1]).0 != (
            #[trigger] self.cells@[c2]).0
        &&& forall|c: int|
            0 <= c < self.cells@.len() ==> (#[trigger] self.cells@[c]).1@.no_duplicates()
        &&& forall|c: int, k: int|
            0 <= c < self.cells@.len() && 0 <= k < self.cells@[c].1@.len() ==> (
            #[trigger] self.cells@[c].1@[k]) < stations.len()
        &&& forall|c: int, j: int|
            0 <= c < self.cells@.len() && 0 <= j < stations.len() ==> ((
            #[trigger] self.cells@[c]).1@.contains(j as usize) <==> Self::key_matches(
                self.cells@[c].0,
                #[trigger] stations[j],
                self.cell_size_udeg as int,
            ))
        &&& forall|j: int|
            0 <= j < stations.len() ==> slot_ok(
                self.cells@,
                #[trigger] stations[j],
                self.cell_size_udeg as int,
            )
    }

    /// Bucket every station into its grid cell.
    pub fn build(stations: &Vec<Station>, cell_size_udeg: i64) -> (idx: Self)
        requires
            1 <= cell_size_udeg,
            forall|i: int| 0 <= i < stations@.len() ==> (#[trigger] stations@[i]).coords_valid(),
        ensures
            idx.wf_for(stations@),
            idx.cell_size_udeg == cell_size_udeg,
    {
        let n = stations.len();
        let mut cells: Vec<((i64, i64), Vec<usize>)> = Vec::new();
        let mut i: usize = 0;
        while i < n
            invariant
                n == stations@.len(),
                1 <= cell_size_udeg,
                forall|t: int| 0 <= t < n ==> (#[trigger] stations@[t]).coords_valid(),
                forall|c1: int, c2: int|
                    0 <= c1 < c2 < cells@.len() ==> (#[trigger] cells@[c1]).0 != (
                    #[trigger] cells@[c2]).0,
                forall|c: int| 0 <= c < cells@.len() ==> (#[trigger] cells@[c]).1@.no_duplicates(),
                forall|c: int, k: int|
                    0 <= c < cells@.len() && 0 <= k < cells@[c].1@.len() ==> (
                    #[trigger] cells@[c].1@[k]) < n,
                forall|c: int, j: int|
                    0 <= c < cells@.len() && 0 <= j < n ==> ((#[trigger] cells@[c]).1@.contains(
                        j as usize,
                    ) <==> Self::key_matches(cells@[c].0, #[trigger] stations@[j], cell_size_udeg as int)),
                forall|j: int|
                    0 <= j < i ==> slot_ok(cells@, #[trigger] stations@[j], cell_size_udeg as int),
            decreases n - i,
        {
            let cx = floor_div(stations[i].longitude_udeg, cell_size_udeg);
            let cy = floor_div(stations[i].latitude_udeg, cell_size_udeg);
            let mut c: usize = 0;
            while c < cells.len() && !(cells[c].0.0 == cx && cells[c].0.1 == cy)
                invariant
                    c <= cells@.len(),
                    forall|c2: int| 0 <= c2 < c ==> (#[trigger] cells@[c2]).0 != (cx, cy),
                decreases cells@.len() - c,
            {
                c = c + 1;
            }
            if c == cells.len() {
                // the cell is new: collect every station that falls in it
                let mut bucket: Vec<usize> = Vec::new();
                let mut j: usize = 0;
                while j < n
                    invariant
                        n == stations@.len(),
                        1 <= cell_size_udeg,
                        forall|t: int| 0 <= t < n ==> (#[trigger] stations@[t]).coords_valid(),
                                j <= n,
                        bucket@.no_duplicates(),
                        forall|k: int| 0 <= k < bucket@.len() ==> (#[trigger] bucket@[k]) < j,
                        forall|t: int|
                            0 <= t < n ==> (bucket@.contains(t as usize) <==> (t < j
                                && Self::key_matches((cx, cy), #[trigger] stations@[t], cell_size_udeg as int))),
                    decreases n - j,
                {
                    let jx = floor_div(stations[j].longitude_udeg, cell_size_udeg);
                    let jy = floor_div(stations[j].latitude_udeg, cell_size_udeg);
                    if jx == cx && jy == cy {
                        let ghost before = bucket@;
                        bucket.push(j);
                        proof {
                            assert forall|t: int|
                                0 <= t < n implies (bucket@.contains(t as usize) <==> (t < j + 1
                                && Self::key_matches((cx, cy), stations@[t], cell_size_udeg as int))) by {
                                if bucket@.contains(t as usize) {
                                    let w = choose|w: int|
                                        0 <= w < bucket@.len() && bucket@[w] == t as usize;
                                    if w < before.len() {
                                        assert(before.contains(t as usize));
                                    }
                                }
                                if t < j + 1 && Self::key_matches((cx, cy), stations@[t], cell_size_udeg as int) {
                                    if t < j {
                                        assert(before.contains(t as usize));
                                        let w = choose|w: int|
                                            0 <= w < before.len() && before[w] == t as usize;
                                        assert(bucket@[w] == t as usize);
                                    } else {
                                        assert(bucket@[bucket@.len() - 1] == t as usize);
                                    }
                                }
                            }
                        }
                    } else {
                        proof {
                            assert(!Self::key_matches((cx, cy), stations@[j as int], cell_size_udeg as int));
                        }
                    }
                    j = j + 1;
                }
                let ghost old_cells = cells@;
                let ghost bucketv = bucket@;
                cells.push(((cx, cy), bucket));
                proof {
                    assert forall|c2: int, k: int|
                        0 <= c2 < cells@.len() && 0 <= k < cells@[c2].1@.len() implies (
                    cells@[c2].1@[k]) < n by {
                        if c2 < old_cells.len() {
                            assert(cells@[c2] == old_cells[c2]);
                        } else {
                            assert(cells@[c2].1@ == bucketv);
                            assert(bucketv[k] < n);
                        }
                    }
                    assert(cells@[cells@.len() - 1].0 == (cx, cy));
                    assert(Self::key_matches((cx, cy), stations@[i as int], cell_size_udeg as int));
                    lemma_slot_ok(
                        cells@,
                        stations@[i as int],
                        cell_size_udeg as int,
                        cells@.len() - 1,
                    );
                    assert forall|j2: int| 0 <= j2 < i + 1 implies slot_ok(
                        cells@,
                        #[trigger] stations@[j2],
                        cell_size_udeg as int,
                    ) by {
                        if j2 < i {
                            assert(slot_ok(old_cells, stations@[j2], cell_size_udeg as int));
                            let c2 = slot_of(old_cells, stations@[j2], cell_size_udeg as int);
                            assert(cells@[c2] == old_cells[c2]);
                            lemma_slot_ok(cells@, stations@[j2], cell_size_udeg as int, c2);
                        }
                    }
                }
            } else {
                proof {
                    assert(cells@[c as int].0 == (cx, cy));
                    assert(Self::key_matches(
                        (cells@[c as int]).0,
                        stations@[i as int],
                        cell_size_udeg as int,
                    ));
                    lemma_slot_ok(cells@, stations@[i as int], cell_size_udeg as int, c as int);
                }
            }
            i = i + 1;
        }
        let ghost cellsv = cells@;
        let idx = SpatialIndex { cell_size_udeg, cells };
        proof {
            assert(idx.cells@ == cellsv);
            assert forall|j: int| 0 <= j < stations@.len() implies slot_ok(
                idx.cells@,
                #[trigger] stations@[j],
                idx.cell_size_udeg as int,
            ) by {
                assert(slot_ok(cellsv, stations@[j], cell_size_udeg as int));
            }
        }
        idx
    }

    /// All station indices whose cell lies in the 3-by-3 block around the
    /// given station's cell: a duplicate-free superset of its true
    /// neighbors within one cell width.
    pub fn candidates(&self, st: &Station, Ghost(stations): Ghost<Seq<Station>>) -> (result: Vec<
        usize,
    >)
        requires
            self.wf_for(stations),
            st.coords_valid(),
        ensures
            result@.no_duplicates(),
            forall|k: int| 0 <= k < result@.len() ==> (#[trigger] result@[k]) < stations.len(),
            forall|j: int|
                0 <= j < stations.len() ==> (result@.contains(j as usize)
                    <==> cells_adjacent(#[trigger] stations[j], *st, self.cell_size_udeg as int)),
    {
        let cx = floor_div(st.longitude_udeg, self.cell_size_udeg);
        let cy = floor_div(st.latitude_udeg, self.cell_size_udeg);
        let mut result: Vec<usize> = Vec::new();
        let mut c: usize = 0;
        while c < self.cells.len()
            invariant
                self.wf_for(stations),
                st.coords_valid(),
                cx as int == st.longitude_udeg as int / self.cell_size_udeg as int,
                cy as int == st.latitude_udeg as int / self.cell_size_udeg as int,
                -1_000_000_000 <= cx <= 1_000_000_000,
                -1_000_000_000 <= cy <= 1_000_000_000,
                c <= self.cells@.len(),
                result@.no_duplicates(),
                forall|k: int| 0 <= k < result@.len() ==> (#[trigger] result@[k]) < stations.len(),
                forall|j: int|
                    0 <= j < stations.len() ==> (#[trigger] result@.contains(j as usize) <==> exists|c2: int|
                        0 <= c2 < c && Self::near_key(
                            (#[trigger] self.cells@[c2]).0,
                            cx,
                            cy,
                        ) && self.cells@[c2].1@.contains(j as usize)),
            decreases self.cells@.len() - c,
        {
            let key = self.cells[c].0;
            if key.0 >= cx - 1 && key.0 <= cx + 1 && key.1 >= cy - 1 && key.1 <= cy + 1 {
                let bucket_len = self.cells[c].1.len();
                let mut k: usize = 0;
                let ghost prev = result@;
                while k < bucket_len
                    invariant
                        self.wf_for(stations),
                                c < self.cells@.len(),
                        bucket_len == self.cells@[c as int].1@.len(),
                        k <= bucket_len,
                        Self::near_key(self.cells@[c as int].0, cx, cy),
                        result@ == prev + self.cells@[c as int].1@.subrange(0, k as int),
                        result@.no_duplicates(),
                        forall|j: int|
                            0 <= j < stations.len() ==> (#[trigger] prev.contains(j as usize) <==> exists|
                                c2: int,
                            |
                                0 <= c2 < c && Self::near_key(
                                    (#[trigger] self.cells@[c2]).0,
                                    cx,
                                    cy,
                                ) && self.cells@[c2].1@.contains(j as usize)),
                        forall|k2: int| 0 <= k2 < prev.len() ==> (#[trigger] prev[k2])
                            < stations.len(),
                    decreases bucket_len - k,
                {
                    let e = self.cells[c].1[k];
                    let ghost before = result@;
                    result.push(e);
                    proof {
                        let bucket = self.cells@[c as int].1@;
                        assert(bucket.contains(e)) by {
                            assert(bucket[k as int] == e);
                        }
                        assert(e < stations.len());
                        // e is new: it cannot already stand in the result
                        assert(!before.contains(e)) by {
                            if prev.contains(e) {
                                let c2 = choose|c2: int|
                                    0 <= c2 < c && Self::near_key(
                                        (#[trigger] self.cells@[c2]).0,
                                        cx,
                                        cy,
                                    ) && self.cells@[c2].1@.contains(e);
                                assert(Self::key_matches(
                                    self.cells@[c2].0,
                                    stations[e as int],
                                    self.cell_size_udeg as int,
                                ));
                                assert(Self::key_matches(
                                    self.cells@[c as int].0,
                                    stations[e as int],
                                    self.cell_size_udeg as int,
                                ));
                                assert(self.cells@[c2].0 == self.cells@[c as int].0);
                                assert(false);
                            }
                            if bucket.subrange(0, k as int).contains(e) {
                                let w = choose|w: int| 0 <= w < k && bucket[w] == e;
                                assert(bucket[w] == bucket[k as int]);
                                assert(false);
                            }
                            if before.contains(e) {
                                let w = choose|w: int|
                                    0 <= w < before.len() && before[w] == e;
                                if w < prev.len() {
                                    assert(prev[w] == e);
                                    assert(prev.contains(e));
                                } else {
                                    assert(bucket.subrange(0, k as int)[w - prev.len()] == e);
                                    assert(bucket.subrange(0, k as int).contains(e));
                                }
                                assert(false);
                            }
                        }
                        assert(result@ =~= prev + bucket.subrange(0, k + 1));
                        assert(result@.no_duplicates()) by {
                            assert(forall|k2: int|
                                0 <= k2 < before.len() ==> result@[k2] == #[trigger] before[k2]);
                            assert(result@[result@.len() - 1] == e);
                        }
                    }
                    k = k + 1;
                }
                proof {
                    let bucket = self.cells@[c as int].1@;
                    assert(bucket.subrange(0, bucket_len as int) =~= bucket);
                    assert forall|j: int|
                        0 <= j < stations.len() implies (#[trigger] result@.contains(j as usize) <==> exists|
                        c2: int,
                    |
                        0 <= c2 < c + 1 && Self::near_key(
                            (#[trigger] self.cells@[c2]).0,
                            cx,
                            cy,
                        ) && self.cells@[c2].1@.contains(j as usize)) by {
                        if result@.contains(j as usize) {
                            let w = choose|w: int|
                                0 <= w < result@.len() && result@[w] == j as usize;
                            if w < prev.len() {
                                assert(prev[w] == j as usize);
                                assert(prev.contains(j as usize));
                            } else {
                                assert(bucket[w - prev.len()] == j as usize);
                                assert(bucket.contains(j as usize));
                            }
                        }
                        if exists|c2: int|
                            0 <= c2 < c + 1 && Self::near_key(
                                (#[trigger] self.cells@[c2]).0,
                                cx,
                                cy,
                            ) && self.cells@[c2].1@.contains(j as usize) {
                            let c2 = choose|c2: int|
                                0 <= c2 < c + 1 && Self::near_key(
                                    (#[trigger] self.cells@[c2]).0,
                                    cx,
                                    cy,
                                ) && self.cells@[c2].1@.contains(j as usize);
                            if c2 < c {
                                assert(prev.contains(j as usize));
                                let w = choose|w: int|
                                    0 <= w < prev.len() && prev[w] == j as usize;
                                assert(result@[w] == j as usize);
                            } else {
                                let w = choose|w: int|
                                    0 <= w < bucket.len() && bucket[w] == j as usize;
                                assert(result@[prev.len() + w] == j as usize);
                            }
                        }
                    }
                }
            } else {
                proof {
                    assert forall|j: int|
                        0 <= j < stations.len() implies (#[trigger] result@.contains(j as usize) <==> exists|
                        c2: int,
                    |
                        0 <= c2 < c + 1 && Self::near_key(
                            (#[trigger] self.cells@[c2]).0,
                            cx,
                            cy,
                        ) && self.cells@[c2].1@.contains(j as usize)) by {
                        if exists|c2: int|
                            0 <= c2 < c + 1 && Self::near_key(
                                (#[trigger] self.cells@[c2]).0,
                                cx,
                                cy,
                            ) && self.cells@[c2].1@.contains(j as usize) {
                            let c2 = choose|c2: int|
                                0 <= c2 < c + 1 && Self::near_key(
                                    (#[trigger] self.cells@[c2]).0,
                                    cx,
                                    cy,
                                ) && self.cells@[c2].1@.contains(j as usize);
                            assert(c2 < c);
                        }
                    }
                }
            }
            c = c + 1;
        }
        proof {
            assert forall|j: int|
                0 <= j < stations.len() implies (#[trigger] result@.contains(j as usize) <==> cells_adjacent(
                stations[j],
                *st,
                self.cell_size_udeg as int,
            )) by {
                if result@.contains(j as usize) {
                    let c2 = choose|c2: int|
                        0 <= c2 < self.cells@.len() && Self::near_key(
                            (#[trigger] self.cells@[c2]).0,
                            cx,
                            cy,
                        ) && self.cells@[c2].1@.contains(j as usize);
                    assert(Self::key_matches(self.cells@[c2].0, stations[j], self.cell_size_udeg as int));
                }
                if cells_adjacent(stations[j], *st, self.cell_size_udeg as int) {
                    let c2 = choose|c2: int|
                        0 <= c2 < self.cells@.len() && Self::key_matches(
                            (#[trigger] self.cells@[c2]).0,
                            stations[j],
                            self.cell_size_udeg as int,
                        );
                    assert(self.cells@[c2].1@.contains(j as usize));
                    assert(Self::near_key(self.cells@[c2].0, cx, cy));
                }
            }
        }
        result
    }

    /// The key lies in the 3-by-3 block around `(cx, cy)`.
    pub open spec fn near_key(key: (i64, i64), cx: i64, cy: i64) -> bool {
        cx - 1 <= key.0 <= cx + 1 && cy - 1 <= key.1 <= cy + 1
    }
}

} // verus!
