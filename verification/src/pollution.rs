//! Per-station pollution values in milli-units, keyed by station id. The
//! mapping is external to the network: it is supplied per analysis call,
//! with unique keys and values bounded so that the correlation arithmetic
//! stays exact.

use vstd::prelude::*;

verus! {

/// Largest pollution magnitude the model admits, in milli-units.
pub const MAX_POLLUTION_MILLI: i64 = 524_287;

/// First index in `s` whose id equals `id`, or `-1` if there is none.
pub open spec fn spec_find(s: Seq<(String, i64)>, id: Seq<char>) -> int
    decreases s.len(),
{
    if s.len() == 0 {
        -1
    } else if s[0].0@ == id {
        0
    } else {
        let r = spec_find(s.drop_first(), id);
        if r < 0 {
            -1
        } else {
            r + 1
        }
    }
}

/// The value stored under `id`, if any.
pub open spec fn spec_get(s: Seq<(String, i64)>, id: Seq<char>) -> Option<i64> {
    let i = spec_find(s, id);
    if i < 0 {
        None
    } else {
        Some(s[i].1)
    }
}

/// `spec_find` returns an in-range index with the sought id, and is `-1`
/// exactly when the id is absent.
pub proof fn lemma_find_spec(s: Seq<(String, i64)>, id: Seq<char>)
    ensures
        spec_find(s, id) >= 0 ==> 0 <= spec_find(s, id) < s.len() && s[spec_find(s, id)].0@ == id,
        spec_find(s, id) >= 0 ==> forall|k: int|
            0 <= k < spec_find(s, id) ==> (#[trigger] s[k]).0@ != id,
        spec_find(s, id) < 0 ==> forall|k: int| 0 <= k < s.len() ==> (#[trigger] s[k]).0@ != id,
    decreases s.len(),
{
    if s.len() > 0 && s[0].0@ != id {
        lemma_find_spec(s.drop_first(), id);
        let r = spec_find(s.drop_first(), id);
        if r < 0 {
            assert forall|k: int| 0 <= k < s.len() implies (#[trigger] s[k]).0@ != id by {
                if k > 0 {
                    assert(s.drop_first()[k - 1] == s[k]);
                }
            }
        } else {
            assert(s.drop_first()[r] == s[r + 1]);
            assert forall|k: int| 0 <= k < r + 1 implies (#[trigger] s[k]).0@ != id by {
                if k > 0 {
                    assert(s.drop_first()[k - 1] == s[k]);
                }
            }
        }
    }
}

/// A scan that found the sought id at `i`, past ids that all differ,
/// pins `spec_find` to `i`.
pub proof fn lemma_find_at(s: Seq<(String, i64)>, id: Seq<char>, i: int)
    requires
        0 <= i < s.len(),
        s[i].0@ == id,
        forall|k: int| 0 <= k < i ==> (#[trigger] s[k]).0@ != id,
    ensures
        spec_find(s, id) == i,
    decreases s.len(),
{
    if i == 0 {
    } else {
        assert(s[0].0@ != id);
        assert(s.drop_first()[i - 1] == s[i]);
        assert forall|k: int| 0 <= k < i - 1 implies (#[trigger] s.drop_first()[k]).0@ != id by {
            assert(s.drop_first()[k] == s[k + 1]);
        }
        lemma_find_at(s.drop_first(), id, i - 1);
    }
}

/// A scan that found no match pins `spec_find` to `-1`.
pub proof fn lemma_find_none(s: Seq<(String, i64)>, id: Seq<char>)
    requires
        forall|k: int| 0 <= k < s.len() ==> (#[trigger] s[k]).0@ != id,
    ensures
        spec_find(s, id) == -1,
    decreases s.len(),
{
    if s.len() > 0 {
        assert forall|k: int| 0 <= k < s.len() - 1 implies (#[trigger] s.drop_first()[k]).0@
            != id by {
            assert(s.drop_first()[k] == s[k + 1]);
        }
        lemma_find_none(s.drop_first(), id);
    }
}

/// The stored pollution values, in storage order.
pub open spec fn pd_values(entries: Seq<(String, i64)>) -> Seq<i64> {
    entries.map_values(|e: (String, i64)| e.1)
}

/// A value that a well-formed mapping hands out lies within the model's
/// bound.
pub proof fn lemma_get_bounded(entries: Seq<(String, i64)>, id: Seq<char>)
    requires
        forall|k: int|
            0 <= k < entries.len() ==> -MAX_POLLUTION_MILLI <= (#[trigger] entries[k]).1
                <= MAX_POLLUTION_MILLI,
    ensures
        spec_get(entries, id) is Some ==> -MAX_POLLUTION_MILLI <= spec_get(entries, id)->Some_0
            <= MAX_POLLUTION_MILLI,
{
    lemma_find_spec(entries, id);
}

/// An external, read-only mapping from station id to one pollution value in
/// milli-units.
pub struct PollutionData {
    pub entries: Vec<(String, i64)>,
}

impl PollutionData {
    /// Ids are unique and every value lies within the model's bound.
    pub open spec fn wf(&self) -> bool {
        &&& forall|i: int, j: int|
            0 <= i < j < self.entries@.len() ==> (#[trigger] self.entries@[i]).0@ != (
            #[trigger] self.entries@[j]).0@
        &&& forall|k: int|
            0 <= k < self.entries@.len() ==> -MAX_POLLUTION_MILLI <= (
            #[trigger] self.entries@[k]).1 <= MAX_POLLUTION_MILLI
    }

    /// An empty mapping.
    pub fn new() -> (r: Self)
        ensures
            r.wf(),
            r.entries@.len() == 0,
    {
        PollutionData { entries: Vec::new() }
    }

    /// The value stored under `id`, if any.
    pub fn get(&self, id: &String) -> (r: Option<i64>)
        ensures
            r == spec_get(self.entries@, id@),
    {
        let n = self.entries.len();
        let mut i: usize = 0;
        while i < n
            invariant
                n == self.entries@.len(),
                i <= n,
                forall|k: int| 0 <= k < i ==> (#[trigger] self.entries@[k]).0@ != id@,
            decreases n - i,
        {
            if self.entries[i].0 == *id {
                proof {
                    lemma_find_at(self.entries@, id@, i as int);
                }
                return Some(self.entries[i].1);
            }
            i = i + 1;
        }
        proof {
            lemma_find_none(self.entries@, id@);
        }
        None
    }

    /// Stores `value_milli` under `id`, replacing any earlier value
    /// (last-inserted wins).
    pub fn insert(&mut self, id: String, value_milli: i64)
        requires
            old(self).wf(),
            -MAX_POLLUTION_MILLI <= value_milli <= MAX_POLLUTION_MILLI,
        ensures
            final(self).wf(),
            spec_get(final(self).entries@, id@) == Some(value_milli),
            forall|o: Seq<char>|
                o != id@ ==> #[trigger] spec_get(final(self).entries@, o) == spec_get(
                    old(self).entries@,
                    o,
                ),
    {
        let ghost orig = self.entries@;
        let n = self.entries.len();
        let mut i: usize = 0;
        while i < n
            invariant
                n == self.entries@.len(),
                i <= n,
                self.entries@ == orig,
                orig == old(self).entries@,
                self.wf(),
                -MAX_POLLUTION_MILLI <= value_milli <= MAX_POLLUTION_MILLI,
                forall|k: int| 0 <= k < i ==> (#[trigger] self.entries@[k]).0@ != id@,
            decreases n - i,
        {
            if self.entries[i].0 == id {
                proof {
                    lemma_find_at(orig, id@, i as int);
                }
                self.entries.set(i, (id, value_milli));
                proof {
                    assert(self.entries@[i as int].0@ == orig[i as int].0@);
                    assert forall|a: int, b: int|
                        0 <= a < b < self.entries@.len() implies (#[trigger] self.entries@[a]).0@
                        != (#[trigger] self.entries@[b]).0@ by {
                        assert(orig[a].0@ != orig[b].0@);
                    }
                    lemma_find_at(self.entries@, id@, i as int);
                    assert forall|o: Seq<char>|
                        o != id@ implies #[trigger] spec_get(self.entries@, o) == spec_get(
                        orig,
                        o,
                    ) by {
                        Self::lemma_get_after_update(orig, self.entries@, i as int, o);
                    }
                }
                return ;
            }
            i = i + 1;
        }
        proof {
            lemma_find_none(orig, id@);
        }
        self.entries.push((id, value_milli));
        proof {
            lemma_find_at(self.entries@, id@, n as int);
            assert forall|o: Seq<char>|
                o != id@ implies #[trigger] spec_get(self.entries@, o) == spec_get(orig, o) by {
                Self::lemma_get_after_push(orig, self.entries@, o);
            }
        }
    }

    /// Records one qualifying measurement under the source's preference
    /// rule: a value from an annual standard always lands (replacing any
    /// earlier value); any other qualifying value lands only when the id
    /// has no value yet (first seen wins).
    pub fn record_measurement(&mut self, id: String, value_milli: i64, is_annual: bool)
        requires
            old(self).wf(),
            -MAX_POLLUTION_MILLI <= value_milli <= MAX_POLLUTION_MILLI,
        ensures
            final(self).wf(),
            is_annual ==> spec_get(final(self).entries@, id@) == Some(value_milli),
            !is_annual && spec_get(old(self).entries@, id@) is None ==> spec_get(
                final(self).entries@,
                id@,
            ) == Some(value_milli),
            !is_annual && !(spec_get(old(self).entries@, id@) is None) ==> final(self).entries@
                == old(self).entries@,
            forall|o: Seq<char>|
                o != id@ ==> #[trigger] spec_get(final(self).entries@, o) == spec_get(
                    old(self).entries@,
                    o,
                ),
    {
        if is_annual {
            self.insert(id, value_milli);
        } else {
            let existing = self.get(&id);
            if existing.is_none() {
                self.insert(id, value_milli);
            }
        }
    }

    /// Every stored value, in storage order.
    pub fn values(&self) -> (r: Vec<i64>)
        ensures
            r@.len() == self.entries@.len(),
            forall|k: int|
                0 <= k < r@.len() ==> #[trigger] r@[k] == (#[trigger] self.entries@[k]).1,
    {
        let n = self.entries.len();
        let mut r: Vec<i64> = Vec::new();
        let mut i: usize = 0;
        while i < n
            invariant
                n == self.entries@.len(),
                i <= n,
                r@.len() == i,
                forall|k: int| 0 <= k < i ==> #[trigger] r@[k] == (#[trigger] self.entries@[k]).1,
            decreases n - i,
        {
            r.push(self.entries[i].1);
            i = i + 1;
        }
        r
    }

    /// Lookups under other ids see through an update at `i`.
    proof fn lemma_get_after_update(orig: Seq<(String, i64)>, upd: Seq<(String, i64)>, i: int, o: Seq<
        char,
    >)
        requires
            0 <= i < orig.len(),
            upd.len() == orig.len(),
            forall|k: int| 0 <= k < orig.len() && k != i ==> upd[k] == orig[k],
            upd[i].0@ != o,
            orig[i].0@ != o,
        ensures
            spec_get(upd, o) == spec_get(orig, o),
    {
        lemma_find_spec(orig, o);
        lemma_find_spec(upd, o);
        let f = spec_find(orig, o);
        if f >= 0 {
            assert(f != i);
            assert forall|k: int| 0 <= k < f implies (#[trigger] upd[k]).0@ != o by {
                if k != i {
                    assert(upd[k] == orig[k]);
                }
            }
            assert(upd[f] == orig[f]);
            lemma_find_at(upd, o, f);
        } else {
            assert forall|k: int| 0 <= k < upd.len() implies (#[trigger] upd[k]).0@ != o by {
                if k != i {
                    assert(upd[k] == orig[k]);
                }
            }
            lemma_find_none(upd, o);
        }
    }

    /// Lookups under other ids see through a push.
    proof fn lemma_get_after_push(orig: Seq<(String, i64)>, ext: Seq<(String, i64)>, o: Seq<char>)
        requires
            ext.len() == orig.len() + 1,
            forall|k: int| 0 <= k < orig.len() ==> ext[k] == orig[k],
            ext[orig.len() as int].0@ != o,
        ensures
            spec_get(ext, o) == spec_get(orig, o),
    {
        lemma_find_spec(orig, o);
        lemma_find_spec(ext, o);
        let f = spec_find(orig, o);
        if f >= 0 {
            assert forall|k: int| 0 <= k < f implies (#[trigger] ext[k]).0@ != o by {
                assert(ext[k] == orig[k]);
            }
            assert(ext[f] == orig[f]);
            lemma_find_at(ext, o, f);
        } else {
            assert forall|k: int| 0 <= k < ext.len() implies (#[trigger] ext[k]).0@ != o by {
                if k < orig.len() {
                    assert(ext[k] == orig[k]);
                }
            }
            lemma_find_none(ext, o);
        }
    }
}

} // verus!
