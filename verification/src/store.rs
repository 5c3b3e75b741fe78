//! The status store: the most recent report per machine name. A new report
//! for a known name fully replaces the prior entry; nothing is ever deleted.

use vstd::prelude::*;
use vstd::pervasive::VecAdditionalExecFns;
use crate::clock::now_timestamp;
use crate::data::{MachineStatus, MachineStatusView};

verus! {

/// No two entries carry the same machine name.
pub open spec fn names_unique(s: Seq<MachineStatusView>) -> bool {
    forall|i: int, j: int| 0 <= i < j < s.len() ==> s[i].name != s[j].name
}

/// Some entry carries `name`.
pub open spec fn has_name(s: Seq<MachineStatusView>, name: Seq<char>) -> bool {
    exists|i: int| 0 <= i < s.len() && s[i].name == name
}

/// The index of the entry carrying `name` (meaningful only under
/// [`has_name`] and [`names_unique`]).
pub open spec fn index_of_name(s: Seq<MachineStatusView>, name: Seq<char>) -> int {
    choose|i: int| 0 <= i < s.len() && s[i].name == name
}

/// `st` with its timestamp replaced by the collector's receipt time.
pub open spec fn stamped(st: MachineStatusView, now: i64) -> MachineStatusView {
    MachineStatusView { timestamp: Some(now), ..st }
}

/// The store's contents after an upsert of `st`: the entry of the same name
/// is replaced in place, or `st` is appended if the name is new.
pub open spec fn spec_upsert(
    s: Seq<MachineStatusView>,
    st: MachineStatusView,
) -> Seq<MachineStatusView> {
    if has_name(s, st.name) {
        s.update(index_of_name(s, st.name), st)
    } else {
        s.push(st)
    }
}

/// Holds the most recent status per machine; keys (names) stay unique.
pub struct StatusStore {
    entries: Vec<MachineStatus>,
}

impl View for StatusStore {
    type V = Seq<MachineStatusView>;

    closed spec fn view(&self) -> Seq<MachineStatusView> {
        Seq::new(self.entries@.len(), |i: int| self.entries@[i]@)
    }
}

impl StatusStore {
    /// The store's invariant: machine names are unique keys.
    pub open spec fn wf(&self) -> bool {
        names_unique(self@)
    }

    /// An empty store.
    pub fn new() -> (r: StatusStore)
        ensures
            r@ == Seq::<MachineStatusView>::empty(),
            r.wf(),
    {
        let r = StatusStore { entries: Vec::new() };
        proof {
            assert(r@ =~= Seq::<MachineStatusView>::empty());
        }
        r
    }

    /// Inserts or replaces by name, stamping the entry with the receipt time
    /// `now`; any timestamp submitted by the agent is discarded. Never fails.
    pub fn upsert(&mut self, status: MachineStatus, now: i64)
        requires
            old(self).wf(),
        ensures
            final(self).wf(),
            final(self)@ == spec_upsert(old(self)@, stamped(status@, now)),
    {
        let mut st = status;
        st.timestamp = Some(now);
        proof {
            assert(st@ == stamped(status@, now));
        }
        let n = self.entries.len();
        let mut j: usize = 0;
        while j < n
            invariant
                *self == *old(self),
                names_unique(self@),
                n == self.entries.len(),
                j <= n,
                st@ == stamped(status@, now),
                forall|k: int| 0 <= k < j ==> self@[k].name != st@.name,
            decreases n - j,
        {
            if self.entries[j].name == st.name {
                proof {
                    let s = self@;
                    assert(names_unique(s));
                    assert(s[j as int].name == st@.name);
                    assert(has_name(s, st@.name));
                    let i = index_of_name(s, st@.name);
                    assert(0 <= i < s.len() && s[i].name == st@.name);
                    assert(i == j as int) by {
                        if i < j as int {
                            assert(names_unique(s));
                            assert(s[i].name != s[j as int].name);
                        } else if i > j as int {
                            assert(s[j as int].name != s[i].name);
                        }
                    }
                }
                self.entries.set(j, st);
                proof {
                    let s = old(self)@;
                    let r = self@;
                    assert(r =~= s.update(j as int, stamped(status@, now)));
                    assert(names_unique(r)) by {
                        assert forall|p: int, q: int| 0 <= p < q < r.len() implies r[p].name
                            != r[q].name by {
                            if p != j as int && q != j as int {
                                assert(r[p] == s[p] && r[q] == s[q]);
                            } else if p == j as int {
                                assert(r[p].name == s[p].name && r[q] == s[q]);
                            } else {
                                assert(r[q].name == s[q].name && r[p] == s[p]);
                            }
                        }
                    }
                }
                return;
            }
            j = j + 1;
        }
        proof {
            assert(!has_name(self@, st@.name));
        }
        self.entries.push(st);
        proof {
            assert(self@ =~= old(self)@.push(stamped(status@, now)));
            assert(names_unique(self@)) by {
                let r = self@;
                let s = old(self)@;
                assert(forall|i: int, jj: int|
                    0 <= i < jj < r.len() && jj < s.len() ==> r[i].name != r[jj].name);
            }
        }
    }

    /// Inserts or replaces by name, stamping the entry with the wall clock at
    /// the moment of receipt; the stamp used is returned.
    pub fn upsert_now(&mut self, status: MachineStatus) -> (t: i64)
        requires
            old(self).wf(),
        ensures
            final(self).wf(),
            final(self)@ == spec_upsert(old(self)@, stamped(status@, t)),
    {
        let t = now_timestamp();
        self.upsert(status, t);
        t
    }

    /// A consistent point-in-time copy of all entries; iterating the copy
    /// never observes a later mutation of the store.
    pub fn list_all(&self) -> (r: Vec<MachineStatus>)
        ensures
            r@.len() == self@.len(),
            forall|i: int| 0 <= i < r@.len() ==> r@[i]@ == self@[i],
    {
        let r = self.entries.clone();
        proof {
            assert(forall|i: int| 0 <= i < r@.len() ==> #[trigger] r@[i] == self.entries@[i]);
        }
        r
    }
}

/// After an upsert the store holds exactly one entry named `st.name`, and
/// that entry is the latest snapshot `st`; every other name's entry is
/// untouched.
pub proof fn lemma_upsert_latest_wins(s: Seq<MachineStatusView>, st: MachineStatusView)
    requires
        names_unique(s),
    ensures
        names_unique(spec_upsert(s, st)),
        has_name(spec_upsert(s, st), st.name),
        forall|i: int|
            0 <= i < spec_upsert(s, st).len() && spec_upsert(s, st)[i].name == st.name
                ==> spec_upsert(s, st)[i] == st,
        forall|i: int|
            0 <= i < spec_upsert(s, st).len() && spec_upsert(s, st)[i].name != st.name
                ==> s.contains(spec_upsert(s, st)[i]),
        forall|i: int| 0 <= i < s.len() && s[i].name != st.name ==> spec_upsert(s, st).contains(s[i]),
{
    let r = spec_upsert(s, st);
    if has_name(s, st.name) {
        let k = index_of_name(s, st.name);
        assert(0 <= k < s.len() && s[k].name == st.name);
        assert(r[k] == st);
        assert forall|i: int| 0 <= i < r.len() && r[i].name == st.name implies r[i] == st by {
            if i != k {
                assert(s[i].name == st.name);
                assert(s[i].name != s[k].name || s[k].name != s[i].name);
            }
        }
        assert forall|i: int| 0 <= i < r.len() && r[i].name != st.name implies s.contains(r[i]) by {
            assert(r[i] == s[i]);
        }
        assert forall|i: int| 0 <= i < s.len() && s[i].name != st.name implies r.contains(s[i]) by {
            assert(r[i] == s[i]);
        }
    } else {
        assert(r[s.len() as int] == st);
        assert forall|i: int| 0 <= i < r.len() && r[i].name != st.name implies s.contains(r[i]) by {
            assert(i < s.len());
            assert(r[i] == s[i]);
        }
        assert forall|i: int| 0 <= i < s.len() && s[i].name != st.name implies r.contains(s[i]) by {
            assert(r[i] == s[i]);
        }
        assert(names_unique(r)) by {
            assert(forall|i: int, j: int|
                0 <= i < j < r.len() && j < s.len() ==> r[i].name != r[j].name);
        }
    }
}

/// Two upserts for distinct names — in whichever order the store's lock
/// serializes them — lose neither update: both entries stand afterwards.
pub proof fn lemma_no_lost_update(
    s: Seq<MachineStatusView>,
    st1: MachineStatusView,
    st2: MachineStatusView,
)
    requires
        names_unique(s),
        st1.name != st2.name,
    ensures
        spec_upsert(spec_upsert(s, st1), st2).contains(st1),
        spec_upsert(spec_upsert(s, st1), st2).contains(st2),
{
    let r1 = spec_upsert(s, st1);
    let r2 = spec_upsert(r1, st2);
    lemma_upsert_latest_wins(s, st1);
    lemma_upsert_latest_wins(r1, st2);
    assert(has_name(r1, st1.name));
    let k = index_of_name(r1, st1.name);
    assert(r1[k].name == st1.name);
    assert(r1[k] == st1) by {
        lemma_upsert_latest_wins(s, st1);
    }
    assert(r1.contains(st1)) by {
        assert(r1[k] == st1);
    }
    assert(r2.contains(st1)) by {
        assert(forall|i: int|
            0 <= i < r1.len() && r1[i].name != st2.name ==> r2.contains(r1[i]));
        assert(r1[k].name != st2.name);
    }
    assert(r2.contains(st2)) by {
        assert(has_name(r2, st2.name));
        let m = index_of_name(r2, st2.name);
        assert(r2[m].name == st2.name);
        assert(r2[m] == st2);
    }
}

/// The store's contents after a sequence of upserts into an empty store.
pub open spec fn apply_upserts(calls: Seq<MachineStatusView>) -> Seq<MachineStatusView>
    decreases calls.len(),
{
    if calls.len() == 0 {
        Seq::empty()
    } else {
        spec_upsert(apply_upserts(calls.drop_last()), calls.last())
    }
}

/// Any interleaving of upserts into an empty store leaves exactly one entry
/// per distinct submitted name — names stay unique, every submitted name is
/// present, no other name is — and for each name the entry is the latest
/// submission that carried it.
pub proof fn lemma_upsert_sequence(calls: Seq<MachineStatusView>)
    ensures
        names_unique(apply_upserts(calls)),
        forall|i: int|
            0 <= i < calls.len() ==> has_name(apply_upserts(calls), #[trigger] calls[i].name),
        forall|n: Seq<char>| #![trigger has_name(apply_upserts(calls), n)]
            has_name(apply_upserts(calls), n) ==> (exists|i: int|
                0 <= i < calls.len() && calls[i].name == n),
        forall|i: int| #![trigger calls[i]]
            0 <= i < calls.len() && (forall|i2: int|
                i < i2 < calls.len() ==> calls[i2].name != calls[i].name)
                ==> apply_upserts(calls).contains(calls[i]),
    decreases calls.len(),
{
    if calls.len() == 0 {
    } else {
        let rest = calls.drop_last();
        let st = calls.last();
        let prev = apply_upserts(rest);
        let r = apply_upserts(calls);
        lemma_upsert_sequence(rest);
        lemma_upsert_latest_wins(prev, st);
        assert forall|i: int| 0 <= i < calls.len() implies has_name(r, #[trigger] calls[i].name) by {
            if i == calls.len() - 1 {
                assert(has_name(r, st.name));
            } else {
                assert(rest[i] == calls[i]);
                assert(has_name(prev, calls[i].name));
                let k = choose|k: int| 0 <= k < prev.len() && prev[k].name == calls[i].name;
                if prev[k].name == st.name {
                    assert(has_name(r, st.name));
                } else {
                    assert(r.contains(prev[k]));
                    let m = choose|m: int| 0 <= m < r.len() && r[m] == prev[k];
                    assert(r[m].name == calls[i].name);
                }
            }
        }
        assert forall|n: Seq<char>| #![trigger has_name(r, n)] has_name(r, n) implies (exists|i: int|
            0 <= i < calls.len() && calls[i].name == n) by {
            let j = choose|j: int| 0 <= j < r.len() && r[j].name == n;
            if n == st.name {
                assert(calls[calls.len() - 1].name == n);
            } else {
                assert(prev.contains(r[j]));
                let k = choose|k: int| 0 <= k < prev.len() && prev[k] == r[j];
                assert(has_name(prev, n));
                let i = choose|i: int| 0 <= i < rest.len() && rest[i].name == n;
                assert(calls[i].name == n);
            }
        }
        assert forall|i: int| #![trigger calls[i]]
            0 <= i < calls.len() && (forall|i2: int|
                i < i2 < calls.len() ==> calls[i2].name != calls[i].name)
            implies r.contains(calls[i]) by {
            if i == calls.len() - 1 {
                assert(has_name(r, st.name));
                let k = choose|k: int| 0 <= k < r.len() && r[k].name == st.name;
                assert(r[k] == st);
                assert(r.contains(st));
            } else {
                assert(calls[calls.len() - 1].name != calls[i].name);
                assert(rest[i] == calls[i]);
                assert(forall|i2: int| i < i2 < rest.len() ==> rest[i2].name != rest[i].name);
                assert(prev.contains(calls[i]));
                let k = choose|k: int| 0 <= k < prev.len() && prev[k] == calls[i];
                assert(prev[k].name != st.name);
                assert(r.contains(prev[k]));
            }
        }
    }
}

} // verus!
