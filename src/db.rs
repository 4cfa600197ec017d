//! The catalog: the entries, the fixed reference time and the half-life.
use crate::entry::{same_content, App, AppView, SCORE_SCALE};
use crate::frecency::{reinforce, reinforced_spec};
use vstd::prelude::*;

verus! {

/// Three days, in seconds.
pub const DEFAULT_HALF_LIFE: u64 = 259200;

/// An apps database.
pub struct AppsDB {
    /// The entries, at most one per application.
    pub apps: Vec<App>,
    /// Seconds since the Unix epoch at which the catalog was created.
    pub reference_time: u64,
    /// Seconds after which an unreinforced score is worth half as much.
    pub half_life: u64,
    /// The id that the next added entry receives.
    pub next_id: u64,
}

/// What can go wrong with a catalog.
#[derive(Debug)]
pub enum AppDBError {
    FileOpen { file: String, err: String },
    FileCreate { file: String, err: String },
    FileWrite { file: String, err: String },
    ParseDB { file: String, err: String },
    /// A half-life of zero seconds.
    InvalidHalfLife,
    /// No entry carries the id.
    EntryNotFound { uuid: u64 },
    /// The command of an entry could not be started.
    LaunchFailed { command: String },
}

/// The views of a sequence of entries.
pub open spec fn views(s: Seq<App>) -> Seq<AppView> {
    s.map_values(|a: App| a@)
}

/// Some element of `s` stands for the same application as `a`.
pub open spec fn contains_content(s: Seq<AppView>, a: AppView) -> bool {
    exists|i: int| 0 <= i < s.len() && same_content(#[trigger] s[i], a)
}

/// No two elements of `s` stand for the same application.
pub open spec fn content_unique(s: Seq<AppView>) -> bool {
    forall|i: int, j: int|
        0 <= i < s.len() && 0 <= j < s.len() && i != j ==> !same_content(
            #[trigger] s[i],
            #[trigger] s[j],
        )
}

/// The entries of `old` whose application is listed in `listed`, in order.
pub open spec fn keep_listed(old: Seq<AppView>, listed: Seq<AppView>) -> Seq<AppView>
    decreases old.len(),
{
    if old.len() == 0 {
        Seq::empty()
    } else {
        let prev = keep_listed(old.drop_last(), listed);
        if contains_content(listed, old.last()) {
            prev.push(old.last())
        } else {
            prev
        }
    }
}

/// `base` followed by each entry of `incoming` whose application is not yet
/// present, in order, with a zero score and ids counted up from `first_id`.
pub open spec fn absorb(base: Seq<AppView>, incoming: Seq<AppView>, first_id: nat) -> Seq<AppView>
    decreases incoming.len(),
{
    if incoming.len() == 0 {
        base
    } else {
        let prev = absorb(base, incoming.drop_last(), first_id);
        let a = incoming.last();
        if contains_content(prev, a) {
            prev
        } else {
            prev.push(
                AppView {
                    name: a.name,
                    icon: a.icon,
                    command: a.command,
                    uuid: (first_id + prev.len() - base.len()) as u64,
                    score: 0,
                },
            )
        }
    }
}

/// The entries after reconciling `old` with a rescan.
pub open spec fn merged(old: Seq<AppView>, rescanned: Seq<AppView>, first_id: nat) -> Seq<AppView> {
    absorb(keep_listed(old, rescanned), rescanned, first_id)
}

/// Some entry of `s` has id `uuid`.
pub open spec fn has_id(s: Seq<AppView>, uuid: u64) -> bool {
    exists|i: int| 0 <= i < s.len() && (#[trigger] s[i]).uuid == uuid
}

/// `i` is the first position of `s` whose entry has id `uuid`.
pub open spec fn is_first_with_id(s: Seq<AppView>, uuid: u64, i: int) -> bool {
    &&& 0 <= i < s.len()
    &&& s[i].uuid == uuid
    &&& forall|j: int| 0 <= j < i ==> (#[trigger] s[j]).uuid != uuid
}

/// Seconds from `reference_time` to `now`; zero for a clock that went back.
pub open spec fn elapsed_since(now: u64, reference_time: u64) -> u64 {
    if now >= reference_time {
        (now - reference_time) as u64
    } else {
        0
    }
}

/// The entry `a` after one reinforcement by `weight`.
pub open spec fn reinforced_view(a: AppView, weight: u64, elapsed: u64, half_life: u64) -> AppView {
    AppView {
        name: a.name,
        icon: a.icon,
        command: a.command,
        uuid: a.uuid,
        score: reinforced_spec(a.score, weight, elapsed, half_life),
    }
}

/// The entries after reinforcing the first one with id `uuid`, `elapsed`
/// seconds after the reference time.
pub open spec fn launched(
    s: Seq<AppView>,
    uuid: u64,
    weight: u64,
    elapsed: u64,
    half_life: u64,
) -> Seq<AppView> {
    let i = choose|i: int| is_first_with_id(s, uuid, i);
    s.update(i, reinforced_view(s[i], weight, elapsed, half_life))
}

/// `order` lists every position of `s` once, by ascending score, equal
/// scores in their present order.
pub open spec fn is_score_order(s: Seq<AppView>, order: Seq<int>) -> bool {
    &&& order.len() == s.len()
    &&& forall|p: int| 0 <= p < order.len() ==> 0 <= #[trigger] order[p] < s.len()
    &&& forall|i: int| 0 <= i < s.len() ==> #[trigger] order.contains(i)
    &&& forall|p: int, q: int|
        0 <= p < q < order.len() ==> (s[#[trigger] order[p]].score < s[#[trigger] order[q]].score
            || (s[order[p]].score == s[order[q]].score && order[p] < order[q]))
}

proof fn lemma_keep_listed_from(old: Seq<AppView>, listed: Seq<AppView>)
    ensures
        keep_listed(old, listed).len() <= old.len(),
        forall|k: int|
            0 <= k < keep_listed(old, listed).len() ==> old.contains(
                #[trigger] keep_listed(old, listed)[k],
            ) && contains_content(listed, keep_listed(old, listed)[k]),
        content_unique(old) ==> content_unique(keep_listed(old, listed)),
    decreases old.len(),
{
    if old.len() > 0 {
        let prev = keep_listed(old.drop_last(), listed);
        lemma_keep_listed_from(old.drop_last(), listed);
        let res = keep_listed(old, listed);
        assert forall|k: int| 0 <= k < res.len() implies old.contains(#[trigger] res[k])
            && contains_content(listed, res[k]) by {
            if k < prev.len() {
                assert(res[k] == prev[k]);
                assert(old.drop_last().contains(prev[k]));
                let i = choose|i: int| 0 <= i < old.drop_last().len() && old.drop_last()[i] == prev[k];
                assert(old[i] == res[k]);
            } else {
                assert(old[old.len() - 1] == res[k]);
            }
        }
        if content_unique(old) {
            assert(content_unique(old.drop_last())) by {
                assert forall|i: int, j: int|
                    0 <= i < old.drop_last().len() && 0 <= j < old.drop_last().len() && i
                        != j implies !same_content(
                    #[trigger] old.drop_last()[i],
                    #[trigger] old.drop_last()[j],
                ) by {
                    assert(old.drop_last()[i] == old[i]);
                    assert(old.drop_last()[j] == old[j]);
                }
            }
            assert forall|i: int, j: int|
                0 <= i < res.len() && 0 <= j < res.len() && i != j implies !same_content(
                #[trigger] res[i],
                #[trigger] res[j],
            ) by {
                if i < prev.len() && j < prev.len() {
                    assert(res[i] == prev[i]);
                    assert(res[j] == prev[j]);
                } else if i < prev.len() {
                    assert(res[i] == prev[i]);
                    assert(old.drop_last().contains(prev[i]));
                    let ii = choose|ii: int|
                        0 <= ii < old.drop_last().len() && old.drop_last()[ii] == prev[i];
                    assert(old[ii] == res[i]);
                    assert(res[j] == old[old.len() - 1]);
                } else if j < prev.len() {
                    assert(res[j] == prev[j]);
                    assert(old.drop_last().contains(prev[j]));
                    let jj = choose|jj: int|
                        0 <= jj < old.drop_last().len() && old.drop_last()[jj] == prev[j];
                    assert(old[jj] == res[j]);
                    assert(res[i] == old[old.len() - 1]);
                }
            }
        }
    }
}

proof fn lemma_absorb_grows(base: Seq<AppView>, incoming: Seq<AppView>, first_id: nat)
    ensures
        base.len() <= absorb(base, incoming, first_id).len() <= base.len() + incoming.len(),
        absorb(base, incoming, first_id).subrange(0, base.len() as int) == base,
        content_unique(base) ==> content_unique(absorb(base, incoming, first_id)),
    decreases incoming.len(),
{
    if incoming.len() > 0 {
        let prev = absorb(base, incoming.drop_last(), first_id);
        lemma_absorb_grows(base, incoming.drop_last(), first_id);
        let res = absorb(base, incoming, first_id);
        if !contains_content(prev, incoming.last()) {
            assert(res.subrange(0, base.len() as int) =~= prev.subrange(0, base.len() as int));
            if content_unique(base) {
                assert forall|i: int, j: int|
                    0 <= i < res.len() && 0 <= j < res.len() && i != j implies !same_content(
                    #[trigger] res[i],
                    #[trigger] res[j],
                ) by {
                    if i < prev.len() && j < prev.len() {
                        assert(res[i] == prev[i]);
                        assert(res[j] == prev[j]);
                    } else if i < prev.len() {
                        assert(res[i] == prev[i]);
                        if same_content(res[i], res[j]) {
                            assert(same_content(prev[i], incoming.last()));
                        }
                    } else if j < prev.len() {
                        assert(res[j] == prev[j]);
                        if same_content(res[i], res[j]) {
                            assert(same_content(prev[j], incoming.last()));
                        }
                    }
                }
            }
        }
    }
}

proof fn lemma_keep_listed_keeps(old: Seq<AppView>, listed: Seq<AppView>)
    ensures
        forall|i: int|
            0 <= i < old.len() && contains_content(listed, #[trigger] old[i]) ==> keep_listed(
                old,
                listed,
            ).contains(old[i]),
    decreases old.len(),
{
    if old.len() > 0 {
        let prev = keep_listed(old.drop_last(), listed);
        lemma_keep_listed_keeps(old.drop_last(), listed);
        let res = keep_listed(old, listed);
        assert forall|i: int|
            0 <= i < old.len() && contains_content(listed, #[trigger] old[i]) implies res.contains(
            old[i],
        ) by {
            if i < old.len() - 1 {
                assert(old.drop_last()[i] == old[i]);
                assert(prev.contains(old[i]));
                let k = choose|k: int| 0 <= k < prev.len() && prev[k] == old[i];
                assert(res[k] == old[i]);
            } else {
                assert(res[res.len() - 1] == old[i]);
            }
        }
    }
}

proof fn lemma_keep_listed_all(old: Seq<AppView>, listed: Seq<AppView>)
    requires
        forall|i: int| 0 <= i < old.len() ==> contains_content(listed, #[trigger] old[i]),
    ensures
        keep_listed(old, listed) == old,
    decreases old.len(),
{
    if old.len() > 0 {
        assert forall|i: int| 0 <= i < old.drop_last().len() implies contains_content(
            listed,
            #[trigger] old.drop_last()[i],
        ) by {
            assert(old.drop_last()[i] == old[i]);
        }
        lemma_keep_listed_all(old.drop_last(), listed);
        assert(contains_content(listed, old[old.len() - 1]));
        assert(old.drop_last().push(old.last()) =~= old);
    }
}

proof fn lemma_absorb_nothing_new(base: Seq<AppView>, incoming: Seq<AppView>, first_id: nat)
    requires
        forall|j: int| 0 <= j < incoming.len() ==> contains_content(base, #[trigger] incoming[j]),
    ensures
        absorb(base, incoming, first_id) == base,
    decreases incoming.len(),
{
    if incoming.len() > 0 {
        assert forall|j: int| 0 <= j < incoming.drop_last().len() implies contains_content(
            base,
            #[trigger] incoming.drop_last()[j],
        ) by {
            assert(incoming.drop_last()[j] == incoming[j]);
        }
        lemma_absorb_nothing_new(base, incoming.drop_last(), first_id);
        assert(contains_content(base, incoming[incoming.len() - 1]));
    }
}

proof fn lemma_absorb_members(base: Seq<AppView>, incoming: Seq<AppView>, first_id: nat)
    ensures
        forall|j: int|
            0 <= j < incoming.len() ==> contains_content(
                absorb(base, incoming, first_id),
                #[trigger] incoming[j],
            ),
        forall|k: int|
            base.len() <= k < absorb(base, incoming, first_id).len() ==> {
                let a = #[trigger] absorb(base, incoming, first_id)[k];
                &&& a.score == 0
                &&& contains_content(incoming, a)
                &&& !contains_content(base, a)
            },
    decreases incoming.len(),
{
    lemma_absorb_grows(base, incoming, first_id);
    if incoming.len() > 0 {
        let prev = absorb(base, incoming.drop_last(), first_id);
        lemma_absorb_members(base, incoming.drop_last(), first_id);
        lemma_absorb_grows(base, incoming.drop_last(), first_id);
        let res = absorb(base, incoming, first_id);
        let last = incoming.last();
        assert forall|j: int| 0 <= j < incoming.len() implies contains_content(
            res,
            #[trigger] incoming[j],
        ) by {
            if j < incoming.len() - 1 {
                assert(incoming.drop_last()[j] == incoming[j]);
                assert(contains_content(prev, incoming[j]));
                let k = choose|k: int| 0 <= k < prev.len() && same_content(prev[k], incoming[j]);
                assert(res[k] == prev[k]);
            } else if !contains_content(prev, last) {
                assert(same_content(res[res.len() - 1], incoming[j]));
            }
        }
        assert forall|k: int| base.len() <= k < res.len() implies {
            let a = #[trigger] res[k];
            &&& a.score == 0
            &&& contains_content(incoming, a)
            &&& !contains_content(base, a)
        } by {
            if k < prev.len() {
                assert(res[k] == prev[k]);
                let j = choose|j: int|
                    0 <= j < incoming.drop_last().len() && same_content(
                        incoming.drop_last()[j],
                        prev[k],
                    );
                assert(incoming[j] == incoming.drop_last()[j]);
            } else {
                assert(same_content(incoming[incoming.len() - 1], res[k]));
                if contains_content(base, res[k]) {
                    let b = choose|b: int| 0 <= b < base.len() && same_content(base[b], res[k]);
                    assert(prev.subrange(0, base.len() as int)[b] == prev[b]);
                    assert(same_content(prev[b], last));
                }
            }
        }
    }
}

/// Reconciling with a rescan that lists exactly the applications already
/// present leaves every entry, with its id and score, as it was.
pub proof fn lemma_merge_same_set_unchanged(
    old: Seq<AppView>,
    rescanned: Seq<AppView>,
    first_id: nat,
)
    requires
        forall|i: int| 0 <= i < old.len() ==> contains_content(rescanned, #[trigger] old[i]),
        forall|j: int| 0 <= j < rescanned.len() ==> contains_content(old, #[trigger] rescanned[j]),
    ensures
        merged(old, rescanned, first_id) == old,
{
    lemma_keep_listed_all(old, rescanned);
    lemma_absorb_nothing_new(old, rescanned, first_id);
}

/// Reconciling with a rescan keeps each listed entry with its id and score,
/// drops each unlisted one, adds each newly listed application at a zero
/// score, and holds nothing else.
pub proof fn lemma_merge_reconciles(old: Seq<AppView>, rescanned: Seq<AppView>, first_id: nat)
    ensures
        forall|i: int|
            0 <= i < old.len() && contains_content(rescanned, #[trigger] old[i]) ==> merged(
                old,
                rescanned,
                first_id,
            ).contains(old[i]),
        forall|i: int|
            0 <= i < old.len() && !contains_content(rescanned, #[trigger] old[i])
                ==> !contains_content(merged(old, rescanned, first_id), old[i]),
        forall|j: int|
            0 <= j < rescanned.len() ==> contains_content(
                merged(old, rescanned, first_id),
                #[trigger] rescanned[j],
            ),
        forall|k: int|
            0 <= k < merged(old, rescanned, first_id).len() ==> {
                let a = #[trigger] merged(old, rescanned, first_id)[k];
                ||| old.contains(a) && contains_content(rescanned, a)
                ||| a.score == 0 && contains_content(rescanned, a) && !contains_content(old, a)
            },
{
    let kept = keep_listed(old, rescanned);
    let m = merged(old, rescanned, first_id);
    lemma_keep_listed_from(old, rescanned);
    lemma_keep_listed_keeps(old, rescanned);
    lemma_absorb_grows(kept, rescanned, first_id);
    lemma_absorb_members(kept, rescanned, first_id);
    assert forall|k: int| 0 <= k < kept.len() implies m[k] == #[trigger] kept[k] by {
        assert(m.subrange(0, kept.len() as int)[k] == m[k]);
    }
    assert forall|i: int|
        0 <= i < old.len() && contains_content(rescanned, #[trigger] old[i]) implies m.contains(
        old[i],
    ) by {
        let k = choose|k: int| 0 <= k < kept.len() && kept[k] == old[i];
        assert(m[k] == kept[k]);
    }
    assert forall|k: int| 0 <= k < m.len() implies {
        let a = #[trigger] m[k];
        ||| old.contains(a) && contains_content(rescanned, a)
        ||| a.score == 0 && contains_content(rescanned, a) && !contains_content(old, a)
    } by {
        if k < kept.len() {
            assert(m[k] == kept[k]);
        } else {
            let a = m[k];
            if contains_content(old, a) {
                let i = choose|i: int| 0 <= i < old.len() && same_content(old[i], a);
                let j = choose|j: int|
                    0 <= j < rescanned.len() && same_content(rescanned[j], a);
                assert(same_content(rescanned[j], old[i]));
                assert(contains_content(rescanned, old[i]));
                let kk = choose|kk: int| 0 <= kk < kept.len() && kept[kk] == old[i];
                assert(same_content(kept[kk], a));
            }
        }
    }
    assert forall|i: int|
        0 <= i < old.len() && !contains_content(rescanned, #[trigger] old[i]) implies !contains_content(
        m,
        old[i],
    ) by {
        if contains_content(m, old[i]) {
            let k = choose|k: int| 0 <= k < m.len() && same_content(m[k], old[i]);
            let a = m[k];
            assert(contains_content(rescanned, a));
            let j = choose|j: int| 0 <= j < rescanned.len() && same_content(rescanned[j], a);
            assert(same_content(rescanned[j], old[i]));
        }
    }
}

impl AppsDB {
    /// The catalog's own consistency: a positive half-life and at most one
    /// entry per application.
    pub open spec fn wf(&self) -> bool {
        &&& self.half_life > 0
        &&& content_unique(views(self.apps@))
    }

    /// Create a catalog whose reference time is now, with a half-life of
    /// three days.
    pub fn new(apps: Vec<App>) -> (r: Self)
        requires
            apps.len() < u64::MAX,
        ensures
            r.wf(),
            views(r.apps@) == absorb(Seq::empty(), views(apps@), 1),
            r.half_life == DEFAULT_HALF_LIFE,
            r.next_id == r.apps.len() + 1,
    {
        let now = current_time_secs();
        let empty = AppsDB {
            apps: Vec::new(),
            reference_time: now,
            half_life: DEFAULT_HALF_LIFE,
            next_id: 1,
        };
        let mut db = empty;
        proof {
            assert(views(db.apps@) =~= Seq::<AppView>::empty());
        }
        db.absorb_entries(&apps);
        db
    }

    /// Create an empty catalog with the given reference time and half-life;
    /// a half-life of zero is refused.
    pub fn with_half_life(reference_time: u64, half_life: u64) -> (r: Result<Self, AppDBError>)
        ensures
            half_life == 0 <==> r is Err,
            r matches Err(e) ==> e is InvalidHalfLife,
            r matches Ok(db) ==> {
                &&& db.wf()
                &&& db.apps@.len() == 0
                &&& db.reference_time == reference_time
                &&& db.half_life == half_life
                &&& db.next_id == 1
            },
    {
        if half_life == 0 {
            return Err(AppDBError::InvalidHalfLife);
        }
        Ok(AppsDB { apps: Vec::new(), reference_time, half_life, next_id: 1 })
    }

    /// Seconds since the Unix epoch at which the catalog was created.
    pub fn reference_time(&self) -> (r: u64)
        ensures
            r == self.reference_time,
    {
        self.reference_time
    }

    /// Seconds after which an unreinforced score is worth half as much.
    pub fn half_life(&self) -> (r: u64)
        ensures
            r == self.half_life,
    {
        self.half_life
    }

    /// The id that the next added entry receives.
    pub fn next_id(&self) -> (r: u64)
        ensures
            r == self.next_id,
    {
        self.next_id
    }

    /// Reinforce the first entry with id `uuid` by `weight`, the time now
    /// being `now` seconds since the Unix epoch.
    pub fn update_score_at(&mut self, uuid: u64, weight: u64, now: u64) -> (r: Result<
        (),
        AppDBError,
    >)
        requires
            old(self).wf(),
        ensures
            final(self).wf(),
            final(self).reference_time == old(self).reference_time,
            final(self).half_life == old(self).half_life,
            final(self).next_id == old(self).next_id,
            r is Ok <==> has_id(views(old(self).apps@), uuid),
            r matches Err(e) ==> e == (AppDBError::EntryNotFound { uuid }) && views(
                final(self).apps@,
            ) == views(old(self).apps@),
            r is Ok ==> views(final(self).apps@) == launched(
                views(old(self).apps@),
                uuid,
                weight,
                elapsed_since(now, old(self).reference_time),
                old(self).half_life,
            ),
    {
        let elapsed = now.saturating_sub(self.reference_time);
        let mut i: usize = 0;
        while i < self.apps.len()
            invariant
                i <= self.apps.len(),
                forall|j: int| 0 <= j < i ==> (#[trigger] self.apps@[j]).uuid != uuid,
                self.apps@ == old(self).apps@,
                self.reference_time == old(self).reference_time,
                self.half_life == old(self).half_life,
                self.next_id == old(self).next_id,
                elapsed == elapsed_since(now, old(self).reference_time),
                old(self).wf(),
            decreases self.apps.len() - i,
        {
            if self.apps[i].uuid == uuid {
                let ghost before = views(self.apps@);
                proof {
                    assert(is_first_with_id(before, uuid, i as int));
                    assert forall|k: int| #[trigger]
                        is_first_with_id(before, uuid, k) implies k == i by {
                        if k < i {
                            assert(before[k].uuid == self.apps@[k].uuid);
                        } else if k > i {
                            assert(before[i as int].uuid == uuid);
                        }
                    }
                }
                let mut a = self.apps[i].duplicate();
                a.score = reinforce(a.score, weight, elapsed, self.half_life);
                let ghost na = a@;
                self.apps.set(i, a);
                proof {
                    assert(views(self.apps@) =~= before.update(i as int, na));
                    assert(content_unique(views(self.apps@))) by {
                        assert forall|x: int, y: int|
                            0 <= x < views(self.apps@).len() && 0 <= y < views(self.apps@).len()
                                && x != y implies !same_content(
                            #[trigger] views(self.apps@)[x],
                            #[trigger] views(self.apps@)[y],
                        ) by {
                            assert(same_content(views(self.apps@)[x], before[x]));
                            assert(same_content(views(self.apps@)[y], before[y]));
                        }
                    }
                }
                return Ok(());
            }
            i = i + 1;
        }
        proof {
            assert forall|k: int| 0 <= k < views(self.apps@).len() implies (#[trigger] views(
                self.apps@,
            )[k]).uuid != uuid by {
                assert(self.apps@[k].uuid != uuid);
            }
        }
        Err(AppDBError::EntryNotFound { uuid })
    }

    /// Reinforce the first entry with id `uuid` by `weight`, now.
    pub fn update_score(&mut self, uuid: u64, weight: u64) -> (r: Result<(), AppDBError>)
        requires
            old(self).wf(),
        ensures
            final(self).wf(),
            final(self).reference_time == old(self).reference_time,
            final(self).half_life == old(self).half_life,
            final(self).next_id == old(self).next_id,
            r is Ok <==> has_id(views(old(self).apps@), uuid),
            r matches Err(e) ==> e == (AppDBError::EntryNotFound { uuid }) && views(
                final(self).apps@,
            ) == views(old(self).apps@),
            r is Ok ==> exists|elapsed: u64|
                views(final(self).apps@) == launched(
                    views(old(self).apps@),
                    uuid,
                    weight,
                    elapsed,
                    old(self).half_life,
                ),
    {
        let now = current_time_secs();
        self.update_score_at(uuid, weight, now)
    }

    /// Count one launch of `to_update`.
    pub fn update(&mut self, to_update: &App) -> (r: Result<(), AppDBError>)
        requires
            old(self).wf(),
        ensures
            final(self).wf(),
            final(self).reference_time == old(self).reference_time,
            final(self).half_life == old(self).half_life,
            final(self).next_id == old(self).next_id,
            r is Ok <==> has_id(views(old(self).apps@), to_update.uuid),
            r matches Err(e) ==> e == (AppDBError::EntryNotFound { uuid: to_update.uuid })
                && views(final(self).apps@) == views(old(self).apps@),
            r is Ok ==> exists|elapsed: u64|
                views(final(self).apps@) == launched(
                    views(old(self).apps@),
                    to_update.uuid,
                    SCORE_SCALE,
                    elapsed,
                    old(self).half_life,
                ),
    {
        self.update_score(to_update.uuid, SCORE_SCALE)
    }

    /// Sort the apps database by score, lowest first; equal scores keep
    /// their order.
    pub fn sort(&mut self)
        requires
            old(self).wf(),
        ensures
            final(self).wf(),
            final(self).reference_time == old(self).reference_time,
            final(self).half_life == old(self).half_life,
            final(self).next_id == old(self).next_id,
            exists|order: Seq<int>|
                is_score_order(views(old(self).apps@), order) && views(final(self).apps@).len()
                    == order.len() && forall|p: int|
                    0 <= p < order.len() ==> #[trigger] views(final(self).apps@)[p] == views(
                        old(self).apps@,
                    )[order[p]],
    {
        let ghost va = views(self.apps@);
        let mut order: Vec<usize> = Vec::new();
        let mut i: usize = 0;
        while i < self.apps.len()
            invariant
                i <= self.apps.len(),
                va == views(self.apps@),
                order.len() == i,
                forall|p: int| 0 <= p < order.len() ==> #[trigger] order@[p] < i,
                forall|j: int| 0 <= j < i ==> #[trigger] order@.contains(j as usize),
                forall|p: int, q: int|
                    0 <= p < q < order.len() ==> (va[#[trigger] order@[p] as int].score
                        < va[#[trigger] order@[q] as int].score || (va[order@[p] as int].score
                        == va[order@[q] as int].score && order@[p] < order@[q])),
            decreases self.apps.len() - i,
        {
            let k = self.apps[i].score;
            let mut pos: usize = 0;
            while pos < order.len() && self.apps[order[pos]].score <= k
                invariant
                    pos <= order.len(),
                    va == views(self.apps@),
                    forall|p: int| 0 <= p < order.len() ==> #[trigger] order@[p] < i,
                    i < self.apps.len(),
                    forall|p: int| 0 <= p < pos ==> va[#[trigger] order@[p] as int].score <= k,
                decreases order.len() - pos,
            {
                pos = pos + 1;
            }
            let ghost old_order = order@;
            order.insert(pos, i);
            proof {
                old_order.insert_ensures(pos as int, i);
                assert(va[i as int].score == k);
                assert forall|p: int, q: int| 0 <= p < q < order.len() implies (va[#[trigger] order@[p] as int].score
                    < va[#[trigger] order@[q] as int].score || (va[order@[p] as int].score
                    == va[order@[q] as int].score && order@[p] < order@[q])) by {
                    if q < pos {
                        assert(order@[p] == old_order[p] && order@[q] == old_order[q]);
                    } else if q == pos {
                        assert(order@[p] == old_order[p]);
                    } else if p == pos {
                        assert(order@[q] == old_order[q - 1]);
                        assert(va[old_order[pos as int] as int].score > k);
                    } else if p < pos {
                        assert(order@[p] == old_order[p] && order@[q] == old_order[q - 1]);
                    } else {
                        assert(order@[p] == old_order[p - 1] && order@[q] == old_order[q - 1]);
                    }
                }
                assert forall|j: int| 0 <= j < i + 1 implies #[trigger] order@.contains(j as usize) by {
                    if j < i {
                        assert(old_order.contains(j as usize));
                        let p = choose|p: int| 0 <= p < old_order.len() && old_order[p] == j as usize;
                        if p < pos {
                            assert(order@[p] == j as usize);
                        } else {
                            assert(order@[p + 1] == j as usize);
                        }
                    } else {
                        assert(order@[pos as int] == i);
                    }
                }
            }
            i = i + 1;
        }
        let mut sorted: Vec<App> = Vec::new();
        let mut p: usize = 0;
        while p < order.len()
            invariant
                p <= order.len(),
                va == views(self.apps@),
                order.len() == self.apps.len(),
                forall|q: int| 0 <= q < order.len() ==> #[trigger] order@[q] < self.apps.len(),
                sorted.len() == p,
                forall|q: int| 0 <= q < p ==> #[trigger] views(sorted@)[q] == va[order@[q] as int],
            decreases order.len() - p,
        {
            let c = self.apps[order[p]].duplicate();
            let ghost prev = sorted@;
            sorted.push(c);
            proof {
                assert(va[order@[p as int] as int] == self.apps@[order@[p as int] as int]@);
                assert(sorted@[p as int] == c);
                assert forall|q: int| 0 <= q < p + 1 implies #[trigger] views(sorted@)[q] == va[order@[q] as int] by {
                    assert(views(sorted@)[q] == sorted@[q]@);
                    if q < p {
                        assert(sorted@[q] == prev[q]);
                        assert(views(prev)[q] == prev[q]@);
                    }
                }
            }
            p = p + 1;
        }
        let ghost ord = Seq::new(order.len() as nat, |q: int| order@[q] as int);
        proof {
            assert forall|j: int| 0 <= j < va.len() implies #[trigger] ord.contains(j) by {
                assert(order@.contains(j as usize));
                let q = choose|q: int| 0 <= q < order@.len() && order@[q] == j as usize;
                assert(ord[q] == j);
            }
            assert(is_score_order(va, ord));
            assert(content_unique(views(sorted@))) by {
                assert forall|x: int, y: int|
                    0 <= x < views(sorted@).len() && 0 <= y < views(sorted@).len() && x != y implies !same_content(
                    #[trigger] views(sorted@)[x],
                    #[trigger] views(sorted@)[y],
                ) by {
                    assert(ord[x] != ord[y]);
                }
            }
        }
        self.apps = sorted;
    }

    /// The step after an attempt to start `app` at `now` seconds since the
    /// Unix epoch: where it started, count one launch; where it did not,
    /// leave the catalog as it is and report the failure.
    pub fn finish_launch(&mut self, app: &App, started: bool, now: u64) -> (r: Result<
        (),
        AppDBError,
    >)
        requires
            old(self).wf(),
        ensures
            final(self).wf(),
            final(self).reference_time == old(self).reference_time,
            final(self).half_life == old(self).half_life,
            final(self).next_id == old(self).next_id,
            !started ==> (r matches Err(AppDBError::LaunchFailed { command }) && command@
                == app.command@ && views(final(self).apps@) == views(old(self).apps@)),
            started ==> (r is Ok <==> has_id(views(old(self).apps@), app.uuid)),
            started && r is Err ==> r == Err::<(), AppDBError>(
                AppDBError::EntryNotFound { uuid: app.uuid },
            ) && views(final(self).apps@) == views(old(self).apps@),
            started && r is Ok ==> views(final(self).apps@) == launched(
                views(old(self).apps@),
                app.uuid,
                SCORE_SCALE,
                elapsed_since(now, old(self).reference_time),
                old(self).half_life,
            ),
    {
        if !started {
            return Err(AppDBError::LaunchFailed { command: app.command.clone() });
        }
        self.update_score_at(app.uuid, SCORE_SCALE, now)
    }

    /// Add each entry of `incoming` whose application is not present yet,
    /// with a zero score and a fresh id.
    fn absorb_entries(&mut self, incoming: &Vec<App>)
        requires
            old(self).wf(),
            old(self).next_id + incoming.len() <= u64::MAX,
        ensures
            final(self).wf(),
            views(final(self).apps@) == absorb(
                views(old(self).apps@),
                views(incoming@),
                old(self).next_id as nat,
            ),
            final(self).next_id == old(self).next_id + final(self).apps.len() - old(
                self,
            ).apps.len(),
            final(self).reference_time == old(self).reference_time,
            final(self).half_life == old(self).half_life,
    {
        let ghost base = views(self.apps@);
        let ghost first = self.next_id as nat;
        let mut j: usize = 0;
        proof {
            assert(views(incoming@).take(0) =~= Seq::<AppView>::empty());
        }
        while j < incoming.len()
            invariant
                j <= incoming.len(),
                self.half_life == old(self).half_life,
                self.reference_time == old(self).reference_time,
                self.half_life > 0,
                base == views(old(self).apps@),
                first == old(self).next_id,
                first + incoming.len() <= u64::MAX,
                views(self.apps@) == absorb(base, views(incoming@).take(j as int), first),
                self.next_id == first + self.apps.len() - base.len(),
                content_unique(base),
            decreases incoming.len() - j,
        {
            let a = &incoming[j];
            let present = contains_app(&self.apps, a);
            let ghost prev = views(self.apps@);
            proof {
                lemma_absorb_grows(base, views(incoming@).take(j as int), first);
                assert(views(incoming@).take(j + 1).drop_last() =~= views(incoming@).take(
                    j as int,
                ));
                assert(views(incoming@).take(j + 1).last() == a@);
            }
            if !present {
                let fresh = App {
                    name: a.name.clone(),
                    icon: a.icon.clone(),
                    command: a.command.clone(),
                    uuid: self.next_id,
                    score: 0,
                };
                self.apps.push(fresh);
                self.next_id = self.next_id + 1;
                proof {
                    assert(views(self.apps@) =~= prev.push(fresh@));
                }
            }
            j = j + 1;
        }
        proof {
            assert(views(incoming@).take(incoming.len() as int) =~= views(incoming@));
            lemma_absorb_grows(base, views(incoming@), first);
        }
    }

    /// Merge the apps from a re-scan into the database.
    ///
    /// * Apps in `self` that are not in `apps_to_merge` are removed.
    /// * Apps in `apps_to_merge` not in `self` are added with a zero score.
    /// * The others keep their id and score.
    pub fn merge_new_entries(&mut self, apps_to_merge: Vec<App>)
        requires
            old(self).wf(),
            old(self).next_id + apps_to_merge.len() <= u64::MAX,
        ensures
            final(self).wf(),
            views(final(self).apps@) == merged(
                views(old(self).apps@),
                views(apps_to_merge@),
                old(self).next_id as nat,
            ),
            final(self).reference_time == old(self).reference_time,
            final(self).half_life == old(self).half_life,
    {
        let ghost before = views(self.apps@);
        let ghost listed = views(apps_to_merge@);
        let mut kept: Vec<App> = Vec::new();
        let mut i: usize = 0;
        while i < self.apps.len()
            invariant
                i <= self.apps.len(),
                before == views(self.apps@),
                listed == views(apps_to_merge@),
                views(kept@) == keep_listed(before.take(i as int), listed),
            decreases self.apps.len() - i,
        {
            let a = &self.apps[i];
            proof {
                assert(before.take(i + 1).drop_last() =~= before.take(i as int));
                assert(before.take(i + 1).last() == a@);
            }
            if contains_app(&apps_to_merge, a) {
                let ghost prev = views(kept@);
                let c = a.duplicate();
                kept.push(c);
                proof {
                    assert(views(kept@) =~= prev.push(c@));
                }
            }
            i = i + 1;
        }
        proof {
            assert(before.take(before.len() as int) =~= before);
            lemma_keep_listed_from(before, listed);
        }
        self.apps = kept;
        self.absorb_entries(&apps_to_merge);
    }
}

/// Whether `v` holds an entry for the same application as `a`.
pub fn contains_app(v: &Vec<App>, a: &App) -> (r: bool)
    ensures
        r == contains_content(views(v@), a@),
{
    let mut i: usize = 0;
    while i < v.len()
        invariant
            i <= v.len(),
            forall|k: int| 0 <= k < i ==> !same_content(#[trigger] views(v@)[k], a@),
        decreases v.len() - i,
    {
        if v[i].same_as(a) {
            proof {
                assert(same_content(views(v@)[i as int], a@));
            }
            return true;
        }
        i = i + 1;
    }
    false
}

/// Relies on `std::time::SystemTime::now`: whole seconds since the Unix
/// epoch, or zero for a clock set before it. Nothing is known of the value.
#[verifier::external_body]
pub fn current_time_secs() -> (r: u64) {
    match std::time::SystemTime::now().duration_since(std::time::UNIX_EPOCH) {
        Ok(d) => d.as_secs(),
        Err(_) => 0,
    }
}

} // verus!
