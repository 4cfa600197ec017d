//! Ranking entries for a search string by fuzzy relevance plus usage.
use crate::db::{views, AppsDB};
use crate::entry::{App, AppView, SCORE_SCALE};
use vstd::prelude::*;

verus! {

/// What `fuzzy_matcher::skim::fuzzy_match` returns for a choice and a pattern.
pub uninterp spec fn skim_score(choice: Seq<char>, pattern: Seq<char>) -> Option<i64>;

/// Relies on `fuzzy_matcher::skim::fuzzy_match`: the relevance of `choice`
/// to `pattern`, `None` when it does not match; its value depends on the two
/// strings alone, and an empty pattern gives `Some(0)`.
#[verifier::external_body]
fn fuzzy_score(choice: &str, pattern: &str) -> (r: Option<i64>)
    ensures
        r == skim_score(choice@, pattern@),
        pattern@.len() == 0 ==> r == Some(0i64),
{
    #[allow(deprecated)]
    let r = fuzzy_matcher::skim::fuzzy_match(choice, pattern);
    r
}

/// An entry takes part in a ranking when its relevance is positive.
pub open spec fn included(score: Option<i64>) -> bool {
    score matches Some(x) && x > 0
}

/// Usage plus relevance, both in units of `1 / SCORE_SCALE` launch.
pub open spec fn combined(a: AppView, score: Option<i64>) -> int {
    match score {
        Some(x) => a.score as int + x as int * SCORE_SCALE as int,
        None => a.score as int,
    }
}

/// Entry `i` goes before entry `j`: a higher combined score, or an equal one
/// and an earlier position in the catalog.
pub open spec fn ranks_before(apps: Seq<AppView>, scores: Seq<Option<i64>>, i: int, j: int) -> bool {
    combined(apps[i], scores[i]) > combined(apps[j], scores[j]) || (combined(apps[i], scores[i])
        == combined(apps[j], scores[j]) && i < j)
}

/// `order` lists the positions of exactly the included entries, each before
/// the ones it ranks before.
pub open spec fn is_ranking(apps: Seq<AppView>, scores: Seq<Option<i64>>, order: Seq<int>) -> bool {
    &&& forall|p: int|
        0 <= p < order.len() ==> 0 <= #[trigger] order[p] < apps.len() && included(
            scores[order[p]],
        )
    &&& forall|i: int| 0 <= i < apps.len() && included(#[trigger] scores[i]) ==> order.contains(i)
    &&& forall|p: int, q: int|
        0 <= p < q < order.len() ==> ranks_before(apps, scores, #[trigger] order[p], #[trigger] order[q])
}

/// How many entries a ranking of `total` keeps under the limit `num_items`.
pub open spec fn kept_count(total: int, num_items: Option<usize>) -> int {
    match num_items {
        Some(n) => if n < total { n as int } else { total },
        None => total,
    }
}

/// `r` is the ranking of `apps` under the relevance `scores`, cut to `num_items`.
pub open spec fn is_ranked_list(
    apps: Seq<AppView>,
    scores: Seq<Option<i64>>,
    num_items: Option<usize>,
    r: Seq<AppView>,
) -> bool {
    exists|order: Seq<int>|
        is_ranking(apps, scores, order) && r.len() == kept_count(order.len() as int, num_items)
            && forall|p: int| 0 <= p < r.len() ==> #[trigger] r[p] == apps[order[p]]
}

/// The relevance of each entry's name to `search`.
pub open spec fn relevance(apps: Seq<AppView>, search: Seq<char>) -> Seq<Option<i64>> {
    Seq::new(apps.len(), |i: int| skim_score(apps[i].name, search))
}

/// `a` is an entry of `apps` whose relevance is positive.
pub open spec fn matched_entry(apps: Seq<AppView>, scores: Seq<Option<i64>>, a: AppView) -> bool {
    exists|i: int| 0 <= i < apps.len() && #[trigger] apps[i] == a && included(scores[i])
}

/// Every entry of a ranked list is an entry of the catalog whose relevance
/// to the search is positive: unmatched entries and entries of relevance
/// zero never appear.
pub proof fn lemma_ranked_only_matched(
    apps: Seq<AppView>,
    scores: Seq<Option<i64>>,
    num_items: Option<usize>,
    r: Seq<AppView>,
)
    requires
        scores.len() == apps.len(),
        is_ranked_list(apps, scores, num_items, r),
    ensures
        forall|p: int| 0 <= p < r.len() ==> #[trigger] matched_entry(apps, scores, r[p]),
{
    let order = choose|order: Seq<int>|
        is_ranking(apps, scores, order) && r.len() == kept_count(order.len() as int, num_items)
            && forall|p: int| 0 <= p < r.len() ==> #[trigger] r[p] == apps[order[p]];
    assert forall|p: int| 0 <= p < r.len() implies #[trigger] matched_entry(apps, scores, r[p]) by {
        assert(r.len() <= order.len());
        let i = order[p];
        assert(0 <= i < apps.len() && included(scores[i]));
        assert(r[p] == apps[i]);
    }
}

proof fn lemma_ranking_unique(
    apps: Seq<AppView>,
    scores: Seq<Option<i64>>,
    o1: Seq<int>,
    o2: Seq<int>,
)
    requires
        scores.len() == apps.len(),
        is_ranking(apps, scores, o1),
        is_ranking(apps, scores, o2),
    ensures
        o1 == o2,
{
    if o1 != o2 {
        let m = if o1.len() < o2.len() {
            o1.len()
        } else {
            o2.len()
        };
        let k: int = if exists|k: int| 0 <= k < m && o1[k] != o2[k] {
            choose|k: int| 0 <= k < m && o1[k] != o2[k] && forall|j: int| 0 <= j < k ==> o1[j] == o2[j]
        } else {
            m as int
        };
        if exists|k: int| 0 <= k < m && o1[k] != o2[k] {
            // the first position where the two differ
            let k0 = choose|k: int| 0 <= k < m && o1[k] != o2[k];
            lemma_first_difference(o1, o2, k0);
        }
        assert(forall|j: int| 0 <= j < k ==> o1[j] == o2[j]);
        if k < m {
            let a = o1[k];
            let b = o2[k];
            assert(o2.contains(a));
            let ja = choose|j: int| 0 <= j < o2.len() && o2[j] == a;
            assert(o1.contains(b));
            let jb = choose|j: int| 0 <= j < o1.len() && o1[j] == b;
            if ja < k {
                assert(o1[ja] == a);
                assert(ranks_before(apps, scores, o1[ja], o1[k]));
            }
            if jb < k {
                assert(o2[jb] == b);
                assert(ranks_before(apps, scores, o2[jb], o2[k]));
            }
            assert(ranks_before(apps, scores, o1[k], o1[jb]));
            assert(ranks_before(apps, scores, o2[k], o2[ja]));
        } else if o1.len() < o2.len() {
            let b = o2[k];
            assert(o1.contains(b));
            let jb = choose|j: int| 0 <= j < o1.len() && o1[j] == b;
            assert(o2[jb] == b);
            assert(ranks_before(apps, scores, o2[jb], o2[k]));
        } else if o2.len() < o1.len() {
            let a = o1[k];
            assert(o2.contains(a));
            let ja = choose|j: int| 0 <= j < o2.len() && o2[j] == a;
            assert(o1[ja] == a);
            assert(ranks_before(apps, scores, o1[ja], o1[k]));
        } else {
            assert(o1 =~= o2);
        }
    }
}

proof fn lemma_first_difference(o1: Seq<int>, o2: Seq<int>, k0: int)
    requires
        0 <= k0 < o1.len(),
        k0 < o2.len(),
        o1[k0] != o2[k0],
    ensures
        exists|k: int|
            0 <= k <= k0 && o1[k] != o2[k] && forall|j: int| 0 <= j < k ==> o1[j] == o2[j],
    decreases k0,
{
    if exists|j: int| 0 <= j < k0 && o1[j] != o2[j] {
        let j = choose|j: int| 0 <= j < k0 && o1[j] != o2[j];
        lemma_first_difference(o1, o2, j);
    } else {
        assert(forall|j: int| 0 <= j < k0 ==> o1[j] == o2[j]);
    }
}

/// A ranking is fully determined: two ranked lists of the same entries,
/// relevance and limit are equal.
pub proof fn lemma_ranked_list_unique(
    apps: Seq<AppView>,
    scores: Seq<Option<i64>>,
    num_items: Option<usize>,
    r1: Seq<AppView>,
    r2: Seq<AppView>,
)
    requires
        scores.len() == apps.len(),
        is_ranked_list(apps, scores, num_items, r1),
        is_ranked_list(apps, scores, num_items, r2),
    ensures
        r1 == r2,
{
    let o1 = choose|order: Seq<int>|
        is_ranking(apps, scores, order) && r1.len() == kept_count(order.len() as int, num_items)
            && forall|p: int| 0 <= p < r1.len() ==> #[trigger] r1[p] == apps[order[p]];
    let o2 = choose|order: Seq<int>|
        is_ranking(apps, scores, order) && r2.len() == kept_count(order.len() as int, num_items)
            && forall|p: int| 0 <= p < r2.len() ==> #[trigger] r2[p] == apps[order[p]];
    lemma_ranking_unique(apps, scores, o1, o2);
    assert(r1 =~= r2);
}

fn combined_key(a: &App, score: i64) -> (r: u128)
    requires
        score > 0,
    ensures
        r == combined(a@, Some(score)),
{
    proof {
        assert(score as int * SCORE_SCALE as int <= i64::MAX as int * 1000) by (nonlinear_arith)
            requires
                score <= i64::MAX,
                SCORE_SCALE == 1000,
        ;
    }
    a.score as u128 + score as u128 * SCORE_SCALE as u128
}

/// Rank `apps` under the given relevance of each: entries whose relevance is
/// absent or zero are left out, the rest ordered by usage plus relevance,
/// highest first, ties in catalog order, then cut to `num_items`.
pub fn rank_by_scores(apps: &Vec<App>, scores: &Vec<Option<i64>>, num_items: Option<usize>) -> (r:
    Vec<App>)
    requires
        apps.len() == scores.len(),
    ensures
        is_ranked_list(views(apps@), scores@, num_items, views(r@)),
{
    let ghost va = views(apps@);
    let mut order: Vec<usize> = Vec::new();
    let mut keys: Vec<u128> = Vec::new();
    let mut i: usize = 0;
    while i < apps.len()
        invariant
            i <= apps.len(),
            apps.len() == scores.len(),
            va == views(apps@),
            keys.len() == order.len(),
            forall|p: int|
                0 <= p < order.len() ==> #[trigger] order@[p] < i && included(
                    scores@[order@[p] as int],
                ) && keys@[p] == combined(va[order@[p] as int], scores@[order@[p] as int]),
            forall|j: int|
                0 <= j < i && included(#[trigger] scores@[j]) ==> order@.contains(j as usize),
            forall|p: int, q: int|
                0 <= p < q < order.len() ==> ranks_before(
                    va,
                    scores@,
                    #[trigger] order@[p] as int,
                    #[trigger] order@[q] as int,
                ),
        decreases apps.len() - i,
    {
        if let Some(x) = scores[i] {
            if x > 0 {
                let k = combined_key(&apps[i], x);
                let mut pos: usize = 0;
                while pos < order.len() && keys[pos] >= k
                    invariant
                        pos <= order.len(),
                        keys.len() == order.len(),
                        forall|p: int| 0 <= p < pos ==> #[trigger] keys@[p] >= k,
                    decreases order.len() - pos,
                {
                    pos = pos + 1;
                }
                let ghost old_order = order@;
                let ghost old_keys = keys@;
                order.insert(pos, i);
                keys.insert(pos, k);
                proof {
                    old_order.insert_ensures(pos as int, i);
                    old_keys.insert_ensures(pos as int, k);
                    assert(va[i as int] == apps@[i as int]@);
                    assert forall|p: int, q: int| 0 <= p < q < order.len() implies ranks_before(
                        va,
                        scores@,
                        #[trigger] order@[p] as int,
                        #[trigger] order@[q] as int,
                    ) by {
                        if q < pos {
                            assert(order@[p] == old_order[p] && order@[q] == old_order[q]);
                        } else if q == pos {
                            assert(order@[p] == old_order[p]);
                            assert(keys@[p] >= k);
                        } else if p == pos {
                            assert(order@[q] == old_order[q - 1]);
                            assert(old_keys[pos as int] < k);
                            if q - 1 > pos {
                                assert(ranks_before(va, scores@, old_order[pos as int] as int, old_order[q - 1] as int));
                            }
                        } else if p < pos {
                            assert(order@[p] == old_order[p] && order@[q] == old_order[q - 1]);
                        } else {
                            assert(order@[p] == old_order[p - 1] && order@[q] == old_order[q - 1]);
                        }
                    }
                    assert forall|j: int|
                        0 <= j < i + 1 && included(#[trigger] scores@[j]) implies order@.contains(
                        j as usize,
                    ) by {
                        if j < i {
                            let p = choose|p: int| 0 <= p < old_order.len() && old_order[p] == j as usize;
                            if p < pos {
                                assert(order@[p] == j as usize);
                            } else {
                                assert(order@[p + 1] == j as usize);
                            }
                        } else {
                            assert(order@[pos as int] == i);
                        }
                    }
                }
            }
        }
        i = i + 1;
    }
    let limit: usize = match num_items {
        Some(n) => if n < order.len() { n } else { order.len() },
        None => order.len(),
    };
    let mut r: Vec<App> = Vec::new();
    let mut p: usize = 0;
    while p < limit
        invariant
            p <= limit <= order.len(),
            va == views(apps@),
            forall|q: int| 0 <= q < order.len() ==> #[trigger] order@[q] < apps.len(),
            r.len() == p,
            forall|q: int| 0 <= q < p ==> #[trigger] views(r@)[q] == va[order@[q] as int],
        decreases limit - p,
    {
        let c = apps[order[p]].duplicate();
        let ghost prev = r@;
        r.push(c);
        proof {
            assert(va[order@[p as int] as int] == apps@[order@[p as int] as int]@);
            assert(r@[p as int] == c);
            assert forall|q: int| 0 <= q < p + 1 implies #[trigger] views(r@)[q] == va[order@[q] as int] by {
                assert(views(r@)[q] == r@[q]@);
                if q < p {
                    assert(r@[q] == prev[q]);
                    assert(views(prev)[q] == prev[q]@);
                }
            }
        }
        p = p + 1;
    }
    proof {
        let ord = Seq::new(order.len() as nat, |q: int| order@[q] as int);
        assert forall|j: int| 0 <= j < va.len() && included(#[trigger] scores@[j]) implies ord.contains(j) by {
            assert(order@.contains(j as usize));
            let q = choose|q: int| 0 <= q < order@.len() && order@[q] == j as usize;
            assert(ord[q] == j);
        }
        assert(is_ranking(va, scores@, ord));
        assert(forall|q: int| 0 <= q < views(r@).len() ==> #[trigger] views(r@)[q] == va[ord[q]]);
    }
    r
}

impl AppsDB {
    /// Get the apps in rank order for a given search string.
    ///
    /// An entry takes part when the fuzzy matcher gives its name a positive
    /// relevance to `search`; an empty search gives every entry a relevance
    /// of zero and so ranks nothing. The result holds copies.
    pub fn get_ranked_list(&self, search: &str, num_items: Option<usize>) -> (r: Vec<App>)
        ensures
            is_ranked_list(
                views(self.apps@),
                relevance(views(self.apps@), search@),
                num_items,
                views(r@),
            ),
            search@.len() == 0 ==> r@.len() == 0,
    {
        let mut scores: Vec<Option<i64>> = Vec::new();
        let mut i: usize = 0;
        while i < self.apps.len()
            invariant
                i <= self.apps.len(),
                scores.len() == i,
                forall|j: int|
                    0 <= j < i ==> #[trigger] scores@[j] == skim_score(
                        self.apps@[j].name@,
                        search@,
                    ),
                search@.len() == 0 ==> forall|j: int| 0 <= j < i ==> #[trigger] scores@[j] == Some(0i64),
            decreases self.apps.len() - i,
        {
            let s = fuzzy_score(self.apps[i].name.as_str(), search);
            scores.push(s);
            i = i + 1;
        }
        proof {
            assert(scores@ =~= relevance(views(self.apps@), search@));
        }
        let r = rank_by_scores(&self.apps, &scores, num_items);
        proof {
            if search@.len() == 0 {
                let order = choose|order: Seq<int>|
                    is_ranking(views(self.apps@), scores@, order) && views(r@).len() == kept_count(
                        order.len() as int,
                        num_items,
                    ) && forall|p: int| 0 <= p < views(r@).len() ==> #[trigger] views(r@)[p] == views(self.apps@)[order[p]];
                if order.len() > 0 {
                    assert(included(scores@[order[0]]));
                }
            }
        }
        r
    }
}

} // verus!
