//! One level's high score table, and the registry of tables by level.
use vstd::prelude::*;
use std::collections::BTreeMap;
use crate::score::{Score, ScoreView, ranks_above, lemma_rank_total, lemma_rank_transitive};
use crate::table::{
    HIGHSCORE_LIST_SIZE,
    ranked,
    one_per_user,
    table_wf,
    holds_user,
    user_index,
    place,
    admits,
    after_submit,
    lemma_place_at,
    lemma_remove_wf,
    lemma_submit_keeps_table_wf,
    lemma_admitted_below_capacity,
};

verus! {

/// The views of a sequence of scores.
pub open spec fn score_views(v: Seq<Score>) -> Seq<ScoreView> {
    v.map_values(|s: Score| s@)
}

/// Entries with exactly `points` points.
pub open spec fn has_points(points: u64) -> spec_fn(ScoreView) -> bool {
    |e: ScoreView| e.points == points
}

/// The high score table of one level: the best score of each user, best first,
/// at most `HIGHSCORE_LIST_SIZE` of them.
pub struct Level {
    scores: Vec<Score>,
}

impl View for Level {
    type V = Seq<ScoreView>;

    closed spec fn view(&self) -> Seq<ScoreView> {
        score_views(self.scores@)
    }
}

impl Level {
    /// The table is ranked, holds one entry per user, and is within capacity.
    pub open spec fn wf(&self) -> bool {
        table_wf(self@)
    }

    /// An empty table.
    pub fn new() -> (r: Level)
        ensures
            r@ == Seq::<ScoreView>::empty(),
            r.wf(),
    {
        let r = Level { scores: Vec::new() };
        assert(r@ =~= Seq::<ScoreView>::empty());
        r
    }

    /// How many entries the table holds.
    pub fn len(&self) -> (r: usize)
        ensures
            r == self@.len(),
    {
        self.scores.len()
    }

    /// A copy of the table, best first; later changes to the table leave it as it is.
    pub fn get_high_scores(&self) -> (r: Vec<Score>)
        ensures
            score_views(r@) == self@,
    {
        let mut out: Vec<Score> = Vec::new();
        let mut i: usize = 0;
        while i < self.scores.len()
            invariant
                i <= self.scores@.len(),
                score_views(out@) == self@.take(i as int),
            decreases self.scores@.len() - i,
        {
            let e = self.scores[i].clone();
            let ghost prev = out@;
            out.push(e);
            assert(out@ == prev.push(e));
            assert(score_views(out@) =~= score_views(prev).push(self@[i as int]));
            assert(self@.take(i + 1) =~= self@.take(i as int).push(self@[i as int]));
            i = i + 1;
        }
        assert(self@.take(self.scores@.len() as int) =~= self@);
        out
    }

    /// Where the entry of `user_id` stands, if the table holds one.
    fn find_user(&self, user_id: &String) -> (r: Option<usize>)
        ensures
            match r {
                Some(k) => k < self@.len() && self@[k as int].user == user_id@,
                None => !holds_user(self@, user_id@),
            },
    {
        let mut k: usize = 0;
        while k < self.scores.len()
            invariant
                k <= self.scores@.len(),
                forall|i: int| 0 <= i < k ==> (#[trigger] self@[i]).user != user_id@,
            decreases self.scores@.len() - k,
        {
            if self.scores[k].belongs_to(user_id) {
                return Some(k);
            }
            k = k + 1;
        }
        None
    }

    /// Puts `candidate`, of a user the table does not hold, in its place by rank.
    fn place(&mut self, candidate: Score)
        requires
            ranked(old(self)@),
            one_per_user(old(self)@),
            forall|i: int|
                0 <= i < old(self)@.len() ==> (#[trigger] old(self)@[i]).user != candidate@.user,
        ensures
            final(self)@ == place(old(self)@, candidate@),
    {
        let ghost s = self@;
        let ghost c = candidate@;
        let n = self.scores.len();
        let mut p: usize = 0;
        while p < n && !candidate.outranks(&self.scores[p])
            invariant
                n == self.scores@.len(),
                p <= n,
                self@ == s,
                c == candidate@,
                ranked(s),
                forall|i: int| 0 <= i < s.len() ==> (#[trigger] s[i]).user != c.user,
                forall|i: int| 0 <= i < p ==> ranks_above(#[trigger] s[i], c),
            decreases n - p,
        {
            proof {
                lemma_rank_total(s[p as int], c);
            }
            p = p + 1;
        }
        proof {
            assert forall|i: int| p <= i < s.len() implies ranks_above(c, #[trigger] s[i]) by {
                if i > p {
                    lemma_rank_transitive(c, s[p as int], s[i]);
                }
            }
            lemma_place_at(s, c, p as int);
        }
        self.scores.insert(p, candidate);
        assert(self@ =~= s.insert(p as int, c));
    }

    /// Submits a score whose registration time is already fixed: it is taken or
    /// rejected as `admits` says, and the table becomes `after_submit`.
    pub fn submit(&mut self, candidate: Score) -> (accepted: bool)
        requires
            old(self).wf(),
        ensures
            final(self).wf(),
            accepted == admits(old(self)@, candidate@),
            final(self)@ == after_submit(old(self)@, candidate@),
    {
        let ghost s = self@;
        let ghost c = candidate@;
        proof {
            lemma_submit_keeps_table_wf(s, c);
        }
        let n = self.scores.len();
        match self.find_user(candidate.user()) {
            Some(k) => {
                if candidate.outranks(&self.scores[k]) {
                    proof {
                        let j = user_index(s, c.user);
                        assert(s[j].user == c.user);
                    }
                    let _superseded = self.scores.remove(k);
                    assert(self@ =~= s.remove(k as int));
                    proof {
                        lemma_remove_wf(s, k as int);
                    }
                    assert forall|i: int| 0 <= i < self@.len() implies (
                    #[trigger] self@[i]).user != c.user by {
                        let si = if i < k { i } else { i + 1 };
                        assert(self@[i] == s[si]);
                        assert(s[si].user != s[k as int].user);
                    }
                    self.place(candidate);
                    true
                } else {
                    proof {
                        let j = user_index(s, c.user);
                        assert(s[j].user == c.user);
                    }
                    false
                }
            },
            None => {
                if n < HIGHSCORE_LIST_SIZE {
                    self.place(candidate);
                    true
                } else if candidate.outranks(&self.scores[n - 1]) {
                    let _evicted = self.scores.pop();
                    assert(self@ =~= s.remove(n - 1));
                    proof {
                        lemma_remove_wf(s, n - 1);
                    }
                    self.place(candidate);
                    true
                } else {
                    false
                }
            },
        }
    }

    /// Submits `points` for `user_id`, registered now: the table changes as
    /// `after_submit` says for that score, and the result says whether it was taken.
    pub fn add_score(&mut self, user_id: String, points: u64) -> (accepted: bool)
        requires
            old(self).wf(),
        ensures
            final(self).wf(),
            exists|c: ScoreView|
                {
                    &&& c.user == user_id@
                    &&& c.points == points
                    &&& accepted == admits(old(self)@, c)
                    &&& final(self)@ == after_submit(old(self)@, c)
                },
    {
        let candidate = Score::new(user_id, points);
        let ghost c = candidate@;
        let accepted = self.submit(candidate);
        assert(c.user == user_id@ && c.points == points);
        accepted
    }

    /// The entry of `user_id`, if the table holds one.
    pub fn get_user_score(&self, user_id: String) -> (r: Option<&Score>)
        requires
            self.wf(),
        ensures
            match r {
                Some(e) => holds_user(self@, user_id@) && e@ == self@[user_index(self@, user_id@)],
                None => !holds_user(self@, user_id@),
            },
    {
        match self.find_user(&user_id) {
            Some(k) => {
                proof {
                    let j = user_index(self@, user_id@);
                    assert(self@[j].user == user_id@);
                }
                Some(&self.scores[k])
            },
            None => None,
        }
    }

    /// The entries with exactly `score` points, best first, or `None` if there are none.
    pub fn get_score(&self, score: u64) -> (r: Option<Vec<Score>>)
        ensures
            match r {
                Some(v) => score_views(v@) == self@.filter(has_points(score)) && v@.len() > 0,
                None => self@.filter(has_points(score)).len() == 0,
            },
    {
        let mut out: Vec<Score> = Vec::new();
        let mut i: usize = 0;
        while i < self.scores.len()
            invariant
                i <= self.scores@.len(),
                score_views(out@) == self@.take(i as int).filter(has_points(score)),
            decreases self.scores@.len() - i,
        {
            proof {
                assert(self@.take(i + 1) =~= self@.take(i as int).push(self@[i as int]));
                self@.take(i as int).lemma_filter_push(self@[i as int], has_points(score));
            }
            if self.scores[i].points() == score {
                out.push(self.scores[i].clone());
            }
            assert(score_views(out@) =~= self@.take(i + 1).filter(has_points(score)));
            i = i + 1;
        }
        assert(self@.take(self.scores@.len() as int) =~= self@);
        if out.len() > 0 {
            Some(out)
        } else {
            None
        }
    }

    /// Empties the table.
    pub fn reset(&mut self)
        ensures
            final(self)@ == Seq::<ScoreView>::empty(),
            final(self).wf(),
    {
        self.scores.clear();
        assert(self@ =~= Seq::<ScoreView>::empty());
    }
}

/// The table of `level_id` in a registry: empty where the level has none yet.
pub open spec fn table_of(m: Map<u64, Seq<ScoreView>>, level_id: u64) -> Seq<ScoreView> {
    if m.contains_key(level_id) {
        m[level_id]
    } else {
        Seq::<ScoreView>::empty()
    }
}

/// A registry after a submission of `c` to `level_id`: that level's table, made
/// on first use, becomes `after_submit`; no other level changes.
pub open spec fn registry_after_submit(
    m: Map<u64, Seq<ScoreView>>,
    level_id: u64,
    c: ScoreView,
) -> Map<u64, Seq<ScoreView>> {
    m.insert(level_id, after_submit(table_of(m, level_id), c))
}

/// Every table of a registry is well formed.
pub open spec fn registry_wf(m: Map<u64, Seq<ScoreView>>) -> bool {
    forall|k: u64| #[trigger] m.contains_key(k) ==> table_wf(m[k])
}

/// Two first submissions to a level without a table end in exactly one table
/// for that level, to which both were applied in turn; when they come from two
/// different users, both are in it. No other level changes.
pub proof fn lemma_first_submissions_share_one_table(
    m: Map<u64, Seq<ScoreView>>,
    level_id: u64,
    c1: ScoreView,
    c2: ScoreView,
)
    requires
        registry_wf(m),
        !m.contains_key(level_id),
    ensures
        registry_after_submit(registry_after_submit(m, level_id, c1), level_id, c2).dom()
            == m.dom().insert(level_id),
        forall|k: u64|
            k != level_id && #[trigger] m.contains_key(k) ==> registry_after_submit(
                registry_after_submit(m, level_id, c1),
                level_id,
                c2,
            )[k] == m[k],
        registry_after_submit(registry_after_submit(m, level_id, c1), level_id, c2)[level_id]
            == after_submit(after_submit(Seq::<ScoreView>::empty(), c1), c2),
        registry_wf(registry_after_submit(registry_after_submit(m, level_id, c1), level_id, c2)),
        c1.user != c2.user ==> {
            let t = registry_after_submit(
                registry_after_submit(m, level_id, c1),
                level_id,
                c2,
            )[level_id];
            &&& t.len() == 2
            &&& t.contains(c1)
            &&& t.contains(c2)
        },
{
    let s0 = Seq::<ScoreView>::empty();
    let s1 = after_submit(s0, c1);
    let s2 = after_submit(s1, c2);
    let m1 = registry_after_submit(m, level_id, c1);
    let m2 = registry_after_submit(m1, level_id, c2);
    lemma_submit_keeps_table_wf(s0, c1);
    lemma_submit_keeps_table_wf(s1, c2);
    lemma_admitted_below_capacity(s0, c1);
    assert(table_of(m, level_id) == s0);
    assert(m1[level_id] == s1);
    assert(table_of(m1, level_id) == s1);
    assert(m2.dom() =~= m.dom().insert(level_id));
    if c1.user != c2.user {
        let j = choose|j: int| 0 <= j < s1.len() && s1[j] == c1;
        assert(s1[0] == c1);
        lemma_admitted_below_capacity(s1, c2);
        assert(s2.contains(s1[0]));
    }
}

/// One high score table per level, made when the level is first submitted to.
pub struct LevelRepository {
    levels: BTreeMap<u64, Level>,
}

impl View for LevelRepository {
    type V = Map<u64, Seq<ScoreView>>;

    closed spec fn view(&self) -> Map<u64, Seq<ScoreView>> {
        self.levels@.map_values(|l: Level| l@)
    }
}

impl LevelRepository {
    /// Every level's table is well formed.
    pub open spec fn wf(&self) -> bool {
        registry_wf(self@)
    }

    /// A registry without levels.
    pub fn new() -> (r: LevelRepository)
        ensures
            r@ == Map::<u64, Seq<ScoreView>>::empty(),
            r.wf(),
    {
        let r = LevelRepository { levels: BTreeMap::new() };
        assert(r@ =~= Map::<u64, Seq<ScoreView>>::empty());
        r
    }

    /// A copy of the table of `level_id`, best first, or `None` if the level
    /// has never been submitted to.
    pub fn get_level_high_scores(&self, level_id: u64) -> (r: Option<Vec<Score>>)
        ensures
            match r {
                Some(v) => self@.contains_key(level_id) && score_views(v@) == self@[level_id],
                None => !self@.contains_key(level_id),
            },
    {
        broadcast use vstd::std_specs::btree::group_btree_axioms, vstd::laws_cmp::group_laws_cmp;

        match self.levels.get(&level_id) {
            Some(level) => Some(level.get_high_scores()),
            None => None,
        }
    }

    /// Submits a score whose registration time is already fixed to `level_id`,
    /// making the level's table on first use; the result says whether it was taken.
    pub fn submit(&mut self, level_id: u64, candidate: Score) -> (accepted: bool)
        requires
            old(self).wf(),
        ensures
            final(self).wf(),
            accepted == admits(table_of(old(self)@, level_id), candidate@),
            final(self)@ == registry_after_submit(old(self)@, level_id, candidate@),
    {
        broadcast use vstd::std_specs::btree::group_btree_axioms, vstd::laws_cmp::group_laws_cmp;

        let ghost m = self@;
        let mut level = match self.levels.remove(&level_id) {
            Some(level) => level,
            None => Level::new(),
        };
        assert(level@ == table_of(m, level_id));
        let accepted = level.submit(candidate);
        self.levels.insert(level_id, level);
        assert(self@ =~= registry_after_submit(m, level_id, candidate@));
        accepted
    }

    /// Submits `points` for `user_id` to `level_id`, registered now, making the
    /// level's table on first use; the result says whether the score was taken.
    pub fn add_score(&mut self, level_id: u64, user_id: String, points: u64) -> (accepted: bool)
        requires
            old(self).wf(),
        ensures
            final(self).wf(),
            exists|c: ScoreView|
                {
                    &&& c.user == user_id@
                    &&& c.points == points
                    &&& accepted == admits(table_of(old(self)@, level_id), c)
                    &&& final(self)@ == registry_after_submit(old(self)@, level_id, c)
                },
    {
        let candidate = Score::new(user_id, points);
        let ghost c = candidate@;
        let accepted = self.submit(level_id, candidate);
        assert(c.user == user_id@ && c.points == points);
        accepted
    }

    /// Drops every level.
    pub fn reset(&mut self)
        ensures
            final(self)@ == Map::<u64, Seq<ScoreView>>::empty(),
            final(self).wf(),
    {
        self.levels.clear();
        assert(self@ =~= Map::<u64, Seq<ScoreView>>::empty());
    }
}

} // verus!
