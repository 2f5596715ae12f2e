use vstd::prelude::*;
use vstd::string::StrSliceExecFns;

verus! {

/// What a score is, abstractly: who submitted it, how many points, and when.
pub ghost struct ScoreView {
    pub user: Seq<char>,
    pub points: u64,
    pub timestamp: u64,
}

/// `a` comes strictly after `b` in the lexicographic order of characters.
pub open spec fn lex_greater(a: Seq<char>, b: Seq<char>) -> bool
    decreases a.len(),
{
    if a.len() == 0 {
        false
    } else if b.len() == 0 {
        true
    } else if a[0] != b[0] {
        a[0] > b[0]
    } else {
        lex_greater(a.drop_first(), b.drop_first())
    }
}

/// `a` ranks strictly better than `b`: more points; on equal points the earlier
/// registration; on equal registration the lexicographically greater user id.
pub open spec fn ranks_above(a: ScoreView, b: ScoreView) -> bool {
    ||| a.points > b.points
    ||| (a.points == b.points && a.timestamp < b.timestamp)
    ||| (a.points == b.points && a.timestamp == b.timestamp && lex_greater(a.user, b.user))
}

/// No two sequences come after each other.
pub proof fn lemma_lex_asymmetric(a: Seq<char>, b: Seq<char>)
    ensures
        !(lex_greater(a, b) && lex_greater(b, a)),
    decreases a.len(),
{
    if a.len() > 0 && b.len() > 0 && a[0] == b[0] {
        lemma_lex_asymmetric(a.drop_first(), b.drop_first());
    }
}

/// The lexicographic order is transitive.
pub proof fn lemma_lex_transitive(a: Seq<char>, b: Seq<char>, c: Seq<char>)
    requires
        lex_greater(a, b),
        lex_greater(b, c),
    ensures
        lex_greater(a, c),
    decreases a.len(),
{
    if a.len() > 0 && b.len() > 0 && c.len() > 0 && a[0] == b[0] && b[0] == c[0] {
        lemma_lex_transitive(a.drop_first(), b.drop_first(), c.drop_first());
    }
}

/// Of two different sequences, one comes after the other.
pub proof fn lemma_lex_total(a: Seq<char>, b: Seq<char>)
    requires
        a != b,
    ensures
        lex_greater(a, b) || lex_greater(b, a),
    decreases a.len(),
{
    if a.len() > 0 && b.len() > 0 {
        if a[0] == b[0] {
            if a.drop_first() == b.drop_first() {
                assert(a =~= seq![a[0]] + a.drop_first());
                assert(b =~= seq![b[0]] + b.drop_first());
            }
            lemma_lex_total(a.drop_first(), b.drop_first());
        } else {
            assert(a[0] > b[0] || b[0] > a[0]);
        }
    } else if a.len() == 0 && b.len() == 0 {
        assert(a =~= b);
    }
}

/// Ranking never puts a score above itself, nor two scores above each other.
pub proof fn lemma_rank_asymmetric(a: ScoreView, b: ScoreView)
    ensures
        !(ranks_above(a, b) && ranks_above(b, a)),
{
    lemma_lex_asymmetric(a.user, b.user);
}

/// Ranking is transitive.
pub proof fn lemma_rank_transitive(a: ScoreView, b: ScoreView, c: ScoreView)
    requires
        ranks_above(a, b),
        ranks_above(b, c),
    ensures
        ranks_above(a, c),
{
    if a.points == b.points && b.points == c.points && a.timestamp == b.timestamp
        && b.timestamp == c.timestamp {
        lemma_lex_transitive(a.user, b.user, c.user);
    }
}

/// Any two scores of different users are ranked one way or the other.
pub proof fn lemma_rank_total(a: ScoreView, b: ScoreView)
    requires
        a.user != b.user,
    ensures
        ranks_above(a, b) || ranks_above(b, a),
{
    lemma_lex_total(a.user, b.user);
}

/// Relies on time::precise_time_ns: a reading of a high-resolution clock in
/// nanoseconds. Nothing is known of the value.
#[verifier::external_body]
fn clock_ns() -> (r: u64) {
    time::precise_time_ns()
}

/// Whether `a` comes strictly after `b` in the lexicographic order of characters.
fn str_greater(a: &str, b: &str) -> (r: bool)
    ensures
        r == lex_greater(a@, b@),
{
    let la = a.unicode_len();
    let lb = b.unicode_len();
    let mut i: usize = 0;
    assert(a@.skip(0) =~= a@);
    assert(b@.skip(0) =~= b@);
    while i < la && i < lb
        invariant
            la == a@.len(),
            lb == b@.len(),
            i <= la,
            i <= lb,
            lex_greater(a@, b@) == lex_greater(a@.skip(i as int), b@.skip(i as int)),
        decreases la - i,
    {
        let ca = a.get_char(i);
        let cb = b.get_char(i);
        if ca != cb {
            return ca > cb;
        }
        assert(a@.skip(i as int).drop_first() =~= a@.skip(i + 1));
        assert(b@.skip(i as int).drop_first() =~= b@.skip(i + 1));
        i = i + 1;
    }
    la > lb
}

/// One user's submission: an id, the points, and the moment it was registered.
#[derive(Debug)]
pub struct Score {
    pub user_id: String,
    pub score: u64,
    timestamp: u64,
}

impl View for Score {
    type V = ScoreView;

    closed spec fn view(&self) -> ScoreView {
        ScoreView { user: self.user_id@, points: self.score, timestamp: self.timestamp }
    }
}

impl Score {
    /// A score registered now: its timestamp is read from the clock.
    pub fn new(user_id: String, score: u64) -> (r: Score)
        ensures
            r@.user == user_id@,
            r@.points == score,
    {
        let timestamp = clock_ns();
        Score { user_id, score, timestamp }
    }

    /// A score with an explicit registration timestamp.
    pub fn with_timestamp(user_id: String, score: u64, timestamp: u64) -> (r: Score)
        ensures
            r@ == (ScoreView { user: user_id@, points: score, timestamp }),
    {
        Score { user_id, score, timestamp }
    }

    /// The id of the user who submitted this score.
    pub fn user(&self) -> (r: &String)
        ensures
            r@ == self@.user,
    {
        &self.user_id
    }

    /// The points of this score.
    pub fn points(&self) -> (r: u64)
        ensures
            r == self@.points,
    {
        self.score
    }

    /// Whether this score was submitted by `user_id`.
    pub fn belongs_to(&self, user_id: &String) -> (r: bool)
        ensures
            r == (self@.user == user_id@),
    {
        self.user_id == *user_id
    }

    /// Whether this score ranks strictly better than `other`.
    pub fn outranks(&self, other: &Score) -> (r: bool)
        ensures
            r == ranks_above(self@, other@),
    {
        if self.score != other.score {
            self.score > other.score
        } else if self.timestamp != other.timestamp {
            self.timestamp < other.timestamp
        } else {
            str_greater(self.user_id.as_str(), other.user_id.as_str())
        }
    }
}

impl Clone for Score {
    fn clone(&self) -> (r: Score)
        ensures
            r@ == self@,
    {
        Score { user_id: self.user_id.clone(), score: self.score, timestamp: self.timestamp }
    }
}

impl PartialEq for Score {
    fn eq(&self, other: &Score) -> (r: bool) {
        self.user_id == other.user_id && self.score == other.score && self.timestamp
            == other.timestamp
    }
}

impl vstd::std_specs::cmp::PartialEqSpecImpl for Score {
    open spec fn obeys_eq_spec() -> bool {
        true
    }

    open spec fn eq_spec(&self, other: &Score) -> bool {
        self@ == other@
    }
}

impl Eq for Score {

}

/// Scores compare by rank: the better-ranked one is the greater.
impl PartialOrd for Score {
    fn partial_cmp(&self, other: &Score) -> (r: Option<core::cmp::Ordering>) {
        if self.outranks(other) {
            Some(core::cmp::Ordering::Greater)
        } else if other.outranks(self) {
            Some(core::cmp::Ordering::Less)
        } else {
            Some(core::cmp::Ordering::Equal)
        }
    }
}

impl vstd::std_specs::cmp::PartialOrdSpecImpl for Score {
    open spec fn obeys_partial_cmp_spec() -> bool {
        true
    }

    open spec fn partial_cmp_spec(&self, other: &Score) -> Option<core::cmp::Ordering> {
        if ranks_above(self@, other@) {
            Some(core::cmp::Ordering::Greater)
        } else if ranks_above(other@, self@) {
            Some(core::cmp::Ordering::Less)
        } else {
            Some(core::cmp::Ordering::Equal)
        }
    }
}

} // verus!
