//! The mathematical model of one level's high score table: a sequence of
//! scores, best first, and what a submission does to it.
use vstd::prelude::*;
use crate::score::{
    ScoreView,
    ranks_above,
    lemma_rank_asymmetric,
    lemma_rank_transitive,
    lemma_rank_total,
};

verus! {

/// How many entries one level's table holds at most.
pub const HIGHSCORE_LIST_SIZE: usize = 15;

/// Every entry ranks strictly above every later one.
pub open spec fn ranked(s: Seq<ScoreView>) -> bool {
    forall|i: int, j: int| 0 <= i < j < s.len() ==> ranks_above(#[trigger] s[i], #[trigger] s[j])
}

/// No two entries belong to the same user.
pub open spec fn one_per_user(s: Seq<ScoreView>) -> bool {
    forall|i: int, j: int|
        0 <= i < s.len() && 0 <= j < s.len() && i != j ==> (#[trigger] s[i]).user != (
        #[trigger] s[j]).user
}

/// A table as the library keeps it: ranked, one entry per user, within capacity.
pub open spec fn table_wf(s: Seq<ScoreView>) -> bool {
    &&& ranked(s)
    &&& one_per_user(s)
    &&& s.len() <= HIGHSCORE_LIST_SIZE
}

/// The table holds an entry of user `u`.
pub open spec fn holds_user(s: Seq<ScoreView>, u: Seq<char>) -> bool {
    exists|i: int| 0 <= i < s.len() && s[i].user == u
}

/// Where the entry of user `u` stands (meaningful when `holds_user(s, u)`).
pub open spec fn user_index(s: Seq<ScoreView>, u: Seq<char>) -> int {
    choose|i: int| 0 <= i < s.len() && s[i].user == u
}

/// Entries that rank above `c`.
pub open spec fn above(c: ScoreView) -> spec_fn(ScoreView) -> bool {
    |e: ScoreView| ranks_above(e, c)
}

/// Entries that `c` ranks above.
pub open spec fn below(c: ScoreView) -> spec_fn(ScoreView) -> bool {
    |e: ScoreView| ranks_above(c, e)
}

/// `c` put into the table at its rank.
pub open spec fn place(s: Seq<ScoreView>, c: ScoreView) -> Seq<ScoreView> {
    s.filter(above(c)) + seq![c] + s.filter(below(c))
}

/// Whether a submission of `c` is taken: it must beat the user's current entry;
/// a new user is taken while there is room, and otherwise only by beating the
/// last entry.
pub open spec fn admits(s: Seq<ScoreView>, c: ScoreView) -> bool {
    if holds_user(s, c.user) {
        ranks_above(c, s[user_index(s, c.user)])
    } else if s.len() < HIGHSCORE_LIST_SIZE {
        true
    } else {
        ranks_above(c, s.last())
    }
}

/// The table after a submission of `c`: unchanged when it is not admitted;
/// otherwise `c` replaces the user's entry, or is added, or takes the place of
/// the last entry when the table is full.
pub open spec fn after_submit(s: Seq<ScoreView>, c: ScoreView) -> Seq<ScoreView> {
    if !admits(s, c) {
        s
    } else if holds_user(s, c.user) {
        place(s.remove(user_index(s, c.user)), c)
    } else if s.len() < HIGHSCORE_LIST_SIZE {
        place(s, c)
    } else {
        place(s.drop_last(), c)
    }
}

proof fn lemma_filter_keeps_all(s: Seq<ScoreView>, f: spec_fn(ScoreView) -> bool)
    requires
        forall|i: int| 0 <= i < s.len() ==> f(s[i]),
    ensures
        s.filter(f) == s,
    decreases s.len(),
{
    reveal(Seq::filter);
    if s.len() > 0 {
        lemma_filter_keeps_all(s.drop_last(), f);
        assert(s.drop_last().push(s.last()) =~= s);
    }
}

proof fn lemma_filter_drops_all(s: Seq<ScoreView>, f: spec_fn(ScoreView) -> bool)
    requires
        forall|i: int| 0 <= i < s.len() ==> !f(s[i]),
    ensures
        s.filter(f) == Seq::<ScoreView>::empty(),
    decreases s.len(),
{
    reveal(Seq::filter);
    if s.len() > 0 {
        lemma_filter_drops_all(s.drop_last(), f);
    } else {
        assert(s =~= Seq::<ScoreView>::empty());
    }
}

/// Where `p` splits a ranked table into the entries above `c` and those below
/// it, placing `c` is inserting it at `p`, and the table stays ranked.
pub proof fn lemma_place_at(s: Seq<ScoreView>, c: ScoreView, p: int)
    requires
        ranked(s),
        one_per_user(s),
        0 <= p <= s.len(),
        forall|i: int| 0 <= i < s.len() ==> (#[trigger] s[i]).user != c.user,
        forall|i: int| 0 <= i < p ==> ranks_above(#[trigger] s[i], c),
        forall|i: int| p <= i < s.len() ==> ranks_above(c, #[trigger] s[i]),
    ensures
        place(s, c) == s.insert(p, c),
        ranked(s.insert(p, c)),
        one_per_user(s.insert(p, c)),
{
    let a = s.take(p);
    let b = s.skip(p);
    assert(s =~= a + b);
    Seq::filter_distributes_over_add(a, b, above(c));
    Seq::filter_distributes_over_add(a, b, below(c));
    assert forall|i: int| 0 <= i < b.len() implies !above(c)(b[i]) by {
        lemma_rank_asymmetric(b[i], c);
    }
    assert forall|i: int| 0 <= i < a.len() implies !below(c)(a[i]) by {
        lemma_rank_asymmetric(a[i], c);
    }
    lemma_filter_keeps_all(a, above(c));
    lemma_filter_drops_all(b, above(c));
    lemma_filter_drops_all(a, below(c));
    lemma_filter_keeps_all(b, below(c));
    assert(place(s, c) =~= s.insert(p, c));
    let n = s.insert(p, c);
    assert forall|i: int, j: int| 0 <= i < j < n.len() implies ranks_above(
        #[trigger] n[i],
        #[trigger] n[j],
    ) by {
        if i < p && j > p {
            assert(ranks_above(s[i], s[j - 1]));
        } else if i > p {
            assert(ranks_above(s[i - 1], s[j - 1]));
        }
    }
    assert forall|i: int, j: int|
        0 <= i < n.len() && 0 <= j < n.len() && i != j implies (#[trigger] n[i]).user != (
        #[trigger] n[j]).user by {
        let si = if i < p { i } else { i - 1 };
        let sj = if j < p { j } else { j - 1 };
        if i != p && j != p {
            assert(s[si].user != s[sj].user);
        } else if i == p {
            assert(s[sj].user != c.user);
        } else {
            assert(s[si].user != c.user);
        }
    }
}

/// A ranked table of other users has a point that splits it around `c`.
pub proof fn lemma_rank_split(s: Seq<ScoreView>, c: ScoreView) -> (p: int)
    requires
        ranked(s),
        forall|i: int| 0 <= i < s.len() ==> (#[trigger] s[i]).user != c.user,
    ensures
        0 <= p <= s.len(),
        forall|i: int| 0 <= i < p ==> ranks_above(#[trigger] s[i], c),
        forall|i: int| p <= i < s.len() ==> ranks_above(c, #[trigger] s[i]),
    decreases s.len(),
{
    if s.len() == 0 {
        0
    } else {
        let t = s.drop_last();
        assert forall|i: int| 0 <= i < t.len() implies (#[trigger] t[i]).user != c.user by {
            assert(t[i] == s[i]);
        }
        assert forall|i: int, j: int| 0 <= i < j < t.len() implies ranks_above(
            #[trigger] t[i],
            #[trigger] t[j],
        ) by {
            assert(t[i] == s[i] && t[j] == s[j]);
        }
        let q = lemma_rank_split(t, c);
        let last = s.last();
        lemma_rank_total(last, c);
        assert forall|i: int| 0 <= i < t.len() implies s[i] == #[trigger] t[i] by {}
        assert forall|i: int| 0 <= i < q implies ranks_above(#[trigger] s[i], c) by {
            assert(ranks_above(t[i], c));
        }
        if q < t.len() {
            assert(ranks_above(c, t[q]));
            assert(ranks_above(s[q], s[s.len() - 1]));
            lemma_rank_transitive(c, s[q], last);
            assert forall|i: int| q <= i < s.len() implies ranks_above(c, #[trigger] s[i]) by {
                if i < t.len() {
                    assert(ranks_above(c, t[i]));
                }
            }
            q
        } else if ranks_above(last, c) {
            assert forall|i: int| 0 <= i < s.len() implies ranks_above(#[trigger] s[i], c) by {
                if i < t.len() {
                    assert(ranks_above(t[i], c));
                }
            }
            s.len() as int
        } else {
            assert forall|i: int| 0 <= i < s.len() - 1 implies ranks_above(#[trigger] s[i], c) by {
                assert(ranks_above(t[i], c));
            }
            s.len() - 1
        }
    }
}

/// Placing an entry of a new user into a well-formed table keeps it ranked
/// with one entry per user, and makes it one longer.
pub proof fn lemma_place_wf(s: Seq<ScoreView>, c: ScoreView)
    requires
        ranked(s),
        one_per_user(s),
        forall|i: int| 0 <= i < s.len() ==> (#[trigger] s[i]).user != c.user,
    ensures
        ranked(place(s, c)),
        one_per_user(place(s, c)),
        place(s, c).len() == s.len() + 1,
        place(s, c).contains(c),
        forall|i: int| 0 <= i < s.len() ==> place(s, c).contains(#[trigger] s[i]),
        forall|x: ScoreView| #[trigger] place(s, c).contains(x) ==> x == c || s.contains(x),
{
    let p = lemma_rank_split(s, c);
    lemma_place_at(s, c, p);
    let n = s.insert(p, c);
    assert(n[p] == c);
    assert forall|i: int| 0 <= i < s.len() implies n.contains(#[trigger] s[i]) by {
        if i < p {
            assert(n[i] == s[i]);
        } else {
            assert(n[i + 1] == s[i]);
        }
    }
    assert forall|x: ScoreView| #[trigger] n.contains(x) implies x == c || s.contains(x) by {
        let j = choose|j: int| 0 <= j < n.len() && n[j] == x;
        if j < p {
            assert(s[j] == x);
        } else if j > p {
            assert(s[j - 1] == x);
        }
    }
}

/// Taking out one entry keeps a table ranked with one entry per user.
pub proof fn lemma_remove_wf(s: Seq<ScoreView>, k: int)
    requires
        ranked(s),
        one_per_user(s),
        0 <= k < s.len(),
    ensures
        ranked(s.remove(k)),
        one_per_user(s.remove(k)),
        forall|i: int|
            0 <= i < s.remove(k).len() ==> #[trigger] s.remove(k)[i] == s[if i < k {
                i
            } else {
                i + 1
            }],
{
    let r = s.remove(k);
    assert forall|i: int| 0 <= i < r.len() implies #[trigger] r[i] == s[if i < k {
        i
    } else {
        i + 1
    }] by {}
    assert forall|i: int, j: int| 0 <= i < j < r.len() implies ranks_above(
        #[trigger] r[i],
        #[trigger] r[j],
    ) by {
        let si = if i < k { i } else { i + 1 };
        let sj = if j < k { j } else { j + 1 };
        assert(ranks_above(s[si], s[sj]));
    }
    assert forall|i: int, j: int|
        0 <= i < r.len() && 0 <= j < r.len() && i != j implies (#[trigger] r[i]).user != (
        #[trigger] r[j]).user by {
        let si = if i < k { i } else { i + 1 };
        let sj = if j < k { j } else { j + 1 };
        assert(s[si].user != s[sj].user);
    }
}

/// Whatever is submitted, a well-formed table stays well formed: ranked best
/// first, with at most one entry per user and never more than
/// `HIGHSCORE_LIST_SIZE` entries.
pub proof fn lemma_submit_keeps_table_wf(s: Seq<ScoreView>, c: ScoreView)
    requires
        table_wf(s),
    ensures
        table_wf(after_submit(s, c)),
{
    if admits(s, c) {
        if holds_user(s, c.user) {
            let k = user_index(s, c.user);
            lemma_remove_wf(s, k);
            let r = s.remove(k);
            assert forall|i: int| 0 <= i < r.len() implies (#[trigger] r[i]).user != c.user by {
                let si = if i < k { i } else { i + 1 };
                assert(r[i] == s[si]);
                assert(s[si].user != s[k].user);
            }
            lemma_place_wf(r, c);
        } else if s.len() < HIGHSCORE_LIST_SIZE {
            lemma_place_wf(s, c);
        } else {
            lemma_remove_wf(s, s.len() - 1);
            let r = s.drop_last();
            assert(r =~= s.remove(s.len() - 1));
            assert forall|i: int| 0 <= i < r.len() implies (#[trigger] r[i]).user != c.user by {
                assert(r[i] == s[i]);
            }
            lemma_place_wf(r, c);
        }
    }
}

/// A submission that does not rank strictly above the user's current entry is
/// rejected and leaves the table as it was.
pub proof fn lemma_no_improvement_rejected(s: Seq<ScoreView>, c: ScoreView)
    requires
        table_wf(s),
        holds_user(s, c.user),
        !ranks_above(c, s[user_index(s, c.user)]),
    ensures
        !admits(s, c),
        after_submit(s, c) == s,
{
}

/// A new user is always admitted while the table has room: the table grows by
/// one, keeps every entry, and holds the new one.
pub proof fn lemma_admitted_below_capacity(s: Seq<ScoreView>, c: ScoreView)
    requires
        table_wf(s),
        !holds_user(s, c.user),
        s.len() < HIGHSCORE_LIST_SIZE,
    ensures
        admits(s, c),
        after_submit(s, c).len() == s.len() + 1,
        after_submit(s, c).contains(c),
        forall|i: int| 0 <= i < s.len() ==> after_submit(s, c).contains(#[trigger] s[i]),
{
    lemma_place_wf(s, c);
}

/// On a full table, a new user who ranks above the last entry evicts exactly
/// that entry, the worst of the table; the table stays full.
pub proof fn lemma_eviction(s: Seq<ScoreView>, c: ScoreView)
    requires
        table_wf(s),
        !holds_user(s, c.user),
        s.len() == HIGHSCORE_LIST_SIZE,
        ranks_above(c, s.last()),
    ensures
        forall|i: int| 0 <= i < s.len() - 1 ==> ranks_above(#[trigger] s[i], s.last()),
        admits(s, c),
        after_submit(s, c).len() == HIGHSCORE_LIST_SIZE,
        after_submit(s, c).contains(c),
        !after_submit(s, c).contains(s.last()),
        forall|i: int| 0 <= i < s.len() - 1 ==> after_submit(s, c).contains(#[trigger] s[i]),
{
    let r = s.drop_last();
    lemma_remove_wf(s, s.len() - 1);
    assert(r =~= s.remove(s.len() - 1));
    assert forall|i: int| 0 <= i < r.len() implies (#[trigger] r[i]).user != c.user by {
        assert(r[i] == s[i]);
    }
    lemma_place_wf(r, c);
    assert forall|i: int| 0 <= i < s.len() - 1 implies after_submit(s, c).contains(
        #[trigger] s[i],
    ) by {
        assert(r[i] == s[i]);
    }
    assert forall|i: int| 0 <= i < s.len() - 1 implies ranks_above(
        #[trigger] s[i],
        s.last(),
    ) by {
        assert(ranks_above(s[i], s[s.len() - 1]));
    }
    if after_submit(s, c).contains(s.last()) {
        assert(s.last().user != c.user);
        let j = choose|j: int| 0 <= j < r.len() && r[j] == s.last();
        assert(s[j].user != s[s.len() - 1].user);
    }
}

/// On a full table, a new user who does not rank above the last entry is
/// rejected and the table is left as it was.
pub proof fn lemma_full_table_rejects(s: Seq<ScoreView>, c: ScoreView)
    requires
        table_wf(s),
        !holds_user(s, c.user),
        s.len() == HIGHSCORE_LIST_SIZE,
        !ranks_above(c, s.last()),
    ensures
        !admits(s, c),
        after_submit(s, c) == s,
{
}

} // verus!
