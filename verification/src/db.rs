//! Contest bookkeeping: the user's score board and the best-score table.
//!
//! The score board lists one optional score per problem, numbered from one.
//! The best-score table is an upsert map from problem number to score; its
//! persistent storage is outside this crate, which holds the table's exact
//! semantics.
use vstd::prelude::*;

verus! {

/// The value of an optional score, an absent one counting zero.
pub open spec fn score_val(o: Option<i64>) -> int {
    match o {
        Some(s) => s as int,
        None => 0,
    }
}

/// The sum of the scores that are present.
pub open spec fn sum_scores(s: Seq<Option<i64>>) -> int
    decreases s.len(),
{
    if s.len() == 0 {
        0
    } else {
        sum_scores(s.drop_last()) + score_val(s.last())
    }
}

/// The sum of the absolute values of the scores present: a bound on every
/// partial sum.
pub open spec fn sum_abs(s: Seq<Option<i64>>) -> int
    decreases s.len(),
{
    if s.len() == 0 {
        0
    } else {
        sum_abs(s.drop_last()) + (if score_val(s.last()) < 0 {
            -score_val(s.last())
        } else {
            score_val(s.last())
        })
    }
}

proof fn lemma_sum_abs_nonneg(s: Seq<Option<i64>>)
    ensures
        sum_abs(s) >= 0,
    decreases s.len(),
{
    if s.len() > 0 {
        lemma_sum_abs_nonneg(s.drop_last());
    }
}

proof fn lemma_sum_abs_mono(s: Seq<Option<i64>>, i: int)
    requires
        0 <= i <= s.len(),
    ensures
        sum_abs(s.take(i)) <= sum_abs(s),
        sum_abs(s.take(i)) >= 0,
    decreases s.len() - i,
{
    lemma_sum_abs_nonneg(s.take(i));
    if i == s.len() {
        assert(s.take(i) =~= s);
    } else {
        lemma_sum_abs_mono(s, i + 1);
        assert(s.take(i + 1).drop_last() =~= s.take(i));
        assert(s.take(i + 1).last() == s[i]);
    }
}

/// One optional score per problem.
pub struct Problems {
    pub problems: Vec<Option<i64>>,
}

/// The score board read from the contest: the scores of the problems solved
/// so far.
pub struct Userboard {
    pub success: Problems,
}

impl Userboard {
    /// The board's score for problem `id`; problems are numbered from one.
    pub fn best_score(&self, id: u32) -> (r: Option<i64>)
        requires
            id >= 1,
            id - 1 < self.success.problems@.len(),
        ensures
            r == self.success.problems@[id - 1],
    {
        self.success.problems[(id - 1) as usize]
    }

    /// The sum of all scores present on the board. The bound keeps every
    /// partial sum within the machine integer.
    pub fn total_score(&self) -> (r: i64)
        requires
            sum_abs(self.success.problems@) <= i64::MAX,
        ensures
            r == sum_scores(self.success.problems@),
    {
        let s = &self.success.problems;
        let n = s.len();
        let mut acc: i64 = 0;
        let mut i: usize = 0;
        proof {
            assert(s@.take(0) =~= Seq::<Option<i64>>::empty());
        }
    while i < n
        invariant
            n == s@.len(),
            0 <= i <= n,
            sum_abs(s@) <= i64::MAX,
            acc == sum_scores(s@.take(i as int)),
            -sum_abs(s@.take(i as int)) <= acc <= sum_abs(s@.take(i as int)),
        decreases n - i,
    {
            proof {
                lemma_sum_abs_mono(s@, i as int);
                lemma_sum_abs_mono(s@, i + 1);
                assert(s@.take(i + 1).drop_last() =~= s@.take(i as int));
                assert(s@.take(i + 1).last() == s@[i as int]);
            }
            match s[i] {
                Some(v) => {
                    acc = acc + v;
                },
                None => {},
            }
            i += 1;
        }
        proof {
            assert(s@.take(n as int) =~= s@);
        }
        acc
    }
}

/// The map that a sequence of upserts leaves behind: a later entry for the
/// same problem replaces an earlier one.
pub open spec fn map_of(s: Seq<(u32, i64)>) -> Map<u32, i64>
    decreases s.len(),
{
    if s.len() == 0 {
        Map::empty()
    } else {
        map_of(s.drop_last()).insert(s.last().0, s.last().1)
    }
}

/// When no entry from position `j` on has the key, the tail does not change
/// what the map says of it.
proof fn lemma_map_of_absent(s: Seq<(u32, i64)>, j: int, id: u32)
    requires
        0 <= j <= s.len(),
        forall|k: int| j <= k < s.len() ==> (#[trigger] s[k]).0 != id,
    ensures
        map_of(s).contains_key(id) == map_of(s.take(j)).contains_key(id),
        map_of(s).contains_key(id) ==> map_of(s)[id] == map_of(s.take(j))[id],
    decreases s.len() - j,
{
    if j == s.len() {
        assert(s.take(j) =~= s);
    } else {
        lemma_map_of_absent(s, j + 1, id);
        assert(s.take(j + 1).drop_last() =~= s.take(j));
        assert(s.take(j + 1).last() == s[j]);
    }
}

/// The best-score table: problem number to best score, in upsert order.
pub struct BestScores {
    entries: Vec<(u32, i64)>,
}

impl BestScores {
    /// What the table holds, as a map.
    pub closed spec fn view(&self) -> Map<u32, i64> {
        map_of(self.entries@)
    }

    /// An empty table.
    pub fn new() -> (r: BestScores)
        ensures
            r@ == Map::<u32, i64>::empty(),
    {
        BestScores { entries: Vec::new() }
    }

    /// The best score recorded for problem `id`, if any.
    pub fn score(&self, id: u32) -> (r: Option<i64>)
        ensures
            r == if self@.contains_key(id) {
                Some(self@[id])
            } else {
                None::<i64>
            },
    {
        let n = self.entries.len();
        let mut j: usize = n;
        while j > 0
            invariant
                n == self.entries@.len(),
                0 <= j <= n,
                forall|k: int| j <= k < n ==> (#[trigger] self.entries@[k]).0 != id,
            decreases j,
        {
            j -= 1;
            let (eid, sc) = self.entries[j];
            if eid == id {
                proof {
                    lemma_map_of_absent(self.entries@, j + 1, id);
                    assert(self.entries@.take(j + 1).drop_last() =~= self.entries@.take(j as int));
                    assert(self.entries@.take(j + 1).last() == self.entries@[j as int]);
                }
                return Some(sc);
            }
        }
        proof {
            lemma_map_of_absent(self.entries@, 0, id);
            assert(self.entries@.take(0) =~= Seq::<(u32, i64)>::empty());
        }
        None
    }

    /// Records `new_score` for problem `id`, inserting or replacing, and
    /// reports the one row changed.
    pub fn update_score(&mut self, id: u32, new_score: i64) -> (r: usize)
        ensures
            final(self)@ == old(self)@.insert(id, new_score),
            r == 1usize,
    {
        self.entries.push((id, new_score));
        proof {
            assert(self.entries@.drop_last() =~= old(self).entries@);
        }
        1
    }
}

} // verus!
