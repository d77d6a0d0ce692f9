//! Leaderboard rows and the ranking order: higher score first, then author
//! in ascending lexicographic order.
use vstd::prelude::*;

use crate::text::{lemma_lex_asymmetric, lemma_lex_irreflexive, lemma_lex_transitive, lex_lt};

verus! {

/// One row of the leaderboard.
#[derive(Debug, PartialEq, Eq)]
pub struct Standing {
    pub author: String,
    pub score: u64,
}

impl View for Standing {
    type V = (Seq<char>, int);

    open spec fn view(&self) -> (Seq<char>, int) {
        (self.author@, self.score as int)
    }
}

/// The rows of a leaderboard, as (author, score) pairs.
pub open spec fn board_view(b: Seq<Standing>) -> Seq<(Seq<char>, int)> {
    b.map_values(|s: Standing| s@)
}

/// Row `x` comes before row `y`: a higher score, or an equal score and a
/// smaller author.
pub open spec fn ranks_before(x: (Seq<char>, int), y: (Seq<char>, int)) -> bool {
    x.1 > y.1 || (x.1 == y.1 && lex_lt(x.0, y.0))
}

/// Every row comes before every later row.
pub open spec fn is_ranked(b: Seq<(Seq<char>, int)>) -> bool {
    forall|i: int, j: int| 0 <= i < j < b.len() ==> ranks_before(#[trigger] b[i], #[trigger] b[j])
}

pub proof fn lemma_ranks_transitive(x: (Seq<char>, int), y: (Seq<char>, int), z: (Seq<char>, int))
    requires
        ranks_before(x, y),
        ranks_before(y, z),
    ensures
        ranks_before(x, z),
{
    if x.1 == y.1 && y.1 == z.1 {
        lemma_lex_transitive(x.0, y.0, z.0);
    }
}

pub proof fn lemma_ranks_asymmetric(x: (Seq<char>, int), y: (Seq<char>, int))
    requires
        ranks_before(x, y),
    ensures
        !ranks_before(y, x),
        x != y,
{
    if x.1 == y.1 {
        lemma_lex_asymmetric(x.0, y.0);
        lemma_lex_irreflexive(x.0);
    }
}

/// Two ranked sequences with the same rows are the same sequence.
pub proof fn lemma_ranked_unique(b1: Seq<(Seq<char>, int)>, b2: Seq<(Seq<char>, int)>)
    requires
        is_ranked(b1),
        is_ranked(b2),
        forall|x: (Seq<char>, int)| b1.contains(x) <==> b2.contains(x),
    ensures
        b1 == b2,
    decreases b1.len(),
{
    if b1.len() == 0 {
        if b2.len() > 0 {
            assert(b2.contains(b2[0]));
        }
        assert(b1 =~= b2);
    } else if b2.len() == 0 {
        assert(b1.contains(b1[0]));
    } else {
        let x = b1[0];
        let y = b2[0];
        assert(b1.contains(x));
        assert(b2.contains(y));
        if x != y {
            let i = choose|i: int| 0 <= i < b2.len() && b2[i] == x;
            let k = choose|k: int| 0 <= k < b1.len() && b1[k] == y;
            assert(ranks_before(y, x));
            assert(ranks_before(x, y));
            lemma_ranks_asymmetric(x, y);
        }
        let t1 = b1.drop_first();
        let t2 = b2.drop_first();
        assert forall|z: (Seq<char>, int)| t1.contains(z) <==> t2.contains(z) by {
            if t1.contains(z) {
                let i = choose|i: int| 0 <= i < t1.len() && t1[i] == z;
                assert(b1[i + 1] == z);
                assert(ranks_before(b1[0], b1[i + 1]));
                lemma_ranks_asymmetric(x, z);
                assert(b2.contains(z));
                let k = choose|k: int| 0 <= k < b2.len() && b2[k] == z;
                assert(k != 0);
                assert(t2[k - 1] == z);
            }
            if t2.contains(z) {
                let i = choose|i: int| 0 <= i < t2.len() && t2[i] == z;
                assert(b2[i + 1] == z);
                assert(ranks_before(b2[0], b2[i + 1]));
                lemma_ranks_asymmetric(y, z);
                assert(b1.contains(z));
                let k = choose|k: int| 0 <= k < b1.len() && b1[k] == z;
                assert(k != 0);
                assert(t1[k - 1] == z);
            }
        }
        assert forall|i: int, j: int| 0 <= i < j < t1.len() implies ranks_before(#[trigger] t1[i], #[trigger] t1[j]) by {
            assert(ranks_before(b1[i + 1], b1[j + 1]));
        }
        assert forall|i: int, j: int| 0 <= i < j < t2.len() implies ranks_before(#[trigger] t2[i], #[trigger] t2[j]) by {
            assert(ranks_before(b2[i + 1], b2[j + 1]));
        }
        lemma_ranked_unique(t1, t2);
        assert(b1 =~= seq![x] + t1);
        assert(b2 =~= seq![y] + t2);
    }
}

} // verus!
