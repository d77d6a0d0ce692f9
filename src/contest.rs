//! Rounds, the manifest, and the scoring of a whole contest: each round is
//! folded into per-author round totals, which are merged into the standings.
use vstd::prelude::*;

use crate::index::{Category, CategoryIndex};
use crate::leaderboard::{board_view, is_ranked, Standing};
use crate::scoring::{entry_score, lemma_matched_count_bound, valid_entry, Entry, EntryView};
use crate::text::chars_of;
use crate::totals::{amount, AuthorTotals};
use crate::ScoringError;

verus! {

/// One round: the entries scored together.
#[derive(Debug)]
pub struct Round {
    pub entries: Vec<Entry>,
}

impl View for Round {
    type V = Seq<EntryView>;

    open spec fn view(&self) -> Seq<EntryView> {
        self.entries@.map_values(|e: Entry| e@)
    }
}

/// A whole contest: its categories and its rounds.
#[derive(Debug)]
pub struct Manifest {
    pub categories: Vec<Category>,
    pub rounds: Vec<Round>,
}

/// The entries of each round.
pub open spec fn rounds_view(rs: Seq<Round>) -> Seq<Seq<EntryView>> {
    rs.map_values(|r: Round| r@)
}

/// What `a` scored over the entries `es`.
pub open spec fn round_total(cats: Seq<Seq<Seq<char>>>, es: Seq<EntryView>, a: Seq<char>) -> int
    decreases es.len(),
{
    if es.len() == 0 {
        0
    } else {
        round_total(cats, es.drop_last(), a) + if es.last().author == a {
            entry_score(cats, es.last()) as int
        } else {
            0
        }
    }
}

/// The scores of all entries of `es`, added up.
pub open spec fn round_sum(cats: Seq<Seq<Seq<char>>>, es: Seq<EntryView>) -> int
    decreases es.len(),
{
    if es.len() == 0 {
        0
    } else {
        round_sum(cats, es.drop_last()) + entry_score(cats, es.last()) as int
    }
}

/// `a` wrote one of the entries `es`.
pub open spec fn round_has_author(es: Seq<EntryView>, a: Seq<char>) -> bool {
    exists|i: int| 0 <= i < es.len() && (#[trigger] es[i]).author == a
}

/// What `a` scored over all the rounds `rs`.
pub open spec fn contest_total(cats: Seq<Seq<Seq<char>>>, rs: Seq<Seq<EntryView>>, a: Seq<char>) -> int
    decreases rs.len(),
{
    if rs.len() == 0 {
        0
    } else {
        contest_total(cats, rs.drop_last(), a) + round_total(cats, rs.last(), a)
    }
}

/// The scores of all entries of all rounds, added up.
pub open spec fn contest_sum(cats: Seq<Seq<Seq<char>>>, rs: Seq<Seq<EntryView>>) -> int
    decreases rs.len(),
{
    if rs.len() == 0 {
        0
    } else {
        contest_sum(cats, rs.drop_last()) + round_sum(cats, rs.last())
    }
}

/// `a` wrote an entry in one of the rounds `rs`.
pub open spec fn contest_has_author(rs: Seq<Seq<EntryView>>, a: Seq<char>) -> bool {
    exists|r: int| 0 <= r < rs.len() && round_has_author(#[trigger] rs[r], a)
}

/// Every entry of every round names an author.
pub open spec fn all_valid(rs: Seq<Seq<EntryView>>) -> bool {
    forall|r: int, i: int| 0 <= r < rs.len() && 0 <= i < rs[r].len() ==> valid_entry(#[trigger] rs[r][i])
}

/// Entry `i` of round `j` is the first entry without an author: every
/// entry of an earlier round, and every earlier entry of round `j`, has one.
pub open spec fn first_invalid(rs: Seq<Seq<EntryView>>, j: int, i: int) -> bool {
    &&& 0 <= j < rs.len()
    &&& 0 <= i < rs[j].len()
    &&& !valid_entry(rs[j][i])
    &&& forall|k: int| 0 <= k < i ==> valid_entry(#[trigger] rs[j][k])
    &&& all_valid(rs.take(j))
}

/// `b` is the leaderboard of rounds `rs` scored against categories `cats`:
/// one row per author with an entry, holding that author's total, ranked.
pub open spec fn is_leaderboard(cats: Seq<Seq<Seq<char>>>, rs: Seq<Seq<EntryView>>, b: Seq<(Seq<char>, int)>) -> bool {
    &&& is_ranked(b)
    &&& forall|x: (Seq<char>, int)|
        #[trigger] b.contains(x) <==> (contest_has_author(rs, x.0) && x.1 == contest_total(cats, rs, x.0))
}

pub proof fn lemma_round_total_bound(cats: Seq<Seq<Seq<char>>>, es: Seq<EntryView>, a: Seq<char>)
    ensures
        0 <= round_total(cats, es, a) <= round_sum(cats, es),
    decreases es.len(),
{
    if es.len() > 0 {
        lemma_round_total_bound(cats, es.drop_last(), a);
    }
}

pub proof fn lemma_round_sum_prefix(cats: Seq<Seq<Seq<char>>>, es: Seq<EntryView>, k: int)
    requires
        0 <= k <= es.len(),
    ensures
        0 <= round_sum(cats, es.take(k)) <= round_sum(cats, es),
    decreases es.len(),
{
    if es.len() > 0 {
        if k == es.len() {
            assert(es.take(k) =~= es);
            lemma_round_sum_prefix(cats, es.drop_last(), k - 1);
            assert(es.drop_last().take(k - 1) =~= es.drop_last());
        } else {
            lemma_round_sum_prefix(cats, es.drop_last(), k);
            assert(es.drop_last().take(k) =~= es.take(k));
        }
    } else {
        assert(es.take(k) =~= es);
    }
}

pub proof fn lemma_contest_total_bound(cats: Seq<Seq<Seq<char>>>, rs: Seq<Seq<EntryView>>, a: Seq<char>)
    ensures
        0 <= contest_total(cats, rs, a) <= contest_sum(cats, rs),
    decreases rs.len(),
{
    if rs.len() > 0 {
        lemma_contest_total_bound(cats, rs.drop_last(), a);
        lemma_round_total_bound(cats, rs.last(), a);
    }
}

pub proof fn lemma_contest_sum_prefix(cats: Seq<Seq<Seq<char>>>, rs: Seq<Seq<EntryView>>, k: int)
    requires
        0 <= k <= rs.len(),
    ensures
        0 <= contest_sum(cats, rs.take(k)) <= contest_sum(cats, rs),
    decreases rs.len(),
{
    if rs.len() > 0 {
        lemma_round_total_bound(cats, rs.last(), Seq::empty());
        if k == rs.len() {
            assert(rs.take(k) =~= rs);
            lemma_contest_sum_prefix(cats, rs.drop_last(), k - 1);
            assert(rs.drop_last().take(k - 1) =~= rs.drop_last());
        } else {
            lemma_contest_sum_prefix(cats, rs.drop_last(), k);
            assert(rs.drop_last().take(k) =~= rs.take(k));
        }
    } else {
        assert(rs.take(k) =~= rs);
    }
}

/// How many entries the rounds `rs` hold.
pub open spec fn entry_count(rs: Seq<Seq<EntryView>>) -> int
    decreases rs.len(),
{
    if rs.len() == 0 {
        0
    } else {
        entry_count(rs.drop_last()) + rs.last().len()
    }
}

proof fn lemma_round_sum_bound(cats: Seq<Seq<Seq<char>>>, es: Seq<EntryView>)
    ensures
        round_sum(cats, es) <= es.len() * cats.len(),
    decreases es.len(),
{
    if es.len() > 0 {
        lemma_round_sum_bound(cats, es.drop_last());
        lemma_matched_count_bound(cats, es.last().contents, cats.len() as int);
        let n = es.len() - 1;
        assert(n * cats.len() + cats.len() == es.len() * cats.len()) by (nonlinear_arith)
            requires
                n == es.len() - 1,
        ;
    }
}

/// The scores of a contest add up to at most one point per entry and
/// category, so the totals fit in `u64` whenever that product does.
pub proof fn lemma_contest_sum_bound(cats: Seq<Seq<Seq<char>>>, rs: Seq<Seq<EntryView>>)
    ensures
        0 <= contest_sum(cats, rs) <= entry_count(rs) * cats.len(),
    decreases rs.len(),
{
    if rs.len() > 0 {
        lemma_contest_sum_bound(cats, rs.drop_last());
        lemma_round_sum_bound(cats, rs.last());
        lemma_round_total_bound(cats, rs.last(), Seq::empty());
        let a = entry_count(rs.drop_last());
        let b = rs.last().len();
        assert(a * cats.len() + b * cats.len() == (a + b) * cats.len()) by (nonlinear_arith);
    }
}

/// Folds the entries of `round` into per-author totals for that round. An
/// entry without an author fails the whole round; the error names the
/// first such entry and carries `round_no`.
pub fn aggregate_round(round: &Round, round_no: usize, index: &CategoryIndex) -> (r: Result<
    AuthorTotals,
    ScoringError,
>)
    requires
        index.wf(),
        round_sum(index@, round@) <= u64::MAX,
    ensures
        r is Ok <==> forall|i: int| 0 <= i < round@.len() ==> valid_entry(#[trigger] round@[i]),
        r matches Ok(t) ==> {
            &&& t.wf()
            &&& forall|a: Seq<char>| #[trigger] t@.contains_key(a) <==> round_has_author(round@, a)
            &&& forall|a: Seq<char>| #[trigger] amount(t@, a) == round_total(index@, round@, a)
        },
        r matches Err(e) ==> exists|i: int|
            {
                &&& 0 <= i < round@.len()
                &&& e == (ScoringError::InvalidEntry { round: round_no, entry: i as usize })
                &&& !valid_entry(round@[i])
                &&& forall|k: int| 0 <= k < i ==> valid_entry(#[trigger] round@[k])
            },
{
    let ghost cats = index@;
    let ghost es = round@;
    let mut totals = AuthorTotals::new();
    let n = round.entries.len();
    let mut i: usize = 0;
    while i < n
        invariant
            index.wf(),
            cats == index@,
            es == round@,
            n == es.len(),
            round_sum(cats, es) <= u64::MAX,
            i <= n,
            totals.wf(),
            forall|k: int| 0 <= k < i ==> valid_entry(#[trigger] es[k]),
            forall|a: Seq<char>| #[trigger] totals@.contains_key(a) <==> round_has_author(es.take(i as int), a),
            forall|a: Seq<char>| #[trigger] amount(totals@, a) == round_total(cats, es.take(i as int), a),
        decreases n - i,
    {
        let entry = &round.entries[i];
        assert(es[i as int] == entry@);
        let key = chars_of(entry.author.as_str());
        if key.len() == 0 {
            return Err(ScoringError::InvalidEntry { round: round_no, entry: i });
        }
        let ghost a = key@;
        let scored = crate::scoring::score_entry(entry, index);
        let ghost before = es.take(i as int);
        let ghost after = es.take(i + 1);
        proof {
            assert(after.drop_last() =~= before);
            assert(after.last() == es[i as int]);
            lemma_round_total_bound(cats, after, a);
            lemma_round_sum_prefix(cats, es, i + 1);
        }
        let ghost t0 = totals@;
        totals.add(key, &entry.author, scored.score);
        proof {
            assert forall|b: Seq<char>| #[trigger] totals@.contains_key(b) <==> round_has_author(after, b) by {
                if round_has_author(before, b) {
                    let k = choose|k: int| 0 <= k < before.len() && (#[trigger] before[k]).author == b;
                    assert(after[k].author == b);
                }
                if round_has_author(after, b) && b != a {
                    let k = choose|k: int| 0 <= k < after.len() && (#[trigger] after[k]).author == b;
                    assert(before[k].author == b);
                }
                if b == a {
                    assert(after[i as int].author == b);
                }
            }
            assert forall|b: Seq<char>| #[trigger] amount(totals@, b) == round_total(cats, after, b) by {
                if b != a {
                    assert(amount(totals@, b) == amount(t0, b));
                }
            }
        }
        i = i + 1;
    }
    assert(es.take(n as int) =~= es);
    Ok(totals)
}

/// Scores every round of `manifest` against `index` and ranks the authors
/// by their totals. Any entry without an author fails the whole run; the
/// error names the first such entry of the first round holding one.
pub fn score_contest(manifest: &Manifest, index: &CategoryIndex) -> (r: Result<Vec<Standing>, ScoringError>)
    requires
        index.wf(),
        contest_sum(index@, rounds_view(manifest.rounds@)) <= u64::MAX,
    ensures
        r is Ok <==> all_valid(rounds_view(manifest.rounds@)),
        r matches Ok(b) ==> is_leaderboard(index@, rounds_view(manifest.rounds@), board_view(b@)),
        r matches Err(e) ==> exists|j: int, i: int|
            #[trigger] first_invalid(rounds_view(manifest.rounds@), j, i) && e == (ScoringError::InvalidEntry {
                round: j as usize,
                entry: i as usize,
            }),
{
    let ghost cats = index@;
    let ghost rs = rounds_view(manifest.rounds@);
    let mut totals = AuthorTotals::new();
    let n = manifest.rounds.len();
    let mut j: usize = 0;
    while j < n
        invariant
            index.wf(),
            cats == index@,
            rs == rounds_view(manifest.rounds@),
            n == rs.len(),
            contest_sum(cats, rs) <= u64::MAX,
            j <= n,
            totals.wf(),
            all_valid(rs.take(j as int)),
            forall|a: Seq<char>| #[trigger] totals@.contains_key(a) <==> contest_has_author(rs.take(j as int), a),
            forall|a: Seq<char>| #[trigger] amount(totals@, a) == contest_total(cats, rs.take(j as int), a),
        decreases n - j,
    {
        let round = &manifest.rounds[j];
        assert(rs[j as int] == round@);
        let ghost before = rs.take(j as int);
        let ghost after = rs.take(j + 1);
        proof {
            assert(after.drop_last() =~= before);
            assert(after.last() == rs[j as int]);
            lemma_contest_sum_prefix(cats, rs, j + 1);
            lemma_round_total_bound(cats, rs[j as int], Seq::empty());
            lemma_contest_total_bound(cats, before, Seq::empty());
        }
        let round_totals = match aggregate_round(round, j, index) {
            Ok(t) => t,
            Err(e) => {
                proof {
                    let i = choose|i: int|
                        {
                            &&& 0 <= i < round@.len()
                            &&& e == (ScoringError::InvalidEntry { round: j, entry: i as usize })
                            &&& !valid_entry(round@[i])
                            &&& forall|k: int| 0 <= k < i ==> valid_entry(#[trigger] round@[k])
                        };
                    assert(first_invalid(rs, j as int, i));
                }
                return Err(e);
            },
        };
        proof {
            assert forall|a: Seq<char>| amount(totals@, a) + amount(round_totals@, a) <= u64::MAX by {
                lemma_contest_total_bound(cats, after, a);
            }
        }
        totals.merge(&round_totals);
        proof {
            assert forall|b: Seq<char>| #[trigger] totals@.contains_key(b) <==> contest_has_author(after, b) by {
                if contest_has_author(before, b) {
                    let k = choose|k: int| 0 <= k < before.len() && round_has_author(#[trigger] before[k], b);
                    assert(after[k] == before[k]);
                }
                if contest_has_author(after, b) {
                    let k = choose|k: int| 0 <= k < after.len() && round_has_author(#[trigger] after[k], b);
                    if k < j {
                        assert(after[k] == before[k]);
                    }
                }
                if round_has_author(rs[j as int], b) {
                    assert(round_has_author(after[j as int], b));
                }
            }
            assert forall|r: int, i: int| 0 <= r < after.len() && 0 <= i < after[r].len() implies valid_entry(#[trigger] after[r][i]) by {
                if r < j {
                    assert(after[r] == before[r]);
                }
            }
        }
        j = j + 1;
    }
    assert(rs.take(n as int) =~= rs);
    let board = totals.ranked();
    proof {
        let b = board_view(board@);
        assert forall|x: (Seq<char>, int)|
            #[trigger] b.contains(x) <==> (contest_has_author(rs, x.0) && x.1 == contest_total(cats, rs, x.0)) by {
            if totals@.contains_key(x.0) {
                assert(amount(totals@, x.0) == totals@[x.0]);
            }
        }
    }
    Ok(board)
}

} // verus!
