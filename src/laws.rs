//! Properties of contest scoring that relate several calls or hold for all inputs.
use vstd::prelude::*;

use crate::contest::{
    all_valid, contest_has_author, contest_sum, contest_total, is_leaderboard, round_has_author,
    round_total, lemma_round_total_bound,
};
use crate::index::{category_matches, matched_count};
use crate::leaderboard::lemma_ranked_unique;
use crate::scoring::{entry_score, EntryView};
use crate::text::{has_token, lex_lt};

verus! {

broadcast use vstd::seq_lib::group_to_multiset_ensures;

/// What entry `e` adds to the total of author `a`.
spec fn contribution(cats: Seq<Seq<Seq<char>>>, e: EntryView, a: Seq<char>) -> int {
    if e.author == a {
        entry_score(cats, e) as int
    } else {
        0
    }
}

proof fn lemma_round_total_remove(cats: Seq<Seq<Seq<char>>>, es: Seq<EntryView>, k: int, a: Seq<char>)
    requires
        0 <= k < es.len(),
    ensures
        round_total(cats, es, a) == round_total(cats, es.remove(k), a) + contribution(cats, es[k], a),
    decreases es.len(),
{
    if k == es.len() - 1 {
        assert(es.remove(k) =~= es.drop_last());
    } else {
        lemma_round_total_remove(cats, es.drop_last(), k, a);
        assert(es.remove(k).drop_last() =~= es.drop_last().remove(k));
        assert(es.remove(k).last() == es.last());
    }
}

proof fn lemma_contest_total_remove(cats: Seq<Seq<Seq<char>>>, rs: Seq<Seq<EntryView>>, k: int, a: Seq<char>)
    requires
        0 <= k < rs.len(),
    ensures
        contest_total(cats, rs, a) == contest_total(cats, rs.remove(k), a) + round_total(cats, rs[k], a),
    decreases rs.len(),
{
    if k == rs.len() - 1 {
        assert(rs.remove(k) =~= rs.drop_last());
    } else {
        lemma_contest_total_remove(cats, rs.drop_last(), k, a);
        assert(rs.remove(k).drop_last() =~= rs.drop_last().remove(k));
        assert(rs.remove(k).last() == rs.last());
    }
}

/// Reordering the entries of a round leaves every author's round total as it was.
pub proof fn lemma_round_order_independent(
    cats: Seq<Seq<Seq<char>>>,
    es1: Seq<EntryView>,
    es2: Seq<EntryView>,
    a: Seq<char>,
)
    requires
        es1.to_multiset() == es2.to_multiset(),
    ensures
        round_total(cats, es1, a) == round_total(cats, es2, a),
        round_has_author(es1, a) == round_has_author(es2, a),
    decreases es1.len(),
{
    if es1.len() == 0 {
        assert(es2.to_multiset().len() == 0);
        assert(es2.len() == 0);
    } else {
        let last = es1.len() - 1;
        let x = es1[last];
        assert(es1.to_multiset().count(x) > 0);
        assert(es2.contains(x));
        let k = choose|k: int| 0 <= k < es2.len() && es2[k] == x;
        lemma_round_total_remove(cats, es1, last, a);
        lemma_round_total_remove(cats, es2, k, a);
        lemma_round_order_independent(cats, es1.remove(last), es2.remove(k), a);
    }
    assert(round_has_author(es1, a) == round_has_author(es2, a)) by {
        if round_has_author(es1, a) {
            let i = choose|i: int| 0 <= i < es1.len() && (#[trigger] es1[i]).author == a;
            assert(es1.contains(es1[i]));
            assert(es2.to_multiset().count(es1[i]) > 0);
            let k = choose|k: int| 0 <= k < es2.len() && es2[k] == es1[i];
        }
        if round_has_author(es2, a) {
            let i = choose|i: int| 0 <= i < es2.len() && (#[trigger] es2[i]).author == a;
            assert(es2.contains(es2[i]));
            assert(es1.to_multiset().count(es2[i]) > 0);
            let k = choose|k: int| 0 <= k < es1.len() && es1[k] == es2[i];
        }
    }
}

/// Folding the rounds in another order leaves every author's total as it was.
pub proof fn lemma_rounds_order_independent(
    cats: Seq<Seq<Seq<char>>>,
    rs1: Seq<Seq<EntryView>>,
    rs2: Seq<Seq<EntryView>>,
    a: Seq<char>,
)
    requires
        rs1.to_multiset() == rs2.to_multiset(),
    ensures
        contest_total(cats, rs1, a) == contest_total(cats, rs2, a),
        contest_has_author(rs1, a) == contest_has_author(rs2, a),
    decreases rs1.len(),
{
    if rs1.len() == 0 {
        assert(rs2.to_multiset().len() == 0);
        assert(rs2.len() == 0);
    } else {
        let last = rs1.len() - 1;
        let x = rs1[last];
        assert(rs1.to_multiset().count(x) > 0);
        assert(rs2.contains(x));
        let k = choose|k: int| 0 <= k < rs2.len() && rs2[k] == x;
        lemma_contest_total_remove(cats, rs1, last, a);
        lemma_contest_total_remove(cats, rs2, k, a);
        lemma_rounds_order_independent(cats, rs1.remove(last), rs2.remove(k), a);
    }
    assert(contest_has_author(rs1, a) == contest_has_author(rs2, a)) by {
        if contest_has_author(rs1, a) {
            let i = choose|i: int| 0 <= i < rs1.len() && round_has_author(#[trigger] rs1[i], a);
            assert(rs1.contains(rs1[i]));
            assert(rs2.to_multiset().count(rs1[i]) > 0);
            let k = choose|k: int| 0 <= k < rs2.len() && rs2[k] == rs1[i];
        }
        if contest_has_author(rs2, a) {
            let i = choose|i: int| 0 <= i < rs2.len() && round_has_author(#[trigger] rs2[i], a);
            assert(rs2.contains(rs2[i]));
            assert(rs1.to_multiset().count(rs2[i]) > 0);
            let k = choose|k: int| 0 <= k < rs1.len() && rs1[k] == rs2[i];
        }
    }
}

/// Reordering the entries within each round leaves every author's total as it was.
pub proof fn lemma_entries_order_independent(
    cats: Seq<Seq<Seq<char>>>,
    rs1: Seq<Seq<EntryView>>,
    rs2: Seq<Seq<EntryView>>,
    a: Seq<char>,
)
    requires
        rs1.len() == rs2.len(),
        forall|j: int| 0 <= j < rs1.len() ==> (#[trigger] rs1[j]).to_multiset() == rs2[j].to_multiset(),
    ensures
        contest_total(cats, rs1, a) == contest_total(cats, rs2, a),
        contest_has_author(rs1, a) == contest_has_author(rs2, a),
    decreases rs1.len(),
{
    if rs1.len() > 0 {
        let last = rs1.len() - 1;
        assert(rs1[last].to_multiset() == rs2[last].to_multiset());
        lemma_round_order_independent(cats, rs1[last], rs2[last], a);
        let d1 = rs1.drop_last();
        let d2 = rs2.drop_last();
        assert forall|j: int| 0 <= j < d1.len() implies (#[trigger] d1[j]).to_multiset() == d2[j].to_multiset() by {
            assert(rs1[j].to_multiset() == rs2[j].to_multiset());
        }
        lemma_entries_order_independent(cats, d1, d2, a);
    }
    assert(contest_has_author(rs1, a) == contest_has_author(rs2, a)) by {
        if contest_has_author(rs1, a) {
            let i = choose|i: int| 0 <= i < rs1.len() && round_has_author(#[trigger] rs1[i], a);
            assert(rs1[i].to_multiset() == rs2[i].to_multiset());
            lemma_round_order_independent(cats, rs1[i], rs2[i], a);
        }
        if contest_has_author(rs2, a) {
            let i = choose|i: int| 0 <= i < rs2.len() && round_has_author(#[trigger] rs2[i], a);
            assert(rs1[i].to_multiset() == rs2[i].to_multiset());
            lemma_round_order_independent(cats, rs1[i], rs2[i], a);
        }
    }
}

/// The leaderboard is a function of the categories and the rounds: any two
/// leaderboards of the same contest are identical, row for row.
pub proof fn lemma_leaderboard_deterministic(
    cats: Seq<Seq<Seq<char>>>,
    rs: Seq<Seq<EntryView>>,
    b1: Seq<(Seq<char>, int)>,
    b2: Seq<(Seq<char>, int)>,
)
    requires
        is_leaderboard(cats, rs, b1),
        is_leaderboard(cats, rs, b2),
    ensures
        b1 == b2,
{
    assert forall|x: (Seq<char>, int)| b1.contains(x) <==> b2.contains(x) by {
        assert(b1.contains(x) <==> (contest_has_author(rs, x.0) && x.1 == contest_total(cats, rs, x.0)));
        assert(b2.contains(x) <==> (contest_has_author(rs, x.0) && x.1 == contest_total(cats, rs, x.0)));
    }
    lemma_ranked_unique(b1, b2);
}

/// Permuting the rounds, and the entries within each round, yields the same leaderboard.
pub proof fn lemma_leaderboard_order_independent(
    cats: Seq<Seq<Seq<char>>>,
    rs1: Seq<Seq<EntryView>>,
    rs2: Seq<Seq<EntryView>>,
    rs3: Seq<Seq<EntryView>>,
    b1: Seq<(Seq<char>, int)>,
    b3: Seq<(Seq<char>, int)>,
)
    requires
        rs1.to_multiset() == rs2.to_multiset(),
        rs2.len() == rs3.len(),
        forall|j: int| 0 <= j < rs2.len() ==> (#[trigger] rs2[j]).to_multiset() == rs3[j].to_multiset(),
        is_leaderboard(cats, rs1, b1),
        is_leaderboard(cats, rs3, b3),
    ensures
        b1 == b3,
{
    assert forall|x: (Seq<char>, int)| b1.contains(x) <==> b3.contains(x) by {
        lemma_rounds_order_independent(cats, rs1, rs2, x.0);
        lemma_entries_order_independent(cats, rs2, rs3, x.0);
        assert(b1.contains(x) <==> (contest_has_author(rs1, x.0) && x.1 == contest_total(cats, rs1, x.0)));
        assert(b3.contains(x) <==> (contest_has_author(rs3, x.0) && x.1 == contest_total(cats, rs3, x.0)));
    }
    lemma_ranked_unique(b1, b3);
}

/// As rounds are folded in, each author's running total never decreases and
/// is never negative.
pub proof fn lemma_running_total_monotone(
    cats: Seq<Seq<Seq<char>>>,
    rs: Seq<Seq<EntryView>>,
    a: Seq<char>,
    i: int,
    j: int,
)
    requires
        0 <= i <= j <= rs.len(),
    ensures
        0 <= contest_total(cats, rs.take(i), a) <= contest_total(cats, rs.take(j), a),
    decreases j - i,
{
    if i == j {
        crate::contest::lemma_contest_total_bound(cats, rs.take(i), a);
    } else {
        lemma_running_total_monotone(cats, rs, a, i, j - 1);
        assert(rs.take(j).drop_last() =~= rs.take(j - 1));
        lemma_round_total_bound(cats, rs.take(j).last(), a);
    }
}

proof fn lemma_no_match_count(cats: Seq<Seq<Seq<char>>>, text: Seq<char>, n: int)
    requires
        0 <= n <= cats.len(),
        forall|c: int| 0 <= c < n ==> !category_matches(#[trigger] cats[c], text),
    ensures
        matched_count(cats, text, n) == 0,
    decreases n,
{
    if n > 0 {
        lemma_no_match_count(cats, text, n - 1);
    }
}

/// An entry that shares no token with any keyword scores 0 and adds nothing
/// to its author's total, yet its author has a row on the leaderboard.
pub proof fn lemma_zero_match(
    cats: Seq<Seq<Seq<char>>>,
    rs: Seq<Seq<EntryView>>,
    b: Seq<(Seq<char>, int)>,
    j: int,
    i: int,
)
    requires
        is_leaderboard(cats, rs, b),
        0 <= j < rs.len(),
        0 <= i < rs[j].len(),
        forall|c: int, k: int|
            0 <= c < cats.len() && 0 <= k < cats[c].len() ==> !has_token(rs[j][i].contents, #[trigger] cats[c][k]),
    ensures
        entry_score(cats, rs[j][i]) == 0,
        forall|a: Seq<char>| #[trigger] round_total(cats, rs[j], a) == round_total(cats, rs[j].remove(i), a),
        exists|m: int| 0 <= m < b.len() && (#[trigger] b[m]).0 == rs[j][i].author,
{
    let e = rs[j][i];
    assert forall|c: int| 0 <= c < cats.len() implies !category_matches(#[trigger] cats[c], e.contents) by {
        if category_matches(cats[c], e.contents) {
            let k = choose|k: int| 0 <= k < cats[c].len() && has_token(e.contents, cats[c][k]);
        }
    }
    lemma_no_match_count(cats, e.contents, cats.len() as int);
    assert forall|a: Seq<char>| #[trigger] round_total(cats, rs[j], a) == round_total(cats, rs[j].remove(i), a) by {
        lemma_round_total_remove(cats, rs[j], i, a);
    }
    let a = e.author;
    assert(round_has_author(rs[j], a));
    assert(contest_has_author(rs, a));
    let x = (a, contest_total(cats, rs, a));
    assert(b.contains(x));
    let m = choose|m: int| 0 <= m < b.len() && b[m] == x;
    assert(b[m].0 == a);
}

/// Two authors with the same total appear in ascending order of author.
pub proof fn lemma_tie_break(cats: Seq<Seq<Seq<char>>>, rs: Seq<Seq<EntryView>>, b: Seq<(Seq<char>, int)>, m: int, k: int)
    requires
        is_leaderboard(cats, rs, b),
        0 <= m < k < b.len(),
        b[m].1 == b[k].1,
    ensures
        lex_lt(b[m].0, b[k].0),
{
    assert(crate::leaderboard::ranks_before(b[m], b[k]));
}

/// A round without entries adds nothing to any author, names no author,
/// and is never rejected.
pub proof fn lemma_empty_round(cats: Seq<Seq<Seq<char>>>, rs: Seq<Seq<EntryView>>, a: Seq<char>)
    ensures
        contest_total(cats, rs.push(Seq::empty()), a) == contest_total(cats, rs, a),
        contest_has_author(rs.push(Seq::empty()), a) == contest_has_author(rs, a),
        contest_sum(cats, rs.push(Seq::empty())) == contest_sum(cats, rs),
        all_valid(rs.push(Seq::empty())) == all_valid(rs),
{
    let rs2 = rs.push(Seq::empty());
    assert(rs2.drop_last() =~= rs);
    if contest_has_author(rs2, a) {
        let r = choose|r: int| 0 <= r < rs2.len() && round_has_author(#[trigger] rs2[r], a);
        assert(r < rs.len());
        assert(rs2[r] == rs[r]);
    }
    if contest_has_author(rs, a) {
        let r = choose|r: int| 0 <= r < rs.len() && round_has_author(#[trigger] rs[r], a);
        assert(rs2[r] == rs[r]);
    }
    if all_valid(rs) {
        assert forall|r: int, i: int| 0 <= r < rs2.len() && 0 <= i < rs2[r].len() implies crate::scoring::valid_entry(#[trigger] rs2[r][i]) by {
            assert(rs2[r] == rs[r]);
        }
    }
    if all_valid(rs2) {
        assert forall|r: int, i: int| 0 <= r < rs.len() && 0 <= i < rs[r].len() implies crate::scoring::valid_entry(#[trigger] rs[r][i]) by {
            assert(rs2[r] == rs[r]);
        }
    }
}

} // verus!
