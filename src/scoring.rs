//! Scoring of a single entry: the categories it matches and its score.
use vstd::prelude::*;

use crate::index::{category_matches, matched_count, CategoryIndex};

verus! {

/// One contest submission.
#[derive(Debug)]
pub struct Entry {
    /// The person the entry's score is attributed to.
    pub author: String,
    /// A short title; it takes no part in matching.
    pub title: String,
    /// The body text that is matched against the categories.
    pub contents: String,
}

/// What matters of an entry for scoring: its author and its contents.
pub ghost struct EntryView {
    pub author: Seq<char>,
    pub contents: Seq<char>,
}

impl View for Entry {
    type V = EntryView;

    open spec fn view(&self) -> EntryView {
        EntryView { author: self.author@, contents: self.contents@ }
    }
}

/// The score of an entry: how many of the categories `cats` its contents match.
pub open spec fn entry_score(cats: Seq<Seq<Seq<char>>>, e: EntryView) -> nat {
    matched_count(cats, e.contents, cats.len() as int)
}

/// An entry is accepted when it names an author.
pub open spec fn valid_entry(e: EntryView) -> bool {
    e.author.len() > 0
}

/// The categories an entry matched, and its score.
pub struct EntryScore {
    pub author: String,
    pub matched_categories: Vec<usize>,
    pub score: u64,
}

pub proof fn lemma_matched_count_bound(cats: Seq<Seq<Seq<char>>>, text: Seq<char>, n: int)
    requires
        0 <= n,
    ensures
        matched_count(cats, text, n) <= n,
    decreases n,
{
    if n > 0 {
        lemma_matched_count_bound(cats, text, n - 1);
    }
}

/// Scores `entry` against the categories of `index`.
pub fn score_entry(entry: &Entry, index: &CategoryIndex) -> (r: EntryScore)
    requires
        index.wf(),
    ensures
        r.author@ == entry.author@,
        forall|i: int, j: int|
            0 <= i < j < r.matched_categories@.len() ==> r.matched_categories@[i]
                < r.matched_categories@[j],
        forall|c: usize|
            #[trigger] r.matched_categories@.contains(c) <==> (c < index@.len() && category_matches(
                index@[c as int],
                entry.contents@,
            )),
        r.score == entry_score(index@, entry@),
        r.score <= index@.len(),
{
    let matched = index.matching_categories(entry.contents.as_str());
    proof {
        lemma_matched_count_bound(index@, entry.contents@, index@.len() as int);
    }
    let score = matched.len() as u64;
    EntryScore { author: entry.author.clone(), matched_categories: matched, score }
}

} // verus!
