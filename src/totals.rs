//! Per-author score totals: a map from author to accumulated score, kept as
//! a table sorted by author.
use vstd::prelude::*;

use crate::leaderboard::{board_view, is_ranked, ranks_before, Standing};
use crate::text::{chars_of, lemma_lex_irreflexive, lex_lt, search_sorted, strictly_sorted};

verus! {

/// The total of `a` in `m`; an author absent from `m` has total 0.
pub open spec fn amount(m: Map<Seq<char>, int>, a: Seq<char>) -> int {
    if m.contains_key(a) {
        m[a]
    } else {
        0
    }
}

/// Accumulated scores by author.
pub struct AuthorTotals {
    keys: Vec<Vec<char>>,
    authors: Vec<String>,
    totals: Vec<u64>,
    model: Ghost<Map<Seq<char>, int>>,
}

impl View for AuthorTotals {
    type V = Map<Seq<char>, int>;

    /// Each author that has a total, with that total.
    closed spec fn view(&self) -> Map<Seq<char>, int> {
        self.model@
    }
}

impl AuthorTotals {
    /// The keys of the table, as sequences.
    pub closed spec fn key_seq(&self) -> Seq<Seq<char>> {
        self.keys@.map_values(|k: Vec<char>| k@)
    }

    pub closed spec fn wf(&self) -> bool {
        &&& self.keys@.len() == self.authors@.len()
        &&& self.keys@.len() == self.totals@.len()
        &&& strictly_sorted(self.key_seq())
        &&& forall|i: int| 0 <= i < self.keys@.len() ==> (#[trigger] self.keys@[i])@ == self.authors@[i]@
        &&& forall|i: int|
            0 <= i < self.keys@.len() ==> self.model@.contains_key(#[trigger] self.keys@[i]@)
                && self.model@[self.keys@[i]@] == self.totals@[i] as int
        &&& forall|a: Seq<char>|
            #[trigger] self.model@.contains_key(a) ==> exists|i: int|
                0 <= i < self.keys@.len() && (#[trigger] self.keys@[i])@ == a
    }

    /// No author has a total yet.
    pub fn new() -> (r: AuthorTotals)
        ensures
            r.wf(),
            r@ == Map::<Seq<char>, int>::empty(),
    {
        let r = AuthorTotals {
            keys: Vec::new(),
            authors: Vec::new(),
            totals: Vec::new(),
            model: Ghost(Map::empty()),
        };
        assert(r.key_seq() =~= Seq::<Seq<char>>::empty());
        r
    }

    /// How many authors have a total.
    pub fn len(&self) -> (r: usize)
        requires
            self.wf(),
        ensures
            r == self@.dom().len(),
    {
        proof {
            self.lemma_dom_len();
        }
        self.keys.len()
    }

    proof fn lemma_dom_len(&self)
        requires
            self.wf(),
        ensures
            self@.dom().finite(),
            self@.dom().len() == self.keys@.len(),
    {
        let ks = self.key_seq();
        assert forall|i: int, k: int| 0 <= i < k < ks.len() implies ks[i] != ks[k] by {
            assert(lex_lt(ks[i], ks[k]));
            lemma_lex_irreflexive(ks[i]);
        }
        assert(ks.no_duplicates());
        assert(self@.dom() =~= ks.to_set()) by {
            assert forall|a: Seq<char>| self@.dom().contains(a) implies ks.to_set().contains(a) by {
                let i = choose|i: int| 0 <= i < self.keys@.len() && (#[trigger] self.keys@[i])@ == a;
                assert(ks[i] == a);
            }
            assert forall|a: Seq<char>| ks.to_set().contains(a) implies self@.dom().contains(a) by {
                let i = choose|i: int| 0 <= i < ks.len() && ks[i] == a;
                assert(self.keys@[i]@ == a);
            }
        }
        ks.unique_seq_to_set();
    }

    /// Authors among the first `i` of the table.
    closed spec fn among_first(&self, i: int, a: Seq<char>) -> bool {
        exists|k: int| 0 <= k < i && (#[trigger] self.keys@[k])@ == a
    }

    /// Adds every total of `other` to this one.
    pub fn merge(&mut self, other: &AuthorTotals)
        requires
            old(self).wf(),
            other.wf(),
            forall|a: Seq<char>| amount(old(self)@, a) + amount(other@, a) <= u64::MAX,
        ensures
            final(self).wf(),
            forall|a: Seq<char>|
                #[trigger] final(self)@.contains_key(a) <==> (old(self)@.contains_key(a)
                    || other@.contains_key(a)),
            forall|a: Seq<char>| #[trigger] amount(final(self)@, a) == amount(old(self)@, a) + amount(other@, a),
    {
        let ghost m0 = self@;
        let n = other.keys.len();
        let mut i: usize = 0;
        while i < n
            invariant
                self.wf(),
                other.wf(),
                n == other.keys@.len(),
                i <= n,
                forall|a: Seq<char>| amount(m0, a) + amount(other@, a) <= u64::MAX,
                forall|a: Seq<char>|
                    #[trigger] self@.contains_key(a) <==> (m0.contains_key(a) || other.among_first(i as int, a)),
                forall|a: Seq<char>|
                    #[trigger] amount(self@, a) == amount(m0, a) + if other.among_first(i as int, a) {
                        amount(other@, a)
                    } else {
                        0
                    },
            decreases n - i,
        {
            let ghost a = other.keys@[i as int]@;
            let key = chars_of(other.authors[i].as_str());
            assert(!other.among_first(i as int, a)) by {
                if other.among_first(i as int, a) {
                    let k = choose|k: int| 0 <= k < i && (#[trigger] other.keys@[k])@ == a;
                    assert(lex_lt(other.key_seq()[k], other.key_seq()[i as int]));
                    lemma_lex_irreflexive(a);
                }
            }
            let ghost s0 = self@;
            assert(other@.contains_key(a) && other@[a] == other.totals@[i as int] as int);
            self.add(key, &other.authors[i], other.totals[i]);
            assert forall|b: Seq<char>| other.among_first(i + 1, b) == (other.among_first(i as int, b) || b == a) by {
                if other.among_first(i + 1, b) && b != a {
                    let k = choose|k: int| 0 <= k < i + 1 && (#[trigger] other.keys@[k])@ == b;
                    assert(other.among_first(i as int, b));
                }
                if b == a {
                    assert(other.keys@[i as int]@ == b);
                }
                if other.among_first(i as int, b) {
                    let k = choose|k: int| 0 <= k < i && (#[trigger] other.keys@[k])@ == b;
                    assert(other.keys@[k]@ == b);
                }
            }
            assert forall|b: Seq<char>|
                #[trigger] amount(self@, b) == amount(m0, b) + if other.among_first(i + 1, b) {
                    amount(other@, b)
                } else {
                    0
                } by {
                if b != a {
                    assert(amount(self@, b) == amount(s0, b));
                }
            }
            i = i + 1;
        }
        assert forall|b: Seq<char>| other.among_first(n as int, b) == other@.contains_key(b) by {
            if other.among_first(n as int, b) {
                let k = choose|k: int| 0 <= k < n && (#[trigger] other.keys@[k])@ == b;
            }
            if other@.contains_key(b) {
                let k = choose|k: int| 0 <= k < n && (#[trigger] other.keys@[k])@ == b;
                assert(other.among_first(n as int, b));
            }
        }
    }

    /// The totals as leaderboard rows, ranked: higher score first, ties by
    /// author in ascending order.
    pub fn ranked(&self) -> (r: Vec<Standing>)
        requires
            self.wf(),
        ensures
            is_ranked(board_view(r@)),
            forall|x: (Seq<char>, int)|
                #[trigger] board_view(r@).contains(x) <==> (self@.contains_key(x.0) && self@[x.0] == x.1),
    {
        let n = self.keys.len();
        let mut r: Vec<Standing> = Vec::new();
        let mut i: usize = 0;
        while i < n
            invariant
                self.wf(),
                n == self.keys@.len(),
                i <= n,
                is_ranked(board_view(r@)),
                forall|x: (Seq<char>, int)|
                    #[trigger] board_view(r@).contains(x) <==> exists|k: int|
                        0 <= k < i && (#[trigger] self.keys@[k])@ == x.0 && self.totals@[k] == x.1,
            decreases n - i,
        {
            let t = self.totals[i];
            let ghost rv = board_view(r@);
            let ghost row = (self.keys@[i as int]@, t as int);
            assert forall|m: int| 0 <= m < rv.len() implies lex_lt(#[trigger] rv[m].0, row.0) by {
                assert(rv.contains(rv[m]));
                let k = choose|k: int| 0 <= k < i && (#[trigger] self.keys@[k])@ == rv[m].0 && self.totals@[k] == rv[m].1;
                assert(lex_lt(self.key_seq()[k], self.key_seq()[i as int]));
            }
            let mut lo: usize = 0;
            let mut hi: usize = r.len();
            while lo < hi
                invariant
                    lo <= hi <= r@.len(),
                    rv == board_view(r@),
                    is_ranked(rv),
                    forall|m: int| 0 <= m < lo ==> (#[trigger] rv[m]).1 >= t,
                    forall|m: int| hi <= m < rv.len() ==> (#[trigger] rv[m]).1 < t,
                decreases hi - lo,
            {
                let mid = lo + (hi - lo) / 2;
                if r[mid].score >= t {
                    assert forall|m: int| 0 <= m < mid + 1 implies (#[trigger] rv[m]).1 >= t by {
                        if m < mid {
                            assert(ranks_before(rv[m], rv[mid as int]));
                        }
                    }
                    lo = mid + 1;
                } else {
                    assert forall|m: int| mid <= m < rv.len() implies (#[trigger] rv[m]).1 < t by {
                        if m > mid {
                            assert(ranks_before(rv[mid as int], rv[m]));
                        }
                    }
                    hi = mid;
                }
            }
            let name = self.authors[i].clone();
            r.insert(lo, Standing { author: name, score: t });
            proof {
                let rv1 = board_view(r@);
                assert(rv1 =~= rv.insert(lo as int, row));
                assert forall|x: int, y: int| 0 <= x < y < rv1.len() implies ranks_before(#[trigger] rv1[x], #[trigger] rv1[y]) by {
                    if x < lo && y < lo {
                    } else if x < lo && y == lo {
                    } else if x < lo {
                        assert(ranks_before(rv[x], rv[y - 1]));
                    } else if x == lo {
                    } else {
                        assert(ranks_before(rv[x - 1], rv[y - 1]));
                    }
                }
                assert forall|x: (Seq<char>, int)|
                    #[trigger] rv1.contains(x) <==> exists|k: int|
                        0 <= k < i + 1 && (#[trigger] self.keys@[k])@ == x.0 && self.totals@[k] == x.1 by {
                    if rv1.contains(x) {
                        let m = choose|m: int| 0 <= m < rv1.len() && rv1[m] == x;
                        if m < lo {
                            assert(rv.contains(rv[m]));
                        } else if m > lo {
                            assert(rv.contains(rv[m - 1]));
                        }
                    }
                    if exists|k: int| 0 <= k < i + 1 && (#[trigger] self.keys@[k])@ == x.0 && self.totals@[k] == x.1 {
                        let k = choose|k: int| 0 <= k < i + 1 && (#[trigger] self.keys@[k])@ == x.0 && self.totals@[k] == x.1;
                        if k == i {
                            assert(rv1[lo as int] == x);
                        } else {
                            assert(rv.contains(x));
                            let m = choose|m: int| 0 <= m < rv.len() && rv[m] == x;
                            if m < lo {
                                assert(rv1[m] == x);
                            } else {
                                assert(rv1[m + 1] == x);
                            }
                        }
                    }
                }
            }
            i = i + 1;
        }
        proof {
            let rv = board_view(r@);
            assert forall|x: (Seq<char>, int)|
                #[trigger] rv.contains(x) <==> (self@.contains_key(x.0) && self@[x.0] == x.1) by {
                if rv.contains(x) {
                    let k = choose|k: int| 0 <= k < n && (#[trigger] self.keys@[k])@ == x.0 && self.totals@[k] == x.1;
                }
                if self@.contains_key(x.0) && self@[x.0] == x.1 {
                    let k = choose|k: int| 0 <= k < n && (#[trigger] self.keys@[k])@ == x.0;
                }
            }
        }
        r
    }

    /// The total of `author`; 0 for an author without one.
    pub fn total_of(&self, author: &str) -> (r: u64)
        requires
            self.wf(),
        ensures
            r == amount(self@, author@),
    {
        let key = chars_of(author);
        match search_sorted(&self.keys, key.as_slice()) {
            Ok(i) => self.totals[i],
            Err(_) => {
                proof {
                    if self@.contains_key(key@) {
                        let k = choose|k: int| 0 <= k < self.keys@.len() && (#[trigger] self.keys@[k])@ == key@;
                    }
                }
                0
            },
        }
    }

    /// Adds `value` to the total of `author`, whose characters are `key`.
    pub(crate) fn add(&mut self, key: Vec<char>, author: &String, value: u64)
        requires
            old(self).wf(),
            key@ == author@,
            amount(old(self)@, key@) + value <= u64::MAX,
        ensures
            final(self).wf(),
            final(self)@ == old(self)@.insert(key@, amount(old(self)@, key@) + value),
    {
        let ghost a = key@;
        let ghost m0 = self.model@;
        let ghost ks0 = self.key_seq();
        match search_sorted(&self.keys, key.as_slice()) {
            Ok(i) => {
                let t = self.totals[i] + value;
                self.totals.set(i, t);
                self.model = Ghost(m0.insert(a, t as int));
                proof {
                    assert(self.key_seq() == ks0);
                    assert forall|k: int|
                        0 <= k < self.keys@.len() implies self.model@.contains_key(#[trigger] self.keys@[k]@)
                            && self.model@[self.keys@[k]@] == self.totals@[k] as int by {
                        if k != i {
                            assert(lex_lt(ks0[k], ks0[i as int]) || lex_lt(ks0[i as int], ks0[k]));
                            lemma_lex_irreflexive(ks0[k]);
                        }
                    }
                    assert forall|b: Seq<char>| #[trigger] self.model@.contains_key(b) implies exists|k: int|
                        0 <= k < self.keys@.len() && (#[trigger] self.keys@[k])@ == b by {
                        if b == a {
                            assert(self.keys@[i as int]@ == b);
                        } else {
                            assert(m0.contains_key(b));
                        }
                    }
                }
            },
            Err(i) => {
                let name = author.clone();
                self.keys.insert(i, key);
                self.authors.insert(i, name);
                self.totals.insert(i, value);
                self.model = Ghost(m0.insert(a, value as int));
                proof {
                    let ks1 = self.key_seq();
                    assert(ks1 =~= ks0.insert(i as int, a));
                    assert(!m0.contains_key(a)) by {
                        if m0.contains_key(a) {
                            let k = choose|k: int| 0 <= k < ks0.len() && (#[trigger] old(self).keys@[k])@ == a;
                        }
                    }
                    assert(strictly_sorted(ks1)) by {
                        assert forall|x: int, y: int| 0 <= x < y < ks1.len() implies lex_lt(
                            #[trigger] ks1[x],
                            #[trigger] ks1[y],
                        ) by {
                            if x < i && y < i {
                                assert(ks1[x] == ks0[x] && ks1[y] == ks0[y]);
                            } else if x < i && y == i {
                                assert(ks1[x] == old(self).keys@[x]@);
                            } else if x < i {
                                assert(ks1[x] == ks0[x] && ks1[y] == ks0[y - 1]);
                            } else if x == i {
                                assert(ks1[y] == old(self).keys@[y - 1]@);
                            } else {
                                assert(ks1[x] == ks0[x - 1] && ks1[y] == ks0[y - 1]);
                            }
                        }
                    }
                    assert forall|k: int| 0 <= k < self.keys@.len() implies (#[trigger] self.keys@[k])@
                        == self.authors@[k]@ by {
                        if k < i {
                            assert(self.keys@[k] == old(self).keys@[k]);
                        } else if k > i {
                            assert(self.keys@[k] == old(self).keys@[k - 1]);
                        }
                    }
                    assert forall|k: int|
                        0 <= k < self.keys@.len() implies self.model@.contains_key(#[trigger] self.keys@[k]@)
                            && self.model@[self.keys@[k]@] == self.totals@[k] as int by {
                        if k < i {
                            assert(self.keys@[k] == old(self).keys@[k]);
                        } else if k > i {
                            assert(self.keys@[k] == old(self).keys@[k - 1]);
                        }
                    }
                    assert forall|b: Seq<char>| #[trigger] self.model@.contains_key(b) implies exists|k: int|
                        0 <= k < self.keys@.len() && (#[trigger] self.keys@[k])@ == b by {
                        if b == a {
                            assert(self.keys@[i as int]@ == b);
                        } else {
                            let k = choose|k: int| 0 <= k < ks0.len() && (#[trigger] old(self).keys@[k])@ == b;
                            if k < i {
                                assert(self.keys@[k]@ == b);
                            } else {
                                assert(self.keys@[k + 1]@ == b);
                            }
                        }
                    }
                }
            },
        }
    }
}

} // verus!
