//! The category index: a keyword-to-categories table built once per contest
//! and answering which categories a text matches.
use vstd::prelude::*;

use crate::text::{chars_of, has_token, is_space, is_space_char, is_token, lex_lt, search_sorted, strictly_sorted};
use crate::text::lemma_lex_irreflexive;
use crate::ScoringError;

verus! {

/// A category: the keywords that identify entries belonging to it.
#[derive(Debug)]
pub struct Category {
    pub keywords: Vec<String>,
}

impl View for Category {
    type V = Seq<Seq<char>>;

    open spec fn view(&self) -> Seq<Seq<char>> {
        self.keywords@.map_values(|k: String| k@)
    }
}

/// The keyword lists of a sequence of categories.
pub open spec fn categories_view(cs: Seq<Category>) -> Seq<Seq<Seq<char>>> {
    cs.map_values(|c: Category| c@)
}

/// A category with keywords `kws` matches `text` when one of its keywords is a token of it.
pub open spec fn category_matches(kws: Seq<Seq<char>>, text: Seq<char>) -> bool {
    exists|j: int| 0 <= j < kws.len() && has_token(text, kws[j])
}

/// How many of the first `n` categories of `cats` match `text`.
pub open spec fn matched_count(cats: Seq<Seq<Seq<char>>>, text: Seq<char>, n: int) -> nat
    decreases n,
{
    if n <= 0 {
        0
    } else {
        matched_count(cats, text, n - 1) + if category_matches(cats[n - 1], text) {
            1nat
        } else {
            0nat
        }
    }
}

/// A token of `text` that ends before position `i` is one of `kws`.
spec fn found_before(kws: Seq<Seq<char>>, text: Seq<char>, i: int) -> bool {
    exists|a: int, b: int| is_token(text, a, b) && b < i && kws.contains(#[trigger] text.subrange(a, b))
}

/// The run of non-whitespace characters `text[start..i]` that begins after a
/// whitespace character (or at the start) is the only candidate token ending at `i`.
proof fn lemma_token_end(text: Seq<char>, start: int, i: int, a: int)
    requires
        0 <= start <= i <= text.len(),
        start == 0 || is_space(text[start - 1]),
        forall|k: int| start <= k < i ==> !is_space(#[trigger] text[k]),
        is_token(text, a, i),
    ensures
        a == start,
{
    if a < start {
        assert(!is_space(text[start - 1]));
    } else if a > start {
        assert(!is_space(text[a - 1]));
    }
}

proof fn lemma_category_matches_tokens(kws: Seq<Seq<char>>, text: Seq<char>)
    ensures
        category_matches(kws, text) <==> exists|a: int, b: int|
            is_token(text, a, b) && kws.contains(#[trigger] text.subrange(a, b)),
{
    if category_matches(kws, text) {
        let j = choose|j: int| 0 <= j < kws.len() && has_token(text, kws[j]);
        let (a, b) = choose|a: int, b: int| is_token(text, a, b) && text.subrange(a, b) == kws[j];
        assert(kws.contains(text.subrange(a, b)));
    }
    if exists|a: int, b: int| is_token(text, a, b) && kws.contains(#[trigger] text.subrange(a, b)) {
        let (a, b) = choose|a: int, b: int| is_token(text, a, b) && kws.contains(#[trigger] text.subrange(a, b));
        let j = choose|j: int| 0 <= j < kws.len() && kws[j] == text.subrange(a, b);
        assert(has_token(text, kws[j]));
    }
}

/// A reverse index from keyword to the categories that list it: the
/// keywords in strictly increasing order, and beside each the categories
/// that list it.
pub struct CategoryIndex {
    keywords: Vec<Vec<char>>,
    lists: Vec<Vec<usize>>,
    num_categories: usize,
    model: Ghost<Seq<Seq<Seq<char>>>>,
}

spec fn keyword_views(k: Seq<Vec<char>>) -> Seq<Seq<char>> {
    k.map_values(|w: Vec<char>| w@)
}

spec fn list_views(l: Seq<Vec<usize>>) -> Seq<Seq<usize>> {
    l.map_values(|v: Vec<usize>| v@)
}

/// Category `x` lists `w` among the part of `cats` entered so far: all
/// categories before `c`, and the first `j` keywords of category `c`.
spec fn entered(cats: Seq<Seq<Seq<char>>>, c: int, j: int, x: int, w: Seq<char>) -> bool {
    (0 <= x < c && cats[x].contains(w)) || (x == c && cats[c].take(j).contains(w))
}

/// The table holds exactly what has been entered of `cats`.
spec fn table_state(
    kws: Seq<Seq<char>>,
    lists: Seq<Seq<usize>>,
    cats: Seq<Seq<Seq<char>>>,
    c: int,
    j: int,
) -> bool {
    &&& kws.len() == lists.len()
    &&& strictly_sorted(kws)
    &&& forall|i: int, x: usize|
        0 <= i < lists.len() ==> (#[trigger] lists[i].contains(x) <==> entered(cats, c, j, x as int, kws[i]))
    &&& forall|x: int, w: Seq<char>| #[trigger] entered(cats, c, j, x, w) ==> kws.contains(w)
}

proof fn lemma_sorted_distinct(kws: Seq<Seq<char>>, i: int, k: int)
    requires
        strictly_sorted(kws),
        0 <= i < kws.len(),
        0 <= k < kws.len(),
        i != k,
    ensures
        kws[i] != kws[k],
{
    if i < k {
        assert(lex_lt(kws[i], kws[k]));
    } else {
        assert(lex_lt(kws[k], kws[i]));
    }
    lemma_lex_irreflexive(kws[i]);
}

proof fn lemma_table_state_ext(
    kws: Seq<Seq<char>>,
    lists: Seq<Seq<usize>>,
    cats: Seq<Seq<Seq<char>>>,
    c1: int,
    j1: int,
    c2: int,
    j2: int,
)
    requires
        table_state(kws, lists, cats, c1, j1),
        forall|x: int, v: Seq<char>| entered(cats, c1, j1, x, v) == entered(cats, c2, j2, x, v),
    ensures
        table_state(kws, lists, cats, c2, j2),
{
    assert forall|x: int, v: Seq<char>| #[trigger] entered(cats, c2, j2, x, v) implies kws.contains(v) by {
        assert(entered(cats, c1, j1, x, v));
    }
    assert forall|i: int, x: usize|
        0 <= i < lists.len() implies (#[trigger] lists[i].contains(x) <==> entered(cats, c2, j2, x as int, kws[i])) by {
        assert(entered(cats, c1, j1, x as int, kws[i]) == entered(cats, c2, j2, x as int, kws[i]));
    }
}

/// Enters keyword `j` of category `c`, whose characters are `kw`, into the table.
fn enter_keyword(
    keywords: &mut Vec<Vec<char>>,
    lists: &mut Vec<Vec<usize>>,
    kw: Vec<char>,
    Ghost(cats): Ghost<Seq<Seq<Seq<char>>>>,
    c: usize,
    Ghost(j): Ghost<int>,
)
    requires
        0 <= c < cats.len(),
        0 <= j < cats[c as int].len(),
        kw@ == cats[c as int][j],
        table_state(keyword_views(old(keywords)@), list_views(old(lists)@), cats, c as int, j),
    ensures
        table_state(keyword_views(final(keywords)@), list_views(final(lists)@), cats, c as int, j + 1),
{
    let ghost w = kw@;
    let ghost c_int = c as int;
    let ghost k0 = keyword_views(keywords@);
    let ghost l0 = list_views(lists@);
    assert(cats[c_int].take(j + 1) =~= cats[c_int].take(j).push(w));
    assert forall|x: int, v: Seq<char>|
        entered(cats, c_int, j + 1, x, v) <==> (entered(cats, c_int, j, x, v) || (x == c_int && v == w))
    by {
        assert(cats[c_int].take(j + 1).contains(v) <==> (cats[c_int].take(j).contains(v) || v == w)) by {
            if v == w {
                assert(cats[c_int].take(j + 1)[j] == w);
            }
            if cats[c_int].take(j + 1).contains(v) && v != w {
                let m = choose|m: int| 0 <= m < j + 1 && #[trigger] cats[c_int].take(j + 1)[m] == v;
                assert(cats[c_int].take(j)[m] == v);
            }
        }
    }
    assert(forall|k: int| 0 <= k < keywords@.len() ==> #[trigger] keywords@[k]@ == k0[k]);
    match search_sorted(keywords, kw.as_slice()) {
        Ok(i) => {
            let n = lists[i].len();
            let pushed = n == 0 || lists[i][n - 1] != c;
            if pushed {
                lists[i].push(c);
            }
            proof {
                let l1 = list_views(lists@);
                assert(keyword_views(keywords@) == k0);
                assert(pushed ==> l1 =~= l0.update(i as int, l0[i as int].push(c)));
                assert(!pushed ==> l1 =~= l0);
                assert forall|k: int, x: usize|
                    0 <= k < l1.len() implies (#[trigger] l1[k].contains(x) <==> entered(
                        cats,
                        c_int,
                        j + 1,
                        x as int,
                        k0[k],
                    )) by {
                    if k == i {
                        if n > 0 && l0[k][n - 1] == c {
                            assert(l0[k].contains(c));
                        }
                        if x != c && l1[k].contains(x) {
                            let m = choose|m: int| 0 <= m < l1[k].len() && #[trigger] l1[k][m] == x;
                            assert(l0[k][m] == x);
                        }
                        if l0[k].contains(x) {
                            let m = choose|m: int| 0 <= m < l0[k].len() && #[trigger] l0[k][m] == x;
                            assert(l1[k][m] == x);
                        }
                        if x == c && pushed {
                            assert(l1[k][n as int] == x);
                        }
                    } else {
                        lemma_sorted_distinct(k0, k, i as int);
                        assert(l1[k] == l0[k]);
                    }
                }
                assert forall|x: int, v: Seq<char>| #[trigger] entered(cats, c_int, j + 1, x, v) implies k0.contains(v) by {
                    if !entered(cats, c_int, j, x, v) {
                        assert(k0[i as int] == v);
                    }
                }
            }
        },
        Err(i) => {
            keywords.insert(i, kw);
            let mut cs: Vec<usize> = Vec::new();
            cs.push(c);
            lists.insert(i, cs);
            proof {
                let k1 = keyword_views(keywords@);
                let l1 = list_views(lists@);
                assert(k1 =~= k0.insert(i as int, w));
                assert(l1 =~= l0.insert(i as int, seq![c]));
                assert(!k0.contains(w));
                assert forall|k: int, x: usize|
                    0 <= k < l1.len() implies (#[trigger] l1[k].contains(x) <==> entered(
                        cats,
                        c_int,
                        j + 1,
                        x as int,
                        k1[k],
                    )) by {
                    assert(entered(cats, c_int, j + 1, x as int, k1[k]) <==> (entered(cats, c_int, j, x as int, k1[k]) || (x == c && k1[k] == w)));
                    if k == i {
                        if x == c {
                            assert(l1[k][0] == x);
                        }
                    } else if k < i {
                        assert(k1[k] == k0[k] && l1[k] == l0[k]);
                        assert(k0.contains(k0[k]));
                    } else {
                        assert(k1[k] == k0[k - 1] && l1[k] == l0[k - 1]);
                        assert(k0.contains(k0[k - 1]));
                    }
                }
                assert forall|x: int, v: Seq<char>| #[trigger] entered(cats, c_int, j + 1, x, v) implies k1.contains(v) by {
                    if entered(cats, c_int, j, x, v) {
                        let k = choose|k: int| 0 <= k < k0.len() && k0[k] == v;
                        if k < i {
                            assert(k1[k] == v);
                        } else {
                            assert(k1[k + 1] == v);
                        }
                    } else {
                        assert(k1[i as int] == v);
                    }
                }
                assert(strictly_sorted(k1)) by {
                    assert forall|a: int, b: int| 0 <= a < b < k1.len() implies lex_lt(#[trigger] k1[a], #[trigger] k1[b]) by {
                        if a < i && b < i {
                            assert(k1[a] == k0[a] && k1[b] == k0[b]);
                        } else if a < i && b == i {
                            assert(k1[a] == k0[a]);
                        } else if a < i {
                            assert(k1[a] == k0[a] && k1[b] == k0[b - 1]);
                        } else if a == i {
                            assert(k1[b] == k0[b - 1]);
                        } else {
                            assert(k1[a] == k0[a - 1] && k1[b] == k0[b - 1]);
                        }
                    }
                }
            }
        },
    }
}

impl View for CategoryIndex {
    type V = Seq<Seq<Seq<char>>>;

    /// The keyword lists of the categories, in order.
    closed spec fn view(&self) -> Seq<Seq<Seq<char>>> {
        self.model@
    }
}

impl CategoryIndex {
    /// The table was built from the categories of `self@`, all of them.
    pub closed spec fn wf(&self) -> bool {
        &&& self.num_categories == self@.len()
        &&& table_state(keyword_views(self.keywords@), list_views(self.lists@), self@, self@.len() as int, 0)
    }

    /// How many categories the index was built from.
    pub fn num_categories(&self) -> (r: usize)
        requires
            self.wf(),
        ensures
            r == self@.len(),
    {
        self.num_categories
    }

    /// Marks every category that lists `token` as a keyword.
    fn mark_token(&self, token: &Vec<char>, marks: &mut Vec<bool>)
        requires
            self.wf(),
            old(marks)@.len() == self@.len(),
        ensures
            final(marks)@.len() == self@.len(),
            forall|c: int|
                0 <= c < self@.len() ==> (#[trigger] final(marks)@[c] == (old(marks)@[c]
                    || self@[c].contains(token@))),
    {
        let ghost cats = self@;
        let ghost n = cats.len() as int;
        let ghost kws = keyword_views(self.keywords@);
        let ghost lists = list_views(self.lists@);
        assert(forall|k: int| 0 <= k < self.keywords@.len() ==> #[trigger] self.keywords@[k]@ == kws[k]);
        match search_sorted(&self.keywords, token.as_slice()) {
            Ok(i) => {
                let list = &self.lists[i];
                assert(list@ == lists[i as int]);
                assert(forall|x: usize| #[trigger] list@.contains(x) <==> entered(cats, n, 0, x as int, token@));
                let mut m: usize = 0;
                while m < list.len()
                    invariant
                        self.wf(),
                        cats == self@,
                        n == cats.len(),
                        list == self.lists@[i as int],
                        forall|x: usize| #[trigger] list@.contains(x) <==> entered(cats, n, 0, x as int, token@),
                        m <= list@.len(),
                        marks@.len() == n,
                        forall|c: int|
                            0 <= c < n ==> (#[trigger] marks@[c] == (old(marks)@[c] || exists|k: int|
                                0 <= k < m && list@[k] == c)),
                    decreases list.len() - m,
                {
                    let x = list[m];
                    assert(list@.contains(x));
                    marks.set(x, true);
                    assert forall|c: int| 0 <= c < n implies (#[trigger] marks@[c] == (old(marks)@[c]
                        || exists|k: int| 0 <= k < m + 1 && list@[k] == c)) by {
                        if c == x {
                            assert(list@[m as int] == c);
                        }
                    }
                    m = m + 1;
                }
                assert forall|c: int| 0 <= c < n implies #[trigger] marks@[c] == (old(marks)@[c]
                    || cats[c].contains(token@)) by {
                    if exists|k: int| 0 <= k < m && list@[k] == c {
                        let k = choose|k: int| 0 <= k < m && list@[k] == c;
                        assert(list@.contains(c as usize));
                    }
                    if cats[c].contains(token@) {
                        assert(entered(cats, n, 0, c, token@));
                        assert(list@.contains(c as usize));
                    }
                }
            },
            Err(_) => {
                assert forall|c: int| 0 <= c < n implies !cats[c].contains(token@) by {
                    if cats[c].contains(token@) {
                        assert(entered(cats, n, 0, c, token@));
                        let k = choose|k: int| 0 <= k < kws.len() && kws[k] == token@;
                        assert(self.keywords@[k]@ == token@);
                    }
                }
            },
        }
    }

    /// The categories that `text` matches, in increasing order.
    pub fn matching_categories(&self, text: &str) -> (r: Vec<usize>)
        requires
            self.wf(),
        ensures
            forall|i: int, j: int| 0 <= i < j < r@.len() ==> r@[i] < r@[j],
            forall|c: usize|
                #[trigger] r@.contains(c) <==> (c < self@.len() && category_matches(self@[c as int], text@)),
            r@.len() == matched_count(self@, text@, self@.len() as int),
    {
        let ghost cats = self@;
        let n = self.num_categories;
        let mut marks: Vec<bool> = vec![false; n];
        let mut token: Vec<char> = Vec::new();
        let ghost mut start: int = 0;
        for ch in it: text.chars()
            invariant
                self.wf(),
                cats == self@,
                n == cats.len(),
                it.seq() == text@,
                marks@.len() == n,
                0 <= start <= it.index(),
                token@ == text@.subrange(start, it.index() as int),
                start == 0 || is_space(text@[start - 1]),
                forall|k: int| start <= k < it.index() ==> !is_space(#[trigger] text@[k]),
                forall|c: int| 0 <= c < n ==> (#[trigger] marks@[c] == found_before(cats[c], text@, it.index() as int)),
        {
            let ghost i = it.index() as int;
            assert(text@[i] == ch);
            if is_space_char(ch) {
                if token.len() > 0 {
                    assert(is_token(text@, start, i));
                    self.mark_token(&token, &mut marks);
                } else {
                    assert(start == i);
                }
                proof {
                    assert forall|c: int| 0 <= c < n implies (#[trigger] marks@[c] == found_before(cats[c], text@, i + 1)) by {
                        if found_before(cats[c], text@, i + 1) {
                            let (a, b) = choose|a: int, b: int| is_token(text@, a, b) && b < i + 1 && cats[c].contains(#[trigger] text@.subrange(a, b));
                            if b == i {
                                lemma_token_end(text@, start, i, a);
                            } else {
                                assert(found_before(cats[c], text@, i));
                            }
                        }
                        if found_before(cats[c], text@, i) {
                            let (a, b) = choose|a: int, b: int| is_token(text@, a, b) && b < i && cats[c].contains(#[trigger] text@.subrange(a, b));
                            assert(found_before(cats[c], text@, i + 1));
                        }
                        if token@.len() > 0 && cats[c].contains(token@) {
                            assert(cats[c].contains(text@.subrange(start, i)));
                            assert(found_before(cats[c], text@, i + 1));
                        }
                    }
                    start = i + 1;
                }
                token.clear();
            } else {
                token.push(ch);
                proof {
                    assert(token@ =~= text@.subrange(start, i + 1));
                    assert forall|c: int| 0 <= c < n implies (#[trigger] marks@[c] == found_before(cats[c], text@, i + 1)) by {
                        if found_before(cats[c], text@, i + 1) {
                            let (a, b) = choose|a: int, b: int| is_token(text@, a, b) && b < i + 1 && cats[c].contains(#[trigger] text@.subrange(a, b));
                            assert(b != i);
                            assert(found_before(cats[c], text@, i));
                        }
                        if found_before(cats[c], text@, i) {
                            let (a, b) = choose|a: int, b: int| is_token(text@, a, b) && b < i && cats[c].contains(#[trigger] text@.subrange(a, b));
                            assert(found_before(cats[c], text@, i + 1));
                        }
                    }
                }
            }
        }
        let ghost len = text@.len() as int;
        if token.len() > 0 {
            assert(is_token(text@, start, len));
            self.mark_token(&token, &mut marks);
        }
        proof {
            assert forall|c: int| 0 <= c < n implies (#[trigger] marks@[c] == category_matches(cats[c], text@)) by {
                lemma_category_matches_tokens(cats[c], text@);
                if category_matches(cats[c], text@) {
                    let (a, b) = choose|a: int, b: int| is_token(text@, a, b) && cats[c].contains(#[trigger] text@.subrange(a, b));
                    if b == len {
                        lemma_token_end(text@, start, len, a);
                    } else {
                        assert(found_before(cats[c], text@, len));
                    }
                }
                if found_before(cats[c], text@, len) {
                    let (a, b) = choose|a: int, b: int| is_token(text@, a, b) && b < len && cats[c].contains(#[trigger] text@.subrange(a, b));
                }
                if token@.len() > 0 && cats[c].contains(token@) {
                    assert(cats[c].contains(text@.subrange(start, len)));
                }
            }
        }
        let mut r: Vec<usize> = Vec::new();
        let mut c: usize = 0;
        while c < n
            invariant
                n == cats.len(),
                marks@.len() == n,
                c <= n,
                forall|k: int| 0 <= k < n ==> (#[trigger] marks@[k] == category_matches(cats[k], text@)),
                forall|i: int, j: int| 0 <= i < j < r@.len() ==> r@[i] < r@[j],
                forall|k: int| 0 <= k < r@.len() ==> r@[k] < c,
                forall|x: usize| #[trigger] r@.contains(x) <==> (x < c && category_matches(cats[x as int], text@)),
                r@.len() == matched_count(cats, text@, c as int),
            decreases n - c,
        {
            if marks[c] {
                let ghost r0 = r@;
                r.push(c);
                assert forall|x: usize| #[trigger] r@.contains(x) <==> (x < c + 1 && category_matches(cats[x as int], text@)) by {
                    if x == c {
                        assert(r@[r@.len() - 1] == x);
                        assert(marks@[c as int]);
                    }
                    if r@.contains(x) && x != c {
                        let k = choose|k: int| 0 <= k < r@.len() && r@[k] == x;
                        assert(r0[k] == x);
                        assert(r0.contains(x));
                    }
                    if x < c && category_matches(cats[x as int], text@) {
                        assert(r0.contains(x));
                        let k = choose|k: int| 0 <= k < r0.len() && r0[k] == x;
                        assert(r@[k] == x);
                    }
                }
            } else {
                assert(!category_matches(cats[c as int], text@));
            }
            c = c + 1;
        }
        r
    }
}

/// Builds the index of `categories`; a category without keywords is refused,
/// the first such one being reported.
pub fn build_index(categories: &Vec<Category>) -> (r: Result<CategoryIndex, ScoringError>)
    ensures
        r is Ok <==> forall|c: int| 0 <= c < categories@.len() ==> #[trigger] categories@[c].keywords@.len() > 0,
        r matches Ok(idx) ==> idx.wf() && idx@ == categories_view(categories@),
        r matches Err(e) ==> exists|c: int|
            {
                &&& 0 <= c < categories@.len()
                &&& e == (ScoringError::InvalidCategory { category: c as usize })
                &&& categories@[c].keywords@.len() == 0
                &&& forall|b: int| 0 <= b < c ==> #[trigger] categories@[b].keywords@.len() > 0
            },
{
    let n = categories.len();
    let mut c: usize = 0;
    while c < n
        invariant
            n == categories@.len(),
            c <= n,
            forall|b: int| 0 <= b < c ==> #[trigger] categories@[b].keywords@.len() > 0,
        decreases n - c,
    {
        if categories[c].keywords.len() == 0 {
            return Err(ScoringError::InvalidCategory { category: c });
        }
        c = c + 1;
    }
    let ghost cats = categories_view(categories@);
    let mut keywords: Vec<Vec<char>> = Vec::new();
    let mut lists: Vec<Vec<usize>> = Vec::new();
    let mut c: usize = 0;
    while c < n
        invariant
            n == categories@.len(),
            cats == categories_view(categories@),
            c <= n,
            table_state(keyword_views(keywords@), list_views(lists@), cats, c as int, 0),
        decreases n - c,
    {
        let kws = &categories[c].keywords;
        let mut j: usize = 0;
        while j < kws.len()
            invariant
                n == categories@.len(),
                cats == categories_view(categories@),
                c < n,
                kws == categories@[c as int].keywords,
                cats[c as int] == kws@.map_values(|k: String| k@),
                j <= kws@.len(),
                table_state(keyword_views(keywords@), list_views(lists@), cats, c as int, j as int),
            decreases kws.len() - j,
        {
            let kw = chars_of(kws[j].as_str());
            enter_keyword(&mut keywords, &mut lists, kw, Ghost(cats), c, Ghost(j as int));
            j = j + 1;
        }
        proof {
            let cc = c as int;
            assert(cats[cc].take(j as int) =~= cats[cc]);
            assert(cats[cc + 1].take(0) =~= Seq::<Seq<char>>::empty());
            assert forall|x: int, v: Seq<char>|
                entered(cats, cc, j as int, x, v) == entered(cats, cc + 1, 0, x, v) by {}
            lemma_table_state_ext(keyword_views(keywords@), list_views(lists@), cats, cc, j as int, cc + 1, 0);
        }
        c = c + 1;
    }
    proof {
        let nn = n as int;
        assert(cats[nn].take(0) =~= Seq::<Seq<char>>::empty());
        assert forall|x: int, v: Seq<char>|
            entered(cats, nn, 0, x, v) == entered(cats, cats.len() as int, 0, x, v) by {}
    }
    Ok(CategoryIndex { keywords, lists, num_categories: n, model: Ghost(cats) })
}

} // verus!
