//! Character-level building blocks: the whitespace rule used for
//! tokenization, the lexicographic order on character sequences, and binary
//! search over sorted keys.
use vstd::prelude::*;

verus! {

/// The characters that separate tokens (the Unicode `White_Space` set).
pub open spec fn is_space(c: char) -> bool {
    let u = c as u32;
    (0x09 <= u && u <= 0x0D) || u == 0x20 || u == 0x85 || u == 0xA0 || u == 0x1680
        || (0x2000 <= u && u <= 0x200A) || u == 0x2028 || u == 0x2029 || u == 0x202F
        || u == 0x205F || u == 0x3000
}

/// Executable form of `is_space`.
pub fn is_space_char(c: char) -> (r: bool)
    ensures
        r == is_space(c),
{
    let u = c as u32;
    (0x09 <= u && u <= 0x0D) || u == 0x20 || u == 0x85 || u == 0xA0 || u == 0x1680
        || (0x2000 <= u && u <= 0x200A) || u == 0x2028 || u == 0x2029 || u == 0x202F
        || u == 0x205F || u == 0x3000
}

/// `text[a..b]` is a token: a maximal non-empty run of non-whitespace characters.
pub open spec fn is_token(text: Seq<char>, a: int, b: int) -> bool {
    &&& 0 <= a < b <= text.len()
    &&& forall|k: int| a <= k < b ==> !is_space(#[trigger] text[k])
    &&& a == 0 || is_space(text[a - 1])
    &&& b == text.len() || is_space(text[b])
}

/// `w` occurs in `text` as a whole token.
pub open spec fn has_token(text: Seq<char>, w: Seq<char>) -> bool {
    exists|a: int, b: int| is_token(text, a, b) && text.subrange(a, b) == w
}

/// Copies the characters of `s` into a vector.
pub fn chars_of(s: &str) -> (r: Vec<char>)
    ensures
        r@ == s@,
{
    let mut r: Vec<char> = Vec::new();
    for c in it: s.chars()
        invariant
            r@ == it.seq().take(it.index() as int),
    {
        r.push(c);
    }
    r
}

/// Strict lexicographic order on character sequences, comparing characters
/// by code point; a proper prefix comes first.
pub open spec fn lex_lt(a: Seq<char>, b: Seq<char>) -> bool
    decreases a.len(),
{
    if a.len() == 0 {
        b.len() > 0
    } else if b.len() == 0 {
        false
    } else if a[0] != b[0] {
        a[0] < b[0]
    } else {
        lex_lt(a.drop_first(), b.drop_first())
    }
}

pub proof fn lemma_lex_irreflexive(a: Seq<char>)
    ensures
        !lex_lt(a, a),
    decreases a.len(),
{
    if a.len() > 0 {
        lemma_lex_irreflexive(a.drop_first());
    }
}

pub proof fn lemma_lex_asymmetric(a: Seq<char>, b: Seq<char>)
    requires
        lex_lt(a, b),
    ensures
        !lex_lt(b, a),
    decreases a.len(),
{
    if a.len() > 0 && b.len() > 0 && a[0] == b[0] {
        lemma_lex_asymmetric(a.drop_first(), b.drop_first());
    }
}

pub proof fn lemma_lex_transitive(a: Seq<char>, b: Seq<char>, c: Seq<char>)
    requires
        lex_lt(a, b),
        lex_lt(b, c),
    ensures
        lex_lt(a, c),
    decreases a.len(),
{
    if a.len() > 0 && b.len() > 0 && c.len() > 0 && a[0] == b[0] && b[0] == c[0] {
        lemma_lex_transitive(a.drop_first(), b.drop_first(), c.drop_first());
    }
}

/// Equal prefixes do not decide the order: it is that of the remainders.
proof fn lemma_lex_skip(a: Seq<char>, b: Seq<char>, i: int)
    requires
        0 <= i <= a.len(),
        i <= b.len(),
        a.take(i) == b.take(i),
    ensures
        lex_lt(a, b) == lex_lt(a.skip(i), b.skip(i)),
    decreases i,
{
    if i > 0 {
        assert(a[0] == a.take(i)[0]);
        assert(b[0] == b.take(i)[0]);
        assert(a.drop_first().take(i - 1) =~= a.take(i).drop_first());
        assert(b.drop_first().take(i - 1) =~= b.take(i).drop_first());
        lemma_lex_skip(a.drop_first(), b.drop_first(), i - 1);
        assert(a.drop_first().skip(i - 1) =~= a.skip(i));
        assert(b.drop_first().skip(i - 1) =~= b.skip(i));
    } else {
        assert(a.skip(0) =~= a);
        assert(b.skip(0) =~= b);
    }
}

/// Three-way comparison of `a` and `b` in the order `lex_lt`.
pub fn compare_chars(a: &[char], b: &[char]) -> (r: std::cmp::Ordering)
    ensures
        (r == std::cmp::Ordering::Less) == lex_lt(a@, b@),
        (r == std::cmp::Ordering::Equal) == (a@ == b@),
        (r == std::cmp::Ordering::Greater) == lex_lt(b@, a@),
{
    let mut i: usize = 0;
    while i < a.len() && i < b.len()
        invariant
            i <= a@.len(),
            i <= b@.len(),
            a@.take(i as int) == b@.take(i as int),
        decreases a.len() - i,
    {
        if a[i] != b[i] {
            proof {
                lemma_lex_skip(a@, b@, i as int);
                lemma_lex_skip(b@, a@, i as int);
                assert(a@[i as int] == a@.take(i as int + 1)[i as int]);
                assert(b@[i as int] == b@.take(i as int + 1)[i as int]);
            }
            if a[i] < b[i] {
                return std::cmp::Ordering::Less;
            } else {
                return std::cmp::Ordering::Greater;
            }
        }
        assert(a@.take(i + 1) =~= a@.take(i as int).push(a@[i as int]));
        assert(b@.take(i + 1) =~= b@.take(i as int).push(b@[i as int]));
        i = i + 1;
    }
    proof {
        lemma_lex_skip(a@, b@, i as int);
        lemma_lex_skip(b@, a@, i as int);
    }
    if a.len() == b.len() {
        assert(a@ =~= a@.take(i as int));
        assert(b@ =~= b@.take(i as int));
        proof { lemma_lex_irreflexive(a@); }
        std::cmp::Ordering::Equal
    } else if i == a.len() {
        assert(a@ != b@);
        std::cmp::Ordering::Less
    } else {
        assert(a@ != b@);
        std::cmp::Ordering::Greater
    }
}

/// The sequences of `keys` are in strictly increasing order.
pub open spec fn strictly_sorted(keys: Seq<Seq<char>>) -> bool {
    forall|i: int, k: int| 0 <= i < k < keys.len() ==> lex_lt(#[trigger] keys[i], #[trigger] keys[k])
}

/// Binary search for `key` in the sorted `keys`: `Ok` with its position, or
/// `Err` with the position where it would be inserted.
pub fn search_sorted(keys: &Vec<Vec<char>>, key: &[char]) -> (r: Result<usize, usize>)
    requires
        strictly_sorted(keys@.map_values(|k: Vec<char>| k@)),
    ensures
        match r {
            Ok(i) => i < keys@.len() && keys@[i as int]@ == key@,
            Err(i) => {
                &&& i <= keys@.len()
                &&& forall|k: int| 0 <= k < i ==> lex_lt(#[trigger] keys@[k]@, key@)
                &&& forall|k: int| i <= k < keys@.len() ==> lex_lt(key@, #[trigger] keys@[k]@)
                &&& forall|k: int| 0 <= k < keys@.len() ==> #[trigger] keys@[k]@ != key@
            },
        },
{
    let ghost ks = keys@.map_values(|k: Vec<char>| k@);
    assert(forall|k: int| 0 <= k < keys@.len() ==> #[trigger] keys@[k]@ == ks[k]);
    let mut lo: usize = 0;
    let mut hi: usize = keys.len();
    while lo < hi
        invariant
            lo <= hi <= keys@.len(),
            ks == keys@.map_values(|k: Vec<char>| k@),
            strictly_sorted(ks),
            forall|k: int| 0 <= k < lo ==> lex_lt(#[trigger] keys@[k]@, key@),
            forall|k: int| hi <= k < keys@.len() ==> lex_lt(key@, #[trigger] keys@[k]@),
        decreases hi - lo,
    {
        let mid = lo + (hi - lo) / 2;
        match compare_chars(keys[mid].as_slice(), key) {
            std::cmp::Ordering::Less => {
                assert forall|k: int| 0 <= k < mid + 1 implies lex_lt(#[trigger] keys@[k]@, key@) by {
                    if k < mid {
                        assert(lex_lt(ks[k], ks[mid as int]));
                        lemma_lex_transitive(keys@[k]@, keys@[mid as int]@, key@);
                    }
                }
                lo = mid + 1;
            },
            std::cmp::Ordering::Equal => {
                return Ok(mid);
            },
            std::cmp::Ordering::Greater => {
                assert forall|k: int| mid <= k < keys@.len() implies lex_lt(key@, #[trigger] keys@[k]@) by {
                    if k > mid {
                        assert(lex_lt(ks[mid as int], ks[k]));
                        lemma_lex_transitive(key@, keys@[mid as int]@, keys@[k]@);
                    }
                }
                hi = mid;
            },
        }
    }
    assert forall|k: int| 0 <= k < keys@.len() implies #[trigger] keys@[k]@ != key@ by {
        lemma_lex_irreflexive(key@);
    }
    Err(lo)
}

} // verus!
