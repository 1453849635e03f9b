//! The ranked multi-token search engine: per-token fuzzy subsequence or
//! substring matching, fixed-point integer scoring (one point stands for a
//! hundredth of a scoring unit), multi-token order/compactness aggregation,
//! and exact bounded top-K selection.
//!
//! Score arithmetic saturates at the `i128` range ends instead of wrapping;
//! `sat` in the specifications names that clamping.

use vstd::prelude::*;

verus! {

use vstd::string::StringSliceAdditionalSpecFns;
use crate::entry::FileEntry;
use crate::indexer::FileIndexer;
use crate::text::{
    spec_tokens,
    tokenize,
    chars_of,
    lowercase_for_search,
    search_key,
    matches_at,
    has_substring,
    find_substring,
};

/// Options of one search invocation; a pure value copied per search, so
/// mutating it never affects an in-flight search.
#[derive(Clone, Copy, Debug, PartialEq, Eq, Structural)]
pub struct SearchOptions {
    pub case_sensitive: bool,
    pub regex: bool,
    pub path_search: bool,
    pub fuzzy: bool,
    pub max_results: usize,
}

/// The default options: case-insensitive fuzzy name search returning at most
/// five hundred results.
pub open spec fn spec_default_options() -> SearchOptions {
    SearchOptions {
        case_sensitive: false,
        regex: false,
        path_search: false,
        fuzzy: true,
        max_results: 500,
    }
}

impl Default for SearchOptions {
    fn default() -> (r: Self)
        ensures
            r == spec_default_options(),
    {
        SearchOptions {
            case_sensitive: false,
            regex: false,
            path_search: false,
            fuzzy: true,
            max_results: 500,
        }
    }
}

/// Which field of the entry a result matched on.
#[derive(Clone, Copy, Debug, PartialEq, Eq, Structural)]
pub enum MatchType {
    Name,
    Path,
    Extension,
}

/// One ranked search result: the matched entry, its position in the entry
/// table, its score, and the field that matched.
pub struct SearchResult {
    pub entry: FileEntry,
    pub entry_index: usize,
    pub score: i128,
    pub match_type: MatchType,
}

impl Clone for SearchResult {
    fn clone(&self) -> (r: Self)
        ensures
            r == *self,
    {
        SearchResult {
            entry: self.entry.clone(),
            entry_index: self.entry_index,
            score: self.score,
            match_type: self.match_type,
        }
    }
}

/// The search engine: a bundle of options.
pub struct Searcher {
    pub options: SearchOptions,
}

impl Searcher {
    /// A searcher with the default options.
    pub fn new() -> (r: Self)
        ensures
            r.options == spec_default_options(),
    {
        Searcher { options: SearchOptions::default() }
    }

    /// Replaces the options used by subsequent searches.
    pub fn set_options(&mut self, options: SearchOptions)
        ensures
            final(self).options == options,
    {
        self.options = options;
    }
}

/// Clamps a mathematical integer into the `i128` range.
pub open spec fn sat(x: int) -> int {
    if x > i128::MAX as int {
        i128::MAX as int
    } else if x < i128::MIN as int {
        i128::MIN as int
    } else {
        x
    }
}

/// Saturating addition.
fn add_sat(a: i128, b: i128) -> (r: i128)
    ensures
        r as int == sat(a as int + b as int),
{
    if b >= 0 {
        if a > i128::MAX - b {
            i128::MAX
        } else {
            a + b
        }
    } else {
        if a < i128::MIN - b {
            i128::MIN
        } else {
            a + b
        }
    }
}

/// Saturating subtraction.
fn sub_sat(a: i128, b: i128) -> (r: i128)
    ensures
        r as int == sat(a as int - b as int),
{
    if b >= 0 {
        if a < i128::MIN + b {
            i128::MIN
        } else {
            a - b
        }
    } else {
        if a > i128::MAX + b {
            i128::MAX
        } else {
            a - b
        }
    }
}

/// Saturating product of a non-negative value and a positive constant.
fn mul_sat(a: i128, b: i128) -> (r: i128)
    requires
        a >= 0,
        b > 0,
    ensures
        r as int == sat(a as int * b as int),
{
    if a > i128::MAX / b {
        proof {
            assert(a as int * b as int > i128::MAX as int) by (nonlinear_arith)
                requires
                    a as int > i128::MAX as int / b as int,
                    b as int > 0,
                    a as int >= 0,
            ;
        }
        i128::MAX
    } else {
        proof {
            assert(a as int * b as int <= i128::MAX as int) by (nonlinear_arith)
                requires
                    a as int <= i128::MAX as int / b as int,
                    b as int > 0,
                    a as int >= 0,
            ;
            assert(a as int * b as int >= 0) by (nonlinear_arith)
                requires
                    a as int >= 0,
                    b as int > 0,
            ;
        }
        a * b
    }
}

/// The positions at which the leftmost greedy subsequence match of `needle`
/// places its characters in `hay`, scanning from position `i`.
pub open spec fn greedy_positions(hay: Seq<char>, needle: Seq<char>, i: int) -> Option<Seq<int>>
    decreases hay.len() - i,
{
    if needle.len() == 0 {
        Some(Seq::empty())
    } else if i < 0 || i >= hay.len() {
        None
    } else if hay[i] == needle[0] {
        match greedy_positions(hay, needle.drop_first(), i + 1) {
            Some(ps) => Some(seq![i] + ps),
            None => None,
        }
    } else {
        greedy_positions(hay, needle, i + 1)
    }
}

/// Total slack between consecutive match positions.
pub open spec fn gaps_of(ps: Seq<int>) -> int
    decreases ps.len(),
{
    if ps.len() <= 1 {
        0
    } else {
        (ps[1] - ps[0] - 1) + gaps_of(ps.drop_first())
    }
}

/// Appending a position extends the gap total by the new slack.
proof fn lemma_gaps_push(s: Seq<int>, x: int)
    ensures
        gaps_of(s.push(x)) == gaps_of(s) + if s.len() >= 1 {
            x - s[s.len() - 1] - 1
        } else {
            0int
        },
    decreases s.len(),
{
    if s.len() == 0 {
        assert(s.push(x).len() == 1);
    } else if s.len() == 1 {
        assert(s.push(x)[0] == s[0]);
        assert(s.push(x)[1] == x);
        assert(s.push(x).drop_first() =~= seq![x]);
        assert(gaps_of(seq![x]) == 0);
    } else {
        lemma_gaps_push(s.drop_first(), x);
        assert(s.push(x).drop_first() =~= s.drop_first().push(x));
        assert(s.push(x)[0] == s[0]);
        assert(s.push(x)[1] == s[1]);
    }
}

/// The span, gap count, and endpoints of one fuzzy subsequence match.
#[derive(Clone, Copy, Debug, PartialEq, Eq, Structural)]
pub struct FuzzyHit {
    pub first: usize,
    pub last: usize,
    pub gaps: usize,
}

/// Greedy leftmost subsequence match of `needle` inside `hay`: every needle
/// character must appear, in order; the hit records the first and last
/// matched positions and the total slack between consecutive ones.
pub fn fuzzy_match(hay: &Vec<char>, needle: &Vec<char>) -> (r: Option<FuzzyHit>)
    ensures
        match r {
            Some(h) => {
                &&& needle@.len() > 0
                &&& greedy_positions(hay@, needle@, 0) is Some
                &&& ({
                    let ps = greedy_positions(hay@, needle@, 0)->0;
                    &&& h.first == ps[0]
                    &&& h.last == ps[ps.len() - 1]
                    &&& h.gaps == gaps_of(ps)
                    &&& h.first <= h.last < hay@.len()
                    &&& h.gaps <= h.last
                })
            },
            None => needle@.len() == 0 || greedy_positions(hay@, needle@, 0) is None,
        },
{
    let n = hay.len();
    let m = needle.len();
    if m == 0 {
        return None;
    }
    let ghost full = greedy_positions(hay@, needle@, 0);
    let mut k: usize = 0;
    let mut i: usize = 0;
    let mut first: usize = 0;
    let mut prev: usize = 0;
    let mut gaps: usize = 0;
    let ghost mut found: Seq<int> = Seq::empty();
    proof {
        assert(needle@.skip(0) =~= needle@);
        match greedy_positions(hay@, needle@, 0) {
            Some(rest) => {
                assert(found + rest =~= rest);
            },
            None => {},
        }
    }
    while i < n
        invariant
            n == hay@.len(),
            m == needle@.len(),
            0 < m,
            k < m,
            i <= n,
            full == greedy_positions(hay@, needle@, 0),
            found.len() == k,
            forall|j: int| 0 <= j < k ==> 0 <= #[trigger] found[j] < i,
            forall|j: int| 0 <= j && j + 1 < k ==> #[trigger] found[j] < found[j + 1],
            k == 0 ==> gaps == 0,
            k > 0 ==> first == found[0] && prev == found[k - 1] && gaps == gaps_of(found),
            k > 0 ==> first <= prev < i && gaps <= prev,
            match greedy_positions(hay@, needle@.skip(k as int), i as int) {
                Some(rest) => full == Some(found + rest),
                None => full is None,
            },
        decreases n - i,
    {
        let c = hay[i];
        if c == needle[k] {
            proof {
                assert(needle@.skip(k as int)[0] == needle@[k as int]);
                assert(needle@.skip(k as int).drop_first() =~= needle@.skip(k as int + 1));
            }
            if k > 0 {
                gaps = gaps + (i - (prev + 1));
            } else {
                first = i;
            }
            proof {
                lemma_gaps_push(found, i as int);
                let prior = found;
                let next = prior.push(i as int);
                assert(next.len() == k + 1);
                assert(next[k as int] == i as int);
                assert forall|j: int| 0 <= j < k implies #[trigger] next[j] == prior[j] by {
                    assert(0 <= j < prior.len());
                }
                assert forall|j: int| 0 <= j && j + 1 < k + 1 implies #[trigger] next[j] < next[j
                    + 1] by {
                    if j + 1 < k {
                        assert(next[j] == prior[j] && next[j + 1] == prior[j + 1]);
                    } else {
                        assert(j + 1 == k);
                        if k > 0 {
                            assert(next[j] == prior[j]);
                            assert(prior[j] < i as int);
                        }
                        assert(next[j + 1] == i as int);
                    }
                }
                match greedy_positions(hay@, needle@.skip(k as int), i as int) {
                    Some(rest) => {
                        assert(rest[0] == i as int);
                        match greedy_positions(hay@, needle@.skip(k + 1), i + 1) {
                            Some(rest2) => {
                                assert(rest =~= seq![i as int] + rest2);
                                assert(prior + rest =~= next + rest2);
                            },
                            None => {},
                        }
                    },
                    None => {},
                }
                found = next;
            }
            prev = i;
            k = k + 1;
            if k == m {
                proof {
                    assert(needle@.skip(k as int).len() == 0);
                    assert(greedy_positions(hay@, needle@.skip(k as int), i + 1) == Some(
                        Seq::<int>::empty(),
                    ));
                    assert(found + Seq::<int>::empty() =~= found);
                    assert(full == Some(found));
                }
                return Some(FuzzyHit { first, last: prev, gaps });
            }
        }
        i = i + 1;
    }
    proof {
        assert(needle@.skip(k as int).len() > 0);
        assert(greedy_positions(hay@, needle@.skip(k as int), i as int) is None);
    }
    None
}

/// The views of a vector of token vectors.
pub open spec fn tok_views(ts: Seq<Vec<char>>) -> Seq<Seq<char>> {
    Seq::new(ts.len(), |i: int| ts[i]@)
}

/// The accepted hit of one token, `(first, last, gaps)`: the greedy
/// subsequence match, rejected when a short token (two characters or fewer)
/// matched with slack, or when the match span exceeds ten times the token
/// length plus twenty.
pub open spec fn spec_token_hit(hay: Seq<char>, tok: Seq<char>) -> Option<(int, int, int)> {
    if tok.len() == 0 {
        None
    } else {
        match greedy_positions(hay, tok, 0) {
            Some(ps) => {
                let first = ps[0];
                let last = ps[ps.len() - 1];
                let g = gaps_of(ps);
                let span = last - first + 1;
                if tok.len() <= 2 && g != 0 {
                    None
                } else if span > tok.len() * 10 + 20 {
                    None
                } else {
                    Some((first, last, g))
                }
            },
            None => None,
        }
    }
}

/// Score of one matched token: a base award plus a compactness share and an
/// early-position bonus, minus a slack penalty; gap-free matches earn a flat
/// extra.
pub open spec fn spec_token_score(first: int, last: int, gaps: int, nlen: int) -> int {
    let span = last - first + 1;
    let raw = nlen * 6000 / span;
    let compact = if raw > 6000 {
        6000int
    } else {
        raw
    };
    let start_bonus = 3000int / (1 + first);
    let base = 4000 + compact + start_bonus - gaps * 150;
    if gaps == 0 {
        base + 2000
    } else {
        base
    }
}

/// One accepted token match with its position data and score.
#[derive(Clone, Copy, Debug)]
pub struct TokenMatch {
    pub query_index: usize,
    pub first: usize,
    pub last: usize,
    pub gaps: usize,
    pub nlen: usize,
    pub score: i128,
}

/// Matches one token fuzzily against the haystack and scores the hit.
pub fn fuzzy_token_match(hay: &Vec<char>, tok: &Vec<char>, query_index: usize) -> (r: Option<
    TokenMatch,
>)
    ensures
        match r {
            Some(m) => {
                &&& spec_token_hit(hay@, tok@) == Some(
                    (m.first as int, m.last as int, m.gaps as int),
                )
                &&& m.score as int == spec_token_score(
                    m.first as int,
                    m.last as int,
                    m.gaps as int,
                    tok@.len() as int,
                )
                &&& m.query_index == query_index
                &&& m.nlen == tok@.len()
                &&& m.first <= m.last < hay@.len()
                &&& m.gaps <= m.last
            },
            None => spec_token_hit(hay@, tok@) is None,
        },
{
    let nlen = tok.len();
    if nlen == 0 {
        return None;
    }
    let h = match fuzzy_match(hay, tok) {
        Some(h) => h,
        None => {
            return None;
        },
    };
    if nlen <= 2 && h.gaps != 0 {
        return None;
    }
    let first_i: i128 = h.first as i128;
    let last_i: i128 = h.last as i128;
    let gaps_i: i128 = h.gaps as i128;
    let nlen_i: i128 = nlen as i128;
    let span: i128 = last_i - first_i + 1;
    if span > nlen_i * 10 + 20 {
        return None;
    }
    let raw: i128 = nlen_i * 6000 / span;
    let compact: i128 = if raw > 6000 {
        6000
    } else {
        raw
    };
    let start_bonus: i128 = 3000 / (1 + first_i);
    let mut score: i128 = 4000 + compact + start_bonus - gaps_i * 150;
    if h.gaps == 0 {
        score = score + 2000;
    }
    Some(TokenMatch { query_index, first: h.first, last: h.last, gaps: h.gaps, nlen, score })
}

/// Substring score of one token: a prefix hit outranks an interior hit.
pub open spec fn spec_substr_score(hay: Seq<char>, tok: Seq<char>) -> Option<int> {
    if tok.len() == 0 {
        None
    } else if matches_at(hay, tok, 0) {
        Some(8000int)
    } else if has_substring(hay, tok) {
        Some(5000int)
    } else {
        None
    }
}

/// Sum of the substring scores of the tokens from `j` on; every token must
/// match.
pub open spec fn substr_sum(hay: Seq<char>, toks: Seq<Seq<char>>, j: int, acc: int) -> Option<int>
    decreases toks.len() - j,
{
    if j < 0 || j >= toks.len() {
        Some(acc)
    } else {
        match spec_substr_score(hay, toks[j]) {
            Some(v) => substr_sum(hay, toks, j + 1, sat(acc + v)),
            None => None,
        }
    }
}

/// Scores all tokens in substring mode; `None` when any token misses.
fn substring_tokens_score(hay: &Vec<char>, tokens: &Vec<Vec<char>>) -> (r: Option<i128>)
    ensures
        match r {
            Some(v) => substr_sum(hay@, tok_views(tokens@), 0, 0) == Some(v as int),
            None => substr_sum(hay@, tok_views(tokens@), 0, 0) is None,
        },
{
    let ghost toks = tok_views(tokens@);
    let mut acc: i128 = 0;
    let mut j: usize = 0;
    while j < tokens.len()
        invariant
            j <= tokens@.len(),
            toks == tok_views(tokens@),
            substr_sum(hay@, toks, 0, 0) == substr_sum(hay@, toks, j as int, acc as int),
        decreases tokens@.len() - j,
    {
        let tok = &tokens[j];
        proof {
            assert(toks[j as int] == tokens@[j as int]@);
        }
        if tok.len() == 0 {
            return None;
        }
        let score: i128 = match find_substring(hay, tok) {
            Some(p) => {
                if p == 0 {
                    8000
                } else {
                    proof {
                        assert(!matches_at(hay@, tok@, 0));
                    }
                    5000
                }
            },
            None => {
                proof {
                    assert(!matches_at(hay@, tok@, 0));
                }
                return None;
            },
        };
        acc = add_sat(acc, score);
        j = j + 1;
    }
    Some(acc)
}

/// The model of one accepted token match:
/// `(query index, first, last, gaps, token length)`.
pub open spec fn tm_model(m: TokenMatch) -> (int, int, int, int, int) {
    (m.query_index as int, m.first as int, m.last as int, m.gaps as int, m.nlen as int)
}

/// The models of a vector of token matches.
pub open spec fn tm_models(v: Seq<TokenMatch>) -> Seq<(int, int, int, int, int)> {
    Seq::new(v.len(), |i: int| tm_model(v[i]))
}

/// The accepted hits of the tokens from `j` on, in query order.
pub open spec fn spec_hits(hay: Seq<char>, toks: Seq<Seq<char>>, j: int) -> Seq<
    (int, int, int, int, int),
>
    decreases toks.len() - j,
{
    if j < 0 || j >= toks.len() {
        Seq::empty()
    } else {
        let rest = spec_hits(hay, toks, j + 1);
        match spec_token_hit(hay, toks[j]) {
            Some(h) => seq![(j, h.0, h.1, h.2, toks[j].len() as int)] + rest,
            None => rest,
        }
    }
}

/// Score of one hit.
pub open spec fn hit_score(h: (int, int, int, int, int)) -> int {
    spec_token_score(h.1, h.2, h.3, h.4)
}

/// Saturating sum of the hit scores from `k` on, starting from `acc`.
pub open spec fn base_of(hits: Seq<(int, int, int, int, int)>, k: int, acc: int) -> int
    decreases hits.len() - k,
{
    if k < 0 || k >= hits.len() {
        acc
    } else {
        base_of(hits, k + 1, sat(acc + hit_score(hits[k])))
    }
}

/// Least first-position among the hits from `k` on, folded into `acc`.
pub open spec fn min_first_of(hits: Seq<(int, int, int, int, int)>, k: int, acc: int) -> int
    decreases hits.len() - k,
{
    if k < 0 || k >= hits.len() {
        acc
    } else {
        min_first_of(
            hits,
            k + 1,
            if hits[k].1 < acc {
                hits[k].1
            } else {
                acc
            },
        )
    }
}

/// Greatest last-position among the hits from `k` on, folded into `acc`.
pub open spec fn max_last_of(hits: Seq<(int, int, int, int, int)>, k: int, acc: int) -> int
    decreases hits.len() - k,
{
    if k < 0 || k >= hits.len() {
        acc
    } else {
        max_last_of(
            hits,
            k + 1,
            if hits[k].2 > acc {
                hits[k].2
            } else {
                acc
            },
        )
    }
}

/// Saturating sum of the token lengths of the hits from `k` on.
pub open spec fn total_nlen_of(hits: Seq<(int, int, int, int, int)>, k: int, acc: int) -> int
    decreases hits.len() - k,
{
    if k < 0 || k >= hits.len() {
        acc
    } else {
        total_nlen_of(hits, k + 1, sat(acc + hits[k].4))
    }
}

/// Order of hits on the haystack: by first position, ties by query index.
pub open spec fn hit_before(a: (int, int, int, int, int), b: (int, int, int, int, int)) -> bool {
    a.1 < b.1 || (a.1 == b.1 && a.0 < b.0)
}

/// Inserts a hit in front of the first element it does not come after.
pub open spec fn insert_hit(
    x: (int, int, int, int, int),
    s: Seq<(int, int, int, int, int)>,
) -> Seq<(int, int, int, int, int)>
    decreases s.len(),
{
    if s.len() == 0 {
        seq![x]
    } else if hit_before(s[0], x) {
        seq![s[0]] + insert_hit(x, s.drop_first())
    } else {
        seq![x] + s
    }
}

/// Insertion-sorts the hits from `j` on into `acc`.
pub open spec fn sort_hits_from(
    s: Seq<(int, int, int, int, int)>,
    j: int,
    acc: Seq<(int, int, int, int, int)>,
) -> Seq<(int, int, int, int, int)>
    decreases s.len() - j,
{
    if j < 0 || j >= s.len() {
        acc
    } else {
        sort_hits_from(s, j + 1, insert_hit(s[j], acc))
    }
}

/// Saturating count of query-order inversions of `s[a]` against `s[b..]`.
pub open spec fn inv_row(s: Seq<(int, int, int, int, int)>, a: int, b: int, acc: int) -> int
    decreases s.len() - b,
{
    if a < 0 || a >= s.len() || b < 0 || b >= s.len() {
        acc
    } else {
        inv_row(
            s,
            a,
            b + 1,
            if s[a].0 > s[b].0 {
                sat(acc + 1)
            } else {
                acc
            },
        )
    }
}

/// Saturating count of all query-order inversions among the rows from `a`.
pub open spec fn inv_all(s: Seq<(int, int, int, int, int)>, a: int, acc: int) -> int
    decreases s.len() - a,
{
    if a < 0 || a >= s.len() {
        acc
    } else {
        inv_all(s, a + 1, inv_row(s, a, a + 1, acc))
    }
}

/// Saturating sum of the slack between consecutive hits in haystack order.
pub open spec fn gap_sum_of(s: Seq<(int, int, int, int, int)>, w: int, acc: int) -> int
    decreases s.len() - w,
{
    if w < 0 || w + 1 >= s.len() {
        acc
    } else {
        let g = if s[w + 1].1 > s[w].2 + 1 {
            s[w + 1].1 - (s[w].2 + 1)
        } else {
            0int
        };
        gap_sum_of(s, w + 1, sat(acc + g))
    }
}

/// The multi-token fuzzy score: each matched token adds its own score plus a
/// flat award, each missing token costs a flat penalty; for one or two
/// tokens all must match, from three on one may miss. Two or more matched
/// tokens additionally earn an aggregate compactness share, lose on the
/// overall span excess, lose per query-order inversion (with a flat bonus
/// when there is none), and lose per unit of slack between consecutive
/// matches.
pub open spec fn spec_fuzzy_tokens_score(hay: Seq<char>, toks: Seq<Seq<char>>) -> Option<int> {
    if toks.len() == 0 {
        None
    } else {
        let required: int = if toks.len() <= 2 {
            toks.len() as int
        } else {
            toks.len() - 1
        };
        let hits = spec_hits(hay, toks, 0);
        let matched = hits.len() as int;
        let missing = toks.len() - matched;
        if matched < required {
            None
        } else {
            let s1 = sat(base_of(hits, 0, 0) + matched * 1800);
            let s2 = sat(s1 - missing * 2800);
            if matched < 2 {
                Some(s2)
            } else {
                let minf = min_first_of(hits, 0, usize::MAX as int);
                let maxl = max_last_of(hits, 0, 0);
                let tot = total_nlen_of(hits, 0, 0);
                let span = (if maxl >= minf {
                    maxl - minf
                } else {
                    0int
                }) + 1;
                let t = if tot >= 1 {
                    tot
                } else {
                    1int
                };
                let compact = if t >= span {
                    9000int
                } else {
                    t * 9000 / span
                };
                let s3 = sat(s2 + compact);
                let excess = if span > t {
                    (span - t) * 60
                } else {
                    0int
                };
                let s4 = sat(s3 - excess);
                let sorted = sort_hits_from(hits, 0, Seq::empty());
                let inv = inv_all(sorted, 0, 0);
                let s5 = sat(s4 - sat(inv * 1600));
                let s6 = if inv == 0 {
                    sat(s5 + 1000)
                } else {
                    s5
                };
                let gsum = gap_sum_of(sorted, 0, 0);
                let s7 = sat(s6 - sat(gsum * 70));
                Some(s7)
            }
        }
    }
}

/// Splitting an insertion-sorted insert at the found position.
proof fn lemma_insert_hit_at(
    x: (int, int, int, int, int),
    s: Seq<(int, int, int, int, int)>,
    pos: int,
)
    requires
        0 <= pos <= s.len(),
        forall|j: int| 0 <= j < pos ==> hit_before(#[trigger] s[j], x),
        pos < s.len() ==> !hit_before(s[pos], x),
    ensures
        insert_hit(x, s) =~= s.take(pos) + seq![x] + s.skip(pos),
    decreases pos,
{
    if pos == 0 {
        if s.len() == 0 {
            assert(insert_hit(x, s) == seq![x]);
        } else {
            assert(!hit_before(s[0], x));
        }
    } else {
        assert(hit_before(s[0], x));
        let d = s.drop_first();
        assert forall|j: int| 0 <= j < pos - 1 implies hit_before(#[trigger] d[j], x) by {
            assert(d[j] == s[j + 1]);
        }
        if pos - 1 < d.len() {
            assert(d[pos - 1] == s[pos]);
        }
        lemma_insert_hit_at(x, d, pos - 1);
        assert(insert_hit(x, s) == seq![s[0]] + insert_hit(x, d));
        assert(seq![s[0]] + (d.take(pos - 1) + seq![x] + d.skip(pos - 1)) =~= s.take(pos) + seq![x]
            + s.skip(pos));
    }
}

/// Inserts a match into a vector kept in haystack order.
fn insert_by_pos(v: &mut Vec<TokenMatch>, m: TokenMatch)
    ensures
        tm_models(final(v)@) == insert_hit(tm_model(m), tm_models(old(v)@)),
        final(v)@.len() == old(v)@.len() + 1,
        forall|k: int|
            0 <= k < final(v)@.len() ==> #[trigger] final(v)@[k] == m || exists|j: int|
                0 <= j < old(v)@.len() && old(v)@[j] == final(v)@[k],
{
    let n = v.len();
    let mut pos: usize = 0;
    loop
        invariant_except_break
            pos <= n,
            n == v@.len(),
            forall|j: int| 0 <= j < pos ==> hit_before(#[trigger] tm_models(v@)[j], tm_model(m)),
        ensures
            pos <= n,
            n == v@.len(),
            forall|j: int| 0 <= j < pos ==> hit_before(#[trigger] tm_models(v@)[j], tm_model(m)),
            pos < n ==> !hit_before(tm_models(v@)[pos as int], tm_model(m)),
        decreases n - pos,
    {
        if pos >= n {
            break ;
        }
        let before = v[pos].first < m.first || (v[pos].first == m.first && v[pos].query_index
            < m.query_index);
        proof {
            assert(tm_models(v@)[pos as int] == tm_model(v@[pos as int]));
            assert(before == hit_before(tm_models(v@)[pos as int], tm_model(m)));
        }
        if !before {
            break ;
        }
        pos = pos + 1;
    }
    proof {
        lemma_insert_hit_at(tm_model(m), tm_models(v@), pos as int);
    }
    let ghost prior = v@;
    v.insert(pos, m);
    proof {
        assert(v@ =~= prior.take(pos as int) + seq![m] + prior.skip(pos as int));
        assert(tm_models(v@) =~= tm_models(prior).take(pos as int) + seq![tm_model(m)] + tm_models(
            prior,
        ).skip(pos as int)) by {
            assert forall|k: int| 0 <= k < v@.len() implies tm_models(v@)[k] == (tm_models(
                prior,
            ).take(pos as int) + seq![tm_model(m)] + tm_models(prior).skip(pos as int))[k] by {
                if k < pos {
                    assert(v@[k] == prior[k]);
                } else if k == pos {
                    assert(v@[k] == m);
                } else {
                    assert(v@[k] == prior[k - 1]);
                }
            }
        }
        assert forall|k: int| 0 <= k < v@.len() implies #[trigger] v@[k] == m || exists|j: int|
            0 <= j < prior.len() && prior[j] == v@[k] by {
            if k < pos {
                assert(prior[k] == v@[k]);
            } else if k > pos {
                assert(prior[k - 1] == v@[k]);
            }
        }
    }
}

/// Scores all tokens in fuzzy mode against one haystack.
pub fn fuzzy_tokens_score(hay: &Vec<char>, tokens: &Vec<Vec<char>>) -> (r: Option<i128>)
    ensures
        match r {
            Some(v) => spec_fuzzy_tokens_score(hay@, tok_views(tokens@)) == Some(v as int),
            None => spec_fuzzy_tokens_score(hay@, tok_views(tokens@)) is None,
        },
{
    let ghost toks = tok_views(tokens@);
    let ntok = tokens.len();
    if ntok == 0 {
        return None;
    }
    let required: usize = if ntok <= 2 {
        ntok
    } else {
        ntok - 1
    };
    let ghost hits_full = spec_hits(hay@, toks, 0);
    let mut matches: Vec<TokenMatch> = Vec::new();
    let ghost mut hs: Seq<(int, int, int, int, int)> = Seq::empty();
    let mut base: i128 = 0;
    let mut missing: usize = 0;
    let mut j: usize = 0;
    proof {
        assert(hs + spec_hits(hay@, toks, 0) =~= spec_hits(hay@, toks, 0));
    }
    while j < ntok
        invariant
            ntok == tokens@.len(),
            j <= ntok,
            toks == tok_views(tokens@),
            hits_full == spec_hits(hay@, toks, 0),
            hits_full == hs + spec_hits(hay@, toks, j as int),
            matches@.len() == hs.len(),
            missing + matches@.len() == j,
            forall|k: int| 0 <= k < hs.len() ==> #[trigger] hs[k] == tm_model(matches@[k]),
            forall|k: int|
                0 <= k < matches@.len() ==> (#[trigger] matches@[k]).first <= matches@[k].last
                    < hay@.len() && matches@[k].score as int == hit_score(tm_model(matches@[k])),
            base_of(hits_full, 0, 0) == base_of(hits_full, hs.len() as int, base as int),
        decreases ntok - j,
    {
        let tokj = &tokens[j];
        proof {
            assert(toks[j as int] == tokens@[j as int]@);
        }
        let ghost old_hs = hs;
        match fuzzy_token_match(hay, tokj, j) {
            Some(m) => {
                proof {
                    let hj = (j as int, m.first as int, m.last as int, m.gaps as int, m.nlen as int);
                    assert(spec_hits(hay@, toks, j as int) == seq![hj] + spec_hits(
                        hay@,
                        toks,
                        j + 1,
                    ));
                    hs = hs.push(hj);
                    assert(old_hs + (seq![hj] + spec_hits(hay@, toks, j + 1)) =~= hs + spec_hits(
                        hay@,
                        toks,
                        j + 1,
                    ));
                    assert(hits_full[old_hs.len() as int] == hj) by {
                        assert((old_hs + (seq![hj] + spec_hits(hay@, toks, j + 1)))[old_hs.len() as int]
                            == hj);
                    }
                    assert(hit_score(hj) == m.score as int);
                    assert(base_of(hits_full, old_hs.len() as int, base as int) == base_of(
                        hits_full,
                        old_hs.len() as int + 1,
                        sat(base as int + m.score as int),
                    ));
                }
                base = add_sat(base, m.score);
                matches.push(m);
                proof {
                    assert forall|k: int| 0 <= k < hs.len() implies #[trigger] hs[k] == tm_model(
                        matches@[k],
                    ) by {
                        if k < old_hs.len() {
                            assert(hs[k] == old_hs[k]);
                        }
                    }
                }
            },
            None => {
                missing = missing + 1;
                proof {
                    assert(spec_hits(hay@, toks, j as int) == spec_hits(hay@, toks, j + 1));
                }
            },
        }
        j = j + 1;
    }
    proof {
        assert(spec_hits(hay@, toks, ntok as int) == Seq::<(int, int, int, int, int)>::empty());
        assert(hs + spec_hits(hay@, toks, ntok as int) =~= hs);
        assert(hs == hits_full);
    }
    let matched = matches.len();
    if matched < required {
        return None;
    }
    let mut score: i128 = add_sat(base, (matched as i128) * 1800);
    score = sub_sat(score, (missing as i128) * 2800);
    if matched < 2 {
        return Some(score);
    }
    // aggregate span, compactness
    let mut minf: usize = usize::MAX;
    let mut maxl: usize = 0;
    let mut tot: i128 = 0;
    let mut k: usize = 0;
    while k < matched
        invariant
            matched == matches@.len(),
            k <= matched,
            hs == hits_full,
            matches@.len() == hs.len(),
            forall|q: int| 0 <= q < hs.len() ==> #[trigger] hs[q] == tm_model(matches@[q]),
            min_first_of(hits_full, 0, usize::MAX as int) == min_first_of(
                hits_full,
                k as int,
                minf as int,
            ),
            max_last_of(hits_full, 0, 0) == max_last_of(hits_full, k as int, maxl as int),
            total_nlen_of(hits_full, 0, 0) == total_nlen_of(hits_full, k as int, tot as int),
        decreases matched - k,
    {
        let m = &matches[k];
        proof {
            assert(hs[k as int] == tm_model(matches@[k as int]));
        }
        if m.first < minf {
            minf = m.first;
        }
        if m.last > maxl {
            maxl = m.last;
        }
        tot = add_sat(tot, m.nlen as i128);
        k = k + 1;
    }
    let minf_i: i128 = minf as i128;
    let maxl_i: i128 = maxl as i128;
    let span: i128 = (if maxl_i >= minf_i {
        maxl_i - minf_i
    } else {
        0
    }) + 1;
    let t: i128 = if tot >= 1 {
        tot
    } else {
        1
    };
    let compact: i128 = if t >= span {
        9000
    } else {
        t * 9000 / span
    };
    score = add_sat(score, compact);
    let excess: i128 = if span > t {
        (span - t) * 60
    } else {
        0
    };
    score = sub_sat(score, excess);
    // order the hits along the haystack
    let ghost sorted = sort_hits_from(hits_full, 0, Seq::empty());
    let mut by_pos: Vec<TokenMatch> = Vec::new();
    let mut k2: usize = 0;
    proof {
        assert(tm_models(by_pos@) =~= Seq::<(int, int, int, int, int)>::empty());
    }
    while k2 < matched
        invariant
            matched == matches@.len(),
            k2 <= matched,
            by_pos@.len() == k2,
            hs == hits_full,
            matches@.len() == hs.len(),
            forall|q: int| 0 <= q < hs.len() ==> #[trigger] hs[q] == tm_model(matches@[q]),
            forall|q: int|
                0 <= q < matches@.len() ==> (#[trigger] matches@[q]).first <= matches@[q].last
                    < hay@.len(),
            sorted == sort_hits_from(hits_full, 0, Seq::empty()),
            sorted == sort_hits_from(hits_full, k2 as int, tm_models(by_pos@)),
            forall|q: int|
                0 <= q < by_pos@.len() ==> (#[trigger] by_pos@[q]).first <= by_pos@[q].last
                    < hay@.len(),
        decreases matched - k2,
    {
        let m = matches[k2].clone();
        proof {
            assert(hs[k2 as int] == tm_model(matches@[k2 as int]));
            assert(m == matches@[k2 as int]);
        }
        let ghost prior_models = tm_models(by_pos@);
        insert_by_pos(&mut by_pos, m);
        proof {
            assert(sort_hits_from(hits_full, k2 as int, prior_models) == sort_hits_from(
                hits_full,
                k2 + 1,
                insert_hit(hits_full[k2 as int], prior_models),
            ));
        }
        k2 = k2 + 1;
    }
    proof {
        assert(sorted == tm_models(by_pos@));
        assert(by_pos@.len() == sorted.len());
    }
    let n2 = by_pos.len();
    // inversions of typed order against haystack order
    let mut inv: i128 = 0;
    let mut a: usize = 0;
    while a < n2
        invariant
            n2 == by_pos@.len(),
            a <= n2,
            sorted == tm_models(by_pos@),
            inv >= 0,
            inv_all(sorted, 0, 0) == inv_all(sorted, a as int, inv as int),
        decreases n2 - a,
    {
        let mut b: usize = a + 1;
        let ghost inv_enter = inv as int;
        while b < n2
            invariant
                n2 == by_pos@.len(),
                a < n2,
                a + 1 <= b <= n2,
                sorted == tm_models(by_pos@),
                inv >= 0,
                inv_row(sorted, a as int, a + 1, inv_enter) == inv_row(
                    sorted,
                    a as int,
                    b as int,
                    inv as int,
                ),
            decreases n2 - b,
        {
            proof {
                assert(sorted[a as int] == tm_model(by_pos@[a as int]));
                assert(sorted[b as int] == tm_model(by_pos@[b as int]));
            }
            if by_pos[a].query_index > by_pos[b].query_index {
                inv = add_sat(inv, 1);
            }
            b = b + 1;
        }
        proof {
            assert(inv_row(sorted, a as int, n2 as int, inv as int) == inv as int);
            assert(inv_all(sorted, a as int, inv_enter) == inv_all(sorted, a + 1, inv as int));
        }
        a = a + 1;
    }
    proof {
        assert(inv_all(sorted, n2 as int, inv as int) == inv as int);
    }
    score = sub_sat(score, mul_sat(inv, 1600));
    if inv == 0 {
        score = add_sat(score, 1000);
    }
    // slack between consecutive hits
    let hn = hay.len();
    let mut gsum: i128 = 0;
    let mut w: usize = 0;
    proof {
        assert(n2 >= 2);
    }
    while w < n2 - 1
        invariant
            n2 == by_pos@.len(),
            n2 >= 2,
            hn == hay@.len(),
            w <= n2 - 1,
            sorted == tm_models(by_pos@),
            forall|q: int|
                0 <= q < by_pos@.len() ==> (#[trigger] by_pos@[q]).first <= by_pos@[q].last
                    < hay@.len(),
            gsum >= 0,
            gap_sum_of(sorted, 0, 0) == gap_sum_of(sorted, w as int, gsum as int),
        decreases n2 - w,
    {
        proof {
            assert(sorted[w as int] == tm_model(by_pos@[w as int]));
            assert(sorted[w + 1] == tm_model(by_pos@[w + 1]));
        }
        let prev_last = by_pos[w].last;
        let cur_first = by_pos[w + 1].first;
        let g: i128 = if cur_first > prev_last + 1 {
            (cur_first - (prev_last + 1)) as i128
        } else {
            0
        };
        gsum = add_sat(gsum, g);
        w = w + 1;
    }
    proof {
        assert(gap_sum_of(sorted, w as int, gsum as int) == gsum as int);
    }
    score = sub_sat(score, mul_sat(gsum, 70));
    Some(score)
}

/// Tolerance of the multi-token fuzzy policy: a query of three or more
/// tokens still scores when exactly one token has no accepted hit.
pub proof fn lemma_one_miss_is_tolerated(hay: Seq<char>, toks: Seq<Seq<char>>)
    requires
        toks.len() >= 3,
        spec_hits(hay, toks, 0).len() == toks.len() - 1,
    ensures
        spec_fuzzy_tokens_score(hay, toks) is Some,
{
}

/// Strictness of the multi-token fuzzy policy: a query with two or more
/// tokens lacking an accepted hit never scores.
pub proof fn lemma_two_misses_fail(hay: Seq<char>, toks: Seq<Seq<char>>)
    requires
        spec_hits(hay, toks, 0).len() + 2 <= toks.len(),
    ensures
        spec_fuzzy_tokens_score(hay, toks) is None,
{
}

/// Combined per-haystack token score: every token scored fuzzily or as a
/// substring; an empty token list matches nothing.
pub open spec fn spec_tokens_score(hay: Seq<char>, toks: Seq<Seq<char>>, fuzzy: bool) -> Option<
    int,
> {
    if toks.len() == 0 {
        None
    } else if fuzzy {
        spec_fuzzy_tokens_score(hay, toks)
    } else {
        substr_sum(hay, toks, 0, 0)
    }
}

/// Scores all tokens against one haystack in the selected mode.
fn tokens_score(hay: &Vec<char>, tokens: &Vec<Vec<char>>, fuzzy: bool) -> (r: Option<i128>)
    ensures
        match r {
            Some(v) => spec_tokens_score(hay@, tok_views(tokens@), fuzzy) == Some(v as int),
            None => spec_tokens_score(hay@, tok_views(tokens@), fuzzy) is None,
        },
{
    if tokens.len() == 0 {
        return None;
    }
    if fuzzy {
        fuzzy_tokens_score(hay, tokens)
    } else {
        substring_tokens_score(hay, tokens)
    }
}

/// Flat award of each match kind: a name hit outranks a path hit, which
/// outranks an extension hit.
pub open spec fn spec_type_bonus(mt: MatchType) -> int {
    match mt {
        MatchType::Name => 10000int,
        MatchType::Path => 5000int,
        MatchType::Extension => 3000int,
    }
}

/// Final score of a result: the match-kind award plus the token score,
/// minus a length penalty of one point per byte of the name, capped at a
/// thousand.
pub open spec fn spec_final_score(e: FileEntry, match_score: int, mt: MatchType) -> int {
    let bl = (vstd::utf8::encode_utf8(e.name@).len() as usize) as int;
    let lp = if bl > 1000 {
        1000int
    } else {
        bl
    };
    sat(sat(spec_type_bonus(mt) + match_score) - lp)
}

/// Applies the match-kind award and the name-length penalty.
fn final_score(entry: &FileEntry, match_score: i128, mt: MatchType) -> (r: i128)
    ensures
        r as int == spec_final_score(*entry, match_score as int, mt),
{
    let tb: i128 = match mt {
        MatchType::Name => 10000,
        MatchType::Path => 5000,
        MatchType::Extension => 3000,
    };
    let s = add_sat(tb, match_score);
    let ns = entry.name.as_str();
    let bl = ns.len();
    proof {
        assert(ns@ == entry.name@);
        assert(ns.spec_bytes() == vstd::utf8::encode_utf8(entry.name@));
        assert(tb as int == spec_type_bonus(mt));
    }
    let lp: i128 = if bl > 1000 {
        1000
    } else {
        bl as i128
    };
    sub_sat(s, lp)
}

/// The name haystack: raw when case-sensitive, the lowercase key otherwise.
pub open spec fn spec_name_hay(e: FileEntry, cs: bool) -> Seq<char> {
    if cs {
        e.name@
    } else {
        e.name_lower@
    }
}

/// The path haystack: raw when case-sensitive, the lowercase key otherwise.
pub open spec fn spec_path_hay(e: FileEntry, cs: bool) -> Seq<char> {
    if cs {
        e.path@
    } else {
        e.path_lower@
    }
}

/// The score and match kind of one entry for a tokenized query: only the
/// path when path search is set, otherwise the name first and the path as
/// the fallback.
pub open spec fn spec_candidate(e: FileEntry, opts: SearchOptions, toks: Seq<Seq<char>>) -> Option<
    (int, MatchType),
> {
    if opts.path_search {
        match spec_tokens_score(spec_path_hay(e, opts.case_sensitive), toks, opts.fuzzy) {
            Some(s) => Some((spec_final_score(e, s, MatchType::Path), MatchType::Path)),
            None => None,
        }
    } else {
        match spec_tokens_score(spec_name_hay(e, opts.case_sensitive), toks, opts.fuzzy) {
            Some(s) => Some((spec_final_score(e, s, MatchType::Name), MatchType::Name)),
            None => match spec_tokens_score(
                spec_path_hay(e, opts.case_sensitive),
                toks,
                opts.fuzzy,
            ) {
                Some(s) => Some((spec_final_score(e, s, MatchType::Path), MatchType::Path)),
                None => None,
            },
        }
    }
}

/// Evaluates one entry against the tokenized query.
fn entry_candidate(e: &FileEntry, tokens: &Vec<Vec<char>>, opts: &SearchOptions) -> (r: Option<
    (i128, MatchType),
>)
    ensures
        match r {
            Some(v) => spec_candidate(*e, *opts, tok_views(tokens@)) == Some((v.0 as int, v.1)),
            None => spec_candidate(*e, *opts, tok_views(tokens@)) is None,
        },
{
    if opts.path_search {
        let hay = if opts.case_sensitive {
            chars_of(e.path.as_str())
        } else {
            chars_of(e.path_lower.as_str())
        };
        match tokens_score(&hay, tokens, opts.fuzzy) {
            Some(s) => Some((final_score(e, s, MatchType::Path), MatchType::Path)),
            None => None,
        }
    } else {
        let nhay = if opts.case_sensitive {
            chars_of(e.name.as_str())
        } else {
            chars_of(e.name_lower.as_str())
        };
        match tokens_score(&nhay, tokens, opts.fuzzy) {
            Some(s) => {
                return Some((final_score(e, s, MatchType::Name), MatchType::Name));
            },
            None => {},
        }
        let phay = if opts.case_sensitive {
            chars_of(e.path.as_str())
        } else {
            chars_of(e.path_lower.as_str())
        };
        match tokens_score(&phay, tokens, opts.fuzzy) {
            Some(s) => Some((final_score(e, s, MatchType::Path), MatchType::Path)),
            None => None,
        }
    }
}

/// Ranking order of two results: by score, ties to the earlier entry.
pub open spec fn beats(a: SearchResult, b: SearchResult) -> bool {
    a.score > b.score || (a.score == b.score && a.entry_index < b.entry_index)
}

/// Descending ranking order: every earlier result beats every later one.
pub open spec fn sorted_desc(s: Seq<SearchResult>) -> bool {
    forall|k1: int, k2: int|
        0 <= k1 < k2 < s.len() ==> beats(#[trigger] s[k1], #[trigger] s[k2])
}

/// No two results stand for the same entry position.
pub open spec fn distinct_indices(s: Seq<SearchResult>) -> bool {
    forall|k1: int, k2: int|
        0 <= k1 < k2 < s.len() ==> (#[trigger] s[k1]).entry_index != (#[trigger] s[k2]).entry_index
}

/// The result value occurs in the sequence.
pub open spec fn res_contains(s: Seq<SearchResult>, x: SearchResult) -> bool {
    exists|j: int| 0 <= j < s.len() && s[j] == x
}

/// Some result stands for entry position `i`.
pub open spec fn contains_index(s: Seq<SearchResult>, i: int) -> bool {
    exists|k: int| 0 <= k < s.len() && (#[trigger] s[k]).entry_index == i
}

/// The score is at most every score in the sequence.
pub open spec fn score_dominated(sc: int, s: Seq<SearchResult>) -> bool {
    forall|k: int| 0 <= k < s.len() ==> sc <= (#[trigger] s[k]).score
}

/// The model of one result: entry position, score, match kind.
pub open spec fn result_model(m: SearchResult) -> (int, int, MatchType) {
    (m.entry_index as int, m.score as int, m.match_type)
}

/// The models of a result list.
pub open spec fn rm_models(s: Seq<SearchResult>) -> Seq<(int, int, MatchType)> {
    Seq::new(s.len(), |i: int| result_model(s[i]))
}

/// Ranking order on result models: by score, ties to the earlier entry.
pub open spec fn m_beats(a: (int, int, MatchType), b: (int, int, MatchType)) -> bool {
    a.1 > b.1 || (a.1 == b.1 && a.0 < b.0)
}

/// The ranking position a new result takes in a sorted selection, scanning
/// from `p`: just after everything that outranks it.
pub open spec fn m_insert_pos(
    s: Seq<(int, int, MatchType)>,
    item: (int, int, MatchType),
    p: int,
) -> int
    decreases s.len() - p,
{
    if p < 0 || p >= s.len() {
        s.len() as int
    } else if m_beats(s[p], item) {
        m_insert_pos(s, item, p + 1)
    } else {
        p
    }
}

/// The position that leaves a full sorted selection: the earliest result
/// among those with the minimum score, scanning from `p`.
pub open spec fn m_evict_pos(s: Seq<(int, int, MatchType)>, p: int) -> int
    decreases s.len() - p,
{
    if p < 0 || p + 1 >= s.len() {
        s.len() - 1
    } else if s[p].1 == s[s.len() - 1].1 {
        p
    } else {
        m_evict_pos(s, p + 1)
    }
}

/// One candidate offered to the bounded selection: inserted at its ranking
/// position while the selection is not full; a full selection changes only
/// for a strictly higher score, and then the earliest result among those
/// with the minimum score leaves.
pub open spec fn m_push(
    s: Seq<(int, int, MatchType)>,
    item: (int, int, MatchType),
    keep: int,
) -> Seq<(int, int, MatchType)> {
    if s.len() < keep {
        s.insert(m_insert_pos(s, item, 0), item)
    } else if s.len() > 0 && item.1 > s[s.len() - 1].1 {
        let mid = s.remove(m_evict_pos(s, 0));
        mid.insert(m_insert_pos(mid, item, 0), item)
    } else {
        s
    }
}

/// The whole bounded selection over the first `i` entries, in entry order.
pub open spec fn spec_select(
    entries: Seq<FileEntry>,
    opts: SearchOptions,
    toks: Seq<Seq<char>>,
    keep: int,
    i: int,
) -> Seq<(int, int, MatchType)>
    decreases i,
{
    if i <= 0 {
        Seq::empty()
    } else {
        let prev = spec_select(entries, opts, toks, keep, i - 1);
        match spec_candidate(entries[i - 1], opts, toks) {
            Some(c) => m_push(prev, (i - 1, c.0, c.1), keep),
            None => prev,
        }
    }
}

/// Models commute with insertion.
proof fn lemma_models_insert(s: Seq<SearchResult>, p: int, x: SearchResult)
    requires
        0 <= p <= s.len(),
    ensures
        rm_models(s.insert(p, x)) == rm_models(s).insert(p, result_model(x)),
{
    s.insert_ensures(p, x);
    rm_models(s).insert_ensures(p, result_model(x));
    assert forall|k: int| 0 <= k < rm_models(s.insert(p, x)).len() implies #[trigger] rm_models(
        s.insert(p, x),
    )[k] == rm_models(s).insert(p, result_model(x))[k] by {
        if k < p {
            assert(s.insert(p, x)[k] == s[k]);
        } else if k == p {
            assert(s.insert(p, x)[k] == x);
        } else {
            assert(s.insert(p, x)[(k - 1) + 1] == s[k - 1]);
        }
    }
    assert(rm_models(s.insert(p, x)) =~= rm_models(s).insert(p, result_model(x)));
}

/// Models commute with removal.
proof fn lemma_models_remove(s: Seq<SearchResult>, q: int)
    requires
        0 <= q < s.len(),
    ensures
        rm_models(s.remove(q)) == rm_models(s).remove(q),
{
    s.remove_ensures(q);
    rm_models(s).remove_ensures(q);
    assert forall|k: int| 0 <= k < rm_models(s.remove(q)).len() implies #[trigger] rm_models(
        s.remove(q),
    )[k] == rm_models(s).remove(q)[k] by {
        if k < q {
            assert(s.remove(q)[k] == s[k]);
        } else {
            assert(s.remove(q)[k] == s[k + 1]);
        }
    }
    assert(rm_models(s.remove(q)) =~= rm_models(s).remove(q));
}

/// A zero bound selects nothing.
proof fn lemma_select_empty_when_zero(
    entries: Seq<FileEntry>,
    opts: SearchOptions,
    toks: Seq<Seq<char>>,
    i: int,
)
    ensures
        spec_select(entries, opts, toks, 0, i) == Seq::<(int, int, MatchType)>::empty(),
    decreases i,
{
    if i > 0 {
        lemma_select_empty_when_zero(entries, opts, toks, i - 1);
    }
}

/// Inserts a result at its ranking position.
fn insert_sorted_result(results: &mut Vec<SearchResult>, item: SearchResult)
    requires
        sorted_desc(old(results)@),
        distinct_indices(old(results)@),
        forall|k: int|
            0 <= k < old(results)@.len() ==> (#[trigger] old(results)@[k]).entry_index
                != item.entry_index,
        old(results)@.len() < usize::MAX,
    ensures
        final(results)@.len() == old(results)@.len() + 1,
        sorted_desc(final(results)@),
        distinct_indices(final(results)@),
        forall|k: int|
            0 <= k < final(results)@.len() ==> #[trigger] final(results)@[k] == item || exists|
                j: int,
            | 0 <= j < old(results)@.len() && old(results)@[j] == final(results)@[k],
        forall|j: int|
            0 <= j < old(results)@.len() ==> res_contains(
                final(results)@,
                #[trigger] old(results)@[j],
            ),
        res_contains(final(results)@, item),
        rm_models(final(results)@) == rm_models(old(results)@).insert(
            m_insert_pos(rm_models(old(results)@), result_model(item), 0),
            result_model(item),
        ),
{
    let n = results.len();
    let mut pos: usize = 0;
    loop
        invariant_except_break
            pos <= n,
            n == results@.len(),
            results@ == old(results)@,
            forall|k: int|
                0 <= k < results@.len() ==> (#[trigger] results@[k]).entry_index
                    != item.entry_index,
            forall|j: int| 0 <= j < pos ==> beats(#[trigger] results@[j], item),
            m_insert_pos(rm_models(results@), result_model(item), 0) == m_insert_pos(
                rm_models(results@),
                result_model(item),
                pos as int,
            ),
        ensures
            pos <= n,
            n == results@.len(),
            results@ == old(results)@,
            forall|j: int| 0 <= j < pos ==> beats(#[trigger] results@[j], item),
            pos < n ==> beats(item, results@[pos as int]),
            m_insert_pos(rm_models(results@), result_model(item), 0) == pos as int,
        decreases n - pos,
    {
        if pos >= n {
            proof {
                assert(rm_models(results@).len() == n);
                assert(m_insert_pos(rm_models(results@), result_model(item), pos as int)
                    == pos as int);
            }
            break ;
        }
        let rb = results[pos].score > item.score || (results[pos].score == item.score
            && results[pos].entry_index < item.entry_index);
        proof {
            assert(rm_models(results@)[pos as int] == result_model(results@[pos as int]));
            assert(rb == m_beats(rm_models(results@)[pos as int], result_model(item)));
        }
        if !rb {
            proof {
                assert(results@[pos as int].entry_index != item.entry_index);
                assert(beats(item, results@[pos as int]));
                assert(m_insert_pos(rm_models(results@), result_model(item), pos as int)
                    == pos as int);
            }
            break ;
        }
        proof {
            assert(m_insert_pos(rm_models(results@), result_model(item), pos as int)
                == m_insert_pos(rm_models(results@), result_model(item), pos + 1));
        }
        pos = pos + 1;
    }
    let ghost prior = results@;
    results.insert(pos, item);
    proof {
        lemma_models_insert(prior, pos as int, item);
        assert forall|k: int| 0 <= k < results@.len() implies #[trigger] results@[k] == (if k
            < pos {
            prior[k]
        } else if k == pos {
            item
        } else {
            prior[k - 1]
        }) by {}
        assert forall|k1: int, k2: int| 0 <= k1 < k2 < results@.len() implies beats(
            #[trigger] results@[k1],
            #[trigger] results@[k2],
        ) by {
            if k2 < pos {
            } else if k1 < pos && k2 == pos {
                assert(beats(prior[k1], item));
            } else if k1 < pos && k2 > pos {
                assert(beats(prior[k1], prior[k2 - 1]));
            } else if k1 == pos {
                assert(beats(item, prior[pos as int]));
                if k2 - 1 > pos {
                    assert(beats(prior[pos as int], prior[k2 - 1]));
                }
            } else {
                assert(beats(prior[k1 - 1], prior[k2 - 1]));
            }
        }
        assert forall|k1: int, k2: int| 0 <= k1 < k2 < results@.len() implies (
        #[trigger] results@[k1]).entry_index != (#[trigger] results@[k2]).entry_index by {}
        assert forall|j: int| 0 <= j < prior.len() implies res_contains(
            results@,
            #[trigger] prior[j],
        ) by {
            if j < pos {
                assert(results@[j] == prior[j]);
            } else {
                assert(results@[j + 1] == prior[j]);
            }
        }
        assert(results@[pos as int] == item);
    }
}

/// Offers one result to the bounded selection: inserted at its ranking
/// position while the selection is not full. A full selection changes only
/// for a strictly higher score, and then the earliest kept result among
/// those with the minimum score leaves; `m_push` fixes the outcome exactly.
fn push_top_k(results: &mut Vec<SearchResult>, keep: usize, item: SearchResult)
    requires
        keep >= 1,
        old(results)@.len() <= keep,
        sorted_desc(old(results)@),
        distinct_indices(old(results)@),
        forall|k: int|
            0 <= k < old(results)@.len() ==> (#[trigger] old(results)@[k]).entry_index
                != item.entry_index,
    ensures
        sorted_desc(final(results)@),
        distinct_indices(final(results)@),
        final(results)@.len() == if old(results)@.len() < keep {
            old(results)@.len() + 1
        } else {
            old(results)@.len()
        },
        forall|k: int|
            0 <= k < final(results)@.len() ==> #[trigger] final(results)@[k] == item || exists|
                j: int,
            | 0 <= j < old(results)@.len() && old(results)@[j] == final(results)@[k],
        !res_contains(final(results)@, item) ==> old(results)@.len() == keep && score_dominated(
            item.score as int,
            final(results)@,
        ),
        old(results)@.len() == keep && res_contains(final(results)@, item) ==> item.score > old(
            results,
        )@[old(results)@.len() - 1].score,
        old(results)@.len() < keep ==> forall|j: int|
            0 <= j < old(results)@.len() ==> res_contains(
                final(results)@,
                #[trigger] old(results)@[j],
            ),
        forall|j: int|
            0 <= j < old(results)@.len() && !res_contains(final(results)@, old(results)@[j])
                ==> score_dominated((#[trigger] old(results)@[j]).score as int, final(results)@),
        rm_models(final(results)@) == m_push(
            rm_models(old(results)@),
            result_model(item),
            keep as int,
        ),
{
    let n = results.len();
    if n < keep {
        insert_sorted_result(results, item);
        proof {
            assert forall|j: int|
                0 <= j < n && !res_contains(results@, old(results)@[j]) implies score_dominated(
                (#[trigger] old(results)@[j]).score as int,
                results@,
            ) by {
                assert(res_contains(results@, old(results)@[j]));
            }
            assert(rm_models(old(results)@).len() < keep);
        }
        return ;
    }
    let min_score = results[n - 1].score;
    proof {
        assert forall|k: int| 0 <= k < results@.len() implies min_score
            <= (#[trigger] results@[k]).score by {
            if k < n - 1 {
                assert(beats(results@[k], results@[n - 1]));
            }
        }
    }
    if item.score > min_score {
        // evict the lowest-ranked kept result: among the minimum scores, the
        // earliest entry
        let mut q: usize = 0;
        loop
            invariant_except_break
                q < n,
                n == results@.len(),
                results@ == old(results)@,
                results@[n - 1].score == min_score,
                forall|j: int| 0 <= j < q ==> (#[trigger] results@[j]).score != min_score,
                m_evict_pos(rm_models(results@), 0) == m_evict_pos(rm_models(results@), q as int),
            ensures
                q < n,
                n == results@.len(),
                results@ == old(results)@,
                results@[q as int].score == min_score,
                m_evict_pos(rm_models(results@), 0) == q as int,
            decreases n - q,
        {
            proof {
                assert(rm_models(results@).len() == n);
                assert(rm_models(results@)[q as int] == result_model(results@[q as int]));
                assert(rm_models(results@)[n - 1] == result_model(results@[n - 1]));
            }
            if results[q].score == min_score {
                proof {
                    assert(m_evict_pos(rm_models(results@), q as int) == q as int);
                }
                break ;
            }
            proof {
                assert(q + 1 < n) by {
                    assert(results@[n - 1].score == min_score);
                }
                assert(m_evict_pos(rm_models(results@), q as int) == m_evict_pos(
                    rm_models(results@),
                    q + 1,
                ));
            }
            q = q + 1;
        }
        let ghost prior = results@;
        let evicted = results.remove(q);
        proof {
            assert(evicted == prior[q as int]);
            assert forall|k: int| 0 <= k < results@.len() implies #[trigger] results@[k] == (if k
                < q {
                prior[k]
            } else {
                prior[k + 1]
            }) by {}
            assert forall|k1: int, k2: int| 0 <= k1 < k2 < results@.len() implies beats(
                #[trigger] results@[k1],
                #[trigger] results@[k2],
            ) by {
                let p1: int = if k1 < q {
                    k1
                } else {
                    k1 + 1
                };
                let p2: int = if k2 < q {
                    k2
                } else {
                    k2 + 1
                };
                assert(beats(prior[p1], prior[p2]));
            }
            assert forall|k1: int, k2: int| 0 <= k1 < k2 < results@.len() implies (
            #[trigger] results@[k1]).entry_index != (#[trigger] results@[k2]).entry_index by {
                let p1: int = if k1 < q {
                    k1
                } else {
                    k1 + 1
                };
                let p2: int = if k2 < q {
                    k2
                } else {
                    k2 + 1
                };
                assert(prior[p1].entry_index != prior[p2].entry_index);
            }
            assert forall|k: int|
                0 <= k < results@.len() implies (#[trigger] results@[k]).entry_index
                != item.entry_index by {}
        }
        let ghost mid = results@;
        insert_sorted_result(results, item);
        proof {
            // provenance back to the original selection
            assert forall|k: int| 0 <= k < results@.len() implies #[trigger] results@[k] == item
                || exists|j: int| 0 <= j < prior.len() && prior[j] == results@[k] by {
                if results@[k] != item {
                    let j = choose|j: int| 0 <= j < mid.len() && mid[j] == results@[k];
                    if j < q {
                        assert(prior[j] == results@[k]);
                    } else {
                        assert(prior[j + 1] == results@[k]);
                    }
                }
            }
            // every kept score is at least the evicted minimum
            assert forall|k: int| 0 <= k < results@.len() implies min_score
                <= (#[trigger] results@[k]).score by {
                if results@[k] == item {
                } else {
                    let j = choose|j: int| 0 <= j < mid.len() && mid[j] == results@[k];
                    let p: int = if j < q {
                        j
                    } else {
                        j + 1
                    };
                    assert(mid[j] == prior[p]);
                }
            }
            // the only original result that can be missing is the evicted one
            assert forall|j: int|
                0 <= j < prior.len() && !res_contains(results@, prior[j]) implies score_dominated(
                (#[trigger] prior[j]).score as int,
                results@,
            ) by {
                if j != q {
                    let p: int = if j < q {
                        j
                    } else {
                        j - 1
                    };
                    assert(mid[p] == prior[j]);
                    assert(res_contains(results@, mid[p]));
                } else {
                    assert(prior[q as int].score == min_score);
                }
            }
            // the whole step is the model-level push
            lemma_models_remove(prior, q as int);
            assert(rm_models(mid) == rm_models(prior).remove(q as int));
            assert(rm_models(prior)[n - 1] == result_model(prior[n - 1]));
            assert(rm_models(results@) == m_push(
                rm_models(prior),
                result_model(item),
                keep as int,
            ));
        }
    } else {
        proof {
            assert forall|j: int|
                0 <= j < results@.len() && !res_contains(results@, results@[j]) implies false by {
                assert(res_contains(results@, results@[j]));
            }
            assert(!res_contains(results@, item)) by {
                if res_contains(results@, item) {
                    let k = choose|k: int| 0 <= k < results@.len() && results@[k] == item;
                    assert(results@[k].entry_index == item.entry_index);
                }
            }
            assert(rm_models(results@)[n - 1] == result_model(results@[n - 1]));
            assert(rm_models(results@) == m_push(
                rm_models(results@),
                result_model(item),
                keep as int,
            ));
        }
    }
}

/// The tokens of the query as the search sees them: the raw pattern when
/// case-sensitive, its lowercase search key otherwise.
pub open spec fn spec_query_tokens(pattern: Seq<char>, cs: bool) -> Seq<Seq<char>> {
    spec_tokens(
        if cs {
            pattern
        } else {
            search_key(pattern)
        },
    )
}

/// A result is genuine: it names an entry of the table, carries that entry,
/// and its score and match kind are exactly the entry's candidate ranking.
pub open spec fn valid_result(
    entries: Seq<FileEntry>,
    opts: SearchOptions,
    toks: Seq<Seq<char>>,
    m: SearchResult,
) -> bool {
    &&& (m.entry_index as int) < entries.len()
    &&& entries[m.entry_index as int] == m.entry
    &&& spec_candidate(entries[m.entry_index as int], opts, toks) == Some(
        (m.score as int, m.match_type),
    )
}

/// How many of the first `i` entries match the query.
pub open spec fn count_matches(
    entries: Seq<FileEntry>,
    opts: SearchOptions,
    toks: Seq<Seq<char>>,
    i: int,
) -> int
    decreases i,
{
    if i <= 0 {
        0
    } else {
        count_matches(entries, opts, toks, i - 1) + if spec_candidate(
            entries[i - 1],
            opts,
            toks,
        ) is Some {
            1int
        } else {
            0int
        }
    }
}

/// Match counts are non-negative.
proof fn lemma_count_matches_nonneg(
    entries: Seq<FileEntry>,
    opts: SearchOptions,
    toks: Seq<Seq<char>>,
    i: int,
)
    ensures
        count_matches(entries, opts, toks, i) >= 0,
    decreases i,
{
    if i > 0 {
        lemma_count_matches_nonneg(entries, opts, toks, i - 1);
    }
}

impl Searcher {
    /// Ranked search over the indexer's entry table.
    ///
    /// The result list is sorted by descending score with ties in entry
    /// order, holds one genuine result per matched entry up to
    /// `max_results` (a zero bound returns nothing), and the selection is
    /// exact and deterministic: no unreturned match scores strictly higher
    /// than a returned one, and the kept results are fixed by the
    /// model-level selection fold.
    pub fn search(&self, indexer: &FileIndexer, pattern: &str) -> (r: Vec<SearchResult>)
        ensures
            ({
                let entries = indexer.spec_entries();
                let toks = spec_query_tokens(pattern@, self.options.case_sensitive);
                let keep: int = self.options.max_results as int;
                let cnt = count_matches(entries, self.options, toks, entries.len() as int);
                &&& (pattern@.len() == 0 || toks.len() == 0) ==> r@.len() == 0
                &&& (pattern@.len() > 0 && toks.len() > 0) ==> {
                    &&& sorted_desc(r@)
                    &&& distinct_indices(r@)
                    &&& r@.len() == if cnt < keep {
                        cnt
                    } else {
                        keep
                    }
                    &&& forall|k: int|
                        0 <= k < r@.len() ==> valid_result(
                            entries,
                            self.options,
                            toks,
                            #[trigger] r@[k],
                        )
                    &&& forall|i: int|
                        0 <= i < entries.len() && spec_candidate(
                            #[trigger] entries[i],
                            self.options,
                            toks,
                        ) is Some && !contains_index(r@, i) ==> score_dominated(
                            (spec_candidate(entries[i], self.options, toks)->0).0,
                            r@,
                        )
                    &&& rm_models(r@) == spec_select(
                        entries,
                        self.options,
                        toks,
                        keep,
                        entries.len() as int,
                    )
                }
            }),
    {
        let mut results: Vec<SearchResult> = Vec::new();
        if pattern.is_empty() {
            return results;
        }
        let opts = self.options;
        let keep: usize = opts.max_results;
        let pstring = if opts.case_sensitive {
            pattern.to_owned()
        } else {
            lowercase_for_search(pattern)
        };
        let pchars = chars_of(pstring.as_str());
        let tokens = tokenize(&pchars);
        let ghost toks = spec_query_tokens(pattern@, opts.case_sensitive);
        proof {
            assert(tok_views(tokens@) =~= toks);
        }
        if tokens.len() == 0 {
            return results;
        }
        if keep == 0 {
            proof {
                lemma_select_empty_when_zero(
                    indexer.spec_entries(),
                    opts,
                    toks,
                    indexer.spec_entries().len() as int,
                );
                lemma_count_matches_nonneg(
                    indexer.spec_entries(),
                    opts,
                    toks,
                    indexer.spec_entries().len() as int,
                );
                assert(rm_models(results@) =~= Seq::<(int, int, MatchType)>::empty());
            }
            return results;
        }
        let entries = indexer.get_entries();
        let n = entries.len();
        let mut i: usize = 0;
        proof {
            assert(rm_models(results@) =~= spec_select(entries@, opts, toks, keep as int, 0));
        }
        while i < n
            invariant
                n == entries@.len(),
                i <= n,
                entries@ == indexer.spec_entries(),
                pattern@.len() > 0,
                opts == self.options,
                keep >= 1,
                keep == opts.max_results,
                toks == spec_query_tokens(pattern@, opts.case_sensitive),
                toks.len() > 0,
                tok_views(tokens@) == toks,
                sorted_desc(results@),
                distinct_indices(results@),
                forall|k: int|
                    0 <= k < results@.len() ==> valid_result(
                        entries@,
                        opts,
                        toks,
                        #[trigger] results@[k],
                    ),
                forall|k: int|
                    0 <= k < results@.len() ==> (#[trigger] results@[k]).entry_index < i,
                results@.len() == if count_matches(entries@, opts, toks, i as int) < keep {
                    count_matches(entries@, opts, toks, i as int)
                } else {
                    keep as int
                },
                forall|j: int|
                    0 <= j < i && spec_candidate(#[trigger] entries@[j], opts, toks) is Some
                        && !contains_index(results@, j) ==> results@.len() == keep
                        && score_dominated(
                        (spec_candidate(entries@[j], opts, toks)->0).0,
                        results@,
                    ),
                rm_models(results@) == spec_select(entries@, opts, toks, keep as int, i as int),
            decreases n - i,
        {
            let e = &entries[i];
            let ghost old_results = results@;
            let ghost cnt_i = count_matches(entries@, opts, toks, i as int);
            proof {
                assert(count_matches(entries@, opts, toks, i + 1) == cnt_i + if spec_candidate(
                    entries@[i as int],
                    opts,
                    toks,
                ) is Some {
                    1int
                } else {
                    0int
                });
            }
            match entry_candidate(e, &tokens, &opts) {
                Some(cand) => {
                    let item = SearchResult {
                        entry: e.clone(),
                        entry_index: i,
                        score: cand.0,
                        match_type: cand.1,
                    };
                    proof {
                        assert(valid_result(entries@, opts, toks, item));
                    }
                    let ghost pre_models = rm_models(results@);
                    push_top_k(&mut results, keep, item);
                    proof {
                        // the step is one model-level push of this candidate
                        assert(result_model(item) == (
                            i as int,
                            (spec_candidate(entries@[i as int], opts, toks)->0).0,
                            (spec_candidate(entries@[i as int], opts, toks)->0).1,
                        ));
                        assert(spec_select(entries@, opts, toks, keep as int, i + 1) == m_push(
                            pre_models,
                            result_model(item),
                            keep as int,
                        ));
                        // every kept result is genuine and from the prefix
                        assert forall|k: int| 0 <= k < results@.len() implies valid_result(
                            entries@,
                            opts,
                            toks,
                            #[trigger] results@[k],
                        ) && results@[k].entry_index < i + 1 by {
                            if results@[k] != item {
                                let j = choose|j: int|
                                    0 <= j < old_results.len() && old_results[j] == results@[k];
                                assert(valid_result(entries@, opts, toks, old_results[j]));
                            }
                        }
                        // excluded matches stay dominated
                        assert forall|j: int|
                            0 <= j < i + 1 && spec_candidate(
                                #[trigger] entries@[j],
                                opts,
                                toks,
                            ) is Some && !contains_index(results@, j) implies results@.len()
                            == keep && score_dominated(
                            (spec_candidate(entries@[j], opts, toks)->0).0,
                            results@,
                        ) by {
                            let sj = (spec_candidate(entries@[j], opts, toks)->0).0;
                            if j == i {
                                assert(!res_contains(results@, item)) by {
                                    if res_contains(results@, item) {
                                        let k = choose|k: int|
                                            0 <= k < results@.len() && results@[k] == item;
                                        assert(results@[k].entry_index == i);
                                    }
                                }
                                assert(old_results.len() == keep);
                                assert(score_dominated(item.score as int, results@));
                            } else {
                                if contains_index(old_results, j) {
                                    let k0 = choose|k0: int|
                                        0 <= k0 < old_results.len() && (#[trigger] old_results[k0]).entry_index == j;
                                    let x = old_results[k0];
                                    assert(valid_result(entries@, opts, toks, x));
                                    assert(x.score as int == sj);
                                    assert(!res_contains(results@, x)) by {
                                        if res_contains(results@, x) {
                                            let k = choose|k: int|
                                                0 <= k < results@.len() && results@[k] == x;
                                            assert(results@[k].entry_index == j);
                                        }
                                    }
                                    assert(old_results.len() == keep) by {
                                        if old_results.len() < keep {
                                            assert(res_contains(results@, old_results[k0]));
                                        }
                                    }
                                    assert(score_dominated(x.score as int, results@));
                                } else {
                                    // dominated before; every kept result is the new
                                    // item or an old one
                                    assert(score_dominated(sj, old_results));
                                    assert(old_results.len() == keep);
                                    assert forall|k: int| 0 <= k < results@.len() implies sj
                                        <= (#[trigger] results@[k]).score by {
                                        if results@[k] == item {
                                            assert(sj <= old_results[old_results.len() - 1].score);
                                            assert(res_contains(results@, item)) by {
                                                let k2 = k;
                                                assert(results@[k2] == item);
                                            }
                                            assert(item.score > old_results[old_results.len()
                                                - 1].score);
                                        } else {
                                            let j2 = choose|j2: int|
                                                0 <= j2 < old_results.len() && old_results[j2]
                                                    == results@[k];
                                            assert(sj <= old_results[j2].score);
                                        }
                                    }
                                }
                            }
                        }
                    }
                },
                None => {
                    proof {
                        assert(spec_select(entries@, opts, toks, keep as int, i + 1)
                            == spec_select(entries@, opts, toks, keep as int, i as int));
                    }
                },
            }
            i = i + 1;
        }
        results
    }
}

} // verus!
