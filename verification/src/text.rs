//! Character-level text utilities: lowercase search keys, whitespace
//! tokenization, substring search, and file-name extraction from normalized
//! paths. All matching in the search engine works on `Vec<char>` so that
//! positions are character positions, as the ranking formulas expect.

use vstd::prelude::*;

verus! {

use vstd::std_specs::iter::IteratorSpec;
use vstd::utf8::is_ascii_chars;

/// Lowercase of one ASCII character: letters `A`..`Z` map 32 code points up,
/// everything else is unchanged.
pub open spec fn ascii_lower_char(c: char) -> char {
    if 'A' <= c && c <= 'Z' {
        (((c as u8) + 32) as char)
    } else {
        c
    }
}

/// Bytewise lowercase projection of an ASCII character sequence.
pub open spec fn ascii_lower(s: Seq<char>) -> Seq<char> {
    s.map_values(|c: char| ascii_lower_char(c))
}

/// What `str::to_lowercase` returns: a function of the characters alone.
pub uninterp spec fn unicode_lower(s: Seq<char>) -> Seq<char>;

/// The lowercase search key of a name or path: ASCII-only text takes the
/// bytewise fast path, anything else the full Unicode lowering.
pub open spec fn search_key(s: Seq<char>) -> Seq<char> {
    if is_ascii_chars(s) {
        ascii_lower(s)
    } else {
        unicode_lower(s)
    }
}

/// Relies on str::to_lowercase: the result depends on the characters alone.
#[verifier::external_body]
fn unicode_lowercase(s: &str) -> (r: String)
    ensures
        r@ == unicode_lower(s@),
{
    s.to_lowercase()
}

/// Relies on String::push: appends exactly the given character.
#[verifier::external_body]
pub(crate) fn push_char(s: &mut String, c: char)
    ensures
        final(s)@ == old(s)@.push(c),
{
    s.push(c)
}

/// The characters with the Unicode White_Space property: the control
/// whitespace run, the space, the next line, and each of the fixed
/// whitespace code points up to the ideographic space.
pub open spec fn char_is_space(c: char) -> bool {
    ||| ('\u{9}' <= c && c <= '\u{D}')
    ||| c == ' '
    ||| c == '\u{85}'
    ||| c == '\u{A0}'
    ||| c == '\u{1680}'
    ||| ('\u{2000}' <= c && c <= '\u{200A}')
    ||| c == '\u{2028}'
    ||| c == '\u{2029}'
    ||| c == '\u{202F}'
    ||| c == '\u{205F}'
    ||| c == '\u{3000}'
}

/// Relies on char::is_whitespace: true exactly on the characters with the
/// Unicode White_Space property, the set `char_is_space` lists.
#[verifier::external_body]
fn is_space(c: char) -> (r: bool)
    ensures
        r == char_is_space(c),
{
    c.is_whitespace()
}

/// Collects the characters of a string slice into a vector.
pub fn chars_of(s: &str) -> (r: Vec<char>)
    ensures
        r@ == s@,
{
    let mut it = s.chars();
    let mut r: Vec<char> = Vec::new();
    loop
        invariant_except_break
            r@ + it.remaining() == s@,
        ensures
            r@ == s@,
        decreases s@.len() - r@.len(),
    {
        match it.next() {
            Some(c) => {
                r.push(c);
            },
            None => {
                proof {
                    assert(r@ =~= s@);
                }
                break ;
            },
        }
    }
    r
}

/// Builds a string from a range of a character vector.
pub fn string_from_range(v: &Vec<char>, from: usize, to: usize) -> (r: String)
    requires
        from <= to <= v@.len(),
    ensures
        r@ == v@.subrange(from as int, to as int),
{
    let mut r = String::new();
    let mut i: usize = from;
    while i < to
        invariant
            from <= i <= to <= v@.len(),
            r@ == v@.subrange(from as int, i as int),
        decreases to - i,
    {
        push_char(&mut r, v[i]);
        i = i + 1;
        proof {
            assert(r@ =~= v@.subrange(from as int, i as int));
        }
    }
    r
}

/// Builds a string holding exactly the given characters.
pub fn string_from_chars(v: &Vec<char>) -> (r: String)
    ensures
        r@ == v@,
{
    let r = string_from_range(v, 0, v.len());
    proof {
        assert(v@.subrange(0, v@.len() as int) =~= v@);
    }
    r
}

/// The lowercase search key of `s`: the ASCII fast path lowers the letters
/// `A`..`Z` bytewise; non-ASCII text goes through the Unicode lowering.
pub fn lowercase_for_search(s: &str) -> (r: String)
    ensures
        r@ == search_key(s@),
{
    if s.is_ascii() {
        let cs = chars_of(s);
        let mut out = String::new();
        let mut i: usize = 0;
        while i < cs.len()
            invariant
                i <= cs@.len(),
                cs@ == s@,
                is_ascii_chars(s@),
                out@ == ascii_lower(s@).take(i as int),
            decreases cs@.len() - i,
        {
            let c = cs[i];
            let lc: char = if c >= 'A' && c <= 'Z' {
                (((c as u8) + 32) as char)
            } else {
                c
            };
            push_char(&mut out, lc);
            i = i + 1;
            proof {
                assert(out@ =~= ascii_lower(s@).take(i as int));
            }
        }
        proof {
            assert(ascii_lower(s@).take(s@.len() as int) =~= ascii_lower(s@));
        }
        out
    } else {
        unicode_lowercase(s)
    }
}

/// The whitespace tokens of `s[i..]`, with `cur` the partial token read so
/// far: tokens are maximal runs of non-whitespace characters.
pub open spec fn tokens_rec(s: Seq<char>, i: int, cur: Seq<char>) -> Seq<Seq<char>>
    decreases s.len() - i,
{
    if i < 0 || i >= s.len() {
        if cur.len() > 0 {
            seq![cur]
        } else {
            Seq::empty()
        }
    } else if char_is_space(s[i]) {
        if cur.len() > 0 {
            seq![cur] + tokens_rec(s, i + 1, Seq::empty())
        } else {
            tokens_rec(s, i + 1, Seq::empty())
        }
    } else {
        tokens_rec(s, i + 1, cur.push(s[i]))
    }
}

/// The whitespace-delimited, non-empty tokens of a query.
pub open spec fn spec_tokens(s: Seq<char>) -> Seq<Seq<char>> {
    tokens_rec(s, 0, Seq::empty())
}

/// Every token produced by tokenization is non-empty.
pub proof fn lemma_tokens_nonempty(s: Seq<char>, i: int, cur: Seq<char>)
    ensures
        forall|k: int|
            0 <= k < tokens_rec(s, i, cur).len() ==> #[trigger] tokens_rec(s, i, cur)[k].len()
                > 0,
    decreases s.len() - i,
{
    if i < 0 || i >= s.len() {
        if cur.len() > 0 {
            assert(tokens_rec(s, i, cur) == seq![cur]);
            assert(tokens_rec(s, i, cur)[0] == cur);
        }
    } else if char_is_space(s[i]) {
        lemma_tokens_nonempty(s, i + 1, Seq::empty());
        if cur.len() > 0 {
            let rest = tokens_rec(s, i + 1, Seq::<char>::empty());
            assert forall|k: int| 0 <= k < tokens_rec(s, i, cur).len() implies #[trigger] tokens_rec(
                s,
                i,
                cur,
            )[k].len() > 0 by {
                if k == 0 {
                    assert(tokens_rec(s, i, cur)[0] == cur);
                } else {
                    assert(tokens_rec(s, i, cur)[k] == rest[k - 1]);
                }
            }
        } else {
            assert(tokens_rec(s, i, cur) == tokens_rec(s, i + 1, Seq::<char>::empty()));
        }
    } else {
        lemma_tokens_nonempty(s, i + 1, cur.push(s[i]));
        assert(tokens_rec(s, i, cur) == tokens_rec(s, i + 1, cur.push(s[i])));
    }
}

/// Splits a query into whitespace-delimited, non-empty tokens.
pub fn tokenize(s: &Vec<char>) -> (r: Vec<Vec<char>>)
    ensures
        r@.len() == spec_tokens(s@).len(),
        forall|k: int| 0 <= k < r@.len() ==> #[trigger] r@[k]@ == spec_tokens(s@)[k],
        forall|k: int| 0 <= k < r@.len() ==> #[trigger] r@[k]@.len() > 0,
{
    let ghost full = spec_tokens(s@);
    let mut toks: Vec<Vec<char>> = Vec::new();
    let ghost mut done: Seq<Seq<char>> = Seq::empty();
    let mut cur: Vec<char> = Vec::new();
    let mut i: usize = 0;
    proof {
        assert(cur@ =~= Seq::<char>::empty());
        assert(done + tokens_rec(s@, 0, cur@) =~= tokens_rec(s@, 0, cur@));
    }
    while i < s.len()
        invariant
            i <= s@.len(),
            done.len() == toks@.len(),
            forall|k: int| 0 <= k < done.len() ==> #[trigger] toks@[k]@ == done[k],
            full == done + tokens_rec(s@, i as int, cur@),
            full == spec_tokens(s@),
        decreases s@.len() - i,
    {
        let c = s[i];
        let ghost old_done = done;
        let ghost old_cur = cur@;
        if is_space(c) {
            if cur.len() > 0 {
                toks.push(cur);
                proof {
                    done = done.push(old_cur);
                }
                cur = Vec::new();
                proof {
                    assert(cur@ =~= Seq::<char>::empty());
                    assert(tokens_rec(s@, i as int, old_cur) == seq![old_cur] + tokens_rec(
                        s@,
                        i + 1,
                        Seq::<char>::empty(),
                    ));
                    assert(old_done + (seq![old_cur] + tokens_rec(s@, i + 1, Seq::<
                        char,
                    >::empty())) =~= done + tokens_rec(s@, i + 1, Seq::<char>::empty()));
                }
            } else {
                proof {
                    assert(old_cur =~= Seq::<char>::empty());
                    assert(tokens_rec(s@, i as int, old_cur) == tokens_rec(
                        s@,
                        i + 1,
                        Seq::<char>::empty(),
                    ));
                }
            }
        } else {
            cur.push(c);
            proof {
                assert(tokens_rec(s@, i as int, old_cur) == tokens_rec(s@, i + 1, cur@));
            }
        }
        i = i + 1;
    }
    if cur.len() > 0 {
        let ghost old_done = done;
        let ghost old_cur = cur@;
        toks.push(cur);
        proof {
            done = done.push(old_cur);
            assert(tokens_rec(s@, s@.len() as int, old_cur) == seq![old_cur]);
            assert(old_done + seq![old_cur] =~= done);
        }
    } else {
        proof {
            assert(done + tokens_rec(s@, s@.len() as int, cur@) =~= done);
        }
    }
    proof {
        lemma_tokens_nonempty(s@, 0, Seq::empty());
        assert forall|k: int| 0 <= k < toks@.len() implies #[trigger] toks@[k]@.len() > 0 by {
            assert(toks@[k]@ == done[k]);
            assert(done[k] == tokens_rec(s@, 0, Seq::<char>::empty())[k]);
        }
    }
    toks
}

/// The token sequence starting at position `p` in the haystack.
pub open spec fn matches_at(hay: Seq<char>, tok: Seq<char>, p: int) -> bool {
    0 <= p && p + tok.len() <= hay.len() && hay.subrange(p, p + tok.len()) == tok
}

/// The token occurs somewhere in the haystack.
pub open spec fn has_substring(hay: Seq<char>, tok: Seq<char>) -> bool {
    exists|p: int| matches_at(hay, tok, p)
}

/// Compares `tok` against the haystack slice starting at `p`.
fn slice_eq_at(hay: &Vec<char>, tok: &Vec<char>, p: usize) -> (r: bool)
    requires
        p + tok@.len() <= hay@.len(),
    ensures
        r == matches_at(hay@, tok@, p as int),
{
    let hn = hay.len();
    let mut j: usize = 0;
    while j < tok.len()
        invariant
            j <= tok@.len(),
            hn == hay@.len(),
            p + tok@.len() <= hay@.len(),
            forall|q: int| 0 <= q < j ==> hay@[p + q] == #[trigger] tok@[q],
        decreases tok@.len() - j,
    {
        if hay[p + j] != tok[j] {
            proof {
                assert(hay@.subrange(p as int, p + tok@.len()) != tok@) by {
                    assert(hay@.subrange(p as int, p + tok@.len())[j as int] != tok@[j as int]);
                }
            }
            return false;
        }
        j = j + 1;
    }
    proof {
        assert(hay@.subrange(p as int, p + tok@.len()) =~= tok@);
    }
    true
}

/// Tests whether `pre` is a prefix of `hay`.
pub fn starts_with_chars(hay: &Vec<char>, pre: &Vec<char>) -> (r: bool)
    ensures
        r == matches_at(hay@, pre@, 0),
{
    if pre.len() > hay.len() {
        return false;
    }
    slice_eq_at(hay, pre, 0)
}

/// Finds the leftmost occurrence of `tok` in `hay`, if any.
pub fn find_substring(hay: &Vec<char>, tok: &Vec<char>) -> (r: Option<usize>)
    ensures
        match r {
            Some(p) => matches_at(hay@, tok@, p as int) && (forall|q: int|
                0 <= q < p ==> !matches_at(hay@, tok@, q)),
            None => !has_substring(hay@, tok@),
        },
{
    if tok.len() > hay.len() {
        proof {
            assert(forall|q: int| !matches_at(hay@, tok@, q));
        }
        return None;
    }
    if tok.len() == 0 {
        proof {
            assert(hay@.subrange(0, 0) =~= tok@);
        }
        return Some(0);
    }
    let mut p: usize = 0;
    while p <= hay.len() - tok.len()
        invariant
            0 < tok@.len() <= hay@.len(),
            p <= hay@.len() - tok@.len() + 1,
            forall|q: int| 0 <= q < p ==> !matches_at(hay@, tok@, q),
        decreases hay@.len() - tok@.len() + 1 - p,
    {
        if slice_eq_at(hay, tok, p) {
            return Some(p);
        }
        p = p + 1;
    }
    None
}

/// Index where the base name of `s` begins, scanning backward from `i`: one
/// past the last `/` strictly before `i`, or zero when there is none.
pub open spec fn base_start(s: Seq<char>, i: int) -> int
    decreases i,
{
    if i <= 0 {
        0
    } else if s[i - 1] == '/' {
        i
    } else {
        base_start(s, i - 1)
    }
}

/// The base name of a forward-slash normalized path: empty for the empty
/// path and for paths ending in `/`, otherwise everything after the last
/// separator.
pub open spec fn spec_file_name(s: Seq<char>) -> Seq<char> {
    if s.len() == 0 || s[s.len() - 1] == '/' {
        Seq::empty()
    } else {
        s.subrange(base_start(s, s.len() as int), s.len() as int)
    }
}

/// Extracts the base name from a forward-slash normalized path.
pub fn file_name_from_normalized_path(path: &str) -> (r: String)
    ensures
        r@ == spec_file_name(path@),
{
    let cs = chars_of(path);
    let n = cs.len();
    if n == 0 || cs[n - 1] == '/' {
        let r = String::new();
        return r;
    }
    let mut j: usize = n;
    while j > 0 && cs[j - 1] != '/'
        invariant
            j <= n,
            n == cs@.len(),
            cs@ == path@,
            base_start(path@, n as int) == base_start(path@, j as int),
        decreases j,
    {
        j = j - 1;
    }
    string_from_range(&cs, j, n)
}

} // verus!
