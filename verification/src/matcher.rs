//! Case-insensitive exact substring search with a precomputed failure
//! table, and the [`Matcher`] facade that evaluates a compiled query
//! against text.

use vstd::prelude::*;

use crate::parser;
use crate::parser::{Node, NodeModel, ParsingError, spec_compile};
use vstd::string::StringSliceAdditionalSpecFns;

verus! {

/// ASCII case folding: uppercase letters map to lowercase, every other
/// byte is unchanged.  Folding bytes rather than characters keeps the
/// comparison well defined on arbitrary UTF-8 input.
pub open spec fn fold_byte(b: u8) -> u8 {
    if 65 <= b && b <= 90 {
        (b + 32) as u8
    } else {
        b
    }
}

/// A byte sequence folded to lower case.
pub open spec fn fold_bytes(s: Seq<u8>) -> Seq<u8> {
    s.map_values(|b: u8| fold_byte(b))
}

/// `needle` occurs in `text` as a contiguous run starting at offset `i`.
pub open spec fn matches_at(needle: Seq<u8>, text: Seq<u8>, i: int) -> bool {
    0 <= i && i + needle.len() <= text.len() && text.subrange(i, i + needle.len() as int)
        == needle
}

/// `needle` occurs somewhere in `text` as a contiguous subsequence.
pub open spec fn is_substring_of(needle: Seq<u8>, text: Seq<u8>) -> bool {
    exists|i: int| matches_at(needle, text, i)
}

/// Case folding of one byte, as executable code.
fn fold_byte_exec(b: u8) -> (r: u8)
    ensures
        r == fold_byte(b),
{
    if 65 <= b && b <= 90 {
        b + 32
    } else {
        b
    }
}

/// `w` is the length of a border of the prefix `p[0 .. n]`: the first
/// `w` bytes of `p` are both a proper prefix and a suffix of that prefix.
pub open spec fn is_border(p: Seq<u8>, n: int, w: int) -> bool {
    0 <= w < n <= p.len() && p.subrange(0, w) == p.subrange(n - w, n)
}

/// Entry `k` of a failure table for `p`: `tab[k] + 1` is the length of
/// the longest border of the prefix `p[0 ..= k]`.
pub open spec fn table_entry_valid(p: Seq<u8>, tab: Seq<i64>, k: int) -> bool {
    &&& -1 <= tab[k] < k
    &&& is_border(p, k + 1, tab[k] + 1)
    &&& forall|w: int| tab[k] + 1 < w < k + 1 ==> !#[trigger] is_border(p, k + 1, w)
}

/// `tab` is the failure table of `p`: one entry per byte, each the
/// longest-border index of the corresponding prefix.
pub open spec fn table_valid(p: Seq<u8>, tab: Seq<i64>) -> bool {
    &&& tab.len() == p.len()
    &&& forall|k: int| 0 <= k < p.len() ==> table_entry_valid(p, tab, k)
}

/// The first `w` bytes of `p` are a suffix of `t[0 .. i]`.
pub open spec fn prefix_matches_to(p: Seq<u8>, t: Seq<u8>, i: int, w: int) -> bool {
    0 <= w <= p.len() && w <= i <= t.len() && t.subrange(i - w, i) == p.subrange(0, w)
}

proof fn lemma_border_index(p: Seq<u8>, n: int, w: int)
    requires
        0 <= w < n <= p.len(),
    ensures
        is_border(p, n, w) <==> (forall|k: int| 0 <= k < w ==> #[trigger] p[k] == p[n - w + k]),
{
    if forall|k: int| 0 <= k < w ==> #[trigger] p[k] == p[n - w + k] {
        assert(p.subrange(0, w) =~= p.subrange(n - w, n));
    }
    if is_border(p, n, w) {
        assert forall|k: int| 0 <= k < w implies #[trigger] p[k] == p[n - w + k] by {
            assert(p.subrange(0, w)[k] == p.subrange(n - w, n)[k]);
        }
    }
}

proof fn lemma_border_zero(p: Seq<u8>, n: int)
    requires
        1 <= n <= p.len(),
    ensures
        is_border(p, n, 0),
{
    assert(p.subrange(0, 0) =~= p.subrange(n, n));
}

/// Extending a border by one byte, in both directions.
proof fn lemma_border_extend(p: Seq<u8>, n: int, w: int)
    requires
        1 <= n < p.len(),
        0 <= w < n,
    ensures
        is_border(p, n + 1, w + 1) <==> (is_border(p, n, w) && p[w] == p[n]),
{
    lemma_border_index(p, n, w);
    lemma_border_index(p, n + 1, w + 1);
    if is_border(p, n, w) && p[w] == p[n] {
        assert forall|k: int| 0 <= k < w + 1 implies #[trigger] p[k] == p[n + 1 - (w + 1) + k] by {
            if k < w {
                assert(p[k] == p[n - w + k]);
            }
        }
    }
    if is_border(p, n + 1, w + 1) {
        assert(p[w] == p[n + 1 - (w + 1) + w]);
        assert forall|k: int| 0 <= k < w implies #[trigger] p[k] == p[n - w + k] by {
            assert(p[k] == p[n + 1 - (w + 1) + k]);
        }
    }
}

/// A border of a border is a border of the whole prefix.
proof fn lemma_border_trans(p: Seq<u8>, n: int, w1: int, w2: int)
    requires
        is_border(p, n, w1),
        is_border(p, w1, w2),
    ensures
        is_border(p, n, w2),
{
    lemma_border_index(p, n, w1);
    lemma_border_index(p, w1, w2);
    lemma_border_index(p, n, w2);
    assert forall|k: int| 0 <= k < w2 implies #[trigger] p[k] == p[n - w2 + k] by {
        assert(p[k] == p[w1 - w2 + k]);
        assert(p[w1 - w2 + k] == p[n - w1 + (w1 - w2 + k)]);
    }
}

/// Of two borders of the same prefix, the shorter is a border of the
/// longer one.
proof fn lemma_border_nest(p: Seq<u8>, n: int, w1: int, w2: int)
    requires
        is_border(p, n, w1),
        is_border(p, n, w2),
        w1 < w2,
    ensures
        is_border(p, w2, w1),
{
    lemma_border_index(p, n, w1);
    lemma_border_index(p, n, w2);
    lemma_border_index(p, w2, w1);
    assert forall|k: int| 0 <= k < w1 implies #[trigger] p[k] == p[w2 - w1 + k] by {
        assert(p[k] == p[n - w1 + k]);
        assert(p[w2 - w1 + k] == p[n - w2 + (w2 - w1 + k)]);
    }
}

proof fn lemma_pmatch_index(p: Seq<u8>, t: Seq<u8>, i: int, w: int)
    requires
        0 <= w <= p.len(),
        w <= i <= t.len(),
    ensures
        prefix_matches_to(p, t, i, w) <==> (forall|k: int| 0 <= k < w ==> #[trigger] p[k] == t[i - w + k]),
{
    if forall|k: int| 0 <= k < w ==> #[trigger] p[k] == t[i - w + k] {
        assert(t.subrange(i - w, i) =~= p.subrange(0, w));
    }
    if prefix_matches_to(p, t, i, w) {
        assert forall|k: int| 0 <= k < w implies #[trigger] p[k] == t[i - w + k] by {
            assert(t.subrange(i - w, i)[k] == p.subrange(0, w)[k]);
        }
    }
}

proof fn lemma_pmatch_zero(p: Seq<u8>, t: Seq<u8>, i: int)
    requires
        0 <= i <= t.len(),
    ensures
        prefix_matches_to(p, t, i, 0),
{
    assert(t.subrange(i, i) =~= p.subrange(0, 0));
}

/// A matched prefix followed by one more equal byte matches one byte
/// further.
proof fn lemma_pmatch_extend(p: Seq<u8>, t: Seq<u8>, i: int, w: int)
    requires
        prefix_matches_to(p, t, i, w),
        w < p.len(),
        i < t.len(),
        p[w] == t[i],
    ensures
        prefix_matches_to(p, t, i + 1, w + 1),
{
    lemma_pmatch_index(p, t, i, w);
    lemma_pmatch_index(p, t, i + 1, w + 1);
    assert forall|k: int| 0 <= k < w + 1 implies #[trigger] p[k] == t[i + 1 - (w + 1) + k] by {
        if k < w {
            assert(p[k] == t[i - w + k]);
        }
    }
}

/// Dropping the last byte of a matched prefix.
proof fn lemma_pmatch_shrink(p: Seq<u8>, t: Seq<u8>, i: int, w: int)
    requires
        prefix_matches_to(p, t, i, w),
        1 <= w,
    ensures
        prefix_matches_to(p, t, i - 1, w - 1),
        p[w - 1] == t[i - 1],
{
    lemma_pmatch_index(p, t, i, w);
    lemma_pmatch_index(p, t, i - 1, w - 1);
    assert(p[w - 1] == t[i - w + (w - 1)]);
    assert forall|k: int| 0 <= k < w - 1 implies #[trigger] p[k] == t[i - 1 - (w - 1) + k] by {
        assert(p[k] == t[i - w + k]);
    }
}

/// Of two prefixes of `p` matched at the same end position, the shorter
/// is a border of the longer.
proof fn lemma_pmatch_nest(p: Seq<u8>, t: Seq<u8>, i: int, w1: int, w2: int)
    requires
        prefix_matches_to(p, t, i, w1),
        prefix_matches_to(p, t, i, w2),
        w1 < w2,
    ensures
        is_border(p, w2, w1),
{
    lemma_pmatch_index(p, t, i, w1);
    lemma_pmatch_index(p, t, i, w2);
    lemma_border_index(p, w2, w1);
    assert forall|k: int| 0 <= k < w1 implies #[trigger] p[k] == p[w2 - w1 + k] by {
        assert(p[k] == t[i - w1 + k]);
        assert(p[w2 - w1 + k] == t[i - w2 + (w2 - w1 + k)]);
    }
}

/// Falling back from a matched prefix to one of its borders keeps a
/// matched prefix.
proof fn lemma_pmatch_border(p: Seq<u8>, t: Seq<u8>, i: int, b: int, w: int)
    requires
        prefix_matches_to(p, t, i, b),
        is_border(p, b, w),
    ensures
        prefix_matches_to(p, t, i, w),
{
    lemma_pmatch_index(p, t, i, b);
    lemma_border_index(p, b, w);
    lemma_pmatch_index(p, t, i, w);
    assert forall|k: int| 0 <= k < w implies #[trigger] p[k] == t[i - w + k] by {
        assert(p[k] == p[b - w + k]);
        assert(p[b - w + k] == t[i - b + (b - w + k)]);
    }
}

/// A fully matched needle ending at `i` is an occurrence starting at
/// `i - p.len()`, and conversely.
proof fn lemma_pmatch_full(p: Seq<u8>, t: Seq<u8>, i: int)
    requires
        0 <= i <= t.len(),
        p.len() <= i,
    ensures
        prefix_matches_to(p, t, i, p.len() as int) <==> matches_at(p, t, i - p.len()),
{
    assert(p.subrange(0, p.len() as int) =~= p);
}

/// Lower-cases a whole byte slice.
pub(crate) fn fold_vec(s: &[u8]) -> (r: Vec<u8>)
    ensures
        r@ == fold_bytes(s@),
{
    let mut r: Vec<u8> = Vec::new();
    let mut i: usize = 0;
    while i < s.len()
        invariant
            i <= s@.len(),
            r@.len() == i,
            forall|k: int| 0 <= k < i ==> r@[k] == fold_byte(s@[k]),
        decreases s@.len() - i,
    {
        r.push(fold_byte_exec(s[i]));
        i += 1;
    }
    proof {
        assert(r@ =~= fold_bytes(s@));
    }
    r
}

/// Computes the failure table of a keyword: entry `k` holds the index to
/// resume comparison from after a mismatch at position `k + 1`, which is
/// one less than the length of the longest border of `s1[0 ..= k]`.
///
/// The length bound lets every entry fit in an `i64`.
pub fn kmp_table(s1: &Vec<u8>) -> (next: Vec<i64>)
    requires
        s1@.len() <= 0x7fff_ffff_ffff_ffff,
    ensures
        table_valid(s1@, next@),
{
    let ghost p = s1@;
    let mut next: Vec<i64> = Vec::new();
    if s1.len() == 0 {
        return next;
    }
    next.push(-1);
    proof {
        lemma_border_zero(p, 1);
    }
    let mut i: usize = 1;
    let mut j: i64 = -1;
    while i < s1.len()
        invariant
            p == s1@,
            1 <= i <= p.len(),
            p.len() <= 0x7fff_ffff_ffff_ffff,
            next@.len() == i,
            forall|k: int| 0 <= k < i ==> table_entry_valid(p, next@, k),
            j == next@[i - 1],
        decreases p.len() - i,
    {
        proof {
            assert(table_entry_valid(p, next@, i - 1));
            // any border of the prefix one longer shrinks to a border of
            // the current prefix followed by a matching byte
            assert forall|w: int|
                0 <= w < i + 1 && #[trigger] is_border(p, i + 1, w) implies w <= j + 2 by {
                if w >= 1 {
                    lemma_border_extend(p, i as int, w - 1);
                }
            }
        }
        while j > -1 && s1[(j + 1) as usize] != s1[i]
            invariant
                p == s1@,
                1 <= i < p.len(),
                p.len() <= 0x7fff_ffff_ffff_ffff,
                next@.len() == i,
                forall|k: int| 0 <= k < i ==> table_entry_valid(p, next@, k),
                -1 <= j,
                j + 1 < i,
                is_border(p, i as int, j + 1),
                forall|w: int| 0 <= w < i + 1 && #[trigger] is_border(p, i + 1, w) ==> w <= j + 2,
            decreases j + 1,
        {
            let ghost j_old = j as int;
            j = next[j as usize];
            proof {
                assert(table_entry_valid(p, next@, j_old));
                lemma_border_trans(p, i as int, j_old + 1, j as int + 1);
                assert forall|w: int|
                    0 <= w < i + 1 && #[trigger] is_border(p, i + 1, w) implies w <= j + 2 by {
                    if w >= 1 {
                        lemma_border_extend(p, i as int, w - 1);
                        // the byte after the shrunk border differs from
                        // p[i], so it is strictly shorter than j_old + 1
                        if w - 1 == j_old + 1 {
                            lemma_border_index(p, i as int, w - 1);
                        } else {
                            if w - 1 >= 1 {
                                lemma_border_nest(p, i as int, w - 1, j_old + 1);
                            }
                        }
                    }
                }
            }
        }
        let ghost j_before = j as int;
        if s1[i] == s1[(j + 1) as usize] {
            j = j + 1;
            proof {
                if j_before >= 0 {
                    lemma_border_extend(p, i as int, j_before + 1);
                } else {
                    lemma_border_zero(p, i as int);
                    lemma_border_extend(p, i as int, 0);
                }
            }
        } else {
            proof {
                lemma_border_zero(p, i + 1);
                assert forall|w: int| j + 1 < w < i + 1 implies !#[trigger] is_border(p, i + 1, w) by {
                    if is_border(p, i + 1, w) {
                        lemma_border_extend(p, i as int, w - 1);
                        lemma_border_index(p, i as int, w - 1);
                    }
                }
            }
        }
        let ghost tab_old = next@;
        next.push(j);
        proof {
            assert(is_border(p, i + 1, j + 1));
            assert(table_entry_valid(p, next@, i as int));
            assert forall|k: int| 0 <= k < i + 1 implies table_entry_valid(p, next@, k) by {
                if k < i {
                    assert(table_entry_valid(p, tab_old, k));
                    assert(next@[k] == tab_old[k]);
                }
            }
        }
        i += 1;
    }
    next
}

/// Searches for `s1` in `s2` with the Knuth-Morris-Pratt algorithm,
/// case-insensitively: the haystack is folded to lower case before the
/// scan, and the needle is expected already folded by the caller.
///
/// `table` must be the failure table of `s1`, as [`kmp_table`] builds it.
/// An empty needle is contained in every haystack.
pub fn kmp(table: &Vec<i64>, s1: &Vec<u8>, s2: &[u8]) -> (r: bool)
    requires
        table_valid(s1@, table@),
        s1@.len() <= 0x7fff_ffff_ffff_ffff,
    ensures
        r == is_substring_of(s1@, fold_bytes(s2@)),
{
    let ghost p = s1@;
    let t_vec = fold_vec(s2);
    let ghost tf = t_vec@;
    if s1.len() == 0 {
        proof {
            assert(tf.subrange(0, 0) =~= p);
            assert(matches_at(p, tf, 0));
        }
        return true;
    }
    let mut i: usize = 0;
    let mut j: i64 = -1;
    proof {
        lemma_pmatch_zero(p, tf, 0);
    }
    while i < t_vec.len()
        invariant
            p == s1@,
            tf == t_vec@,
            tf == fold_bytes(s2@),
            1 <= p.len() <= 0x7fff_ffff_ffff_ffff,
            table_valid(p, table@),
            0 <= i <= tf.len(),
            -1 <= j,
            j + 1 < p.len(),
            prefix_matches_to(p, tf, i as int, j + 1),
            forall|w: int| j + 1 < w <= p.len() ==> !#[trigger] prefix_matches_to(p, tf, i as int, w),
            forall|e: int| 0 <= e < i ==> !#[trigger] prefix_matches_to(p, tf, e, p.len() as int),
        decreases tf.len() - i,
    {
        proof {
            assert forall|w: int|
                0 <= w <= p.len() && #[trigger] prefix_matches_to(p, tf, i + 1, w) implies w <= j + 2 by {
                if w >= 1 {
                    lemma_pmatch_shrink(p, tf, i + 1, w);
                }
            }
        }
        while j > -1 && s1[(j + 1) as usize] != t_vec[i]
            invariant
                p == s1@,
                tf == t_vec@,
                1 <= p.len() <= 0x7fff_ffff_ffff_ffff,
                table_valid(p, table@),
                0 <= i < tf.len(),
                -1 <= j,
                j + 1 < p.len(),
                prefix_matches_to(p, tf, i as int, j + 1),
                forall|w: int|
                    0 <= w <= p.len() && #[trigger] prefix_matches_to(p, tf, i + 1, w) ==> w <= j + 2,
                !prefix_matches_to(p, tf, i as int, p.len() as int),
            decreases j + 1,
        {
            let ghost j_old = j as int;
            j = table[j as usize];
            proof {
                assert(table_entry_valid(p, table@, j_old));
                if j as int + 1 >= 1 {
                    lemma_pmatch_border(p, tf, i as int, j_old + 1, j as int + 1);
                } else {
                    lemma_pmatch_zero(p, tf, i as int);
                }
                assert forall|w: int|
                    0 <= w <= p.len() && #[trigger] prefix_matches_to(p, tf, i + 1, w) implies w <= j + 2 by {
                    if w >= 1 {
                        lemma_pmatch_shrink(p, tf, i + 1, w);
                        if w - 1 == j_old + 1 {
                            lemma_pmatch_index(p, tf, i as int, w - 1);
                        } else {
                            if w - 1 >= 1 {
                                lemma_pmatch_nest(p, tf, i as int, w - 1, j_old + 1);
                            }
                        }
                    }
                }
            }
        }
        let ghost j_before = j as int;
        if t_vec[i] == s1[(j + 1) as usize] {
            proof {
                if j_before == -1 {
                    lemma_pmatch_zero(p, tf, i as int);
                }
                lemma_pmatch_extend(p, tf, i as int, j_before + 1);
            }
            j = j + 1;
            if j == s1.len() as i64 - 1 {
                proof {
                    lemma_pmatch_full(p, tf, i + 1);
                    assert(matches_at(p, tf, i + 1 - p.len()));
                }
                return true;
            }
        } else {
            proof {
                lemma_pmatch_zero(p, tf, i + 1);
                assert forall|w: int|
                    j + 1 < w <= p.len() implies !#[trigger] prefix_matches_to(p, tf, i + 1, w) by {
                    if prefix_matches_to(p, tf, i + 1, w) {
                        lemma_pmatch_shrink(p, tf, i + 1, w);
                    }
                }
            }
        }
        i += 1;
    }
    proof {
        assert forall|s: int| !matches_at(p, tf, s) by {
            if matches_at(p, tf, s) {
                lemma_pmatch_full(p, tf, s + p.len());
                assert(prefix_matches_to(p, tf, s + p.len(), p.len() as int));
            }
        }
    }
    false
}

/// The boolean a query tree yields on a text: a leaf tests whether its
/// keyword occurs in the lower-cased text, the other nodes combine
/// their children by the boolean truth table.
pub open spec fn spec_eval(n: NodeModel, text: Seq<u8>) -> bool
    decreases n,
{
    match n {
        NodeModel::And(a, b) => spec_eval(*a, text) && spec_eval(*b, text),
        NodeModel::Or(a, b) => spec_eval(*a, text) || spec_eval(*b, text),
        NodeModel::Not(a) => !spec_eval(*a, text),
        NodeModel::Leaf(kw) => is_substring_of(kw, fold_bytes(text)),
    }
}

/// Applies `query` to `s`: short-circuit evaluation over the tree, with
/// the substring search at the leaves.
fn match_bquery(query: &Node, s: &str) -> (r: bool)
    requires
        query.wf(),
    ensures
        r == spec_eval(query.model(), s.spec_bytes()),
    decreases *query,
{
    match query {
        Node::AND(a, b) => match_bquery(&*a, s) && match_bquery(&*b, s),
        Node::OR(a, b) => match_bquery(&*a, s) || match_bquery(&*b, s),
        Node::NOT(a) => !match_bquery(&*a, s),
        Node::Leaf(keyword, jumptable) => kmp(jumptable, keyword, s.as_bytes()),
    }
}

/// The matcher struct holds a single compiled query.
pub struct Matcher {
    query: Node,
}

impl Matcher {
    /// The compiled tree is well formed: every leaf carries the failure
    /// table of its keyword.
    pub closed spec fn wf(&self) -> bool {
        self.query.wf()
    }

    /// The boolean expression this matcher stands for.
    pub closed spec fn model(&self) -> NodeModel {
        self.query.model()
    }

    /// Constructs a new matcher from a query string; compiling once
    /// amortizes tokenizing, parsing and table construction over all
    /// later [`Matcher::query`] calls.
    ///
    /// Returns a [`ParsingError`] if the query is malformed.  The length
    /// bound lets every failure-table entry fit in an `i64`.
    pub fn from(s: &str) -> (r: Result<Self, ParsingError>)
        requires
            s.spec_bytes().len() <= 0x7fff_ffff_ffff_ffff,
        ensures
            match r {
                Ok(m) => m.wf() && spec_compile(s.spec_bytes()) == Ok::<NodeModel, ParsingError>(
                    m.model(),
                ),
                Err(e) => spec_compile(s.spec_bytes()) == Err::<NodeModel, ParsingError>(e),
            },
    {
        match parser::from(s) {
            Ok(q) => Ok(Matcher { query: q }),
            Err(e) => Err(e),
        }
    }

    /// Applies the query to the string.  The result is a pure function
    /// of the compiled expression and the text, so repeated calls on
    /// the same inputs always agree.
    pub fn query(&self, s: &str) -> (r: bool)
        requires
            self.wf(),
        ensures
            r == spec_eval(self.model(), s.spec_bytes()),
    {
        match_bquery(&self.query, s)
    }
}

/// Conjunction and disjunction evaluate by the boolean truth table, so
/// the order of their two operands never affects the result, whatever
/// order an evaluator visits them in.
pub proof fn lemma_and_or_order_irrelevant(a: NodeModel, b: NodeModel, text: Seq<u8>)
    ensures
        spec_eval(NodeModel::And(Box::new(a), Box::new(b)), text) == (spec_eval(a, text)
            && spec_eval(b, text)),
        spec_eval(NodeModel::Or(Box::new(a), Box::new(b)), text) == (spec_eval(a, text)
            || spec_eval(b, text)),
        spec_eval(NodeModel::And(Box::new(a), Box::new(b)), text) == spec_eval(
            NodeModel::And(Box::new(b), Box::new(a)),
            text,
        ),
        spec_eval(NodeModel::Or(Box::new(a), Box::new(b)), text) == spec_eval(
            NodeModel::Or(Box::new(b), Box::new(a)),
            text,
        ),
{
}

/// Matching is case-insensitive in the text: two texts that agree
/// after case folding satisfy exactly the same queries.
pub proof fn lemma_case_insensitive(n: NodeModel, t1: Seq<u8>, t2: Seq<u8>)
    requires
        fold_bytes(t1) == fold_bytes(t2),
    ensures
        spec_eval(n, t1) == spec_eval(n, t2),
    decreases n,
{
    match n {
        NodeModel::And(a, b) => {
            lemma_case_insensitive(*a, t1, t2);
            lemma_case_insensitive(*b, t1, t2);
        },
        NodeModel::Or(a, b) => {
            lemma_case_insensitive(*a, t1, t2);
            lemma_case_insensitive(*b, t1, t2);
        },
        NodeModel::Not(a) => {
            lemma_case_insensitive(*a, t1, t2);
        },
        NodeModel::Leaf(_) => {
        },
    }
}

/// A leaf with an empty keyword matches every text: the empty byte
/// sequence occurs in any haystack at offset zero.
pub proof fn lemma_empty_keyword_matches_all(text: Seq<u8>)
    ensures
        spec_eval(NodeModel::Leaf(Seq::empty()), text),
{
    assert(fold_bytes(text).subrange(0, 0) =~= Seq::<u8>::empty());
    assert(matches_at(Seq::<u8>::empty(), fold_bytes(text), 0));
}

} // verus!
