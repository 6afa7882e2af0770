use vstd::prelude::*;

use crate::text::code_points;
use vstd::string::StrSliceExecFns;

verus! {

pub open spec fn min_nat(x: nat, y: nat) -> nat {
    if x <= y {
        x
    } else {
        y
    }
}

pub open spec fn max_nat(x: nat, y: nat) -> nat {
    if x >= y {
        x
    } else {
        y
    }
}

/// Levenshtein distance between two code-point sequences: the fewest
/// single code-point insertions, deletions and substitutions that turn
/// `a` into `b`, defined by the usual recurrence on prefixes.
pub open spec fn levenshtein(a: Seq<char>, b: Seq<char>) -> nat
    decreases a.len() + b.len(),
{
    if a.len() == 0 {
        b.len()
    } else if b.len() == 0 {
        a.len()
    } else {
        let substitution: nat = if a.last() == b.last() {
            0
        } else {
            1
        };
        min_nat(
            min_nat(levenshtein(a.drop_last(), b) + 1, levenshtein(a, b.drop_last()) + 1),
            levenshtein(a.drop_last(), b.drop_last()) + substitution,
        )
    }
}

/// The distance between a sequence and itself is zero.
pub proof fn lemma_levenshtein_self(a: Seq<char>)
    ensures
        levenshtein(a, a) == 0,
    decreases a.len(),
{
    if a.len() > 0 {
        lemma_levenshtein_self(a.drop_last());
    }
}

/// The distance does not depend on the order of its arguments.
pub proof fn lemma_levenshtein_symmetric(a: Seq<char>, b: Seq<char>)
    ensures
        levenshtein(a, b) == levenshtein(b, a),
    decreases a.len() + b.len(),
{
    if a.len() > 0 && b.len() > 0 {
        lemma_levenshtein_symmetric(a.drop_last(), b);
        lemma_levenshtein_symmetric(a, b.drop_last());
        lemma_levenshtein_symmetric(a.drop_last(), b.drop_last());
    }
}

/// The distance is at least the difference of the lengths and at most
/// the longer length.
pub proof fn lemma_levenshtein_bounds(a: Seq<char>, b: Seq<char>)
    ensures
        levenshtein(a, b) <= max_nat(a.len(), b.len()),
        levenshtein(a, b) >= a.len() - b.len(),
        levenshtein(a, b) >= b.len() - a.len(),
    decreases a.len() + b.len(),
{
    if a.len() > 0 && b.len() > 0 {
        lemma_levenshtein_bounds(a.drop_last(), b);
        lemma_levenshtein_bounds(a, b.drop_last());
        lemma_levenshtein_bounds(a.drop_last(), b.drop_last());
    }
}

proof fn lemma_levenshtein_step(a: Seq<char>, b: Seq<char>, i: int, j: int)
    requires
        0 <= i < a.len(),
        0 <= j < b.len(),
    ensures
        levenshtein(a.take(i + 1), b.take(j + 1)) == min_nat(
            min_nat(
                levenshtein(a.take(i), b.take(j + 1)) + 1,
                levenshtein(a.take(i + 1), b.take(j)) + 1,
            ),
            levenshtein(a.take(i), b.take(j)) + (if a[i] == b[j] {
                0nat
            } else {
                1nat
            }),
        ),
{
    assert(a.take(i + 1).drop_last() =~= a.take(i));
    assert(b.take(j + 1).drop_last() =~= b.take(j));
    assert(a.take(i + 1).last() == a[i]);
    assert(b.take(j + 1).last() == b[j]);
}

/// Levenshtein distance between the code points of `word1` and `word2`.
pub fn edit_distance(word1: &String, word2: &String) -> (r: usize)
    ensures
        r == levenshtein(word1@, word2@),
{
    let a = code_points(word1);
    let b = code_points(word2);
    let m = a.len();
    let n = b.len();
    proof {
        assert(a@.take(m as int) =~= a@);
        assert(b@.take(n as int) =~= b@);
    }
    let mut prev: Vec<usize> = Vec::new();
    prev.push(0);
    for j in 0..n
        invariant
            n == b.len(),
            prev.len() == j + 1,
            forall|k: int| 0 <= k <= j ==> prev[k] == k,
    {
        prev.push(j + 1);
    }
    for i in 0..m
        invariant
            m == a.len(),
            n == b.len(),
            prev.len() == n + 1,
            forall|k: int|
                0 <= k <= n ==> #[trigger] prev[k] == levenshtein(a@.take(i as int), b@.take(k)),
    {
        let mut cur: Vec<usize> = Vec::new();
        cur.push(i + 1);
        for j in 0..n
            invariant
                m == a.len(),
                n == b.len(),
                i < m,
                prev.len() == n + 1,
                forall|k: int|
                    0 <= k <= n ==> #[trigger] prev[k] == levenshtein(a@.take(i as int), b@.take(k)),
                cur.len() == j + 1,
                forall|k: int|
                    0 <= k <= j ==> #[trigger] cur[k] == levenshtein(
                        a@.take(i + 1),
                        b@.take(k),
                    ),
        {
            proof {
                lemma_levenshtein_step(a@, b@, i as int, j as int);
                lemma_levenshtein_bounds(a@.take(i as int), b@.take(j as int));
            }
            let cost: usize = if a[i] == b[j] {
                0
            } else {
                1
            };
            let diagonal = prev[j] + cost;
            let side = if cur[j] <= prev[j + 1] {
                cur[j]
            } else {
                prev[j + 1]
            };
            let value = if side < diagonal {
                side + 1
            } else {
                diagonal
            };
            cur.push(value);
        }
        prev = cur;
    }
    prev[n]
}

/// A similarity threshold, the fraction `num / den`.
#[derive(Clone, Copy, Debug, PartialEq, Eq)]
pub struct Cutoff {
    pub num: i64,
    pub den: u64,
}

impl Cutoff {
    /// The fraction is a number in the closed interval [0, 1].
    pub open spec fn is_valid(self) -> bool {
        self.den > 0 && 0 <= self.num <= self.den
    }

    pub fn in_range(&self) -> (r: bool)
        ensures
            r == self.is_valid(),
    {
        self.den > 0 && 0 <= self.num && self.num as i128 <= self.den as i128
    }
}

/// Whether `1 - distance / longest` (taken as 1 when `longest` is 0) is at
/// least the cutoff `c`.
pub open spec fn ratio_meets(distance: int, longest: int, c: Cutoff) -> bool {
    if longest == 0 {
        c.den >= c.num
    } else {
        (longest - distance) * c.den >= c.num * longest
    }
}

/// How alike two sequences are, kept as an exact fraction: the ratio is
/// `1 - distance / longest`, or 1 when both sequences are empty.
#[derive(Clone, Copy, Debug, PartialEq, Eq)]
pub struct Similarity {
    pub distance: usize,
    pub longest: usize,
}

impl Similarity {
    pub open spec fn numerator(self) -> int {
        if self.longest == 0 {
            1
        } else {
            self.longest - self.distance
        }
    }

    pub open spec fn denominator(self) -> int {
        if self.longest == 0 {
            1
        } else {
            self.longest as int
        }
    }

    /// This is the similarity of `a` and `b`.
    pub open spec fn is_of(self, a: Seq<char>, b: Seq<char>) -> bool {
        &&& self.distance == levenshtein(a, b)
        &&& self.longest == max_nat(a.len(), b.len())
    }

    pub open spec fn meets(self, c: Cutoff) -> bool {
        ratio_meets(self.distance as int, self.longest as int, c)
    }

    /// Whether the ratio is at least `cutoff`, compared exactly.
    pub fn at_least(&self, cutoff: &Cutoff) -> (r: bool)
        requires
            self.distance <= self.longest,
            cutoff.is_valid(),
        ensures
            r == self.meets(*cutoff),
    {
        let num: u128 = if self.longest == 0 {
            1
        } else {
            (self.longest - self.distance) as u128
        };
        let den: u128 = if self.longest == 0 {
            1
        } else {
            self.longest as u128
        };
        let cut_num = cutoff.num as u128;
        let cut_den = cutoff.den as u128;
        proof {
            assert(num * cut_den <= 0xffff_ffff_ffff_ffffu128 * 0xffff_ffff_ffff_ffffu128)
                by (nonlinear_arith)
                requires
                    num <= 0xffff_ffff_ffff_ffffu128,
                    cut_den <= 0xffff_ffff_ffff_ffffu128,
            ;
            assert(cut_num * den <= 0xffff_ffff_ffff_ffffu128 * 0xffff_ffff_ffff_ffffu128)
                by (nonlinear_arith)
                requires
                    den <= 0xffff_ffff_ffff_ffffu128,
                    cut_num <= 0xffff_ffff_ffff_ffffu128,
            ;
        }
        num * cut_den >= cut_num * den
    }
}

/// The similarity of `word1` and `word2`: their edit distance over the
/// longer code-point length.
pub fn string_similarity(word1: &String, word2: &String) -> (r: Similarity)
    ensures
        r.is_of(word1@, word2@),
        0 <= r.numerator() <= r.denominator(),
        word1@ == word2@ ==> r.numerator() == r.denominator(),
{
    let distance = edit_distance(word1, word2);
    let m = word1.as_str().unicode_len();
    let n = word2.as_str().unicode_len();
    let longest = if m >= n {
        m
    } else {
        n
    };
    proof {
        lemma_levenshtein_bounds(word1@, word2@);
        if word1@ == word2@ {
            lemma_levenshtein_self(word1@);
        }
    }
    Similarity { distance, longest }
}

/// One accepted pairing of a fuzzy match.
#[derive(Debug)]
pub struct MetchResult {
    pub first: String,
    pub second: String,
    pub ratio: Similarity,
}

impl MetchResult {
    pub fn new(first: String, second: String, ratio: Similarity) -> (r: Self)
        ensures
            r.first == first,
            r.second == second,
            r.ratio == ratio,
    {
        MetchResult { first, second, ratio }
    }

    /// This record holds the pair `p` and the similarity of its two sides.
    pub open spec fn describes(self, p: (Seq<char>, Seq<char>)) -> bool {
        &&& self.first@ == p.0
        &&& self.second@ == p.1
        &&& self.ratio.is_of(p.0, p.1)
    }
}

/// The cutoff handed to a fuzzy match lies outside [0, 1].
#[derive(Clone, Copy, Debug, PartialEq, Eq)]
pub struct InvalidArgument {
    pub cutoff: Cutoff,
}

pub open spec fn views(v: Seq<String>) -> Seq<Seq<char>> {
    v.map_values(|s: String| s@)
}

/// The pair of `a` and `b` is close enough for cutoff `c`.
pub open spec fn similar_enough(a: Seq<char>, b: Seq<char>, c: Cutoff) -> bool {
    ratio_meets(levenshtein(a, b) as int, max_nat(a.len(), b.len()) as int, c)
}

/// The pairs `(x, y)`, `y` taken from `ys` in order, that meet cutoff `c`.
pub open spec fn row_matches(x: Seq<char>, ys: Seq<Seq<char>>, c: Cutoff) -> Seq<(Seq<char>, Seq<char>)>
    decreases ys.len(),
{
    if ys.len() == 0 {
        seq![]
    } else {
        let rest = row_matches(x, ys.drop_last(), c);
        if similar_enough(x, ys.last(), c) {
            rest.push((x, ys.last()))
        } else {
            rest
        }
    }
}

/// The pairs of `xs` by `ys` that meet cutoff `c`, `xs` in the outer order
/// and `ys` in the inner one.
pub open spec fn all_matches(xs: Seq<Seq<char>>, ys: Seq<Seq<char>>, c: Cutoff) -> Seq<(Seq<char>, Seq<char>)>
    decreases xs.len(),
{
    if xs.len() == 0 {
        seq![]
    } else {
        all_matches(xs.drop_last(), ys, c) + row_matches(xs.last(), ys, c)
    }
}

/// `v` lists the pairs `p`, one record per pair and in the same order.
pub open spec fn reports(v: Seq<MetchResult>, p: Seq<(Seq<char>, Seq<char>)>) -> bool {
    &&& v.len() == p.len()
    &&& forall|k: int| 0 <= k < v.len() ==> #[trigger] v[k].describes(p[k])
}

proof fn lemma_row_matches_bounds(x: Seq<char>, ys: Seq<Seq<char>>, c: Cutoff)
    ensures
        row_matches(x, ys, c).len() <= ys.len(),
        forall|k: int|
            0 <= k < row_matches(x, ys, c).len() ==> similar_enough(
                #[trigger] row_matches(x, ys, c)[k].0,
                row_matches(x, ys, c)[k].1,
                c,
            ),
    decreases ys.len(),
{
    if ys.len() > 0 {
        lemma_row_matches_bounds(x, ys.drop_last(), c);
    }
}

proof fn lemma_all_matches_bounds(xs: Seq<Seq<char>>, ys: Seq<Seq<char>>, c: Cutoff)
    ensures
        all_matches(xs, ys, c).len() <= xs.len() * ys.len(),
        forall|k: int|
            0 <= k < all_matches(xs, ys, c).len() ==> similar_enough(
                #[trigger] all_matches(xs, ys, c)[k].0,
                all_matches(xs, ys, c)[k].1,
                c,
            ),
    decreases xs.len(),
{
    if xs.len() > 0 {
        let head = all_matches(xs.drop_last(), ys, c);
        let row = row_matches(xs.last(), ys, c);
        lemma_all_matches_bounds(xs.drop_last(), ys, c);
        lemma_row_matches_bounds(xs.last(), ys, c);
        let n = xs.len();
        let m = ys.len();
        assert((n - 1) * m + m == n * m) by (nonlinear_arith);
        assert forall|k: int| 0 <= k < all_matches(xs, ys, c).len() implies similar_enough(
            #[trigger] all_matches(xs, ys, c)[k].0,
            all_matches(xs, ys, c)[k].1,
            c,
        ) by {
            if k < head.len() {
                assert(all_matches(xs, ys, c)[k] == head[k]);
            } else {
                assert(all_matches(xs, ys, c)[k] == row[k - head.len()]);
            }
        }
    }
}

/// The records of a fuzzy match number at most the size of the cross
/// product of its two lists, and the ratio of each is at least the cutoff.
pub proof fn lemma_fuzzy_match_output(
    first: Seq<String>,
    second: Seq<String>,
    cutoff: Cutoff,
    output: Seq<MetchResult>,
)
    requires
        reports(output, all_matches(views(first), views(second), cutoff)),
    ensures
        output.len() <= first.len() * second.len(),
        forall|k: int| 0 <= k < output.len() ==> #[trigger] output[k].ratio.meets(cutoff),
{
    let pairs = all_matches(views(first), views(second), cutoff);
    lemma_all_matches_bounds(views(first), views(second), cutoff);
    assert forall|k: int| 0 <= k < output.len() implies #[trigger] output[k].ratio.meets(cutoff) by {
        assert(output[k].describes(pairs[k]));
        assert(similar_enough(pairs[k].0, pairs[k].1, cutoff));
    }
}

/// Compares every string of `first_workds` with every string of
/// `second_words` and keeps the pairs whose similarity is at least
/// `cutoff`, in the order of the first list and then of the second.
/// Fails, before any comparison, when `cutoff` lies outside [0, 1].
pub fn fuzzy_match(
    first_workds: Vec<String>,
    second_words: Vec<String>,
    cutoff: Cutoff,
) -> (r: Result<Vec<MetchResult>, InvalidArgument>)
    ensures
        match r {
            Ok(v) => cutoff.is_valid() && reports(
                v@,
                all_matches(views(first_workds@), views(second_words@), cutoff),
            ),
            Err(e) => !cutoff.is_valid() && e.cutoff == cutoff,
        },
{
    if !cutoff.in_range() {
        return Err(InvalidArgument { cutoff });
    }
    let ghost xs = views(first_workds@);
    let ghost ys = views(second_words@);
    let mut result: Vec<MetchResult> = Vec::new();
    for i in 0..first_workds.len()
        invariant
            cutoff.is_valid(),
            xs == views(first_workds@),
            ys == views(second_words@),
            reports(result@, all_matches(xs.take(i as int), ys, cutoff)),
    {
        let first = &first_workds[i];
        let ghost head = all_matches(xs.take(i as int), ys, cutoff);
        for j in 0..second_words.len()
            invariant
                cutoff.is_valid(),
                i < first_workds.len(),
                first == first_workds[i as int],
                xs == views(first_workds@),
                ys == views(second_words@),
                head == all_matches(xs.take(i as int), ys, cutoff),
                reports(result@, head + row_matches(xs[i as int], ys.take(j as int), cutoff)),
        {
            let second = &second_words[j];
            let ratio = string_similarity(first, second);
            let ghost before = row_matches(xs[i as int], ys.take(j as int), cutoff);
            proof {
                assert(ys.take(j + 1).drop_last() =~= ys.take(j as int));
                assert(ys.take(j + 1).last() == second@);
                assert(xs[i as int] == first@);
            }
            if ratio.at_least(&cutoff) {
                let record = MetchResult::new(first.clone(), second.clone(), ratio);
                result.push(record);
                proof {
                    assert(head + before.push((first@, second@)) =~= (head + before).push(
                        (first@, second@),
                    ));
                }
            }
        }
        proof {
            assert(ys.take(second_words.len() as int) =~= ys);
            assert(xs.take(i + 1).drop_last() =~= xs.take(i as int));
            assert(xs.take(i + 1).last() == xs[i as int]);
        }
    }
    proof {
        assert(xs.take(first_workds.len() as int) =~= xs);
    }
    Ok(result)
}

} // verus!
