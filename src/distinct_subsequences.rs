use vstd::prelude::*;

use crate::text::code_points;

verus! {

/// The number of ways to pick positions of `s`, in increasing order, whose
/// code points spell `t`.
pub open spec fn occurrences(s: Seq<char>, t: Seq<char>) -> nat
    decreases s.len(),
{
    if t.len() == 0 {
        1
    } else if s.len() == 0 {
        0
    } else {
        occurrences(s.drop_last(), t) + if s.last() == t.last() {
            occurrences(s.drop_last(), t.drop_last())
        } else {
            0
        }
    }
}

/// `n`, or `usize::MAX` when `n` is larger.
pub open spec fn capped(n: nat) -> nat {
    if n <= usize::MAX {
        n
    } else {
        usize::MAX as nat
    }
}

/// The empty target occurs exactly once in any source, and a target longer
/// than the source occurs in it nowhere.
pub proof fn lemma_occurrences_edges(s: Seq<char>, t: Seq<char>)
    ensures
        occurrences(s, seq![]) == 1,
        t.len() > s.len() ==> occurrences(s, t) == 0,
    decreases s.len(),
{
    if s.len() > 0 {
        lemma_occurrences_edges(s.drop_last(), t);
        lemma_occurrences_edges(s.drop_last(), t.drop_last());
    }
}

/// A sequence occurs exactly once in itself.
pub proof fn lemma_occurrences_self(s: Seq<char>)
    ensures
        occurrences(s, s) == 1,
    decreases s.len(),
{
    if s.len() > 0 {
        lemma_occurrences_edges(s.drop_last(), s);
        lemma_occurrences_self(s.drop_last());
    }
}

proof fn lemma_occurrences_step(s: Seq<char>, t: Seq<char>, i: int, j: int)
    requires
        0 <= i < t.len(),
        0 <= j < s.len(),
    ensures
        occurrences(s.take(j + 1), t.take(i + 1)) == occurrences(s.take(j), t.take(i + 1)) + if s[j]
            == t[i] {
            occurrences(s.take(j), t.take(i))
        } else {
            0
        },
{
    assert(s.take(j + 1).drop_last() =~= s.take(j));
    assert(t.take(i + 1).drop_last() =~= t.take(i));
    assert(s.take(j + 1).last() == s[j]);
    assert(t.take(i + 1).last() == t[i]);
}

/// The number of times `t` occurs as a subsequence of `s`, or `None` when
/// that number is `usize::MAX` or more.
pub fn checked_num_distinct(s: &String, t: &String) -> (r: Option<usize>)
    ensures
        r == if occurrences(s@, t@) < usize::MAX {
            Some(occurrences(s@, t@) as usize)
        } else {
            None::<usize>
        },
{
    let s_words = code_points(s);
    let t_words = code_points(t);
    let m = s_words.len();
    let n = t_words.len();
    let ghost sv = s_words@;
    let ghost tv = t_words@;
    let mut top: Vec<usize> = Vec::new();
    top.push(1);
    for j in 0..m
        invariant
            m == s_words.len(),
            top.len() == j + 1,
            forall|k: int| 0 <= k <= j ==> #[trigger] top[k] == 1,
    {
        top.push(1);
    }
    proof {
        assert(tv.take(0) =~= Seq::<char>::empty());
        assert(sv.take(m as int) =~= sv);
        assert(tv.take(n as int) =~= tv);
        assert forall|k: int| 0 <= k <= m implies #[trigger] top[k] == capped(
            occurrences(sv.take(k), tv.take(0)),
        ) by {
            lemma_occurrences_edges(sv.take(k), tv);
        }
    }
    for i in 0..n
        invariant
            m == s_words.len(),
            n == t_words.len(),
            sv == s_words@,
            tv == t_words@,
            top.len() == m + 1,
            forall|k: int|
                0 <= k <= m ==> #[trigger] top[k] == capped(
                    occurrences(sv.take(k), tv.take(i as int)),
                ),
    {
        let mut current: Vec<usize> = Vec::new();
        current.push(0);
        for j in 0..m
            invariant
                m == s_words.len(),
                n == t_words.len(),
                i < n,
                sv == s_words@,
                tv == t_words@,
                top.len() == m + 1,
                forall|k: int|
                    0 <= k <= m ==> #[trigger] top[k] == capped(
                        occurrences(sv.take(k), tv.take(i as int)),
                    ),
                current.len() == j + 1,
                forall|k: int|
                    0 <= k <= j ==> #[trigger] current[k] == capped(
                        occurrences(sv.take(k), tv.take(i + 1)),
                    ),
        {
            proof {
                lemma_occurrences_step(sv, tv, i as int, j as int);
            }
            if t_words[i] == s_words[j] {
                current.push(current[j].saturating_add(top[j]));
            } else {
                current.push(current[j]);
            }
        }
        top = current;
    }
    if top[m] < usize::MAX {
        Some(top[m])
    } else {
        None
    }
}

/// The number of times `t` occurs as a subsequence of `s`: the number of
/// distinct sets of positions of `s` that spell `t`.
pub fn num_distinct(s: String, t: String) -> (r: usize)
    requires
        occurrences(s@, t@) < usize::MAX,
    ensures
        r == occurrences(s@, t@),
{
    match checked_num_distinct(&s, &t) {
        Some(v) => v,
        None => 0,
    }
}

} // verus!
