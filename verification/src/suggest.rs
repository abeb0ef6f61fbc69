//! Edit distance between capability names, and the nearest known name that a
//! misspelt capability is likely meant to be.
use vstd::prelude::*;

use vstd::utf8::encode_utf8;

use crate::names::NameSet;
use crate::text::{lemma_lex_asymmetric, lemma_lex_total, lemma_lex_transitive, lex_lt, str_chars, str_lt};

verus! {

pub open spec fn min3(x: nat, y: nat, z: nat) -> nat {
    if x <= y && x <= z {
        x
    } else if y <= z {
        y
    } else {
        z
    }
}

/// The Levenshtein distance between two character sequences: the least
/// number of single-character insertions, deletions and substitutions that
/// turn `a` into `b`.
pub open spec fn levenshtein(a: Seq<char>, b: Seq<char>) -> nat
    decreases a.len() + b.len(),
{
    if a.len() == 0 {
        b.len()
    } else if b.len() == 0 {
        a.len()
    } else {
        min3(
            levenshtein(a.drop_last(), b) + 1,
            levenshtein(a, b.drop_last()) + 1,
            levenshtein(a.drop_last(), b.drop_last()) + if a.last() == b.last() {
                0nat
            } else {
                1nat
            },
        )
    }
}

/// The distance never exceeds the length of the longer sequence.
pub proof fn lemma_levenshtein_upper_bound(a: Seq<char>, b: Seq<char>)
    ensures
        levenshtein(a, b) <= if a.len() >= b.len() {
            a.len()
        } else {
            b.len()
        },
    decreases a.len() + b.len(),
{
    if a.len() > 0 && b.len() > 0 {
        lemma_levenshtein_upper_bound(a.drop_last(), b.drop_last());
    }
}

/// The distance is at least the difference of the lengths.
pub proof fn lemma_levenshtein_lower_bound(a: Seq<char>, b: Seq<char>)
    ensures
        levenshtein(a, b) >= a.len() - b.len(),
        levenshtein(a, b) >= b.len() - a.len(),
    decreases a.len() + b.len(),
{
    if a.len() > 0 && b.len() > 0 {
        lemma_levenshtein_lower_bound(a.drop_last(), b);
        lemma_levenshtein_lower_bound(a, b.drop_last());
        lemma_levenshtein_lower_bound(a.drop_last(), b.drop_last());
    }
}

/// The distance from a sequence to itself is zero.
pub proof fn lemma_levenshtein_self(a: Seq<char>)
    ensures
        levenshtein(a, a) == 0,
    decreases a.len(),
{
    if a.len() > 0 {
        lemma_levenshtein_self(a.drop_last());
    }
}

/// Only equal sequences are at distance zero.
pub proof fn lemma_levenshtein_zero(a: Seq<char>, b: Seq<char>)
    requires
        levenshtein(a, b) == 0,
    ensures
        a == b,
    decreases a.len() + b.len(),
{
    if a.len() == 0 || b.len() == 0 {
        assert(a =~= b);
    } else {
        lemma_levenshtein_zero(a.drop_last(), b.drop_last());
        assert(a =~= a.drop_last().push(a.last()));
        assert(b =~= b.drop_last().push(b.last()));
    }
}

/// The distance does not depend on the order of its arguments.
pub proof fn lemma_levenshtein_symmetric(a: Seq<char>, b: Seq<char>)
    ensures
        levenshtein(a, b) == levenshtein(b, a),
    decreases a.len() + b.len(),
{
    if a.len() > 0 && b.len() > 0 {
        lemma_levenshtein_symmetric(a.drop_last(), b);
        lemma_levenshtein_symmetric(a, b.drop_last());
        lemma_levenshtein_symmetric(a.drop_last(), b.drop_last());
    }
}

proof fn lemma_take_drop_last(s: Seq<char>, i: int)
    requires
        0 < i <= s.len(),
    ensures
        s.take(i).drop_last() == s.take(i - 1),
        s.take(i).last() == s[i - 1],
        s.take(i).len() == i,
{
    assert(s.take(i).drop_last() =~= s.take(i - 1));
}

/// The Levenshtein distance between the characters of `left` and `right`.
pub fn edit_distance(left: &str, right: &str) -> (distance: usize)
    ensures
        distance == levenshtein(left@, right@),
{
    let left_chars = str_chars(left);
    let right_chars = str_chars(right);
    let ghost a = left_chars@;
    let ghost b = right_chars@;
    let n = right_chars.len();
    let m = left_chars.len();
    assert(a.len() == m && b.len() == n);

    // previous[k] holds the distance from the first i characters of `left`
    // to the first k + 1 characters of `right`; previous_first the distance
    // to the empty prefix.
    let mut previous: Vec<usize> = Vec::new();
    let mut k: usize = 0;
    while k < n
        invariant
            n == b.len(),
            k <= n,
            previous@.len() == k,
            forall|j: int| 0 <= j < k ==> previous@[j] == levenshtein(a.take(0), b.take(j + 1)),
        decreases n - k,
    {
        assert(a.take(0).len() == 0);
        previous.push(k + 1);
        k = k + 1;
    }
    let mut previous_first: usize = 0;
    let mut i: usize = 0;
    while i < left_chars.len()
        invariant
            n == b.len(),
            a == left_chars@,
            b == right_chars@,
            i <= a.len(),
            a.len() == m,
            previous@.len() == n,
            previous_first == i,
            previous_first == levenshtein(a.take(i as int), b.take(0)),
            forall|j: int|
                0 <= j < n ==> previous@[j] == levenshtein(a.take(i as int), b.take(j + 1)),
        decreases a.len() - i,
    {
        let left_char = left_chars[i];
        let current_first: usize = i + 1;
        proof {
            lemma_take_drop_last(a, i + 1);
        }
        let mut current: Vec<usize> = Vec::new();
        let mut before: usize = current_first;
        let mut diagonal: usize = previous_first;
        let mut j: usize = 0;
        while j < n
            invariant
                n == b.len(),
                a == left_chars@,
                b == right_chars@,
                i < a.len(),
                a.len() == m,
                left_char == a[i as int],
                j <= n,
                previous@.len() == n,
                current@.len() == j,
                forall|t: int|
                    0 <= t < n ==> previous@[t] == levenshtein(a.take(i as int), b.take(t + 1)),
                forall|t: int|
                    0 <= t < j ==> current@[t] == levenshtein(a.take(i + 1), b.take(t + 1)),
                before == levenshtein(a.take(i + 1), b.take(j as int)),
                diagonal == levenshtein(a.take(i as int), b.take(j as int)),
                a.take(i + 1).drop_last() == a.take(i as int),
                a.take(i + 1).last() == a[i as int],
            decreases n - j,
        {
            let above = previous[j];
            let right_char = right_chars[j];
            let insertion = before.saturating_add(1);
            let deletion = above.saturating_add(1);
            let differs: usize = if left_char != right_char {
                1
            } else {
                0
            };
            let substitution = diagonal.saturating_add(differs);
            let mut best = insertion;
            if deletion < best {
                best = deletion;
            }
            if substitution < best {
                best = substitution;
            }
            proof {
                let ga = a.take(i + 1);
                let gb = b.take(j + 1);
                lemma_take_drop_last(b, j + 1);
                lemma_levenshtein_upper_bound(ga, gb);
                assert(ga.len() > 0 && gb.len() > 0);
                assert(levenshtein(ga, gb) == min3(
                    levenshtein(ga.drop_last(), gb) + 1,
                    levenshtein(ga, gb.drop_last()) + 1,
                    levenshtein(ga.drop_last(), gb.drop_last()) + if ga.last() == gb.last() {
                        0nat
                    } else {
                        1nat
                    },
                ));
                assert(ga.len() <= usize::MAX);
                assert(gb.len() <= usize::MAX);
            }
            current.push(best);
            before = best;
            diagonal = above;
            j = j + 1;
        }
        previous = current;
        previous_first = current_first;
        i = i + 1;
    }
    proof {
        assert(a.take(a.len() as int) =~= a);
        assert(b.take(b.len() as int) =~= b);
    }
    if n == 0 {
        previous_first
    } else {
        previous[n - 1]
    }
}

/// The farthest a known name may be from a misspelt one to be suggested.
pub open spec fn suggestion_reach() -> nat {
    3
}

/// The length in bytes of the UTF-8 encoding of `s`, as `str::len` reports it.
pub open spec fn byte_len(s: Seq<char>) -> usize {
    encode_utf8(s).len() as usize
}

/// Whether `k` is close enough to `name` to be suggested for it.
pub open spec fn within_reach(name: Seq<char>, k: Seq<char>) -> bool {
    levenshtein(name, k) <= suggestion_reach()
}

/// Whether `k1` is a better suggestion for `name` than `k2`: nearer, or as near
/// and shorter in bytes, or as near and as long and lexicographically first.
pub open spec fn ranks_before(name: Seq<char>, k1: Seq<char>, k2: Seq<char>) -> bool {
    let d1 = levenshtein(name, k1);
    let d2 = levenshtein(name, k2);
    ||| d1 < d2
    ||| d1 == d2 && byte_len(k1) < byte_len(k2)
    ||| d1 == d2 && byte_len(k1) == byte_len(k2) && lex_lt(k1, k2)
}

/// Whether `k` is the best suggestion for `name` among `names`.
pub open spec fn is_closest(name: Seq<char>, names: Set<Seq<char>>, k: Seq<char>) -> bool {
    &&& names.contains(k)
    &&& within_reach(name, k)
    &&& forall|j: Seq<char>|
        #![trigger names.contains(j)]
        names.contains(j) && within_reach(name, j) && j != k ==> ranks_before(name, k, j)
}

/// The best suggestion for `name` among `names`, if any name is within reach.
pub open spec fn closest_spec(name: Seq<char>, names: Set<Seq<char>>) -> Option<Seq<char>> {
    if exists|k: Seq<char>| is_closest(name, names, k) {
        Some(choose|k: Seq<char>| is_closest(name, names, k))
    } else {
        None
    }
}

pub proof fn lemma_ranks_before_transitive(name: Seq<char>, a: Seq<char>, b: Seq<char>, c: Seq<char>)
    requires
        ranks_before(name, a, b),
        ranks_before(name, b, c),
    ensures
        ranks_before(name, a, c),
{
    if levenshtein(name, a) == levenshtein(name, c) && byte_len(a) == byte_len(c) {
        lemma_lex_transitive(a, b, c);
    }
}

pub proof fn lemma_ranks_before_asymmetric(name: Seq<char>, a: Seq<char>, b: Seq<char>)
    ensures
        ranks_before(name, a, b) ==> !ranks_before(name, b, a),
{
    lemma_lex_asymmetric(a, b);
}

pub proof fn lemma_ranks_before_total(name: Seq<char>, a: Seq<char>, b: Seq<char>)
    requires
        a != b,
    ensures
        ranks_before(name, a, b) || ranks_before(name, b, a),
{
    lemma_lex_total(a, b);
}

/// At most one name is the best suggestion.
pub proof fn lemma_closest_unique(name: Seq<char>, names: Set<Seq<char>>, k1: Seq<char>, k2: Seq<char>)
    requires
        is_closest(name, names, k1),
        is_closest(name, names, k2),
    ensures
        k1 == k2,
{
    if k1 != k2 {
        assert(names.contains(k2));
        assert(names.contains(k1));
        lemma_ranks_before_asymmetric(name, k1, k2);
    }
}

/// A name that is itself known is its own best suggestion.
pub proof fn lemma_closest_of_known(name: Seq<char>, names: Set<Seq<char>>)
    requires
        names.contains(name),
    ensures
        closest_spec(name, names) == Some(name),
{
    lemma_levenshtein_self(name);
    assert forall|j: Seq<char>|
        #![trigger names.contains(j)]
        names.contains(j) && within_reach(name, j) && j != name implies ranks_before(name, name, j) by {
        if levenshtein(name, j) == 0 {
            lemma_levenshtein_zero(name, j);
        }
    }
    assert(is_closest(name, names, name));
    let c = choose|c: Seq<char>| is_closest(name, names, c);
    lemma_closest_unique(name, names, c, name);
}

/// The known name nearest to `name` (at most three edits away), preferring
/// the shorter name on a tie and then the lexicographically first.
pub fn closest_name<'a>(name: &str, known_names: &'a NameSet) -> (closest: Option<&'a str>)
    ensures
        match closest {
            Some(k) => closest_spec(name@, known_names@) == Some(k@),
            None => closest_spec(name@, known_names@) is None,
        },
        closest is None <==> forall|k: Seq<char>|
            #![trigger known_names@.contains(k)]
            known_names@.contains(k) ==> !within_reach(name@, k),
{
    let n = known_names.len();
    let ghost names = known_names.seq();
    let mut best: Option<usize> = None;
    let mut best_distance: usize = 0;
    let mut best_len: usize = 0;
    let mut i: usize = 0;
    while i < n
        invariant
            n == names.len(),
            names == known_names.seq(),
            names.no_duplicates(),
            i <= n,
            match best {
                None => forall|t: int| 0 <= t < i ==> !within_reach(name@, #[trigger] names[t]),
                Some(b) => {
                    &&& b < i
                    &&& within_reach(name@, names[b as int])
                    &&& best_distance == levenshtein(name@, names[b as int])
                    &&& best_len == byte_len(names[b as int])
                    &&& forall|t: int|
                        0 <= t < i && t != b && within_reach(name@, #[trigger] names[t])
                            ==> ranks_before(name@, names[b as int], names[t])
                },
            },
        decreases n - i,
    {
        let candidate = known_names.get(i);
        let distance = edit_distance(name, candidate.as_str());
        if distance <= 3 {
            let candidate_len = candidate.as_str().len();
            let better = match best {
                None => true,
                Some(b) => {
                    distance < best_distance || (distance == best_distance && (candidate_len
                        < best_len || (candidate_len == best_len && str_lt(
                        candidate.as_str(),
                        known_names.get(b).as_str(),
                    ))))
                },
            };
            proof {
                if let Some(b) = best {
                    assert(names[b as int] != names[i as int]);
                    if better {
                        assert(ranks_before(name@, names[i as int], names[b as int]));
                        assert forall|t: int|
                            0 <= t < i + 1 && t != i && within_reach(name@, #[trigger] names[t])
                                implies ranks_before(name@, names[i as int], names[t]) by {
                            if t != b {
                                lemma_ranks_before_transitive(name@, names[i as int], names[b as int], names[t]);
                            }
                        }
                    } else {
                        lemma_ranks_before_total(name@, names[b as int], names[i as int]);
                    }
                } else {
                    assert forall|t: int|
                        0 <= t < i + 1 && t != i && within_reach(name@, #[trigger] names[t])
                            implies ranks_before(name@, names[i as int], names[t]) by {
                    }
                }
            }
            if better {
                best = Some(i);
                best_distance = distance;
                best_len = candidate_len;
            }
        }
        i = i + 1;
    }
    match best {
        Some(b) => {
            let k = known_names.get(b).as_str();
            proof {
                assert(names.contains(names[b as int]));
                assert forall|j: Seq<char>|
                    #![trigger known_names@.contains(j)]
                    known_names@.contains(j) && within_reach(name@, j) && j != k@
                        implies ranks_before(name@, k@, j) by {
                    let t = choose|t: int| 0 <= t < names.len() && names[t] == j;
                    assert(within_reach(name@, names[t]));
                }
                assert(is_closest(name@, known_names@, k@));
                let c = choose|c: Seq<char>| is_closest(name@, known_names@, c);
                lemma_closest_unique(name@, known_names@, c, k@);
            }
            Some(k)
        },
        None => {
            proof {
                assert forall|k: Seq<char>|
                    #![trigger known_names@.contains(k)]
                    known_names@.contains(k) implies !within_reach(name@, k) by {
                    let t = choose|t: int| 0 <= t < names.len() && names[t] == k;
                    assert(!within_reach(name@, names[t]));
                }
            }
            None
        },
    }
}

} // verus!
