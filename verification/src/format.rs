//! How capabilities and lists of names are written in messages.
use vstd::prelude::*;

use crate::models::{borrowed_views, str_views, CapabilityView, Namespace};
use crate::names::NameSet;
use crate::text::{
    lemma_lex_asymmetric, lemma_lex_irreflexive, lemma_lex_total, lemma_lex_transitive, lex_lt,
    str_lt,
};

verus! {

/// A capability as written in a path: `namespace::name`.
pub open spec fn capability_text(capability: CapabilityView) -> Seq<char> {
    capability.0.spec_as_str() + "::"@ + capability.1
}

/// The items one after another, with `separator` between each two.
pub open spec fn join(items: Seq<Seq<char>>, separator: Seq<char>) -> Seq<char>
    decreases items.len(),
{
    if items.len() == 0 {
        Seq::empty()
    } else if items.len() == 1 {
        items[0]
    } else {
        join(items.drop_last(), separator) + separator + items.last()
    }
}

/// Whether each item comes strictly before the next in lexicographic order.
pub open spec fn strictly_sorted(items: Seq<Seq<char>>) -> bool {
    forall|i: int, j: int| 0 <= i < j < items.len() ==> lex_lt(#[trigger] items[i], #[trigger] items[j])
}

/// The names of a finite set in lexicographic order.
pub open spec fn sorted_seq(names: Set<Seq<char>>) -> Seq<Seq<char>> {
    choose|items: Seq<Seq<char>>| strictly_sorted(items) && items.to_set() == names
}

/// A capability written as `namespace::name`.
pub fn format_capability(namespace: Namespace, name: &str) -> (text: String)
    ensures
        text@ == capability_text((namespace, name@)),
{
    let mut text = String::new();
    text.append(namespace.as_str());
    text.append("::");
    text.append(name);
    assert(text@ =~= capability_text((namespace, name@)));
    text
}

/// The capabilities written as `namespace::name`, separated by `, `.
pub fn format_capabilities(capabilities: &[(Namespace, &str)]) -> (text: String)
    ensures
        text@ == join(borrowed_views(capabilities@).map_values(|c| capability_text(c)), ", "@),
{
    let ghost items = borrowed_views(capabilities@).map_values(|c| capability_text(c));
    let mut text = String::new();
    let n = capabilities.len();
    let mut i: usize = 0;
    while i < n
        invariant
            n == capabilities@.len(),
            items == borrowed_views(capabilities@).map_values(|c| capability_text(c)),
            i <= n,
            text@ == join(items.take(i as int), ", "@),
        decreases n - i,
    {
        let (namespace, name) = capabilities[i];
        let piece = format_capability(namespace, name);
        proof {
            assert(items[i as int] == piece@);
            assert(items.take(i + 1).drop_last() =~= items.take(i as int));
            assert(items.take(i + 1).last() == items[i as int]);
        }
        if i > 0 {
            text.append(", ");
        }
        text.append(piece.as_str());
        proof {
            if i == 0 {
                assert(text@ =~= items.take(1)[0]);
            }
        }
        i = i + 1;
    }
    assert(items.take(n as int) =~= items);
    text
}

/// The names one after another, with `separator` between each two.
pub fn join_names(names: &Vec<&str>, separator: &str) -> (text: String)
    ensures
        text@ == join(str_views(names@), separator@),
{
    let ghost items = str_views(names@);
    let mut text = String::new();
    let n = names.len();
    let mut i: usize = 0;
    while i < n
        invariant
            n == names@.len(),
            items == str_views(names@),
            i <= n,
            text@ == join(items.take(i as int), separator@),
        decreases n - i,
    {
        proof {
            assert(items.take(i + 1).drop_last() =~= items.take(i as int));
            assert(items.take(i + 1).last() == names@[i as int]@);
        }
        if i > 0 {
            text.append(separator);
        }
        text.append(names[i]);
        proof {
            if i == 0 {
                assert(text@ =~= items.take(1)[0]);
            }
        }
        i = i + 1;
    }
    assert(items.take(n as int) =~= items);
    text
}

/// Strictly sorted sequences that hold the same items are equal.
pub proof fn lemma_sorted_unique(a: Seq<Seq<char>>, b: Seq<Seq<char>>)
    requires
        strictly_sorted(a),
        strictly_sorted(b),
        a.to_set() == b.to_set(),
    ensures
        a == b,
    decreases a.len(),
{
    if a.len() == 0 || b.len() == 0 {
        if a.len() > 0 {
            assert(a.to_set().contains(a[0]));
        }
        if b.len() > 0 {
            assert(b.to_set().contains(b[0]));
        }
        assert(a =~= b);
    } else {
        assert(a.to_set().contains(a[0]));
        assert(b.to_set().contains(b[0]));
        let ia = choose|k: int| 0 <= k < b.len() && b[k] == a[0];
        let ib = choose|k: int| 0 <= k < a.len() && a[k] == b[0];
        if a[0] != b[0] {
            assert(ia > 0 && ib > 0);
            assert(lex_lt(b[0], b[ia]));
            assert(lex_lt(a[0], a[ib]));
            lemma_lex_asymmetric(a[0], b[0]);
        }
        let ra = a.drop_first();
        let rb = b.drop_first();
        assert forall|x: Seq<char>| ra.to_set().contains(x) <==> rb.to_set().contains(x) by {
            if ra.to_set().contains(x) {
                let k = choose|k: int| 0 <= k < ra.len() && ra[k] == x;
                assert(a[k + 1] == x);
                assert(lex_lt(a[0], x));
                lemma_lex_irreflexive(x);
                assert(a.to_set().contains(x));
                let m = choose|m: int| 0 <= m < b.len() && b[m] == x;
                assert(m != 0);
                assert(rb[m - 1] == x);
            }
            if rb.to_set().contains(x) {
                let k = choose|k: int| 0 <= k < rb.len() && rb[k] == x;
                assert(b[k + 1] == x);
                assert(lex_lt(b[0], x));
                lemma_lex_irreflexive(x);
                assert(b.to_set().contains(x));
                let m = choose|m: int| 0 <= m < a.len() && a[m] == x;
                assert(m != 0);
                assert(ra[m - 1] == x);
            }
        }
        assert(ra.to_set() =~= rb.to_set());
        lemma_sorted_unique(ra, rb);
        assert(a =~= seq![a[0]] + ra);
        assert(b =~= seq![b[0]] + rb);
    }
}

/// The names of the set in lexicographic order.
pub fn sorted_names(names: &NameSet) -> (sorted: Vec<&str>)
    ensures
        strictly_sorted(str_views(sorted@)),
        str_views(sorted@).to_set() == names@,
        str_views(sorted@) == sorted_seq(names@),
{
    let n = names.len();
    let ghost all = names.seq();
    let mut sorted: Vec<&str> = Vec::new();
    let mut i: usize = 0;
    while i < n
        invariant
            n == all.len(),
            all == names.seq(),
            all.no_duplicates(),
            i <= n,
            sorted@.len() == i,
            strictly_sorted(str_views(sorted@)),
            str_views(sorted@).to_set() == all.take(i as int).to_set(),
        decreases n - i,
    {
        let name = names.get(i).as_str();
        let ghost current = str_views(sorted@);
        proof {
            assert(!all.take(i as int).contains(all[i as int])) by {
                if all.take(i as int).contains(all[i as int]) {
                    let k = choose|k: int| 0 <= k < i && all.take(i as int)[k] == all[i as int];
                    assert(all[k] == all[i as int]);
                }
            }
            assert(!current.to_set().contains(name@));
        }
        let mut p: usize = 0;
        while p < sorted.len() && !str_lt(name, sorted[p])
            invariant
                p <= sorted@.len(),
                current == str_views(sorted@),
                !current.to_set().contains(name@),
                forall|t: int| 0 <= t < p ==> lex_lt(#[trigger] current[t], name@),
            decreases sorted@.len() - p,
        {
            proof {
                assert(current.to_set().contains(current[p as int]));
                lemma_lex_total(current[p as int], name@);
            }
            p = p + 1;
        }
        proof {
            if p < sorted@.len() {
                assert(lex_lt(name@, current[p as int]));
                assert forall|t: int| p <= t < current.len() implies lex_lt(
                    name@,
                    #[trigger] current[t],
                ) by {
                    if t > p {
                        lemma_lex_transitive(name@, current[p as int], current[t]);
                    }
                }
            }
        }
        sorted.insert(p, name);
        proof {
            let after = str_views(sorted@);
            assert(after =~= current.insert(p as int, name@));
            assert forall|a: int, b: int| 0 <= a < b < after.len() implies lex_lt(
                #[trigger] after[a],
                #[trigger] after[b],
            ) by {
                if b < p {
                } else if a < p && b == p {
                } else if a < p && b > p {
                    assert(after[b] == current[b - 1]);
                } else if a == p {
                    assert(after[b] == current[b - 1]);
                } else {
                    assert(after[a] == current[a - 1]);
                    assert(after[b] == current[b - 1]);
                }
            }
            assert(all.take(i + 1) =~= all.take(i as int).push(all[i as int]));
            crate::names::lemma_push_to_set(all.take(i as int), all[i as int]);
            assert forall|x: Seq<char>| after.to_set().contains(x) <==> current.to_set().insert(
                name@,
            ).contains(x) by {
                assert(after.to_set().contains(x) == after.contains(x));
                assert(current.to_set().contains(x) == current.contains(x));
                if after.contains(x) {
                    let k = choose|k: int| 0 <= k < after.len() && after[k] == x;
                    if k < p {
                        assert(current[k] == x);
                    } else if k > p {
                        assert(current[k - 1] == x);
                    }
                }
                if current.contains(x) {
                    let k = choose|k: int| 0 <= k < current.len() && current[k] == x;
                    if k < p {
                        assert(after[k] == x);
                    } else {
                        assert(after[k + 1] == x);
                    }
                }
                if x == name@ {
                    assert(after[p as int] == x);
                }
            }
            assert(after.to_set() =~= current.to_set().insert(name@));
        }
        i = i + 1;
    }
    proof {
        assert(all.take(n as int) =~= all);
        let v = str_views(sorted@);
        let c = choose|items: Seq<Seq<char>>| strictly_sorted(items) && items.to_set() == names@;
        assert(strictly_sorted(v) && v.to_set() == names@);
        lemma_sorted_unique(c, v);
    }
    sorted
}

} // verus!
