//! Laws of ranking: the order in which entries come in does not matter.

use crate::entry::{matched_all, rescored, skim_answers, sorted_by_score, EntryView};
use crate::matcher::skim_fuzzy_match;
use vstd::multiset::Multiset;
use vstd::prelude::*;

verus! {

broadcast use {vstd::seq_lib::group_to_multiset_ensures, vstd::multiset::group_multiset_axioms};

/// What one entry adds to the ranking: itself rescored if it matched.
pub open spec fn contribution(e: EntryView, text: Seq<char>) -> Multiset<EntryView> {
    match rescored(e, skim_fuzzy_match(e.0, text)) {
        Some(x) => Multiset::empty().insert(x),
        None => Multiset::empty(),
    }
}

/// The entries of `es` that match `text`, rescored, in order.
pub open spec fn ranked_input(es: Seq<EntryView>, text: Seq<char>) -> Seq<EntryView> {
    matched_all(es, skim_answers(es, text))
}

proof fn lemma_ranked_input_last(es: Seq<EntryView>, text: Seq<char>)
    requires
        es.len() > 0,
    ensures
        ranked_input(es, text).to_multiset() == ranked_input(es.drop_last(), text).to_multiset().add(
            contribution(es.last(), text),
        ),
{
    let n = es.len() as int;
    assert(skim_answers(es, text).take(n - 1) =~= skim_answers(es.drop_last(), text));
    let rest = ranked_input(es.drop_last(), text);
    assert(skim_answers(es, text)[n - 1] == skim_fuzzy_match(es.last().0, text));
    match rescored(es.last(), skim_fuzzy_match(es.last().0, text)) {
        Some(x) => {
            assert(ranked_input(es, text) == rest.push(x));
            assert(rest.push(x).to_multiset() =~= rest.to_multiset().add(
                Multiset::empty().insert(x),
            ));
        },
        None => {
            assert(ranked_input(es, text) == rest);
            assert(rest.to_multiset() =~= rest.to_multiset().add(Multiset::empty()));
        },
    }
}

proof fn lemma_ranked_input_remove(es: Seq<EntryView>, text: Seq<char>, j: int)
    requires
        0 <= j < es.len(),
    ensures
        ranked_input(es, text).to_multiset() == ranked_input(es.remove(j), text).to_multiset().add(
            contribution(es[j], text),
        ),
    decreases es.len(),
{
    let n = es.len() as int;
    lemma_ranked_input_last(es, text);
    if j == n - 1 {
        assert(es.remove(j) =~= es.drop_last());
    } else {
        let r = es.remove(j);
        assert(r.drop_last() =~= es.drop_last().remove(j));
        assert(r.last() == es.last());
        lemma_ranked_input_last(r, text);
        lemma_ranked_input_remove(es.drop_last(), text, j);
        assert(es.drop_last()[j] == es[j]);
        let a = ranked_input(es.drop_last().remove(j), text).to_multiset();
        let cj = contribution(es[j], text);
        let cl = contribution(es.last(), text);
        assert(a.add(cj).add(cl) =~= a.add(cl).add(cj));
    }
}

proof fn lemma_ranked_input_multiset(a: Seq<EntryView>, b: Seq<EntryView>, text: Seq<char>)
    requires
        a.to_multiset() == b.to_multiset(),
    ensures
        ranked_input(a, text).to_multiset() == ranked_input(b, text).to_multiset(),
    decreases a.len(),
{
    if a.len() == 0 {
        vstd::seq_lib::to_multiset_len(a);
        vstd::seq_lib::to_multiset_len(b);
        assert(b.len() == 0);
        assert(a =~= b);
    } else {
        let x = a.last();
        assert(a.contains(x)) by {
            assert(a[a.len() - 1] == x);
        }
        assert(b.to_multiset().count(x) > 0);
        assert(b.contains(x));
        let j = choose|j: int| 0 <= j < b.len() && b[j] == x;
        assert(a.drop_last().to_multiset() == a.to_multiset().remove(x)) by {
            assert(a =~= a.drop_last().push(x));
        }
        assert(b.remove(j).to_multiset() == b.to_multiset().remove(x));
        lemma_ranked_input_multiset(a.drop_last(), b.remove(j), text);
        lemma_ranked_input_last(a, text);
        lemma_ranked_input_remove(b, text, j);
    }
}

proof fn lemma_remove_keeps_sorted(r: Seq<EntryView>, j: int)
    requires
        sorted_by_score(r),
        0 <= j < r.len(),
    ensures
        sorted_by_score(r.remove(j)),
{
    let q = r.remove(j);
    assert forall|a: int, b: int| 0 <= a < b < q.len() implies q[a].1 <= q[b].1 by {
        let a0 = if a < j { a } else { a + 1 };
        let b0 = if b < j { b } else { b + 1 };
        assert(q[a] == r[a0] && q[b] == r[b0]);
    }
}

/// Two sequences sorted by score that hold the same entries have the same
/// scores at every position.
pub proof fn sorted_same_entries_same_scores(ra: Seq<EntryView>, rb: Seq<EntryView>)
    requires
        sorted_by_score(ra),
        sorted_by_score(rb),
        ra.to_multiset() == rb.to_multiset(),
    ensures
        ra.len() == rb.len(),
        forall|i: int| 0 <= i < ra.len() ==> ra[i].1 == rb[i].1,
    decreases ra.len(),
{
    assert(ra.len() == rb.len()) by {
        vstd::seq_lib::to_multiset_len(ra);
        vstd::seq_lib::to_multiset_len(rb);
    }
    if ra.len() > 0 {
        let n = ra.len() as int;
        let x = ra.last();
        let y = rb.last();
        assert(ra.contains(x)) by {
            assert(ra[n - 1] == x);
        }
        assert(rb.contains(y)) by {
            assert(rb[n - 1] == y);
        }
        assert(rb.to_multiset().count(x) > 0);
        assert(ra.to_multiset().count(y) > 0);
        let j = choose|j: int| 0 <= j < n && rb[j] == x;
        let k = choose|k: int| 0 <= k < n && ra[k] == y;
        if j < n - 1 {
            assert(rb[j].1 <= rb[n - 1].1);
        }
        if k < n - 1 {
            assert(ra[k].1 <= ra[n - 1].1);
        }
        assert(x.1 == y.1);
        let rb2 = rb.remove(j);
        lemma_remove_keeps_sorted(rb, j);
        assert(ra.drop_last().to_multiset() == ra.to_multiset().remove(x)) by {
            assert(ra =~= ra.drop_last().push(x));
        }
        assert(rb2.to_multiset() == rb.to_multiset().remove(x));
        assert(sorted_by_score(ra.drop_last())) by {
            assert forall|a: int, b: int| 0 <= a < b < n - 1 implies ra.drop_last()[a].1
                <= ra.drop_last()[b].1 by {
                assert(ra[a].1 <= ra[b].1);
            }
        }
        sorted_same_entries_same_scores(ra.drop_last(), rb2);
        assert forall|i: int| 0 <= i < n implies ra[i].1 == rb[i].1 by {
            if i == n - 1 {
            } else if i < j {
                assert(ra.drop_last()[i] == ra[i]);
                assert(rb2[i] == rb[i]);
            } else {
                assert(ra.drop_last()[i] == ra[i]);
                assert(rb2[i] == rb[i + 1]);
                assert(rb[j].1 <= rb[i].1);
                assert(rb[i].1 <= rb[i + 1].1);
                if i + 1 < n - 1 {
                    assert(rb[i + 1].1 <= rb[n - 1].1);
                }
            }
        }
    }
}

/// Ranking does not depend on the order of its input: for two orderings `a`
/// and `b` of the same entries, any two results of ranking them (the matched
/// entries, rescored, sorted by score) hold the same entries with the same
/// sequence of scores; only entries of equal score may change places.
pub proof fn ranking_ignores_input_order(
    a: Seq<EntryView>,
    b: Seq<EntryView>,
    text: Seq<char>,
    ra: Seq<EntryView>,
    rb: Seq<EntryView>,
)
    requires
        a.to_multiset() == b.to_multiset(),
        ra.to_multiset() == matched_all(a, skim_answers(a, text)).to_multiset(),
        sorted_by_score(ra),
        rb.to_multiset() == matched_all(b, skim_answers(b, text)).to_multiset(),
        sorted_by_score(rb),
    ensures
        ra.to_multiset() == rb.to_multiset(),
        ra.len() == rb.len(),
        forall|i: int| 0 <= i < ra.len() ==> ra[i].1 == rb[i].1,
{
    lemma_ranked_input_multiset(a, b, text);
    sorted_same_entries_same_scores(ra, rb);
}

} // verus!
