use crate::matcher::{fuzzy_match, skim_fuzzy_match, skim_matches};
use crate::score::Score;
use vstd::prelude::*;
use vstd::string::*;

verus! {

/// A completion candidate: the text offered to the user and its score.
#[derive(Debug, Clone, PartialEq, Eq, Hash)]
pub struct Entry {
    pub contents: String,
    pub score: Score,
}

/// An entry as the popup menu wants it: `word` is left empty (the text is
/// shown through `abbr`), `empty`, `dup` and `equal` are set so that Neovim
/// neither drops nor filters it, and `menu` names the menu.
#[derive(Debug, Clone, PartialEq, Eq)]
pub struct CompleteItem {
    pub word: String,
    pub empty: i64,
    pub dup: i64,
    pub equal: i64,
    pub abbr: String,
    pub menu: String,
}

/// The mathematical value of an entry: its text and its score.
pub type EntryView = (Seq<char>, i64);

impl View for Entry {
    type V = EntryView;

    open spec fn view(&self) -> EntryView {
        (self.contents@, self.score.0)
    }
}

/// The values of a sequence of entries.
pub open spec fn views(s: Seq<Entry>) -> Seq<EntryView> {
    s.map_values(|e: Entry| e@)
}

/// The value of an optional entry.
pub open spec fn opt_view(o: Option<Entry>) -> Option<EntryView> {
    match o {
        Some(e) => Some(e@),
        None => None,
    }
}

/// An entry after the matcher answered `m` for it: dropped when the pattern
/// was not found, else the same text with the matcher's score.
pub open spec fn rescored(e: EntryView, m: Option<i64>) -> Option<EntryView> {
    match m {
        Some(v) => Some((e.0, v)),
        None => None,
    }
}

/// The entries of `es` that matched, in their order, each with the score that
/// `ms` gives at its position.
pub open spec fn matched_all(es: Seq<EntryView>, ms: Seq<Option<i64>>) -> Seq<EntryView>
    decreases es.len(),
{
    if es.len() == 0 {
        seq![]
    } else {
        let rest = matched_all(es.drop_last(), ms.take(es.len() - 1));
        match rescored(es.last(), ms[es.len() - 1]) {
            Some(e) => rest.push(e),
            None => rest,
        }
    }
}

/// What the skim matcher answers for each entry's text against `text`.
pub open spec fn skim_answers(es: Seq<EntryView>, text: Seq<char>) -> Seq<Option<i64>> {
    es.map_values(|e: EntryView| skim_fuzzy_match(e.0, text))
}

/// The entries with every score set to zero, as an empty pattern scores them.
pub open spec fn zero_scored(es: Seq<EntryView>) -> Seq<EntryView> {
    es.map_values(|e: EntryView| (e.0, 0i64))
}

/// When the matcher answers `Some(0)` for every entry, all entries are kept
/// with score zero.
pub proof fn lemma_matched_all_zero(es: Seq<EntryView>, ms: Seq<Option<i64>>)
    requires
        ms.len() == es.len(),
        forall|i: int| 0 <= i < ms.len() ==> ms[i] == Some(0i64),
    ensures
        matched_all(es, ms) == zero_scored(es),
    decreases es.len(),
{
    if es.len() > 0 {
        let n = es.len() as int;
        lemma_matched_all_zero(es.drop_last(), ms.take(n - 1));
        assert(zero_scored(es) =~= zero_scored(es.drop_last()).push((es.last().0, 0i64)));
    } else {
        assert(zero_scored(es) =~= seq![]);
    }
}

/// A matched entry keeps its text and takes exactly the matcher's score; an
/// entry the matcher did not find is dropped.
pub proof fn rescored_takes_matcher_score(e: EntryView, v: i64)
    ensures
        rescored(e, Some(v)) == Some((e.0, v)),
        rescored(e, None) == None::<EntryView>,
{
}

/// When the matcher finds every entry, all entries are kept, in order, each
/// with its text and exactly the score the matcher gave it.
pub proof fn matched_all_keeps_every_found_entry(es: Seq<EntryView>, ms: Seq<Option<i64>>)
    requires
        ms.len() == es.len(),
        forall|i: int| 0 <= i < ms.len() ==> ms[i] is Some,
    ensures
        matched_all(es, ms).len() == es.len(),
        forall|i: int|
            #![trigger matched_all(es, ms)[i]]
            0 <= i < es.len() ==> matched_all(es, ms)[i].0 == es[i].0 && Some(
                matched_all(es, ms)[i].1,
            ) == ms[i],
    decreases es.len(),
{
    if es.len() > 0 {
        let n = es.len() as int;
        let ms0 = ms.take(n - 1);
        matched_all_keeps_every_found_entry(es.drop_last(), ms0);
        let v = ms[n - 1]->0;
        assert(ms[n - 1] == Some(v));
        assert(matched_all(es, ms) == matched_all(es.drop_last(), ms0).push((es.last().0, v)));
        assert forall|i: int| #![trigger matched_all(es, ms)[i]] 0 <= i < n implies matched_all(es, ms)[i].0 == es[i].0 && Some(
            matched_all(es, ms)[i].1,
        ) == ms[i] by {
            let rest = matched_all(es.drop_last(), ms0);
            if i < n - 1 {
                assert(es.drop_last()[i] == es[i]);
                assert(ms0[i] == ms[i]);
                assert(rest[i].0 == es.drop_last()[i].0 && Some(rest[i].1) == ms0[i]);
                assert(rest.push((es.last().0, v))[i] == rest[i]);
            } else {
                assert(rest.push((es.last().0, v))[i] == (es.last().0, v));
            }
        }
    }
}

/// Scores never decrease along the sequence.
pub open spec fn sorted_by_score(s: Seq<EntryView>) -> bool {
    forall|i: int, j: int| 0 <= i < j < s.len() ==> s[i].1 <= s[j].1
}

/// `item` is the popup-menu item of an entry with text `contents`.
pub open spec fn item_shows(item: CompleteItem, contents: Seq<char>) -> bool {
    &&& item.word@ == Seq::<char>::empty()
    &&& item.empty == 1
    &&& item.dup == 1
    &&& item.equal == 1
    &&& item.abbr@ == contents
    &&& item.menu@ == "[B]"@
}

/// `items` are the popup-menu items of `entries`, in order.
pub open spec fn shows(items: Seq<CompleteItem>, entries: Seq<EntryView>) -> bool {
    &&& items.len() == entries.len()
    &&& forall|i: int| 0 <= i < items.len() ==> item_shows(#[trigger] items[i], entries[i].0)
}

impl Entry {
    pub fn new(contents: String, score: Score) -> (e: Entry)
        ensures
            e@ == (contents@, score.0),
    {
        Entry { contents, score }
    }

    /// An entry built from a word that a source handed over as plain text:
    /// its score is zero.
    pub fn from_word(word: String) -> (e: Entry)
        ensures
            e@ == (word@, 0i64),
    {
        Entry::new(word, Score::new(0))
    }

    /// Applies the matcher's answer `matched` to this entry.
    pub fn apply_match(self, matched: Option<i64>) -> (r: Option<Entry>)
        ensures
            opt_view(r) == rescored(self@, matched),
            r is Some <==> matched is Some,
            r matches Some(e) ==> e.contents@ == self.contents@ && Some(e.score.0) == matched,
    {
        match matched {
            Some(v) => Some(Entry::new(self.contents, Score::new(v))),
            None => None,
        }
    }

    /// Scores this entry against what the user typed: `None` when the skim
    /// matcher does not find `text` in the entry's text.
    pub fn score(self, text: &str) -> (r: Option<Entry>)
        ensures
            opt_view(r) == rescored(self@, skim_fuzzy_match(self.contents@, text@)),
            r is Some <==> skim_matches(self.contents@, text@),
            r matches Some(e) ==> e.contents@ == self.contents@ && Some(e.score.0) == skim_fuzzy_match(
                self.contents@,
                text@,
            ),
            text@.len() == 0 ==> opt_view(r) == Some((self.contents@, 0i64)),
    {
        let matched = fuzzy_match(self.contents.as_str(), text);
        self.apply_match(matched)
    }

    /// Orders entries by score, lowest first, keeping every entry.
    pub fn sort_by_score(entries: Vec<Entry>) -> (sorted: Vec<Entry>)
        ensures
            views(sorted@).to_multiset() == views(entries@).to_multiset(),
            sorted_by_score(views(sorted@)),
    {
        broadcast use vstd::seq_lib::group_to_multiset_ensures;

        let mut rest = entries;
        let mut sorted: Vec<Entry> = Vec::new();
        assert(views(sorted@) =~= seq![]);
        while rest.len() > 0
            invariant
                views(sorted@).to_multiset().add(views(rest@).to_multiset()) == views(
                    entries@,
                ).to_multiset(),
                sorted_by_score(views(sorted@)),
            decreases rest.len(),
        {
            let ghost before = rest@;
            let e = rest.pop().unwrap();
            assert(views(before) =~= views(rest@).push(e@));
            let mut i: usize = 0;
            while i < sorted.len() && sorted[i].score.0 <= e.score.0
                invariant
                    i <= sorted.len(),
                    forall|k: int| 0 <= k < i ==> sorted@[k].score.0 <= e.score.0,
                decreases sorted.len() - i,
            {
                i = i + 1;
            }
            let ghost old_sorted = sorted@;
            sorted.insert(i, e);
            assert(views(sorted@) =~= views(old_sorted).insert(i as int, e@));
            proof {
                broadcast use vstd::multiset::group_multiset_axioms;

                vstd::seq_lib::to_multiset_insert(views(old_sorted), i as int, e@);
                vstd::seq_lib::to_multiset_build(views(rest@), e@);
                assert(views(sorted@).to_multiset().add(views(rest@).to_multiset()) =~= views(
                    old_sorted,
                ).to_multiset().add(views(before).to_multiset()));
            }
            assert(sorted_by_score(views(sorted@))) by {
                assert forall|a: int, b: int| 0 <= a < b < sorted@.len() implies views(
                    sorted@,
                )[a].1 <= views(sorted@)[b].1 by {
                    if i < old_sorted.len() {
                        assert(views(old_sorted)[i as int].1 > e.score.0);
                    }
                    if a < i && b > i {
                        assert(views(old_sorted)[a].1 <= e.score.0);
                    }
                    if b > i && a > i {
                        assert(views(old_sorted)[a - 1].1 <= views(old_sorted)[b - 1].1);
                    }
                    if a == i && b > i {
                        assert(views(old_sorted)[i as int].1 <= views(old_sorted)[b - 1].1);
                    }
                }
            }
        }
        assert(views(rest@) =~= seq![]);
        sorted
    }

    /// The entries that matched, in order, each with the score that `matches`
    /// gives at its position.
    pub fn keep_matched(entries: &Vec<Entry>, matches: &Vec<Option<i64>>) -> (scored: Vec<Entry>)
        requires
            entries.len() == matches.len(),
        ensures
            views(scored@) == matched_all(views(entries@), matches@),
    {
        let mut scored: Vec<Entry> = Vec::new();
        let n = entries.len();
        for i in 0..n
            invariant
                n == entries.len(),
                n == matches.len(),
                views(scored@) == matched_all(views(entries@.take(i as int)), matches@.take(i as int)),
        {
            proof {
                let es = views(entries@.take(i + 1));
                assert(es.drop_last() =~= views(entries@.take(i as int)));
                assert(matches@.take(i + 1).take(i as int) =~= matches@.take(i as int));
                assert(es.last() == entries@[i as int]@);
            }
            match matches[i] {
                Some(v) => {
                    let ghost before = scored@;
                    scored.push(Entry::new(entries[i].contents.clone(), Score::new(v)));
                    assert(views(scored@) =~= views(before).push(views(scored@).last()));
                },
                None => {},
            }
        }
        assert(entries@.take(n as int) =~= entries@);
        assert(matches@.take(n as int) =~= matches@);
        scored
    }

    /// Keeps the entries that matched, with the scores in `matches` (one
    /// answer per entry, in order), ordered by score, lowest first.
    pub fn rank_matches(entries: Vec<Entry>, matches: Vec<Option<i64>>) -> (ranked: Vec<Entry>)
        requires
            entries.len() == matches.len(),
        ensures
            views(ranked@).to_multiset() == matched_all(views(entries@), matches@).to_multiset(),
            sorted_by_score(views(ranked@)),
    {
        let scored = Entry::keep_matched(&entries, &matches);
        Entry::sort_by_score(scored)
    }

    /// Scores every entry against `text`, drops those that do not match and
    /// orders the rest by score, lowest first.
    pub fn score_multiple(entries: Vec<Entry>, text: &str) -> (ranked: Vec<Entry>)
        ensures
            views(ranked@).to_multiset() == matched_all(
                views(entries@),
                skim_answers(views(entries@), text@),
            ).to_multiset(),
            sorted_by_score(views(ranked@)),
            forall|i: int|
                0 <= i < entries@.len() ==> (skim_answers(views(entries@), text@)[i] is Some
                    <==> skim_matches(#[trigger] entries@[i].contents@, text@)),
            text@.len() == 0 ==> forall|i: int|
                0 <= i < entries@.len() ==> #[trigger] skim_answers(views(entries@), text@)[i]
                    == Some(0i64),
            text@.len() == 0 ==> views(ranked@).to_multiset() == zero_scored(
                views(entries@),
            ).to_multiset(),
    {
        let mut matches: Vec<Option<i64>> = Vec::new();
        let n = entries.len();
        for i in 0..n
            invariant
                n == entries.len(),
                matches@ =~= skim_answers(views(entries@), text@).take(i as int),
                forall|k: int|
                    0 <= k < i ==> (matches@[k] is Some <==> skim_matches(
                        #[trigger] entries@[k].contents@,
                        text@,
                    )),
                text@.len() == 0 ==> forall|k: int| 0 <= k < i ==> #[trigger] matches@[k] == Some(0i64),
        {
            matches.push(fuzzy_match(entries[i].contents.as_str(), text));
        }
        assert(matches@ =~= skim_answers(views(entries@), text@));
        proof {
            if text@.len() == 0 {
                lemma_matched_all_zero(views(entries@), matches@);
            }
        }
        Entry::rank_matches(entries, matches)
    }

    /// The popup-menu item that shows this entry.
    pub fn to_complete_item(&self) -> (item: CompleteItem)
        ensures
            item_shows(item, self.contents@),
    {
        CompleteItem {
            word: String::new(),
            empty: 1,
            dup: 1,
            equal: 1,
            abbr: self.contents.clone(),
            menu: String::from_str("[B]"),
        }
    }

    /// The popup-menu items of `entries`, in order.
    pub fn serialize(entries: Vec<Entry>) -> (items: Vec<CompleteItem>)
        ensures
            shows(items@, views(entries@)),
    {
        let mut items: Vec<CompleteItem> = Vec::new();
        let n = entries.len();
        for i in 0..n
            invariant
                n == entries.len(),
                shows(items@, views(entries@.take(i as int))),
        {
            items.push(entries[i].to_complete_item());
            assert(views(entries@.take(i + 1))[i as int] == entries@[i as int]@);
        }
        assert(entries@.take(n as int) =~= entries@);
        items
    }
}

} // verus!
