use crate::entry::{
    lemma_matched_all_zero, matched_all, shows, skim_answers, views, zero_scored, CompleteItem,
    Entry, EntryView,
};
use crate::matcher::{fuzzy_match, skim_matches};
use crate::score::Score;
use crate::text::push_char;
use std::collections::BTreeMap;
use crate::keys::{i64_keys_ordered, lemma_i64_keys_ordered, ordered_items};
use vstd::std_specs::iter::IteratorSpec;
use vstd::prelude::*;
use vstd::string::*;

verus! {

/// How many entries the popup menu shows at most.
pub const PUM_HEIGHT: usize = 6;

/// `s[i]` is the first entry of `s` with its score.
pub open spec fn first_of_its_score(s: Seq<EntryView>, i: int) -> bool {
    &&& 0 <= i < s.len()
    &&& forall|j: int| 0 <= j < i ==> s[j].1 != s[i].1
}

/// `e` is a candidate of `s` that arrived first with its score.
pub open spec fn first_arrival(s: Seq<EntryView>, e: EntryView) -> bool {
    exists|i: int| first_of_its_score(s, i) && s[i] == e
}

/// Scores strictly increase along the sequence.
pub open spec fn strictly_increasing(r: Seq<EntryView>) -> bool {
    forall|a: int, b: int| 0 <= a < b < r.len() ==> r[a].1 < r[b].1
}

/// `r` is the popup menu for the candidates `s`, given in the order they
/// arrived: of the entries that share a score only the first to arrive counts,
/// and the menu holds the lowest-scored of those, at most `PUM_HEIGHT`, by
/// increasing score.
pub open spec fn is_menu_of(r: Seq<EntryView>, s: Seq<EntryView>) -> bool {
    &&& r.len() <= PUM_HEIGHT
    &&& strictly_increasing(r)
    &&& forall|k: int| 0 <= k < r.len() ==> first_arrival(s, #[trigger] r[k])
    &&& forall|i: int|
        first_of_its_score(s, i) ==> r.contains(s[i]) || (r.len() == PUM_HEIGHT && forall|k: int|
            0 <= k < r.len() ==> r[k].1 < s[i].1)
}

/// Some entry of `set` has score `v`.
spec fn has_score(set: Seq<EntryView>, v: i64) -> bool {
    exists|m: int| 0 <= m < set.len() && set[m].1 == v
}

/// The entries kept after the first `n` candidates of `s`: sorted by strictly
/// increasing score, made of first-of-their-score candidates (`set[m]` is
/// `s[idx[m]]`), holding each of them, and one entry for each score seen so far.
spec fn collects(set: Seq<EntryView>, s: Seq<EntryView>, n: int, idx: Seq<int>) -> bool {
    &&& strictly_increasing(set)
    &&& idx.len() == set.len()
    &&& forall|m: int|
        #![trigger idx[m]]
        0 <= m < idx.len() ==> 0 <= idx[m] < n && first_of_its_score(s, idx[m]) && set[m]
            == s[idx[m]]
    &&& forall|i: int| 0 <= i < n && first_of_its_score(s, i) ==> set.contains(s[i])
    &&& forall|j: int| #![trigger s[j]] 0 <= j < n ==> has_score(set, s[j].1)
}

/// How many entries the menu keeps out of `len` collected ones.
spec fn menu_len(len: int) -> int {
    if len <= PUM_HEIGHT {
        len
    } else {
        PUM_HEIGHT as int
    }
}

proof fn lemma_collect_truncate(full: Seq<EntryView>, s: Seq<EntryView>, idx: Seq<int>)
    requires
        collects(full, s, s.len() as int, idx),
    ensures
        is_menu_of(full.take(menu_len(full.len() as int)), s),
{
    let r = full.take(menu_len(full.len() as int));
    assert(r.len() <= PUM_HEIGHT);
    assert(strictly_increasing(r)) by {
        assert forall|a: int, b: int| 0 <= a < b < r.len() implies r[a].1 < r[b].1 by {
            assert(r[a] == full[a] && r[b] == full[b]);
        }
    }
    assert forall|k: int| 0 <= k < r.len() implies first_arrival(s, #[trigger] r[k]) by {
        let i = idx[k];
        assert(r[k] == full[k]);
        assert(first_of_its_score(s, i) && full[k] == s[i]);
    }
    assert forall|i: int| first_of_its_score(s, i) implies r.contains(s[i]) || (r.len()
        == PUM_HEIGHT && forall|k: int| 0 <= k < r.len() ==> r[k].1 < s[i].1) by {
        assert(full.contains(s[i]));
        let m = choose|m: int| 0 <= m < full.len() && full[m] == s[i];
        if m < r.len() {
            assert(r[m] == s[i]);
        } else {
            assert forall|k: int| 0 <= k < r.len() implies r[k].1 < s[i].1 by {
                assert(r[k] == full[k]);
            }
        }
    }
}

/// The entry that one item of a score-keyed map stands for.
pub open spec fn pair_entry(kv: (&i64, &String)) -> EntryView {
    ((*kv.1)@, *kv.0)
}

/// The map after the first `n` candidates of `s`: it holds every score seen so
/// far, each with the text of the first candidate that had it (`first` gives
/// that candidate's position).
spec fn map_collects(m: Map<i64, String>, first: Map<i64, int>, s: Seq<EntryView>, n: int) -> bool {
    &&& forall|key: i64|
        #[trigger] m.contains_key(key) ==> {
            &&& first.contains_key(key)
            &&& 0 <= first[key] < n
            &&& first_of_its_score(s, first[key])
            &&& s[first[key]] == (m[key]@, key)
        }
    &&& forall|j: int| #![trigger s[j]] 0 <= j < n ==> m.contains_key(s[j].1)
}

proof fn lemma_map_skip(m: Map<i64, String>, first: Map<i64, int>, s: Seq<EntryView>, k: int)
    requires
        0 <= k < s.len(),
        map_collects(m, first, s, k),
        m.contains_key(s[k].1),
    ensures
        map_collects(m, first, s, k + 1),
{
}

proof fn lemma_map_insert(
    m: Map<i64, String>,
    first: Map<i64, int>,
    s: Seq<EntryView>,
    k: int,
    c: String,
)
    requires
        0 <= k < s.len(),
        map_collects(m, first, s, k),
        !m.contains_key(s[k].1),
        c@ == s[k].0,
    ensures
        first_of_its_score(s, k),
        map_collects(m.insert(s[k].1, c), first.insert(s[k].1, k), s, k + 1),
{
    assert forall|j: int| 0 <= j < k implies s[j].1 != s[k].1 by {
        assert(m.contains_key(s[j].1));
    }
    let m2 = m.insert(s[k].1, c);
    let f2 = first.insert(s[k].1, k);
    assert forall|key: i64| #[trigger] m2.contains_key(key) implies {
        &&& f2.contains_key(key)
        &&& 0 <= f2[key] < k + 1
        &&& first_of_its_score(s, f2[key])
        &&& s[f2[key]] == (m2[key]@, key)
    } by {
        if key != s[k].1 {
            assert(m.contains_key(key));
        }
    }
    assert forall|j: int| #![trigger s[j]] 0 <= j < k + 1 implies m2.contains_key(s[j].1) by {
        if j < k {
            assert(m.contains_key(s[j].1));
        }
    }
}

proof fn lemma_collects_from_map(
    mv: Map<i64, String>,
    first: Map<i64, int>,
    s: Seq<EntryView>,
    v: Seq<(&i64, &String)>,
)
    requires
        map_collects(mv, first, s, s.len() as int),
        forall|i: int| 0 <= i < v.len() ==> mv.contains_key(*v[i].0) && mv[*v[i].0] == *v[i].1,
        forall|key: i64| #[trigger] mv.contains_key(key) ==> v.contains((&key, &mv[key])),
        forall|i: int, j: int| 0 <= i < j < v.len() ==> *v[i].0 < *v[j].0,
    ensures
        collects(
            v.map_values(|kv: (&i64, &String)| pair_entry(kv)),
            s,
            s.len() as int,
            Seq::new(v.len(), |i: int| first[*v[i].0]),
        ),
{
    let full = v.map_values(|kv: (&i64, &String)| pair_entry(kv));
    let idx = Seq::new(v.len(), |i: int| first[*v[i].0]);
    let n = s.len() as int;
    assert(strictly_increasing(full)) by {
        assert forall|a: int, b: int| 0 <= a < b < full.len() implies full[a].1 < full[b].1 by {
            assert(*v[a].0 < *v[b].0);
        }
    }
    assert forall|m: int| #![trigger idx[m]] 0 <= m < idx.len() implies 0 <= idx[m] < n
        && first_of_its_score(s, idx[m]) && full[m] == s[idx[m]] by {
        assert(mv.contains_key(*v[m].0));
    }
    assert forall|i: int| 0 <= i < n && first_of_its_score(s, i) implies full.contains(s[i]) by {
        let key = s[i].1;
        assert(mv.contains_key(key));
        let f = first[key];
        if f < i {
            assert(s[f].1 != s[i].1);
        } else if i < f {
            assert(s[i].1 != s[f].1);
        }
        assert(v.contains((&key, &mv[key])));
        let p = choose|p: int| 0 <= p < v.len() && v[p] == (&key, &mv[key]);
        assert(full[p] == s[i]);
    }
    assert forall|j: int| #![trigger s[j]] 0 <= j < n implies has_score(full, s[j].1) by {
        let key = s[j].1;
        assert(mv.contains_key(key));
        assert(v.contains((&key, &mv[key])));
        let p = choose|p: int| 0 <= p < v.len() && v[p] == (&key, &mv[key]);
        assert(full[p].1 == key);
    }
}

/// Chooses the popup menu among candidates given in the order they arrived.
pub fn select_top(candidates: Vec<Entry>) -> (menu: Vec<Entry>)
    ensures
        is_menu_of(views(menu@), views(candidates@)),
{
    broadcast use vstd::std_specs::btree::group_btree_axioms;

    proof {
        lemma_i64_keys_ordered();
    }
    let ghost s = views(candidates@);
    let ghost mut first: Map<i64, int> = Map::empty();
    let mut by_score: BTreeMap<i64, String> = BTreeMap::new();
    let n = candidates.len();
    for k in 0..n
        invariant
            n == candidates.len(),
            s == views(candidates@),
            i64_keys_ordered(),
            map_collects(by_score@, first, s, k as int),
    {
        let score = candidates[k].score.0;
        if by_score.contains_key(&score) {
            proof {
                lemma_map_skip(by_score@, first, s, k as int);
            }
        } else {
            let contents = candidates[k].contents.clone();
            let ghost old_map = by_score@;
            by_score.insert(score, contents);
            proof {
                lemma_map_insert(old_map, first, s, k as int, contents);
                first = first.insert(score, k as int);
            }
        }
    }
    let ordered = ordered_items(&by_score);
    let ghost pairs = ordered.remaining();
    proof {
        lemma_collects_from_map(by_score@, first, s, pairs);
    }
    let ghost full = pairs.map_values(|kv: (&i64, &String)| pair_entry(kv));
    let ghost idx = Seq::new(pairs.len(), |i: int| first[*pairs[i].0]);
    let mut menu: Vec<Entry> = Vec::new();
    for kv in it: ordered
        invariant
            it.seq() == pairs,
            full == pairs.map_values(|kv: (&i64, &String)| pair_entry(kv)),
            views(menu@) == full.take(menu_len(it.index())),
            menu@.len() == menu_len(it.index()),
    {
        let (key, contents) = kv;
        if menu.len() < PUM_HEIGHT {
            menu.push(Entry::new(contents.clone(), Score::new(*key)));
            assert(views(menu@) =~= full.take(menu_len(it.index() + 1)));
        } else {
            assert(full.take(menu_len(it.index() + 1)) =~= full.take(menu_len(it.index())));
        }
    }
    proof {
        lemma_collect_truncate(full, s, idx);
    }
    menu
}

proof fn lemma_first_arrivals_same_score(s: Seq<EntryView>, a: EntryView, b: EntryView)
    requires
        first_arrival(s, a),
        first_arrival(s, b),
        a.1 == b.1,
    ensures
        a == b,
{
    let i = choose|i: int| first_of_its_score(s, i) && s[i] == a;
    let j = choose|j: int| first_of_its_score(s, j) && s[j] == b;
    if i < j {
        assert(s[i].1 != s[j].1);
    } else if j < i {
        assert(s[j].1 != s[i].1);
    }
}

/// In a menu `r2`, an entry `x` that arrived first and scores below `r2[k]`
/// stands before position `k`.
proof fn lemma_menu_holds_lower(r2: Seq<EntryView>, s: Seq<EntryView>, x: EntryView, k: int)
    requires
        is_menu_of(r2, s),
        first_arrival(s, x),
        0 <= k < r2.len(),
        x.1 < r2[k].1,
    ensures
        exists|m: int| 0 <= m < k && r2[m] == x,
{
    let i = choose|i: int| first_of_its_score(s, i) && s[i] == x;
    if !r2.contains(s[i]) {
        assert(r2[k].1 < s[i].1);
    }
    let m = choose|m: int| 0 <= m < r2.len() && r2[m] == x;
    if m >= k {
        if m > k {
            assert(r2[k].1 < r2[m].1);
        }
    }
}

proof fn lemma_menu_prefix(r1: Seq<EntryView>, r2: Seq<EntryView>, s: Seq<EntryView>, k: int)
    requires
        is_menu_of(r1, s),
        is_menu_of(r2, s),
        0 <= k <= r1.len(),
        k <= r2.len(),
    ensures
        forall|j: int| 0 <= j < k ==> r1[j] == r2[j],
    decreases k,
{
    if k > 0 {
        lemma_menu_prefix(r1, r2, s, k - 1);
        let a = r1[k - 1];
        let b = r2[k - 1];
        assert(first_arrival(s, a));
        assert(first_arrival(s, b));
        if a.1 < b.1 {
            lemma_menu_holds_lower(r2, s, a, k - 1);
            let m = choose|m: int| 0 <= m < k - 1 && r2[m] == a;
            assert(r1[m] == a);
            assert(r1[m].1 < r1[k - 1].1);
        } else if b.1 < a.1 {
            lemma_menu_holds_lower(r1, s, b, k - 1);
            let m = choose|m: int| 0 <= m < k - 1 && r1[m] == b;
            assert(r2[m] == b);
            assert(r2[m].1 < r2[k - 1].1);
        } else {
            lemma_first_arrivals_same_score(s, a, b);
        }
    }
}

proof fn lemma_menu_not_shorter(r1: Seq<EntryView>, r2: Seq<EntryView>, s: Seq<EntryView>)
    requires
        is_menu_of(r1, s),
        is_menu_of(r2, s),
        r1.len() <= r2.len(),
        forall|j: int| 0 <= j < r1.len() ==> r1[j] == r2[j],
    ensures
        r1.len() == r2.len(),
{
    if r1.len() < r2.len() {
        let x = r2[r1.len() as int];
        assert(first_arrival(s, x));
        let i = choose|i: int| first_of_its_score(s, i) && s[i] == x;
        if r1.contains(x) {
            let m = choose|m: int| 0 <= m < r1.len() && r1[m] == x;
            assert(r2[m] == x);
            assert(r2[m].1 < r2[r1.len() as int].1);
        } else {
            assert(r1.len() == PUM_HEIGHT);
        }
    }
}

/// The menu is determined by the candidates: two sequences that are both the
/// popup menu of the same candidates are equal.
pub proof fn menu_is_unique(r1: Seq<EntryView>, r2: Seq<EntryView>, s: Seq<EntryView>)
    requires
        is_menu_of(r1, s),
        is_menu_of(r2, s),
    ensures
        r1 == r2,
{
    if r1.len() <= r2.len() {
        lemma_menu_prefix(r1, r2, s, r1.len() as int);
        lemma_menu_not_shorter(r1, r2, s);
    } else {
        lemma_menu_prefix(r2, r1, s, r2.len() as int);
        lemma_menu_not_shorter(r2, r1, s);
    }
    assert(r1 =~= r2);
}

/// Chooses the popup menu among candidates given in the order they arrived,
/// with the matcher's answer for each: those that did not match are dropped,
/// the others take the matcher's score.
pub fn collect_entries(candidates: Vec<Entry>, matches: Vec<Option<i64>>) -> (menu: Vec<Entry>)
    requires
        candidates.len() == matches.len(),
    ensures
        is_menu_of(views(menu@), matched_all(views(candidates@), matches@)),
{
    let scored = Entry::keep_matched(&candidates, &matches);
    select_top(scored)
}

/// Choosing the menu again among the entries of a menu gives that menu back.
pub proof fn menu_is_stable(r: Seq<EntryView>, s: Seq<EntryView>)
    requires
        is_menu_of(r, s),
    ensures
        is_menu_of(r, r),
{
    assert forall|k: int| 0 <= k < r.len() implies first_arrival(r, #[trigger] r[k]) by {
        assert forall|j: int| 0 <= j < k implies r[j].1 != r[k].1 by {
            assert(r[j].1 < r[k].1);
        }
        assert(first_of_its_score(r, k));
    }
    assert forall|i: int| first_of_its_score(r, i) implies r.contains(r[i]) by {
        assert(r[i] == r[i]);
    }
}

/// Registering two sources under one name keeps the second.
pub proof fn register_twice_keeps_last<S>(
    sources: Map<Seq<char>, S>,
    name: Seq<char>,
    first: S,
    second: S,
)
    ensures
        sources.insert(name, first).insert(name, second) == sources.insert(name, second),
{
    assert(sources.insert(name, first).insert(name, second) =~= sources.insert(name, second));
}

/// The menu when every entry scores zero: the first entry received, if any.
pub open spec fn first_only(s: Seq<EntryView>) -> Seq<EntryView> {
    if s.len() == 0 {
        seq![]
    } else {
        seq![(s[0].0, 0i64)]
    }
}

/// When every candidate scores zero, the menu is the first candidate alone.
pub proof fn menu_of_zero_scores(es: Seq<EntryView>)
    ensures
        is_menu_of(first_only(es), zero_scored(es)),
{
    let s = zero_scored(es);
    let r = first_only(es);
    if es.len() > 0 {
        assert(first_of_its_score(s, 0));
        assert(first_arrival(s, r[0]));
        assert forall|i: int| first_of_its_score(s, i) implies r.contains(s[i]) by {
            if i > 0 {
                assert(s[0].1 == s[i].1);
            }
            assert(r[0] == s[0]);
        }
    }
}

/// The sources registered under distinct names, as a map from name to source.
pub open spec fn source_map<S>(pairs: Seq<(String, S)>) -> Map<Seq<char>, S> {
    Map::new(
        |name: Seq<char>| exists|i: int| 0 <= i < pairs.len() && pairs[i].0@ == name,
        |name: Seq<char>| pairs[choose|i: int| 0 <= i < pairs.len() && pairs[i].0@ == name].1,
    )
}

/// No two sources share a name.
pub open spec fn names_unique<S>(pairs: Seq<(String, S)>) -> bool {
    forall|i: int, j: int|
        0 <= i < pairs.len() && 0 <= j < pairs.len() && i != j ==> pairs[i].0@ != pairs[j].0@
}

/// What typing `v_char` does to the text the user has typed so far: a space
/// starts a new word, another character extends it, no character leaves it.
pub open spec fn next_user_match(typed: Seq<char>, v_char: Option<char>) -> Seq<char> {
    match v_char {
        Some(c) => if c == ' ' {
            Seq::empty()
        } else {
            typed.push(c)
        },
        None => typed,
    }
}

/// Typing a character other than a space appends it to the word, whatever
/// character it is; a space empties the word; no character leaves it as is.
pub proof fn typing_appends_all_but_space(typed: Seq<char>, c: char)
    ensures
        c != ' ' ==> next_user_match(typed, Some(c)) == typed.push(c),
        c != ' ' ==> next_user_match(typed, Some(c)).len() == typed.len() + 1,
        next_user_match(typed, Some(' ')).len() == 0,
        next_user_match(typed, None) == typed,
{
}

/// Typing a word of characters other than spaces into an empty word gives
/// that word.
pub proof fn typing_a_word_builds_it(word: Seq<char>)
    requires
        forall|i: int| 0 <= i < word.len() ==> word[i] != ' ',
    ensures
        typed_from(Seq::empty(), word) == word,
    decreases word.len(),
{
    if word.len() > 0 {
        typing_a_word_builds_it(word.drop_last());
        assert(word.drop_last().push(word.last()) =~= word);
    }
}

/// The word after typing each character of `keys`, in order, starting from
/// `typed`.
pub open spec fn typed_from(typed: Seq<char>, keys: Seq<char>) -> Seq<char>
    decreases keys.len(),
{
    if keys.len() == 0 {
        typed
    } else {
        next_user_match(typed_from(typed, keys.drop_last()), Some(keys.last()))
    }
}

/// The elapsed time is the plain difference when time did not go backwards,
/// with no cap however large, and zero otherwise.
pub proof fn elapsed_is_the_difference(earlier: u64, now: u64)
    ensures
        now >= earlier ==> elapsed(earlier, now) == now - earlier,
        now < earlier ==> elapsed(earlier, now) == 0,
        elapsed(earlier, now) + earlier >= now,
{
}

/// `now - earlier` when `now` is not before `earlier`, else zero.
pub open spec fn elapsed(earlier: u64, now: u64) -> int {
    if now >= earlier {
        now - earlier
    } else {
        0
    }
}

/// The mathematical value of a completor.
pub ghost struct CompletorView<S> {
    /// The character the user typed last.
    pub v_char: Option<char>,
    /// The word the user is typing, which entries are scored against.
    pub user_match: Seq<char>,
    /// The registered sources, by name.
    pub sources: Map<Seq<char>, S>,
    /// When `quicker_than` was last asked, in nanoseconds since creation.
    pub instant: u64,
    /// The menu that was shown last.
    pub previous_complete: Option<Seq<CompleteItem>>,
}

/// The state of the completion engine. `S` is how the embedding program holds
/// a source. Instants are counted in nanoseconds since the completor was made.
#[derive(Debug)]
pub struct Completor<S> {
    v_char: Option<char>,
    user_match: String,
    sources: Vec<(String, S)>,
    instant: u64,
    previous_complete: Option<Vec<CompleteItem>>,
}

impl<S> View for Completor<S> {
    type V = CompletorView<S>;

    closed spec fn view(&self) -> CompletorView<S> {
        CompletorView {
            v_char: self.v_char,
            user_match: self.user_match@,
            sources: source_map(self.sources@),
            instant: self.instant,
            previous_complete: match self.previous_complete {
                Some(items) => Some(items@),
                None => None,
            },
        }
    }
}

impl<S> Completor<S> {
    /// The registered sources never share a name.
    #[verifier::type_invariant]
    closed spec fn wf(&self) -> bool {
        names_unique(self.sources@)
    }

    /// The registered sources with their names, in the order they are kept.
    pub closed spec fn source_list(&self) -> Seq<(String, S)> {
        self.sources@
    }

    pub fn new() -> (c: Completor<S>)
        ensures
            c@.v_char is None,
            c@.user_match == Seq::<char>::empty(),
            c@.sources == Map::<Seq<char>, S>::empty(),
            c@.instant == 0,
            c@.previous_complete == Some(Seq::<CompleteItem>::empty()),
    {
        let c = Completor {
            v_char: None,
            user_match: String::new(),
            sources: Vec::new(),
            instant: 0,
            previous_complete: Some(Vec::new()),
        };
        assert(source_map(c.sources@) =~= Map::<Seq<char>, S>::empty());
        c
    }

    /// The character the user typed last.
    pub fn v_char(&self) -> (c: Option<char>)
        ensures
            c == self@.v_char,
    {
        self.v_char
    }

    /// The word the user is typing.
    pub fn user_match(&self) -> (m: &String)
        ensures
            m@ == self@.user_match,
    {
        &self.user_match
    }

    /// When `quicker_than` was last asked.
    pub fn instant(&self) -> (t: u64)
        ensures
            t == self@.instant,
    {
        self.instant
    }

    /// The menu that was shown last.
    pub fn previous_complete(&self) -> (p: &Option<Vec<CompleteItem>>)
        ensures
            self@.previous_complete == match p {
                Some(items) => Some(items@),
                None => None::<Seq<CompleteItem>>,
            },
    {
        &self.previous_complete
    }

    /// The registered sources with their names, each name once.
    pub fn sources(&self) -> (list: &Vec<(String, S)>)
        ensures
            list@ == self.source_list(),
            names_unique(list@),
            source_map(list@) == self@.sources,
    {
        proof {
            use_type_invariant(self);
        }
        &self.sources
    }

    /// Records the character that the user just typed. `c` is that character
    /// as a string of exactly one character.
    pub fn set_v_char(&mut self, c: &str)
        requires
            c@.len() == 1,
        ensures
            final(self)@ == (CompletorView { v_char: Some(c@[0]), ..old(self)@ }),
            final(self).source_list() == old(self).source_list(),
    {
        proof {
            use_type_invariant(&*self);
        }
        self.v_char = Some(c.get_char(0));
    }

    /// Applies the last typed character to the word being typed.
    pub fn update_user_match(&mut self)
        ensures
            final(self)@ == (CompletorView {
                user_match: next_user_match(old(self)@.user_match, old(self)@.v_char),
                ..old(self)@
            }),
            old(self)@.v_char == Some(' ') ==> final(self)@.user_match.len() == 0,
            forall|c: char|
                old(self)@.v_char == Some(c) && c != ' ' ==> final(self)@.user_match == old(
                    self,
                )@.user_match.push(c),
            old(self)@.v_char is None ==> final(self)@.user_match == old(self)@.user_match,
            final(self).source_list() == old(self).source_list(),
    {
        proof {
            use_type_invariant(&*self);
        }
        match self.v_char {
            Some(c) => {
                if c == ' ' {
                    self.user_match = String::new();
                } else {
                    let mut typed = String::new();
                    std::mem::swap(&mut typed, &mut self.user_match);
                    push_char(&mut typed, c);
                    self.user_match = typed;
                }
            },
            None => {},
        }
    }

    /// Forgets the word being typed, as when the user leaves insert mode.
    pub fn clear_user_match(&mut self)
        ensures
            final(self)@ == (CompletorView { user_match: Seq::<char>::empty(), ..old(self)@ }),
            final(self).source_list() == old(self).source_list(),
    {
        proof {
            use_type_invariant(&*self);
        }
        self.user_match = String::new();
    }

    /// Whether less than `duration` passed between the previous call and
    /// `now`; records `now` for the next call.
    pub fn quicker_than(&mut self, now: u64, duration: u64) -> (quick: bool)
        ensures
            final(self)@ == (CompletorView { instant: now, ..old(self)@ }),
            quick == (elapsed(old(self)@.instant, now) < duration),
            now >= old(self)@.instant ==> quick == (now - old(self)@.instant < duration),
            now < old(self)@.instant ==> quick == (0 < duration),
            final(self).source_list() == old(self).source_list(),
    {
        proof {
            use_type_invariant(&*self);
        }
        let earlier = self.instant;
        self.instant = now;
        let passed = if now >= earlier {
            now - earlier
        } else {
            0
        };
        passed < duration
    }

    /// The menu for the entries that the sources sent, in the order they
    /// arrived, scored against the word being typed.
    pub fn top_entries(&self, received: Vec<Entry>) -> (menu: Vec<Entry>)
        ensures
            is_menu_of(
                views(menu@),
                matched_all(views(received@), skim_answers(views(received@), self@.user_match)),
            ),
            forall|i: int|
                0 <= i < received@.len() ==> (skim_answers(views(received@), self@.user_match)[i] is Some
                    <==> skim_matches(#[trigger] received@[i].contents@, self@.user_match)),
            self@.user_match.len() == 0 ==> views(menu@) == first_only(views(received@)),
    {
        let mut matches: Vec<Option<i64>> = Vec::new();
        let n = received.len();
        for i in 0..n
            invariant
                n == received.len(),
                matches@ =~= skim_answers(views(received@), self@.user_match).take(i as int),
                forall|k: int|
                    0 <= k < i ==> (matches@[k] is Some <==> skim_matches(
                        #[trigger] received@[k].contents@,
                        self@.user_match,
                    )),
                self@.user_match.len() == 0 ==> forall|k: int|
                    0 <= k < i ==> #[trigger] matches@[k] == Some(0i64),
        {
            matches.push(fuzzy_match(received[i].contents.as_str(), self.user_match.as_str()));
        }
        assert(matches@ =~= skim_answers(views(received@), self@.user_match));
        let ghost cands = views(received@);
        let menu = collect_entries(received, matches);
        proof {
            if self@.user_match.len() == 0 {
                lemma_matched_all_zero(cands, matches@);
                menu_of_zero_scores(cands);
                menu_is_unique(views(menu@), first_only(cands), zero_scored(cands));
            }
        }
        menu
    }

    /// The popup-menu items for the entries that the sources sent, in the
    /// order they arrived.
    pub fn agregate_sources(&self, received: Vec<Entry>) -> (items: Vec<CompleteItem>)
        ensures
            exists|menu: Seq<EntryView>|
                {
                    &&& is_menu_of(
                        menu,
                        matched_all(views(received@), skim_answers(views(received@), self@.user_match)),
                    )
                    &&& shows(items@, menu)
                },
            forall|i: int|
                0 <= i < received@.len() ==> (skim_answers(views(received@), self@.user_match)[i] is Some
                    <==> skim_matches(#[trigger] received@[i].contents@, self@.user_match)),
            self@.user_match.len() == 0 ==> shows(items@, first_only(views(received@))),
    {
        let menu = self.top_entries(received);
        let items = Entry::serialize(menu);
        assert(shows(items@, views(menu@)));
        items
    }

    /// Registers `source` under `name`, replacing a source of that name.
    pub fn register(&mut self, name: &str, source: S)
        ensures
            final(self)@ == (CompletorView {
                sources: old(self)@.sources.insert(name@, source),
                ..old(self)@
            }),
    {
        proof {
            use_type_invariant(&*self);
        }
        let mut sources: Vec<(String, S)> = Vec::new();
        std::mem::swap(&mut sources, &mut self.sources);
        let key = name.to_owned();
        let n = sources.len();
        let mut i: usize = 0;
        while i < n
            invariant
                n == sources.len(),
                i <= n,
                forall|j: int| 0 <= j < i ==> sources@[j].0@ != key@,
            ensures
                i <= n,
                forall|j: int| 0 <= j < i ==> sources@[j].0@ != key@,
                i < n ==> sources@[i as int].0@ == key@,
            decreases n - i,
        {
            if sources[i].0 == key {
                break;
            }
            i = i + 1;
        }
        let ghost old_pairs = sources@;
        if i < n {
            assert(sources@[i as int].0@ == key@);
            sources.set(i, (key, source));
            proof {
                lemma_source_map_replace(old_pairs, i as int, sources@);
            }
        } else {
            sources.push((key, source));
            proof {
                lemma_source_map_push(old_pairs, sources@);
            }
        }
        self.sources = sources;
    }
}

proof fn lemma_source_map_replace<S>(old_pairs: Seq<(String, S)>, i: int, pairs: Seq<(String, S)>)
    requires
        names_unique(old_pairs),
        0 <= i < old_pairs.len(),
        pairs.len() == old_pairs.len(),
        pairs[i].0@ == old_pairs[i].0@,
        forall|j: int| 0 <= j < pairs.len() && j != i ==> pairs[j] == old_pairs[j],
    ensures
        names_unique(pairs),
        source_map(pairs) == source_map(old_pairs).insert(pairs[i].0@, pairs[i].1),
{
    let key = pairs[i].0@;
    assert(names_unique(pairs)) by {
        assert forall|a: int, b: int|
            0 <= a < pairs.len() && 0 <= b < pairs.len() && a != b implies pairs[a].0@
            != pairs[b].0@ by {
            assert(old_pairs[a].0@ != old_pairs[b].0@);
        }
    }
    let m = source_map(pairs);
    let m0 = source_map(old_pairs).insert(key, pairs[i].1);
    assert forall|name: Seq<char>| #[trigger] m.dom().contains(name) <==> m0.dom().contains(name) by {
        if m.dom().contains(name) {
            let j = choose|j: int| 0 <= j < pairs.len() && pairs[j].0@ == name;
            if j != i {
                assert(old_pairs[j].0@ == name);
            }
        }
        if name != key && m0.dom().contains(name) {
            let j = choose|j: int| 0 <= j < old_pairs.len() && old_pairs[j].0@ == name;
            assert(pairs[j].0@ == name);
        }
    }
    assert forall|name: Seq<char>| #[trigger] m.dom().contains(name) implies m[name] == m0[name] by {
        let j = choose|j: int| 0 <= j < pairs.len() && pairs[j].0@ == name;
        if name == key {
            assert(j == i);
        } else {
            assert(j != i);
            let j0 = choose|j0: int| 0 <= j0 < old_pairs.len() && old_pairs[j0].0@ == name;
            assert(old_pairs[j].0@ == name);
            assert(j0 == j);
        }
    }
    assert(m =~= m0);
}

proof fn lemma_source_map_push<S>(old_pairs: Seq<(String, S)>, pairs: Seq<(String, S)>)
    requires
        names_unique(old_pairs),
        pairs.len() == old_pairs.len() + 1,
        forall|j: int| 0 <= j < old_pairs.len() ==> pairs[j] == old_pairs[j],
        forall|j: int| 0 <= j < old_pairs.len() ==> old_pairs[j].0@ != pairs.last().0@,
    ensures
        names_unique(pairs),
        source_map(pairs) == source_map(old_pairs).insert(pairs.last().0@, pairs.last().1),
{
    let n = old_pairs.len() as int;
    let key = pairs.last().0@;
    assert(names_unique(pairs)) by {
        assert forall|a: int, b: int|
            0 <= a < pairs.len() && 0 <= b < pairs.len() && a != b implies pairs[a].0@
            != pairs[b].0@ by {
            if a < n && b < n {
                assert(old_pairs[a].0@ != old_pairs[b].0@);
            } else if a < n {
                assert(old_pairs[a].0@ != key);
            } else {
                assert(old_pairs[b].0@ != key);
            }
        }
    }
    let m = source_map(pairs);
    let m0 = source_map(old_pairs).insert(key, pairs.last().1);
    assert forall|name: Seq<char>| #[trigger] m.dom().contains(name) <==> m0.dom().contains(name) by {
        if m.dom().contains(name) {
            let j = choose|j: int| 0 <= j < pairs.len() && pairs[j].0@ == name;
            if j < n {
                assert(old_pairs[j].0@ == name);
            }
        }
        if name == key {
            assert(pairs[n].0@ == name);
        } else if m0.dom().contains(name) {
            let j = choose|j: int| 0 <= j < old_pairs.len() && old_pairs[j].0@ == name;
            assert(pairs[j].0@ == name);
        }
    }
    assert forall|name: Seq<char>| #[trigger] m.dom().contains(name) implies m[name] == m0[name] by {
        let j = choose|j: int| 0 <= j < pairs.len() && pairs[j].0@ == name;
        if name == key {
            assert(pairs[n].0@ == name);
            assert(j == n);
        } else {
            assert(j != n);
            let j0 = choose|j0: int| 0 <= j0 < old_pairs.len() && old_pairs[j0].0@ == name;
            assert(old_pairs[j].0@ == name);
            assert(pairs[j0].0@ == name);
            assert(j0 == j);
        }
    }
    assert(m =~= m0);
}

} // verus!
