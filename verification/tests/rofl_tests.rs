use std::cmp::Ordering;
use rofl::completor::{collect_entries, select_top, Completor, PUM_HEIGHT};
use rofl::handle::{parse_v_char, route, Notification, VCharError};
use rofl::text::push_decimal;
use rofl::{Counter, Entry, LuaFn, LuaRequest, Score};

fn entry(text: &str, score: i64) -> Entry {
    Entry::new(text.to_string(), Score::new(score))
}

fn pairs(entries: &[Entry]) -> Vec<(String, i64)> {
    entries.iter().map(|e| (e.contents.clone(), e.score.0)).collect()
}

#[test]
fn score_keeps_text_and_drops_misses() {
    let hit = entry("hello world", 7).score("hw").expect("pattern is a subsequence");
    assert_eq!(hit.contents, "hello world");
    assert!(entry("hello world", 7).score("xyz").is_none());
}

#[test]
fn score_with_empty_pattern_is_zero() {
    let e = entry("anything", 42).score("").unwrap();
    assert_eq!(e.contents, "anything");
    assert_eq!(e.score, Score::new(0));
}

#[test]
fn score_smart_case() {
    // lower-case pattern ignores case, an upper-case letter makes it strict
    assert!(entry("HelloWorld", 0).score("hw").is_some());
    assert!(entry("helloworld", 0).score("HW").is_none());
    assert!(entry("HelloWorld", 0).score("HW").is_some());
}

#[test]
fn apply_match_sets_score() {
    let e = entry("abc", 1).apply_match(Some(9)).unwrap();
    assert_eq!(pairs(&[e]), vec![("abc".to_string(), 9)]);
    assert!(entry("abc", 1).apply_match(None).is_none());
}

#[test]
fn from_word_scores_zero() {
    let e = Entry::from_word("word".to_string());
    assert_eq!(e, entry("word", 0));
}

#[test]
fn sort_by_score_orders_and_keeps_all() {
    let sorted = Entry::sort_by_score(vec![entry("c", 3), entry("a", 1), entry("b", 2), entry("a2", 1)]);
    let scores: Vec<i64> = sorted.iter().map(|e| e.score.0).collect();
    assert_eq!(scores, vec![1, 1, 2, 3]);
    let mut texts: Vec<String> = sorted.iter().map(|e| e.contents.clone()).collect();
    texts.sort();
    assert_eq!(texts, vec!["a", "a2", "b", "c"]);
}

#[test]
fn rank_matches_filters_and_sorts() {
    let ranked = Entry::rank_matches(
        vec![entry("x", 0), entry("y", 0), entry("z", 0)],
        vec![Some(5), None, Some(-2)],
    );
    assert_eq!(pairs(&ranked), vec![("z".to_string(), -2), ("x".to_string(), 5)]);
}

#[test]
fn score_multiple_keeps_matches_sorted() {
    let ranked = Entry::score_multiple(
        vec![entry("foobar", 0), entry("qux", 0), entry("fbar", 0)],
        "fb",
    );
    assert_eq!(ranked.len(), 2);
    assert!(ranked[0].score.0 <= ranked[1].score.0);
    assert!(ranked.iter().all(|e| e.contents != "qux"));
}

#[test]
fn score_multiple_empty_pattern_keeps_everything() {
    let ranked = Entry::score_multiple(vec![entry("a", 3), entry("b", 4)], "");
    assert_eq!(ranked.len(), 2);
    assert!(ranked.iter().all(|e| e.score.0 == 0));
}

#[test]
fn complete_item_fields() {
    let item = entry("text", 3).to_complete_item();
    assert_eq!(item.word, "");
    assert_eq!((item.empty, item.dup, item.equal), (1, 1, 1));
    assert_eq!(item.abbr, "text");
    assert_eq!(item.menu, "[B]");
}

#[test]
fn serialize_keeps_order() {
    let items = Entry::serialize(vec![entry("one", 1), entry("two", 2)]);
    let abbrs: Vec<String> = items.iter().map(|i| i.abbr.clone()).collect();
    assert_eq!(abbrs, vec!["one", "two"]);
}

#[test]
fn select_top_dedups_by_score_keeping_first() {
    let menu = select_top(vec![entry("a", 5), entry("b", 3), entry("c", 5), entry("d", 1)]);
    assert_eq!(
        pairs(&menu),
        vec![("d".to_string(), 1), ("b".to_string(), 3), ("a".to_string(), 5)]
    );
}

#[test]
fn select_top_keeps_lowest_pum_height() {
    let candidates: Vec<Entry> = (0..10).rev().map(|i| entry(&format!("e{}", i), i)).collect();
    let menu = select_top(candidates);
    assert_eq!(menu.len(), PUM_HEIGHT);
    let scores: Vec<i64> = menu.iter().map(|e| e.score.0).collect();
    assert_eq!(scores, vec![0, 1, 2, 3, 4, 5]);
}

#[test]
fn select_top_of_empty_is_empty() {
    assert!(select_top(Vec::new()).is_empty());
}

#[test]
fn select_top_is_stable() {
    let menu = select_top(vec![entry("a", 4), entry("b", 2), entry("c", 9)]);
    let again = select_top(menu.clone());
    assert_eq!(pairs(&again), pairs(&menu));
}

#[test]
fn collect_entries_applies_matches() {
    let menu = collect_entries(
        vec![entry("a", 0), entry("b", 0), entry("c", 0)],
        vec![Some(4), None, Some(4)],
    );
    assert_eq!(pairs(&menu), vec![("a".to_string(), 4)]);
}

#[test]
fn completor_new_is_empty() {
    let c: Completor<u32> = Completor::new();
    assert_eq!(c.v_char(), None);
    assert_eq!(c.user_match(), "");
    assert!(c.sources().is_empty());
    assert_eq!(c.instant(), 0);
    assert_eq!(c.previous_complete().as_ref().map(|v| v.len()), Some(0));
}

#[test]
fn typing_builds_and_space_clears_user_match() {
    let mut c: Completor<u32> = Completor::new();
    c.update_user_match();
    assert_eq!(c.user_match(), "");
    for ch in ["f", "o", "o"] {
        c.set_v_char(ch);
        c.update_user_match();
    }
    assert_eq!(c.user_match(), "foo");
    assert_eq!(c.v_char(), Some('o'));
    c.set_v_char(" ");
    c.update_user_match();
    assert_eq!(c.user_match(), "");
    c.set_v_char("é");
    c.update_user_match();
    assert_eq!(c.user_match(), "é");
    c.clear_user_match();
    assert_eq!(c.user_match(), "");
}

#[test]
fn quicker_than_measures_from_previous_call() {
    let mut c: Completor<u32> = Completor::new();
    assert!(c.quicker_than(50, 100));
    assert_eq!(c.instant(), 50);
    assert!(!c.quicker_than(150, 100));
    assert!(c.quicker_than(249, 100));
    assert!(c.quicker_than(10, 1));
    assert_eq!(c.instant(), 10);
}

#[test]
fn register_replaces_same_name() {
    let mut c: Completor<u32> = Completor::new();
    c.register("counter", 1);
    c.register("static", 2);
    c.register("counter", 3);
    let list: Vec<(String, u32)> = c.sources().clone();
    assert_eq!(list.len(), 2);
    assert!(list.contains(&("counter".to_string(), 3)));
    assert!(list.contains(&("static".to_string(), 2)));
}

#[test]
fn agregate_sources_scores_against_user_match() {
    let mut c: Completor<u32> = Completor::new();
    for ch in ["b", "a"] {
        c.set_v_char(ch);
        c.update_user_match();
    }
    let items = c.agregate_sources(vec![entry("banana", 0), entry("cherry", 0), entry("bandana", 0)]);
    assert!(items.len() >= 1 && items.len() <= 2);
    assert!(items.iter().all(|i| i.abbr != "cherry" && i.menu == "[B]"));
}

#[test]
fn agregate_sources_with_empty_user_match_keeps_first() {
    let c: Completor<u32> = Completor::new();
    let items = c.agregate_sources(vec![entry("first", 7), entry("second", 1)]);
    let abbrs: Vec<String> = items.iter().map(|i| i.abbr.clone()).collect();
    assert_eq!(abbrs, vec!["first"]);
}

#[test]
fn top_entries_is_bounded() {
    let c: Completor<u32> = Completor::new();
    let received: Vec<Entry> = (0..20).map(|i| entry(&format!("w{}", i), i)).collect();
    let menu = c.top_entries(received);
    assert_eq!(menu.len(), 1);
    assert_eq!(menu[0].contents, "w0");
}

#[test]
fn counter_counts() {
    let mut counter = Counter(0);
    assert_eq!(counter.next_entry(), entry("The counter is 0", 0));
    assert_eq!(counter.next_entry(), entry("The counter is 1", 0));
    assert_eq!(counter.0, 2);
    let mut big = Counter(1234567890);
    assert_eq!(big.next_entry().contents, "The counter is 1234567890");
    assert_eq!(big.0, 1234567891);
}

#[test]
fn push_decimal_writes_digits() {
    let mut s = String::from("n=");
    push_decimal(&mut s, 0);
    push_decimal(&mut s, 907);
    push_decimal(&mut s, u64::MAX);
    assert_eq!(s, format!("n=0907{}", u64::MAX));
}

#[test]
fn lua_fn_call() {
    let f = LuaFn::new("buffers".to_string());
    assert_eq!(f.name, "buffers");
    assert_eq!(f.lua_call(), "return require'rofl'.call_source('buffers')");
}

#[test]
fn lua_request_expr() {
    let r = LuaRequest::new("files".to_string());
    assert_eq!(r.name, "files");
    assert_eq!(r.lua_expr(), "require'rofl'.call_source('files')");
}

#[test]
fn route_names() {
    assert_eq!(route("complete"), Notification::Complete);
    assert_eq!(route("v_char"), Notification::VChar);
    assert_eq!(route("insert_leave"), Notification::InsertLeave);
    assert_eq!(route("update_buffer_words"), Notification::UpdateBufferWords);
    assert_eq!(route("add_lua_source"), Notification::AddLuaSource);
    assert_eq!(route("completex"), Notification::Ignored);
    assert_eq!(route(""), Notification::Ignored);
}

#[test]
fn select_top_is_determined_by_candidates() {
    let make = || vec![entry("p", 2), entry("q", 8), entry("r", 2), entry("s", -1)];
    assert_eq!(pairs(&select_top(make())), pairs(&select_top(make())));
    assert_eq!(
        pairs(&select_top(make())),
        vec![("s".to_string(), -1), ("p".to_string(), 2), ("q".to_string(), 8)]
    );
}

#[test]
fn cmp_by_score_ignores_text() {
    assert_eq!(entry("zzz", 1).cmp_by_score(&entry("aaa", 2)), Ordering::Less);
    assert_eq!(entry("zzz", 2).cmp_by_score(&entry("aaa", 2)), Ordering::Equal);
    assert_eq!(entry("a", 3).cmp_by_score(&entry("b", -3)), Ordering::Greater);
    assert_eq!(entry("a", 3).partial_cmp_by_score(&entry("b", 3)), Some(Ordering::Equal));
}

#[test]
fn score_multiple_ignores_input_order() {
    let words = ["fob", "foobar", "xyz", "f_o_o", "bof", "food"];
    let forward: Vec<Entry> = words.iter().map(|w| entry(w, 0)).collect();
    let backward: Vec<Entry> = words.iter().rev().map(|w| entry(w, 0)).collect();
    let a = Entry::score_multiple(forward, "fo");
    let b = Entry::score_multiple(backward, "fo");
    let scores = |r: &Vec<Entry>| r.iter().map(|e| e.score.0).collect::<Vec<i64>>();
    assert_eq!(scores(&a), scores(&b));
    let mut pa = pairs(&a);
    let mut pb = pairs(&b);
    pa.sort();
    pb.sort();
    assert_eq!(pa, pb);
}

#[test]
fn parse_v_char_cases() {
    assert_eq!(parse_v_char("x"), Ok('x'));
    assert_eq!(parse_v_char("é"), Ok('é'));
    assert_eq!(parse_v_char(""), Err(VCharError::Empty));
    assert_eq!(parse_v_char("xy"), Err(VCharError::NotOneChar));
}

#[test]
fn empty_user_match_menu_is_first_received() {
    let c: Completor<u32> = Completor::new();
    let menu = c.top_entries(vec![entry("b", 9), entry("a", 1), entry("c", 4)]);
    assert_eq!(pairs(&menu), vec![("b".to_string(), 0)]);
    assert!(c.top_entries(Vec::new()).is_empty());
    assert!(c.agregate_sources(Vec::new()).is_empty());
}
