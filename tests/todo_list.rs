use todo_search::{
    match_subsequence, Index, SearchParams, SearchWordOrTag, Tag, TodoItem, TodoList, TodoLister,
    Trie1, TriedoList, Word,
};

fn words(ws: &[&str]) -> Vec<Word> {
    ws.iter().map(|w| Word::new(w)).collect()
}

fn word(w: &str) -> SearchWordOrTag {
    SearchWordOrTag::RawWord(w.to_string())
}

fn tag(t: &str) -> SearchWordOrTag {
    SearchWordOrTag::RawTag(t.to_string())
}

fn query(terms: Vec<SearchWordOrTag>) -> SearchParams {
    SearchParams::new(terms)
}

fn ids(items: &[&TodoItem]) -> Vec<u64> {
    items.iter().map(|i| i.index.value()).collect()
}

fn sorted(mut v: Vec<u64>) -> Vec<u64> {
    v.sort();
    v
}

#[test]
fn indexed_round_trip_scenario() {
    let mut tl = TriedoList::new();
    let a = tl.push(words(&["buy", "milk"]), Tag::from_strings(vec!["errand"]));
    assert_eq!(a.index.value(), 0);
    assert!(!a.done);
    assert_eq!(ids(&tl.search(query(vec![word("buy")]))), vec![0]);
    let b = tl.push(words(&["buy", "bread"]), vec![]);
    assert_eq!(b.index.value(), 1);
    assert_eq!(ids(&tl.search(query(vec![word("buy")]))), vec![0, 1]);
    assert_eq!(ids(&tl.search(query(vec![word("buy"), tag("errand")]))), vec![0]);
    assert_eq!(tl.done_with_index(Index::new(0)), Some(Index::new(0)));
    assert_eq!(ids(&tl.search(query(vec![word("buy")]))), vec![1]);
    assert_eq!(ids(&tl.search(query(vec![tag("errand")]))), vec![0]);
}

#[test]
fn identifiers_count_up_from_zero() {
    let mut tl = TriedoList::new();
    for i in 0..5u64 {
        let item = tl.push(words(&["w"]), vec![]);
        assert_eq!(item.index, Index::new(i));
    }
    let mut bl = TodoList::new();
    for i in 0..3u64 {
        assert_eq!(bl.push(vec![], vec![]).index.value(), i);
    }
}

#[test]
fn empty_query_finds_nothing() {
    let mut tl = TriedoList::new();
    assert!(tl.search(query(vec![])).is_empty());
    tl.push(words(&["a"]), Tag::from_strings(vec!["b"]));
    tl.push(words(&[""]), vec![]);
    assert!(tl.search(query(vec![])).is_empty());
}

#[test]
fn word_term_is_a_prefix_match() {
    let mut tl = TriedoList::new();
    tl.push(words(&["buy", "milk"]), vec![]);
    tl.push(words(&["buyer"]), vec![]);
    tl.push(words(&["abuy"]), vec![]);
    tl.push(words(&["bu"]), vec![]);
    assert_eq!(ids(&tl.search(query(vec![word("buy")]))), vec![0, 1]);
    assert_eq!(ids(&tl.search(query(vec![word("bu")]))), vec![0, 1, 3]);
    assert_eq!(ids(&tl.search(query(vec![word("")]))), vec![0, 1, 2, 3]);
    assert_eq!(ids(&tl.search(query(vec![word("m")]))), vec![0]);
    assert!(tl.search(query(vec![word("buyers")])).is_empty());
    assert!(tl.search(query(vec![word("x")])).is_empty());
}

#[test]
fn two_terms_intersect() {
    let mut tl = TriedoList::new();
    tl.push(words(&["call", "mom"]), Tag::from_strings(vec!["family"]));
    tl.push(words(&["call", "bank"]), Tag::from_strings(vec!["money"]));
    tl.push(words(&["visit", "mom"]), Tag::from_strings(vec!["family", "money"]));
    let a = sorted(ids(&tl.search(query(vec![word("call")]))));
    let b = sorted(ids(&tl.search(query(vec![tag("fam")]))));
    let ab = sorted(ids(&tl.search(query(vec![word("call"), tag("fam")]))));
    let both: Vec<u64> = a.iter().copied().filter(|x| b.contains(x)).collect();
    assert_eq!(ab, both);
    assert_eq!(ab, vec![0]);
    assert_eq!(ids(&tl.search(query(vec![tag("money"), word("mom")]))), vec![2]);
    assert!(tl.search(query(vec![word("call"), word("visit")])).is_empty());
}

#[test]
fn completing_twice_and_unknown_identifier() {
    let mut tl = TriedoList::new();
    tl.push(words(&["a"]), vec![]);
    assert_eq!(tl.done_with_index(Index::new(0)), Some(Index::new(0)));
    assert_eq!(tl.done_with_index(Index::new(0)), Some(Index::new(0)));
    assert_eq!(tl.done_with_index(Index::new(7)), None);
    assert!(tl.search(query(vec![word("a")])).is_empty());
    let mut bl = TodoList::new();
    assert_eq!(bl.done_with_index(Index::new(0)), None);
    bl.push(words(&["a"]), vec![]);
    assert_eq!(bl.done_with_index(Index::new(0)), Some(Index::new(0)));
    assert_eq!(bl.done_with_index(Index::new(0)), Some(Index::new(0)));
}

#[test]
fn completed_items_keep_their_tags_searchable() {
    let mut tl = TriedoList::new();
    tl.push(words(&["pay", "rent"]), Tag::from_strings(vec!["home"]));
    tl.push(words(&["pay", "tax"]), Tag::from_strings(vec!["home"]));
    tl.done_with_index(Index::new(1));
    assert_eq!(ids(&tl.search(query(vec![word("pay")]))), vec![0]);
    assert_eq!(ids(&tl.search(query(vec![word("tax")]))), Vec::<u64>::new());
    assert_eq!(ids(&tl.search(query(vec![tag("home")]))), vec![0, 1]);
    assert_eq!(ids(&tl.search(query(vec![tag("home"), word("pay")]))), vec![0]);
    let found = tl.search(query(vec![tag("home")]));
    assert!(found[1].done);
}

#[test]
fn pushed_item_carries_its_fields() {
    let mut tl = TriedoList::new();
    let item = tl.push(words(&["x", "y"]), Tag::from_strings(vec!["t"]));
    assert_eq!(
        item,
        TodoItem::new(Index::new(0), words(&["x", "y"]), vec![Tag::new("t")], false)
    );
    assert_eq!(item.description[1].value(), "y");
    assert_eq!(item.tags[0].value(), "t");
}

#[test]
fn trie_prefix_search_and_delete() {
    let mut t = Trie1::new();
    assert!(t.search("").is_empty());
    assert!(t.search("a").is_empty());
    t.add(1, "car");
    t.add(2, "cart");
    t.add(3, "dog");
    t.add(1, "cow");
    t.add(1, "car");
    assert_eq!(sorted(t.search("c")), vec![1, 2]);
    assert_eq!(sorted(t.search("car")), vec![1, 2]);
    assert_eq!(sorted(t.search("cart")), vec![2]);
    assert_eq!(sorted(t.search("")), vec![1, 2, 3]);
    assert!(t.search("carts").is_empty());
    assert!(t.search("x").is_empty());
    t.delete(1);
    assert_eq!(sorted(t.search("c")), vec![2]);
    assert!(t.search("cow").is_empty());
    t.delete(1);
    t.delete(42);
    assert_eq!(sorted(t.search("")), vec![2, 3]);
    t.add(1, "cow");
    assert_eq!(sorted(t.search("co")), vec![1]);
}

#[test]
fn trie_handles_non_ascii_keys() {
    let mut t = Trie1::new();
    t.add(5, "café");
    t.add(6, "cafe");
    assert_eq!(sorted(t.search("café")), vec![5]);
    assert_eq!(sorted(t.search("caf")), vec![5, 6]);
}

#[test]
fn subsequence_matching() {
    assert!(match_subsequence("milk", ""));
    assert!(match_subsequence("", ""));
    assert!(!match_subsequence("", "a"));
    assert!(match_subsequence("milk", "mk"));
    assert!(match_subsequence("milk", "milk"));
    assert!(!match_subsequence("milk", "km"));
    assert!(!match_subsequence("milk", "milky"));
    assert!(match_subsequence("banana", "bnn"));
}

#[test]
fn linear_search_uses_subsequences_and_skips_done_items() {
    let mut bl = TodoList::new();
    bl.push(words(&["buy", "milk"]), Tag::from_strings(vec!["errand"]));
    bl.push(words(&["buy", "bread"]), vec![]);
    assert_eq!(ids(&bl.search(query(vec![word("mk")]))), vec![0]);
    assert_eq!(ids(&bl.search(query(vec![word("by")]))), vec![0, 1]);
    assert_eq!(ids(&bl.search(query(vec![word("by"), tag("ern")]))), vec![0]);
    assert_eq!(ids(&bl.search(query(vec![]))), vec![0, 1]);
    bl.done_with_index(Index::new(0));
    assert_eq!(ids(&bl.search(query(vec![tag("errand")]))), Vec::<u64>::new());
    assert_eq!(ids(&bl.search(query(vec![word("buy")]))), vec![1]);
}

#[test]
fn stores_through_the_common_trait() {
    fn run<T: TodoLister>(tl: &mut T) -> Vec<u64> {
        tl.push(words(&["buy", "milk"]), vec![]);
        tl.push(words(&["buy", "bread"]), vec![]);
        tl.done_with_index(Index::new(1));
        ids(&tl.search(query(vec![word("buy")])))
    }
    assert_eq!(run(&mut TriedoList::new()), vec![0]);
    assert_eq!(run(&mut TodoList::new()), vec![0]);
}

#[test]
fn tags_from_strings_keep_order() {
    let tags = Tag::from_strings(vec!["a", "bb", ""]);
    assert_eq!(tags.len(), 3);
    assert_eq!(tags[0].value(), "a");
    assert_eq!(tags[1].value(), "bb");
    assert_eq!(tags[2].value(), "");
    assert_eq!(Word::new("hi").value(), "hi");
    assert_eq!(Index::new(9).value(), 9);
}
