use vstd::prelude::*;

use crate::query::SearchParams;
use crate::subsequence::{is_subsequence, match_subsequence};
use crate::trie::{is_prefix, lemma_push_contains, matching, without_id, Trie1};

verus! {

/// The identifier of an item: assigned 0, 1, 2, ... in creation order.
#[derive(Debug, Clone, Copy, PartialEq, Eq, PartialOrd, Ord)]
pub struct Index(u64);

impl View for Index {
    type V = u64;

    closed spec fn view(&self) -> u64 {
        self.0
    }
}

impl Index {
    pub fn new(i: u64) -> (r: Self)
        ensures
            r@ == i,
    {
        Index(i)
    }

    pub fn value(&self) -> (r: u64)
        ensures
            r == self@,
    {
        self.0
    }
}

/// One word of an item's description.
#[derive(Debug, Clone, PartialEq, Eq)]
pub struct Word(String);

impl View for Word {
    type V = Seq<char>;

    closed spec fn view(&self) -> Seq<char> {
        self.0@
    }
}

impl Word {
    pub fn new(s: &str) -> (r: Self)
        ensures
            r@ == s@,
    {
        Word(s.to_owned())
    }

    pub fn value(&self) -> (r: &str)
        ensures
            r@ == self@,
    {
        self.0.as_str()
    }

    fn copy(&self) -> (r: Self)
        ensures
            r == *self,
    {
        Word(self.0.clone())
    }
}

/// One label of an item, written `#label` by front ends.
#[derive(Debug, Clone, PartialEq, Eq)]
pub struct Tag(String);

impl View for Tag {
    type V = Seq<char>;

    closed spec fn view(&self) -> Seq<char> {
        self.0@
    }
}

impl Tag {
    pub fn new(s: &str) -> (r: Self)
        ensures
            r@ == s@,
    {
        Tag(s.to_owned())
    }

    pub fn value(&self) -> (r: &str)
        ensures
            r@ == self@,
    {
        self.0.as_str()
    }

    /// One tag for each string, in order.
    pub fn from_strings(ss: Vec<&str>) -> (r: Vec<Tag>)
        ensures
            r@.len() == ss@.len(),
            forall|k: int| 0 <= k < ss@.len() ==> (#[trigger] r@[k])@ == ss@[k]@,
    {
        let mut r: Vec<Tag> = Vec::new();
        let mut k: usize = 0;
        while k < ss.len()
            invariant
                k <= ss@.len(),
                r@.len() == k,
                forall|m: int| 0 <= m < k ==> (#[trigger] r@[m])@ == ss@[m]@,
            decreases ss@.len() - k,
        {
            r.push(Tag::new(ss[k]));
            k = k + 1;
        }
        r
    }

    fn copy(&self) -> (r: Self)
        ensures
            r == *self,
    {
        Tag(self.0.clone())
    }
}

/// An item: its identifier, its words, its tags and whether it is done.
#[derive(Debug, Clone, PartialEq, Eq)]
pub struct TodoItem {
    pub index: Index,
    pub description: Vec<Word>,
    pub tags: Vec<Tag>,
    pub done: bool,
}

impl TodoItem {
    pub fn new(index: Index, description: Vec<Word>, tags: Vec<Tag>, done: bool) -> (r: Self)
        ensures
            r.index == index,
            r.description == description,
            r.tags == tags,
            r.done == done,
    {
        TodoItem { index, description, tags, done }
    }

    /// An item with the same fields as this one.
    fn copy(&self) -> (r: Self)
        ensures
            r.index == self.index,
            r.description@ == self.description@,
            r.tags@ == self.tags@,
            r.done == self.done,
    {
        let mut description: Vec<Word> = Vec::new();
        let mut k: usize = 0;
        while k < self.description.len()
            invariant
                k <= self.description@.len(),
                description@ =~= self.description@.subrange(0, k as int),
            decreases self.description@.len() - k,
        {
            description.push(self.description[k].copy());
            k = k + 1;
        }
        let mut tags: Vec<Tag> = Vec::new();
        let mut k: usize = 0;
        while k < self.tags.len()
            invariant
                k <= self.tags@.len(),
                tags@ =~= self.tags@.subrange(0, k as int),
            decreases self.tags@.len() - k,
        {
            tags.push(self.tags[k].copy());
            k = k + 1;
        }
        proof {
            assert(description@ =~= self.description@);
            assert(tags@ =~= self.tags@);
        }
        TodoItem { index: self.index, description, tags, done: self.done }
    }
}

/// A term of a query: a word of the description or a tag.
#[derive(Debug, Clone, PartialEq, Eq)]
pub enum SearchWordOrTag {
    RawWord(String),
    RawTag(String),
}

/// Some word of `item` begins with `key`.
pub open spec fn has_word_prefix(item: TodoItem, key: Seq<char>) -> bool {
    exists|k: int| 0 <= k < item.description@.len() && is_prefix(key, #[trigger] item.description@[k]@)
}

/// Some tag of `item` begins with `key`.
pub open spec fn has_tag_prefix(item: TodoItem, key: Seq<char>) -> bool {
    exists|k: int| 0 <= k < item.tags@.len() && is_prefix(key, #[trigger] item.tags@[k]@)
}

/// What the indexed search asks of an item for one term: a word term is met
/// by an item that is not done and has a word beginning with it; a tag term
/// by any item, done or not, with a tag beginning with it.
pub open spec fn indexed_term(item: TodoItem, t: SearchWordOrTag) -> bool {
    match t {
        SearchWordOrTag::RawWord(w) => !item.done && has_word_prefix(item, w@),
        SearchWordOrTag::RawTag(g) => has_tag_prefix(item, g@),
    }
}

/// An item is found by the indexed search for `terms`: there is at least one
/// term, and it meets every one.
pub open spec fn indexed_query(item: TodoItem, terms: Seq<SearchWordOrTag>) -> bool {
    terms.len() > 0 && forall|k: int| 0 <= k < terms.len() ==> indexed_term(item, #[trigger] terms[k])
}

/// `indexed_query` for `terms`, as a predicate on items.
pub open spec fn query_pred(terms: Seq<SearchWordOrTag>) -> spec_fn(TodoItem) -> bool {
    |it: TodoItem| indexed_query(it, terms)
}

/// The items that the indexed search for `terms` returns, in order.
pub open spec fn indexed_results(items: Seq<TodoItem>, terms: Seq<SearchWordOrTag>) -> Seq<TodoItem> {
    items.filter(query_pred(terms))
}

/// Filtering by a predicate that no element meets leaves nothing.
pub proof fn lemma_filter_none<A>(s: Seq<A>, pred: spec_fn(A) -> bool)
    requires
        forall|k: int| 0 <= k < s.len() ==> !pred(#[trigger] s[k]),
    ensures
        s.filter(pred).len() == 0,
    decreases s.len(),
{
    reveal(Seq::filter);
    if s.len() > 0 {
        lemma_filter_none(s.drop_last(), pred);
        assert(!pred(s[s.len() - 1]));
    }
}

/// The item `items[i]` marked done; the other items as they are. An
/// identifier out of range changes nothing.
pub open spec fn mark_done(items: Seq<TodoItem>, i: u64) -> Seq<TodoItem> {
    if i < items.len() {
        items.update(
            i as int,
            TodoItem {
                index: items[i as int].index,
                description: items[i as int].description,
                tags: items[i as int].tags,
                done: true,
            },
        )
    } else {
        items
    }
}

/// The (identifier, word) pairs of the items that are not done.
pub open spec fn word_pairs(items: Seq<TodoItem>) -> Set<(u64, Seq<char>)> {
    Set::new(
        |p: (u64, Seq<char>)|
            p.0 < items.len() && !items[p.0 as int].done && exists|k: int|
                0 <= k < items[p.0 as int].description@.len() && #[trigger] items[p.0 as int].description@[k]@ == p.1,
    )
}

/// The (identifier, tag) pairs of all items.
pub open spec fn tag_pairs(items: Seq<TodoItem>) -> Set<(u64, Seq<char>)> {
    Set::new(
        |p: (u64, Seq<char>)|
            p.0 < items.len() && exists|k: int|
                0 <= k < items[p.0 as int].tags@.len() && #[trigger] items[p.0 as int].tags@[k]@ == p.1,
    )
}

/// The item store with its two indexes: one trie over the words of the
/// items that are not done, one over the tags of all items.
pub struct TriedoList {
    top_index: Index,
    items: Vec<TodoItem>,
    words: Trie1,
    tags: Trie1,
}

impl View for TriedoList {
    type V = Seq<TodoItem>;

    closed spec fn view(&self) -> Seq<TodoItem> {
        self.items@
    }
}

impl TriedoList {
    pub closed spec fn well_formed(&self) -> bool {
        &&& self.top_index@ == self.items@.len()
        &&& forall|i: int| 0 <= i < self.items@.len() ==> (#[trigger] self.items@[i]).index@ == i
        &&& self.words.well_formed()
        &&& self.tags.well_formed()
        &&& self.words@ == word_pairs(self.items@)
        &&& self.tags@ == tag_pairs(self.items@)
    }

    pub fn new() -> (r: Self)
        ensures
            r.well_formed(),
            r@ == Seq::<TodoItem>::empty(),
    {
        let r = TriedoList { top_index: Index::new(0), items: Vec::new(), words: Trie1::new(), tags: Trie1::new() };
        assert(word_pairs(r.items@) =~= Set::<(u64, Seq<char>)>::empty());
        assert(tag_pairs(r.items@) =~= Set::<(u64, Seq<char>)>::empty());
        r
    }
    /// Stores a new item, not done, under the next identifier, and indexes
    /// its words and tags under it. Returns the new item.
    pub fn push(&mut self, description: Vec<Word>, tags: Vec<Tag>) -> (r: TodoItem)
        requires
            old(self).well_formed(),
            old(self)@.len() < u64::MAX,
        ensures
            final(self).well_formed(),
            r.index@ == old(self)@.len(),
            r.description@ == description@,
            r.tags@ == tags@,
            !r.done,
            final(self)@.len() == old(self)@.len() + 1,
            final(self)@.subrange(0, old(self)@.len() as int) == old(self)@,
            final(self)@.last().index == r.index,
            final(self)@.last().description@ == r.description@,
            final(self)@.last().tags@ == r.tags@,
            !final(self)@.last().done,
    {
        let id = self.top_index.value();
        let ghost old_words = self.words@;
        let ghost old_tags = self.tags@;
        let mut k: usize = 0;
        while k < description.len()
            invariant
                self.words.well_formed(),
                self.tags == old(self).tags,
                self.items == old(self).items,
                self.top_index == old(self).top_index,
                id == old(self)@.len(),
                k <= description@.len(),
                self.words@ == old_words.union(
                    Set::new(|p: (u64, Seq<char>)| p.0 == id && exists|m: int| 0 <= m < k && #[trigger] description@[m]@ == p.1),
                ),
            decreases description@.len() - k,
        {
            self.words.add(id, description[k].value());
            proof {
                let w = description@[k as int]@;
                assert(self.words@ =~= old_words.union(
                    Set::new(|p: (u64, Seq<char>)| p.0 == id && exists|m: int| 0 <= m < k + 1 && #[trigger] description@[m]@ == p.1),
                )) by {
                    assert forall|p: (u64, Seq<char>)|
                        (p.0 == id && exists|m: int| 0 <= m < k + 1 && #[trigger] description@[m]@ == p.1)
                        implies (p.0 == id && exists|m: int| 0 <= m < k && #[trigger] description@[m]@ == p.1) || p == (id, w) by {
                        let m = choose|m: int| 0 <= m < k + 1 && #[trigger] description@[m]@ == p.1;
                        if m < k {
                            assert(description@[m]@ == p.1);
                        }
                    }
                }
            }
            k = k + 1;
        }
        let ghost words_now = self.words;
        let mut k: usize = 0;
        while k < tags.len()
            invariant
                self.tags.well_formed(),
                self.words == words_now,
                self.items == old(self).items,
                self.top_index == old(self).top_index,
                id == old(self)@.len(),
                k <= tags@.len(),
                self.tags@ == old_tags.union(
                    Set::new(|p: (u64, Seq<char>)| p.0 == id && exists|m: int| 0 <= m < k && #[trigger] tags@[m]@ == p.1),
                ),
            decreases tags@.len() - k,
        {
            self.tags.add(id, tags[k].value());
            proof {
                let g = tags@[k as int]@;
                assert(self.tags@ =~= old_tags.union(
                    Set::new(|p: (u64, Seq<char>)| p.0 == id && exists|m: int| 0 <= m < k + 1 && #[trigger] tags@[m]@ == p.1),
                )) by {
                    assert forall|p: (u64, Seq<char>)|
                        (p.0 == id && exists|m: int| 0 <= m < k + 1 && #[trigger] tags@[m]@ == p.1)
                        implies (p.0 == id && exists|m: int| 0 <= m < k && #[trigger] tags@[m]@ == p.1) || p == (id, g) by {
                        let m = choose|m: int| 0 <= m < k + 1 && #[trigger] tags@[m]@ == p.1;
                        if m < k {
                            assert(tags@[m]@ == p.1);
                        }
                    }
                }
            }
            k = k + 1;
        }
        let item = TodoItem::new(self.top_index, description, tags, false);
        let item_c = item.copy();
        self.items.push(item);
        self.top_index = Index::new(id + 1);
        proof {
            let items = self.items@;
            let n = old(self)@.len();
            assert(items.subrange(0, n as int) =~= old(self)@);
            assert(items[n as int].description@ == description@);
            assert forall|p: (u64, Seq<char>)| #[trigger] word_pairs(items).contains(p) <==> self.words@.contains(p) by {
                if p.0 < n {
                    assert(items[p.0 as int] == old(self)@[p.0 as int]);
                    assert(word_pairs(items).contains(p) <==> word_pairs(old(self)@).contains(p));
                }
                if p.0 == n && self.words@.contains(p) {
                    let m = choose|m: int| 0 <= m < description@.len() && #[trigger] description@[m]@ == p.1;
                    assert(items[n as int].description@[m]@ == p.1);
                }
            }
            assert(word_pairs(items) =~= self.words@);
            assert forall|p: (u64, Seq<char>)| #[trigger] tag_pairs(items).contains(p) <==> self.tags@.contains(p) by {
                if p.0 < n {
                    assert(items[p.0 as int] == old(self)@[p.0 as int]);
                    assert(tag_pairs(items).contains(p) <==> tag_pairs(old(self)@).contains(p));
                }
                if p.0 == n && self.tags@.contains(p) {
                    let m = choose|m: int| 0 <= m < tags@.len() && #[trigger] tags@[m]@ == p.1;
                    assert(items[n as int].tags@[m]@ == p.1);
                }
            }
            assert(tag_pairs(items) =~= self.tags@);
        }
        item_c
    }
    /// Marks the item `idx` done and removes it from the word index; the tag
    /// index keeps it. Returns `idx` when such an item exists, else nothing
    /// (and nothing changes).
    pub fn done_with_index(&mut self, idx: Index) -> (r: Option<Index>)
        requires
            old(self).well_formed(),
        ensures
            final(self).well_formed(),
            r == (if idx@ < old(self)@.len() { Some(idx) } else { None::<Index> }),
            final(self)@ == mark_done(old(self)@, idx@),
    {
        let i = idx.value();
        self.words.delete(i);
        if i < self.items.len() as u64 {
            self.items[i as usize].done = true;
            proof {
                let items = self.items@;
                assert(items =~= mark_done(old(self)@, i));
                assert(word_pairs(items) =~= without_id(word_pairs(old(self)@), i));
                assert forall|p: (u64, Seq<char>)| #[trigger] tag_pairs(items).contains(p) <==> tag_pairs(old(self)@).contains(p) by {
                    if p.0 < items.len() {
                        assert(items[p.0 as int].tags == old(self)@[p.0 as int].tags);
                    }
                }
                assert(tag_pairs(items) =~= tag_pairs(old(self)@));
            }
            Some(idx)
        } else {
            assert(word_pairs(self.items@) =~= without_id(word_pairs(old(self)@), i));
            None
        }
    }

    /// The identifiers of the items that meet term `t`, for the indexed search.
    fn term_ids(&self, t: &SearchWordOrTag) -> (r: Vec<u64>)
        requires
            self.well_formed(),
        ensures
            forall|x: u64| #[trigger] r@.contains(x) <==> x < self@.len() && indexed_term(self@[x as int], *t),
    {
        let r = match t {
            SearchWordOrTag::RawWord(w) => self.words.search(w.as_str()),
            SearchWordOrTag::RawTag(g) => self.tags.search(g.as_str()),
        };
        proof {
            assert forall|x: u64| #[trigger] r@.contains(x) <==> x < self@.len() && indexed_term(self@[x as int], *t) by {
                assert(r@.contains(x) <==> r@.to_set().contains(x));
                match *t {
                    SearchWordOrTag::RawWord(w) => {
                        if r@.contains(x) {
                            let s = choose|s: Seq<char>| #[trigger] self.words@.contains((x, s)) && is_prefix(w@, s);
                            let k = choose|k: int|
                                0 <= k < self.items@[x as int].description@.len()
                                    && #[trigger] self.items@[x as int].description@[k]@ == s;
                            assert(is_prefix(w@, self@[x as int].description@[k]@));
                        }
                        if x < self@.len() && indexed_term(self@[x as int], *t) {
                            let k = choose|k: int|
                                0 <= k < self@[x as int].description@.len()
                                    && is_prefix(w@, #[trigger] self@[x as int].description@[k]@);
                            let items = self.items@;
                            let s2 = items[x as int].description@[k]@;
                            assert(0 <= k < items[x as int].description@.len());
                            assert(items[(x, s2).0 as int].description@[k]@ == (x, s2).1);
                            assert(word_pairs(items).contains((x, s2)));
                            assert(matching(self.words@, w@).contains(x));
                        }
                    },
                    SearchWordOrTag::RawTag(g) => {
                        if r@.contains(x) {
                            let s = choose|s: Seq<char>| #[trigger] self.tags@.contains((x, s)) && is_prefix(g@, s);
                            let k = choose|k: int|
                                0 <= k < self.items@[x as int].tags@.len()
                                    && #[trigger] self.items@[x as int].tags@[k]@ == s;
                            assert(is_prefix(g@, self@[x as int].tags@[k]@));
                        }
                        if x < self@.len() && indexed_term(self@[x as int], *t) {
                            let k = choose|k: int|
                                0 <= k < self@[x as int].tags@.len()
                                    && is_prefix(g@, #[trigger] self@[x as int].tags@[k]@);
                            let items = self.items@;
                            let s2 = items[x as int].tags@[k]@;
                            assert(0 <= k < items[x as int].tags@.len());
                            assert(items[(x, s2).0 as int].tags@[k]@ == (x, s2).1);
                            assert(tag_pairs(items).contains((x, s2)));
                            assert(self.tags@.contains((x, self@[x as int].tags@[k]@)));
                            assert(matching(self.tags@, g@).contains(x));
                        }
                    },
                }
            }
        }
        r
    }

    /// The items that meet every term of `sp`, in order of identifier: the
    /// first term's matches, narrowed by each further term's. No terms, no
    /// items.
    pub fn search(&self, sp: SearchParams) -> (r: Vec<&TodoItem>)
        requires
            self.well_formed(),
        ensures
            r@.map_values(|x: &TodoItem| *x) == indexed_results(self@, sp.params@),
    {
        let n = self.items.len();
        let terms = &sp.params;
        if terms.len() == 0 {
            let r: Vec<&TodoItem> = Vec::new();
            proof {
                lemma_filter_none(self@, query_pred(terms@));
                assert(r@.map_values(|x: &TodoItem| *x) =~= indexed_results(self@, terms@));
            }
            return r;
        }
        let first = self.term_ids(&terms[0]);
        let mut keep = mark(&first, n);
        let mut k: usize = 1;
        while k < terms.len()
            invariant
                self.well_formed(),
                n == self@.len(),
                1 <= k <= terms@.len(),
                keep@.len() == n,
                forall|i: int| 0 <= i < n ==> #[trigger] keep@[i] == (forall|m: int| 0 <= m < k ==> indexed_term(self@[i], #[trigger] terms@[m])),
            decreases terms@.len() - k,
        {
            let ids = self.term_ids(&terms[k]);
            let flags = mark(&ids, n);
            let mut next: Vec<bool> = Vec::new();
            let mut i: usize = 0;
            while i < n
                invariant
                    i <= n,
                    keep@.len() == n,
                    flags@.len() == n,
                    next@.len() == i,
                    forall|m: int| 0 <= m < i ==> #[trigger] next@[m] == (keep@[m] && flags@[m]),
                decreases n - i,
            {
                next.push(keep[i] && flags[i]);
                i = i + 1;
            }
            proof {
                assert forall|i: int| 0 <= i < n implies #[trigger] next@[i] == (forall|m: int| 0 <= m < k + 1 ==> indexed_term(self@[i], #[trigger] terms@[m])) by {
                    assert(flags@[i] == ids@.contains(i as u64));
                    assert(keep@[i] == (forall|m: int| 0 <= m < k ==> indexed_term(self@[i], #[trigger] terms@[m])));
                    if next@[i] {
                        assert forall|m: int| 0 <= m < k + 1 implies indexed_term(self@[i], #[trigger] terms@[m]) by {
                            if m == k {
                                assert(ids@.contains(i as u64));
                            }
                        }
                    }
                    if forall|m: int| 0 <= m < k + 1 ==> indexed_term(self@[i], #[trigger] terms@[m]) {
                        assert(indexed_term(self@[i], terms@[k as int]));
                        assert(ids@.contains(i as u64));
                    }
                }
            }
            keep = next;
            k = k + 1;
        }
        let mut r: Vec<&TodoItem> = Vec::new();
        let mut i: usize = 0;
        while i < n
            invariant
                self.well_formed(),
                n == self@.len(),
                k == terms@.len(),
                terms@.len() > 0,
                keep@.len() == n,
                forall|j: int| 0 <= j < n ==> #[trigger] keep@[j] == (forall|m: int| 0 <= m < k ==> indexed_term(self@[j], #[trigger] terms@[m])),
                i <= n,
                r@.map_values(|x: &TodoItem| *x) == indexed_results(self@.subrange(0, i as int), terms@),
            decreases n - i,
        {
            let ghost before = r@;
            proof {
                assert(self@.subrange(0, i + 1) =~= self@.subrange(0, i as int).push(self@[i as int]));
                self@.subrange(0, i as int).lemma_filter_push(self@[i as int], query_pred(terms@));
                assert(keep@[i as int] == indexed_query(self@[i as int], terms@));
            }
            if keep[i] {
                r.push(&self.items[i]);
                assert(r@.map_values(|x: &TodoItem| *x) =~= before.map_values(|x: &TodoItem| *x).push(self@[i as int]));
            }
            i = i + 1;
        }
        assert(self@.subrange(0, n as int) =~= self@);
        r
    }

}

/// A flag for each position below `n`: whether it occurs in `ids`.
fn mark(ids: &Vec<u64>, n: usize) -> (r: Vec<bool>)
    ensures
        r@.len() == n,
        forall|i: int| 0 <= i < n ==> r@[i] == ids@.contains(i as u64),
{
    let mut r: Vec<bool> = Vec::new();
    let mut i: usize = 0;
    while i < n
        invariant
            i <= n,
            r@.len() == i,
            forall|m: int| 0 <= m < i ==> r@[m] == false,
        decreases n - i,
    {
        r.push(false);
        i = i + 1;
    }
    let mut k: usize = 0;
    while k < ids.len()
        invariant
            k <= ids@.len(),
            r@.len() == n,
            forall|m: int| 0 <= m < n ==> r@[m] == ids@.subrange(0, k as int).contains(m as u64),
        decreases ids@.len() - k,
    {
        let x = ids[k];
        if x < n as u64 {
            r.set(x as usize, true);
        }
        proof {
            assert forall|m: int| 0 <= m < n implies r@[m] == ids@.subrange(0, k + 1).contains(m as u64) by {
                assert(ids@.subrange(0, k + 1) =~= ids@.subrange(0, k as int).push(x));
                lemma_push_contains(ids@.subrange(0, k as int), x, m as u64);
            }
        }
        k = k + 1;
    }
    assert(ids@.subrange(0, ids@.len() as int) =~= ids@);
    r
}

/// What the linear search asks of an item for one term: some word (for a
/// word term) or some tag (for a tag term) holds the term as a subsequence.
pub open spec fn linear_term(item: TodoItem, t: SearchWordOrTag) -> bool {
    match t {
        SearchWordOrTag::RawWord(w) => exists|k: int|
            0 <= k < item.description@.len() && is_subsequence(w@, #[trigger] item.description@[k]@),
        SearchWordOrTag::RawTag(g) => exists|k: int|
            0 <= k < item.tags@.len() && is_subsequence(g@, #[trigger] item.tags@[k]@),
    }
}

/// An item is found by the linear search for `terms`: it is not done and
/// meets every term (so an empty query finds every open item).
pub open spec fn linear_query(item: TodoItem, terms: Seq<SearchWordOrTag>) -> bool {
    !item.done && forall|k: int| 0 <= k < terms.len() ==> linear_term(item, #[trigger] terms[k])
}

/// `linear_query` for `terms`, as a predicate on items.
pub open spec fn linear_pred(terms: Seq<SearchWordOrTag>) -> spec_fn(TodoItem) -> bool {
    |it: TodoItem| linear_query(it, terms)
}

/// The items that the linear search for `terms` returns, in order.
pub open spec fn linear_results(items: Seq<TodoItem>, terms: Seq<SearchWordOrTag>) -> Seq<TodoItem> {
    items.filter(linear_pred(terms))
}

/// Whether `item` meets term `t` for the linear search.
fn term_matches(item: &TodoItem, t: &SearchWordOrTag) -> (r: bool)
    ensures
        r == linear_term(*item, *t),
{
    match t {
        SearchWordOrTag::RawWord(sw) => {
            let mut k: usize = 0;
            while k < item.description.len()
                invariant
                    *t == SearchWordOrTag::RawWord(*sw),
                    k <= item.description@.len(),
                    forall|m: int| 0 <= m < k ==> !is_subsequence(sw@, #[trigger] item.description@[m]@),
                decreases item.description@.len() - k,
            {
                if match_subsequence(item.description[k].value(), sw.as_str()) {
                    assert(is_subsequence(sw@, item.description@[k as int]@));
                    return true;
                }
                k = k + 1;
            }
            false
        },
        SearchWordOrTag::RawTag(st) => {
            let mut k: usize = 0;
            while k < item.tags.len()
                invariant
                    *t == SearchWordOrTag::RawTag(*st),
                    k <= item.tags@.len(),
                    forall|m: int| 0 <= m < k ==> !is_subsequence(st@, #[trigger] item.tags@[m]@),
                decreases item.tags@.len() - k,
            {
                if match_subsequence(item.tags[k].value(), st.as_str()) {
                    assert(is_subsequence(st@, item.tags@[k as int]@));
                    return true;
                }
                k = k + 1;
            }
            false
        },
    }
}

/// The item store searched by scanning every open item.
pub struct TodoList {
    top_index: Index,
    items: Vec<TodoItem>,
}

impl View for TodoList {
    type V = Seq<TodoItem>;

    closed spec fn view(&self) -> Seq<TodoItem> {
        self.items@
    }
}

impl TodoList {
    pub closed spec fn well_formed(&self) -> bool {
        &&& self.top_index@ == self.items@.len()
        &&& forall|i: int| 0 <= i < self.items@.len() ==> (#[trigger] self.items@[i]).index@ == i
    }

    pub fn new() -> (r: Self)
        ensures
            r.well_formed(),
            r@ == Seq::<TodoItem>::empty(),
    {
        TodoList { top_index: Index::new(0), items: Vec::new() }
    }

    /// Stores a new item, not done, under the next identifier. Returns the
    /// new item.
    pub fn push(&mut self, description: Vec<Word>, tags: Vec<Tag>) -> (r: TodoItem)
        requires
            old(self).well_formed(),
            old(self)@.len() < u64::MAX,
        ensures
            final(self).well_formed(),
            r.index@ == old(self)@.len(),
            r.description@ == description@,
            r.tags@ == tags@,
            !r.done,
            final(self)@.len() == old(self)@.len() + 1,
            final(self)@.subrange(0, old(self)@.len() as int) == old(self)@,
            final(self)@.last().index == r.index,
            final(self)@.last().description@ == r.description@,
            final(self)@.last().tags@ == r.tags@,
            !final(self)@.last().done,
    {
        let item = TodoItem::new(self.top_index, description, tags, false);
        let item_c = item.copy();
        self.items.push(item);
        self.top_index = Index::new(self.top_index.value() + 1);
        assert(self.items@.subrange(0, old(self)@.len() as int) =~= old(self)@);
        item_c
    }

    /// Marks the item `idx` done. Returns `idx` when such an item exists,
    /// else nothing (and nothing changes).
    pub fn done_with_index(&mut self, idx: Index) -> (r: Option<Index>)
        requires
            old(self).well_formed(),
        ensures
            final(self).well_formed(),
            r == (if idx@ < old(self)@.len() { Some(idx) } else { None::<Index> }),
            final(self)@ == mark_done(old(self)@, idx@),
    {
        let i = idx.value();
        if i < self.items.len() as u64 {
            self.items[i as usize].done = true;
            assert(self.items@ =~= mark_done(old(self)@, i));
            Some(idx)
        } else {
            None
        }
    }

    /// The open items that meet every term of `sp`, in order of identifier.
    pub fn search(&self, sp: SearchParams) -> (r: Vec<&TodoItem>)
        requires
            self.well_formed(),
        ensures
            r@.map_values(|x: &TodoItem| *x) == linear_results(self@, sp.params@),
    {
        let terms = &sp.params;
        let n = self.items.len();
        let mut results: Vec<&TodoItem> = Vec::new();
        let mut i: usize = 0;
        while i < n
            invariant
                n == self@.len(),
                i <= n,
                results@.map_values(|x: &TodoItem| *x) == linear_results(self@.subrange(0, i as int), terms@),
            decreases n - i,
        {
            let item = &self.items[i];
            let mut ok = !item.done;
            let mut k: usize = 0;
            while k < terms.len() && ok
                invariant
                    k <= terms@.len(),
                    ok == (!item.done && forall|m: int| 0 <= m < k ==> linear_term(*item, #[trigger] terms@[m])),
                decreases terms@.len() - k,
            {
                ok = term_matches(item, &terms[k]);
                k = k + 1;
            }
            let ghost before = results@;
            proof {
                assert(ok == linear_query(*item, terms@));
                assert(self@.subrange(0, i + 1) =~= self@.subrange(0, i as int).push(self@[i as int]));
                self@.subrange(0, i as int).lemma_filter_push(self@[i as int], linear_pred(terms@));
            }
            if ok {
                results.push(item);
                assert(results@.map_values(|x: &TodoItem| *x) =~= before.map_values(|x: &TodoItem| *x).push(self@[i as int]));
            }
            i = i + 1;
        }
        assert(self@.subrange(0, n as int) =~= self@);
        results
    }
}

/// The operations that both item stores offer.
pub trait TodoLister {
    /// The store's internal invariant.
    spec fn inv(&self) -> bool;

    /// The items stored, in order of identifier.
    spec fn contents(&self) -> Seq<TodoItem>;

    fn push(&mut self, description: Vec<Word>, tags: Vec<Tag>) -> (r: TodoItem)
        requires
            old(self).inv(),
            old(self).contents().len() < u64::MAX,
        ensures
            final(self).inv(),
            r.index@ == old(self).contents().len(),
            r.description@ == description@,
            r.tags@ == tags@,
            !r.done,
            final(self).contents().len() == old(self).contents().len() + 1,
            final(self).contents().subrange(0, old(self).contents().len() as int) == old(self).contents(),
    ;

    fn done_with_index(&mut self, idx: Index) -> (r: Option<Index>)
        requires
            old(self).inv(),
        ensures
            final(self).inv(),
            r == (if idx@ < old(self).contents().len() { Some(idx) } else { None::<Index> }),
            final(self).contents() == mark_done(old(self).contents(), idx@),
    ;

    fn search(&self, sp: SearchParams) -> Vec<&TodoItem>
        requires
            self.inv(),
    ;
}

impl TodoLister for TodoList {
    open spec fn inv(&self) -> bool {
        self.well_formed()
    }

    open spec fn contents(&self) -> Seq<TodoItem> {
        self@
    }

    fn push(&mut self, description: Vec<Word>, tags: Vec<Tag>) -> (r: TodoItem) {
        TodoList::push(self, description, tags)
    }

    fn done_with_index(&mut self, idx: Index) -> (r: Option<Index>) {
        TodoList::done_with_index(self, idx)
    }

    fn search(&self, sp: SearchParams) -> Vec<&TodoItem> {
        TodoList::search(self, sp)
    }
}

impl TodoLister for TriedoList {
    open spec fn inv(&self) -> bool {
        self.well_formed()
    }

    open spec fn contents(&self) -> Seq<TodoItem> {
        self@
    }

    fn push(&mut self, description: Vec<Word>, tags: Vec<Tag>) -> (r: TodoItem) {
        TriedoList::push(self, description, tags)
    }

    fn done_with_index(&mut self, idx: Index) -> (r: Option<Index>) {
        TriedoList::done_with_index(self, idx)
    }

    fn search(&self, sp: SearchParams) -> Vec<&TodoItem> {
        TriedoList::search(self, sp)
    }
}

/// `x` is kept by filtering `s` exactly when it occurs in `s` and meets `pred`.
pub proof fn lemma_filter_contains<A>(s: Seq<A>, pred: spec_fn(A) -> bool, x: A)
    ensures
        s.filter(pred).contains(x) <==> s.contains(x) && pred(x),
    decreases s.len(),
{
    reveal(Seq::filter);
    if s.len() > 0 {
        let init = s.drop_last();
        lemma_filter_contains(init, pred, x);
        assert(s =~= init.push(s.last()));
        lemma_push_contains(init, s.last(), x);
        if pred(s.last()) {
            lemma_push_contains(init.filter(pred), s.last(), x);
        }
    }
}

impl TriedoList {
    /// Identifiers are handed out in creation order: the item at position
    /// `i` has identifier `i`, and `push` gives the next one.
    pub proof fn lemma_identifiers_in_order(&self)
        requires
            self.well_formed(),
        ensures
            forall|i: int| 0 <= i < self@.len() ==> (#[trigger] self@[i]).index@ == i,
    {
    }
}

/// A query without terms finds nothing, whatever the store holds.
pub proof fn lemma_empty_query(items: Seq<TodoItem>)
    ensures
        indexed_results(items, Seq::<SearchWordOrTag>::empty()).len() == 0,
{
    lemma_filter_none(items, query_pred(Seq::<SearchWordOrTag>::empty()));
}

/// A query of one word finds exactly the items, in order, that are not done
/// and have a word beginning with it.
pub proof fn lemma_single_word_query(items: Seq<TodoItem>, w: String)
    ensures
        indexed_results(items, seq![SearchWordOrTag::RawWord(w)])
            == items.filter(|it: TodoItem| !it.done && has_word_prefix(it, w@)),
{
    let terms = seq![SearchWordOrTag::RawWord(w)];
    assert(query_pred(terms) =~= (|it: TodoItem| !it.done && has_word_prefix(it, w@))) by {
        assert forall|it: TodoItem| #[trigger] query_pred(terms)(it) == (!it.done && has_word_prefix(it, w@)) by {
            if !it.done && has_word_prefix(it, w@) {
                assert forall|k: int| 0 <= k < terms.len() implies indexed_term(it, #[trigger] terms[k]) by {
                    assert(k == 0);
                }
            }
            if query_pred(terms)(it) {
                assert(indexed_term(it, terms[0]));
            }
        }
    }
}

/// A query of two terms finds an item exactly when the query of each term
/// alone finds it.
pub proof fn lemma_two_terms_intersect(items: Seq<TodoItem>, a: SearchWordOrTag, b: SearchWordOrTag, it: TodoItem)
    ensures
        indexed_query(it, seq![a, b]) == (indexed_query(it, seq![a]) && indexed_query(it, seq![b])),
        indexed_results(items, seq![a, b]).contains(it) == (indexed_results(items, seq![a]).contains(it)
            && indexed_results(items, seq![b]).contains(it)),
{
    let ab = seq![a, b];
    if indexed_query(it, seq![a]) && indexed_query(it, seq![b]) {
        assert(indexed_term(it, seq![a][0]));
        assert(indexed_term(it, seq![b][0]));
        assert forall|k: int| 0 <= k < ab.len() implies indexed_term(it, #[trigger] ab[k]) by {
            if k == 0 {
                assert(ab[k] == a);
            } else {
                assert(ab[k] == b);
            }
        }
    }
    if indexed_query(it, ab) {
        assert(indexed_term(it, ab[0]));
        assert(indexed_term(it, ab[1]));
        assert forall|k: int| 0 <= k < seq![a].len() implies indexed_term(it, #[trigger] seq![a][k]) by {
            assert(seq![a][k] == ab[0]);
        }
        assert forall|k: int| 0 <= k < seq![b].len() implies indexed_term(it, #[trigger] seq![b][k]) by {
            assert(seq![b][k] == ab[1]);
        }
    }
    lemma_filter_contains(items, query_pred(ab), it);
    lemma_filter_contains(items, query_pred(seq![a]), it);
    lemma_filter_contains(items, query_pred(seq![b]), it);
}

/// Completing an item twice leaves the store as completing it once; both
/// calls find the item, or neither does.
pub proof fn lemma_done_twice(items: Seq<TodoItem>, i: u64)
    ensures
        mark_done(mark_done(items, i), i) == mark_done(items, i),
        mark_done(items, i).len() == items.len(),
{
    assert(mark_done(mark_done(items, i), i) =~= mark_done(items, i));
}

/// Once item `i` is done, no query with a word term finds it, while a tag
/// term still matches it exactly as before.
pub proof fn lemma_done_leaves_word_index(items: Seq<TodoItem>, i: u64, terms: Seq<SearchWordOrTag>, g: String)
    requires
        i < items.len(),
        exists|k: int| 0 <= k < terms.len() && (#[trigger] terms[k]) is RawWord,
    ensures
        !indexed_query(mark_done(items, i)[i as int], terms),
        indexed_term(mark_done(items, i)[i as int], SearchWordOrTag::RawTag(g))
            == indexed_term(items[i as int], SearchWordOrTag::RawTag(g)),
{
    let k = choose|k: int| 0 <= k < terms.len() && (#[trigger] terms[k]) is RawWord;
    assert(!indexed_term(mark_done(items, i)[i as int], terms[k]));
    assert(mark_done(items, i)[i as int].tags == items[i as int].tags);
}

} // verus!
