use vstd::prelude::*;
use vstd::string::*;

verus! {

/// `p` is a prefix of `s`.
pub open spec fn is_prefix(p: Seq<char>, s: Seq<char>) -> bool {
    p.len() <= s.len() && s.subrange(0, p.len() as int) =~= p
}

/// The identifiers that have some live string beginning with `key`.
pub open spec fn matching(live: Set<(u64, Seq<char>)>, key: Seq<char>) -> Set<u64> {
    Set::new(|x: u64| exists|s: Seq<char>| #[trigger] live.contains((x, s)) && is_prefix(key, s))
}

/// The pairs of `live` whose identifier is not `id`.
pub open spec fn without_id(live: Set<(u64, Seq<char>)>, id: u64) -> Set<(u64, Seq<char>)> {
    Set::new(|p: (u64, Seq<char>)| live.contains(p) && p.0 != id)
}

/// For one identifier, the positions of the nodes it was inserted into.
struct ReverseEntry {
    id: u64,
    positions: Vec<usize>,
}

/// A character trie whose nodes live side by side in vectors and refer to
/// each other by position; node 0 is the root. For node `i`, `labels[i]` is
/// the character on its incoming edge, `children[i]` its outgoing edges
/// (character, child position) and `ids[i]` the identifiers of the strings
/// that pass through it. The reverse table lists, for each identifier, the
/// nodes it was inserted into, so that deletion visits only those.
pub struct Trie1 {
    labels: Vec<char>,
    children: Vec<Vec<(char, usize)>>,
    ids: Vec<Vec<u64>>,
    reverse: Vec<ReverseEntry>,
    /// The (identifier, string) pairs that were added and not deleted since.
    live: Ghost<Set<(u64, Seq<char>)>>,
    /// The string spelled by the edges from the root down to each node.
    paths: Ghost<Seq<Seq<char>>>,
}

impl View for Trie1 {
    type V = Set<(u64, Seq<char>)>;

    closed spec fn view(&self) -> Set<(u64, Seq<char>)> {
        self.live@
    }
}

/// Node `i` has an outgoing edge labelled `c`.
spec fn edge_in(children: Seq<Vec<(char, usize)>>, i: int, c: char) -> bool {
    exists|k: int| 0 <= k < children[i]@.len() && (#[trigger] children[i]@[k]).0 == c
}

/// Some edge leads to node `j`.
spec fn parent_in(children: Seq<Vec<(char, usize)>>, j: int) -> bool {
    exists|i: int, k: int|
        0 <= i < children.len() && 0 <= k < children[i]@.len() && (#[trigger] children[i]@[k]).1 == j
}

/// The edges form a tree rooted at node 0 in which distinct nodes spell
/// distinct strings.
spec fn shape_in(children: Seq<Vec<(char, usize)>>, paths: Seq<Seq<char>>) -> bool {
    let n = children.len();
    &&& n >= 1
    &&& paths.len() == n
    &&& paths[0] =~= Seq::<char>::empty()
    &&& forall|i: int, j: int| 0 <= i < n && 0 <= j < n && i != j ==> paths[i] != paths[j]
    &&& forall|i: int, k: int|
        0 <= i < n && 0 <= k < children[i]@.len() ==> {
            let e = #[trigger] children[i]@[k];
            &&& e.1 < n
            &&& paths[e.1 as int] == paths[i].push(e.0)
        }
    &&& forall|j: int| 0 < j < n ==> #[trigger] parent_in(children, j)
}

/// No live string continues a node's string along a missing edge.
spec fn complete_in(
    children: Seq<Vec<(char, usize)>>,
    paths: Seq<Seq<char>>,
    live: Set<(u64, Seq<char>)>,
) -> bool {
    forall|i: int, c: char, x: u64, s: Seq<char>|
        0 <= i < children.len() && !edge_in(children, i, c) && #[trigger] live.contains((x, s))
            ==> !is_prefix(#[trigger] paths[i].push(c), s)
}

/// The reverse table lists node `i` among the nodes of identifier `x`.
spec fn reverse_has(reverse: Seq<ReverseEntry>, x: u64, i: int) -> bool {
    exists|e: int|
        0 <= e < reverse.len() && (#[trigger] reverse[e]).id == x && reverse[e].positions@.contains(i as usize)
}

impl Trie1 {
    pub closed spec fn has_edge(&self, i: int, c: char) -> bool {
        edge_in(self.children@, i, c)
    }

    pub closed spec fn has_parent(&self, j: int) -> bool {
        parent_in(self.children@, j)
    }

    pub closed spec fn shape_ok(&self) -> bool {
        &&& shape_in(self.children@, self.paths@)
        &&& self.labels@.len() == self.children@.len()
        &&& self.ids@.len() == self.children@.len()
    }

    pub closed spec fn edges_complete(&self, live: Set<(u64, Seq<char>)>) -> bool {
        complete_in(self.children@, self.paths@, live)
    }

    pub closed spec fn ids_ok(&self) -> bool {
        forall|i: int|
            0 <= i < self.ids@.len() ==> {
                &&& (#[trigger] self.ids@[i])@.no_duplicates()
                &&& forall|x: u64| self.ids@[i]@.contains(x) <==> #[trigger] matching(self.live@, self.paths@[i]).contains(x)
            }
    }

    /// Node `i` is listed among the nodes of identifier `x` in the reverse table.
    pub closed spec fn in_reverse(&self, x: u64, i: int) -> bool {
        reverse_has(self.reverse@, x, i)
    }

    pub closed spec fn reverse_sound(&self) -> bool {
        &&& forall|e: int, k: int|
            0 <= e < self.reverse@.len() && 0 <= k < self.reverse@[e].positions@.len()
                ==> (#[trigger] self.reverse@[e].positions@[k]) < self.ids@.len()
        &&& forall|e1: int, e2: int|
            0 <= e1 < self.reverse@.len() && 0 <= e2 < self.reverse@.len()
                && (#[trigger] self.reverse@[e1]).id == (#[trigger] self.reverse@[e2]).id ==> e1 == e2
    }

    pub closed spec fn reverse_ok(&self) -> bool {
        &&& self.reverse_sound()
        &&& forall|i: int, x: u64|
            0 <= i < self.ids@.len() && #[trigger] self.ids@[i]@.contains(x) ==> self.in_reverse(x, i)
    }

    /// The trie's internal invariant.
    pub closed spec fn well_formed(&self) -> bool {
        &&& self.shape_ok()
        &&& self.edges_complete(self.live@)
        &&& self.ids_ok()
        &&& self.reverse_ok()
    }

    /// An empty trie: a lone root.
    pub fn new() -> (r: Self)
        ensures
            r.well_formed(),
            r@ == Set::<(u64, Seq<char>)>::empty(),
    {
        let mut labels: Vec<char> = Vec::new();
        labels.push('\0');
        let mut children: Vec<Vec<(char, usize)>> = Vec::new();
        children.push(Vec::new());
        let mut ids: Vec<Vec<u64>> = Vec::new();
        ids.push(Vec::new());
        let r = Trie1 {
            labels,
            children,
            ids,
            reverse: Vec::new(),
            live: Ghost(Set::empty()),
            paths: Ghost(Seq::<Seq<char>>::empty().push(Seq::<char>::empty())),
        };
        assert forall|i: int, x: u64| 0 <= i < r.ids@.len() implies
            r.ids@[i]@.contains(x) <==> matching(r.live@, r.paths@[i]).contains(x) by {
            assert(!matching(r.live@, r.paths@[i]).contains(x));
        }
        r
    }

    /// The position of the child of node `i` along an edge labelled `c`.
    fn find_child(&self, i: usize, c: char) -> (r: Option<usize>)
        requires
            self.shape_ok(),
            i < self.children@.len(),
        ensures
            match r {
                Some(j) => j < self.children@.len() && self.paths@[j as int] == self.paths@[i as int].push(c)
                    && self.has_edge(i as int, c),
                None => !self.has_edge(i as int, c),
            },
    {
        let edges = &self.children[i];
        let mut k: usize = 0;
        while k < edges.len()
            invariant
                self.shape_ok(),
                i < self.children@.len(),
                edges == self.children@[i as int],
                k <= edges@.len(),
                forall|m: int| 0 <= m < k ==> (#[trigger] edges@[m]).0 != c,
            decreases edges@.len() - k,
        {
            if edges[k].0 == c {
                assert(edges@[k as int] == self.children@[i as int]@[k as int]);
                return Some(edges[k].1);
            }
            k = k + 1;
        }
        None
    }

    /// The identifiers that have some live string beginning with `key`, each
    /// once.
    pub fn search(&self, key: &str) -> (r: Vec<u64>)
        requires
            self.well_formed(),
        ensures
            r@.no_duplicates(),
            r@.to_set() == matching(self@, key@),
    {
        let n = key.unicode_len();
        let mut cur: usize = 0;
        let mut pos: usize = 0;
        while pos < n
            invariant
                self.well_formed(),
                n == key@.len(),
                pos <= n,
                cur < self.children@.len(),
                self.paths@[cur as int] == key@.subrange(0, pos as int),
            decreases n - pos,
        {
            let c = key.get_char(pos);
            match self.find_child(cur, c) {
                Some(j) => {
                    assert(key@.subrange(0, pos + 1) =~= key@.subrange(0, pos as int).push(c));
                    cur = j;
                },
                None => {
                    assert(matching(self@, key@) =~= Set::<u64>::empty()) by {
                        assert forall|x: u64| !matching(self@, key@).contains(x) by {
                            assert forall|s: Seq<char>| self@.contains((x, s)) implies !is_prefix(key@, s) by {
                                if is_prefix(key@, s) {
                                    assert(s.subrange(0, pos + 1) =~= key@.subrange(0, pos as int).push(c));
                                    assert(is_prefix(self.paths@[cur as int].push(c), s));
                                }
                            }
                        }
                    }
                    let empty: Vec<u64> = Vec::new();
                    assert(empty@.to_set() =~= Set::<u64>::empty());
                    return empty;
                },
            }
            pos = pos + 1;
        }
        assert(key@.subrange(0, n as int) =~= key@);
        let r = self.ids[cur].clone();
        assert(r@ =~= self.ids@[cur as int]@);
        assert(r@.to_set() =~= matching(self@, key@));
        r
    }

    /// Notes in the reverse table that identifier `id` was inserted into node `j`.
    fn record(&mut self, id: u64, j: usize)
        requires
            old(self).reverse_sound(),
            j < old(self).ids@.len(),
        ensures
            final(self).labels == old(self).labels,
            final(self).children == old(self).children,
            final(self).ids == old(self).ids,
            final(self).live == old(self).live,
            final(self).paths == old(self).paths,
            final(self).reverse_sound(),
            final(self).in_reverse(id, j as int),
            forall|x: u64, i: int| old(self).in_reverse(x, i) ==> #[trigger] final(self).in_reverse(x, i),
    {
        let mut e: usize = 0;
        while e < self.reverse.len()
            invariant
                self == old(self),
                old(self).reverse_sound(),
                j < old(self).ids@.len(),
                e <= self.reverse@.len(),
                forall|m: int| 0 <= m < e ==> (#[trigger] self.reverse@[m]).id != id,
            decreases self.reverse@.len() - e,
        {
            if self.reverse[e].id == id {
                let ghost before = self.reverse@;
                self.reverse[e].positions.push(j);
                proof {
                    assert(self.reverse@.len() == before.len());
                    assert(self.reverse@[e as int].positions@ == before[e as int].positions@.push(j));
                    assert(self.reverse@[e as int].id == before[e as int].id);
                    assert(forall|e3: int| 0 <= e3 < before.len() && e3 != e ==> self.reverse@[e3] == before[e3]);
                    let last = self.reverse@[e as int].positions@.len() - 1;
                    assert(self.reverse@[e as int].positions@[last] == j);
                    assert forall|x: u64, i: int| old(self).in_reverse(x, i) implies #[trigger] self.in_reverse(x, i) by {
                        let e2 = choose|e2: int|
                            0 <= e2 < before.len() && (#[trigger] before[e2]).id == x
                                && before[e2].positions@.contains(i as usize);
                        let k = choose|k: int| 0 <= k < before[e2].positions@.len() && before[e2].positions@[k] == i as usize;
                        assert(self.reverse@[e2].positions@[k] == i as usize);
                    }
                    assert forall|e2: int, k: int|
                        0 <= e2 < self.reverse@.len() && 0 <= k < self.reverse@[e2].positions@.len()
                        implies (#[trigger] self.reverse@[e2].positions@[k]) < self.ids@.len() by {
                        assert(before == old(self).reverse@);
                        if e2 != e {
                            assert(self.reverse@[e2] == before[e2]);
                        }
                        if e2 != e || k < before[e2].positions@.len() {
                            assert(self.reverse@[e2].positions@[k] == before[e2].positions@[k]);
                            assert(before[e2].positions@[k] < old(self).ids@.len());
                        }
                    }
                    assert forall|e1: int, e2: int|
                        0 <= e1 < self.reverse@.len() && 0 <= e2 < self.reverse@.len()
                            && (#[trigger] self.reverse@[e1]).id == (#[trigger] self.reverse@[e2]).id
                        implies e1 == e2 by {
                        assert(self.reverse@[e1].id == before[e1].id);
                        assert(self.reverse@[e2].id == before[e2].id);
                        assert(old(self).reverse@[e1].id == old(self).reverse@[e2].id);
                    }
                }
                return;
            }
            e = e + 1;
        }
        let mut positions: Vec<usize> = Vec::new();
        positions.push(j);
        let ghost before = self.reverse@;
        self.reverse.push(ReverseEntry { id, positions });
        proof {
            assert(self.reverse@[before.len() as int].positions@[0] == j);
            assert forall|x: u64, i: int| old(self).in_reverse(x, i) implies #[trigger] self.in_reverse(x, i) by {
                let e2 = choose|e2: int|
                    0 <= e2 < before.len() && (#[trigger] before[e2]).id == x
                        && before[e2].positions@.contains(i as usize);
                assert(self.reverse@[e2] == before[e2]);
            }
        }
    }

    /// Inserts `id` into the identifiers of node `j`, unless it is there.
    fn touch(&mut self, j: usize, id: u64)
        requires
            old(self).reverse_ok(),
            j < old(self).ids@.len(),
            forall|i: int| 0 <= i < old(self).ids@.len() ==> (#[trigger] old(self).ids@[i])@.no_duplicates(),
        ensures
            final(self).labels == old(self).labels,
            final(self).children == old(self).children,
            final(self).live == old(self).live,
            final(self).paths == old(self).paths,
            final(self).ids@.len() == old(self).ids@.len(),
            final(self).reverse_ok(),
            forall|i: int| 0 <= i < final(self).ids@.len() ==> (#[trigger] final(self).ids@[i])@.no_duplicates(),
            forall|i: int, x: u64|
                0 <= i < final(self).ids@.len() ==> (#[trigger] final(self).ids@[i]@.contains(x)
                    <==> old(self).ids@[i]@.contains(x) || (i == j && x == id)),
    {
        if !vec_contains(&self.ids[j], id) {
            self.ids[j].push(id);
            proof {
                assert(self.ids@[j as int]@ =~= old(self).ids@[j as int]@.push(id));
                assert(forall|i: int| 0 <= i < self.ids@.len() && i != j ==> self.ids@[i] == old(self).ids@[i]);
                assert forall|x: u64| #[trigger] self.ids@[j as int]@.contains(x)
                    <==> old(self).ids@[j as int]@.contains(x) || x == id by {
                    if self.ids@[j as int]@.contains(x) && x != id {
                        let k = choose|k: int| 0 <= k < self.ids@[j as int]@.len() && self.ids@[j as int]@[k] == x;
                        assert(old(self).ids@[j as int]@[k] == x);
                    }
                    if x == id {
                        assert(self.ids@[j as int]@[self.ids@[j as int]@.len() - 1] == id);
                    }
                    if old(self).ids@[j as int]@.contains(x) {
                        let k = choose|k: int| 0 <= k < old(self).ids@[j as int]@.len() && old(self).ids@[j as int]@[k] == x;
                        assert(self.ids@[j as int]@[k] == x);
                    }
                }
            }
            self.record(id, j);
            assert forall|i: int, x: u64| 0 <= i < self.ids@.len() && #[trigger] self.ids@[i]@.contains(x)
                implies self.in_reverse(x, i) by {
                if !(i == j && x == id) {
                    assert(old(self).ids@[i]@.contains(x));
                }
            }
        }
    }

    /// Creates a child of node `cur` along a new edge labelled `c`.
    fn new_child(&mut self, cur: usize, c: char) -> (r: usize)
        requires
            old(self).shape_ok(),
            old(self).edges_complete(old(self).live@),
            old(self).reverse_ok(),
            cur < old(self).children@.len(),
            !old(self).has_edge(cur as int, c),
        ensures
            r == old(self).children@.len(),
            final(self).children@.len() == r + 1,
            final(self).paths@ == old(self).paths@.push(old(self).paths@[cur as int].push(c)),
            final(self).live == old(self).live,
            final(self).reverse == old(self).reverse,
            final(self).ids@.len() == r + 1,
            forall|i: int| 0 <= i < r ==> #[trigger] final(self).ids@[i] == old(self).ids@[i],
            final(self).ids@[r as int]@.len() == 0,
            final(self).shape_ok(),
            final(self).edges_complete(final(self).live@),
            final(self).reverse_ok(),
            final(self).has_edge(cur as int, c),
            forall|i: int, d: char| 0 <= i < r && old(self).has_edge(i, d) ==> #[trigger] final(self).has_edge(i, d),
            forall|d: char| !#[trigger] final(self).has_edge(r as int, d),
    {
        let ghost p = self.paths@[cur as int].push(c);
        let ghost live = self.live@;
        let r = self.children.len();
        proof {
            assert forall|i: int| 0 <= i < r implies self.paths@[i] != p by {
                if self.paths@[i] == p {
                    assert(self.paths@[i].len() > 0);
                    assert(i != 0);
                    assert(self.has_parent(i));
                    let (pi, k) = choose|pi: int, k: int|
                        0 <= pi < self.children@.len() && 0 <= k < self.children@[pi]@.len()
                            && (#[trigger] self.children@[pi]@[k]).1 == i;
                    let e = self.children@[pi]@[k];
                    assert(self.paths@[pi].push(e.0) == p);
                    assert(self.paths@[pi] =~= self.paths@[pi].push(e.0).drop_last());
                    assert(self.paths@[cur as int] =~= p.drop_last());
                    assert(e.0 == p.last());
                    assert(self.has_edge(cur as int, c));
                }
            }
        }
        self.labels.push(c);
        self.children.push(Vec::new());
        self.ids.push(Vec::new());
        self.paths = Ghost(self.paths@.push(p));
        self.children[cur].push((c, r));
        proof {
            assert forall|i: int, j: int|
                0 <= i < self.paths@.len() && 0 <= j < self.paths@.len() && i != j
                implies self.paths@[i] != self.paths@[j] by {
                if i < r && j < r {
                    assert(old(self).paths@[i] != old(self).paths@[j]);
                }
            }
            assert(self.paths@[0] == old(self).paths@[0]);
            assert(self.labels@.len() == self.children@.len());
            assert(self.ids@.len() == self.children@.len());
            let kk = self.children@[cur as int]@.len() - 1;
            assert(self.children@[cur as int]@[kk] == (c, r));
            assert(self.has_edge(cur as int, c));
            assert forall|i: int, d: char| 0 <= i < r && old(self).has_edge(i, d) implies #[trigger] self.has_edge(i, d) by {
                let k = choose|k: int| 0 <= k < old(self).children@[i]@.len() && (#[trigger] old(self).children@[i]@[k]).0 == d;
                assert(self.children@[i]@[k] == old(self).children@[i]@[k]);
            }
            assert forall|i: int, k: int|
                0 <= i < self.children@.len() && 0 <= k < self.children@[i]@.len() implies {
                    let e = #[trigger] self.children@[i]@[k];
                    &&& e.1 < self.children@.len()
                    &&& self.paths@[e.1 as int] == self.paths@[i].push(e.0)
                } by {
                if i < r && !(i == cur && k == self.children@[i]@.len() - 1) {
                    assert(self.children@[i]@[k] == old(self).children@[i]@[k]);
                }
            }
            assert(self.has_parent(r as int));
            assert forall|j: int| 0 < j < self.children@.len() implies #[trigger] parent_in(self.children@, j) by {
                if j < r {
                    assert(parent_in(old(self).children@, j));
                    let (pi, k) = choose|pi: int, k: int|
                        0 <= pi < old(self).children@.len() && 0 <= k < old(self).children@[pi]@.len()
                            && (#[trigger] old(self).children@[pi]@[k]).1 == j;
                    assert(self.children@[pi]@.len() >= old(self).children@[pi]@.len());
                    assert(self.children@[pi]@[k] == old(self).children@[pi]@[k]);
                    assert(parent_in(self.children@, j));
                } else {
                    assert(j == r);
                    let kk = self.children@[cur as int]@.len() - 1;
                    assert(self.children@[cur as int]@[kk] == (c, r));
                    assert(parent_in(self.children@, j));
                }
            }
            let n = self.children@.len();
            let paths = self.paths@;
            let children = self.children@;
            assert(n >= 1);
            assert(paths.len() == n);
            assert(paths[0] =~= Seq::<char>::empty());
            assert(forall|i: int, j: int| 0 <= i < n && 0 <= j < n && i != j ==> paths[i] != paths[j]);
            assert(forall|i: int, k: int|
                0 <= i < n && 0 <= k < children[i]@.len() ==> {
                    let e = #[trigger] children[i]@[k];
                    &&& e.1 < n
                    &&& paths[e.1 as int] == paths[i].push(e.0)
                });
            assert(forall|j: int| 0 < j < n ==> #[trigger] parent_in(children, j));
            assert(shape_in(self.children@, self.paths@));
            assert forall|i: int, d: char, x: u64, s: Seq<char>|
                0 <= i < self.children@.len() && !self.has_edge(i, d) && #[trigger] live.contains((x, s))
                implies !is_prefix(#[trigger] self.paths@[i].push(d), s) by {
                if i == r {
                    if is_prefix(p.push(d), s) {
                        assert(s.subrange(0, p.len() as int) =~= p);
                        assert(is_prefix(p, s));
                        assert(is_prefix(old(self).paths@[cur as int].push(c), s));
                    }
                } else {
                    assert(!old(self).has_edge(i, d));
                }
            }
            assert forall|i: int, x: u64| 0 <= i < self.ids@.len() && #[trigger] self.ids@[i]@.contains(x)
                implies self.in_reverse(x, i) by {
                assert(i < r);
                assert(old(self).ids@[i]@.contains(x));
                assert(old(self).in_reverse(x, i));
                let e = choose|e: int|
                    0 <= e < old(self).reverse@.len() && (#[trigger] old(self).reverse@[e]).id == x
                        && old(self).reverse@[e].positions@.contains(i as usize);
                assert(self.reverse@[e] == old(self).reverse@[e]);
            }
        }
        r
    }

    /// Adds the pair (`id`, `key`): every node on the path spelled by `key`,
    /// the root included, is created if missing and receives `id`.
    pub fn add(&mut self, id: u64, key: &str)
        requires
            old(self).well_formed(),
        ensures
            final(self).well_formed(),
            final(self)@ == old(self)@.insert((id, key@)),
    {
        let ghost big_k = key@;
        let ghost live = self.live@;
        let n = key.unicode_len();
        self.touch(0, id);
        proof {
            assert(big_k.subrange(0, 0) =~= Seq::<char>::empty());
            assert forall|i: int, x: u64| 0 <= i < self.ids@.len() implies (#[trigger] self.ids@[i]@.contains(x)
                <==> matching(live, self.paths@[i]).contains(x)
                || (x == id && is_prefix(self.paths@[i], big_k) && self.paths@[i].len() <= 0)) by {
                assert(old(self).ids@[i]@.contains(x) <==> matching(live, self.paths@[i]).contains(x));
                if self.paths@[i].len() == 0 {
                    assert(self.paths@[i] =~= self.paths@[0]);
                }
            }
        }
        let mut cur: usize = 0;
        let mut pos: usize = 0;
        while pos < n
            invariant
                n == big_k.len(),
                key@ == big_k,
                self.live@ == live,
                self.shape_ok(),
                self.edges_complete(live),
                self.reverse_ok(),
                pos <= n,
                cur < self.children@.len(),
                self.paths@[cur as int] == big_k.subrange(0, pos as int),
                forall|i: int, c: char|
                    0 <= i < self.children@.len() && !self.has_edge(i, c)
                        && is_prefix(#[trigger] self.paths@[i].push(c), big_k)
                        ==> self.paths@[i].len() >= pos,
                forall|i: int| 0 <= i < self.ids@.len() ==> (#[trigger] self.ids@[i])@.no_duplicates(),
                forall|i: int, x: u64|
                    0 <= i < self.ids@.len() ==> (#[trigger] self.ids@[i]@.contains(x)
                        <==> matching(live, self.paths@[i]).contains(x)
                        || (x == id && is_prefix(self.paths@[i], big_k) && self.paths@[i].len() <= pos)),
            decreases n - pos,
        {
            let c = key.get_char(pos);
            let ghost s0: Trie1 = *self;
            let next = match self.find_child(cur, c) {
                Some(j) => j,
                None => self.new_child(cur, c),
            };
            let ghost s1: Trie1 = *self;
            proof {
                assert(big_k.subrange(0, pos + 1) =~= big_k.subrange(0, pos as int).push(c));
                assert(s1.has_edge(cur as int, c));
                // a node created here holds no identifier of a live string yet
                assert forall|i: int, x: u64| s0.ids@.len() <= i < s1.ids@.len()
                    implies !#[trigger] matching(live, s1.paths@[i]).contains(x) by {
                    assert(i == next);
                    assert forall|t: Seq<char>| live.contains((x, t)) implies !is_prefix(s1.paths@[i], t) by {
                        assert(!s0.has_edge(cur as int, c));
                        assert(!is_prefix(s0.paths@[cur as int].push(c), t));
                    }
                }
            }
            self.touch(next, id);
            proof {
                assert forall|i: int, d: char|
                    0 <= i < self.children@.len() && !self.has_edge(i, d)
                        && is_prefix(#[trigger] self.paths@[i].push(d), big_k)
                    implies self.paths@[i].len() >= pos + 1 by {
                    if i < s0.children@.len() {
                        assert(!s1.has_edge(i, d));
                        assert(!s0.has_edge(i, d));
                        assert(s0.paths@[i] == self.paths@[i]);
                        if self.paths@[i].len() == pos {
                            assert(self.paths@[i] =~= big_k.subrange(0, pos as int));
                            assert(self.paths@[i] == self.paths@[cur as int]);
                            assert(i == cur);
                            assert(self.paths@[i].push(d)[pos as int] == d);
                            assert(big_k.subrange(0, pos + 1)[pos as int] == c);
                        }
                    }
                }
                assert forall|i: int, x: u64| 0 <= i < self.ids@.len() implies (#[trigger] self.ids@[i]@.contains(x)
                    <==> matching(live, self.paths@[i]).contains(x)
                    || (x == id && is_prefix(self.paths@[i], big_k) && self.paths@[i].len() <= pos + 1)) by {
                    if i < s0.ids@.len() {
                        assert(s1.ids@[i] == s0.ids@[i]);
                        assert(s0.ids@[i]@.contains(x) <==> matching(live, s0.paths@[i]).contains(x)
                            || (x == id && is_prefix(s0.paths@[i], big_k) && s0.paths@[i].len() <= pos));
                    } else {
                        assert(!matching(live, s1.paths@[i]).contains(x));
                        assert(!s1.ids@[i]@.contains(x));
                    }
                    if x == id && is_prefix(self.paths@[i], big_k) && self.paths@[i].len() == pos + 1 {
                        assert(self.paths@[i] =~= big_k.subrange(0, pos + 1));
                        assert(self.paths@[next as int] == s0.paths@[cur as int].push(c));
                        assert(self.paths@[next as int] =~= big_k.subrange(0, pos + 1));
                        assert(i == next);
                    }
                }
            }
            cur = next;
            pos = pos + 1;
        }
        self.live = Ghost(live.insert((id, big_k)));
        proof {
            assert forall|i: int, d: char, x: u64, t: Seq<char>|
                0 <= i < self.children@.len() && !self.has_edge(i, d) && #[trigger] self.live@.contains((x, t))
                implies !is_prefix(#[trigger] self.paths@[i].push(d), t) by {
                if !live.contains((x, t)) {
                    assert(x == id && t == big_k);
                }
            }
            assert(self.edges_complete(self.live@));
            assert forall|i: int| 0 <= i < self.ids@.len() implies {
                &&& (#[trigger] self.ids@[i])@.no_duplicates()
                &&& forall|x: u64| self.ids@[i]@.contains(x) <==> #[trigger] matching(self.live@, self.paths@[i]).contains(x)
            } by {
                assert forall|x: u64| self.ids@[i]@.contains(x) <==> #[trigger] matching(self.live@, self.paths@[i]).contains(x) by {
                    if matching(self.live@, self.paths@[i]).contains(x) {
                        let t = choose|t: Seq<char>| #[trigger] self.live@.contains((x, t)) && is_prefix(self.paths@[i], t);
                        if !live.contains((x, t)) {
                            assert(x == id && t == big_k);
                        } else {
                            assert(matching(live, self.paths@[i]).contains(x));
                        }
                    }
                    if matching(live, self.paths@[i]).contains(x) {
                        let t = choose|t: Seq<char>| #[trigger] live.contains((x, t)) && is_prefix(self.paths@[i], t);
                        assert(self.live@.contains((x, t)));
                    }
                    if x == id && is_prefix(self.paths@[i], big_k) {
                        assert(self.live@.contains((id, big_k)));
                    }
                }
            }
        }
    }

    /// The position of the reverse entry of `id`.
    fn find_entry(&self, id: u64) -> (r: Option<usize>)
        ensures
            match r {
                Some(e) => e < self.reverse@.len() && self.reverse@[e as int].id == id,
                None => forall|m: int| 0 <= m < self.reverse@.len() ==> (#[trigger] self.reverse@[m]).id != id,
            },
    {
        let mut e: usize = 0;
        while e < self.reverse.len()
            invariant
                e <= self.reverse@.len(),
                forall|m: int| 0 <= m < e ==> (#[trigger] self.reverse@[m]).id != id,
            decreases self.reverse@.len() - e,
        {
            if self.reverse[e].id == id {
                return Some(e);
            }
            e = e + 1;
        }
        None
    }

    /// Removes every pair whose identifier is `id`, whatever its string:
    /// only the nodes listed for `id` in the reverse table are visited.
    /// Deleting an identifier that is not there changes nothing.
    pub fn delete(&mut self, id: u64)
        requires
            old(self).well_formed(),
        ensures
            final(self).well_formed(),
            final(self)@ == without_id(old(self)@, id),
    {
        let ghost live = self.live@;
        let ghost rest = without_id(live, id);
        let found = self.find_entry(id);
        if found.is_none() {
            proof {
                assert forall|p: (u64, Seq<char>)| live.contains(p) implies p.0 != id by {
                    if p.0 == id {
                        assert(is_prefix(self.paths@[0], p.1));
                        assert(matching(live, self.paths@[0]).contains(id));
                        assert(self.ids@[0]@.contains(id));
                        assert(self.in_reverse(id, 0));
                    }
                }
                assert(rest =~= live);
            }
            return;
        }
        let e = found.unwrap();
        let positions = self.reverse[e].positions.clone();
        assert(positions@ =~= self.reverse@[e as int].positions@);
        let n_ids = self.ids.len();
        let mut k: usize = 0;
        while k < positions.len()
            invariant
                old(self).well_formed(),
                self.ids@.len() == n_ids,
                e < old(self).reverse@.len(),
                old(self).reverse@[e as int].id == id,
                positions@ == old(self).reverse@[e as int].positions@,
                k <= positions@.len(),
                self.labels == old(self).labels,
                self.children == old(self).children,
                self.reverse == old(self).reverse,
                self.live == old(self).live,
                self.paths == old(self).paths,
                self.ids@.len() == old(self).ids@.len(),
                forall|i: int| 0 <= i < self.ids@.len() ==> (#[trigger] self.ids@[i])@.no_duplicates(),
                forall|i: int, x: u64|
                    0 <= i < self.ids@.len() ==> (#[trigger] self.ids@[i]@.contains(x)
                        <==> old(self).ids@[i]@.contains(x)
                        && !(x == id && positions@.subrange(0, k as int).contains(i as usize))),
            decreases positions@.len() - k,
        {
            let j = positions[k];
            assert(old(self).reverse@[e as int].positions@[k as int] == j);
            let kept = without(&self.ids[j], id);
            let ghost before = self.ids@;
            self.ids.set(j, kept);
            proof {
                assert(positions@.subrange(0, k + 1) =~= positions@.subrange(0, k as int).push(j));
                assert forall|z: usize| #[trigger] positions@.subrange(0, k + 1).contains(z)
                    <==> positions@.subrange(0, k as int).contains(z) || z == j by {
                    lemma_push_contains(positions@.subrange(0, k as int), j, z);
                }
                assert forall|i: int, x: u64| 0 <= i < self.ids@.len() implies (#[trigger] self.ids@[i]@.contains(x)
                    <==> old(self).ids@[i]@.contains(x)
                    && !(x == id && positions@.subrange(0, k + 1).contains(i as usize))) by {
                    assert(positions@.subrange(0, k + 1).contains(i as usize)
                        <==> positions@.subrange(0, k as int).contains(i as usize) || i as usize == j);
                    assert(before[i]@.contains(x) <==> old(self).ids@[i]@.contains(x)
                        && !(x == id && positions@.subrange(0, k as int).contains(i as usize)));
                    if i != j {
                        assert(self.ids@[i] == before[i]);
                        assert(i as usize != j);
                    } else {
                        assert(self.ids@[i] == kept);
                        assert(kept@.contains(x) <==> before[i]@.contains(x) && x != id);
                        assert(positions@.subrange(0, k + 1).contains(i as usize));
                    }
                }
            }
            k = k + 1;
        }
        self.reverse.remove(e);
        self.live = Ghost(rest);
        proof {
            assert(positions@.subrange(0, positions@.len() as int) =~= positions@);
            assert forall|i: int, x: u64| 0 <= i < self.ids@.len() implies
                (#[trigger] self.ids@[i]@.contains(x) <==> old(self).ids@[i]@.contains(x) && x != id) by {
                if old(self).ids@[i]@.contains(x) && x == id {
                    assert(old(self).in_reverse(id, i));
                    let e2 = choose|e2: int|
                        0 <= e2 < old(self).reverse@.len() && (#[trigger] old(self).reverse@[e2]).id == id
                            && old(self).reverse@[e2].positions@.contains(i as usize);
                    assert(e2 == e);
                }
            }
            assert forall|i: int| 0 <= i < self.ids@.len() implies {
                &&& (#[trigger] self.ids@[i])@.no_duplicates()
                &&& forall|x: u64| self.ids@[i]@.contains(x) <==> #[trigger] matching(self.live@, self.paths@[i]).contains(x)
            } by {
                assert forall|x: u64| self.ids@[i]@.contains(x) <==> #[trigger] matching(self.live@, self.paths@[i]).contains(x) by {
                    assert(old(self).ids@[i]@.contains(x) <==> matching(live, self.paths@[i]).contains(x));
                    if matching(self.live@, self.paths@[i]).contains(x) {
                        let t = choose|t: Seq<char>| #[trigger] self.live@.contains((x, t)) && is_prefix(self.paths@[i], t);
                        assert(live.contains((x, t)));
                    }
                    if matching(live, self.paths@[i]).contains(x) && x != id {
                        let t = choose|t: Seq<char>| #[trigger] live.contains((x, t)) && is_prefix(self.paths@[i], t);
                        assert(self.live@.contains((x, t)));
                    }
                }
            }
            assert forall|i: int, d: char, x: u64, t: Seq<char>|
                0 <= i < self.children@.len() && !self.has_edge(i, d) && #[trigger] self.live@.contains((x, t))
                implies !is_prefix(#[trigger] self.paths@[i].push(d), t) by {
                assert(live.contains((x, t)));
            }
            assert forall|i: int, x: u64| 0 <= i < self.ids@.len() && #[trigger] self.ids@[i]@.contains(x)
                implies self.in_reverse(x, i) by {
                assert(old(self).ids@[i]@.contains(x));
                assert(old(self).in_reverse(x, i));
                let e2 = choose|e2: int|
                    0 <= e2 < old(self).reverse@.len() && (#[trigger] old(self).reverse@[e2]).id == x
                        && old(self).reverse@[e2].positions@.contains(i as usize);
                assert(e2 != e);
                if e2 < e {
                    assert(self.reverse@[e2] == old(self).reverse@[e2]);
                } else {
                    assert(self.reverse@[e2 - 1] == old(self).reverse@[e2]);
                }
            }
            assert forall|e3: int, k3: int|
                0 <= e3 < self.reverse@.len() && 0 <= k3 < self.reverse@[e3].positions@.len()
                implies (#[trigger] self.reverse@[e3].positions@[k3]) < self.ids@.len() by {
                if e3 < e {
                    assert(self.reverse@[e3] == old(self).reverse@[e3]);
                } else {
                    assert(self.reverse@[e3] == old(self).reverse@[e3 + 1]);
                }
            }
            assert forall|e1: int, e2: int|
                0 <= e1 < self.reverse@.len() && 0 <= e2 < self.reverse@.len()
                    && (#[trigger] self.reverse@[e1]).id == (#[trigger] self.reverse@[e2]).id
                implies e1 == e2 by {
                let o1 = if e1 < e { e1 } else { e1 + 1 };
                let o2 = if e2 < e { e2 } else { e2 + 1 };
                assert(self.reverse@[e1] == old(self).reverse@[o1]);
                assert(self.reverse@[e2] == old(self).reverse@[o2]);
            }
        }
    }
}

/// The elements of `v` other than `x`, in order.
fn without(v: &Vec<u64>, x: u64) -> (r: Vec<u64>)
    requires
        v@.no_duplicates(),
    ensures
        r@.no_duplicates(),
        forall|y: u64| #[trigger] r@.contains(y) <==> v@.contains(y) && y != x,
{
    let mut r: Vec<u64> = Vec::new();
    let mut k: usize = 0;
    while k < v.len()
        invariant
            v@.no_duplicates(),
            k <= v@.len(),
            r@.no_duplicates(),
            forall|y: u64| #[trigger] r@.contains(y) <==> v@.subrange(0, k as int).contains(y) && y != x,
        decreases v@.len() - k,
    {
        let y = v[k];
        proof {
            assert(v@.subrange(0, k + 1) =~= v@.subrange(0, k as int).push(y));
            if v@.subrange(0, k as int).contains(y) {
                let m = choose|m: int| 0 <= m < k && v@.subrange(0, k as int)[m] == y;
                assert(v@[m] == v@[k as int]);
            }
        }
        let ghost r0 = r@;
        if y != x {
            r.push(y);
            proof {
                assert(r@ == r0.push(y));
                assert forall|z: u64| #[trigger] r@.contains(z) <==> r0.contains(z) || z == y by {
                    lemma_push_contains(r0, y, z);
                }
                assert forall|a: int, b: int| 0 <= a < r@.len() && 0 <= b < r@.len() && a != b implies r@[a] != r@[b] by {
                    if a < r0.len() && b < r0.len() {
                        assert(r0[a] != r0[b]);
                    } else if a < r0.len() {
                        assert(r0.contains(r@[a]));
                    } else if b < r0.len() {
                        assert(r0.contains(r@[b]));
                    }
                }
            }
        }
        proof {
            assert forall|z: u64| #[trigger] v@.subrange(0, k + 1).contains(z)
                <==> v@.subrange(0, k as int).contains(z) || z == y by {
                lemma_push_contains(v@.subrange(0, k as int), y, z);
            }
        }
        k = k + 1;
    }
    assert(v@.subrange(0, v@.len() as int) =~= v@);
    r
}

/// `z` occurs in `s` with `a` appended iff it occurs in `s` or is `a`.
pub proof fn lemma_push_contains<T>(s: Seq<T>, a: T, z: T)
    ensures
        s.push(a).contains(z) <==> s.contains(z) || z == a,
{
    if s.contains(z) {
        let m = choose|m: int| 0 <= m < s.len() && s[m] == z;
        assert(s.push(a)[m] == z);
    }
    if z == a {
        assert(s.push(a)[s.len() as int] == a);
    }
    if s.push(a).contains(z) && z != a {
        let m = choose|m: int| 0 <= m < s.push(a).len() && s.push(a)[m] == z;
        assert(s[m] == z);
    }
}

/// `x` occurs in `v`.
fn vec_contains(v: &Vec<u64>, x: u64) -> (r: bool)
    ensures
        r == v@.contains(x),
{
    let mut k: usize = 0;
    while k < v.len()
        invariant
            k <= v@.len(),
            forall|m: int| 0 <= m < k ==> v@[m] != x,
        decreases v@.len() - k,
    {
        if v[k] == x {
            return true;
        }
        k = k + 1;
    }
    false
}

} // verus!
