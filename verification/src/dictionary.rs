//! The trie itself: nodes keyed by character, exact lookup, and the
//! specification-level model (a map from words to frequencies).

use vstd::prelude::*;
use vstd::string::StrSliceExecFns;

verus! {

/// A word together with its frequency: the value that crosses the trie's
/// input and output boundary.
pub struct WordFreq {
    pub word: String,
    pub frequency: u128,
}

impl View for WordFreq {
    type V = (Seq<char>, u128);

    open spec fn view(&self) -> (Seq<char>, u128) {
        (self.word@, self.frequency)
    }
}

/// One vertex of the tree. The path of characters from the root to a node
/// spells a word; the node is terminal exactly when that word is stored.
pub(crate) struct Node {
    pub(crate) frequency: Option<u128>,
    pub(crate) is_last: bool,
    pub(crate) children: Vec<(char, Node)>,
}

/// A prefix tree mapping words to frequencies. Created empty, populated by
/// `insert` or `build`, and read through `search` and `autocomplete`.
pub struct Trie {
    pub(crate) root: Node,
}

impl Node {
    /// A blank branch node: not terminal, no frequency, no children.
    fn new_branch() -> (n: Self)
        ensures
            !n.is_last,
            n.frequency is None,
            n.children@.len() == 0,
            node_wf(n),
    {
        Node { frequency: None, is_last: false, children: Vec::new() }
    }
}

/// The views of a sequence of word/frequency pairs.
pub open spec fn entries_view(s: Seq<WordFreq>) -> Seq<(Seq<char>, u128)> {
    s.map_values(|wf: WordFreq| wf@)
}

/// The map after storing each of `entries` in order, starting from `m`: an
/// entry overwrites any earlier frequency for the same word.
pub open spec fn insert_all(
    m: Map<Seq<char>, u128>,
    entries: Seq<(Seq<char>, u128)>,
) -> Map<Seq<char>, u128>
    decreases entries.len(),
{
    if entries.len() == 0 {
        m
    } else {
        insert_all(m.insert(entries[0].0, entries[0].1), entries.drop_first())
    }
}

impl View for Trie {
    type V = Map<Seq<char>, u128>;

    /// The mathematical content of a trie: the finite map from stored words
    /// to their frequencies.
    closed spec fn view(&self) -> Map<Seq<char>, u128> {
        Map::new(|w: Seq<char>| self.spec_lookup(w) is Some, |w: Seq<char>| self.spec_lookup(w)->0)
    }
}

/// The child of `c` keyed by character, if any (keys are unique in a
/// well-formed node, so this is the only candidate).
pub(crate) open spec fn find_child(cs: Seq<(char, Node)>, c: char) -> Option<Node>
    decreases cs.len(),
{
    if cs.len() == 0 {
        None
    } else if cs[0].0 == c {
        Some(cs[0].1)
    } else {
        find_child(cs.drop_first(), c)
    }
}

/// The frequency stored for `w` in the subtree rooted at `n`: walk the
/// characters of `w`; the walk succeeds only if every edge exists and the
/// final node is terminal.
pub(crate) open spec fn lookup_node(n: Node, w: Seq<char>) -> Option<u128>
    decreases w.len(),
{
    if w.len() == 0 {
        if n.is_last {
            n.frequency
        } else {
            None
        }
    } else {
        match find_child(n.children@, w[0]) {
            Some(c) => lookup_node(c, w.drop_first()),
            None => None,
        }
    }
}

/// Well-formedness of a node: a frequency is stored exactly on terminal
/// nodes, child keys are distinct, and every child is well formed.
pub(crate) open spec fn node_wf(n: Node) -> bool
    decreases n,
{
    &&& (n.is_last <==> n.frequency is Some)
    &&& (forall|i: int, j: int|
        0 <= i < j < n.children@.len() ==> (#[trigger] n.children@[i]).0 != (
        #[trigger] n.children@[j]).0)
    &&& (forall|i: int| 0 <= i < n.children@.len() ==> node_wf((#[trigger] n.children@[i]).1))
}

/// The node reached from `n` by walking the characters of `w`, if the whole
/// path exists.
pub(crate) open spec fn node_at(n: Node, w: Seq<char>) -> Option<Node>
    decreases w.len(),
{
    if w.len() == 0 {
        Some(n)
    } else {
        match find_child(n.children@, w[0]) {
            Some(c) => node_at(c, w.drop_first()),
            None => None,
        }
    }
}

/// When `cs[j]` is the first entry keyed by `c`, it is the one `find_child`
/// returns.
pub(crate) proof fn lemma_find_child_at(cs: Seq<(char, Node)>, c: char, j: int)
    requires
        0 <= j < cs.len(),
        cs[j].0 == c,
        forall|i: int| 0 <= i < j ==> (#[trigger] cs[i]).0 != c,
    ensures
        find_child(cs, c) == Some(cs[j].1),
    decreases j,
{
    if j > 0 {
        lemma_find_child_at(cs.drop_first(), c, j - 1);
    }
}

/// When no entry is keyed by `c`, `find_child` finds nothing.
pub(crate) proof fn lemma_find_child_none(cs: Seq<(char, Node)>, c: char)
    requires
        forall|i: int| 0 <= i < cs.len() ==> (#[trigger] cs[i]).0 != c,
    ensures
        find_child(cs, c) is None,
    decreases cs.len(),
{
    if cs.len() > 0 {
        lemma_find_child_none(cs.drop_first(), c);
    }
}

/// Whatever `find_child` returns sits at some index of the sequence.
pub(crate) proof fn lemma_find_child_some(cs: Seq<(char, Node)>, c: char)
    requires
        find_child(cs, c) is Some,
    ensures
        exists|j: int|
            0 <= j < cs.len() && (#[trigger] cs[j]).0 == c && cs[j].1 == find_child(cs, c)->0,
    decreases cs.len(),
{
    if cs.len() > 0 && cs[0].0 != c {
        lemma_find_child_some(cs.drop_first(), c);
        let j0 = choose|j: int|
            0 <= j < cs.drop_first().len() && (#[trigger] cs.drop_first()[j]).0 == c
                && cs.drop_first()[j].1 == find_child(cs.drop_first(), c)->0;
        assert(cs[j0 + 1] == cs.drop_first()[j0]);
    }
}

impl Trie {
    /// The trie's well-formedness: its root node is well formed.
    pub closed spec fn wf(&self) -> bool {
        node_wf(self.root)
    }

    /// The frequency the trie stores for the word `w`, if any.
    pub closed spec fn spec_lookup(&self, w: Seq<char>) -> Option<u128> {
        lookup_node(self.root, w)
    }

    /// An empty trie: a root with no children, not terminal.
    pub fn new() -> (t: Self)
        ensures
            t.wf(),
            forall|w: Seq<char>| t.spec_lookup(w) == Option::<u128>::None,
            t@ == Map::<Seq<char>, u128>::empty(),
    {
        let t = Trie { root: Node::new_branch() };
        proof {
            assert forall|w: Seq<char>| t.spec_lookup(w) == Option::<u128>::None by {
                reveal(lookup_node);
            }
            assert(t@ =~= Map::<Seq<char>, u128>::empty());
        }
        t
    }

    /// Store a word with its frequency: walk the character path from the
    /// root, creating missing nodes on the way, and mark the final node
    /// terminal with this frequency, overwriting any earlier one (last write
    /// wins). Every finite word is accepted, the empty word included — it is
    /// stored at the root, as the reference behaviour of this design asks.
    pub fn insert(&mut self, word_freq: WordFreq) -> (r: Result<(), ()>)
        requires
            old(self).wf(),
        ensures
            final(self).wf(),
            r is Ok,
            forall|v: Seq<char>|
                #[trigger] final(self).spec_lookup(v) == (if v == word_freq.word@ {
                    Some(word_freq.frequency)
                } else {
                    old(self).spec_lookup(v)
                }),
            final(self)@ == old(self)@.insert(word_freq.word@, word_freq.frequency),
    {
        let chars = str_chars(word_freq.word.as_str());
        insert_at(&mut self.root, &chars, 0, word_freq.frequency);
        proof {
            assert(chars@.skip(0) =~= chars@);
            assert(self@ =~= old(self)@.insert(word_freq.word@, word_freq.frequency));
        }
        Ok(())
    }

    /// Bulk load: insert every entry in the order given. Each insert is
    /// independent and always succeeds, so no entry can abort the batch; a
    /// later entry overwrites an earlier one with the same word.
    pub fn build(&mut self, words: Vec<WordFreq>)
        requires
            old(self).wf(),
        ensures
            final(self).wf(),
            final(self)@ == insert_all(old(self)@, entries_view(words@)),
    {
        let mut rest = words;
        let ghost goal = insert_all(old(self)@, entries_view(rest@));
        while rest.len() > 0
            invariant
                self.wf(),
                insert_all(self@, entries_view(rest@)) == goal,
            decreases rest@.len(),
        {
            let ghost rest0 = rest@;
            let entry = rest.remove(0);
            let _ = self.insert(entry);
            proof {
                assert(entries_view(rest0)[0] == entry@);
                assert(entries_view(rest0).drop_first() =~= entries_view(rest@));
            }
        }
        proof {
            assert(entries_view(rest@).len() == 0);
        }
    }

    /// The ranked completions of `prefix`: the depth-first collection below
    /// the node the prefix leads to, ordered by frequency, highest first
    /// (ties keep the tree's depth-first order). Empty when the prefix path
    /// does not exist. The empty prefix leads to the root, so it completes
    /// to every stored word.
    pub closed spec fn spec_autocomplete(&self, prefix: Seq<char>) -> Seq<(Seq<char>, u128)> {
        match node_at(self.root, prefix) {
            Some(n) => crate::ranking::sort_desc(dfs_seq(n, prefix)),
            None => Seq::<(Seq<char>, u128)>::empty(),
        }
    }

    /// All stored words having `prefix` as a literal prefix, each paired
    /// with its frequency, ordered by frequency descending; ties keep the
    /// tree's depth-first order, so the result is fully determined by the
    /// trie's contents. All matches are returned — any truncation is the
    /// caller's concern.
    pub fn autocomplete(&self, prefix: &String) -> (r: Vec<WordFreq>)
        requires
            self.wf(),
        ensures
            entries_view(r@) == self.spec_autocomplete(prefix@),
            forall|i: int|
                0 <= i < r@.len() ==> prefix@.is_prefix_of((#[trigger] r@[i]).word@)
                    && self.spec_lookup(r@[i].word@) == Some(r@[i].frequency),
            forall|w: Seq<char>|
                (#[trigger] self.spec_lookup(w)) is Some && prefix@.is_prefix_of(w)
                    ==> exists|i: int| 0 <= i < r@.len() && (#[trigger] r@[i]).word@ == w,
            forall|i: int, j: int|
                0 <= i < j < r@.len() ==> (#[trigger] r@[i]).frequency >= (
                #[trigger] r@[j]).frequency,
            forall|i: int, j: int|
                0 <= i < j < r@.len() ==> (#[trigger] r@[i]).word@ != (#[trigger] r@[j]).word@,
            (forall|w: Seq<char>| (#[trigger] self.spec_lookup(w)) is Some ==> !prefix@.is_prefix_of(
                w,
            )) ==> r@.len() == 0,
    {
        let chars = str_chars(prefix.as_str());
        match descend(&self.root, &chars) {
            None => {
                let r: Vec<WordFreq> = Vec::new();
                proof {
                    assert forall|w: Seq<char>|
                        !((#[trigger] self.spec_lookup(w)) is Some && prefix@.is_prefix_of(
                            w,
                        )) by {
                        if prefix@.is_prefix_of(w) {
                            lemma_lookup_via_prefix(self.root, prefix@, w);
                        }
                    }
                    assert(entries_view(r@) =~= Seq::<(Seq<char>, u128)>::empty());
                }
                r
            },
            Some(m) => {
                let mut collected: Vec<WordFreq> = Vec::new();
                dfs(m, &chars, &mut collected);
                let r = crate::ranking::rank(collected);
                proof {
                    let all = dfs_seq(*m, prefix@);
                    let rv = entries_view(r@);
                    assert(entries_view(collected@) =~= all);
                    crate::ranking::lemma_sort_desc(all);
                    lemma_dfs_seq_chars(*m, prefix@);
                    assert(rv == self.spec_autocomplete(prefix@));
                    assert forall|i: int|
                        0 <= i < r@.len() implies prefix@.is_prefix_of((#[trigger] r@[i]).word@)
                        && self.spec_lookup(r@[i].word@) == Some(r@[i].frequency) by {
                        assert(rv[i] == r@[i]@);
                        assert(rv.contains(rv[i]));
                        assert(all.contains(rv[i]));
                        lemma_lookup_via_prefix(self.root, prefix@, r@[i].word@);
                    }
                    assert forall|w: Seq<char>|
                        (#[trigger] self.spec_lookup(w)) is Some && prefix@.is_prefix_of(
                            w,
                        ) implies exists|i: int| 0 <= i < r@.len() && (#[trigger] r@[i]).word@
                        == w by {
                        lemma_lookup_via_prefix(self.root, prefix@, w);
                        let f = self.spec_lookup(w)->0;
                        assert(all.contains((w, f)));
                        assert(rv.contains((w, f)));
                        let i = choose|i: int| 0 <= i < rv.len() && rv[i] == (w, f);
                        assert(rv[i] == r@[i]@);
                        assert(0 <= i < r@.len() && r@[i].word@ == w);
                    }
                    assert forall|i: int, j: int|
                        0 <= i < j < r@.len() implies (#[trigger] r@[i]).frequency >= (
                    #[trigger] r@[j]).frequency by {
                        assert(rv[i] == r@[i]@ && rv[j] == r@[j]@);
                        assert(rv[i].1 >= rv[j].1);
                    }
                    lemma_dfs_seq_distinct(*m, prefix@);
                    assert(all.no_duplicates()) by {
                        assert forall|i: int, j: int|
                            0 <= i < all.len() && 0 <= j < all.len() && i != j implies all[i]
                            != all[j] by {
                            if i < j {
                                assert(all[i].0 != all[j].0);
                            } else {
                                assert(all[j].0 != all[i].0);
                            }
                        }
                    }
                    crate::ranking::lemma_sort_desc_no_duplicates(all);
                    assert forall|i: int, j: int| 0 <= i < j < r@.len() implies (
                    #[trigger] r@[i]).word@ != (#[trigger] r@[j]).word@ by {
                        assert(rv[i] == r@[i]@ && rv[j] == r@[j]@);
                        if r@[i].word@ == r@[j].word@ {
                            assert(rv[i] != rv[j]);
                            assert(rv.contains(rv[i]) && rv.contains(rv[j]));
                            assert(all.contains(rv[i]) && all.contains(rv[j]));
                            let a = choose|a: int| 0 <= a < all.len() && all[a] == rv[i];
                            let b = choose|b: int| 0 <= b < all.len() && all[b] == rv[j];
                            if a < b {
                                assert(all[a].0 != all[b].0);
                            } else {
                                assert(all[b].0 != all[a].0);
                            }
                        }
                    }
                    if r@.len() > 0 {
                        assert(prefix@.is_prefix_of(r@[0].word@) && self.spec_lookup(r@[0].word@)
                            is Some);
                    }
                }
                r
            },
        }
    }

    /// Deletion is an explicit open question of this design, left
    /// unimplemented: the call fails loudly — it returns `false`, never a
    /// silent no-op — and, taking the trie by shared reference, it cannot
    /// change the contents.
    pub fn delete(&self, _word_freq: WordFreq) -> (r: bool)
        ensures
            !r,
    {
        false
    }

    /// Exact lookup: the stored frequency of `word`, or `None` when `word`
    /// itself was never inserted — also when it is merely a proper prefix of
    /// stored words, or shares no path with any of them.
    pub fn search(&self, word: String) -> (r: Option<u128>)
        requires
            self.wf(),
        ensures
            r == self.spec_lookup(word@),
            r == (if self@.contains_key(word@) {
                Some(self@[word@])
            } else {
                None::<u128>
            }),
    {
        let chars = str_chars(word.as_str());
        let r = match descend(&self.root, &chars) {
            Some(m) => m.frequency,
            None => None,
        };
        proof {
            lemma_lookup_via_prefix(self.root, word@, word@);
            assert(word@.skip(word@.len() as int) =~= Seq::<char>::empty());
        }
        r
    }
}

/// The characters of a string slice, as a vector.
fn str_chars(s: &str) -> (r: Vec<char>)
    ensures
        r@ == s@,
{
    let n = s.unicode_len();
    let mut r: Vec<char> = Vec::new();
    let mut i: usize = 0;
    while i < n
        invariant
            i <= n,
            n == s@.len(),
            r@ == s@.take(i as int),
        decreases n - i,
    {
        r.push(s.get_char(i));
        proof {
            assert(r@ =~= s@.take(i + 1 as int));
        }
        i += 1;
    }
    proof {
        assert(r@ =~= s@);
    }
    r
}

/// The position of the child keyed by `c`, if one exists.
fn child_index(children: &Vec<(char, Node)>, c: char) -> (r: Option<usize>)
    ensures
        match r {
            Some(j) => j < children@.len() && children@[j as int].0 == c && (forall|i: int|
                0 <= i < j ==> (#[trigger] children@[i]).0 != c),
            None => forall|i: int| 0 <= i < children@.len() ==> (#[trigger] children@[i]).0 != c,
        },
{
    let mut i: usize = 0;
    while i < children.len()
        invariant
            i <= children@.len(),
            forall|k: int| 0 <= k < i ==> (#[trigger] children@[k]).0 != c,
        decreases children@.len() - i,
    {
        if children[i].0 == c {
            return Some(i);
        }
        i += 1;
    }
    None
}

/// Walk the characters of `w` down from `n`, landing on the node the whole
/// path leads to, if it exists.
fn descend<'a>(n: &'a Node, w: &Vec<char>) -> (r: Option<&'a Node>)
    requires
        node_wf(*n),
    ensures
        match r {
            Some(m) => node_at(*n, w@) == Some(*m) && node_wf(*m),
            None => node_at(*n, w@) is None,
        },
{
    let mut cur: &'a Node = n;
    let mut i: usize = 0;
    proof {
        assert(w@.skip(0) =~= w@);
    }
    while i < w.len()
        invariant
            i <= w@.len(),
            node_wf(*cur),
            node_at(*n, w@) == node_at(*cur, w@.skip(i as int)),
        decreases w@.len() - i,
    {
        proof {
            assert(w@.skip(i as int).len() > 0);
            assert(w@.skip(i as int)[0] == w@[i as int]);
        }
        match child_index(&cur.children, w[i]) {
            Some(j) => {
                proof {
                    lemma_find_child_at(cur.children@, w@[i as int], j as int);
                    assert(w@.skip(i as int).drop_first() =~= w@.skip(i + 1 as int));
                }
                cur = &cur.children[j].1;
            },
            None => {
                proof {
                    lemma_find_child_none(cur.children@, w@[i as int]);
                }
                return None;
            },
        }
        i += 1;
    }
    proof {
        assert(w@.skip(w@.len() as int) =~= Seq::<char>::empty());
    }
    Some(cur)
}

/// Replacing the node of an entry, key kept, leaves every `find_child`
/// answer in place except the one for that key, which becomes the new node.
pub(crate) proof fn lemma_find_child_update(cs: Seq<(char, Node)>, j: int, x: (char, Node), d: char)
    requires
        0 <= j < cs.len(),
        cs[j].0 == x.0,
        forall|i: int| 0 <= i < j ==> (#[trigger] cs[i]).0 != x.0,
    ensures
        d != x.0 ==> find_child(cs.update(j, x), d) == find_child(cs, d),
        find_child(cs.update(j, x), x.0) == Some(x.1),
    decreases cs.len(),
{
    if j == 0 {
        assert(cs.update(0, x).drop_first() =~= cs.drop_first());
    } else {
        lemma_find_child_update(cs.drop_first(), j - 1, x, d);
        assert(cs.update(j, x).drop_first() =~= cs.drop_first().update(j - 1, x));
    }
}

/// Appending an entry with a fresh key leaves every other `find_child`
/// answer in place and makes the new key find the new node.
pub(crate) proof fn lemma_find_child_push(cs: Seq<(char, Node)>, x: (char, Node), d: char)
    requires
        forall|i: int| 0 <= i < cs.len() ==> (#[trigger] cs[i]).0 != x.0,
    ensures
        d != x.0 ==> find_child(cs.push(x), d) == find_child(cs, d),
        find_child(cs.push(x), x.0) == Some(x.1),
    decreases cs.len(),
{
    if cs.len() == 0 {
        assert(cs.push(x)[0] == x);
        assert(cs.push(x).drop_first() =~= Seq::<(char, Node)>::empty());
        assert(cs.push(x).len() == 1);
        if d != x.0 {
            assert(find_child(cs.push(x), d) == find_child(cs.push(x).drop_first(), d));
        }
    } else {
        assert(cs.push(x).len() == cs.len() + 1);
        assert(cs.push(x)[0] == cs[0]);
        lemma_find_child_push(cs.drop_first(), x, d);
        lemma_find_child_push(cs.drop_first(), x, x.0);
        assert(cs.push(x).drop_first() =~= cs.drop_first().push(x));
    }
}

/// Two nonempty sequences are equal exactly when their heads and tails are.
proof fn lemma_eq_iff_head_tail(a: Seq<char>, b: Seq<char>)
    requires
        a.len() > 0,
        b.len() > 0,
    ensures
        (a == b) <==> (a[0] == b[0] && a.drop_first() == b.drop_first()),
{
    if a[0] == b[0] && a.drop_first() == b.drop_first() {
        assert(a =~= b) by {
            assert(a.drop_first().len() == a.len() - 1);
            assert(b.drop_first().len() == b.len() - 1);
            assert(a.len() == b.len());
            assert forall|k: int| 0 <= k < a.len() implies a[k] == b[k] by {
                if k > 0 {
                    assert(a[k] == a.drop_first()[k - 1]);
                    assert(b[k] == b.drop_first()[k - 1]);
                }
            }
        }
    }
}

/// A node with nothing in it stores nothing.
pub(crate) proof fn lemma_lookup_blank(n: Node, w: Seq<char>)
    requires
        !n.is_last,
        n.children@.len() == 0,
    ensures
        lookup_node(n, w) is None,
{
    if w.len() > 0 {
        lemma_find_child_none(n.children@, w[0]);
    }
}

/// Store `frequency` for the suffix `w[i..]` below `n`: create the missing
/// part of the path, then mark the final node terminal, overwriting any
/// frequency already there. Every other word's lookup is untouched.
fn insert_at(n: &mut Node, w: &Vec<char>, i: usize, frequency: u128)
    requires
        node_wf(*old(n)),
        i <= w@.len(),
    ensures
        node_wf(*final(n)),
        forall|v: Seq<char>|
            #[trigger] lookup_node(*final(n), v) == (if v == w@.skip(i as int) {
                Some(frequency)
            } else {
                lookup_node(*old(n), v)
            }),
    decreases w@.len() - i,
{
    if i == w.len() {
        n.is_last = true;
        n.frequency = Some(frequency);
        proof {
            assert(w@.skip(i as int) =~= Seq::<char>::empty());
            assert forall|v: Seq<char>|
                #[trigger] lookup_node(*n, v) == (if v == w@.skip(i as int) {
                    Some(frequency)
                } else {
                    lookup_node(*old(n), v)
                }) by {
                if v.len() == 0 {
                    assert(v =~= Seq::<char>::empty());
                }
            }
        }
    } else {
        let c = w[i];
        proof {
            assert(w@.skip(i as int)[0] == w@[i as int]);
            assert(w@.skip(i as int).drop_first() =~= w@.skip(i + 1 as int));
        }
        match child_index(&n.children, c) {
            Some(j) => {
                let ghost cs_old = n.children@;
                let mut entry = n.children.remove(j);
                insert_at(&mut entry.1, w, i + 1, frequency);
                n.children.insert(j, entry);
                proof {
                    let x = (c, entry.1);
                    assert(n.children@ =~= cs_old.update(j as int, x));
                    lemma_insert_step_existing(*old(n), *n, cs_old, j as int, x, w@, i as int,
                        frequency);
                }
            },
            None => {
                let mut fresh = Node::new_branch();
                let ghost blank = fresh;
                insert_at(&mut fresh, w, i + 1, frequency);
                let ghost cs_old = n.children@;
                n.children.push((c, fresh));
                proof {
                    let x = (c, fresh);
                    lemma_insert_step_fresh(*old(n), *n, cs_old, blank, x, w@, i as int,
                        frequency);
                }
            },
        }
    }
}

/// The inductive step of `insert_at` when the next character already has a
/// child: replacing that child with the recursively updated one changes
/// exactly the lookups that run through it as the updated suffix asks.
proof fn lemma_insert_step_existing(
    n0: Node,
    n1: Node,
    cs_old: Seq<(char, Node)>,
    j: int,
    x: (char, Node),
    w: Seq<char>,
    i: int,
    frequency: u128,
)
    requires
        node_wf(n0),
        0 <= i < w.len(),
        x.0 == w[i],
        0 <= j < cs_old.len(),
        cs_old == n0.children@,
        cs_old[j].0 == x.0,
        forall|k: int| 0 <= k < j ==> (#[trigger] cs_old[k]).0 != x.0,
        node_wf(x.1),
        forall|v: Seq<char>|
            #[trigger] lookup_node(x.1, v) == (if v == w.skip(i + 1) {
                Some(frequency)
            } else {
                lookup_node(cs_old[j].1, v)
            }),
        n1.is_last == n0.is_last,
        n1.frequency == n0.frequency,
        n1.children@ == cs_old.update(j, x),
    ensures
        node_wf(n1),
        forall|v: Seq<char>|
            #[trigger] lookup_node(n1, v) == (if v == w.skip(i) {
                Some(frequency)
            } else {
                lookup_node(n0, v)
            }),
{
    lemma_find_child_at(cs_old, x.0, j);
    assert forall|a: int| 0 <= a < n1.children@.len() implies node_wf(
        (#[trigger] n1.children@[a]).1,
    ) by {
        if a != j {
            assert(n1.children@[a] == cs_old[a]);
            assert(node_wf(cs_old[a].1));
        }
    }
    assert(node_wf(n1));
    assert(w.skip(i).len() > 0);
    assert(w.skip(i)[0] == w[i]);
    assert(w.skip(i).drop_first() =~= w.skip(i + 1));
    assert forall|v: Seq<char>|
        #[trigger] lookup_node(n1, v) == (if v == w.skip(i) {
            Some(frequency)
        } else {
            lookup_node(n0, v)
        }) by {
        if v.len() == 0 {
            assert(v != w.skip(i));
        } else {
            lemma_find_child_update(cs_old, j, x, v[0]);
            if v[0] == x.0 {
                assert(find_child(n1.children@, v[0]) == Some(x.1));
                assert(find_child(n0.children@, v[0]) == Some(cs_old[j].1));
                assert(lookup_node(n1, v) == lookup_node(x.1, v.drop_first()));
                lemma_eq_iff_head_tail(v, w.skip(i));
            } else {
                assert(v != w.skip(i));
                assert(find_child(n1.children@, v[0]) == find_child(n0.children@, v[0]));
            }
        }
    }
}

/// The inductive step of `insert_at` when the next character has no child
/// yet: a blank branch is filled with the suffix and appended; nothing that
/// was stored before runs through it.
proof fn lemma_insert_step_fresh(
    n0: Node,
    n1: Node,
    cs_old: Seq<(char, Node)>,
    blank: Node,
    x: (char, Node),
    w: Seq<char>,
    i: int,
    frequency: u128,
)
    requires
        node_wf(n0),
        0 <= i < w.len(),
        x.0 == w[i],
        cs_old == n0.children@,
        forall|k: int| 0 <= k < cs_old.len() ==> (#[trigger] cs_old[k]).0 != x.0,
        !blank.is_last,
        blank.frequency is None,
        blank.children@.len() == 0,
        node_wf(x.1),
        forall|v: Seq<char>|
            #[trigger] lookup_node(x.1, v) == (if v == w.skip(i + 1) {
                Some(frequency)
            } else {
                lookup_node(blank, v)
            }),
        n1.is_last == n0.is_last,
        n1.frequency == n0.frequency,
        n1.children@ == cs_old.push(x),
    ensures
        node_wf(n1),
        forall|v: Seq<char>|
            #[trigger] lookup_node(n1, v) == (if v == w.skip(i) {
                Some(frequency)
            } else {
                lookup_node(n0, v)
            }),
{
    assert forall|a: int| 0 <= a < n1.children@.len() implies node_wf(
        (#[trigger] n1.children@[a]).1,
    ) by {
        if a < cs_old.len() {
            assert(n1.children@[a] == cs_old[a]);
            assert(node_wf(cs_old[a].1));
        } else {
            assert(n1.children@[a] == x);
        }
    }
    assert forall|a: int, b: int|
        0 <= a < b < n1.children@.len() implies (#[trigger] n1.children@[a]).0 != (
    #[trigger] n1.children@[b]).0 by {
        if b < cs_old.len() {
            assert(n1.children@[a] == cs_old[a] && n1.children@[b] == cs_old[b]);
        } else {
            assert(n1.children@[a] == cs_old[a] && n1.children@[b] == x);
        }
    }
    assert(node_wf(n1));
    assert(w.skip(i).len() > 0);
    assert(w.skip(i)[0] == w[i]);
    assert(w.skip(i).drop_first() =~= w.skip(i + 1));
    assert forall|v: Seq<char>|
        #[trigger] lookup_node(n1, v) == (if v == w.skip(i) {
            Some(frequency)
        } else {
            lookup_node(n0, v)
        }) by {
        if v.len() == 0 {
            assert(v != w.skip(i));
        } else {
            lemma_find_child_push(cs_old, x, v[0]);
            if v[0] == x.0 {
                lemma_find_child_none(cs_old, v[0]);
                assert(lookup_node(n0, v) is None);
                assert(lookup_node(n1, v) == lookup_node(x.1, v.drop_first()));
                lemma_lookup_blank(blank, v.drop_first());
                lemma_eq_iff_head_tail(v, w.skip(i));
            } else {
                assert(v != w.skip(i));
                assert(find_child(n1.children@, v[0]) == find_child(n0.children@, v[0]));
            }
        }
    }
}

/// The stored words below `n` with their frequencies, in depth-first order;
/// `path` spells the way from the root to `n`, so every collected word
/// carries it as a prefix.
pub(crate) open spec fn dfs_seq(n: Node, path: Seq<char>) -> Seq<(Seq<char>, u128)>
    decreases n, n.children@.len() + 1int,
{
    (if n.is_last {
        seq![(path, n.frequency->0)]
    } else {
        Seq::<(Seq<char>, u128)>::empty()
    }) + children_seq(n, 0, path)
}

/// The depth-first collections under the children of `n`, from child `k`
/// on, taken in order.
pub(crate) open spec fn children_seq(n: Node, k: int, path: Seq<char>) -> Seq<(Seq<char>, u128)>
    decreases n, n.children@.len() - k,
{
    if k < 0 || k >= n.children@.len() {
        Seq::<(Seq<char>, u128)>::empty()
    } else {
        dfs_seq(n.children@[k].1, path.push(n.children@[k].0)) + children_seq(n, k + 1, path)
    }
}

/// Taken together, the collections under the children from `k` on hold
/// exactly what some single child's collection holds.
pub(crate) proof fn lemma_children_seq_chars(n: Node, k: int, path: Seq<char>)
    requires
        0 <= k <= n.children@.len(),
    ensures
        forall|p: (Seq<char>, u128)| #[trigger]
            children_seq(n, k, path).contains(p) <==> exists|j: int|
                k <= j < n.children@.len() && #[trigger] dfs_seq(
                    n.children@[j].1,
                    path.push(n.children@[j].0),
                ).contains(p),
    decreases n, n.children@.len() - k,
{
    if k < n.children@.len() {
        lemma_children_seq_chars(n, k + 1, path);
        let head = dfs_seq(n.children@[k].1, path.push(n.children@[k].0));
        let tail = children_seq(n, k + 1, path);
        assert forall|p: (Seq<char>, u128)| #[trigger]
            children_seq(n, k, path).contains(p) <==> exists|j: int|
                k <= j < n.children@.len() && #[trigger] dfs_seq(
                    n.children@[j].1,
                    path.push(n.children@[j].0),
                ).contains(p) by {
            crate::ranking::lemma_concat_contains(head, tail, p);
            if children_seq(n, k, path).contains(p) {
                if head.contains(p) {
                    assert(k <= k < n.children@.len() && dfs_seq(
                        n.children@[k].1,
                        path.push(n.children@[k].0),
                    ).contains(p));
                }
            }
            if exists|j: int|
                k <= j < n.children@.len() && #[trigger] dfs_seq(
                    n.children@[j].1,
                    path.push(n.children@[j].0),
                ).contains(p) {
                let j = choose|j: int|
                    k <= j < n.children@.len() && #[trigger] dfs_seq(
                        n.children@[j].1,
                        path.push(n.children@[j].0),
                    ).contains(p);
                if j == k {
                    assert(head.contains(p));
                } else {
                    assert(k + 1 <= j < n.children@.len() && dfs_seq(
                        n.children@[j].1,
                        path.push(n.children@[j].0),
                    ).contains(p));
                }
            }
        }
    }
}

/// No word appears twice in a collection of pairs.
pub open spec fn distinct_words(s: Seq<(Seq<char>, u128)>) -> bool {
    forall|i: int, j: int| 0 <= i < j < s.len() ==> (#[trigger] s[i]).0 != (#[trigger] s[j]).0
}

/// Below different children the collected words differ — they part at the
/// character after `path` — so the joined collection keeps each word once;
/// and every collected word is strictly longer than `path`.
pub(crate) proof fn lemma_children_seq_distinct(n: Node, k: int, path: Seq<char>)
    requires
        node_wf(n),
        0 <= k <= n.children@.len(),
    ensures
        distinct_words(children_seq(n, k, path)),
        forall|p: (Seq<char>, u128)| #[trigger]
            children_seq(n, k, path).contains(p) ==> p.0.len() > path.len(),
    decreases n, n.children@.len() - k,
{
    if k < n.children@.len() {
        let c = n.children@[k].0;
        let child = n.children@[k].1;
        let head = dfs_seq(child, path.push(c));
        let tail = children_seq(n, k + 1, path);
        let whole = children_seq(n, k, path);
        assert(node_wf(child));
        lemma_children_seq_distinct(n, k + 1, path);
        lemma_children_seq_chars(n, k + 1, path);
        lemma_dfs_seq_distinct(child, path.push(c));
        lemma_dfs_seq_chars(child, path.push(c));
        assert(whole == head + tail);
        assert forall|p: (Seq<char>, u128)| #[trigger]
            whole.contains(p) implies p.0.len() > path.len() by {
            crate::ranking::lemma_concat_contains(head, tail, p);
            if head.contains(p) {
                assert(path.push(c).is_prefix_of(p.0));
            }
        }
        assert forall|i: int, j: int| 0 <= i < j < whole.len() implies (#[trigger] whole[i]).0 != (
        #[trigger] whole[j]).0 by {
            if j < head.len() {
                assert(whole[i] == head[i] && whole[j] == head[j]);
            } else if i >= head.len() {
                assert(whole[i] == tail[i - head.len()] && whole[j] == tail[j - head.len()]);
            } else {
                let p = head[i];
                let q = tail[j - head.len()];
                assert(whole[i] == p && whole[j] == q);
                assert(head.contains(p));
                assert(tail.contains(q));
                // The word under child `k` carries its key after `path`.
                assert(path.push(c).is_prefix_of(p.0));
                assert(p.0[path.len() as int] == path.push(c)[path.len() as int]);
                assert(p.0[path.len() as int] == c);
                // The word under a later child carries that child's key.
                let j2 = choose|j2: int|
                    k + 1 <= j2 < n.children@.len() && #[trigger] dfs_seq(
                        n.children@[j2].1,
                        path.push(n.children@[j2].0),
                    ).contains(q);
                let c2 = n.children@[j2].0;
                assert(node_wf(n.children@[j2].1));
                lemma_dfs_seq_chars(n.children@[j2].1, path.push(c2));
                assert(path.push(c2).is_prefix_of(q.0));
                assert(q.0[path.len() as int] == path.push(c2)[path.len() as int]);
                assert(q.0[path.len() as int] == c2);
                assert(c != c2);
            }
        }
    }
}

/// Each stored word appears exactly once in the depth-first collection.
pub(crate) proof fn lemma_dfs_seq_distinct(n: Node, path: Seq<char>)
    requires
        node_wf(n),
    ensures
        distinct_words(dfs_seq(n, path)),
    decreases n, n.children@.len() + 1int,
{
    let own = if n.is_last {
        seq![(path, n.frequency->0)]
    } else {
        Seq::<(Seq<char>, u128)>::empty()
    };
    let rest = children_seq(n, 0, path);
    let whole = dfs_seq(n, path);
    lemma_children_seq_distinct(n, 0, path);
    assert(whole == own + rest);
    assert forall|i: int, j: int| 0 <= i < j < whole.len() implies (#[trigger] whole[i]).0 != (
    #[trigger] whole[j]).0 by {
        if i >= own.len() {
            assert(whole[i] == rest[i - own.len()] && whole[j] == rest[j - own.len()]);
        } else {
            // `own` holds at most one pair, whose word is `path` itself;
            // every word below a child is strictly longer.
            let q = rest[j - own.len()];
            assert(whole[i] == own[0] && whole[j] == q);
            assert(own[0].0 == path);
            assert(rest.contains(q));
            assert(q.0.len() > path.len());
        }
    }
}

/// What the depth-first collection holds: exactly the pairs whose word
/// extends `path` and whose remainder is stored below `n` with that
/// frequency.
pub(crate) proof fn lemma_dfs_seq_chars(n: Node, path: Seq<char>)
    requires
        node_wf(n),
    ensures
        forall|p: (Seq<char>, u128)| #[trigger]
            dfs_seq(n, path).contains(p) <==> (path.is_prefix_of(p.0) && lookup_node(
                n,
                p.0.skip(path.len() as int),
            ) == Some(p.1)),
    decreases n, n.children@.len() + 1int,
{
    lemma_children_seq_chars(n, 0, path);
    let own = if n.is_last {
        seq![(path, n.frequency->0)]
    } else {
        Seq::<(Seq<char>, u128)>::empty()
    };
    assert forall|p: (Seq<char>, u128)| #[trigger]
        dfs_seq(n, path).contains(p) <==> (path.is_prefix_of(p.0) && lookup_node(
            n,
            p.0.skip(path.len() as int),
        ) == Some(p.1)) by {
        let suffix = p.0.skip(path.len() as int);
        crate::ranking::lemma_concat_contains(own, children_seq(n, 0, path), p);
        if dfs_seq(n, path).contains(p) {
            if own.contains(p) {
                assert(p == (path, n.frequency->0));
                assert(path.is_prefix_of(p.0)) by {
                    assert(p.0.subrange(0, p.0.len() as int) =~= p.0);
                }
                assert(suffix =~= Seq::<char>::empty());
            } else {
                let j = choose|j: int|
                    0 <= j < n.children@.len() && #[trigger] dfs_seq(
                        n.children@[j].1,
                        path.push(n.children@[j].0),
                    ).contains(p);
                let c = n.children@[j].0;
                let child = n.children@[j].1;
                assert(node_wf(child));
                lemma_dfs_seq_chars(child, path.push(c));
                assert(path.push(c).is_prefix_of(p.0));
                assert(lookup_node(child, p.0.skip(path.len() as int + 1)) == Some(p.1));
                assert(path.is_prefix_of(p.0)) by {
                    assert(path.push(c) =~= p.0.subrange(0, path.len() as int + 1));
                    assert forall|t: int| 0 <= t < path.len() implies path[t] == p.0.subrange(
                        0,
                        path.len() as int,
                    )[t] by {
                        assert(path[t] == path.push(c)[t]);
                    }
                    assert(path =~= p.0.subrange(0, path.len() as int));
                }
                assert(suffix.len() > 0);
                assert(suffix[0] == p.0[path.len() as int]);
                assert(p.0[path.len() as int] == path.push(c)[path.len() as int]);
                assert(suffix[0] == c);
                assert forall|a: int| 0 <= a < j implies (#[trigger] n.children@[a]).0 != c by {}
                lemma_find_child_at(n.children@, c, j);
                assert(suffix.drop_first() =~= p.0.skip(path.len() as int + 1));
                assert(lookup_node(n, suffix) == lookup_node(child, suffix.drop_first()));
            }
        }
        if path.is_prefix_of(p.0) && lookup_node(n, suffix) == Some(p.1) {
            if suffix.len() == 0 {
                assert(p.0.len() == path.len());
                assert(p.0 =~= path);
                assert(n.is_last && n.frequency == Some(p.1));
                assert(own[0] == p);
                assert(own.contains(p));
            } else {
                assert(lookup_node(n, suffix) == match find_child(n.children@, suffix[0]) {
                    Some(c) => lookup_node(c, suffix.drop_first()),
                    None => None::<u128>,
                });
                lemma_find_child_some(n.children@, suffix[0]);
                let j = choose|j: int|
                    0 <= j < n.children@.len() && (#[trigger] n.children@[j]).0 == suffix[0]
                        && n.children@[j].1 == find_child(n.children@, suffix[0])->0;
                let c = n.children@[j].0;
                let child = n.children@[j].1;
                assert(node_wf(child));
                lemma_dfs_seq_chars(child, path.push(c));
                assert(suffix[0] == p.0[path.len() as int]);
                assert(path.push(c).is_prefix_of(p.0)) by {
                    assert forall|t: int|
                        0 <= t < path.len() as int + 1 implies path.push(c)[t] == p.0.subrange(
                        0,
                        path.len() as int + 1,
                    )[t] by {
                        if t < path.len() {
                            assert(path[t] == p.0.subrange(0, path.len() as int)[t]);
                        }
                    }
                    assert(path.push(c) =~= p.0.subrange(0, path.len() as int + 1));
                }
                assert(suffix.drop_first() =~= p.0.skip(path.len() as int + 1));
                assert(lookup_node(child, p.0.skip(path.len() as int + 1)) == Some(p.1));
                assert(dfs_seq(child, path.push(c)).contains(p));
                assert(children_seq(n, 0, path).contains(p));
            }
        }
    }
}

/// A copy of a character vector.
fn clone_chars(v: &Vec<char>) -> (r: Vec<char>)
    ensures
        r@ == v@,
{
    let mut r: Vec<char> = Vec::new();
    let mut i: usize = 0;
    while i < v.len()
        invariant
            i <= v@.len(),
            r@ == v@.take(i as int),
        decreases v@.len() - i,
    {
        r.push(v[i]);
        proof {
            assert(r@ =~= v@.take(i + 1 as int));
        }
        i += 1;
    }
    proof {
        assert(r@ =~= v@);
    }
    r
}

/// Relies on `String`'s `FromIterator<char>` impl: collecting characters
/// builds the string of exactly those characters, which is what a
/// `String`'s view holds.
#[verifier::external_body]
fn chars_to_string(chars: &Vec<char>) -> (r: String)
    ensures
        r@ == chars@,
{
    chars.iter().collect()
}

/// Depth-first collection: append to `res` every word stored below `node`,
/// paired with its frequency; `path` holds the characters leading from the
/// root to `node`.
fn dfs(node: &Node, path: &Vec<char>, res: &mut Vec<WordFreq>)
    requires
        node_wf(*node),
    ensures
        entries_view(final(res)@) == entries_view(old(res)@) + dfs_seq(*node, path@),
    decreases *node,
{
    let ghost res0 = res@;
    let ghost own = if node.is_last {
        seq![(path@, node.frequency->0)]
    } else {
        Seq::<(Seq<char>, u128)>::empty()
    };
    if node.is_last {
        let word = chars_to_string(path);
        let frequency = node.frequency.unwrap();
        res.push(WordFreq { word, frequency });
        proof {
            assert(entries_view(res@) =~= entries_view(res0) + own);
        }
    } else {
        proof {
            assert(entries_view(res@) =~= entries_view(res0) + own);
        }
    }
    let mut j: usize = 0;
    proof {
        assert((entries_view(res0) + own) + children_seq(*node, 0, path@) =~= entries_view(res@)
            + children_seq(*node, 0, path@));
    }
    while j < node.children.len()
        invariant
            node_wf(*node),
            j <= node.children@.len(),
            entries_view(res@) + children_seq(*node, j as int, path@) == (entries_view(res0) + own)
                + children_seq(*node, 0, path@),
        decreases node.children@.len() - j,
    {
        let ghost res_before = res@;
        let mut path2 = clone_chars(path);
        path2.push(node.children[j].0);
        proof {
            assert(node_wf((node.children@[j as int]).1));
        }
        dfs(&node.children[j].1, &path2, res);
        proof {
            let head = dfs_seq(node.children@[j as int].1, path@.push(node.children@[j as int].0));
            assert(entries_view(res@) =~= entries_view(res_before) + head);
            assert(children_seq(*node, j as int, path@) == head + children_seq(
                *node,
                j + 1 as int,
                path@,
            ));
            assert(entries_view(res@) + children_seq(*node, j + 1 as int, path@)
                =~= (entries_view(res_before) + children_seq(*node, j as int, path@)));
        }
        j += 1;
    }
    proof {
        assert(children_seq(*node, node.children@.len() as int, path@) =~= Seq::<(
            Seq<char>,
            u128,
        )>::empty());
        assert(entries_view(res@) + Seq::<(Seq<char>, u128)>::empty() =~= entries_view(res@));
        assert(dfs_seq(*node, path@) == own + children_seq(*node, 0, path@));
        assert(entries_view(res0) + dfs_seq(*node, path@) =~= (entries_view(res0) + own)
            + children_seq(*node, 0, path@));
    }
}

/// Looking a word up through a prefix: when the prefix path exists, the rest
/// of the walk continues from the node it leads to; when it does not, no
/// extension of the prefix is stored.
pub(crate) proof fn lemma_lookup_via_prefix(n: Node, p: Seq<char>, w: Seq<char>)
    requires
        p.is_prefix_of(w),
    ensures
        lookup_node(n, w) == match node_at(n, p) {
            Some(m) => lookup_node(m, w.skip(p.len() as int)),
            None => None::<u128>,
        },
    decreases p.len(),
{
    if p.len() == 0 {
        assert(w.skip(0) =~= w);
    } else {
        assert(w.len() > 0 && w[0] == p[0]);
        match find_child(n.children@, p[0]) {
            Some(c) => {
                assert(p.drop_first().is_prefix_of(w.drop_first()));
                lemma_lookup_via_prefix(c, p.drop_first(), w.drop_first());
                assert(w.drop_first().skip(p.len() - 1) =~= w.skip(p.len() as int));
            },
            None => {},
        }
    }
}

} // verus!
