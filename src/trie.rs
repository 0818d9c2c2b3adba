//! A prefix tree holding a set of words, matched exactly.
use vstd::prelude::*;

use crate::text::chars_of;

verus! {

/// One node of the tree: labelled edges to its children and an end-of-word mark.
pub struct TrieNode {
    children: Vec<(char, usize)>,
    end: bool,
}

/// A set of words stored as a prefix tree.
///
/// The nodes live in an arena; node 0 is the root and every edge holds the
/// index of its target node.
pub struct Trie {
    nodes: Vec<TrieNode>,
    /// The word spelled by the path from the root to each node.
    paths: Ghost<Seq<Seq<char>>>,
}

/// The target of the edge labelled `c` among `children` (the latest such edge).
spec fn find_child(children: Seq<(char, usize)>, c: char) -> Option<usize>
    decreases children.len(),
{
    if children.len() == 0 {
        None
    } else if children.last().0 == c {
        Some(children.last().1)
    } else {
        find_child(children.drop_last(), c)
    }
}

/// The node reached by following the characters of `w` from the root.
spec fn walk(nodes: Seq<TrieNode>, w: Seq<char>) -> Option<usize>
    decreases w.len(),
{
    if w.len() == 0 {
        Some(0)
    } else {
        match walk(nodes, w.drop_last()) {
            Some(n) => if n < nodes.len() {
                find_child(nodes[n as int].children@, w.last())
            } else {
                None
            },
            None => None,
        }
    }
}

/// `w` leads from the root to a node that marks the end of a word.
spec fn accepts(nodes: Seq<TrieNode>, w: Seq<char>) -> bool {
    match walk(nodes, w) {
        Some(n) => n < nodes.len() && nodes[n as int].end,
        None => false,
    }
}

/// If `x` reaches a node, that node exists and `x` is its recorded path.
spec fn path_of_walk(nodes: Seq<TrieNode>, paths: Seq<Seq<char>>, x: Seq<char>) -> bool {
    match walk(nodes, x) {
        Some(n) => n < nodes.len() && x == paths[n as int],
        None => true,
    }
}

spec fn edges_bounded(nodes: Seq<TrieNode>) -> bool {
    forall|n: int, i: int|
        0 <= n < nodes.len() && 0 <= i < nodes[n].children@.len() ==> #[trigger] nodes[n].children@[i].1
            < nodes.len()
}

proof fn lemma_find_child_push(children: Seq<(char, usize)>, e: (char, usize), c: char)
    ensures
        find_child(children.push(e), c) == if e.0 == c {
            Some(e.1)
        } else {
            find_child(children, c)
        },
{
    assert(children.push(e).drop_last() =~= children);
}

proof fn lemma_find_child_in(children: Seq<(char, usize)>, c: char)
    ensures
        find_child(children, c) matches Some(k) ==> exists|i: int|
            0 <= i < children.len() && #[trigger] children[i].1 == k,
    decreases children.len(),
{
    if children.len() > 0 && children.last().0 != c {
        lemma_find_child_in(children.drop_last(), c);
        if let Some(k) = find_child(children, c) {
            let i = choose|i: int| 0 <= i < children.drop_last().len() && #[trigger] children.drop_last()[i].1 == k;
            assert(children[i].1 == k);
        }
    }
}

proof fn lemma_walk_bounded(nodes: Seq<TrieNode>, x: Seq<char>)
    requires
        nodes.len() >= 1,
        edges_bounded(nodes),
    ensures
        walk(nodes, x) matches Some(n) ==> n < nodes.len(),
    decreases x.len(),
{
    if x.len() > 0 {
        lemma_walk_bounded(nodes, x.drop_last());
        if let Some(n) = walk(nodes, x.drop_last()) {
            lemma_find_child_in(nodes[n as int].children@, x.last());
        }
    }
}

/// A walk that fails stays failed on every extension of the word.
proof fn lemma_walk_none_extends(nodes: Seq<TrieNode>, x: Seq<char>, y: Seq<char>)
    requires
        x.len() <= y.len(),
        y.take(x.len() as int) == x,
        walk(nodes, x) is None,
    ensures
        walk(nodes, y) is None,
    decreases y.len(),
{
    if y.len() == x.len() {
        assert(y =~= x);
    } else {
        assert(y.drop_last().take(x.len() as int) =~= x);
        lemma_walk_none_extends(nodes, x, y.drop_last());
    }
}

/// Appending a node leaves every walk unchanged.
proof fn lemma_walk_push_node(nodes: Seq<TrieNode>, nn: TrieNode, x: Seq<char>)
    requires
        nodes.len() >= 1,
        edges_bounded(nodes),
    ensures
        walk(nodes.push(nn), x) == walk(nodes, x),
    decreases x.len(),
{
    if x.len() > 0 {
        lemma_walk_push_node(nodes, nn, x.drop_last());
        lemma_walk_bounded(nodes, x.drop_last());
    }
}

/// Walks are unchanged when no node's edges change.
proof fn lemma_walk_same_edges(nodes: Seq<TrieNode>, nodes2: Seq<TrieNode>, x: Seq<char>)
    requires
        nodes2.len() == nodes.len(),
        forall|q: int| 0 <= q < nodes.len() ==> #[trigger] nodes2[q].children@ == nodes[q].children@,
    ensures
        walk(nodes2, x) == walk(nodes, x),
    decreases x.len(),
{
    if x.len() > 0 {
        lemma_walk_same_edges(nodes, nodes2, x.drop_last());
    }
}

/// Adding an edge `(p, c) -> k` to a childless node `k`, where `p` had no
/// edge labelled `c`: old walks stay, and the only new one ends at `k`.
proof fn lemma_walk_add_edge(
    nodes: Seq<TrieNode>,
    nodes2: Seq<TrieNode>,
    p: int,
    c: char,
    k: usize,
    x: Seq<char>,
)
    requires
        nodes.len() >= 1,
        edges_bounded(nodes),
        nodes2.len() == nodes.len(),
        0 <= p < nodes.len(),
        k < nodes.len(),
        k != p,
        nodes[k as int].children@.len() == 0,
        find_child(nodes[p].children@, c) is None,
        nodes2[p].children@ == nodes[p].children@.push((c, k)),
        forall|q: int| 0 <= q < nodes.len() && q != p ==> #[trigger] nodes2[q] == nodes[q],
    ensures
        walk(nodes, x) is Some ==> walk(nodes2, x) == walk(nodes, x),
        walk(nodes2, x) is Some ==> walk(nodes2, x) == walk(nodes, x) || (walk(nodes2, x) == Some(k)
            && x.len() > 0 && walk(nodes, x.drop_last()) == Some(p as usize) && x.last() == c),
    decreases x.len(),
{
    if x.len() > 0 {
        let pre = x.drop_last();
        lemma_walk_add_edge(nodes, nodes2, p, c, k, pre);
        lemma_walk_bounded(nodes, pre);
        lemma_find_child_push(nodes[p].children@, (c, k), x.last());
    }
}

impl TrieNode {
    fn empty() -> (r: TrieNode)
        ensures
            r.children@.len() == 0,
            !r.end,
    {
        TrieNode { children: Vec::new(), end: false }
    }

    /// The child reached by the edge labelled `c`, if any.
    fn child(&self, c: char) -> (r: Option<usize>)
        ensures
            r == find_child(self.children@, c),
    {
        let mut j: usize = self.children.len();
        assert(self.children@.take(j as int) =~= self.children@);
        while j > 0
            invariant
                j <= self.children@.len(),
                find_child(self.children@, c) == find_child(self.children@.take(j as int), c),
            decreases j,
        {
            let (d, k) = self.children[j - 1];
            assert(self.children@.take(j as int).drop_last() =~= self.children@.take(j - 1));
            if d == c {
                return Some(k);
            }
            j = j - 1;
        }
        None
    }
}

impl Trie {
    /// Well-formedness: the root exists, edges point at nodes, and each
    /// node is reached by exactly the word recorded as its path.
    pub closed spec fn wf(&self) -> bool {
        &&& self.nodes@.len() >= 1
        &&& self.paths@.len() == self.nodes@.len()
        &&& edges_bounded(self.nodes@)
        &&& forall|x: Seq<char>| #[trigger] path_of_walk(self.nodes@, self.paths@, x)
    }

    /// The set of words held.
    pub closed spec fn view(&self) -> Set<Seq<char>> {
        Set::new(|w: Seq<char>| accepts(self.nodes@, w))
    }

    /// An empty trie.
    pub fn new() -> (t: Self)
        ensures
            t.wf(),
            t@ == Set::<Seq<char>>::empty(),
    {
        let mut nodes: Vec<TrieNode> = Vec::new();
        nodes.push(TrieNode::empty());
        let ghost paths = seq![Seq::<char>::empty()];
        let t = Trie { nodes, paths: Ghost(paths) };
        assert forall|x: Seq<char>| #[trigger] path_of_walk(t.nodes@, t.paths@, x) by {
            if x.len() == 0 {
                assert(x =~= Seq::<char>::empty());
            } else {
                assert(walk(t.nodes@, x) is None);
            }
        }
        assert forall|x: Seq<char>| !accepts(t.nodes@, x) by {
            if x.len() > 0 {
                assert(walk(t.nodes@, x) is None);
            }
        }
        assert(t@ =~= Set::<Seq<char>>::empty());
        t
    }

    /// Adds `word` to the set; adding a word already present changes nothing.
    pub fn insert(&mut self, word: &str)
        requires
            old(self).wf(),
        ensures
            final(self).wf(),
            final(self)@ == old(self)@.insert(word@),
    {
        let chars = chars_of(word);
        let ghost old_nodes = self.nodes@;
        let mut node: usize = 0;
        let mut i: usize = 0;
        while i < chars.len()
            invariant
                self.wf(),
                i <= chars@.len(),
                chars@ == word@,
                node < self.nodes@.len(),
                walk(self.nodes@, chars@.take(i as int)) == Some(node),
                forall|x: Seq<char>| accepts(self.nodes@, x) == accepts(old_nodes, x),
            decreases chars@.len() - i,
        {
            let c = chars[i];
            let ghost pre = self.nodes@;
            let ghost old_paths = self.paths@;
            assert(chars@.take(i + 1).drop_last() =~= chars@.take(i as int));
            assert(chars@.take(i + 1).last() == c);
            match self.nodes[node].child(c) {
                Some(k) => {
                    assert(path_of_walk(self.nodes@, self.paths@, chars@.take(i + 1)));
                    node = k;
                },
                None => {
                    let k = self.nodes.len();
                    self.nodes.push(TrieNode::empty());
                    let ghost mid = self.nodes@;
                    assert(mid =~= pre.push(mid.last()));
                    assert forall|x: Seq<char>| walk(mid, x) == walk(pre, x) by {
                        lemma_walk_push_node(pre, mid.last(), x);
                    }
                    assert(mid[node as int] == pre[node as int]);
                    self.nodes[node].children.push((c, k));
                    let ghost post = self.nodes@;
                    let ghost path = self.paths@[node as int].push(c);
                    self.paths = Ghost(self.paths@.push(path));
                    assert(edges_bounded(post)) by {
                        assert forall|n: int, j: int|
                            0 <= n < post.len() && 0 <= j < post[n].children@.len() implies #[trigger] post[n].children@[j].1
                                < post.len() by {
                            if n != node as int {
                                assert(post[n] == mid[n]);
                                if n < pre.len() {
                                    assert(mid[n] == pre[n]);
                                }
                            } else if j < pre[n].children@.len() {
                                assert(post[n].children@[j] == pre[n].children@[j]);
                            }
                        }
                    }
                    assert forall|x: Seq<char>| #[trigger] path_of_walk(post, self.paths@, x) by {
                        lemma_walk_add_edge(mid, post, node as int, c, k, x);
                        lemma_walk_bounded(post, x);
                        assert(path_of_walk(pre, old_paths, x));
                        if walk(post, x) == Some(k) && walk(mid, x) != Some(k) {
                            assert(walk(pre, x.drop_last()) == walk(mid, x.drop_last()));
                            assert(path_of_walk(pre, old_paths, x.drop_last()));
                            assert(x.drop_last() == self.paths@[node as int]);
                            assert(x =~= x.drop_last().push(x.last()));
                        }
                    }
                    assert forall|x: Seq<char>| accepts(post, x) == accepts(old_nodes, x) by {
                        lemma_walk_add_edge(mid, post, node as int, c, k, x);
                        assert(accepts(mid, x) == accepts(pre, x));
                        if walk(mid, x) is Some {
                            lemma_walk_bounded(mid, x);
                        }
                    }
                    proof {
                        assert(walk(mid, chars@.take(i as int)) == Some(node));
                        lemma_walk_add_edge(mid, post, node as int, c, k, chars@.take(i as int));
                        lemma_find_child_push(mid[node as int].children@, (c, k), c);
                    }
                    node = k;
                },
            }
            i = i + 1;
        }
        assert(chars@.take(i as int) =~= word@);
        let ghost pre = self.nodes@;
        self.nodes[node].end = true;
        let ghost post = self.nodes@;
        assert(post[node as int].end);
        assert(post[node as int].children@ == pre[node as int].children@);
        assert forall|x: Seq<char>| walk(post, x) == walk(pre, x) by {
            lemma_walk_same_edges(pre, post, x);
        }
        assert forall|x: Seq<char>| #[trigger] path_of_walk(post, self.paths@, x) by {
            assert(path_of_walk(pre, self.paths@, x));
            assert(walk(post, x) == walk(pre, x));
        }
        assert(edges_bounded(post)) by {
            assert forall|n: int, j: int|
                0 <= n < post.len() && 0 <= j < post[n].children@.len() implies #[trigger] post[n].children@[j].1
                    < post.len() by {
                assert(post[n].children@ == pre[n].children@);
            }
        }
        assert(walk(pre, word@) == Some(node));
        assert(path_of_walk(pre, self.paths@, word@));
        assert(word@ == self.paths@[node as int]);
        assert forall|x: Seq<char>| accepts(post, x) == (accepts(pre, x) || x == word@) by {
            assert(path_of_walk(pre, self.paths@, x));
            assert(walk(post, x) == walk(pre, x));
            match walk(pre, x) {
                Some(n) => {
                    if n == node {
                        assert(x == word@);
                    } else {
                        assert(post[n as int] == pre[n as int]);
                        assert(x != word@);
                    }
                },
                None => {
                    assert(x != word@);
                },
            }
        }
        assert(self@ =~= old(self)@.insert(word@));
    }

    /// Whether `word` is one of the words held; a mere prefix of a held word is not.
    pub fn search(&self, word: &str) -> (r: bool)
        requires
            self.wf(),
        ensures
            r == self@.contains(word@),
    {
        let chars = chars_of(word);
        let mut node: usize = 0;
        let mut i: usize = 0;
        while i < chars.len()
            invariant
                self.wf(),
                i <= chars@.len(),
                chars@ == word@,
                node < self.nodes@.len(),
                walk(self.nodes@, chars@.take(i as int)) == Some(node),
            decreases chars@.len() - i,
        {
            assert(chars@.take(i + 1).drop_last() =~= chars@.take(i as int));
            match self.nodes[node].child(chars[i]) {
                Some(k) => {
                    assert(path_of_walk(self.nodes@, self.paths@, chars@.take(i + 1)));
                    node = k;
                },
                None => {
                    proof {
                        lemma_walk_none_extends(self.nodes@, chars@.take(i + 1), word@);
                    }
                    return false;
                },
            }
            i = i + 1;
        }
        assert(chars@.take(i as int) =~= word@);
        self.nodes[node].end
    }
}

/// The set of words after inserting the words of `words`, in order, into `start`.
pub open spec fn insert_all(start: Set<Seq<char>>, words: Seq<Seq<char>>) -> Set<Seq<char>>
    decreases words.len(),
{
    if words.len() == 0 {
        start
    } else {
        insert_all(start, words.drop_last()).insert(words.last())
    }
}

/// The chain of inserts in `insert_all` is the one that `new` and `insert`
/// perform: a new trie holds `insert_all(empty, [])`, and inserting `w` into a
/// trie holding `insert_all(empty, words)` leaves `insert_all(empty, words + [w])`.
/// So by induction on the number of calls, a trie built by `new` and then
/// `insert` of each word of `words` in turn holds `insert_all(empty, words)`.
pub proof fn lemma_insert_all_step(words: Seq<Seq<char>>, w: Seq<char>)
    ensures
        insert_all(Set::empty(), Seq::empty()) == Set::<Seq<char>>::empty(),
        insert_all(Set::empty(), words).insert(w) == insert_all(Set::empty(), words.push(w)),
{
    assert(words.push(w).drop_last() =~= words);
}

/// After inserting every word of `words` into an empty trie, a word is
/// found exactly when it is one of them; in particular a proper prefix of
/// an inserted word that was not inserted itself is not found.
pub proof fn lemma_trie_holds_exactly(words: Seq<Seq<char>>, w: Seq<char>)
    ensures
        insert_all(Set::empty(), words).contains(w) <==> words.contains(w),
        (exists|v: Seq<char>| #[trigger] words.contains(v) && w.len() < v.len() && v.take(w.len() as int) == w)
            && !words.contains(w) ==> !insert_all(Set::empty(), words).contains(w),
    decreases words.len(),
{
    if words.len() > 0 {
        lemma_trie_holds_exactly(words.drop_last(), w);
        if words.drop_last().contains(w) {
            let i = choose|i: int| 0 <= i < words.drop_last().len() && words.drop_last()[i] == w;
            assert(words[i] == w);
        }
        if words.contains(w) && w != words.last() {
            let i = choose|i: int| 0 <= i < words.len() && words[i] == w;
            assert(words.drop_last()[i] == w);
        }
    }
}

impl Default for Trie {
    fn default() -> (t: Self)
        ensures
            t.wf(),
            t@ == Set::<Seq<char>>::empty(),
    {
        Trie::new()
    }
}

} // verus!
