//! Building a minimal word graph from a sorted word list, one word at a time.
//!
//! The nodes of the word inserted last form the frontier. A frontier node is
//! not yet final: a later word may still hang a branch on it. Once the next
//! word leaves a frontier node behind, the node is frozen: it is looked up in
//! the arena by its signature and either shared with the node found there or
//! added as a new one.

use crate::graph::{models, signature_key, Dawg, DawgModel, Node, NodeModel};
use crate::language::lemma_productive_is_live;
use crate::text::{
    common_prefix_len, get_pref_len, is_common_prefix_len, is_sorted_dedup, lemma_common_prefix_len,
    lex_lt, spellings, strictly_ascending, to_chars,
};
use std::collections::HashMap;
use vstd::prelude::*;

verus! {

/// The building state: the arena of finished nodes, the frontier from the
/// root down, and the letters that lead from each frontier node to the next.
struct BuildModel {
    pub arena: Seq<NodeModel>,
    pub frontier: Seq<NodeModel>,
    pub path: Seq<char>,
}

impl BuildModel {
    /// The arena seen as a graph.
    spec fn graph(self) -> DawgModel {
        DawgModel { nodes: self.arena, root: 0 }
    }

    /// Whether `v` is accepted from the frontier node at depth `d`, reading
    /// the frontier's own next letter along the frontier and every other
    /// letter into the arena.
    spec fn pending_accepts(self, d: int, v: Seq<char>) -> bool
        decreases self.frontier.len() - d, v.len(),
    {
        if d < 0 || d >= self.frontier.len() {
            false
        } else if v.len() == 0 {
            self.frontier[d].is_terminal
        } else if d < self.path.len() && v[0] == self.path[d] {
            self.pending_accepts(d + 1, v.drop_first())
        } else if self.frontier[d].children.dom().contains(v[0]) {
            self.graph().accepts_from(self.frontier[d].children[v[0]], v.drop_first())
        } else {
            false
        }
    }

    /// The shape of the state: one frontier node more than letters on the
    /// path, every finished node well formed, productive and alone with its
    /// signature, and frontier transitions leading into the arena.
    spec fn structure_ok(self) -> bool {
        &&& self.frontier.len() == self.path.len() + 1
        &&& forall|i: int| 0 <= i < self.arena.len() ==> #[trigger] self.graph().node_wf(i)
        &&& forall|i: int| 0 <= i < self.arena.len() ==> (#[trigger] self.arena[i]).productive()
        &&& forall|i: int, j: int|
            0 <= i < j < self.arena.len() ==> (#[trigger] self.arena[i]).signature() != (
            #[trigger] self.arena[j]).signature()
        &&& forall|d: int, c: char|
            0 <= d < self.frontier.len() && #[trigger] self.frontier[d].children.dom().contains(c)
                ==> self.frontier[d].children[c] < self.arena.len()
        &&& self.frontier.len() > 1 ==> self.frontier.last().productive()
        &&& self.path.len() == 0 && self.arena.len() > 0 ==> self.frontier[0].productive()
        &&& self.links_ok()
    }

    /// Whether a later finished node or a frontier node has a transition to
    /// the finished node `i`.
    spec fn held(self, i: int) -> bool {
        ||| exists|j: int| i < j < self.arena.len() && #[trigger] self.arena[j].leads_to(i as nat)
        ||| exists|d: int|
            0 <= d < self.frontier.len() && #[trigger] self.frontier[d].leads_to(i as nat)
    }

    /// How the nodes hang together: no frontier node has a transition yet for
    /// the letter that leads on along the frontier, every finished node is
    /// held by a later one or by the frontier, and the node finished last is
    /// held by the frontier.
    spec fn links_ok(self) -> bool {
        &&& forall|d: int|
            0 <= d < self.path.len() ==> !self.frontier[d].children.dom().contains(
                #[trigger] self.path[d],
            )
        &&& forall|i: int| 0 <= i < self.arena.len() ==> #[trigger] self.held(i)
        &&& self.arena.len() > 0 ==> exists|d: int|
            0 <= d < self.frontier.len() && #[trigger] self.frontier[d].leads_to(
                (self.arena.len() - 1) as nat,
            )
    }

    /// The state after the deepest frontier node has been frozen as node `t`
    /// of `arena`: the node leaves the frontier, and its parent gets the
    /// transition to `t`.
    spec fn frozen(self, arena: Seq<NodeModel>, t: nat) -> BuildModel {
        let depth = self.path.len() - 1;
        let parent = self.frontier[depth];
        BuildModel {
            arena,
            frontier: self.frontier.take(depth).push(
                NodeModel { children: parent.children.insert(self.path[depth], t), ..parent },
            ),
            path: self.path.take(depth),
        }
    }

    /// The state after `word` has been hung on a frontier that was frozen down
    /// to depth `p`: a new empty node for each letter of `word` from `p` on,
    /// and the last node of the frontier marked terminal.
    spec fn extended(self, word: Seq<char>, p: int) -> BuildModel {
        BuildModel {
            arena: self.arena,
            frontier: Seq::new(
                word.len() + 1,
                |d: int|
                    if d <= p {
                        NodeModel {
                            is_terminal: self.frontier[d].is_terminal || d == word.len(),
                            ..self.frontier[d]
                        }
                    } else {
                        NodeModel { children: Map::empty(), is_terminal: d == word.len(), id: 0 }
                    },
            ),
            path: word,
        }
    }

    /// That `arena`, with `t`, is a fit result of freezing the deepest node:
    /// either the arena as it was, `t` being a node of the same signature, or
    /// the arena with that node added as `t`, no node having had its signature.
    spec fn freezes_to(self, arena: Seq<NodeModel>, t: nat) -> bool {
        registers(self.arena, self.frontier.last(), arena, t)
    }

    /// The frontier node at each depth `d` accepts exactly the rests of the
    /// inserted words that begin with the first `d` letters of the path.
    spec fn spells(self, inserted: Seq<Seq<char>>) -> bool {
        forall|d: int, v: Seq<char>|
            0 <= d <= self.path.len() ==> (#[trigger] self.pending_accepts(d, v) <==> inserted.contains(
                self.path.take(d) + v,
            ))
    }
}

/// That registering `node` in the arena `before` gives the arena `after` and
/// the index `t`: either the arena as it was, `t` being the node that has the
/// signature of `node`, or the arena with `node` added as `t`, no node having
/// had its signature.
spec fn registers(
    before: Seq<NodeModel>,
    node: NodeModel,
    after: Seq<NodeModel>,
    t: nat,
) -> bool {
    ||| {
        &&& after == before
        &&& t < after.len()
        &&& after[t as int].signature() == node.signature()
    }
    ||| {
        &&& after == before.push(NodeModel { id: before.len(), ..node })
        &&& t == before.len()
        &&& forall|i: int| 0 <= i < before.len() ==> (#[trigger] before[i]).signature() != node.signature()
    }
}

/// Reading a word from a node of a well-formed arena never leaves the nodes
/// below it, so it is not affected by nodes added later.
proof fn lemma_walk_stable(a: DawgModel, b: DawgModel, from: nat, v: Seq<char>)
    requires
        from < a.nodes.len() <= b.nodes.len(),
        forall|i: int| 0 <= i < a.nodes.len() ==> #[trigger] a.node_wf(i),
        forall|i: int| 0 <= i < a.nodes.len() ==> a.nodes[i] == b.nodes[i],
    ensures
        a.walk(from, v) == b.walk(from, v),
        a.accepts_from(from, v) == b.accepts_from(from, v),
        a.walk(from, v) is Some ==> a.walk(from, v).unwrap() <= from,
    decreases v.len(),
{
    if v.len() > 0 {
        assert(a.node_wf(from as int));
        assert(a.nodes[from as int] == b.nodes[from as int]);
        match a.step(from, v[0]) {
            Some(next) => {
                lemma_walk_stable(a, b, next, v.drop_first());
            },
            None => {},
        }
    }
}

/// A node that stands in the arena for the deepest frontier node accepts what
/// that frontier node accepts.
proof fn lemma_frozen_accepts(s: BuildModel, arena: Seq<NodeModel>, t: nat, v: Seq<char>)
    requires
        s.structure_ok(),
        s.freezes_to(arena, t),
    ensures
        (DawgModel { nodes: arena, root: 0 }).accepts_from(t, v) == s.pending_accepts(
            s.path.len() as int,
            v,
        ),
{
    let g2 = DawgModel { nodes: arena, root: 0 };
    let depth = s.path.len() as int;
    let node = s.frontier.last();
    assert(node == s.frontier[depth]);
    assert(arena[t as int].signature() == node.signature());
    if v.len() > 0 {
        let c = v[0];
        if node.children.dom().contains(c) {
            let child = node.children[c];
            assert(s.frontier[depth].children.dom().contains(c));
            assert(child < s.arena.len());
            lemma_walk_stable(s.graph(), g2, child, v.drop_first());
        }
    }
}

/// Freezing the deepest frontier node changes nothing in what the frontier
/// nodes above it accept.
proof fn lemma_freeze_keeps_language(
    s: BuildModel,
    arena: Seq<NodeModel>,
    t: nat,
    d: int,
    v: Seq<char>,
)
    requires
        s.structure_ok(),
        s.path.len() >= 1,
        s.freezes_to(arena, t),
        0 <= d < s.path.len(),
    ensures
        s.frozen(arena, t).pending_accepts(d, v) == s.pending_accepts(d, v),
    decreases v.len(),
{
    let s2 = s.frozen(arena, t);
    let depth = s.path.len() - 1;
    let g2 = DawgModel { nodes: arena, root: 0 };
    assert(s2.graph() == g2);
    if v.len() > 0 {
        let c = v[0];
        let rest = v.drop_first();
        if d < depth {
            assert(s2.frontier[d] == s.frontier[d]);
            assert(s2.path[d] == s.path[d]);
            if c == s.path[d] {
                lemma_freeze_keeps_language(s, arena, t, d + 1, rest);
            } else if s.frontier[d].children.dom().contains(c) {
                let child = s.frontier[d].children[c];
                assert(child < s.arena.len());
                lemma_walk_stable(s.graph(), g2, child, rest);
            }
        } else {
            if c == s.path[depth] {
                lemma_frozen_accepts(s, arena, t, rest);
            } else if s.frontier[d].children.dom().contains(c) {
                let child = s.frontier[d].children[c];
                assert(child < s.arena.len());
                lemma_walk_stable(s.graph(), g2, child, rest);
            }
        }
    } else {
        if d < depth {
            assert(s2.frontier[d] == s.frontier[d]);
        }
    }
}

/// Freezing the deepest frontier node keeps the nodes hanging together.
proof fn lemma_freeze_links(s: BuildModel, arena: Seq<NodeModel>, t: nat)
    requires
        s.structure_ok(),
        s.path.len() >= 1,
        s.freezes_to(arena, t),
    ensures
        s.frozen(arena, t).links_ok(),
{
    let s2 = s.frozen(arena, t);
    let depth = s.path.len() - 1;
    let child = s.frontier[depth + 1];
    let parent = s.frontier[depth];
    let after = s2.frontier[depth];
    let c = s.path[depth];
    assert(child == s.frontier.last());
    assert(!parent.children.dom().contains(s.path[depth]));
    assert(after.children == parent.children.insert(c, t));
    assert forall|i: nat| parent.leads_to(i) implies after.leads_to(i) by {
        let c0 = parent.letter_to(i);
        assert(after.children.contains_pair(c0, i));
    }
    assert(after.leads_to(t)) by {
        assert(after.children.contains_pair(c, t));
    }
    assert(arena[t as int].children == child.children);
    assert forall|i: nat| child.leads_to(i) implies i < t && arena[t as int].leads_to(i) by {
        let c0 = child.letter_to(i);
        assert(arena[t as int].children.contains_pair(c0, i));
        assert(s.frontier[depth + 1].children.dom().contains(c0));
        if t < s.arena.len() {
            assert(s.graph().node_wf(t as int));
            assert(s.arena[t as int].children.dom().contains(c0));
        }
    }
    assert forall|d: int| 0 <= d < s2.path.len() implies !s2.frontier[d].children.dom().contains(
        #[trigger] s2.path[d],
    ) by {
        assert(s2.frontier[d] == s.frontier[d]);
        assert(!s.frontier[d].children.dom().contains(s.path[d]));
    }
    assert forall|i: int| 0 <= i < s2.arena.len() implies #[trigger] s2.held(i) by {
        if i < s.arena.len() {
            assert(s.held(i));
            if exists|j: int| i < j < s.arena.len() && #[trigger] s.arena[j].leads_to(i as nat) {
                let j = choose|j: int| i < j < s.arena.len() && #[trigger] s.arena[j].leads_to(i as nat);
                assert(arena[j] == s.arena[j]);
                assert(s2.arena[j].leads_to(i as nat));
            } else {
                let d = choose|d: int|
                    0 <= d < s.frontier.len() && #[trigger] s.frontier[d].leads_to(i as nat);
                if d < depth {
                    assert(s2.frontier[d] == s.frontier[d]);
                    assert(s2.frontier[d].leads_to(i as nat));
                } else if d == depth {
                    assert(s2.frontier[depth].leads_to(i as nat));
                } else {
                    assert(s2.arena[t as int].leads_to(i as nat));
                }
            }
        } else {
            assert(i == t);
            assert(s2.frontier[depth].leads_to(i as nat));
        }
    }
    if s2.arena.len() > 0 {
        let top = (s2.arena.len() - 1) as nat;
        if arena.len() > s.arena.len() {
            assert(top == t);
            assert(s2.frontier[depth].leads_to(top));
        } else {
            let d = choose|d: int|
                0 <= d < s.frontier.len() && #[trigger] s.frontier[d].leads_to(
                    (s.arena.len() - 1) as nat,
                );
            if d < depth {
                assert(s2.frontier[d] == s.frontier[d]);
                assert(s2.frontier[d].leads_to(top));
            } else if d == depth {
                assert(s2.frontier[depth].leads_to(top));
            } else {
                assert(child.leads_to(top));
                assert(false);
            }
        }
    }
}

/// Freezing the deepest frontier node keeps the state in shape and leaves
/// the inserted words as they were.
proof fn lemma_freeze(s: BuildModel, arena: Seq<NodeModel>, t: nat, inserted: Seq<Seq<char>>)
    requires
        s.structure_ok(),
        s.spells(inserted),
        s.path.len() >= 1,
        s.freezes_to(arena, t),
    ensures
        s.frozen(arena, t).structure_ok(),
        s.frozen(arena, t).spells(inserted),
{
    let s2 = s.frozen(arena, t);
    let depth = s.path.len() - 1;
    let node = s.frontier.last();
    assert(node == s.frontier[depth + 1]);
    assert(node.productive());
    lemma_freeze_links(s, arena, t);
    assert forall|i: int| 0 <= i < s2.arena.len() implies #[trigger] s2.graph().node_wf(i) by {
        if i < s.arena.len() {
            assert(s.graph().node_wf(i));
        } else {
            assert forall|c: char| #[trigger]
                s2.arena[i].children.dom().contains(c) implies s2.arena[i].children[c] < i by {
                assert(s.frontier[depth + 1].children.dom().contains(c));
            }
        }
    }
    assert forall|i: int| 0 <= i < s2.arena.len() implies (#[trigger] s2.arena[i]).productive() by {
        if i < s.arena.len() {
            assert(s.arena[i].productive());
        } else {
            if !node.is_terminal {
                let c = choose|c: char| node.children.dom().contains(c);
                assert(s2.arena[i].children.dom().contains(c));
            }
        }
    }
    assert forall|d: int, c: char|
        0 <= d < s2.frontier.len() && #[trigger] s2.frontier[d].children.dom().contains(
            c,
        ) implies s2.frontier[d].children[c] < s2.arena.len() by {
        if d < depth {
            assert(s2.frontier[d] == s.frontier[d]);
            assert(s.frontier[d].children.dom().contains(c));
        } else if c != s.path[depth] {
            assert(s.frontier[d].children.dom().contains(c));
        }
    }
    assert(s2.frontier.last().children.dom().contains(s.path[depth]));
    assert forall|d: int, v: Seq<char>| 0 <= d <= s2.path.len() implies (
    #[trigger] s2.pending_accepts(d, v) <==> inserted.contains(s2.path.take(d) + v)) by {
        lemma_freeze_keeps_language(s, arena, t, d, v);
        assert(s2.path.take(d) =~= s.path.take(d));
        assert(s.pending_accepts(d, v) <==> inserted.contains(s.path.take(d) + v));
    }
}

/// That no word of `inserted` begins with the first `m` letters of `word`.
spec fn none_begins_with(inserted: Seq<Seq<char>>, word: Seq<char>, m: int) -> bool {
    forall|y: Seq<char>|
        y.len() >= m && y.take(m) == word.take(m) ==> !(#[trigger] inserted.contains(y))
}

/// In a sorted list, no word before the `k`-th goes beyond the letters that
/// the `k`-th shares with the one just before it.
proof fn lemma_new_branch(words: Seq<Seq<char>>, k: int)
    requires
        strictly_ascending(words),
        1 <= k < words.len(),
    ensures
        common_prefix_len(words[k - 1], words[k]) < words[k].len(),
        none_begins_with(
            words.take(k),
            words[k],
            (common_prefix_len(words[k - 1], words[k]) + 1) as int,
        ),
{
    let prev = words[k - 1];
    let word = words[k];
    let p = common_prefix_len(prev, word) as int;
    lemma_common_prefix_len(prev, word);
    assert(lex_lt(prev, word));
    assert forall|y: Seq<char>| y.len() >= p + 1 && y.take(p + 1) == word.take(p + 1) implies !(
    #[trigger] words.take(k).contains(y)) by {
        if words.take(k).contains(y) {
            let i = choose|i: int| 0 <= i < words.take(k).len() && words.take(k)[i] == y;
            assert(words[i] == y);
            assert forall|j: int| 0 <= j <= p implies y[j] == word[j] by {
                assert(y.take(p + 1)[j] == word.take(p + 1)[j]);
            }
            if i == k - 1 {
                assert(prev[p] == word[p]);
            } else {
                assert(lex_lt(words[i], words[k - 1]));
                lemma_common_prefix_len(y, prev);
                if prev.len() == p {
                    assert(is_common_prefix_len(y, prev, p));
                } else {
                    assert(prev[p] < word[p]);
                    assert(is_common_prefix_len(y, prev, p));
                }
            }
        }
    }
}

/// After a word has been hung on the frontier, the frontier node at each
/// depth accepts what it accepted before, and the rest of the new word.
proof fn lemma_extend_language(
    s: BuildModel,
    word: Seq<char>,
    p: int,
    inserted: Seq<Seq<char>>,
    d: int,
    v: Seq<char>,
)
    requires
        s.structure_ok(),
        s.spells(inserted),
        0 <= p <= word.len(),
        s.path == word.take(p),
        none_begins_with(inserted, word, if p < word.len() { p + 1 } else { p }),
        0 <= d <= word.len(),
    ensures
        s.extended(word, p).pending_accepts(d, v) <==> inserted.push(word).contains(
            word.take(d) + v,
        ),
    decreases v.len(),
{
    let s1 = s.extended(word, p);
    let len = word.len() as int;
    let y = word.take(d) + v;
    let m = if p < len { p + 1 } else { p };
    vstd::seq_lib::lemma_seq_contains_after_push(inserted, word, y);
    assert(s1.graph() == s.graph());
    if d <= p {
        assert(s.path.take(d) =~= word.take(d));
        assert(s.pending_accepts(d, v) <==> inserted.contains(y));
    } else {
        assert(y.take(m) =~= word.take(m));
        assert(!inserted.contains(y));
    }
    if v.len() == 0 {
        assert(y =~= word.take(d));
        if d == len {
            assert(word.take(d) =~= word);
            if d <= p {
                assert(y.take(m) =~= word.take(m));
            }
        }
    } else {
        let c = v[0];
        let rest = v.drop_first();
        assert(y[d] == c);
        if d < len && c == word[d] {
            lemma_extend_language(s, word, p, inserted, d + 1, rest);
            assert(word.take(d + 1) + rest =~= y);
            assert(s1.pending_accepts(d, v) == s1.pending_accepts(d + 1, rest));
        } else {
            assert(y != word) by {
                if d < len {
                    assert(y[d] != word[d]);
                }
            }
            if d <= p {
                if d < p {
                    assert(s.path[d] == word[d]);
                }
                if d == p && p == len {
                } else if d == p {
                }
                assert(s1.pending_accepts(d, v) == s.pending_accepts(d, v));
            }
        }
    }
}

/// Hanging the next word of a sorted list on the frontier keeps the nodes
/// hanging together: the letter that leads on from the old frontier is new
/// to the node it leads on from.
proof fn lemma_extend_links(s: BuildModel, word: Seq<char>, p: int, inserted: Seq<Seq<char>>)
    requires
        s.structure_ok(),
        s.spells(inserted),
        0 <= p <= word.len(),
        s.path == word.take(p),
        none_begins_with(inserted, word, if p < word.len() { p + 1 } else { p }),
    ensures
        s.extended(word, p).links_ok(),
{
    let s1 = s.extended(word, p);
    let g = s.graph();
    assert forall|d: int| 0 <= d < s1.path.len() implies !s1.frontier[d].children.dom().contains(
        #[trigger] s1.path[d],
    ) by {
        if d < p {
            assert(s.path[d] == word[d]);
            assert(!s.frontier[d].children.dom().contains(s.path[d]));
        } else if d == p {
            let c = word[p];
            if s.frontier[p].children.dom().contains(c) {
                let child = s.frontier[p].children[c];
                assert(child < s.arena.len());
                assert(g.wf()) by {
                    assert forall|i: int| 0 <= i < g.nodes.len() implies #[trigger] g.node_wf(i) by {
                        assert(s.graph().node_wf(i));
                    }
                }
                lemma_productive_is_live(g, child);
                let v = choose|v: Seq<char>| g.accepts_from(child, v);
                let rest = seq![c] + v;
                assert(rest.drop_first() =~= v);
                assert(s.pending_accepts(p, rest));
                let y = s.path.take(p) + rest;
                assert(s.pending_accepts(p, rest) <==> inserted.contains(y));
                assert(y.take(p + 1) =~= word.take(p + 1));
                assert(false);
            }
        }
    }
    assert forall|i: int| 0 <= i < s1.arena.len() implies #[trigger] s1.held(i) by {
        assert(s.held(i));
        if exists|j: int| i < j < s.arena.len() && #[trigger] s.arena[j].leads_to(i as nat) {
            let j = choose|j: int| i < j < s.arena.len() && #[trigger] s.arena[j].leads_to(i as nat);
            assert(s1.arena[j].leads_to(i as nat));
        } else {
            let d = choose|d: int|
                0 <= d < s.frontier.len() && #[trigger] s.frontier[d].leads_to(i as nat);
            assert(s1.frontier[d].children == s.frontier[d].children);
            let c0 = s.frontier[d].letter_to(i as nat);
            assert(s1.frontier[d].children.contains_pair(c0, i as nat));
            assert(s1.frontier[d].leads_to(i as nat));
        }
    }
    if s1.arena.len() > 0 {
        let top = (s.arena.len() - 1) as nat;
        let d = choose|d: int| 0 <= d < s.frontier.len() && #[trigger] s.frontier[d].leads_to(top);
        assert(s1.frontier[d].children == s.frontier[d].children);
        let c0 = s.frontier[d].letter_to(top);
        assert(s1.frontier[d].children.contains_pair(c0, top));
        assert(s1.frontier[d].leads_to(top));
    }
}

/// Hanging the next word of a sorted list on the frontier keeps the state in
/// shape and adds that word to the inserted ones.
proof fn lemma_extend(s: BuildModel, word: Seq<char>, p: int, inserted: Seq<Seq<char>>)
    requires
        s.structure_ok(),
        s.spells(inserted),
        0 <= p <= word.len(),
        s.path == word.take(p),
        none_begins_with(inserted, word, if p < word.len() { p + 1 } else { p }),
    ensures
        s.extended(word, p).structure_ok(),
        s.extended(word, p).spells(inserted.push(word)),
{
    let s1 = s.extended(word, p);
    assert(s1.graph() == s.graph());
    lemma_extend_links(s, word, p, inserted);
    assert forall|i: int| 0 <= i < s1.arena.len() implies #[trigger] s1.graph().node_wf(i) by {
        assert(s.graph().node_wf(i));
    }
    assert forall|d: int, c: char|
        0 <= d < s1.frontier.len() && #[trigger] s1.frontier[d].children.dom().contains(
            c,
        ) implies s1.frontier[d].children[c] < s1.arena.len() by {
        if d <= p {
            assert(s.frontier[d].children.dom().contains(c));
        }
    }
    assert forall|d: int, v: Seq<char>| 0 <= d <= s1.path.len() implies (
    #[trigger] s1.pending_accepts(d, v) <==> inserted.push(word).contains(s1.path.take(d) + v)) by {
        lemma_extend_language(s, word, p, inserted, d, v);
    }
}

/// Registering the root of a finished frontier gives a well-formed graph
/// that accepts the inserted words and no others.
proof fn lemma_finish(s: BuildModel, arena: Seq<NodeModel>, t: nat, inserted: Seq<Seq<char>>)
    requires
        s.structure_ok(),
        s.spells(inserted),
        s.path.len() == 0,
        s.freezes_to(arena, t),
    ensures
        built_from(DawgModel { nodes: arena, root: t }, inserted),
{
    let g = DawgModel { nodes: arena, root: t };
    let g0 = DawgModel { nodes: arena, root: 0 };
    let node = s.frontier.last();
    assert(node == s.frontier[0]);
    assert(arena.len() == s.arena.len() + 1) by {
        if arena.len() == s.arena.len() {
            let top = (s.arena.len() - 1) as nat;
            let d = choose|d: int| 0 <= d < s.frontier.len() && #[trigger] s.frontier[d].leads_to(top);
            let c0 = node.letter_to(top);
            assert(arena[t as int].children.contains_pair(c0, top));
            assert(arena[t as int].children.dom().contains(c0));
            assert(s.graph().node_wf(t as int));
        }
    }
    assert forall|i: int| 0 <= i < t implies #[trigger] g.has_parent(i) by {
        assert(s.held(i));
        if exists|j: int| i < j < s.arena.len() && #[trigger] s.arena[j].leads_to(i as nat) {
            let j = choose|j: int| i < j < s.arena.len() && #[trigger] s.arena[j].leads_to(i as nat);
            assert(arena[j] == s.arena[j]);
            assert(g.nodes[j].leads_to(i as nat));
        } else {
            let d = choose|d: int|
                0 <= d < s.frontier.len() && #[trigger] s.frontier[d].leads_to(i as nat);
            let c0 = node.letter_to(i as nat);
            assert(arena[t as int].children.contains_pair(c0, i as nat));
            assert(g.nodes[t as int].leads_to(i as nat));
        }
    }
    assert forall|i: int| 0 <= i < arena.len() implies #[trigger] g.node_wf(i) by {
        if i < s.arena.len() {
            assert(s.graph().node_wf(i));
        } else {
            assert forall|c: char| #[trigger]
                arena[i].children.dom().contains(c) implies arena[i].children[c] < i by {
                assert(s.frontier[0].children.dom().contains(c));
            }
        }
    }
    if arena.len() != 1 {
        assert forall|i: int| 0 <= i < arena.len() implies (#[trigger] arena[i]).productive() by {
            if i < s.arena.len() {
                assert(s.arena[i].productive());
            } else {
                if !node.is_terminal {
                    let c = choose|c: char| node.children.dom().contains(c);
                    assert(arena[i].children.dom().contains(c));
                }
            }
        }
    }
    assert forall|w: Seq<char>| #[trigger] g.accepts(w) <==> inserted.contains(w) by {
        lemma_frozen_accepts(s, arena, t, w);
        lemma_same_nodes_accept(g0, g, t, w);
        assert(s.path.take(0) + w =~= w);
        assert(s.pending_accepts(0, w) <==> inserted.contains(s.path.take(0) + w));
    }
}

/// What a graph accepts from a node depends on its nodes, not on its root.
proof fn lemma_same_nodes_accept(a: DawgModel, b: DawgModel, from: nat, v: Seq<char>)
    requires
        a.nodes == b.nodes,
    ensures
        a.walk(from, v) == b.walk(from, v),
        a.accepts_from(from, v) == b.accepts_from(from, v),
    decreases v.len(),
{
    if v.len() > 0 {
        match a.step(from, v[0]) {
            Some(next) => {
                lemma_same_nodes_accept(a, b, next, v.drop_first());
            },
            None => {},
        }
    }
}

/// What holds of a graph built from `words`: it is well formed, it accepts
/// the words and nothing else, equal nodes are shared, no node is a dead
/// end, and every node hangs on the root.
pub open spec fn built_from(g: DawgModel, words: Seq<Seq<char>>) -> bool {
    &&& g.wf()
    &&& g.shares_equal_nodes()
    &&& g.trim()
    &&& g.rooted()
    &&& forall|w: Seq<char>| #[trigger] g.accepts(w) <==> words.contains(w)
}

/// The registry of finished nodes: under each key of a signature, the
/// indices of the nodes whose signature has that key.
struct Registry {
    buckets: HashMap<u64, Vec<usize>>,
}

impl Registry {
    /// Node `i` of `arena` is listed under the key of its signature.
    spec fn holds(&self, arena: Seq<Node>, i: int) -> bool {
        let key = signature_key(arena[i]@.signature()) as u64;
        self.buckets@.contains_key(key) && exists|n: int|
            0 <= n < self.buckets@[key]@.len() && #[trigger] self.buckets@[key]@[n] == i
    }

    /// Every node of `arena` is listed, and nothing else is.
    spec fn lists(&self, arena: Seq<Node>) -> bool {
        &&& forall|i: int| 0 <= i < arena.len() ==> #[trigger] self.holds(arena, i)
        &&& forall|key: u64, j: int|
            self.buckets@.contains_key(key) && 0 <= j < self.buckets@[key]@.len() ==> (
            #[trigger] self.buckets@[key]@[j]) < arena.len()
    }

    fn new() -> (registry: Registry)
        ensures
            registry.lists(Seq::empty()),
    {
        Registry { buckets: HashMap::new() }
    }

    /// The node of `arena` that has the signature of `node`, if there is one.
    fn find(&self, arena: &Vec<Node>, node: &Node) -> (found: Option<usize>)
        requires
            self.lists(arena@),
        ensures
            match found {
                Some(t) => t < arena@.len() && arena@[t as int]@.signature() == node@.signature(),
                None => forall|i: int|
                    0 <= i < arena@.len() ==> (#[trigger] arena@[i])@.signature() != node@.signature(),
            },
    {
        broadcast use vstd::std_specs::hash::group_hash_axioms;

        let sig = node.signature();
        let key = node.key();
        match self.buckets.get(&key) {
            Some(bucket) => {
                let mut j: usize = 0;
                while j < bucket.len()
                    invariant
                        j <= bucket.len(),
                        self.lists(arena@),
                        self.buckets@.contains_key(key),
                        self.buckets@[key] == *bucket,
                        sig@ == node@.signature(),
                        forall|n: int|
                            0 <= n < j ==> arena@[(#[trigger] bucket@[n]) as int]@.signature()
                                != sig@,
                    decreases bucket.len() - j,
                {
                    let t = bucket[j];
                    assert(self.buckets@[key]@[j as int] < arena@.len());
                    if sig.matches(&arena[t]) {
                        return Some(t);
                    }
                    j += 1;
                }
                proof {
                    assert forall|i: int| 0 <= i < arena@.len() implies (#[trigger] arena@[i])@.signature()
                        != node@.signature() by {
                        if arena@[i]@.signature() == node@.signature() {
                            assert(self.holds(arena@, i));
                            let n = choose|n: int| 0 <= n < bucket@.len() && #[trigger] bucket@[n] == i;
                            assert(arena@[bucket@[n] as int]@.signature() != sig@);
                        }
                    }
                }
                None
            },
            None => {
                proof {
                    assert forall|i: int| 0 <= i < arena@.len() implies (#[trigger] arena@[i])@.signature()
                        != node@.signature() by {
                        if arena@[i]@.signature() == node@.signature() {
                            assert(self.holds(arena@, i));
                        }
                    }
                }
                None
            },
        }
    }

    /// Lists the node that has just been added to `arena` as its last.
    fn add(&mut self, arena: &Vec<Node>)
        requires
            arena@.len() > 0,
            old(self).lists(arena@.drop_last()),
        ensures
            final(self).lists(arena@),
    {
        broadcast use vstd::std_specs::hash::group_hash_axioms;

        let t = arena.len() - 1;
        let key = arena[t].key();
        let ghost before = self.buckets@;
        let ghost rest = arena@.drop_last();
        let mut bucket = match self.buckets.remove(&key) {
            Some(b) => b,
            None => Vec::new(),
        };
        let ghost was = bucket@;
        bucket.push(t);
        self.buckets.insert(key, bucket);
        proof {
            let now = self.buckets@;
            assert(now.contains_key(key));
            assert(now[key]@ == was.push(t));
            assert(before.contains_key(key) ==> was == before[key]@);
            assert forall|i: int| 0 <= i < arena@.len() implies #[trigger] self.holds(arena@, i) by {
                let k = signature_key(arena@[i]@.signature()) as u64;
                if i < t {
                    assert(rest[i] == arena@[i]);
                    assert(old(self).holds(rest, i));
                    assert(before.contains_key(k));
                    let n = choose|n: int| 0 <= n < before[k]@.len() && #[trigger] before[k]@[n] == i;
                    if k == key {
                        assert(was[n] == i);
                        assert(now[key]@[n] == i);
                    } else {
                        assert(now.contains_key(k));
                        assert(now[k]@[n] == i);
                    }
                } else {
                    assert(i == t);
                    assert(k == key);
                    assert(now[key]@[was.len() as int] == t);
                }
            }
            assert forall|k: u64, j: int|
                self.buckets@.contains_key(k) && 0 <= j < self.buckets@[k]@.len() implies (
            #[trigger] self.buckets@[k]@[j]) < arena@.len() by {
                if k == key {
                    if j < was.len() {
                        assert(before.contains_key(key));
                        assert(before[key]@[j] < rest.len());
                    }
                } else {
                    assert(before.contains_key(k));
                    assert(before[k]@[j] < rest.len());
                }
            }
        }
    }
}

/// Registers `node`: gives the index of the arena node with its signature,
/// adding `node` itself where there is none yet.
fn register(arena: &mut Vec<Node>, registry: &mut Registry, node: Node) -> (t: usize)
    requires
        old(registry).lists(old(arena)@),
    ensures
        registers(models(old(arena)@), node@, models(final(arena)@), t as nat),
        final(registry).lists(final(arena)@),
{
    match registry.find(arena, &node) {
        Some(t) => {
            assert(models(arena@)[t as int] == arena@[t as int]@);
            t
        },
        None => {
            let t = arena.len();
            let mut node = node;
            let ghost before = arena@;
            let ghost unnamed = node@;
            node.set_id(t);
            arena.push(node);
            proof {
                assert(arena@.drop_last() =~= before);
                assert(models(arena@) =~= models(before).push(
                    NodeModel { id: before.len(), ..unnamed },
                ));
                assert forall|i: int| 0 <= i < models(before).len() implies (#[trigger] models(
                    before,
                )[i]).signature() != unnamed.signature() by {
                    assert(models(before)[i] == before[i]@);
                }
            }
            registry.add(arena);
            t
        },
    }
}

/// The state of a build in progress.
struct Builder {
    arena: Vec<Node>,
    registry: Registry,
    frontier: Vec<Node>,
    path: Vec<char>,
}

impl Builder {
    spec fn model(&self) -> BuildModel {
        BuildModel {
            arena: models(self.arena@),
            frontier: models(self.frontier@),
            path: self.path@,
        }
    }

    /// A build with the root alone and no word inserted.
    fn new() -> (b: Builder)
        ensures
            b.model().structure_ok(),
            b.model().spells(Seq::empty()),
            b.model().path.len() == 0,
            b.registry.lists(b.arena@),
    {
        let mut frontier: Vec<Node> = Vec::new();
        frontier.push(Node::new(0));
        let b = Builder {
            arena: Vec::new(),
            registry: Registry::new(),
            frontier,
            path: Vec::new(),
        };
        proof {
            let s = b.model();
            assert(s.frontier.len() == 1);
            assert(s.frontier[0] == b.frontier@[0]@);
            assert forall|d: int, v: Seq<char>| 0 <= d <= s.path.len() implies (
            #[trigger] s.pending_accepts(d, v) <==> Seq::<Seq<char>>::empty().contains(
                s.path.take(d) + v,
            )) by {}
        }
        b
    }

    /// Freezes the deepest frontier node and hands it to its parent.
    fn freeze_last(&mut self, Ghost(inserted): Ghost<Seq<Seq<char>>>)
        requires
            old(self).model().structure_ok(),
            old(self).model().spells(inserted),
            old(self).path@.len() >= 1,
            old(self).registry.lists(old(self).arena@),
        ensures
            final(self).model().structure_ok(),
            final(self).model().spells(inserted),
            final(self).path@ == old(self).path@.drop_last(),
            final(self).registry.lists(final(self).arena@),
    {
        let ghost s = self.model();
        let ghost depth = s.path.len() - 1;
        let child = self.frontier.pop().unwrap();
        let letter = self.path.pop().unwrap();
        assert(child@ == s.frontier.last());
        let t = register(&mut self.arena, &mut self.registry, child);
        let mut parent = self.frontier.pop().unwrap();
        assert(parent@ == s.frontier[depth]);
        parent.add_child(letter, t);
        self.frontier.push(parent);
        proof {
            let arena = models(self.arena@);
            assert(s.freezes_to(arena, t as nat));
            lemma_freeze(s, arena, t as nat, inserted);
            let s2 = s.frozen(arena, t as nat);
            assert(self.model().frontier =~= s2.frontier) by {
                assert forall|i: int| 0 <= i < depth implies self.model().frontier[i]
                    == s.frontier[i] by {
                    assert(self.frontier@[i] == old(self).frontier@[i]);
                }
            }
            assert(self.path@ =~= s.path.take(depth));
            assert(self.model() == s2);
        }
    }

    /// Freezes the frontier below depth `keep`, deepest node first, so that
    /// each node is frozen after its children.
    fn minimize(&mut self, keep: usize, Ghost(inserted): Ghost<Seq<Seq<char>>>)
        requires
            old(self).model().structure_ok(),
            old(self).model().spells(inserted),
            keep <= old(self).path@.len(),
            old(self).registry.lists(old(self).arena@),
        ensures
            final(self).model().structure_ok(),
            final(self).model().spells(inserted),
            final(self).path@ == old(self).path@.take(keep as int),
            final(self).registry.lists(final(self).arena@),
    {
        while self.path.len() > keep
            invariant
                self.model().structure_ok(),
                self.model().spells(inserted),
                self.registry.lists(self.arena@),
                keep <= self.path@.len() <= old(self).path@.len(),
                self.path@ == old(self).path@.take(self.path@.len() as int),
            decreases self.path@.len(),
        {
            self.freeze_last(Ghost(inserted));
            assert(self.path@ =~= old(self).path@.take(self.path@.len() as int));
        }
    }

    /// Hangs the letters of `word` from `p` on below the frontier and marks
    /// the node of the last letter as the end of a word.
    fn extend(&mut self, word: &Vec<char>, p: usize)
        requires
            old(self).model().frontier.len() == p + 1,
            old(self).path@ == word@.take(p as int),
            p <= word@.len(),
        ensures
            final(self).model() == old(self).model().extended(word@, p as int),
            final(self).arena@ == old(self).arena@,
            final(self).registry == old(self).registry,
    {
        let ghost s = self.model();
        let mut i: usize = p;
        while i < word.len()
            invariant
                p <= i <= word.len(),
                self.arena@ == old(self).arena@,
                self.registry == old(self).registry,
                self.path@ == word@.take(i as int),
                self.frontier@.len() == i + 1,
                forall|d: int| 0 <= d <= p ==> self.frontier@[d] == old(self).frontier@[d],
                forall|d: int|
                    p < d <= i ==> (#[trigger] self.frontier@[d])@ == (NodeModel {
                        children: Map::empty(),
                        is_terminal: false,
                        id: 0,
                    }),
            decreases word.len() - i,
        {
            self.frontier.push(Node::new(0));
            self.path.push(word[i]);
            proof {
                assert(word@.take(i as int + 1) =~= word@.take(i as int).push(word@[i as int]));
            }
            i += 1;
        }
        let ghost mid = self.frontier@;
        let mut last = self.frontier.pop().unwrap();
        last.set_terminal(true);
        self.frontier.push(last);
        proof {
            assert(word@.take(word@.len() as int) =~= word@);
            let want = s.extended(word@, p as int);
            assert(self.model().frontier =~= want.frontier) by {
                assert forall|d: int| 0 <= d < want.frontier.len() implies self.model().frontier[d]
                    == want.frontier[d] by {
                    if d < word@.len() {
                        assert(self.frontier@[d] == mid[d]);
                        if d <= p {
                            assert(mid[d] == old(self).frontier@[d]);
                            assert(s.frontier[d] == old(self).frontier@[d]@);
                        }
                    } else {
                        if d <= p {
                            assert(mid[d] == old(self).frontier@[d]);
                            assert(s.frontier[d] == old(self).frontier@[d]@);
                        }
                    }
                }
            }
            assert(self.model().arena == want.arena);
        }
    }
}

/// Builds the minimal graph of `words`, which must be sorted ascending and
/// hold no word twice.
///
/// Each word is compared with the one before it. The frontier nodes beyond
/// their common prefix are frozen, deepest first; then the rest of the word
/// is hung on the frontier. After the last word the whole frontier is frozen.
pub fn build_dawg(words: &Vec<String>) -> (dawg: Dawg)
    requires
        strictly_ascending(spellings(words@)),
    ensures
        built_from(dawg@, spellings(words@)),
{
    let ghost ws = spellings(words@);
    let mut b = Builder::new();
    let mut prev_word: String = String::new();
    let mut k: usize = 0;
    assert(ws.take(0) =~= Seq::empty());
    while k < words.len()
        invariant
            k <= words.len(),
            ws == spellings(words@),
            strictly_ascending(ws),
            b.model().structure_ok(),
            b.model().spells(ws.take(k as int)),
            b.registry.lists(b.arena@),
            b.path@ == prev_word@,
            k > 0 ==> prev_word@ == ws[k - 1],
            k == 0 ==> prev_word@.len() == 0,
        decreases words.len() - k,
    {
        let word = &words[k];
        assert(word@ == ws[k as int]);
        let chars = to_chars(word.as_str());
        let pref_len = get_pref_len(prev_word, word.clone());
        let ghost inserted = ws.take(k as int);
        proof {
            lemma_common_prefix_len(b.path@, chars@);
        }
        b.minimize(pref_len, Ghost(inserted));
        proof {
            assert(b.path@ =~= chars@.take(pref_len as int));
            if k > 0 {
                lemma_new_branch(ws, k as int);
            } else {
                assert forall|y: Seq<char>| !(#[trigger] inserted.contains(y)) by {}
            }
            lemma_extend(b.model(), chars@, pref_len as int, inserted);
            assert(ws.take(k as int + 1) =~= inserted.push(chars@));
        }
        b.extend(&chars, pref_len);
        prev_word = word.clone();
        k += 1;
    }
    assert(ws.take(k as int) =~= ws);
    b.minimize(0, Ghost(ws));
    let ghost s = b.model();
    let root_node = b.frontier.pop().unwrap();
    let mut arena = b.arena;
    let mut registry = b.registry;
    let root = register(&mut arena, &mut registry, root_node);
    proof {
        lemma_finish(s, models(arena@), root as nat, ws);
    }
    Dawg::from_nodes(arena, root).unwrap()
}

/// Why a word list was not accepted.
#[derive(Debug, Clone, Copy, PartialEq, Eq, Structural)]
pub enum BuildError {
    /// The list is not sorted ascending, or holds a word twice.
    MalformedInput,
}

/// Builds the minimal graph of `words` after checking that the list is
/// sorted ascending and holds no word twice.
pub fn build_checked(words: &Vec<String>) -> (res: Result<Dawg, BuildError>)
    ensures
        match res {
            Ok(dawg) => strictly_ascending(spellings(words@)) && built_from(
                dawg@,
                spellings(words@),
            ),
            Err(BuildError::MalformedInput) => !strictly_ascending(spellings(words@)),
        },
{
    if is_sorted_dedup(words) {
        Ok(build_dawg(words))
    } else {
        Err(BuildError::MalformedInput)
    }
}

} // verus!
