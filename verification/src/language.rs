//! What holds of the words that a graph accepts, and of graphs that accept
//! the same words.

use crate::builder::built_from;
use crate::graph::DawgModel;
use vstd::prelude::*;

verus! {

/// Reading `u` and then `w` is reading `u + w`.
pub proof fn lemma_walk_concat(g: DawgModel, from: nat, u: Seq<char>, w: Seq<char>)
    ensures
        g.walk(from, u + w) == match g.walk(from, u) {
            Some(n) => g.walk(n, w),
            None => None,
        },
    decreases u.len(),
{
    if u.len() == 0 {
        assert(u + w =~= w);
    } else {
        assert((u + w).drop_first() =~= u.drop_first() + w);
        match g.step(from, u[0]) {
            Some(next) => {
                lemma_walk_concat(g, next, u.drop_first(), w);
            },
            None => {},
        }
    }
}

/// In a well-formed graph a path ends on a node of the graph.
pub proof fn lemma_walk_in_range(g: DawgModel, from: nat, u: Seq<char>)
    requires
        g.wf(),
        from < g.nodes.len(),
    ensures
        g.walk(from, u) is Some ==> g.walk(from, u).unwrap() <= from,
    decreases u.len(),
{
    if u.len() > 0 {
        assert(g.node_wf(from as int));
        match g.step(from, u[0]) {
            Some(next) => {
                lemma_walk_in_range(g, next, u.drop_first());
            },
            None => {},
        }
    }
}

/// Some word is accepted from a node.
pub open spec fn live(g: DawgModel, i: nat) -> bool {
    exists|w: Seq<char>| g.accepts_from(i, w)
}

/// Where every node ends a word or leads on, a word is accepted from every node.
pub proof fn lemma_productive_is_live(g: DawgModel, i: nat)
    requires
        g.wf(),
        forall|j: int| 0 <= j < g.nodes.len() ==> (#[trigger] g.nodes[j]).productive(),
        i < g.nodes.len(),
    ensures
        live(g, i),
    decreases i,
{
    let node = g.nodes[i as int];
    assert(node.productive());
    if node.is_terminal {
        assert(g.accepts_from(i, Seq::empty()));
    } else {
        let c = choose|c: char| node.children.dom().contains(c);
        assert(g.node_wf(i as int));
        let j = node.children[c];
        lemma_productive_is_live(g, j);
        let rest = choose|w: Seq<char>| g.accepts_from(j, w);
        let w = seq![c] + rest;
        assert(w.drop_first() =~= rest);
        assert(g.accepts_from(i, w));
    }
}

/// In a graph whose nodes all hang on the root, a path leads from the root
/// to every node.
pub proof fn lemma_every_node_reachable(g: DawgModel, i: nat)
    requires
        g.wf(),
        g.rooted(),
        i < g.nodes.len(),
    ensures
        exists|path: Seq<char>| g.walk(g.root, path) == Some(i),
    decreases g.nodes.len() - i,
{
    if i == g.root {
        assert(g.walk(g.root, Seq::empty()) == Some(i));
    } else {
        assert(g.has_parent(i as int));
        let j = choose|j: int| i < j < g.nodes.len() && #[trigger] g.nodes[j].leads_to(i);
        let c = g.nodes[j].letter_to(i);
        lemma_every_node_reachable(g, j as nat);
        let path = choose|path: Seq<char>| g.walk(g.root, path) == Some(j as nat);
        lemma_walk_push(g, path, c);
        assert(g.walk(g.root, path.push(c)) == Some(i));
    }
}

/// One step along a path.
pub proof fn lemma_walk_push(g: DawgModel, path: Seq<char>, c: char)
    ensures
        g.walk(g.root, path.push(c)) == match g.walk(g.root, path) {
            Some(n) => g.step(n, c),
            None => None,
        },
{
    lemma_walk_concat(g, g.root, path, seq![c]);
    assert(path + seq![c] =~= path.push(c));
    assert(seq![c].drop_first() =~= Seq::<char>::empty());
    match g.walk(g.root, path) {
        Some(n) => {
            match g.step(n, c) {
                Some(next) => {
                    assert(g.walk(next, seq![c].drop_first()) == Some(next));
                },
                None => {},
            }
        },
        None => {},
    }
}

/// In a graph without dead ends, a path exists exactly where some accepted
/// word begins with it; in a graph that is a dead root alone, only the empty
/// path exists.
proof fn lemma_paths_follow_words(g: DawgModel, path: Seq<char>)
    requires
        g.wf(),
        g.trim(),
    ensures
        (exists|w: Seq<char>| g.accepts(w)) ==> (g.has_path(path) <==> exists|w: Seq<char>|
            g.accepts(path + w)),
        !(exists|w: Seq<char>| g.accepts(w)) ==> (g.has_path(path) <==> path.len() == 0),
{
    let all_productive = forall|j: int|
        0 <= j < g.nodes.len() ==> (#[trigger] g.nodes[j]).productive();
    if all_productive {
        lemma_productive_is_live(g, g.root);
        let w0 = choose|w: Seq<char>| g.accepts_from(g.root, w);
        assert(g.accepts(w0));
        if g.has_path(path) {
            let n = g.walk(g.root, path).unwrap();
            lemma_walk_in_range(g, g.root, path);
            lemma_productive_is_live(g, n);
            let w = choose|w: Seq<char>| g.accepts_from(n, w);
            lemma_walk_concat(g, g.root, path, w);
            assert(g.accepts(path + w));
        }
        if exists|w: Seq<char>| g.accepts(path + w) {
            let w = choose|w: Seq<char>| g.accepts(path + w);
            lemma_walk_concat(g, g.root, path, w);
        }
    } else {
        assert(g.nodes.len() == 1);
        assert(g.root == 0);
        let root = g.nodes[0];
        assert(!root.productive());
        assert(g.node_wf(0));
        assert forall|w: Seq<char>| !g.accepts(w) by {
            if w.len() > 0 {
                assert(!root.children.dom().contains(w[0]));
            }
        }
        if path.len() > 0 {
            assert(!root.children.dom().contains(path[0]));
        }
    }
}

/// Two graphs built from the same word list show the same at the end of
/// every path: both have the path or neither has it, and where they have it,
/// a word ends there in both or in neither, and the same letters lead on.
pub proof fn lemma_builds_agree(
    a: DawgModel,
    b: DawgModel,
    words: Seq<Seq<char>>,
    path: Seq<char>,
)
    requires
        built_from(a, words),
        built_from(b, words),
    ensures
        a.level(path) == b.level(path),
{
    lemma_same_paths(a, b, words, path);
    if a.has_path(path) {
        let na = a.walk(a.root, path).unwrap();
        let nb = b.walk(b.root, path).unwrap();
        lemma_walk_in_range(a, a.root, path);
        lemma_walk_in_range(b, b.root, path);
        assert(a.accepts(path) <==> words.contains(path));
        assert(b.accepts(path) <==> words.contains(path));
        let da = a.nodes[na as int].children.dom();
        let db = b.nodes[nb as int].children.dom();
        assert forall|c: char| da.contains(c) == db.contains(c) by {
            lemma_walk_push(a, path, c);
            lemma_walk_push(b, path, c);
            lemma_same_paths(a, b, words, path.push(c));
        }
        assert(da =~= db);
    }
}

/// Two graphs built from the same word list have the same paths.
proof fn lemma_same_paths(a: DawgModel, b: DawgModel, words: Seq<Seq<char>>, path: Seq<char>)
    requires
        built_from(a, words),
        built_from(b, words),
    ensures
        a.has_path(path) == b.has_path(path),
{
    lemma_paths_follow_words(a, path);
    lemma_paths_follow_words(b, path);
    assert forall|w: Seq<char>| a.accepts(w) == b.accepts(w) by {
        assert(a.accepts(w) <==> words.contains(w));
        assert(b.accepts(w) <==> words.contains(w));
    }
    if exists|w: Seq<char>| a.accepts(w) {
        let w0 = choose|w: Seq<char>| a.accepts(w);
        assert(b.accepts(w0));
        if exists|w: Seq<char>| a.accepts(path + w) {
            let w = choose|w: Seq<char>| a.accepts(path + w);
            assert(b.accepts(path + w));
        }
        if exists|w: Seq<char>| b.accepts(path + w) {
            let w = choose|w: Seq<char>| b.accepts(path + w);
            assert(a.accepts(path + w));
        }
    } else {
        if exists|w: Seq<char>| b.accepts(w) {
            let w0 = choose|w: Seq<char>| b.accepts(w);
            assert(a.accepts(w0));
        }
    }
}

/// In a graph that shares equal nodes and has no dead ends, no two nodes
/// accept the same words: the graph holds no node that another could stand
/// for.
pub proof fn lemma_nodes_differ(g: DawgModel, i: nat, j: nat)
    requires
        g.wf(),
        g.shares_equal_nodes(),
        g.trim(),
        i < g.nodes.len(),
        j < g.nodes.len(),
        i != j,
    ensures
        exists|w: Seq<char>| g.accepts_from(i, w) != g.accepts_from(j, w),
    decreases i + j,
{
    let ni = g.nodes[i as int];
    let nj = g.nodes[j as int];
    assert(g.node_wf(i as int));
    assert(g.node_wf(j as int));
    assert(ni.signature() != nj.signature()) by {
        if i < j {
            assert(g.nodes[i as int].signature() != g.nodes[j as int].signature());
        } else {
            assert(g.nodes[j as int].signature() != g.nodes[i as int].signature());
        }
    }
    if ni.is_terminal != nj.is_terminal {
        let w = Seq::<char>::empty();
        assert(g.accepts_from(i, w) != g.accepts_from(j, w));
    } else {
        let same = forall|c: char|
            (ni.children.dom().contains(c) <==> nj.children.dom().contains(c)) && (
            ni.children.dom().contains(c) ==> ni.children[c] == nj.children[c]);
        if same {
            assert(ni.children =~= nj.children);
            assert(false);
        }
        let c = choose|c: char|
            !((ni.children.dom().contains(c) <==> nj.children.dom().contains(c)) && (
            ni.children.dom().contains(c) ==> ni.children[c] == nj.children[c]));
        let in_i = ni.children.dom().contains(c);
        let in_j = nj.children.dom().contains(c);
        if in_i && in_j {
            let ci = ni.children[c];
            let cj = nj.children[c];
            lemma_nodes_differ(g, ci, cj);
            let rest = choose|w: Seq<char>| g.accepts_from(ci, w) != g.accepts_from(cj, w);
            let w = seq![c] + rest;
            assert(w.drop_first() =~= rest);
            assert(g.accepts_from(i, w) == g.accepts_from(ci, rest));
            assert(g.accepts_from(j, w) == g.accepts_from(cj, rest));
        } else {
            let (has, lacks) = if in_i { (i, j) } else { (j, i) };
            let child = g.nodes[has as int].children[c];
            lemma_productive_is_live(g, child);
            let rest = choose|w: Seq<char>| g.accepts_from(child, w);
            let w = seq![c] + rest;
            assert(w.drop_first() =~= rest);
            assert(g.accepts_from(has, w));
            assert(!g.accepts_from(lacks, w));
        }
    }
}

/// A path from the root to node `i`, where there is one.
pub open spec fn path_to(g: DawgModel, i: nat) -> Seq<char> {
    choose|path: Seq<char>| #[trigger] g.walk(g.root, path) == Some(i)
}

/// The node of `h` that the path to node `i` of `g` leads to, or -1 where
/// `h` has no such path.
pub open spec fn twin(g: DawgModel, h: DawgModel, i: int) -> int {
    match h.walk(h.root, path_to(g, i as nat)) {
        Some(n) => n as int,
        None => -1,
    }
}

/// In a graph that accepts the words of a built graph, the path to a node of
/// the built graph leads to a node that accepts what that node accepts.
proof fn lemma_twin(g: DawgModel, h: DawgModel, words: Seq<Seq<char>>, i: int)
    requires
        built_from(g, words),
        g.nodes.len() > 1,
        h.wf(),
        forall|w: Seq<char>| #[trigger] h.accepts(w) <==> words.contains(w),
        0 <= i < g.nodes.len(),
    ensures
        0 <= twin(g, h, i) < h.nodes.len(),
        forall|w: Seq<char>|
            h.accepts_from(twin(g, h, i) as nat, w) == #[trigger] g.accepts_from(i as nat, w),
{
    lemma_every_node_reachable(g, i as nat);
    let u = path_to(g, i as nat);
    lemma_productive_is_live(g, i as nat);
    let node = i as nat;
    let w0 = choose|w: Seq<char>| #[trigger] g.accepts_from(node, w);
    lemma_walk_concat(g, g.root, u, w0);
    assert(g.accepts(u + w0));
    assert(words.contains(u + w0));
    assert(h.accepts(u + w0));
    lemma_walk_concat(h, h.root, u, w0);
    lemma_walk_in_range(h, h.root, u);
    assert forall|w: Seq<char>|
        h.accepts_from(twin(g, h, i) as nat, w) == #[trigger] g.accepts_from(i as nat, w) by {
        lemma_walk_concat(g, g.root, u, w);
        lemma_walk_concat(h, h.root, u, w);
        assert(g.accepts(u + w) <==> words.contains(u + w));
        assert(h.accepts(u + w) <==> words.contains(u + w));
    }
}

/// No graph that accepts the same words has fewer nodes than a built graph:
/// the built graph is minimal.
pub proof fn lemma_no_smaller_graph(g: DawgModel, h: DawgModel, words: Seq<Seq<char>>)
    requires
        built_from(g, words),
        h.wf(),
        forall|w: Seq<char>| #[trigger] h.accepts(w) <==> words.contains(w),
    ensures
        g.nodes.len() <= h.nodes.len(),
{
    if g.nodes.len() > 1 {
        let n = g.nodes.len() as int;
        let m = h.nodes.len() as int;
        let f = |i: int| twin(g, h, i);
        let ours = vstd::set_lib::set_int_range(0, n);
        let theirs = vstd::set_lib::set_int_range(0, m);
        vstd::set_lib::lemma_int_range(0, n);
        vstd::set_lib::lemma_int_range(0, m);
        assert forall|a: int, b: int|
            ours.contains(a) && ours.contains(b) && #[trigger] f(a) == #[trigger] f(b) implies a
            == b by {
            if a != b {
                lemma_twin(g, h, words, a);
                lemma_twin(g, h, words, b);
                lemma_nodes_differ(g, a as nat, b as nat);
                let one = a as nat;
                let other = b as nat;
                let w = choose|w: Seq<char>|
                    #![trigger g.accepts_from(one, w)]
                    g.accepts_from(one, w) != g.accepts_from(other, w);
                assert(h.accepts_from(twin(g, h, a) as nat, w) == g.accepts_from(a as nat, w));
                assert(h.accepts_from(twin(g, h, b) as nat, w) == g.accepts_from(b as nat, w));
            }
        }
        assert(vstd::relations::injective_on(f, ours));
        let image = ours.map(f);
        vstd::set_lib::lemma_map_size(ours, image, f);
        assert forall|k: int| image.contains(k) implies theirs.contains(k) by {
            let a = choose|a: int| ours.contains(a) && f(a) == k;
            lemma_twin(g, h, words, a);
        }
        vstd::set_lib::lemma_len_subset(image, theirs);
    }
}

/// Two graphs built from the same word list have the same number of nodes.
pub proof fn lemma_builds_same_size(a: DawgModel, b: DawgModel, words: Seq<Seq<char>>)
    requires
        built_from(a, words),
        built_from(b, words),
    ensures
        a.nodes.len() == b.nodes.len(),
{
    lemma_no_smaller_graph(a, b, words);
    lemma_no_smaller_graph(b, a, words);
}

} // verus!
