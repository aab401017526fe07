//! The word graph: nodes held in an arena, each child referred to by its index.

use vstd::prelude::*;

verus! {

/// What a node is, mathematically: its outgoing transitions, whether a word
/// ends here, and its identity.
pub struct NodeModel {
    pub children: Map<char, nat>,
    pub is_terminal: bool,
    pub id: nat,
}

/// The key by which equivalent nodes are recognised: the terminal flag and the
/// transitions. Being a map, it does not depend on the order of insertion.
pub struct SignatureModel {
    pub is_terminal: bool,
    pub transitions: Map<char, nat>,
}

impl NodeModel {
    pub open spec fn signature(self) -> SignatureModel {
        SignatureModel { is_terminal: self.is_terminal, transitions: self.children }
    }

    /// A node that ends a word or has a transition.
    pub open spec fn productive(self) -> bool {
        self.is_terminal || exists|c: char| self.children.dom().contains(c)
    }

    /// Whether one of the transitions leads to node `i`.
    pub open spec fn leads_to(self, i: nat) -> bool {
        exists|c: char| self.children.contains_pair(c, i)
    }

    /// A letter whose transition leads to node `i`, where there is one.
    pub open spec fn letter_to(self, i: nat) -> char {
        choose|c: char| self.children.contains_pair(c, i)
    }
}

/// The signature of a node does not depend on the order in which its
/// transitions were added, nor on its identity.
pub proof fn lemma_signature_order_independent(
    node: NodeModel,
    other: NodeModel,
    a: char,
    x: nat,
    b: char,
    y: nat,
)
    requires
        a != b,
        node.is_terminal == other.is_terminal,
        node.children == other.children,
    ensures
        (NodeModel { children: node.children.insert(a, x).insert(b, y), ..node }).signature() == (
        NodeModel { children: other.children.insert(b, y).insert(a, x), ..other }).signature(),
{
    assert(node.children.insert(a, x).insert(b, y) =~= other.children.insert(b, y).insert(a, x));
}

/// A graph as a sequence of nodes and the index of its root.
pub struct DawgModel {
    pub nodes: Seq<NodeModel>,
    pub root: nat,
}

impl DawgModel {
    /// Node `i` carries its own index as identity, and each of its
    /// transitions leads to a node of smaller index.
    pub open spec fn node_wf(self, i: int) -> bool {
        &&& self.nodes[i].id == i
        &&& forall|c: char| #[trigger]
            self.nodes[i].children.dom().contains(c) ==> self.nodes[i].children[c] < i
    }

    /// Every node is well formed and the root is one of them. Children having
    /// smaller indices, the graph is acyclic.
    pub open spec fn wf(self) -> bool {
        &&& self.root < self.nodes.len()
        &&& forall|i: int| 0 <= i < self.nodes.len() ==> #[trigger] self.node_wf(i)
    }

    /// The node reached from `from` by the transition labelled `c`, if any.
    pub open spec fn step(self, from: nat, c: char) -> Option<nat> {
        if from < self.nodes.len() && self.nodes[from as int].children.dom().contains(c) {
            Some(self.nodes[from as int].children[c])
        } else {
            None
        }
    }

    /// The node reached from `from` by reading `w` letter by letter, if every
    /// letter has its transition.
    pub open spec fn walk(self, from: nat, w: Seq<char>) -> Option<nat>
        decreases w.len(),
    {
        if w.len() == 0 {
            Some(from)
        } else {
            match self.step(from, w[0]) {
                Some(next) => self.walk(next, w.drop_first()),
                None => None,
            }
        }
    }

    /// Whether node `i` exists and ends a word.
    pub open spec fn terminal_at(self, i: nat) -> bool {
        i < self.nodes.len() && self.nodes[i as int].is_terminal
    }

    /// Whether reading `w` from `from` ends on a terminal node.
    pub open spec fn accepts_from(self, from: nat, w: Seq<char>) -> bool {
        match self.walk(from, w) {
            Some(end) => self.terminal_at(end),
            None => false,
        }
    }

    /// Whether `w` is a word of the graph.
    pub open spec fn accepts(self, w: Seq<char>) -> bool {
        self.accepts_from(self.root, w)
    }

    /// No two nodes have the same signature: nodes that would be
    /// interchangeable are one node, shared by all that lead to it.
    pub open spec fn shares_equal_nodes(self) -> bool {
        forall|i: int, j: int|
            0 <= i < j < self.nodes.len() ==> (#[trigger] self.nodes[i]).signature() != (
            #[trigger] self.nodes[j]).signature()
    }

    /// No node is a dead end: every node ends a word or leads on, unless the
    /// graph is a root alone.
    pub open spec fn trim(self) -> bool {
        self.nodes.len() == 1 || forall|i: int|
            0 <= i < self.nodes.len() ==> (#[trigger] self.nodes[i]).productive()
    }

    /// Whether a later node has a transition to node `i`.
    pub open spec fn has_parent(self, i: int) -> bool {
        exists|j: int| i < j < self.nodes.len() && #[trigger] self.nodes[j].leads_to(i as nat)
    }

    /// The root is the last node, and every other node is the child of a
    /// later one: the graph holds no node that the root does not lead to.
    pub open spec fn rooted(self) -> bool {
        &&& self.root + 1 == self.nodes.len()
        &&& forall|i: int| 0 <= i < self.root ==> #[trigger] self.has_parent(i)
    }

    /// What is seen at the end of `path`: whether a word ends there, and the
    /// letters that lead on. `None` where the graph has no such path.
    pub open spec fn level(self, path: Seq<char>) -> Option<(bool, Set<char>)> {
        match self.walk(self.root, path) {
            Some(n) => Some((self.terminal_at(n), self.nodes[n as int].children.dom())),
            None => None,
        }
    }

    /// Whether `w` can be read from the root, as a word or as the beginning of one.
    pub open spec fn has_path(self, w: Seq<char>) -> bool {
        self.walk(self.root, w) is Some
    }
}

/// Letters strictly ascending: the canonical order of a node's transitions.
pub open spec fn strictly_sorted(e: Seq<(char, usize)>) -> bool {
    forall|i: int, j: int| 0 <= i < j < e.len() ==> (#[trigger] e[i]).0 < (#[trigger] e[j]).0
}

/// The mapping that a list of transitions stands for.
pub open spec fn edges_map(e: Seq<(char, usize)>) -> Map<char, nat>
    decreases e.len(),
{
    if e.len() == 0 {
        Map::empty()
    } else {
        edges_map(e.drop_last()).insert(e.last().0, e.last().1 as nat)
    }
}

/// For a sorted list, the mapping holds exactly the listed transitions.
proof fn lemma_edges_map(e: Seq<(char, usize)>)
    requires
        strictly_sorted(e),
    ensures
        edges_map(e).dom().finite(),
        forall|i: int| 0 <= i < e.len() ==> edges_map(e).contains_pair((#[trigger] e[i]).0, e[i].1 as nat),
        forall|c: char| #[trigger]
            edges_map(e).dom().contains(c) ==> exists|i: int| 0 <= i < e.len() && (#[trigger] e[i]).0 == c,
    decreases e.len(),
{
    if e.len() > 0 {
        let d = e.drop_last();
        lemma_edges_map(d);
        assert forall|i: int| 0 <= i < e.len() implies edges_map(e).contains_pair(
            (#[trigger] e[i]).0,
            e[i].1 as nat,
        ) by {
            if i < e.len() - 1 {
                assert(d[i] == e[i]);
                assert(e[i].0 < e[e.len() - 1].0);
            }
        }
        assert forall|c: char| #[trigger] edges_map(e).dom().contains(c) implies exists|i: int|
            0 <= i < e.len() && (#[trigger] e[i]).0 == c by {
            if c == e.last().0 {
                assert(e[e.len() - 1].0 == c);
            } else {
                assert(edges_map(d).dom().contains(c));
                let i = choose|i: int| 0 <= i < d.len() && (#[trigger] d[i]).0 == c;
                assert(e[i].0 == c);
            }
        }
    }
}

/// Two sorted lists that stand for the same mapping are the same list.
pub proof fn lemma_sorted_edges_unique(a: Seq<(char, usize)>, b: Seq<(char, usize)>)
    requires
        strictly_sorted(a),
        strictly_sorted(b),
        edges_map(a) == edges_map(b),
    ensures
        a == b,
    decreases a.len(),
{
    lemma_edges_map(a);
    lemma_edges_map(b);
    if a.len() == 0 {
        if b.len() > 0 {
            assert(edges_map(b).contains_pair(b[0].0, b[0].1 as nat));
            assert(edges_map(a).dom().contains(b[0].0));
        }
        assert(a =~= b);
    } else {
        let la = a[a.len() - 1];
        assert(edges_map(a).contains_pair(la.0, la.1 as nat));
        assert(edges_map(b).dom().contains(la.0));
        let j = choose|j: int| 0 <= j < b.len() && (#[trigger] b[j]).0 == la.0;
        let lb = b[b.len() - 1];
        assert(edges_map(b).contains_pair(lb.0, lb.1 as nat));
        assert(edges_map(a).dom().contains(lb.0));
        let k = choose|k: int| 0 <= k < a.len() && (#[trigger] a[k]).0 == lb.0;
        assert(la.0 == lb.0) by {
            if j < b.len() - 1 {
                assert(b[j].0 < lb.0);
                if k < a.len() - 1 {
                    assert(a[k].0 < la.0);
                }
            }
        }
        assert(edges_map(b).contains_pair(b[j].0, b[j].1 as nat));
        assert(la.1 == lb.1);
        let da = a.drop_last();
        let db = b.drop_last();
        lemma_edges_map(da);
        lemma_edges_map(db);
        assert(edges_map(da) =~= edges_map(a).remove(la.0)) by {
            assert(!edges_map(da).dom().contains(la.0)) by {
                if edges_map(da).dom().contains(la.0) {
                    let i = choose|i: int| 0 <= i < da.len() && (#[trigger] da[i]).0 == la.0;
                    assert(a[i].0 < a[a.len() - 1].0);
                }
            }
        }
        assert(edges_map(db) =~= edges_map(b).remove(lb.0)) by {
            assert(!edges_map(db).dom().contains(lb.0)) by {
                if edges_map(db).dom().contains(lb.0) {
                    let i = choose|i: int| 0 <= i < db.len() && (#[trigger] db[i]).0 == lb.0;
                    assert(b[i].0 < b[b.len() - 1].0);
                }
            }
        }
        lemma_sorted_edges_unique(da, db);
        assert(a =~= da.push(la));
        assert(b =~= db.push(lb));
    }
}

/// Keys of signatures are numbers below this prime.
pub const KEY_MODULUS: u64 = 2305843009213693951;

/// One step of the key: the key so far, and the next number that goes in.
pub open spec fn mix(key: int, next: int) -> int {
    (key * 1000003 + next) % (KEY_MODULUS as int)
}

/// The key of a terminal flag and a list of transitions.
pub open spec fn key_of(is_terminal: bool, edges: Seq<(char, usize)>) -> int
    decreases edges.len(),
{
    if edges.len() == 0 {
        if is_terminal {
            1
        } else {
            2
        }
    } else {
        mix(
            mix(key_of(is_terminal, edges.drop_last()), (edges.last().0 as u32) as int),
            edges.last().1 as int,
        )
    }
}

/// The transitions of a mapping as the sorted list that stands for it.
pub open spec fn sorted_edges(transitions: Map<char, nat>) -> Seq<(char, usize)> {
    choose|e: Seq<(char, usize)>| strictly_sorted(e) && edges_map(e) == transitions
}

/// A number that goes with a signature: nodes of one signature have one
/// key, so that a node need only be compared with the nodes of its key.
pub open spec fn signature_key(sig: SignatureModel) -> int {
    key_of(sig.is_terminal, sorted_edges(sig.transitions))
}

fn mix_in(key: u64, next: u64) -> (mixed: u64)
    requires
        key < KEY_MODULUS,
    ensures
        mixed == mix(key as int, next as int),
        mixed < KEY_MODULUS,
{
    let wide: u128 = (key as u128) * 1000003 + (next as u128);
    (wide % (KEY_MODULUS as u128)) as u64
}

/// A vertex of the graph. Its transitions are kept sorted by letter, so that
/// two nodes with the same transitions hold them in the same order however
/// they were added.
pub struct Node {
    edges: Vec<(char, usize)>,
    is_terminal: bool,
    id: usize,
}

impl View for Node {
    type V = NodeModel;

    closed spec fn view(&self) -> NodeModel {
        NodeModel {
            children: edges_map(self.edges@),
            is_terminal: self.is_terminal,
            id: self.id as nat,
        }
    }
}

/// That `edges` lists, in ascending order of letter, exactly the transitions
/// of `children`.
pub open spec fn lists_transitions(edges: Seq<(char, usize)>, children: Map<char, nat>) -> bool {
    &&& strictly_sorted(edges)
    &&& forall|i: int|
        0 <= i < edges.len() ==> children.contains_pair((#[trigger] edges[i]).0, edges[i].1 as nat)
    &&& forall|c: char| #[trigger]
        children.dom().contains(c) ==> exists|i: int|
            0 <= i < edges.len() && (#[trigger] edges[i]).0 == c
}

impl Node {
    #[verifier::type_invariant]
    spec fn inv(self) -> bool {
        strictly_sorted(self.edges@)
    }

    /// A node without transitions that ends no word.
    pub fn new(id: usize) -> (node: Node)
        ensures
            node@ == (NodeModel { children: Map::empty(), is_terminal: false, id: id as nat }),
    {
        Node { edges: Vec::new(), is_terminal: false, id }
    }

    pub fn id(&self) -> (id: usize)
        ensures
            id == self@.id,
    {
        self.id
    }

    pub fn is_terminal(&self) -> (t: bool)
        ensures
            t == self@.is_terminal,
    {
        self.is_terminal
    }

    /// Gives the node the identity `id`.
    pub fn set_id(&mut self, id: usize)
        ensures
            final(self)@ == (NodeModel { id: id as nat, ..old(self)@ }),
    {
        proof {
            use_type_invariant(&*self);
        }
        self.id = id;
    }

    /// Marks whether a word ends at this node.
    pub fn set_terminal(&mut self, terminal: bool)
        ensures
            final(self)@ == (NodeModel { is_terminal: terminal, ..old(self)@ }),
    {
        proof {
            use_type_invariant(&*self);
        }
        self.is_terminal = terminal;
    }

    /// The transitions in ascending order of letter.
    pub fn edges(&self) -> (edges: &Vec<(char, usize)>)
        ensures
            lists_transitions(edges@, self@.children),
    {
        proof {
            use_type_invariant(self);
            lemma_edges_map(self.edges@);
        }
        &self.edges
    }

    /// The child reached by `letter`, if there is one.
    pub fn child(&self, letter: char) -> (target: Option<usize>)
        ensures
            match target {
                Some(t) => self@.children.contains_pair(letter, t as nat),
                None => !self@.children.dom().contains(letter),
            },
    {
        proof {
            use_type_invariant(self);
            lemma_edges_map(self.edges@);
        }
        let mut i: usize = 0;
        while i < self.edges.len()
            invariant
                i <= self.edges.len(),
                forall|j: int| 0 <= j < i ==> (#[trigger] self.edges@[j]).0 != letter,
                forall|j: int|
                    0 <= j < self.edges@.len() ==> self@.children.contains_pair(
                        (#[trigger] self.edges@[j]).0,
                        self.edges@[j].1 as nat,
                    ),
            decreases self.edges.len() - i,
        {
            if self.edges[i].0 == letter {
                return Some(self.edges[i].1);
            }
            i += 1;
        }
        None
    }

    /// Adds the transition `letter -> target`, replacing the one that `letter`
    /// had, if any.
    pub fn add_child(&mut self, letter: char, target: usize)
        ensures
            final(self)@ == (NodeModel {
                children: old(self)@.children.insert(letter, target as nat),
                ..old(self)@
            }),
    {
        proof {
            use_type_invariant(&*self);
        }
        let ghost before = self.edges@;
        let mut edges: Vec<(char, usize)> = Vec::new();
        std::mem::swap(&mut edges, &mut self.edges);
        let mut at: usize = edges.len();
        while at > 0 && edges[at - 1].0 >= letter
            invariant
                at <= edges.len(),
                edges@ == before,
                forall|j: int| at <= j < before.len() ==> (#[trigger] before[j]).0 >= letter,
            decreases at,
        {
            at -= 1;
        }
        if at < edges.len() && edges[at].0 == letter {
            edges.set(at, (letter, target));
            proof {
                lemma_replace_edge(before, at as int, target);
            }
        } else {
            edges.insert(at, (letter, target));
            proof {
                lemma_insert_edge(before, at as int, letter, target);
            }
        }
        self.edges = edges;
    }
}

/// Replacing the target of a listed transition keeps the list sorted and
/// updates the mapping at that letter.
proof fn lemma_replace_edge(before: Seq<(char, usize)>, at: int, target: usize)
    requires
        strictly_sorted(before),
        0 <= at < before.len(),
    ensures
        strictly_sorted(before.update(at, (before[at].0, target))),
        edges_map(before.update(at, (before[at].0, target))) == edges_map(before).insert(
            before[at].0,
            target as nat,
        ),
{
    let letter = before[at].0;
    let after = before.update(at, (letter, target));
    assert(strictly_sorted(after)) by {
        assert forall|i: int, j: int| 0 <= i < j < after.len() implies (#[trigger] after[i]).0 < (
        #[trigger] after[j]).0 by {
            assert(after[i].0 == before[i].0);
            assert(after[j].0 == before[j].0);
        }
    }
    lemma_edges_map(before);
    lemma_edges_map(after);
    let want = edges_map(before).insert(letter, target as nat);
    assert forall|c: char| edges_map(after).dom().contains(c) implies #[trigger] want.dom().contains(
        c,
    ) by {
        let i = choose|i: int| 0 <= i < after.len() && (#[trigger] after[i]).0 == c;
        assert(before[i].0 == c);
        assert(edges_map(before).contains_pair(before[i].0, before[i].1 as nat));
    }
    assert forall|c: char| #[trigger] want.dom().contains(c) implies edges_map(after).dom().contains(
        c,
    ) && edges_map(after)[c] == want[c] by {
        if c == letter {
            assert(edges_map(after).contains_pair(after[at].0, after[at].1 as nat));
        } else {
            let i = choose|i: int| 0 <= i < before.len() && (#[trigger] before[i]).0 == c;
            assert(after[i] == before[i]);
            assert(edges_map(after).contains_pair(after[i].0, after[i].1 as nat));
            assert(edges_map(before).contains_pair(before[i].0, before[i].1 as nat));
        }
    }
    assert(edges_map(after) =~= want);
}

/// Inserting a new letter at its place keeps the list sorted and adds the
/// transition to the mapping.
proof fn lemma_insert_edge(before: Seq<(char, usize)>, at: int, letter: char, target: usize)
    requires
        strictly_sorted(before),
        0 <= at <= before.len(),
        at > 0 ==> before[at - 1].0 < letter,
        at < before.len() ==> letter < before[at].0,
    ensures
        strictly_sorted(before.insert(at, (letter, target))),
        edges_map(before.insert(at, (letter, target))) == edges_map(before).insert(
            letter,
            target as nat,
        ),
{
    let after = before.insert(at, (letter, target));
    assert(after[at] == (letter, target));
    assert forall|i: int| 0 <= i < at implies #[trigger] after[i] == before[i] by {}
    assert forall|i: int| at < i < after.len() implies #[trigger] after[i] == before[i - 1] by {}
    assert(strictly_sorted(after)) by {
        assert forall|i: int, j: int| 0 <= i < j < after.len() implies (#[trigger] after[i]).0 < (
        #[trigger] after[j]).0 by {
            if i < at - 1 {
                assert(before[i].0 < before[at - 1].0);
            }
            if j > at + 1 {
                assert(before[at].0 < before[j - 1].0);
            }
            if i < at && j > at {
                assert(before[i].0 < letter);
                assert(letter < before[j - 1].0);
            }
        }
    }
    lemma_edges_map(before);
    lemma_edges_map(after);
    let want = edges_map(before).insert(letter, target as nat);
    assert forall|c: char| edges_map(after).dom().contains(c) implies #[trigger] want.dom().contains(
        c,
    ) by {
        let i = choose|i: int| 0 <= i < after.len() && (#[trigger] after[i]).0 == c;
        if i < at {
            assert(edges_map(before).contains_pair(before[i].0, before[i].1 as nat));
        } else if i > at {
            assert(edges_map(before).contains_pair(before[i - 1].0, before[i - 1].1 as nat));
        }
    }
    assert forall|c: char| #[trigger] want.dom().contains(c) implies edges_map(after).dom().contains(
        c,
    ) && edges_map(after)[c] == want[c] by {
        if c == letter {
            assert(edges_map(after).contains_pair(after[at].0, after[at].1 as nat));
        } else {
            let bi = choose|i: int| 0 <= i < before.len() && (#[trigger] before[i]).0 == c;
            let i = if bi < at { bi } else { bi + 1 };
            assert(after[i] == before[bi]);
            assert(edges_map(after).contains_pair(after[i].0, after[i].1 as nat));
            assert(edges_map(before).contains_pair(before[bi].0, before[bi].1 as nat));
        }
    }
    assert(edges_map(after) =~= want);
}

/// The canonical key of a node, as held in memory: the terminal flag and the
/// transitions in ascending order of letter.
pub struct Signature {
    is_terminal: bool,
    transitions: Vec<(char, usize)>,
}

impl View for Signature {
    type V = SignatureModel;

    closed spec fn view(&self) -> SignatureModel {
        SignatureModel {
            is_terminal: self.is_terminal,
            transitions: edges_map(self.transitions@),
        }
    }
}

impl Signature {
    #[verifier::type_invariant]
    spec fn inv(self) -> bool {
        strictly_sorted(self.transitions@)
    }

    /// Whether `node` has this signature.
    pub fn matches(&self, node: &Node) -> (same: bool)
        ensures
            same == (self@ == node@.signature()),
    {
        proof {
            use_type_invariant(self);
            use_type_invariant(node);
        }
        if self.is_terminal != node.is_terminal {
            return false;
        }
        let n = self.transitions.len();
        if n != node.edges.len() {
            proof {
                if edges_map(self.transitions@) == edges_map(node.edges@) {
                    lemma_sorted_edges_unique(self.transitions@, node.edges@);
                }
            }
            return false;
        }
        let mut i: usize = 0;
        while i < n
            invariant
                i <= n,
                n == self.transitions@.len(),
                n == node.edges@.len(),
                forall|j: int| 0 <= j < i ==> self.transitions@[j] == node.edges@[j],
                strictly_sorted(self.transitions@),
                strictly_sorted(node.edges@),
            decreases n - i,
        {
            let a = self.transitions[i];
            let b = node.edges[i];
            if a.0 != b.0 || a.1 != b.1 {
                proof {
                    if edges_map(self.transitions@) == edges_map(node.edges@) {
                        lemma_sorted_edges_unique(self.transitions@, node.edges@);
                    }
                }
                return false;
            }
            i += 1;
        }
        assert(self.transitions@ =~= node.edges@);
        true
    }
}

impl Node {
    /// The key of this node's signature.
    pub fn key(&self) -> (key: u64)
        ensures
            key == signature_key(self@.signature()),
    {
        proof {
            use_type_invariant(self);
            lemma_sorted_edges_unique(sorted_edges(self@.children), self.edges@);
        }
        let mut key: u64 = if self.is_terminal {
            1
        } else {
            2
        };
        let mut i: usize = 0;
        assert(self.edges@.take(0) =~= Seq::empty());
        while i < self.edges.len()
            invariant
                i <= self.edges.len(),
                key < KEY_MODULUS,
                key == key_of(self.is_terminal, self.edges@.take(i as int)),
            decreases self.edges.len() - i,
        {
            let edge = self.edges[i];
            proof {
                let next = self.edges@.take(i as int + 1);
                assert(next.drop_last() =~= self.edges@.take(i as int));
                assert(next.last() == edge);
            }
            let letter = edge.0 as u32;
            key = mix_in(mix_in(key, letter as u64), edge.1 as u64);
            i += 1;
        }
        assert(self.edges@.take(self.edges@.len() as int) =~= self.edges@);
        key
    }

    /// The key under which this node is registered.
    pub fn signature(&self) -> (sig: Signature)
        ensures
            sig@ == self@.signature(),
    {
        proof {
            use_type_invariant(self);
        }
        let mut transitions: Vec<(char, usize)> = Vec::new();
        let mut i: usize = 0;
        while i < self.edges.len()
            invariant
                i <= self.edges.len(),
                transitions@ == self.edges@.take(i as int),
            decreases self.edges.len() - i,
        {
            transitions.push(self.edges[i]);
            proof {
                assert(self.edges@.take(i as int + 1) =~= self.edges@.take(i as int).push(
                    self.edges@[i as int],
                ));
            }
            i += 1;
        }
        assert(transitions@ =~= self.edges@);
        Signature { is_terminal: self.is_terminal, transitions }
    }
}

/// The models of a sequence of nodes.
pub open spec fn models(nodes: Seq<Node>) -> Seq<NodeModel> {
    nodes.map_values(|n: Node| n@)
}

/// Why a set of nodes was not accepted as a graph.
#[derive(Debug, Clone, Copy, PartialEq, Eq, Structural)]
pub enum GraphDecodeError {
    /// The root index names no node.
    RootOutOfRange,
    /// The node at this index does not carry its index as identity, or has a
    /// transition to a node that does not precede it.
    MalformedNode(usize),
}

/// A word graph.
pub struct Dawg {
    nodes: Vec<Node>,
    root: usize,
}

impl View for Dawg {
    type V = DawgModel;

    closed spec fn view(&self) -> DawgModel {
        DawgModel { nodes: models(self.nodes@), root: self.root as nat }
    }
}

impl Dawg {
    #[verifier::type_invariant]
    spec fn inv(self) -> bool {
        self@.wf()
    }

    /// Makes a graph of `nodes` after checking its structure. Nothing is kept
    /// of a set of nodes that fails the check.
    pub fn from_nodes(nodes: Vec<Node>, root: usize) -> (res: Result<Dawg, GraphDecodeError>)
        ensures
            match res {
                Ok(dawg) => {
                    &&& dawg@ == (DawgModel { nodes: models(nodes@), root: root as nat })
                    &&& dawg@.wf()
                },
                Err(GraphDecodeError::RootOutOfRange) => root >= nodes@.len(),
                Err(GraphDecodeError::MalformedNode(i)) => {
                    let m = DawgModel { nodes: models(nodes@), root: root as nat };
                    &&& root < nodes@.len()
                    &&& i < nodes@.len()
                    &&& !m.node_wf(i as int)
                    &&& forall|j: int| 0 <= j < i ==> m.node_wf(j)
                },
            },
    {
        if root >= nodes.len() {
            return Err(GraphDecodeError::RootOutOfRange);
        }
        let ghost m = DawgModel { nodes: models(nodes@), root: root as nat };
        let mut i: usize = 0;
        while i < nodes.len()
            invariant
                i <= nodes.len(),
                root < nodes.len(),
                m == (DawgModel { nodes: models(nodes@), root: root as nat }),
                forall|j: int| 0 <= j < i ==> m.node_wf(j),
            decreases nodes.len() - i,
        {
            let node = &nodes[i];
            assert(m.nodes[i as int] == node@);
            if node.id() != i {
                assert(!m.node_wf(i as int));
                return Err(GraphDecodeError::MalformedNode(i));
            }
            let edges = node.edges();
            let mut k: usize = 0;
            while k < edges.len()
                invariant
                    k <= edges.len(),
                    i < nodes.len(),
                    m == (DawgModel { nodes: models(nodes@), root: root as nat }),
                    root < nodes.len(),
                    m.nodes[i as int] == node@,
                    forall|j: int| 0 <= j < i ==> m.node_wf(j),
                    lists_transitions(edges@, node@.children),
                    forall|j: int| 0 <= j < k ==> (#[trigger] edges@[j]).1 < i,
                decreases edges.len() - k,
            {
                if edges[k].1 >= i {
                    proof {
                        assert(node@.children.contains_pair(edges@[k as int].0, edges@[k as int].1 as nat));
                        assert(node@.children.dom().contains(edges@[k as int].0));
                        assert(!m.node_wf(i as int));
                    }
                    return Err(GraphDecodeError::MalformedNode(i));
                }
                k += 1;
            }
            proof {
                assert forall|c: char| #[trigger]
                    node@.children.dom().contains(c) implies node@.children[c] < i by {
                    let j = choose|j: int| 0 <= j < edges@.len() && (#[trigger] edges@[j]).0 == c;
                    assert(node@.children.contains_pair(edges@[j].0, edges@[j].1 as nat));
                }
            }
            i += 1;
        }
        Ok(Dawg { nodes, root })
    }

    /// Tells verified callers that the graph is well formed. Does nothing.
    pub(crate) fn sound(&self)
        ensures
            self@.wf(),
    {
        proof {
            use_type_invariant(self);
        }
    }

    /// The index of the root.
    pub fn root(&self) -> (root: usize)
        ensures
            root == self@.root,
            self@.wf(),
    {
        proof {
            use_type_invariant(self);
        }
        self.root
    }

    /// How many nodes the graph holds.
    pub fn node_count(&self) -> (n: usize)
        ensures
            n == self@.nodes.len(),
            self@.wf(),
    {
        proof {
            use_type_invariant(self);
        }
        self.nodes.len()
    }

    /// The node at `index`, if there is one.
    pub fn node(&self, index: usize) -> (node: Option<&Node>)
        ensures
            self@.wf(),
            match node {
                Some(n) => index < self@.nodes.len() && n@ == self@.nodes[index as int],
                None => index >= self@.nodes.len(),
            },
    {
        proof {
            use_type_invariant(self);
        }
        if index < self.nodes.len() {
            Some(&self.nodes[index])
        } else {
            None
        }
    }

    /// Whether a word ends at node `index`.
    pub fn is_terminal(&self, index: usize) -> (t: bool)
        ensures
            t == self@.terminal_at(index as nat),
    {
        match self.node(index) {
            Some(n) => n.is_terminal(),
            None => false,
        }
    }

    /// The node reached from `from` by `letter`, if there is one.
    pub fn child(&self, from: usize, letter: char) -> (next: Option<usize>)
        ensures
            self@.wf(),
            match next {
                Some(n) => self@.step(from as nat, letter) == Some(n as nat) && n < from,
                None => self@.step(from as nat, letter) is None,
            },
    {
        match self.node(from) {
            Some(n) => {
                let next = n.child(letter);
                proof {
                    assert(self@.node_wf(from as int));
                }
                next
            },
            None => None,
        }
    }

    /// The node reached from the root by reading `word`, if every letter has
    /// its transition.
    pub fn walk(&self, word: &Vec<char>) -> (end: Option<usize>)
        ensures
            self@.wf(),
            match end {
                Some(n) => self@.walk(self@.root, word@) == Some(n as nat) && n < self@.nodes.len(),
                None => self@.walk(self@.root, word@) is None,
            },
    {
        let mut cur = self.root();
        let mut i: usize = 0;
        assert(word@.skip(0) =~= word@);
        while i < word.len()
            invariant
                i <= word.len(),
                self@.wf(),
                cur < self@.nodes.len(),
                self@.walk(self@.root, word@) == self@.walk(cur as nat, word@.skip(i as int)),
            decreases word.len() - i,
        {
            proof {
                assert(word@.skip(i as int).drop_first() =~= word@.skip(i as int + 1));
            }
            match self.child(cur, word[i]) {
                Some(next) => {
                    cur = next;
                },
                None => {
                    return None;
                },
            }
            i += 1;
        }
        Some(cur)
    }

    /// Whether `word`, given letter by letter, is a word of the graph.
    pub fn lookup_chars(&self, word: &Vec<char>) -> (found: bool)
        ensures
            found == self@.accepts(word@),
    {
        match self.walk(word) {
            Some(end) => self.is_terminal(end),
            None => false,
        }
    }

    /// Whether `word` is a word of the graph: every letter has its transition
    /// from the root on, and the node reached ends a word.
    pub fn lookup(&self, word: &str) -> (found: bool)
        ensures
            found == self@.accepts(word@),
    {
        let chars = crate::text::to_chars(word);
        self.lookup_chars(&chars)
    }

    /// Whether `prefix` begins a path from the root, as a word or as the
    /// beginning of one.
    pub fn has_prefix(&self, prefix: &str) -> (found: bool)
        ensures
            found == self@.has_path(prefix@),
    {
        let chars = crate::text::to_chars(prefix);
        self.walk(&chars).is_some()
    }
}

} // verus!
