//! A tree of named switches. A switch can be turned on only when every switch
//! above it is on; removing a switch removes everything below it.
//!
//! The tree is a map from names to nodes (a switch state and the name of the
//! parent). Entries are kept in insertion order, which is the order of the
//! text rendering.
use vstd::prelude::*;
use crate::text::{push_char, push_str};

verus! {

broadcast use vstd::seq::group_seq_axioms;

/// The tree as a map from a name to its switch state and its parent's name.
pub type TreeMap = Map<Seq<char>, (bool, Option<Seq<char>>)>;

/// The parent of `k`, if `k` is in the tree and has one.
pub open spec fn father_of(m: TreeMap, k: Seq<char>) -> Option<Seq<char>> {
    if m.contains_key(k) { m[k].1 } else { None }
}

/// The name `i` steps up from `k` (`k` itself for 0), if the parent links reach that far.
pub open spec fn anc(m: TreeMap, k: Seq<char>, i: nat) -> Option<Seq<char>>
    decreases i,
{
    if i == 0 {
        Some(k)
    } else {
        match father_of(m, k) {
            Some(a) => anc(m, a, (i - 1) as nat),
            None => None,
        }
    }
}

/// `k` lies strictly below `a`: following parents from `k` reaches `a`.
pub open spec fn descends(m: TreeMap, k: Seq<char>, a: Seq<char>) -> bool {
    exists|i: nat| i >= 1 && #[trigger] anc(m, k, i) == Some(a)
}

/// `node` and every name below it.
pub open spec fn subtree(m: TreeMap, node: Seq<char>) -> Set<Seq<char>> {
    Set::new(|k: Seq<char>| k == node || descends(m, k, node))
}

/// Whether the switch `k` is in the tree and on.
pub open spec fn lit(m: TreeMap, k: Seq<char>) -> bool {
    m.contains_key(k) && m[k].0
}

/// The walk of `toggle` up from `node` goes on past step `i`: every name 1 to
/// `i - 1` steps up exists and is on.
pub open spec fn all_lit_below(m: TreeMap, node: Seq<char>, i: nat) -> bool {
    forall|j: nat| 1 <= j < i ==> (#[trigger] anc(m, node, j) matches Some(a) && lit(m, a))
}

/// The walk of `toggle` up from `node` stops at step `i`: there is no name `i`
/// steps up, or it is off (or missing), and all names below that were on.
pub open spec fn walk_stops_at(m: TreeMap, node: Seq<char>, i: nat) -> bool {
    &&& i >= 1
    &&& all_lit_below(m, node, i)
    &&& match anc(m, node, i) {
        Some(a) => !lit(m, a),
        None => true,
    }
}

proof fn lemma_anc_step(m: TreeMap, k: Seq<char>, i: nat)
    ensures
        anc(m, k, i + 1) == match anc(m, k, i) {
            Some(a) => father_of(m, a),
            None => None::<Seq<char>>,
        },
    decreases i,
{
    reveal_with_fuel(anc, 2);
    if i > 0 {
        match father_of(m, k) {
            Some(a) => {
                lemma_anc_step(m, a, (i - 1) as nat);
            },
            None => {},
        }
    }
}

proof fn lemma_anc_none_persists(m: TreeMap, k: Seq<char>, i: nat, j: nat)
    requires
        anc(m, k, i) is None,
        i <= j,
    ensures
        anc(m, k, j) is None,
    decreases j - i,
{
    if i < j {
        lemma_anc_none_persists(m, k, i, (j - 1) as nat);
        lemma_anc_step(m, k, (j - 1) as nat);
    }
}

proof fn lemma_anc_same_fathers(m: TreeMap, m2: TreeMap, k: Seq<char>, i: nat)
    requires
        forall|q: Seq<char>| #[trigger] father_of(m, q) == father_of(m2, q),
    ensures
        anc(m, k, i) == anc(m2, k, i),
    decreases i,
{
    if i > 0 {
        assert(father_of(m, k) == father_of(m2, k));
        match father_of(m, k) {
            Some(a) => lemma_anc_same_fathers(m, m2, a, (i - 1) as nat),
            None => {},
        }
    }
}

/// After a successful turn-on at walk step `stop` (the top was reached with
/// every switch on the way on), every switch above `node` is on.
proof fn lemma_turned_on_path(m: TreeMap, node: Seq<char>, stop: nat)
    requires
        m.contains_key(node),
        walk_stops_at(m, node, stop),
        anc(m, node, stop) is None,
        !m[node].0,
    ensures
        forall|j: nat| j >= 1 && #[trigger] anc(m.insert(node, (true, m[node].1)), node, j) is Some
            ==> lit(m.insert(node, (true, m[node].1)), anc(m.insert(node, (true, m[node].1)), node, j)->Some_0),
{
    let m2 = m.insert(node, (true, m[node].1));
    assert forall|q: Seq<char>| #[trigger] father_of(m, q) == father_of(m2, q) by {}
    assert forall|j: nat| j >= 1 && #[trigger] anc(m2, node, j) is Some
        implies lit(m2, anc(m2, node, j)->Some_0) by {
        lemma_anc_same_fathers(m, m2, node, j);
        if j >= stop {
            lemma_anc_none_persists(m, node, stop, j);
        }
        assert(anc(m, node, j) matches Some(a) && lit(m, a));
    }
}

/// The tree, kept as three parallel vectors (names, switch states, parent
/// names) in which no name occurs twice, rather than as a hash map keyed by
/// name: over vectors the map view [`Tree::view`] is proved exactly, with
/// `String` keys compared by their views, and the insertion order gives the
/// text rendering a fixed order.
pub struct Tree {
    keys: Vec<String>,
    ons: Vec<bool>,
    fathers: Vec<Option<String>>,
}

pub open spec fn opt_view(o: Option<String>) -> Option<Seq<char>> {
    match o {
        Some(s) => Some(s@),
        None => None,
    }
}

impl Tree {
    /// The names, in insertion order.
    pub closed spec fn names(&self) -> Seq<Seq<char>> {
        self.keys@.map_values(|s: String| s@)
    }

    /// The switch states, by position.
    pub closed spec fn states(&self) -> Seq<bool> {
        self.ons@
    }

    /// The parent names, by position.
    pub closed spec fn parents(&self) -> Seq<Option<Seq<char>>> {
        self.fathers@.map_values(|o: Option<String>| opt_view(o))
    }

    pub open spec fn wf(&self) -> bool {
        &&& self.states().len() == self.names().len()
        &&& self.parents().len() == self.names().len()
        &&& self.names().no_duplicates()
    }

    /// The tree as a map.
    pub open spec fn view(&self) -> TreeMap {
        Map::new(
            |k: Seq<char>| self.names().contains(k),
            |k: Seq<char>| (self.states()[self.names().index_of(k)], self.parents()[self.names().index_of(k)]),
        )
    }

    proof fn lemma_view_at(&self, i: int)
        requires
            self.wf(),
            0 <= i < self.names().len(),
        ensures
            self.view().contains_key(self.names()[i]),
            self.view()[self.names()[i]] == (self.states()[i], self.parents()[i]),
    {
        let k = self.names()[i];
        assert(self.names().contains(k));
        let j = self.names().index_of(k);
        assert(self.names()[j] == k);
    }

    proof fn lemma_view_all(&self)
        requires
            self.wf(),
        ensures
            forall|i: int| 0 <= i < self.names().len() ==> self.view().contains_key(#[trigger] self.names()[i])
                && self.view()[self.names()[i]] == (self.states()[i], self.parents()[i]),
            forall|k: Seq<char>| #[trigger] self.view().contains_key(k) ==> self.names().contains(k),
    {
        assert forall|i: int| 0 <= i < self.names().len() implies self.view().contains_key(#[trigger] self.names()[i])
            && self.view()[self.names()[i]] == (self.states()[i], self.parents()[i]) by {
            self.lemma_view_at(i);
        }
    }

    fn find(&self, k: &String) -> (r: Option<usize>)
        requires
            self.wf(),
        ensures
            match r {
                Some(i) => i < self.names().len() && self.names()[i as int] == k@,
                None => !self.names().contains(k@),
            },
    {
        let n = self.keys.len();
        let mut i: usize = 0;
        while i < n
            invariant
                n == self.keys@.len(),
                i <= n,
                forall|j: int| 0 <= j < i ==> (#[trigger] self.names()[j]) != k@,
            decreases n - i,
        {
            if self.keys[i] == *k {
                return Some(i);
            }
            i = i + 1;
        }
        assert(!self.names().contains(k@)) by {
            if self.names().contains(k@) {
                let j = choose|j: int| 0 <= j < self.names().len() && self.names()[j] == k@;
                assert(self.names()[j] != k@);
            }
        }
        None
    }

    /// A tree holding only its root switch, which is off.
    pub fn new(root_name: &str) -> (t: Tree)
        ensures
            t.wf(),
            t.view() == Map::<Seq<char>, (bool, Option<Seq<char>>)>::empty().insert(root_name@, (false, None::<Seq<char>>)),
            t.names() == seq![root_name@],
    {
        let mut keys: Vec<String> = Vec::new();
        keys.push(String::from_str(root_name));
        let mut ons: Vec<bool> = Vec::new();
        ons.push(false);
        let mut fathers: Vec<Option<String>> = Vec::new();
        fathers.push(None);
        let t = Tree { keys, ons, fathers };
        proof {
            assert(t.names() =~= seq![root_name@]);
            assert(t.parents() =~= seq![None::<Seq<char>>]);
            t.lemma_view_all();
            assert forall|q: Seq<char>| #[trigger] t.view().contains_key(q) <==> q == root_name@ by {
                if t.names().contains(q) {
                    let j = choose|j: int| 0 <= j < t.names().len() && t.names()[j] == q;
                    assert(j == 0);
                }
                if q == root_name@ {
                    assert(t.names()[0] == q);
                }
            }
            assert(t.view() =~= Map::<Seq<char>, (bool, Option<Seq<char>>)>::empty().insert(root_name@, (false, None::<Seq<char>>)));
        }
        t
    }

    /// Adds `node` as an off switch below `father` when `father` is in the
    /// tree; a node already present is replaced (keeping its place in the
    /// order). Nothing happens when `father` is missing.
    pub fn add(&mut self, father: &str, node: &str)
        requires
            old(self).wf(),
        ensures
            final(self).wf(),
            old(self).view().contains_key(father@) ==> final(self).view()
                == old(self).view().insert(node@, (false, Some(father@))),
            !old(self).view().contains_key(father@) ==> final(self).view() == old(self).view(),
            old(self).view().contains_key(father@) && !old(self).names().contains(node@) ==> {
                &&& final(self).names() == old(self).names().push(node@)
                &&& final(self).states() == old(self).states().push(false)
                &&& final(self).parents() == old(self).parents().push(Some(father@))
            },
    {
        proof { self.lemma_view_all(); }
        let f = String::from_str(father);
        match self.find(&f) {
            None => {
                return;
            },
            Some(_) => {},
        }
        let k = String::from_str(node);
        let ghost old_names = self.names();
        match self.find(&k) {
            Some(i) => {
                self.ons.set(i, false);
                self.fathers.set(i, Some(f));
                proof {
                    assert(self.names() == old_names);
                    assert(self.parents() =~= old(self).parents().update(i as int, Some(father@)));
                    self.lemma_view_all();
                    assert forall|q: Seq<char>| #[trigger] self.view().contains_key(q) == old(self).view().insert(node@, (false, Some(father@))).contains_key(q) by {
                        if old_names.contains(q) {
                            let j = choose|j: int| 0 <= j < old_names.len() && old_names[j] == q;
                            assert(self.names()[j] == q);
                        }
                    }
                    assert forall|q: Seq<char>| #[trigger] self.view().contains_key(q) implies self.view()[q]
                        == old(self).view().insert(node@, (false, Some(father@)))[q] by {
                        let j = choose|j: int| 0 <= j < old_names.len() && old_names[j] == q;
                        assert(self.names()[j] == q);
                        old(self).lemma_view_at(j);
                    }
                    assert(self.view() =~= old(self).view().insert(node@, (false, Some(father@))));
                }
            },
            None => {
                self.keys.push(k);
                self.ons.push(false);
                self.fathers.push(Some(f));
                proof {
                    assert(self.names() =~= old_names.push(node@));
                    assert(self.parents() =~= old(self).parents().push(Some(father@)));
                    assert(self.states() =~= old(self).states().push(false));
                    assert(self.names().no_duplicates()) by {
                        assert forall|a: int, b: int| 0 <= a < self.names().len() && 0 <= b < self.names().len() && a != b
                            implies self.names()[a] != self.names()[b] by {
                            if a == old_names.len() as int {
                                assert(old_names[b] != node@);
                            } else if b == old_names.len() as int {
                                assert(old_names[a] != node@);
                            }
                        }
                    }
                    self.lemma_view_all();
                    let n_old = old_names.len() as int;
                    assert forall|q: Seq<char>| #[trigger] self.view().contains_key(q) == old(self).view().insert(node@, (false, Some(father@))).contains_key(q) by {
                        if old_names.contains(q) {
                            let j = choose|j: int| 0 <= j < old_names.len() && old_names[j] == q;
                            assert(self.names()[j] == q);
                        }
                        if q == node@ {
                            assert(self.names()[n_old] == q);
                        }
                        if self.names().contains(q) {
                            let j = choose|j: int| 0 <= j < self.names().len() && self.names()[j] == q;
                            if j < n_old {
                                assert(old_names[j] == q);
                            }
                        }
                    }
                    assert forall|q: Seq<char>| #[trigger] self.view().contains_key(q) implies self.view()[q]
                        == old(self).view().insert(node@, (false, Some(father@)))[q] by {
                        let j = choose|j: int| 0 <= j < self.names().len() && self.names()[j] == q;
                        if j < n_old {
                            assert(old_names[j] == q);
                            old(self).lemma_view_at(j);
                        }
                    }
                    assert(self.view() =~= old(self).view().insert(node@, (false, Some(father@))));
                }
            },
        }
    }

    /// Whether the switch is on; a missing switch reads as off.
    pub fn peek(&self, node: &str) -> (b: bool)
        requires
            self.wf(),
        ensures
            b == lit(self.view(), node@),
    {
        proof { self.lemma_view_all(); }
        let k = String::from_str(node);
        match self.find(&k) {
            Some(i) => self.ons[i],
            None => false,
        }
    }
}


impl Tree {
    proof fn lemma_set_state(&self, old_t: Tree, i: int, v: bool)
        requires
            old_t.wf(),
            0 <= i < old_t.names().len(),
            self.names() == old_t.names(),
            self.parents() == old_t.parents(),
            self.states() == old_t.states().update(i, v),
        ensures
            self.wf(),
            self.view() == old_t.view().insert(old_t.names()[i], (v, old_t.parents()[i])),
    {
        self.lemma_view_all();
        old_t.lemma_view_all();
        let target = old_t.view().insert(old_t.names()[i], (v, old_t.parents()[i]));
        assert forall|q: Seq<char>| #[trigger] self.view().contains_key(q) == target.contains_key(q) by {
            if old_t.names().contains(q) {
                let j = choose|j: int| 0 <= j < old_t.names().len() && old_t.names()[j] == q;
                assert(self.names()[j] == q);
            }
            if q == old_t.names()[i] {
                assert(old_t.names().contains(q));
            }
        }
        assert forall|q: Seq<char>| #[trigger] self.view().contains_key(q) implies self.view()[q] == target[q] by {
            let j = choose|j: int| 0 <= j < self.names().len() && self.names()[j] == q;
            assert(old_t.names()[j] == q);
            if j != i {
                assert(old_t.names()[j] != old_t.names()[i]);
            }
        }
        assert(self.view() =~= target);
    }

    /// Flips the switch `node` when every switch above it is on, returning its
    /// new state. When a switch above it is off (or missing), `node` is turned
    /// off and `false` returned; a missing `node` returns `false` and changes
    /// nothing. The walk up the tree must stop: some name above is off,
    /// missing, or the top is reached.
    pub fn toggle(&mut self, node: &str) -> (b: bool)
        requires
            old(self).wf(),
            old(self).view().contains_key(node@) ==> exists|i: nat| walk_stops_at(old(self).view(), node@, i),
        ensures
            final(self).wf(),
            !old(self).view().contains_key(node@) ==> !b && final(self).view() == old(self).view(),
            old(self).view().contains_key(node@) ==> forall|i: nat| #[trigger] walk_stops_at(old(self).view(), node@, i) ==>
                match anc(old(self).view(), node@, i) {
                    None => b == !old(self).view()[node@].0
                        && final(self).view() == old(self).view().insert(node@, (b, old(self).view()[node@].1)),
                    Some(_) => !b && final(self).view() == old(self).view().insert(node@, (false, old(self).view()[node@].1)),
                },
            b == lit(final(self).view(), node@),
            b ==> forall|j: nat| j >= 1 && #[trigger] anc(final(self).view(), node@, j) is Some
                ==> lit(final(self).view(), anc(final(self).view(), node@, j)->Some_0),
    {
        proof { self.lemma_view_all(); }
        let k = String::from_str(node);
        let idx = match self.find(&k) {
            None => {
                return false;
            },
            Some(i) => i,
        };
        let ghost m = self.view();
        proof { self.lemma_view_at(idx as int); }
        let ghost stop: nat = choose|i: nat| walk_stops_at(m, node@, i);
        let mut cur = idx;
        let ghost mut j: nat = 0;
        let mut blocked = false;
        loop
            invariant_except_break
                self.wf(),
                *self == *old(self),
                m == self.view(),
                cur < self.names().len(),
                anc(m, node@, j) == Some(self.names()[cur as int]),
                all_lit_below(m, node@, j + 1),
                walk_stops_at(m, node@, stop),
                j + 1 <= stop,
                !blocked,
            ensures
                self.wf(),
                *self == *old(self),
                walk_stops_at(m, node@, j + 1),
                blocked == (anc(m, node@, j + 1) is Some),
            decreases stop - j,
        {
            proof {
                lemma_anc_step(m, node@, j);
                self.lemma_view_at(cur as int);
            }
            match &self.fathers[cur] {
                None => {
                    assert(anc(m, node@, j + 1) is None);
                    break;
                },
                Some(f) => {
                    assert(anc(m, node@, j + 1) == Some(f@));
                    match self.find(f) {
                        None => {
                            blocked = true;
                            break;
                        },
                        Some(fi) => {
                            proof { self.lemma_view_at(fi as int); }
                            if !self.ons[fi] {
                                blocked = true;
                                break;
                            }
                            proof {
                                assert(lit(m, f@));
                                assert forall|q: nat| 1 <= q < j + 2 implies
                                    (#[trigger] anc(m, node@, q) matches Some(a) && lit(m, a)) by {
                                    if q < j + 1 {
                                        assert(all_lit_below(m, node@, j + 1));
                                    }
                                }
                                if stop <= j + 1 {
                                    assert(anc(m, node@, stop) matches Some(a) && lit(m, a));
                                }
                            }
                            cur = fi;
                            proof { j = j + 1; }
                        },
                    }
                },
            }
        }
        proof {
            assert forall|i: nat| #[trigger] walk_stops_at(m, node@, i) implies i == j + 1 by {
                if i < j + 1 {
                    assert(anc(m, node@, i) matches Some(a) && lit(m, a));
                } else if i > j + 1 {
                    assert(anc(m, node@, j + 1) matches Some(a) && lit(m, a));
                }
            }
        }
        let ghost before = *self;
        if blocked {
            self.ons.set(idx, false);
            proof { self.lemma_set_state(before, idx as int, false); }
            false
        } else {
            let v = !self.ons[idx];
            self.ons.set(idx, v);
            proof {
                self.lemma_set_state(before, idx as int, v);
                if v {
                    lemma_turned_on_path(m, node@, j + 1);
                }
            }
            v
        }
    }
}


/// How many entries are true.
pub open spec fn count_true(s: Seq<bool>) -> nat
    decreases s.len(),
{
    if s.len() == 0 {
        0
    } else {
        count_true(s.drop_last()) + (if s.last() { 1nat } else { 0nat })
    }
}

proof fn lemma_count_true(s: Seq<bool>, i: int)
    requires
        0 <= i < s.len(),
        !s[i],
    ensures
        count_true(s.update(i, true)) == count_true(s) + 1,
        count_true(s) < s.len(),
    decreases s.len(),
{
    let t = s.update(i, true);
    if i == s.len() - 1 {
        assert(t.drop_last() =~= s.drop_last());
        lemma_count_le(s.drop_last());
    } else {
        assert(t.drop_last() =~= s.drop_last().update(i, true));
        lemma_count_true(s.drop_last(), i);
    }
}

proof fn lemma_count_le(s: Seq<bool>)
    ensures
        count_true(s) <= s.len(),
    decreases s.len(),
{
    if s.len() > 0 {
        lemma_count_le(s.drop_last());
    }
}

impl Tree {
    /// Whether entry `i` has a parent that names a marked entry.
    pub closed spec fn father_marked(&self, marked: Seq<bool>, i: int) -> bool {
        self.parents()[i] matches Some(f) && exists|j: int| 0 <= j < marked.len() && marked[j] && self.names()[j] == f
    }

    /// Whether `k` is `node` or lies below it.
    pub open spec fn in_subtree(m: TreeMap, k: Seq<char>, node: Seq<char>) -> bool {
        exists|w: nat| #[trigger] anc(m, k, w) == Some(node)
    }

    proof fn lemma_closed(&self, marked: Seq<bool>, node_idx: int, k_idx: int, w: nat)
        requires
            self.wf(),
            marked.len() == self.names().len(),
            0 <= node_idx < marked.len(),
            marked[node_idx],
            0 <= k_idx < marked.len(),
            forall|i: int| 0 <= i < marked.len() && !marked[i] ==> !#[trigger] self.father_marked(marked, i),
            anc(self.view(), self.names()[k_idx], w) == Some(self.names()[node_idx]),
        ensures
            marked[k_idx],
        decreases w,
    {
        let m = self.view();
        reveal_with_fuel(anc, 2);
        self.lemma_view_at(k_idx);
        if w == 0 {
            assert(self.names()[k_idx] == self.names()[node_idx]);
        } else {
            let k = self.names()[k_idx];
            match father_of(m, k) {
                Some(a) => {
                    assert(self.parents()[k_idx] == Some(a));
                    if w == 1 {
                        assert(a == self.names()[node_idx]);
                        assert(self.father_marked(marked, k_idx));
                    } else {
                        assert(father_of(m, a) is Some);
                        assert(m.contains_key(a));
                        let a_idx = choose|j: int| 0 <= j < self.names().len() && self.names()[j] == a;
                        self.lemma_closed(marked, node_idx, a_idx, (w - 1) as nat);
                        assert(self.father_marked(marked, k_idx));
                    }
                },
                None => {},
            }
        }
    }

    fn name_is_marked(&self, marked: &Vec<bool>, f: &String) -> (b: bool)
        requires
            self.wf(),
            marked@.len() == self.names().len(),
        ensures
            b == exists|j: int| 0 <= j < marked@.len() && marked@[j] && self.names()[j] == f@,
    {
        let n = self.keys.len();
        let mut j: usize = 0;
        while j < n
            invariant
                n == self.keys@.len(),
                marked@.len() == n,
                j <= n,
                forall|q: int| 0 <= q < j ==> !(marked@[q] && #[trigger] self.names()[q] == f@),
            decreases n - j,
        {
            if marked[j] && self.keys[j] == *f {
                return true;
            }
            j = j + 1;
        }
        false
    }

    /// Removes `node` and every switch below it; nothing happens when `node`
    /// is missing. A `node` that lies below itself has no end to its
    /// subtree walk, so that case is excluded.
    pub fn remove(&mut self, node: &str)
        requires
            old(self).wf(),
            old(self).view().contains_key(node@) ==> !descends(old(self).view(), node@, node@),
        ensures
            final(self).wf(),
            !old(self).view().contains_key(node@) ==> final(self).view() == old(self).view(),
            old(self).view().contains_key(node@) ==> final(self).view()
                == old(self).view().remove_keys(subtree(old(self).view(), node@)),
    {
        proof { self.lemma_view_all(); }
        let k = String::from_str(node);
        let idx = match self.find(&k) {
            None => {
                return;
            },
            Some(i) => i,
        };
        let ghost m = self.view();
        let n = self.keys.len();
        let mut marked: Vec<bool> = Vec::new();
        let mut i: usize = 0;
        while i < n
            invariant
                n == self.keys@.len(),
                i <= n,
                idx < n,
                marked@.len() == i,
                forall|q: int| 0 <= q < i ==> #[trigger] marked@[q] == (q == idx),
            decreases n - i,
        {
            marked.push(i == idx);
            i = i + 1;
        }
        proof {
            reveal_with_fuel(anc, 1);
            assert(anc(m, self.names()[idx as int], 0) == Some(node@));
        }
        loop
            invariant
                self.wf(),
                *self == *old(self),
                m == self.view(),
                n == self.names().len(),
                idx < n,
                self.names()[idx as int] == node@,
                marked@.len() == n,
                marked@[idx as int],
                forall|q: int| 0 <= q < n && #[trigger] marked@[q] ==> Self::in_subtree(m, self.names()[q], node@),
            ensures
                self.wf(),
                *self == *old(self),
                marked@.len() == n,
                marked@[idx as int],
                forall|q: int| 0 <= q < n && #[trigger] marked@[q] ==> Self::in_subtree(m, self.names()[q], node@),
                forall|q: int| 0 <= q < n && !marked@[q] ==> !#[trigger] self.father_marked(marked@, q),
            decreases n - count_true(marked@),
        {
            let ghost start = marked@;
            let mut changed = false;
            let mut p: usize = 0;
            while p < n
                invariant
                    self.wf(),
                    *self == *old(self),
                    m == self.view(),
                    n == self.names().len(),
                    idx < n,
                    self.names()[idx as int] == node@,
                    marked@.len() == n,
                    marked@[idx as int],
                    p <= n,
                    forall|q: int| 0 <= q < n && #[trigger] marked@[q] ==> Self::in_subtree(m, self.names()[q], node@),
                    !changed ==> marked@ == start,
                    changed ==> count_true(marked@) > count_true(start),
                    count_true(marked@) >= count_true(start),
                    !changed ==> forall|q: int| 0 <= q < p && !marked@[q] ==> !#[trigger] self.father_marked(marked@, q),
                decreases n - p,
            {
                if !marked[p] {
                    match &self.fathers[p] {
                        Some(f) => {
                            if self.name_is_marked(&marked, f) {
                                let ghost before = marked@;
                                proof {
                                    let j = choose|j: int| 0 <= j < before.len() && before[j] && self.names()[j] == f@;
                                    let w = choose|w: nat| #[trigger] anc(m, self.names()[j], w) == Some(node@);
                                    self.lemma_view_at(p as int);
                                    assert(father_of(m, self.names()[p as int]) == Some(f@));
                                    assert(anc(m, self.names()[p as int], w + 1) == Some(node@));
                                    lemma_count_true(before, p as int);
                                }
                                marked.set(p, true);
                                changed = true;
                            }
                        },
                        None => {},
                    }
                }
                p = p + 1;
            }
            if !changed {
                break;
            }
            proof { lemma_count_le(marked@); }
        }
        proof {
            assert forall|q: int| 0 <= q < n implies (#[trigger] marked@[q]) == subtree(m, node@).contains(self.names()[q]) by {
                if subtree(m, node@).contains(self.names()[q]) {
                    let kq = self.names()[q];
                    if kq == node@ {
                        assert(q == idx as int);
                    } else {
                        let w = choose|w: nat| w >= 1 && #[trigger] anc(m, kq, w) == Some(node@);
                        self.lemma_closed(marked@, idx as int, q, w);
                    }
                }
                if marked@[q] {
                    let w = choose|w: nat| #[trigger] anc(m, self.names()[q], w) == Some(node@);
                    if w == 0 {
                        reveal_with_fuel(anc, 1);
                    }
                }
            }
        }
        let mut keys: Vec<String> = Vec::new();
        let mut ons: Vec<bool> = Vec::new();
        let mut fathers: Vec<Option<String>> = Vec::new();
        let ghost mut kept: Seq<int> = Seq::empty();
        let mut q: usize = 0;
        while q < n
            invariant
                self.wf(),
                *self == *old(self),
                m == self.view(),
                n == self.names().len(),
                marked@.len() == n,
                q <= n,
                keys@.len() == kept.len(),
                ons@.len() == kept.len(),
                fathers@.len() == kept.len(),
                forall|t: int| 0 <= t < kept.len() ==> 0 <= #[trigger] kept[t] < q && !marked@[kept[t]],
                forall|t: int, u: int| 0 <= t < u < kept.len() ==> kept[t] < kept[u],
                forall|r: int| 0 <= r < q && !marked@[r] ==> exists|t: int| 0 <= t < kept.len() && #[trigger] kept[t] == r,
                forall|t: int| 0 <= t < kept.len() ==> (#[trigger] keys@[t])@ == self.names()[kept[t]],
                forall|t: int| 0 <= t < kept.len() ==> #[trigger] ons@[t] == self.states()[kept[t]],
                forall|t: int| 0 <= t < kept.len() ==> opt_view(#[trigger] fathers@[t]) == self.parents()[kept[t]],
            decreases n - q,
        {
            if !marked[q] {
                let ghost old_keys = keys@;
                let ghost old_ons = ons@;
                let ghost old_fathers = fathers@;
                let kq = self.keys[q].clone();
                assert(kq@ == self.names()[q as int]);
                keys.push(kq);
                ons.push(self.ons[q]);
                let fq = match &self.fathers[q] {
                    Some(f) => Some(f.clone()),
                    None => None,
                };
                fathers.push(fq);
                assert(opt_view(fq) == self.parents()[q as int]);
                let ghost old_kept = kept;
                proof {
                    kept = kept.push(q as int);
                }
                assert forall|t: int| 0 <= t < kept.len() implies ((keys@[t])@ == self.names()[kept[t]]
                    && ons@[t] == self.states()[kept[t]]
                    && opt_view(fathers@[t]) == self.parents()[kept[t]]) by {
                    if t < old_kept.len() {
                        assert(keys@[t] == old_keys[t]);
                        assert(ons@[t] == old_ons[t]);
                        assert(fathers@[t] == old_fathers[t]);
                        assert(kept[t] == old_kept[t]);
                    }
                }
                assert forall|r: int| 0 <= r < q + 1 && !marked@[r] implies exists|t: int| 0 <= t < kept.len() && #[trigger] kept[t] == r by {
                    if r == q {
                        assert(kept[kept.len() - 1] == r);
                    } else {
                        let t = choose|t: int| 0 <= t < old_kept.len() && #[trigger] old_kept[t] == r;
                        assert(kept[t] == r);
                    }
                }
            }
            q = q + 1;
        }
        let ghost old_t = *self;
        self.keys = keys;
        self.ons = ons;
        self.fathers = fathers;
        proof {
            let sub = subtree(m, node@);
            assert(self.names().no_duplicates()) by {
                assert forall|a: int, b: int| 0 <= a < self.names().len() && 0 <= b < self.names().len() && a != b
                    implies self.names()[a] != self.names()[b] by {
                    assert(self.names()[a] == old_t.names()[kept[a]]);
                    assert(self.names()[b] == old_t.names()[kept[b]]);
                    if a < b {
                        assert(kept[a] < kept[b]);
                    } else {
                        assert(kept[b] < kept[a]);
                    }
                }
            }
            self.lemma_view_all();
            old_t.lemma_view_all();
            let target = m.remove_keys(sub);
            assert forall|x: Seq<char>| #[trigger] self.view().contains_key(x) == target.contains_key(x) by {
                if self.view().contains_key(x) {
                    let t = choose|t: int| 0 <= t < self.names().len() && self.names()[t] == x;
                    assert(self.names()[t] == old_t.names()[kept[t]]);
                    old_t.lemma_view_at(kept[t]);
                    assert(!marked@[kept[t]]);
                }
                if target.contains_key(x) {
                    let r = choose|r: int| 0 <= r < old_t.names().len() && old_t.names()[r] == x;
                    assert(!marked@[r]);
                    let t = choose|t: int| 0 <= t < kept.len() && #[trigger] kept[t] == r;
                    assert(self.names()[t] == x);
                }
            }
            assert forall|x: Seq<char>| #[trigger] self.view().contains_key(x) implies self.view()[x] == target[x] by {
                let t = choose|t: int| 0 <= t < self.names().len() && self.names()[t] == x;
                assert(self.names()[t] == old_t.names()[kept[t]]);
                old_t.lemma_view_at(kept[t]);
            }
            assert(self.view() =~= target);
        }
    }
}


/// One character of a name as the debug notation of a string writes it:
/// quotes, backslashes and the common control characters are escaped.
pub open spec fn escaped(c: char) -> Seq<char> {
    if c == '"' {
        seq!['\\', '"']
    } else if c == '\\' {
        seq!['\\', '\\']
    } else if c == '\n' {
        seq!['\\', 'n']
    } else if c == '\r' {
        seq!['\\', 'r']
    } else if c == '\t' {
        seq!['\\', 't']
    } else if c == '\0' {
        seq!['\\', '0']
    } else {
        seq![c]
    }
}

pub open spec fn escaped_all(s: Seq<char>) -> Seq<char>
    decreases s.len(),
{
    if s.len() == 0 {
        Seq::empty()
    } else {
        escaped_all(s.drop_last()) + escaped(s.last())
    }
}

/// A name in quotes, escaped.
pub open spec fn quoted(s: Seq<char>) -> Seq<char> {
    seq!['"'] + escaped_all(s) + seq!['"']
}

/// `Node { on: <bool>, father: None }` or `Node { on: <bool>, father: Some("<name>") }`.
pub open spec fn node_text(on: bool, father: Option<Seq<char>>) -> Seq<char> {
    "Node { on: "@ + (if on { "true"@ } else { "false"@ }) + ", father: "@
        + match father {
            Some(f) => "Some("@ + quoted(f) + ")"@,
            None => "None"@,
        } + " }"@
}

/// The entries from the first up to `n`, each as `"<name>": <node>`, separated by `", "`.
pub open spec fn entries_text(names: Seq<Seq<char>>, states: Seq<bool>, parents: Seq<Option<Seq<char>>>, n: int) -> Seq<char>
    decreases n,
{
    if n <= 0 {
        Seq::empty()
    } else {
        entries_text(names, states, parents, n - 1) + (if n > 1 { ", "@ } else { Seq::empty() })
            + quoted(names[n - 1]) + ": "@ + node_text(states[n - 1], parents[n - 1])
    }
}

fn push_quoted(out: &mut String, s: &String)
    ensures
        final(out)@ == old(out)@ + quoted(s@),
{
    let cs = crate::text::chars_of(s.as_str());
    push_char(out, '"');
    let n = cs.len();
    let mut i: usize = 0;
    while i < n
        invariant
            n == cs@.len(),
            cs@ == s@,
            i <= n,
            out@ == old(out)@ + seq!['"'] + escaped_all(cs@.subrange(0, i as int)),
        decreases n - i,
    {
        let c = cs[i];
        if c == '"' {
            push_char(out, '\\');
            push_char(out, '"');
        } else if c == '\\' {
            push_char(out, '\\');
            push_char(out, '\\');
        } else if c == '\n' {
            push_char(out, '\\');
            push_char(out, 'n');
        } else if c == '\r' {
            push_char(out, '\\');
            push_char(out, 'r');
        } else if c == '\t' {
            push_char(out, '\\');
            push_char(out, 't');
        } else if c == '\0' {
            push_char(out, '\\');
            push_char(out, '0');
        } else {
            push_char(out, c);
        }
        proof {
            assert(cs@.subrange(0, i + 1).drop_last() =~= cs@.subrange(0, i as int));
            assert(out@ =~= old(out)@ + seq!['"'] + escaped_all(cs@.subrange(0, i + 1)));
        }
        i = i + 1;
    }
    push_char(out, '"');
    assert(cs@.subrange(0, n as int) =~= s@);
    assert(out@ =~= old(out)@ + quoted(s@));
}

fn push_entry(s: &mut String, key: &String, on: bool, father: &Option<String>)
    ensures
        final(s)@ == old(s)@ + quoted(key@) + ": "@ + node_text(on, opt_view(*father)),
{
    push_quoted(s, key);
    push_str(s, ": ");
    push_str(s, "Node { on: ");
    if on {
        push_str(s, "true");
    } else {
        push_str(s, "false");
    }
    push_str(s, ", father: ");
    match father {
        Some(f) => {
            push_str(s, "Some(");
            push_quoted(s, f);
            push_str(s, ")");
        },
        None => {
            push_str(s, "None");
        },
    }
    push_str(s, " }");
    assert(s@ =~= old(s)@ + quoted(key@) + ": "@ + node_text(on, opt_view(*father)));
}

impl Tree {
    /// The map in debug notation, entries in insertion order:
    /// `{"test": Node { on: false, father: None }}`.
    pub fn to_string(&self) -> (s: String)
        requires
            self.wf(),
        ensures
            s@ == seq!['{'] + entries_text(self.names(), self.states(), self.parents(), self.names().len() as int) + seq!['}'],
            s@ == tree_text(*self),
    {
        let mut s = String::new();
        push_char(&mut s, '{');
        let n = self.keys.len();
        let mut i: usize = 0;
        while i < n
            invariant
                self.wf(),
                n == self.names().len(),
                i <= n,
                s@ == seq!['{'] + entries_text(self.names(), self.states(), self.parents(), i as int),
            decreases n - i,
        {
            if i > 0 {
                push_str(&mut s, ", ");
            }
            push_entry(&mut s, &self.keys[i], self.ons[i], &self.fathers[i]);
            proof {
                reveal_strlit(", ");
                assert(self.parents()[i as int] == opt_view(self.fathers@[i as int]));
                assert(s@ =~= seq!['{'] + entries_text(self.names(), self.states(), self.parents(), i + 1));
            }
            i = i + 1;
        }
        push_char(&mut s, '}');
        s
    }
}

/// The text rendering of a tree, as [`Tree::to_string`] gives it.
pub open spec fn tree_text(t: Tree) -> Seq<char> {
    seq!['{'] + entries_text(t.names(), t.states(), t.parents(), t.names().len() as int) + seq!['}']
}

/// One entry of the rendering.
pub open spec fn entry_text(name: Seq<char>, on: bool, father: Option<Seq<char>>) -> Seq<char> {
    quoted(name) + ": "@ + node_text(on, father)
}

proof fn lemma_entries_prefix(
    n1: Seq<Seq<char>>, s1: Seq<bool>, p1: Seq<Option<Seq<char>>>,
    n2: Seq<Seq<char>>, s2: Seq<bool>, p2: Seq<Option<Seq<char>>>,
    k: int,
)
    requires
        0 <= k <= n1.len(), k <= n2.len(), k <= s1.len(), k <= s2.len(), k <= p1.len(), k <= p2.len(),
        forall|i: int| 0 <= i < k ==> n1[i] == n2[i] && s1[i] == s2[i] && p1[i] == p2[i],
    ensures
        entries_text(n1, s1, p1, k) == entries_text(n2, s2, p2, k),
    decreases k,
{
    if k > 0 {
        lemma_entries_prefix(n1, s1, p1, n2, s2, p2, k - 1);
    }
}

/// Law: the rendering lists the entries separated by `", "`. Adding a new
/// switch to a tree (which always has its root) gives the old rendering with
/// its closing `}` replaced by `", "`, the new entry (off, below its parent)
/// and `}`: so every entry after the first is preceded by exactly one `", "`.
pub proof fn lemma_render_after_add(t1: Tree, t2: Tree, father: Seq<char>, node: Seq<char>)
    requires
        t1.wf(),
        t1.names().len() >= 1,
        t2.names() == t1.names().push(node),
        t2.states() == t1.states().push(false),
        t2.parents() == t1.parents().push(Some(father)),
    ensures
        tree_text(t2) == tree_text(t1).drop_last() + ", "@ + entry_text(node, false, Some(father)) + seq!['}'],
{
    let n = t1.names().len() as int;
    lemma_entries_prefix(t1.names(), t1.states(), t1.parents(), t2.names(), t2.states(), t2.parents(), n);
    let e1 = entries_text(t1.names(), t1.states(), t1.parents(), n);
    assert(tree_text(t1).drop_last() =~= seq!['{'] + e1);
    assert(t2.names()[n] == node && t2.states()[n] == false && t2.parents()[n] == Some(father));
    assert(tree_text(t2) =~= tree_text(t1).drop_last() + ", "@ + entry_text(node, false, Some(father)) + seq!['}']);
}

} // verus!
