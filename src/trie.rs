//! A prefix tree keyed by code points.
//!
//! Each node holds an optional payload and its children, one per next code
//! point, in increasing order of code point so that a child is found by
//! binary search. The payload of the node reached by walking a
//! key is the value stored at that key. The root never holds a payload: the
//! empty key is not a valid key.
use vstd::prelude::*;

use crate::text::chars_of;

verus! {

pub struct CharTrie<T> {
    value: Option<T>,
    children: Vec<(char, CharTrie<T>)>,
}

/// The prefix tree under its shorter name.
pub type Trie<T> = CharTrie<T>;

impl<T> Default for CharTrie<T> {
    fn default() -> (r: Self)
        ensures
            r.wf(),
            r@ == Map::<Seq<char>, T>::empty(),
    {
        CharTrie::new()
    }
}

/// Position of the child labelled `c` among `cs`, or -1 (searching from the end).
pub open spec fn index_of<T>(cs: Seq<(char, CharTrie<T>)>, c: char) -> int
    decreases cs.len(),
{
    if cs.len() == 0 {
        -1
    } else if cs.last().0 == c {
        cs.len() - 1
    } else {
        index_of(cs.drop_last(), c)
    }
}

/// The values behind a sequence of references.
pub open spec fn deref_seq<T>(s: Seq<&T>) -> Seq<T> {
    s.map_values(|r: &T| *r)
}

/// The empty key where `o` holds a payload.
pub open spec fn option_key<T>(o: Option<T>) -> Seq<Seq<char>> {
    match o {
        Some(_) => seq![Seq::<char>::empty()],
        None => Seq::empty(),
    }
}

/// The payload sequence `o` contributes: empty or one element.
pub open spec fn option_seq<T>(o: Option<T>) -> Seq<T> {
    match o {
        Some(v) => seq![v],
        None => Seq::empty(),
    }
}

impl<T> CharTrie<T> {
    /// The node reached from this one by walking `key`, if it exists.
    pub closed spec fn node_at(self, key: Seq<char>) -> Option<CharTrie<T>>
        decreases key.len(),
    {
        if key.len() == 0 {
            Some(self)
        } else {
            let i = index_of(self.children@, key[0]);
            if 0 <= i < self.children@.len() {
                self.children@[i].1.node_at(key.drop_first())
            } else {
                None
            }
        }
    }

    /// The payload stored at `key` below this node (the node's own payload for the empty key).
    pub closed spec fn value_at(self, key: Seq<char>) -> Option<T> {
        match self.node_at(key) {
            Some(n) => n.value,
            None => None,
        }
    }

    /// The map from keys to payloads.
    pub closed spec fn view(self) -> Map<Seq<char>, T> {
        Map::new(
            |k: Seq<char>| k.len() > 0 && self.value_at(k) is Some,
            |k: Seq<char>| self.value_at(k)->0,
        )
    }

    /// Payloads of the subtrees of the first `n` children, each in depth-first order.
    pub closed spec fn children_values(self, n: int) -> Seq<T>
        decreases self, n,
    {
        if n <= 0 || n > self.children@.len() {
            Seq::empty()
        } else {
            let child = self.children@[n - 1].1;
            self.children_values(n - 1) + option_seq(child.value) + child.children_values(
                child.children@.len() as int,
            )
        }
    }

    /// Keys, relative to this node, of the payloads of the first `n`
    /// children's subtrees, in the order `children_values` lists them.
    pub closed spec fn children_keys(self, n: int) -> Seq<Seq<char>>
        decreases self, n,
    {
        if n <= 0 || n > self.children@.len() {
            Seq::empty()
        } else {
            let (c, child) = self.children@[n - 1];
            self.children_keys(n - 1) + (option_key(child.value) + child.children_keys(
                child.children@.len() as int,
            )).map_values(|k: Seq<char>| seq![c] + k)
        }
    }

    /// Every payload of this subtree in depth-first order: own payload first,
    /// then each child's subtree in child order.
    pub closed spec fn values(self) -> Seq<T> {
        option_seq(self.value) + self.children_values(self.children@.len() as int)
    }

    /// Payloads of every key that starts with `prefix`, in depth-first order.
    pub closed spec fn values_with_prefix(self, prefix: Seq<char>) -> Seq<T> {
        match self.node_at(prefix) {
            Some(n) => if prefix.len() == 0 {
                n.children_values(n.children@.len() as int)
            } else {
                n.values()
            },
            None => Seq::empty(),
        }
    }

    /// Child labels are strictly increasing, hence distinct, at every node.
    pub closed spec fn wf(self) -> bool
        decreases self,
    {
        &&& forall|i: int, j: int|
            0 <= i < j < self.children@.len() ==> self.children@[i].0 < self.children@[j].0
        &&& forall|i: int| 0 <= i < self.children@.len() ==> (#[trigger] self.children@[i]).1.wf()
    }

    /// The position of the child labelled `c`, or, when there is none, the
    /// position where such a child would keep the labels in order.
    fn search_child(&self, c: char) -> (r: Result<usize, usize>)
        requires
            self.wf(),
        ensures
            match r {
                Ok(i) => i == index_of(self.children@, c) && i < self.children@.len(),
                Err(p) => {
                    &&& index_of(self.children@, c) == -1
                    &&& p <= self.children@.len()
                    &&& forall|j: int| 0 <= j < p ==> self.children@[j].0 < c
                    &&& forall|j: int| p <= j < self.children@.len() ==> c < self.children@[j].0
                },
            },
    {
        let mut lo: usize = 0;
        let mut hi: usize = self.children.len();
        while lo < hi
            invariant
                lo <= hi <= self.children@.len(),
                self.wf(),
                forall|j: int| 0 <= j < lo ==> self.children@[j].0 < c,
                forall|j: int| hi <= j < self.children@.len() ==> c < self.children@[j].0,
            decreases hi - lo,
        {
            let mid = lo + (hi - lo) / 2;
            let label = self.children[mid].0;
            if label == c {
                proof {
                    lemma_index_of_at(self.children@, c, mid as int);
                }
                return Ok(mid);
            } else if label < c {
                lo = mid + 1;
            } else {
                hi = mid;
            }
        }
        proof {
            lemma_index_of(self.children@, c);
        }
        Err(lo)
    }

    /// The node reached by walking `key[start..]`.
    fn node_from<'a>(&'a self, key: &Vec<char>, start: usize) -> (r: Option<&'a CharTrie<T>>)
        requires
            self.wf(),
            start <= key@.len(),
        ensures
            match r {
                Some(n) => self.node_at(key@.subrange(start as int, key@.len() as int)) == Some(
                    *n,
                ) && n.wf(),
                None => self.node_at(key@.subrange(start as int, key@.len() as int)) is None,
            },
        decreases key@.len() - start,
    {
        let ghost rest = key@.subrange(start as int, key@.len() as int);
        if start == key.len() {
            return Some(self);
        }
        match self.search_child(key[start]) {
            Ok(i) => {
                assert(rest.drop_first() =~= key@.subrange(start + 1, key@.len() as int));
                assert(self.children@[i as int].1.wf());
                self.children[i].1.node_from(key, start + 1)
            },
            Err(_) => None,
        }
    }

    /// One step of a walk: a non-empty key goes through the child labelled by its first code point.
    proof fn lemma_value_at_step(self, s: Seq<char>)
        requires
            s.len() > 0,
        ensures
            self.value_at(s) == ({
                let i = index_of(self.children@, s[0]);
                if 0 <= i < self.children@.len() {
                    self.children@[i].1.value_at(s.drop_first())
                } else {
                    None
                }
            }),
    {
    }

    /// Puts `value` in the slot at `key[start..]` below this node, creating
    /// the path as needed, and returns what the slot held.
    fn replace_from(&mut self, key: &Vec<char>, start: usize, value: Option<T>) -> (r: Option<T>)
        requires
            old(self).wf(),
            start <= key@.len(),
        ensures
            r == old(self).value_at(key@.subrange(start as int, key@.len() as int)),
            final(self).wf(),
            forall|s: Seq<char>|
                #[trigger] final(self).value_at(s) == if s == key@.subrange(
                    start as int,
                    key@.len() as int,
                ) {
                    value
                } else {
                    old(self).value_at(s)
                },
        decreases key@.len() - start,
    {
        let ghost old_self = *self;
        let ghost rest = key@.subrange(start as int, key@.len() as int);
        if start == key.len() {
            let r = self.value.take();
            self.value = value;
            proof {
                assert forall|s: Seq<char>|
                    #[trigger] self.value_at(s) == if s == rest {
                        value
                    } else {
                        old_self.value_at(s)
                    } by {
                    if s.len() > 0 {
                        self.lemma_value_at_step(s);
                        old_self.lemma_value_at_step(s);
                    } else {
                        assert(s =~= rest);
                    }
                }
            }
            return r;
        }
        let c = key[start];
        match self.search_child(c) {
            Ok(i) => {
                assert(self.children@[i as int].1.wf());
                let ghost old_child = self.children@[i as int].1;
                let r = self.children[i].1.replace_from(key, start + 1, value);
                proof {
                    let cs = old_self.children@;
                    let ds = self.children@;
                    lemma_index_of(cs, c);
                    old_self.lemma_value_at_step(rest);
                    assert(rest.drop_first() =~= key@.subrange(start + 1, key@.len() as int));
                    assert(ds =~= cs.update(i as int, (c, ds[i as int].1)));
                    assert forall|s: Seq<char>|
                        #[trigger] self.value_at(s) == if s == rest {
                            value
                        } else {
                            old_self.value_at(s)
                        } by {
                        if s.len() > 0 {
                            self.lemma_value_at_step(s);
                            old_self.lemma_value_at_step(s);
                            lemma_index_of_same_labels(cs, ds, s[0]);
                            if s[0] == c {
                                assert(s.drop_first() == key@.subrange(start + 1, key@.len() as int)
                                    <==> s == rest) by {
                                    if s == rest {
                                        assert(s.drop_first() =~= key@.subrange(
                                            start + 1,
                                            key@.len() as int,
                                        ));
                                    }
                                    if s.drop_first() == key@.subrange(
                                        start + 1,
                                        key@.len() as int,
                                    ) {
                                        assert(s =~= seq![c] + s.drop_first());
                                        assert(rest =~= seq![c] + key@.subrange(
                                            start + 1,
                                            key@.len() as int,
                                        ));
                                    }
                                }
                                assert(index_of(cs, c) == i);
                                assert(old_child == cs[i as int].1);
                                assert(self.value_at(s) == ds[i as int].1.value_at(s.drop_first()));
                                assert(old_self.value_at(s) == old_child.value_at(s.drop_first()));
                            } else {
                                assert(s != rest);
                                lemma_index_of(cs, s[0]);
                                let k = index_of(cs, s[0]);
                                if 0 <= k < cs.len() {
                                    assert(k != i);
                                    assert(ds[k] == cs[k]);
                                }
                            }
                        } else {
                            assert(s != rest);
                        }
                    }
                    assert forall|j: int| 0 <= j < ds.len() implies (#[trigger] ds[j]).1.wf() by {
                        if j != i {
                            assert(ds[j] == cs[j]);
                        }
                    }
                }
                r
            },
            Err(pos) => {
                let mut child = CharTrie::new();
                let ghost fresh = child;
                let r = child.replace_from(key, start + 1, value);
                self.children.insert(pos, (c, child));
                proof {
                    let cs = old_self.children@;
                    let ds = self.children@;
                    lemma_index_of(cs, c);
                    old_self.lemma_value_at_step(rest);
                    assert(rest.drop_first() =~= key@.subrange(start + 1, key@.len() as int));
                    assert(ds =~= cs.insert(pos as int, (c, child)));
                    assert forall|a: int, b: int| 0 <= a < b < ds.len() implies ds[a].0 < ds[b].0 by {
                        if b < pos {
                            assert(ds[a] == cs[a] && ds[b] == cs[b]);
                        } else if b == pos {
                            assert(ds[a] == cs[a]);
                        } else if a < pos {
                            assert(ds[a] == cs[a] && ds[b] == cs[b - 1]);
                        } else if a == pos {
                            assert(ds[b] == cs[b - 1]);
                        } else {
                            assert(ds[a] == cs[a - 1] && ds[b] == cs[b - 1]);
                        }
                    }
                    assert forall|j: int| 0 <= j < ds.len() implies (#[trigger] ds[j]).1.wf() by {
                        if j < pos {
                            assert(ds[j] == cs[j]);
                        } else if j > pos {
                            assert(ds[j] == cs[j - 1]);
                        }
                    }
                    lemma_index_of_at(ds, c, pos as int);
                    assert forall|s: Seq<char>|
                        #[trigger] self.value_at(s) == if s == rest {
                            value
                        } else {
                            old_self.value_at(s)
                        } by {
                        if s.len() > 0 {
                            self.lemma_value_at_step(s);
                            old_self.lemma_value_at_step(s);
                            if s[0] == c {
                                assert(s.drop_first() == key@.subrange(start + 1, key@.len() as int)
                                    <==> s == rest) by {
                                    if s == rest {
                                        assert(s.drop_first() =~= key@.subrange(
                                            start + 1,
                                            key@.len() as int,
                                        ));
                                    }
                                    if s.drop_first() == key@.subrange(
                                        start + 1,
                                        key@.len() as int,
                                    ) {
                                        assert(s =~= seq![c] + s.drop_first());
                                        assert(rest =~= seq![c] + key@.subrange(
                                            start + 1,
                                            key@.len() as int,
                                        ));
                                    }
                                }
                                assert(self.value_at(s) == child.value_at(s.drop_first()));
                                assert(old_self.value_at(s) is None);
                                assert(fresh.value_at(s.drop_first()) is None);
                                if s == rest {
                                    assert(self.value_at(s) == value);
                                } else {
                                    assert(self.value_at(s) is None);
                                }
                            } else {
                                assert(s != rest);
                                lemma_index_of(cs, s[0]);
                                let k = index_of(cs, s[0]);
                                if 0 <= k < cs.len() {
                                    let k2 = if k < pos { k } else { k + 1 };
                                    assert(ds[k2] == cs[k]);
                                    lemma_index_of_at(ds, s[0], k2);
                                } else {
                                    assert forall|j: int| 0 <= j < ds.len() implies ds[j].0 != s[0] by {
                                        if j < pos {
                                            assert(ds[j] == cs[j]);
                                        } else if j > pos {
                                            assert(ds[j] == cs[j - 1]);
                                        }
                                    }
                                    lemma_index_of(ds, s[0]);
                                }
                                assert(self.value_at(s) == old_self.value_at(s));
                            }
                        } else {
                            assert(s != rest);
                        }
                    }
                }
                r
            },
        }
    }

    /// The view, read through the closed definitions.
    proof fn lemma_view(self, k: Seq<char>)
        ensures
            self@.contains_key(k) <==> k.len() > 0 && self.value_at(k) is Some,
            self@.contains_key(k) ==> self@[k] == self.value_at(k)->0,
    {
    }

    /// An empty trie whose first level is sized for `capacity` children.
    pub fn with_capacity(capacity: usize) -> (r: Self)
        ensures
            r.wf(),
            r@ == Map::<Seq<char>, T>::empty(),
    {
        let r = CharTrie { value: None, children: Vec::with_capacity(capacity) };
        proof {
            assert(r@ =~= Map::<Seq<char>, T>::empty()) by {
                assert forall|k: Seq<char>| k.len() > 0 implies r.value_at(k) is None by {
                    r.lemma_value_at_step(k);
                }
            }
        }
        r
    }

    /// The payload stored at `key`; none for the empty key.
    pub fn get(&self, key: &str) -> (r: Option<&T>)
        requires
            self.wf(),
        ensures
            match r {
                Some(v) => self@.contains_key(key@) && self@[key@] == *v,
                None => !self@.contains_key(key@),
            },
    {
        let cs = chars_of(key);
        proof {
            self.lemma_view(key@);
            assert(cs@.subrange(0, cs@.len() as int) =~= key@);
        }
        if cs.len() == 0 {
            return None;
        }
        match self.node_from(&cs, 0) {
            Some(n) => match &n.value {
                Some(v) => Some(v),
                None => None,
            },
            None => None,
        }
    }

    /// Stores `value` at `key`, replacing what was there; the empty key stores nothing.
    pub fn push(&mut self, key: &str, value: T)
        requires
            old(self).wf(),
        ensures
            final(self).wf(),
            final(self)@ == if key@.len() == 0 {
                old(self)@
            } else {
                old(self)@.insert(key@, value)
            },
    {
        let cs = chars_of(key);
        if cs.len() == 0 {
            return;
        }
        let ghost before = *self;
        let _ = self.replace_from(&cs, 0, Some(value));
        proof {
            assert(cs@.subrange(0, cs@.len() as int) =~= key@);
            assert(self@ =~= before@.insert(key@, value)) by {
                assert forall|k: Seq<char>| #[trigger] self@.contains_key(k) == before@.insert(key@, value).contains_key(k) by {
                    self.lemma_view(k);
                    before.lemma_view(k);
                }
                assert forall|k: Seq<char>| #[trigger] self@.contains_key(k) implies self@[k] == before@.insert(key@, value)[k] by {
                    self.lemma_view(k);
                    before.lemma_view(k);
                }
            }
        }
    }

    /// Removes the payload stored at `key` and returns it.
    pub fn take(&mut self, key: &str) -> (r: Option<T>)
        requires
            old(self).wf(),
        ensures
            final(self).wf(),
            r == if old(self)@.contains_key(key@) { Some(old(self)@[key@]) } else { None::<T> },
            final(self)@ == old(self)@.remove(key@),
    {
        let cs = chars_of(key);
        proof {
            self.lemma_view(key@);
        }
        if cs.len() == 0 {
            proof {
                assert(self@ =~= self@.remove(key@));
            }
            return None;
        }
        let ghost before = *self;
        let r = self.replace_from(&cs, 0, None);
        proof {
            assert(cs@.subrange(0, cs@.len() as int) =~= key@);
            assert(self@ =~= before@.remove(key@)) by {
                assert forall|k: Seq<char>| #[trigger] self@.contains_key(k) == before@.remove(key@).contains_key(k) by {
                    self.lemma_view(k);
                    before.lemma_view(k);
                }
                assert forall|k: Seq<char>| #[trigger] self@.contains_key(k) implies self@[k] == before@.remove(key@)[k] by {
                    self.lemma_view(k);
                    before.lemma_view(k);
                }
            }
        }
        r
    }

    /// Appends the payloads of every child subtree, depth first, to `out`.
    fn collect_children<'a>(&'a self, out: &mut Vec<&'a T>)
        ensures
            deref_seq(final(out)@) == deref_seq(old(out)@) + self.children_values(
                self.children@.len() as int,
            ),
        decreases self,
    {
        let mut i: usize = 0;
        while i < self.children.len()
            invariant
                i <= self.children@.len(),
                deref_seq(out@) == deref_seq(old(out)@) + self.children_values(i as int),
            decreases self.children@.len() - i,
        {
            let child = &self.children[i].1;
            assert(decreases_to!(self => self.children@[i as int].1)) by {
                assert(decreases_to!(self => self.children));
                assert(decreases_to!(self.children => self.children@));
                assert(decreases_to!(self.children@ => self.children@[i as int]));
            }
            let ghost before = deref_seq(out@);
            match &child.value {
                Some(v) => {
                    out.push(v);
                    assert(deref_seq(out@) =~= before.push(*v));
                },
                None => {},
            }
            assert(deref_seq(out@) =~= before + option_seq(child.value));
            child.collect_children(out);
            i += 1;
            assert(deref_seq(out@) =~= deref_seq(old(out)@) + self.children_values(i as int));
        }
    }

    /// The payloads of every key that starts with `prefix`, depth first; the
    /// empty prefix gives every payload.
    pub fn get_prefix<'a>(&'a self, prefix: &str) -> (r: Vec<&'a T>)
        requires
            self.wf(),
        ensures
            deref_seq(r@) == self.values_with_prefix(prefix@),
    {
        let cs = chars_of(prefix);
        let mut out: Vec<&'a T> = Vec::new();
        proof {
            assert(cs@.subrange(0, cs@.len() as int) =~= prefix@);
        }
        assert(deref_seq(out@) =~= Seq::<T>::empty());
        match self.node_from(&cs, 0) {
            Some(n) => {
                if cs.len() > 0 {
                    match &n.value {
                        Some(v) => {
                            out.push(v);
                            assert(deref_seq(out@) =~= seq![*v]);
                        },
                        None => {},
                    }
                }
                n.collect_children(&mut out);
                assert(deref_seq(out@) =~= self.values_with_prefix(prefix@));
            },
            None => {},
        }
        out
    }

    pub fn new() -> (r: Self)
        ensures
            r.wf(),
            r@ == Map::<Seq<char>, T>::empty(),
            forall|s: Seq<char>| #[trigger] r.value_at(s) is None,
    {
        let r = CharTrie { value: None, children: Vec::new() };
        proof {
            assert forall|s: Seq<char>| #[trigger] r.value_at(s) is None by {
                if s.len() > 0 {
                    r.lemma_value_at_step(s);
                }
            }
            assert(r@ =~= Map::<Seq<char>, T>::empty()) by {
                assert forall|k: Seq<char>| k.len() > 0 implies r.value_at(k) is None by {
                    assert(index_of(r.children@, k[0]) == -1);
                }
            }
        }
        r
    }
}

/// The payload of child `j`'s subtree lies within the payloads of the first `n > j` children.
proof fn lemma_child_values_in<T>(t: CharTrie<T>, j: int, n: int, x: T)
    requires
        0 <= j < n <= t.children@.len(),
        t.children@[j].1.values().contains(x),
    ensures
        t.children_values(n).contains(x),
    decreases n,
{
    let child = t.children@[n - 1].1;
    let left = t.children_values(n - 1);
    let own = option_seq(child.value) + child.children_values(child.children@.len() as int);
    assert(t.children_values(n) == left + own);
    if j == n - 1 {
        let k = choose|k: int| 0 <= k < own.len() && own[k] == x;
        assert((left + own)[left.len() + k] == x);
    } else {
        lemma_child_values_in(t, j, n - 1, x);
        let k = choose|k: int| 0 <= k < left.len() && left[k] == x;
        assert((left + own)[k] == x);
    }
}

/// Every stored payload is enumerated: the payload at the empty key among the
/// node's own, any other among its children's subtrees.
proof fn lemma_value_enumerated<T>(t: CharTrie<T>, s: Seq<char>)
    requires
        t.value_at(s) is Some,
    ensures
        s.len() == 0 ==> option_seq(t.value).contains(t.value_at(s)->0),
        s.len() > 0 ==> t.children_values(t.children@.len() as int).contains(t.value_at(s)->0),
        t.values().contains(t.value_at(s)->0),
    decreases s.len(),
{
    let x = t.value_at(s)->0;
    let own = option_seq(t.value);
    let rest = t.children_values(t.children@.len() as int);
    if s.len() == 0 {
        assert(own[0] == x);
        assert((own + rest)[0] == x);
    } else {
        t.lemma_value_at_step(s);
        let i = index_of(t.children@, s[0]);
        let child = t.children@[i].1;
        lemma_value_enumerated(child, s.drop_first());
        lemma_child_values_in(t, i, t.children@.len() as int, x);
        let k = choose|k: int| 0 <= k < rest.len() && rest[k] == x;
        assert((own + rest)[own.len() + k] == x);
    }
}

/// Walking `p` then `q` reaches the node that walking `p + q` reaches.
proof fn lemma_node_at_concat<T>(t: CharTrie<T>, p: Seq<char>, q: Seq<char>)
    ensures
        t.node_at(p + q) == match t.node_at(p) {
            Some(n) => n.node_at(q),
            None => None,
        },
    decreases p.len(),
{
    if p.len() > 0 {
        assert((p + q).drop_first() =~= p.drop_first() + q);
        assert((p + q)[0] == p[0]);
        let i = index_of(t.children@, p[0]);
        if 0 <= i < t.children@.len() {
            lemma_node_at_concat(t.children@[i].1, p.drop_first(), q);
        }
    } else {
        assert(p + q =~= q);
    }
}

/// A payload among the first `n` children's subtrees lies in one of them.
proof fn lemma_children_values_from<T>(t: CharTrie<T>, n: int, x: T)
    requires
        0 <= n <= t.children@.len(),
        t.children_values(n).contains(x),
    ensures
        exists|j: int| 0 <= j < n && (#[trigger] t.children@[j]).1.values().contains(x),
    decreases n,
{
    let child = t.children@[n - 1].1;
    let left = t.children_values(n - 1);
    let own = option_seq(child.value) + child.children_values(child.children@.len() as int);
    assert(t.children_values(n) == left + own);
    let k = choose|k: int| 0 <= k < (left + own).len() && (left + own)[k] == x;
    if k < left.len() {
        assert(left[k] == x);
        lemma_children_values_from(t, n - 1, x);
    } else {
        assert(own[k - left.len()] == x);
        assert(child.values() == own);
    }
}

/// Soundness of enumeration: every enumerated payload is stored at some key,
/// a non-empty one when it comes from a child's subtree.
proof fn lemma_value_sound<T>(t: CharTrie<T>, x: T, from_children: bool)
    requires
        t.wf(),
        from_children ==> t.children_values(t.children@.len() as int).contains(x),
        !from_children ==> t.values().contains(x),
    ensures
        exists|s: Seq<char>| (from_children ==> s.len() > 0) && #[trigger] t.value_at(s) == Some(x),
    decreases t, 0nat,
{
    let rest = t.children_values(t.children@.len() as int);
    let own = option_seq(t.value);
    if !from_children && !rest.contains(x) {
        let k = choose|k: int| 0 <= k < (own + rest).len() && (own + rest)[k] == x;
        if k >= own.len() {
            assert(rest[k - own.len()] == x);
        }
        assert(own[k] == x);
        assert(t.value_at(Seq::empty()) == Some(x));
    } else {
        lemma_children_values_from(t, t.children@.len() as int, x);
        let j = choose|j: int|
            0 <= j < t.children@.len() && (#[trigger] t.children@[j]).1.values().contains(x);
        let child = t.children@[j].1;
        let c = t.children@[j].0;
        assert(child.wf());
        assert(decreases_to!(t => child)) by {
            assert(decreases_to!(t => t.children));
            assert(decreases_to!(t.children => t.children@));
            assert(decreases_to!(t.children@ => t.children@[j]));
        }
        lemma_value_sound(child, x, false);
        let s1 = choose|s1: Seq<char>| #[trigger] child.value_at(s1) == Some(x);
        let s = seq![c] + s1;
        assert(s.drop_first() =~= s1);
        lemma_index_of(t.children@, c);
        let i = index_of(t.children@, c);
        if i != j {
            assert(t.children@[i].0 == t.children@[j].0);
        }
        t.lemma_value_at_step(s);
        assert(t.value_at(s) == Some(x));
    }
}

/// Every payload that enumerating from the empty prefix gives is stored at a key.
pub proof fn lemma_all_values_stored<T>(t: CharTrie<T>, x: T)
    requires
        t.wf(),
        t.values_with_prefix(Seq::empty()).contains(x),
    ensures
        exists|k: Seq<char>| #[trigger] t@.contains_key(k) && t@[k] == x,
{
    assert(t.node_at(Seq::empty()) == Some(t));
    lemma_value_sound(t, x, true);
    let s = choose|s: Seq<char>| s.len() > 0 && #[trigger] t.value_at(s) == Some(x);
    t.lemma_view(s);
}

/// The keys of the children's payloads are distinct, non-empty, start with
/// the label of one of the first `n` children, and lead to those payloads.
proof fn lemma_children_keys<T>(t: CharTrie<T>, n: int)
    requires
        t.wf(),
        0 <= n <= t.children@.len(),
    ensures
        t.children_keys(n).len() == t.children_values(n).len(),
        t.children_keys(n).no_duplicates(),
        forall|i: int|
            0 <= i < t.children_keys(n).len() ==> {
                let k = #[trigger] t.children_keys(n)[i];
                &&& k.len() > 0
                &&& 0 <= index_of(t.children@, k[0]) < n
                &&& t.value_at(k) == Some(t.children_values(n)[i])
            },
    decreases t, n,
{
    if n > 0 {
        lemma_children_keys(t, n - 1);
        let (c, child) = t.children@[n - 1];
        assert(child.wf());
        assert(decreases_to!(t => child)) by {
            assert(decreases_to!(t => t.children));
            assert(decreases_to!(t.children => t.children@));
            assert(decreases_to!(t.children@ => t.children@[n - 1]));
        }
        lemma_children_keys(child, child.children@.len() as int);
        lemma_index_of(t.children@, c);
        let m = index_of(t.children@, c);
        if m != n - 1 {
            assert(t.children@[m].0 == t.children@[n - 1].0);
        }
        let left_k = t.children_keys(n - 1);
        let left_v = t.children_values(n - 1);
        let inner_k = child.children_keys(child.children@.len() as int);
        let inner_v = child.children_values(child.children@.len() as int);
        let rel = option_key(child.value) + inner_k;
        let own_v = option_seq(child.value) + inner_v;
        let mapped = rel.map_values(|k: Seq<char>| seq![c] + k);
        let keys = left_k + mapped;
        assert(t.children_keys(n) == keys);
        assert(t.children_values(n) == left_v + own_v);
        assert forall|j: int| 0 <= j < rel.len() implies child.value_at(#[trigger] rel[j]) == Some(
            own_v[j],
        ) by {
            if j >= option_key(child.value).len() {
                let q = j - option_key(child.value).len();
                assert(rel[j] == inner_k[q]);
                assert(own_v[j] == inner_v[q]);
            } else {
                assert(rel[j] == Seq::<char>::empty());
                assert(child.node_at(Seq::<char>::empty()) == Some(child));
            }
        }
        assert forall|j: int| 0 <= j < mapped.len() implies {
            let k = #[trigger] mapped[j];
            &&& k.len() > 0
            &&& k[0] == c
            &&& k.drop_first() == rel[j]
            &&& t.value_at(k) == Some(own_v[j])
        } by {
            let k = mapped[j];
            assert(k == seq![c] + rel[j]);
            assert(k.drop_first() =~= rel[j]);
            t.lemma_value_at_step(k);
        }
        assert forall|i: int| 0 <= i < keys.len() implies {
            let k = #[trigger] keys[i];
            &&& k.len() > 0
            &&& 0 <= index_of(t.children@, k[0]) < n
            &&& t.value_at(k) == Some((left_v + own_v)[i])
        } by {
            if i < left_k.len() {
                assert(keys[i] == left_k[i]);
            } else {
                assert(keys[i] == mapped[i - left_k.len()]);
            }
        }
        assert(rel.no_duplicates()) by {
            assert forall|a: int, b: int| 0 <= a < b < rel.len() implies rel[a] != rel[b] by {
                let o = option_key(child.value).len();
                if a < o {
                    assert(rel[a] == Seq::<char>::empty());
                    assert(rel[b] == inner_k[b - o]);
                } else {
                    assert(rel[a] == inner_k[a - o] && rel[b] == inner_k[b - o]);
                }
            }
        }
        assert forall|a: int, b: int| 0 <= a < b < keys.len() implies keys[a] != keys[b] by {
            if b >= left_k.len() && a >= left_k.len() {
                let x = mapped[a - left_k.len()];
                let y = mapped[b - left_k.len()];
                assert(keys[a] == x && keys[b] == y);
                if x == y {
                    assert(x.drop_first() == y.drop_first());
                }
            } else if b >= left_k.len() {
                assert(keys[a] == left_k[a]);
                assert(keys[b] == mapped[b - left_k.len()]);
                if keys[a] == keys[b] {
                    assert(index_of(t.children@, left_k[a][0]) < n - 1);
                }
            } else {
                assert(keys[a] == left_k[a] && keys[b] == left_k[b]);
            }
        }
    }
}

/// A key of the first `n` children's payloads stays one of the first `m >= n`.
proof fn lemma_children_keys_grow<T>(t: CharTrie<T>, n: int, m: int, k: Seq<char>)
    requires
        0 <= n <= m <= t.children@.len(),
        t.children_keys(n).contains(k),
    ensures
        t.children_keys(m).contains(k),
    decreases m - n,
{
    if n < m {
        lemma_children_keys_grow(t, n, m - 1, k);
        let left = t.children_keys(m - 1);
        let x = choose|x: int| 0 <= x < left.len() && left[x] == k;
        let (c, child) = t.children@[m - 1];
        let whole = left + (option_key(child.value) + child.children_keys(
            child.children@.len() as int,
        )).map_values(|q: Seq<char>| seq![c] + q);
        assert(t.children_keys(m) == whole);
        assert(whole[x] == k);
    }
}

/// Every key below this node that holds a payload is among the children's keys.
proof fn lemma_children_keys_cover<T>(t: CharTrie<T>, k: Seq<char>)
    requires
        t.wf(),
        k.len() > 0,
        t.value_at(k) is Some,
    ensures
        t.children_keys(t.children@.len() as int).contains(k),
    decreases k.len(),
{
    t.lemma_value_at_step(k);
    lemma_index_of(t.children@, k[0]);
    let i = index_of(t.children@, k[0]);
    let (c, child) = t.children@[i];
    assert(child.wf());
    let rest = k.drop_first();
    let inner_k = child.children_keys(child.children@.len() as int);
    let rel = option_key(child.value) + inner_k;
    let mapped = rel.map_values(|q: Seq<char>| seq![c] + q);
    let j: int = if rest.len() == 0 {
        assert(child.node_at(rest) == Some(child));
        0
    } else {
        lemma_children_keys_cover(child, rest);
        let q = choose|q: int| 0 <= q < inner_k.len() && inner_k[q] == rest;
        assert(rel[option_key(child.value).len() + q] == rest);
        option_key(child.value).len() + q
    };
    assert(rel[j] == rest);
    assert(k =~= seq![c] + rest);
    let left = t.children_keys(i);
    assert(t.children_keys(i + 1) == left + mapped);
    assert((left + mapped)[left.len() + j] == k);
    lemma_children_keys_grow(t, i + 1, t.children@.len() as int, k);
}

/// Enumerating from the empty prefix gives every stored payload exactly
/// once: in the order of a list of distinct keys that are exactly the
/// stored keys, each payload at its key.
pub proof fn lemma_enumeration_exact<T>(t: CharTrie<T>)
    requires
        t.wf(),
    ensures
        exists|ks: Seq<Seq<char>>|
            {
                &&& ks.no_duplicates()
                &&& ks.len() == t.values_with_prefix(Seq::empty()).len()
                &&& forall|i: int|
                    0 <= i < ks.len() ==> t@.contains_key(#[trigger] ks[i]) && t@[ks[i]]
                        == t.values_with_prefix(Seq::empty())[i]
                &&& forall|k: Seq<char>| #[trigger] t@.contains_key(k) ==> ks.contains(k)
            },
{
    let n = t.children@.len() as int;
    let ks = t.children_keys(n);
    lemma_children_keys(t, n);
    assert(t.node_at(Seq::empty()) == Some(t));
    assert(t.values_with_prefix(Seq::empty()) == t.children_values(n));
    assert forall|i: int| 0 <= i < ks.len() implies t@.contains_key(#[trigger] ks[i]) && t@[ks[i]]
        == t.values_with_prefix(Seq::empty())[i] by {
        t.lemma_view(ks[i]);
    }
    assert forall|k: Seq<char>| #[trigger] t@.contains_key(k) implies ks.contains(k) by {
        t.lemma_view(k);
        lemma_children_keys_cover(t, k);
    }
}

/// A node reached in a well-formed trie is well formed.
proof fn lemma_node_at_wf<T>(t: CharTrie<T>, p: Seq<char>)
    requires
        t.wf(),
        t.node_at(p) is Some,
    ensures
        t.node_at(p)->0.wf(),
    decreases p.len(),
{
    if p.len() > 0 {
        let i = index_of(t.children@, p[0]);
        assert(t.children@[i].1.wf());
        lemma_node_at_wf(t.children@[i].1, p.drop_first());
    }
}

/// `k` starts with `p`.
pub open spec fn has_prefix(k: Seq<char>, p: Seq<char>) -> bool {
    p.len() <= k.len() && k.subrange(0, p.len() as int) == p
}

/// `ks` lists, without repeats, exactly the stored keys that start with `p`,
/// in the order of `values_with_prefix(p)`, each listed payload at its key.
pub open spec fn lists_prefix<T>(t: CharTrie<T>, p: Seq<char>, ks: Seq<Seq<char>>) -> bool {
    &&& ks.no_duplicates()
    &&& ks.len() == t.values_with_prefix(p).len()
    &&& forall|i: int|
        0 <= i < ks.len() ==> t@.contains_key(#[trigger] ks[i]) && t@[ks[i]]
            == t.values_with_prefix(p)[i] && has_prefix(ks[i], p)
    &&& forall|k: Seq<char>| #[trigger] t@.contains_key(k) && has_prefix(k, p) ==> ks.contains(k)
}

/// Enumerating the keys that start with `p` gives the payload of each such
/// key exactly once: in the order of a list of distinct keys that are
/// exactly the stored keys starting with `p`, each payload at its key.
pub proof fn lemma_prefix_exact<T>(t: CharTrie<T>, p: Seq<char>)
    requires
        t.wf(),
    ensures
        exists|ks: Seq<Seq<char>>| #[trigger] lists_prefix(t, p, ks),
{
    if p.len() == 0 {
        lemma_enumeration_exact(t);
        let ks = choose|ks: Seq<Seq<char>>|
            {
                &&& ks.no_duplicates()
                &&& ks.len() == t.values_with_prefix(Seq::empty()).len()
                &&& forall|i: int|
                    0 <= i < ks.len() ==> t@.contains_key(#[trigger] ks[i]) && t@[ks[i]]
                        == t.values_with_prefix(Seq::empty())[i]
                &&& forall|k: Seq<char>| #[trigger] t@.contains_key(k) ==> ks.contains(k)
            };
        assert(p =~= Seq::<char>::empty());
        assert forall|i: int| 0 <= i < ks.len() implies has_prefix(#[trigger] ks[i], p) by {
            assert(ks[i].subrange(0, 0) =~= p);
        }
        assert(forall|i: int|
            0 <= i < ks.len() ==> t@.contains_key(#[trigger] ks[i]) && t@[ks[i]]
                == t.values_with_prefix(p)[i] && has_prefix(ks[i], p));
        assert(lists_prefix(t, p, ks));
    } else {
        match t.node_at(p) {
            None => {
                let ks = Seq::<Seq<char>>::empty();
                assert forall|k: Seq<char>| #[trigger]
                    t@.contains_key(k) && has_prefix(k, p) implies ks.contains(k) by {
                    let q = k.subrange(p.len() as int, k.len() as int);
                    assert(k =~= p + q);
                    lemma_node_at_concat(t, p, q);
                    t.lemma_view(k);
                }
                assert(ks.no_duplicates());
                assert(lists_prefix(t, p, ks));
            },
            Some(n) => {
                lemma_node_at_wf(t, p);
                let len = n.children@.len() as int;
                lemma_children_keys(n, len);
                let inner_k = n.children_keys(len);
                let inner_v = n.children_values(len);
                let o = option_key(n.value).len();
                let rel = option_key(n.value) + inner_k;
                let vals = option_seq(n.value) + inner_v;
                assert(t.values_with_prefix(p) == vals);
                let ks = rel.map_values(|q: Seq<char>| p + q);
                assert forall|j: int| 0 <= j < rel.len() implies n.value_at(#[trigger] rel[j])
                    == Some(vals[j]) by {
                    if j >= o {
                        assert(rel[j] == inner_k[j - o]);
                        assert(vals[j] == inner_v[j - o]);
                    } else {
                        assert(rel[j] == Seq::<char>::empty());
                        assert(n.node_at(Seq::<char>::empty()) == Some(n));
                    }
                }
                assert forall|i: int| 0 <= i < ks.len() implies t@.contains_key(#[trigger] ks[i])
                    && t@[ks[i]] == t.values_with_prefix(p)[i] && has_prefix(ks[i], p) by {
                    let q = rel[i];
                    assert(ks[i] == p + q);
                    lemma_node_at_concat(t, p, q);
                    t.lemma_view(ks[i]);
                    assert((p + q).subrange(0, p.len() as int) =~= p);
                }
                assert forall|a: int, b: int| 0 <= a < b < ks.len() implies ks[a] != ks[b] by {
                    if ks[a] == ks[b] {
                        assert(ks[a] == p + rel[a] && ks[b] == p + rel[b]);
                        assert(rel[a] =~= ks[a].subrange(p.len() as int, ks[a].len() as int));
                        assert(rel[b] =~= ks[b].subrange(p.len() as int, ks[b].len() as int));
                        if a < o {
                            assert(rel[a] == Seq::<char>::empty());
                            assert(rel[b] == inner_k[b - o]);
                        } else {
                            assert(rel[a] == inner_k[a - o] && rel[b] == inner_k[b - o]);
                        }
                    }
                }
                assert forall|k: Seq<char>| #[trigger]
                    t@.contains_key(k) && has_prefix(k, p) implies ks.contains(k) by {
                    let q = k.subrange(p.len() as int, k.len() as int);
                    assert(k =~= p + q);
                    lemma_node_at_concat(t, p, q);
                    t.lemma_view(k);
                    assert(n.value_at(q) is Some);
                    if q.len() == 0 {
                        assert(n.node_at(q) == Some(n));
                        assert(rel[0] == q);
                        assert(ks[0] == k);
                    } else {
                        lemma_children_keys_cover(n, q);
                        let j = choose|j: int| 0 <= j < inner_k.len() && inner_k[j] == q;
                        assert(rel[o + j] == q);
                        assert(ks[o + j] == k);
                    }
                }
                assert(lists_prefix(t, p, ks));
            },
        }
    }
}

/// Completeness of prefix enumeration: the payload of every key that starts
/// with `p` is among `values_with_prefix(p)`.
pub proof fn lemma_prefix_complete<T>(t: CharTrie<T>, p: Seq<char>, k: Seq<char>)
    requires
        t@.contains_key(k),
        p.len() <= k.len(),
        k.subrange(0, p.len() as int) == p,
    ensures
        t.values_with_prefix(p).contains(t@[k]),
{
    let q = k.subrange(p.len() as int, k.len() as int);
    assert(k =~= p + q);
    lemma_node_at_concat(t, p, q);
    let n = t.node_at(p)->0;
    assert(t.value_at(k) == n.value_at(q));
    lemma_value_enumerated(n, q);
}

/// Facts about `index_of`: it names a child labelled `c`, and no later child has that label.
pub proof fn lemma_index_of<T>(cs: Seq<(char, CharTrie<T>)>, c: char)
    ensures
        -1 <= index_of(cs, c) < cs.len(),
        index_of(cs, c) >= 0 ==> cs[index_of(cs, c)].0 == c,
        forall|j: int| index_of(cs, c) < j < cs.len() ==> cs[j].0 != c,
    decreases cs.len(),
{
    if cs.len() > 0 && cs.last().0 != c {
        lemma_index_of(cs.drop_last(), c);
        assert forall|j: int| index_of(cs, c) < j < cs.len() implies cs[j].0 != c by {
            if j < cs.len() - 1 {
                assert(cs[j] == cs.drop_last()[j]);
            }
        }
    }
}

/// With distinct labels, the child labelled `c` at position `k` is the one `index_of` finds.
proof fn lemma_index_of_at<T>(cs: Seq<(char, CharTrie<T>)>, c: char, k: int)
    requires
        0 <= k < cs.len(),
        cs[k].0 == c,
        forall|i: int, j: int| 0 <= i < j < cs.len() ==> cs[i].0 < cs[j].0,
    ensures
        index_of(cs, c) == k,
{
    lemma_index_of(cs, c);
    let m = index_of(cs, c);
    if m != k {
        if m < k {
            assert(cs[m].0 < cs[k].0);
        }
    }
}

/// Two child lists with the same labels at the same positions find the same child.
pub proof fn lemma_index_of_same_labels<T>(
    cs: Seq<(char, CharTrie<T>)>,
    ds: Seq<(char, CharTrie<T>)>,
    c: char,
)
    requires
        cs.len() == ds.len(),
        forall|j: int| 0 <= j < cs.len() ==> cs[j].0 == ds[j].0,
    ensures
        index_of(cs, c) == index_of(ds, c),
    decreases cs.len(),
{
    if cs.len() > 0 {
        lemma_index_of_same_labels(cs.drop_last(), ds.drop_last(), c);
    }
}

} // verus!
