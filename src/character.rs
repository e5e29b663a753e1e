//! The character dictionary: per-character entries, stroke counts, and
//! Ideographic Description Sequence decomposition.
use std::collections::HashMap;
use vstd::prelude::*;

use crate::text::chars_of;
use crate::trie::deref_seq;

verus! {

broadcast use vstd::std_specs::hash::group_hash_axioms;

/// Declares `serde_json::Value` to the verifier as an opaque type: an entry
/// carries its source `matches` items through, and only their count is read.
#[verifier::external_type_specification]
#[verifier::external_body]
pub struct ExJsonValue(serde_json::Value);

/// Decomposition depth past which a character counts as unknown; it guards
/// against cycles in malformed data.
pub const MAX_DECOMPOSITION_DEPTH: usize = 32;

#[derive(Debug, Clone)]
pub struct CharacterEtymology {
    /// One of `ideographic`, `pictographic`, `pictophonetic`.
    pub ty: String,
    pub hint: Option<String>,
    pub phonetic: Option<String>,
    pub semantic: Option<String>,
}

#[derive(Debug, Clone)]
pub struct CharacterEntry {
    pub character: char,
    pub definition: Option<String>,
    pub pinyin: Vec<String>,
    /// The decomposition as an Ideographic Description Sequence; `？` marks an unknown part.
    pub decomposition: String,
    pub etymology: Option<CharacterEtymology>,
    /// One item per stroke.
    pub matches: Vec<serde_json::Value>,
    pub strokes: usize,
}

/// A character's structure.
#[derive(Debug, PartialEq, Eq)]
pub enum CharacterDecomposition {
    /// The `？` marker, or no data.
    Unknown,
    /// A part with no further decomposition.
    Radical(char),
    /// An IDS operator over its parts; `value` is the decomposed character, at the root only.
    Components { ty: char, value: Option<char>, components: Vec<CharacterDecomposition> },
}

pub open spec fn is_binary_op(c: char) -> bool {
    c == '⿰' || c == '⿱' || c == '⿴' || c == '⿵' || c == '⿶' || c == '⿷' || c == '⿸' || c == '⿹'
        || c == '⿺' || c == '⿻'
}

pub open spec fn is_trinary_op(c: char) -> bool {
    c == '⿲' || c == '⿳'
}

pub fn is_binary_operator(c: char) -> (r: bool)
    ensures
        r == is_binary_op(c),
{
    c == '⿰' || c == '⿱' || c == '⿴' || c == '⿵' || c == '⿶' || c == '⿷' || c == '⿸' || c == '⿹'
        || c == '⿺' || c == '⿻'
}

pub fn is_trinary_operator(c: char) -> (r: bool)
    ensures
        r == is_trinary_op(c),
{
    c == '⿲' || c == '⿳'
}

/// Every operator node has two parts for a binary operator and three for a
/// trinary one, and is labelled by an operator.
pub open spec fn well_shaped(t: CharacterDecomposition) -> bool
    decreases t,
{
    match t {
        CharacterDecomposition::Components { ty, value, components } => {
            &&& (is_binary_op(ty) && components@.len() == 2) || (is_trinary_op(ty)
                && components@.len() == 3)
            &&& forall|i: int|
                0 <= i < components@.len() ==> well_shaped(#[trigger] components@[i])
        },
        _ => true,
    }
}

/// The parts a decomposition lists, in order: a radical itself; for an
/// operator node, the decomposed character if set, then each part's parts.
pub open spec fn parts(t: CharacterDecomposition) -> Seq<char>
    decreases t, 1nat,
{
    match t {
        CharacterDecomposition::Radical(c) => seq![c],
        CharacterDecomposition::Components { ty, value, components } => {
            let own = match value {
                Some(v) => seq![v],
                None => Seq::empty(),
            };
            own + parts_of_first(t, components@.len() as int)
        },
        CharacterDecomposition::Unknown => Seq::empty(),
    }
}

/// The parts of the first `n` parts of an operator node.
pub open spec fn parts_of_first(t: CharacterDecomposition, n: int) -> Seq<char>
    decreases t, 0nat, n,
{
    match t {
        CharacterDecomposition::Components { ty, value, components } => {
            if n <= 0 || n > components@.len() {
                Seq::empty()
            } else {
                parts_of_first(t, n - 1) + parts(components@[n - 1])
            }
        },
        _ => Seq::empty(),
    }
}

impl Default for CharacterDecomposition {
    fn default() -> (r: Self)
        ensures
            r == CharacterDecomposition::Unknown,
    {
        CharacterDecomposition::Unknown
    }
}

impl CharacterDecomposition {
    /// The parts this decomposition lists, in order.
    pub fn iter_parts(&self) -> (r: Vec<char>)
        ensures
            r@ == parts(*self),
        decreases *self,
    {
        let mut out: Vec<char> = Vec::new();
        match self {
            CharacterDecomposition::Radical(c) => {
                out.push(*c);
                assert(out@ =~= seq![*c]);
            },
            CharacterDecomposition::Components { ty, value, components } => {
                match value {
                    Some(v) => {
                        out.push(*v);
                    },
                    None => {},
                }
                let ghost own = out@;
                let mut i: usize = 0;
                while i < components.len()
                    invariant
                        i <= components@.len(),
                        *self == (CharacterDecomposition::Components {
                            ty: *ty,
                            value: *value,
                            components: *components,
                        }),
                        out@ == own + parts_of_first(*self, i as int),
                    decreases components@.len() - i,
                {
                    assert(decreases_to!(*self => components@[i as int])) by {
                        let t = *self;
                        assert(decreases_to!(t => t->components));
                        assert(decreases_to!(t->components => t->components@));
                        assert(decreases_to!(t->components@ => t->components@[i as int]));
                    }
                    let sub = components[i].iter_parts();
                    let mut j: usize = 0;
                    let ghost base = out@;
                    while j < sub.len()
                        invariant
                            j <= sub@.len(),
                            out@ == base + sub@.subrange(0, j as int),
                        base == own + parts_of_first(*self, i as int),
                        sub@ == parts(components@[i as int]),
                        decreases sub@.len() - j,
                    {
                        out.push(sub[j]);
                        assert(out@ =~= base + sub@.subrange(0, j + 1));
                        j += 1;
                    }
                    assert(sub@.subrange(0, j as int) =~= sub@);
                    assert(parts_of_first(*self, i + 1) == parts_of_first(*self, i as int) + parts(
                        components@[i as int],
                    ));
                    i += 1;
                    assert(out@ =~= own + parts_of_first(*self, i as int));
                }
                match value {
                    Some(v) => assert(own =~= seq![*v]),
                    None => assert(own =~= Seq::<char>::empty()),
                }
            },
            CharacterDecomposition::Unknown => {
                assert(out@ =~= Seq::<char>::empty());
            },
        }
        out
    }
}

/// The position from `i` on of the first entry for `c`, or the length.
pub open spec fn first_from(s: Seq<CharacterEntry>, c: char, i: int) -> int
    decreases s.len() - i,
{
    if i < 0 || i >= s.len() {
        s.len() as int
    } else if s[i].character == c {
        i
    } else {
        first_from(s, c, i + 1)
    }
}

/// The position of the first entry for `c`, or the length.
pub open spec fn first_index(s: Seq<CharacterEntry>, c: char) -> int {
    first_from(s, c, 0)
}

proof fn lemma_first_from(s: Seq<CharacterEntry>, c: char, i: int, j: int)
    requires
        0 <= i <= j < s.len(),
        forall|k: int| i <= k < j ==> s[k].character != c,
    ensures
        s[j].character == c ==> first_from(s, c, i) == j,
        s[j].character != c ==> first_from(s, c, i) == first_from(s, c, j + 1),
    decreases j - i,
{
    if i < j {
        lemma_first_from(s, c, i + 1, j);
    }
}

/// Distinct characters have distinct code points.
proof fn lemma_char_code_injective(c: char, d: char)
    ensures
        c != d ==> (c as u32) != (d as u32),
{
    assert((c as u32) as int == c as int);
    assert((d as u32) as int == d as int);
}

/// The same tree: same variants, labels and parts, all the way down.
pub open spec fn same_tree(a: CharacterDecomposition, b: CharacterDecomposition) -> bool
    decreases a,
{
    match a {
        CharacterDecomposition::Unknown => b is Unknown,
        CharacterDecomposition::Radical(c) => b == CharacterDecomposition::Radical(c),
        CharacterDecomposition::Components { ty, value, components } => match b {
            CharacterDecomposition::Components { ty: ty2, value: value2, components: components2 } => {
                &&& ty == ty2
                &&& value == value2
                &&& components@.len() == components2@.len()
                &&& forall|i: int|
                    0 <= i < components@.len() ==> same_tree(
                        #[trigger] components@[i],
                        components2@[i],
                    )
            },
            _ => false,
        },
    }
}

/// The same trees list the same parts.
pub proof fn lemma_same_tree_parts(a: CharacterDecomposition, b: CharacterDecomposition)
    requires
        same_tree(a, b),
    ensures
        parts(a) == parts(b),
    decreases a,
{
    if let CharacterDecomposition::Components { ty, value, components } = a {
        lemma_same_tree_parts_first(a, b, components@.len() as int);
    }
}

proof fn lemma_same_tree_parts_first(a: CharacterDecomposition, b: CharacterDecomposition, n: int)
    requires
        same_tree(a, b),
        a is Components,
        0 <= n <= a->components@.len(),
    ensures
        parts_of_first(a, n) == parts_of_first(b, n),
    decreases a, n,
{
    if n > 0 {
        lemma_same_tree_parts_first(a, b, n - 1);
        let ca = a->components@[n - 1];
        assert(decreases_to!(a => ca)) by {
            assert(decreases_to!(a => a->components));
            assert(decreases_to!(a->components => a->components@));
        }
        lemma_same_tree_parts(ca, b->components@[n - 1]);
    }
}

/// `x` limited to `[lo, hi]`.
pub open spec fn clamp(x: int, lo: int, hi: int) -> int {
    if x < lo {
        lo
    } else if x > hi {
        hi
    } else {
        x
    }
}

/// The position after the node that starts at `pos` in an IDS stream: a
/// marker or a plain character takes one code point, an operator one plus its
/// parts; at the end of the stream nothing is taken.
pub open spec fn next_pos(toks: Seq<char>, pos: int) -> int
    decreases toks.len() - pos,
{
    if pos < 0 || pos >= toks.len() {
        pos
    } else if is_binary_op(toks[pos]) || is_trinary_op(toks[pos]) {
        let after1 = clamp(next_pos(toks, pos + 1), pos + 1, toks.len() as int);
        let after2 = clamp(next_pos(toks, after1), after1, toks.len() as int);
        if is_trinary_op(toks[pos]) {
            clamp(next_pos(toks, after2), after2, toks.len() as int)
        } else {
            after2
        }
    } else {
        pos + 1
    }
}

pub proof fn lemma_next_pos(toks: Seq<char>, pos: int)
    requires
        0 <= pos <= toks.len(),
    ensures
        pos <= next_pos(toks, pos) <= toks.len(),
        pos < toks.len() ==> pos < next_pos(toks, pos),
    decreases toks.len() - pos,
{
    if pos < toks.len() && (is_binary_op(toks[pos]) || is_trinary_op(toks[pos])) {
        lemma_next_pos(toks, pos + 1);
        let after1 = next_pos(toks, pos + 1);
        lemma_next_pos(toks, after1);
        let after2 = next_pos(toks, after1);
        lemma_next_pos(toks, after2);
    }
}

pub struct CharacterDictionary {
    entries: Vec<CharacterEntry>,
    index: HashMap<u32, usize>,
}

/// The character dictionary under its shorter name.
pub type Dictionary = CharacterDictionary;

impl CharacterDictionary {
    /// Entries by character.
    pub closed spec fn view(self) -> Map<char, CharacterEntry> {
        Map::new(
            |c: char| self.index@.contains_key(c as u32),
            |c: char| self.entries@[self.index@[c as u32] as int],
        )
    }

    /// The entries in the order their characters first came.
    pub closed spec fn ordered(self) -> Seq<CharacterEntry> {
        self.entries@
    }

    /// Each character is indexed at its own entry, and every entry is indexed.
    pub closed spec fn wf(self) -> bool {
        &&& forall|k: u32| #[trigger]
            self.index@.contains_key(k) ==> self.index@[k] < self.entries@.len() && (
            self.entries@[self.index@[k] as int].character as u32) == k
        &&& forall|p: int|
            0 <= p < self.entries@.len() ==> #[trigger] self.index@.contains_key(
                self.entries@[p].character as u32,
            ) && self.index@[self.entries@[p].character as u32] == p
    }

    /// Indexes `entries` by character, a later entry replacing an earlier one
    /// with the same character; each entry's stroke count is the number of its matches.
    pub fn new(entries: Vec<CharacterEntry>) -> (r: Self)
        ensures
            r.wf(),
            forall|c: char| #[trigger]
                r@.contains_key(c) <==> exists|i: int|
                    0 <= i < entries@.len() && entries@[i].character == c,
            forall|i: int|
                0 <= i < entries@.len() && (forall|j: int|
                    i < j < entries@.len() ==> entries@[j].character != entries@[i].character)
                    ==> {
                    let e = #[trigger] r@[entries@[i].character];
                    &&& e.character == entries@[i].character
                    &&& e.definition == entries@[i].definition
                    &&& e.pinyin == entries@[i].pinyin
                    &&& e.decomposition == entries@[i].decomposition
                    &&& e.etymology == entries@[i].etymology
                    &&& e.matches == entries@[i].matches
                    &&& e.strokes == entries@[i].matches@.len()
                },
            forall|p: int|
                0 <= p < r.ordered().len() ==> r@.contains_key(#[trigger] r.ordered()[p].character)
                    && r@[r.ordered()[p].character] == r.ordered()[p],
            forall|c: char| #[trigger]
                r@.contains_key(c) ==> exists|p: int|
                    0 <= p < r.ordered().len() && r.ordered()[p].character == c,
            forall|p: int, q: int|
                0 <= p < q < r.ordered().len() ==> first_index(
                    entries@,
                    #[trigger] r.ordered()[p].character,
                ) < first_index(entries@, #[trigger] r.ordered()[q].character),
    {
        let ghost input = entries@;
        let mut d = CharacterDictionary { entries: Vec::new(), index: HashMap::new() };
        let mut entries = entries;
        let mut n: usize = 0;
        while n < entries.len()
            invariant
                n <= input.len(),
                entries@.len() == input.len(),
                forall|j: int| n <= j < input.len() ==> entries@[j] == input[j],
                d.wf(),
                forall|c: char| #[trigger]
                    d@.contains_key(c) <==> exists|i: int|
                        0 <= i < n && input[i].character == c,
                forall|i: int|
                    0 <= i < n && (forall|j: int|
                        i < j < n ==> input[j].character != input[i].character) ==> {
                        let e = #[trigger] d@[input[i].character];
                        &&& e.character == input[i].character
                        &&& e.definition == input[i].definition
                        &&& e.pinyin == input[i].pinyin
                        &&& e.decomposition == input[i].decomposition
                        &&& e.etymology == input[i].etymology
                        &&& e.matches == input[i].matches
                        &&& e.strokes == input[i].matches@.len()
                    },
                forall|p: int|
                    0 <= p < d.ordered().len() ==> first_index(input, #[trigger] d.ordered()[p].character)
                        < n,
                forall|p: int, q: int|
                    0 <= p < q < d.ordered().len() ==> first_index(
                        input,
                        #[trigger] d.ordered()[p].character,
                    ) < first_index(input, #[trigger] d.ordered()[q].character),
            decreases input.len() - n,
        {
            let mut e = CharacterEntry {
                character: ' ',
                definition: None,
                pinyin: Vec::new(),
                decomposition: String::new(),
                etymology: None,
                matches: Vec::new(),
                strokes: 0,
            };
            std::mem::swap(&mut entries[n], &mut e);
            assert(e == input[n as int]);
            let ghost orig = e;
            e.strokes = e.matches.len();
            let ghost old_d = d;
            d.insert(e);
            proof {
                assert forall|c: char| #[trigger]
                    d@.contains_key(c) <==> exists|i: int| 0 <= i < n + 1 && input[i].character == c by {
                    if c == orig.character {
                        assert(input[n as int].character == c);
                    } else if d@.contains_key(c) {
                        assert(old_d@.contains_key(c));
                    } else if exists|i: int| 0 <= i < n + 1 && input[i].character == c {
                        let i = choose|i: int| 0 <= i < n + 1 && input[i].character == c;
                        assert(old_d@.contains_key(c));
                    }
                }
                assert forall|i: int|
                    0 <= i < n + 1 && (forall|j: int|
                        i < j < n + 1 ==> input[j].character != input[i].character) implies {
                        let e = #[trigger] d@[input[i].character];
                        &&& e.character == input[i].character
                        &&& e.definition == input[i].definition
                        &&& e.pinyin == input[i].pinyin
                        &&& e.decomposition == input[i].decomposition
                        &&& e.etymology == input[i].etymology
                        &&& e.matches == input[i].matches
                        &&& e.strokes == input[i].matches@.len()
                    } by {
                    if i < n {
                        assert(input[n as int].character != input[i].character);
                        assert(old_d@.contains_key(input[i].character));
                    }
                }
                if old_d@.contains_key(orig.character) {
                    assert forall|p: int| 0 <= p < d.ordered().len() implies first_index(
                        input,
                        #[trigger] d.ordered()[p].character,
                    ) < n + 1 by {
                        assert(d.ordered()[p].character == old_d.ordered()[p].character);
                    }
                    assert forall|p: int, q: int| 0 <= p < q < d.ordered().len() implies first_index(
                        input,
                        #[trigger] d.ordered()[p].character,
                    ) < first_index(input, #[trigger] d.ordered()[q].character) by {
                        assert(d.ordered()[p].character == old_d.ordered()[p].character);
                        assert(d.ordered()[q].character == old_d.ordered()[q].character);
                    }
                } else {
                    assert forall|j: int| 0 <= j < n implies input[j].character != orig.character by {
                        if input[j].character == orig.character {
                            assert(old_d@.contains_key(orig.character));
                        }
                    }
                    lemma_first_from(input, orig.character, 0, n as int);
                    assert(first_index(input, orig.character) == n);
                    let last = d.ordered().len() - 1;
                    assert(d.ordered()[last] == e);
                    assert forall|p: int| 0 <= p < d.ordered().len() implies first_index(
                        input,
                        #[trigger] d.ordered()[p].character,
                    ) < n + 1 by {
                        if p < last {
                            assert(d.ordered()[p] == old_d.ordered()[p]);
                        }
                    }
                    assert forall|p: int, q: int| 0 <= p < q < d.ordered().len() implies first_index(
                        input,
                        #[trigger] d.ordered()[p].character,
                    ) < first_index(input, #[trigger] d.ordered()[q].character) by {
                        assert(d.ordered()[p] == old_d.ordered()[p]);
                        if q < last {
                            assert(d.ordered()[q] == old_d.ordered()[q]);
                        }
                    }
                }
            }
            n += 1;
        }
        proof {
            assert forall|p: int|
                0 <= p < d.ordered().len() implies d@.contains_key(#[trigger] d.ordered()[p].character)
                && d@[d.ordered()[p].character] == d.ordered()[p] by {
            }
            assert forall|c: char| #[trigger] d@.contains_key(c) implies exists|p: int|
                0 <= p < d.ordered().len() && d.ordered()[p].character == c by {
                let p = d.index@[c as u32] as int;
                lemma_char_code_injective(d.entries@[p].character, c);
                assert(d.ordered()[p].character == c);
            }
        }
        d
    }

    /// The IDS code points of `c`'s entry; none without an entry.
    pub open spec fn ids_of(self, c: char) -> Seq<char> {
        if self@.contains_key(c) {
            self@[c].decomposition@
        } else {
            Seq::empty()
        }
    }

    /// `r` is the decomposition of `c`, following plain characters at most
    /// `depth` entries deep; past that a character is unknown.
    pub open spec fn decomposes_to(self, c: char, depth: nat, r: CharacterDecomposition) -> bool
        decreases depth, 1nat, 0int,
    {
        if depth == 0 {
            r == CharacterDecomposition::Unknown
        } else {
            self.node_is(self.ids_of(c), 0, Some(c), depth, r)
        }
    }

    /// `r` is the node that starts at `pos` in the IDS stream `toks`: past the
    /// end or at `？` it is unknown; an operator takes its two or three parts
    /// from the positions that follow; a plain character is its own
    /// decomposition, or a radical when that is unknown.
    pub open spec fn node_is(
        self,
        toks: Seq<char>,
        pos: int,
        value: Option<char>,
        depth: nat,
        r: CharacterDecomposition,
    ) -> bool
        decreases depth, 0nat, toks.len() - pos,
    {
        if pos < 0 || pos >= toks.len() {
            r == CharacterDecomposition::Unknown
        } else {
            let t = toks[pos];
            if t == '？' {
                r == CharacterDecomposition::Unknown
            } else if is_binary_op(t) || is_trinary_op(t) {
                let after1 = clamp(next_pos(toks, pos + 1), pos + 1, toks.len() as int);
                let after2 = clamp(next_pos(toks, after1), after1, toks.len() as int);
                match r {
                    CharacterDecomposition::Components { ty, value: v, components } => {
                        &&& ty == t
                        &&& v == value
                        &&& components@.len() == if is_trinary_op(t) {
                            3int
                        } else {
                            2int
                        }
                        &&& self.node_is(toks, pos + 1, None, depth, components@[0])
                        &&& self.node_is(toks, after1, None, depth, components@[1])
                        &&& is_trinary_op(t) ==> self.node_is(toks, after2, None, depth, components@[2])
                    },
                    _ => false,
                }
            } else if depth == 0 {
                r == CharacterDecomposition::Radical(t)
            } else {
                ||| (r != CharacterDecomposition::Unknown && self.decomposes_to(
                    t,
                    (depth - 1) as nat,
                    r,
                ))
                ||| (r == CharacterDecomposition::Radical(t) && self.decomposes_to(
                    t,
                    (depth - 1) as nat,
                    CharacterDecomposition::Unknown,
                ))
            }
        }
    }

    proof fn lemma_plain_radical(
        self,
        toks: Seq<char>,
        pos: int,
        value: Option<char>,
        depth: nat,
        t: char,
    )
        requires
            0 <= pos < toks.len(),
            toks[pos] == t,
            t != '？',
            !is_binary_op(t),
            !is_trinary_op(t),
            depth >= 1,
            self.decomposes_to(t, (depth - 1) as nat, CharacterDecomposition::Unknown),
        ensures
            self.node_is(toks, pos, value, depth, CharacterDecomposition::Radical(t)),
    {
        let r = CharacterDecomposition::Radical(t);
        assert(r != CharacterDecomposition::Unknown);
    }

    /// Every node of a decomposition has its operator's arity.
    pub proof fn lemma_node_shaped(
        self,
        toks: Seq<char>,
        pos: int,
        value: Option<char>,
        depth: nat,
        r: CharacterDecomposition,
    )
        requires
            self.node_is(toks, pos, value, depth, r),
        ensures
            well_shaped(r),
        decreases depth, 0nat, toks.len() - pos,
    {
        if 0 <= pos < toks.len() {
            let t = toks[pos];
            if t != '？' {
                if is_binary_op(t) || is_trinary_op(t) {
                    let after1 = clamp(next_pos(toks, pos + 1), pos + 1, toks.len() as int);
                    let after2 = clamp(next_pos(toks, after1), after1, toks.len() as int);
                    match r {
                        CharacterDecomposition::Components { ty, value: v, components } => {
                            self.lemma_node_shaped(toks, pos + 1, None, depth, components@[0]);
                            self.lemma_node_shaped(toks, after1, None, depth, components@[1]);
                            if is_trinary_op(t) {
                                self.lemma_node_shaped(toks, after2, None, depth, components@[2]);
                            }
                            assert forall|i: int| 0 <= i < components@.len() implies well_shaped(
                                #[trigger] components@[i],
                            ) by {}
                        },
                        _ => {},
                    }
                } else if depth > 0 && r != CharacterDecomposition::Radical(t) {
                    self.lemma_decomposition_shaped(t, (depth - 1) as nat, r);
                }
            }
        }
    }

    /// Every node of a decomposition has its operator's arity.
    pub proof fn lemma_decomposition_shaped(self, c: char, depth: nat, r: CharacterDecomposition)
        requires
            self.decomposes_to(c, depth, r),
        ensures
            well_shaped(r),
        decreases depth, 1nat, 0int,
    {
        if depth > 0 {
            self.lemma_node_shaped(self.ids_of(c), 0, Some(c), depth, r);
        }
    }

    /// Two decompositions of the same node are the same tree.
    proof fn lemma_node_unique(
        self,
        toks: Seq<char>,
        pos: int,
        value: Option<char>,
        depth: nat,
        r1: CharacterDecomposition,
        r2: CharacterDecomposition,
    )
        requires
            self.node_is(toks, pos, value, depth, r1),
            self.node_is(toks, pos, value, depth, r2),
        ensures
            same_tree(r1, r2),
        decreases depth, 0nat, toks.len() - pos,
    {
        if 0 <= pos < toks.len() {
            let t = toks[pos];
            if t != '？' {
                if is_binary_op(t) || is_trinary_op(t) {
                    let after1 = clamp(next_pos(toks, pos + 1), pos + 1, toks.len() as int);
                    let after2 = clamp(next_pos(toks, after1), after1, toks.len() as int);
                    assert(r1 is Components && r2 is Components);
                    let c1 = r1->components@;
                    let c2 = r2->components@;
                    self.lemma_node_unique(toks, pos + 1, None, depth, c1[0], c2[0]);
                    self.lemma_node_unique(toks, after1, None, depth, c1[1], c2[1]);
                    if is_trinary_op(t) {
                        self.lemma_node_unique(toks, after2, None, depth, c1[2], c2[2]);
                    }
                    assert forall|i: int| 0 <= i < c1.len() implies same_tree(
                        #[trigger] c1[i],
                        c2[i],
                    ) by {}
                } else if depth > 0 {
                    let d = (depth - 1) as nat;
                    let u = CharacterDecomposition::Unknown;
                    if self.decomposes_to(t, d, r1) && self.decomposes_to(t, d, r2) {
                        self.lemma_unique(t, d, r1, r2);
                    } else if self.decomposes_to(t, d, r1) && r1 != u && self.decomposes_to(t, d, u) {
                        self.lemma_unique(t, d, r1, u);
                    } else if self.decomposes_to(t, d, r2) && r2 != u && self.decomposes_to(t, d, u) {
                        self.lemma_unique(t, d, r2, u);
                    }
                }
            }
        }
    }

    /// Two decompositions of the same character are the same tree.
    pub proof fn lemma_unique(self, c: char, depth: nat, r1: CharacterDecomposition, r2: CharacterDecomposition)
        requires
            self.decomposes_to(c, depth, r1),
            self.decomposes_to(c, depth, r2),
        ensures
            same_tree(r1, r2),
        decreases depth, 1nat, 0int,
    {
        if depth > 0 {
            self.lemma_node_unique(self.ids_of(c), 0, Some(c), depth, r1, r2);
        }
    }

    /// `component` is among the parts of `c`'s decomposition.
    pub open spec fn has_component(self, c: char, component: char) -> bool {
        exists|r: CharacterDecomposition|
            self.decomposes_to(c, MAX_DECOMPOSITION_DEPTH as nat, r) && #[trigger] parts(r).contains(
                component,
            )
    }

    /// The entries among `es`, other than `component`'s own, whose
    /// decomposition lists `component`.
    pub open spec fn including_component(self, es: Seq<CharacterEntry>, component: char) -> Seq<
        CharacterEntry,
    >
        decreases es.len(),
    {
        if es.len() == 0 {
            Seq::empty()
        } else {
            let rest = self.including_component(es.drop_last(), component);
            let e = es.last();
            if e.character != component && self.has_component(e.character, component) {
                rest.push(e)
            } else {
                rest
            }
        }
    }

    /// Every entry, in the order its character first came.
    pub fn iter(&self) -> (r: Vec<&CharacterEntry>)
        ensures
            deref_seq(r@) == self.ordered(),
    {
        let mut out: Vec<&CharacterEntry> = Vec::new();
        let mut i: usize = 0;
        while i < self.entries.len()
            invariant
                i <= self.entries@.len(),
                deref_seq(out@) == self.entries@.subrange(0, i as int),
            decreases self.entries@.len() - i,
        {
            let ghost before = out@;
            out.push(&self.entries[i]);
            assert(deref_seq(out@) =~= deref_seq(before).push(self.entries@[i as int]));
            assert(deref_seq(out@) =~= self.entries@.subrange(0, i + 1));
            i += 1;
        }
        assert(self.entries@.subrange(0, i as int) =~= self.entries@);
        out
    }

    /// The entries, other than `component`'s own, whose decomposition lists `component`.
    pub fn get_characters_including_component(&self, component: char) -> (r: Vec<&CharacterEntry>)
        requires
            self.wf(),
        ensures
            deref_seq(r@) == self.including_component(self.ordered(), component),
    {
        let all = self.iter();
        let ghost es = deref_seq(all@);
        let mut out: Vec<&CharacterEntry> = Vec::new();
        let mut i: usize = 0;
        while i < all.len()
            invariant
                i <= all@.len(),
                self.wf(),
                es == deref_seq(all@),
                deref_seq(out@) == self.including_component(es.subrange(0, i as int), component),
            decreases all@.len() - i,
        {
            let e = all[i];
            assert(es.subrange(0, i + 1).drop_last() =~= es.subrange(0, i as int));
            assert(es.subrange(0, i + 1).last() == *e);
            if e.character != component {
                let d = self.decompose(e.character);
                let ps = d.iter_parts();
                let mut found = false;
                let mut j: usize = 0;
                while j < ps.len()
                    invariant
                        j <= ps@.len(),
                        found ==> ps@.contains(component),
                        !found ==> forall|k: int| 0 <= k < j ==> ps@[k] != component,
                    decreases ps@.len() - j,
                {
                    if ps[j] == component {
                        found = true;
                    }
                    j += 1;
                }
                proof {
                    if !found {
                        assert forall|r: CharacterDecomposition|
                            self.decomposes_to(e.character, MAX_DECOMPOSITION_DEPTH as nat, r)
                                implies !#[trigger] parts(r).contains(component) by {
                            self.lemma_unique(e.character, MAX_DECOMPOSITION_DEPTH as nat, r, d);
                            lemma_same_tree_parts(r, d);
                        }
                    }
                }
                if found {
                    let ghost before = out@;
                    out.push(e);
                    assert(deref_seq(out@) =~= deref_seq(before).push(*e));
                }
            }
            i += 1;
        }
        assert(es.subrange(0, i as int) =~= es);
        out
    }

    /// The entry for `character`.
    pub fn get(&self, character: char) -> (r: Option<&CharacterEntry>)
        requires
            self.wf(),
        ensures
            match r {
                Some(e) => self@.contains_key(character) && *e == self@[character],
                None => !self@.contains_key(character),
            },
    {
        match self.index.get(&(character as u32)) {
            Some(p) => Some(&self.entries[*p]),
            None => None,
        }
    }

    fn decompose_at(&self, c: char, depth: usize) -> (r: CharacterDecomposition)
        requires
            self.wf(),
        ensures
            self.decomposes_to(c, depth as nat, r),
        decreases depth, 1nat, 0int,
    {
        if depth == 0 {
            return CharacterDecomposition::Unknown;
        }
        let toks: Vec<char> = match self.get(c) {
            Some(e) => chars_of(e.decomposition.as_str()),
            None => Vec::new(),
        };
        assert(toks@ == self.ids_of(c));
        let (r, _) = self.parse_node(&toks, 0, Some(c), depth);
        r
    }

    fn parse_node(&self, toks: &Vec<char>, pos: usize, value: Option<char>, depth: usize) -> (r: (
        CharacterDecomposition,
        usize,
    ))
        requires
            self.wf(),
            depth >= 1,
            pos <= toks@.len(),
        ensures
            self.node_is(toks@, pos as int, value, depth as nat, r.0),
            r.1 == next_pos(toks@, pos as int),
        decreases depth, 0nat, toks@.len() - pos,
    {
        if pos >= toks.len() {
            return (CharacterDecomposition::Unknown, pos);
        }
        let t = toks[pos];
        if t == '？' {
            return (CharacterDecomposition::Unknown, pos + 1);
        }
        if is_binary_operator(t) || is_trinary_operator(t) {
            proof {
                lemma_next_pos(toks@, pos + 1);
            }
            let (a, after1) = self.parse_node(toks, pos + 1, None, depth);
            proof {
                lemma_next_pos(toks@, after1 as int);
            }
            let (b, after2) = self.parse_node(toks, after1, None, depth);
            if is_trinary_operator(t) {
                proof {
                    lemma_next_pos(toks@, after2 as int);
                }
                let (c3, after3) = self.parse_node(toks, after2, None, depth);
                let components = vec![a, b, c3];
                return (CharacterDecomposition::Components { ty: t, value, components }, after3);
            }
            let components = vec![a, b];
            return (CharacterDecomposition::Components { ty: t, value, components }, after2);
        }
        let d = self.decompose_at(t, depth - 1);
        assert(toks@[pos as int] == t);
        assert(self.decomposes_to(t, (depth - 1) as nat, d));
        if let CharacterDecomposition::Unknown = d {
            proof {
                assert(!is_binary_op(t) && !is_trinary_op(t) && t != '？');
                assert(d == CharacterDecomposition::Unknown);
                assert(self.decomposes_to(t, (depth - 1) as nat, CharacterDecomposition::Unknown));
                self.lemma_plain_radical(toks@, pos as int, value, depth as nat, t);
            }
            (CharacterDecomposition::Radical(t), pos + 1)
        } else {
            (d, pos + 1)
        }
    }

    /// The decomposition of `character`, following plain characters at most
    /// `MAX_DECOMPOSITION_DEPTH` entries deep.
    pub fn decompose(&self, character: char) -> (r: CharacterDecomposition)
        requires
            self.wf(),
        ensures
            self.decomposes_to(character, MAX_DECOMPOSITION_DEPTH as nat, r),
    {
        self.decompose_at(character, MAX_DECOMPOSITION_DEPTH)
    }

    /// Total strokes of the code points of `s`; none when one has no entry.
    pub open spec fn stroke_total(self, s: Seq<char>) -> Option<int>
        decreases s.len(),
    {
        if s.len() == 0 {
            Some(0)
        } else if !self@.contains_key(s.last()) {
            None
        } else {
            match self.stroke_total(s.drop_last()) {
                Some(n) => Some(n + self@[s.last()].strokes),
                None => None,
            }
        }
    }

    /// The total number of strokes of the code points of `characters`: none
    /// when a code point has no entry (or the total does not fit a `usize`).
    pub fn stroke_count(&self, characters: &str) -> (r: Option<usize>)
        requires
            self.wf(),
        ensures
            match self.stroke_total(characters@) {
                Some(n) => if n <= usize::MAX {
                    r is Some && r->0 as int == n
                } else {
                    r is None
                },
                None => r is None,
            },
    {
        let cs = chars_of(characters);
        let mut total: usize = 0;
        let mut i: usize = 0;
        let mut missing = false;
        let mut overflow = false;
        while i < cs.len()
            invariant
                i <= cs@.len(),
                cs@ == characters@,
                self.wf(),
                !missing ==> (self.stroke_total(cs@.subrange(0, i as int)) matches Some(n) && (
                overflow ==> n > usize::MAX) && (!overflow ==> n == total)),
                missing ==> self.stroke_total(cs@.subrange(0, i as int)) is None,
            decreases cs@.len() - i,
        {
            assert(cs@.subrange(0, i + 1).drop_last() =~= cs@.subrange(0, i as int));
            match self.get(cs[i]) {
                Some(e) => {
                    if !missing && !overflow {
                        match total.checked_add(e.strokes) {
                            Some(t) => {
                                total = t;
                            },
                            None => {
                                overflow = true;
                            },
                        }
                    }
                },
                None => {
                    missing = true;
                },
            }
            i += 1;
        }
        assert(cs@.subrange(0, i as int) =~= cs@);
        if missing || overflow {
            None
        } else {
            Some(total)
        }
    }

    /// Stores `e` under its character, replacing an earlier entry.
    fn insert(&mut self, e: CharacterEntry)
        requires
            old(self).wf(),
        ensures
            final(self).wf(),
            final(self)@ == old(self)@.insert(e.character, e),
            old(self)@.contains_key(e.character) ==> final(self).ordered().len() == old(
                self,
            ).ordered().len() && forall|p: int|
                0 <= p < old(self).ordered().len() ==> (#[trigger] final(self).ordered()[p]).character
                    == old(self).ordered()[p].character,
            !old(self)@.contains_key(e.character) ==> final(self).ordered() == old(
                self,
            ).ordered().push(e),
    {
        let key = e.character as u32;
        let ghost old_self = *self;
        match self.index.get(&key) {
            Some(p) => {
                let p = *p;
                self.entries.set(p, e);
                proof {
                    assert(old_self.entries@[p as int].character as u32 == key);
                    lemma_char_code_injective(old_self.entries@[p as int].character, e.character);
                    assert forall|q: int| 0 <= q < old_self.entries@.len() implies (
                    #[trigger] self.entries@[q]).character == old_self.entries@[q].character by {
                        if q != p {
                            assert(self.entries@[q] == old_self.entries@[q]);
                        }
                    }
                    assert forall|k: u32| #[trigger] self.index@.contains_key(k) implies self.index@[k]
                        < self.entries@.len() && (self.entries@[self.index@[k] as int].character as u32)
                        == k by {
                        if self.index@[k] != p {
                            assert(self.entries@[self.index@[k] as int] == old_self.entries@[self.index@[k] as int]);
                        }
                    }
                    assert forall|q: int| 0 <= q < self.entries@.len() implies #[trigger]
                        self.index@.contains_key(self.entries@[q].character as u32)
                            && self.index@[self.entries@[q].character as u32] == q by {
                        if q != p {
                            assert(self.entries@[q] == old_self.entries@[q]);
                        }
                    }
                }
            },
            None => {
                let p = self.entries.len();
                self.entries.push(e);
                self.index.insert(key, p);
                proof {
                    assert forall|k: u32| #[trigger] self.index@.contains_key(k) implies self.index@[k]
                        < self.entries@.len() && (self.entries@[self.index@[k] as int].character as u32)
                        == k by {
                        if k != key {
                            assert(old_self.index@.contains_key(k));
                        }
                    }
                    assert forall|q: int| 0 <= q < self.entries@.len() implies #[trigger]
                        self.index@.contains_key(self.entries@[q].character as u32)
                            && self.index@[self.entries@[q].character as u32] == q by {
                        if q < p {
                            assert(self.entries@[q] == old_self.entries@[q]);
                            assert(old_self.index@.contains_key(self.entries@[q].character as u32));
                        }
                    }
                }
            },
        }
        assert(self.wf());
        proof {
            assert(self@ =~= old_self@.insert(e.character, e)) by {
                assert forall|c: char| #[trigger] self@.contains_key(c) implies self@[c]
                    == old_self@.insert(e.character, e)[c] by {
                    if c != e.character {
                        lemma_char_code_injective(c, e.character);
                        assert(old_self.index@.contains_key(c as u32));
                        let q = old_self.index@[c as u32] as int;
                        assert(self.entries@[q] == old_self.entries@[q]);
                    }
                }
                assert forall|c: char|
                    #[trigger] old_self@.insert(e.character, e).contains_key(c) implies self@.contains_key(c) by {
                }
                assert forall|c: char| #[trigger] self@.contains_key(c) implies old_self@.insert(
                    e.character,
                    e,
                ).contains_key(c) by {
                    if c != e.character {
                        lemma_char_code_injective(c, e.character);
                    }
                }
            }
        }
    }
}

} // verus!
