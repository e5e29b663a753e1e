//! The query surface over the frozen dictionaries: lookups, ranked lists
//! ordered by stroke count, frequencies and example sentences.
use vstd::prelude::*;

use crate::character::{CharacterDecomposition, CharacterDictionary, CharacterEntry};
use crate::frequency::{normalize, FrequencyDictionary};
use crate::order::{sort_positions, stable_order};
use crate::sentence::{pair_views, sentences_with, SentenceDictionary};
use crate::text::{chars_of, string_of};
use crate::trie::deref_seq;
use crate::word::{
    deref_pairs, form, including_subslice, token_view, DictionaryType, Token, WordDictionary,
    WordEntry,
};

verus! {

/// The orthography a flag selects.
pub open spec fn orthography(simplified: bool) -> DictionaryType {
    if simplified {
        DictionaryType::Simplified
    } else {
        DictionaryType::Traditional
    }
}

fn orthography_of(simplified: bool) -> (r: DictionaryType)
    ensures
        r == orthography(simplified),
{
    if simplified {
        DictionaryType::Simplified
    } else {
        DictionaryType::Traditional
    }
}

/// The sort key of a text by stroke count: the total, or the largest `usize`
/// when a code point has no entry, so that such texts come last.
pub open spec fn stroke_key(c: CharacterDictionary, s: Seq<char>) -> int {
    match c.stroke_total(s) {
        Some(n) => if n <= usize::MAX {
            n
        } else {
            usize::MAX as int
        },
        None => usize::MAX as int,
    }
}

/// The first `limit` items of `items` taken in `order`.
pub open spec fn by_order<T>(items: Seq<T>, order: Seq<int>, limit: int) -> Seq<T> {
    let m = if limit < 0 {
        0
    } else if limit < order.len() {
        limit
    } else {
        order.len() as int
    };
    Seq::new(m as nat, |j: int| items[order[j]])
}

/// `items` by ascending `keys`, equal keys in their order, at most `limit` of them.
pub open spec fn sorted_by<T>(items: Seq<T>, keys: Seq<(int, int)>, limit: int) -> Seq<T> {
    by_order(items, stable_order(keys, keys.len() as int), limit)
}

/// Takes at most `limit` items of `items` in the order `keys` give.
fn take_sorted<T: Copy>(items: &Vec<T>, keys: &Vec<(usize, usize)>, limit: usize) -> (r: Vec<T>)
    requires
        items@.len() == keys@.len(),
    ensures
        r@ == sorted_by(items@, keys@.map_values(|k: (usize, usize)| crate::order::key_view(k)), limit as int),
{
    let order = sort_positions(keys);
    let ghost ov = order@.map_values(|i: usize| i as int);
    let m = if limit < order.len() {
        limit
    } else {
        order.len()
    };
    let mut out: Vec<T> = Vec::new();
    let mut j: usize = 0;
    while j < m
        invariant
            j <= m <= order@.len(),
            order@.len() == items@.len(),
            forall|q: int| 0 <= q < order@.len() ==> (#[trigger] order@[q]) < items@.len(),
            ov == order@.map_values(|i: usize| i as int),
            out@.len() == j,
            forall|q: int| 0 <= q < j ==> #[trigger] out@[q] == items@[ov[q]],
        decreases m - j,
    {
        out.push(items[order[j]]);
        j += 1;
    }
    let ghost want = sorted_by(items@, keys@.map_values(|k: (usize, usize)| crate::order::key_view(k)), limit as int);
    assert(want.len() == out@.len());
    assert(out@ =~= want);
    out
}

/// The score of the first of `forms` that has a frequency, or 0.
pub open spec fn first_score(f: FrequencyDictionary, forms: Seq<Seq<char>>) -> int
    decreases forms.len(),
{
    if forms.len() == 0 {
        0
    } else {
        match f.raw_value(forms[0]) {
            Some(v) => normalize(v, f.max()),
            None => first_score(f, forms.drop_first()),
        }
    }
}

/// The simplified then traditional form of each entry, in order.
pub open spec fn entry_forms(es: Seq<WordEntry>) -> Seq<Seq<char>>
    decreases es.len(),
{
    if es.len() == 0 {
        Seq::empty()
    } else {
        seq![es[0].simplified@, es[0].traditional@] + entry_forms(es.drop_first())
    }
}

/// Ordering references orders what they refer to.
proof fn lemma_deref_sorted<T>(items: Seq<&T>, keys: Seq<(int, int)>, limit: int)
    requires
        items.len() == keys.len(),
    ensures
        deref_seq(sorted_by(items, keys, limit)) == sorted_by(deref_seq(items), keys, limit),
{
    crate::order::lemma_stable_order_range(keys, keys.len() as int);
    let order = stable_order(keys, keys.len() as int);
    let a = deref_seq(sorted_by(items, keys, limit));
    let b = sorted_by(deref_seq(items), keys, limit);
    assert(a.len() == b.len());
    assert(order.len() == keys.len());
    assert forall|j: int| 0 <= j < a.len() implies a[j] == b[j] by {
        assert(j < order.len());
        assert(0 <= stable_order(keys, keys.len() as int)[j] < keys.len());
    }
    assert(a =~= b);
}

/// Ordering pairs of a reference and a flag orders what they refer to.
proof fn lemma_deref_pairs_sorted(items: Seq<(&WordEntry, bool)>, keys: Seq<(int, int)>, limit: int)
    requires
        items.len() == keys.len(),
    ensures
        deref_pairs(sorted_by(items, keys, limit)) == sorted_by(deref_pairs(items), keys, limit),
{
    crate::order::lemma_stable_order_range(keys, keys.len() as int);
    let order = stable_order(keys, keys.len() as int);
    let a = deref_pairs(sorted_by(items, keys, limit));
    let b = sorted_by(deref_pairs(items), keys, limit);
    assert(order.len() == keys.len());
    assert forall|j: int| 0 <= j < a.len() implies a[j] == b[j] by {
        assert(j < order.len());
        assert(0 <= stable_order(keys, keys.len() as int)[j] < keys.len());
    }
    assert(a =~= b);
}

/// The entries among `cs` whose character is a word in orthography `ty`.
pub open spec fn word_characters(words: WordDictionary, cs: Seq<CharacterEntry>, ty: DictionaryType) -> Seq<
    CharacterEntry,
>
    decreases cs.len(),
{
    if cs.len() == 0 {
        Seq::empty()
    } else if words.map(ty).contains_key(seq![cs.last().character]) {
        word_characters(words, cs.drop_last(), ty).push(cs.last())
    } else {
        word_characters(words, cs.drop_last(), ty)
    }
}

/// The sort key of a sentence: its length in bytes, at most the largest `usize`.
pub open spec fn byte_key(s: Seq<char>) -> int {
    let n = crate::thesaurus::utf8_len(s);
    if n <= usize::MAX {
        n
    } else {
        usize::MAX as int
    }
}

/// The length of `s` in bytes, at most the largest `usize`.
fn byte_length(s: &str) -> (r: usize)
    ensures
        r as int == byte_key(s@),
{
    let cs = chars_of(s);
    let mut n: usize = 0;
    let mut i: usize = 0;
    let mut saturated = false;
    while i < cs.len()
        invariant
            i <= cs@.len(),
            cs@ == s@,
            !saturated ==> n as int == crate::thesaurus::utf8_len(cs@.subrange(0, i as int)),
            saturated ==> n == usize::MAX && crate::thesaurus::utf8_len(cs@.subrange(0, i as int))
                > usize::MAX,
        decreases cs@.len() - i,
    {
        let c = cs[i];
        let width: usize = if (c as u32) < 0x80 {
            1
        } else if (c as u32) < 0x800 {
            2
        } else if (c as u32) < 0x10000 {
            3
        } else {
            4
        };
        assert(cs@.subrange(0, i + 1).drop_last() =~= cs@.subrange(0, i as int));
        proof {
            crate::thesaurus::lemma_utf8_width_positive(c);
        }
        if !saturated {
            match n.checked_add(width) {
                Some(m) => {
                    n = m;
                },
                None => {
                    n = usize::MAX;
                    saturated = true;
                },
            }
        }
        i += 1;
    }
    assert(cs@.subrange(0, i as int) =~= s@);
    n
}

/// Takes at most `limit` sentences of `items` in the order `keys` give.
fn take_sorted_pairs(items: &Vec<(String, String)>, keys: &Vec<(usize, usize)>, limit: usize) -> (r: Vec<
    (String, String),
>)
    requires
        items@.len() == keys@.len(),
    ensures
        pair_views(r@) == sorted_by(
            pair_views(items@),
            keys@.map_values(|k: (usize, usize)| crate::order::key_view(k)),
            limit as int,
        ),
{
    let order = sort_positions(keys);
    let ghost ov = order@.map_values(|i: usize| i as int);
    let m = if limit < order.len() {
        limit
    } else {
        order.len()
    };
    let mut out: Vec<(String, String)> = Vec::new();
    let mut j: usize = 0;
    while j < m
        invariant
            j <= m <= order@.len(),
            order@.len() == items@.len(),
            forall|q: int| 0 <= q < order@.len() ==> (#[trigger] order@[q]) < items@.len(),
            ov == order@.map_values(|i: usize| i as int),
            out@.len() == j,
            forall|q: int| 0 <= q < j ==> #[trigger] pair_views(out@)[q] == pair_views(items@)[ov[q]],
        decreases m - j,
    {
        let p = &items[order[j]];
        let ghost before = out@;
        let a = p.0.clone();
        let b = p.1.clone();
        assert(a == p.0 && b == p.1);
        out.push((a, b));
        assert(out@[j as int] == *p);
        assert(ov[j as int] == order@[j as int] as int);
        assert(*p == items@[ov[j as int]]);
        assert forall|q: int| 0 <= q < j + 1 implies #[trigger] pair_views(out@)[q] == pair_views(items@)[ov[q]] by {
            if q < j {
                assert(out@[q] == before[q]);
                assert(pair_views(out@)[q] == pair_views(before)[q]);
            } else {
                assert(pair_views(out@)[q] == (out@[q].0@, out@[q].1@));
                assert(pair_views(items@)[ov[q]] == (items@[ov[q]].0@, items@[ov[q]].1@));
            }
        }
        j += 1;
    }
    let ghost want = sorted_by(
        pair_views(items@),
        keys@.map_values(|k: (usize, usize)| crate::order::key_view(k)),
        limit as int,
    );
    assert(pair_views(out@) =~= want);
    out
}

/// The stroke sort key of a text.
fn stroke_key_of(characters: &CharacterDictionary, s: &str) -> (r: usize)
    requires
        characters.wf(),
    ensures
        r as int == stroke_key(*characters, s@),
{
    match characters.stroke_count(s) {
        Some(n) => n,
        None => usize::MAX,
    }
}

pub open spec fn stroke_keys(characters: CharacterDictionary, es: Seq<WordEntry>, ty: DictionaryType) -> Seq<
    (int, int),
> {
    es.map_values(|e: WordEntry| (stroke_key(characters, form(e, ty)), 0int))
}

/// The words strictly containing `slice`, by stroke count, at most `limit`.
pub open spec fn words_including_subslice(
    words: WordDictionary,
    characters: CharacterDictionary,
    slice: Seq<char>,
    limit: int,
    ty: DictionaryType,
) -> Seq<WordEntry> {
    let es = including_subslice(words.all_entries(), slice, ty);
    sorted_by(es, stroke_keys(characters, es, ty), limit)
}

/// The words whose form in `ty` strictly contains `slice`, fewest strokes
/// first (unknown stroke counts last), at most `limit` of them.
pub fn lookup_words_including_subslice<'a>(
    words: &'a WordDictionary,
    characters: &CharacterDictionary,
    slice: &str,
    limit: usize,
    ty: DictionaryType,
) -> (r: Vec<&'a WordEntry>)
    requires
        words.wf(),
        characters.wf(),
    ensures
        deref_seq(r@) == words_including_subslice(*words, *characters, slice@, limit as int, ty),
{
    let items = words.iter_including_subslice(slice, ty);
    let ghost es = deref_seq(items@);
    let mut keys: Vec<(usize, usize)> = Vec::new();
    let mut i: usize = 0;
    while i < items.len()
        invariant
            i <= items@.len(),
            characters.wf(),
            es == deref_seq(items@),
            keys@.map_values(|k: (usize, usize)| crate::order::key_view(k)) == stroke_keys(
                *characters,
                es.subrange(0, i as int),
                ty,
            ),
        decreases items@.len() - i,
    {
        let e = items[i];
        let k = match ty {
            DictionaryType::Simplified => stroke_key_of(characters, e.simplified.as_str()),
            DictionaryType::Traditional => stroke_key_of(characters, e.traditional.as_str()),
        };
        let ghost before = keys@.map_values(|k: (usize, usize)| crate::order::key_view(k));
        keys.push((k, 0));
        assert(keys@.map_values(|k: (usize, usize)| crate::order::key_view(k)) =~= before.push(
            (k as int, 0int),
        ));
        assert(stroke_keys(*characters, es.subrange(0, i + 1), ty) =~= stroke_keys(
            *characters,
            es.subrange(0, i as int),
            ty,
        ).push((stroke_key(*characters, form(es[i as int], ty)), 0int)));
        i += 1;
    }
    assert(es.subrange(0, i as int) =~= es);
    let r = take_sorted(&items, &keys, limit);
    proof {
        let kv = keys@.map_values(|k: (usize, usize)| crate::order::key_view(k));
        lemma_deref_sorted(items@, kv, limit as int);
    }
    r
}

/// The homophones of `word`, exact ones first, then by stroke count.
pub open spec fn homophones_ranked(
    words: WordDictionary,
    characters: CharacterDictionary,
    word: Seq<char>,
    ty: DictionaryType,
) -> Seq<(WordEntry, bool)> {
    let hs = words.homophones(word, ty);
    sorted_by(
        hs,
        hs.map_values(
            |h: (WordEntry, bool)|
                (
                    if h.1 {
                        0int
                    } else {
                        1int
                    },
                    stroke_key(characters, form(h.0, ty)),
                ),
        ),
        hs.len() as int,
    )
}

/// The characters other than `component` whose decomposition lists it and
/// that are words in `ty`, by stroke count.
pub open spec fn characters_including_component(
    words: WordDictionary,
    characters: CharacterDictionary,
    component: char,
    ty: DictionaryType,
) -> Seq<CharacterEntry> {
    let kept = word_characters(
        words,
        characters.including_component(characters.ordered(), component),
        ty,
    );
    sorted_by(
        kept,
        kept.map_values(|e: CharacterEntry| (stroke_key(characters, seq![e.character]), 0int)),
        kept.len() as int,
    )
}

/// The characters other than `component` whose decomposition lists it and
/// that are words in `ty`, fewest strokes first.
pub fn lookup_characters_including_component<'a>(
    words: &WordDictionary,
    characters: &'a CharacterDictionary,
    component: char,
    ty: DictionaryType,
) -> (r: Vec<&'a CharacterEntry>)
    requires
        words.wf(),
        characters.wf(),
    ensures
        deref_seq(r@) == characters_including_component(*words, *characters, component, ty),
{
    let all = characters.get_characters_including_component(component);
    let ghost cs = deref_seq(all@);
    let mut kept: Vec<&'a CharacterEntry> = Vec::new();
    let mut keys: Vec<(usize, usize)> = Vec::new();
    let mut i: usize = 0;
    while i < all.len()
        invariant
            i <= all@.len(),
            words.wf(),
            characters.wf(),
            cs == deref_seq(all@),
            deref_seq(kept@) == word_characters(*words, cs.subrange(0, i as int), ty),
            keys@.map_values(|k: (usize, usize)| crate::order::key_view(k)) == deref_seq(kept@).map_values(
                |e: CharacterEntry| (stroke_key(*characters, seq![e.character]), 0int),
            ),
        decreases all@.len() - i,
    {
        let e = all[i];
        assert(cs.subrange(0, i + 1).drop_last() =~= cs.subrange(0, i as int));
        assert(cs.subrange(0, i + 1).last() == *e);
        let one = [e.character];
        let text = string_of(&one, 0, 1);
        assert(one@.subrange(0, 1) =~= seq![e.character]);
        if words.get(text.as_str(), ty).is_some() {
            let k = stroke_key_of(characters, text.as_str());
            let ghost before = kept@;
            let ghost kb = keys@.map_values(|k: (usize, usize)| crate::order::key_view(k));
            kept.push(e);
            keys.push((k, 0));
            assert(deref_seq(kept@) =~= deref_seq(before).push(*e));
            assert(keys@.map_values(|k: (usize, usize)| crate::order::key_view(k)) =~= kb.push(
                (k as int, 0int),
            ));
            assert(deref_seq(kept@).map_values(
                |e: CharacterEntry| (stroke_key(*characters, seq![e.character]), 0int),
            ) =~= deref_seq(before).map_values(
                |e: CharacterEntry| (stroke_key(*characters, seq![e.character]), 0int),
            ).push((k as int, 0int)));
        }
        i += 1;
    }
    assert(cs.subrange(0, i as int) =~= cs);
    let r = take_sorted(&kept, &keys, kept.len());
    proof {
        let kv = keys@.map_values(|k: (usize, usize)| crate::order::key_view(k));
        lemma_deref_sorted(kept@, kv, kept@.len() as int);
    }
    r
}

/// An orthography as a query asks for it: simplified only when asked for
/// simplified and not for traditional.
#[derive(Debug, Clone, Copy)]
pub struct DictionaryTypeQuery {
    pub simplified: Option<bool>,
    pub traditional: Option<bool>,
}

pub open spec fn query_type(q: DictionaryTypeQuery) -> DictionaryType {
    if q.simplified == Some(true) && q.traditional != Some(true) {
        DictionaryType::Simplified
    } else {
        DictionaryType::Traditional
    }
}

impl From<DictionaryTypeQuery> for DictionaryType {
    fn from(value: DictionaryTypeQuery) -> (r: DictionaryType)
        ensures
            r == query_type(value),
    {
        let simplified = match value.simplified {
            Some(b) => b,
            None => false,
        };
        let traditional = match value.traditional {
            Some(b) => b,
            None => false,
        };
        if simplified && !traditional {
            DictionaryType::Simplified
        } else {
            DictionaryType::Traditional
        }
    }
}

impl vstd::std_specs::convert::FromSpecImpl<DictionaryTypeQuery> for DictionaryType {
    open spec fn obeys_from_spec() -> bool {
        true
    }

    open spec fn from_spec(v: DictionaryTypeQuery) -> DictionaryType {
        query_type(v)
    }
}

/// The dictionaries the queries read, built once and then frozen.
pub struct Worker {
    pub word_dict: WordDictionary,
    pub character_dict: CharacterDictionary,
    pub frequency_dict: FrequencyDictionary,
    pub sentences_dict: SentenceDictionary,
}

impl Worker {
    pub open spec fn wf(self) -> bool {
        self.word_dict.wf() && self.character_dict.wf() && self.frequency_dict.wf()
    }

    /// The entries of `word`: under its traditional key, else its simplified one.
    pub open spec fn entries_of_word(self, word: Seq<char>) -> Seq<WordEntry> {
        if self.word_dict.map(DictionaryType::Traditional).contains_key(word) {
            self.word_dict.map(DictionaryType::Traditional)[word]
        } else {
            self.word_dict.entries_for(word, DictionaryType::Simplified)
        }
    }

    /// The frequency score of `word`: that of the first form of its entries
    /// with a frequency, or 0.
    pub open spec fn word_frequency(self, word: Seq<char>) -> int {
        first_score(self.frequency_dict, entry_forms(self.entries_of_word(word)))
    }

    /// The sentences with `word`, shortest first in bytes, at most `limit`.
    pub open spec fn sentences_including_word(self, word: Seq<char>, limit: int, ty: DictionaryType) -> Seq<
        (Seq<char>, Seq<char>),
    > {
        let ss = sentences_with(self.sentences_dict@, word, ty);
        sorted_by(ss, ss.map_values(|s: (Seq<char>, Seq<char>)| (byte_key(s.0), 0int)), limit)
    }

    pub fn new(
        word_dict: WordDictionary,
        character_dict: CharacterDictionary,
        frequency_dict: FrequencyDictionary,
        sentences_dict: SentenceDictionary,
    ) -> (r: Self)
        ensures
            r.word_dict == word_dict,
            r.character_dict == character_dict,
            r.frequency_dict == frequency_dict,
            r.sentences_dict == sentences_dict,
    {
        Worker { word_dict, character_dict, frequency_dict, sentences_dict }
    }

    /// Splits `input` into tokens.
    pub fn tokenize(&self, input: &str) -> (r: Vec<Token>)
        requires
            self.wf(),
        ensures
            r@.map_values(|t: Token| token_view(t)) == self.word_dict.tokens(input@),
    {
        self.word_dict.tokenize(input)
    }

    /// The entries of `word` in the orthography `simplified` selects; none when it has none.
    pub fn get_word(&self, word: &str, simplified: bool) -> (r: Vec<&WordEntry>)
        requires
            self.wf(),
        ensures
            deref_seq(r@) == self.word_dict.entries_for(word@, orthography(simplified)),
    {
        let mut out: Vec<&WordEntry> = Vec::new();
        match self.word_dict.get(word, orthography_of(simplified)) {
            Some(list) => {
                let mut i: usize = 0;
                while i < list.len()
                    invariant
                        i <= list@.len(),
                        deref_seq(out@) == list@.subrange(0, i as int),
                    decreases list@.len() - i,
                {
                    let ghost before = out@;
                    out.push(&list[i]);
                    assert(deref_seq(out@) =~= deref_seq(before).push(list@[i as int]));
                    assert(deref_seq(out@) =~= list@.subrange(0, i + 1));
                    i += 1;
                }
                assert(list@.subrange(0, i as int) =~= list@);
            },
            None => {
                assert(deref_seq(out@) =~= Seq::<WordEntry>::empty());
            },
        }
        out
    }

    /// The words whose form strictly contains `slice`, fewest strokes first,
    /// at most `limit` of them.
    pub fn get_words_including_subslice(&self, slice: &str, limit: usize, simplified: bool) -> (r: Vec<
        &WordEntry,
    >)
        requires
            self.wf(),
        ensures
            deref_seq(r@) == words_including_subslice(
                self.word_dict,
                self.character_dict,
                slice@,
                limit as int,
                orthography(simplified),
            ),
    {
        lookup_words_including_subslice(
            &self.word_dict,
            &self.character_dict,
            slice,
            limit,
            orthography_of(simplified),
        )
    }

    /// The homophones of `word`, exact ones first, then fewest strokes first.
    pub fn get_homophones(&self, word: &str, simplified: bool) -> (r: Vec<(&WordEntry, bool)>)
        requires
            self.wf(),
        ensures
            deref_pairs(r@) == homophones_ranked(
                self.word_dict,
                self.character_dict,
                word@,
                orthography(simplified),
            ),
    {
        let ty = orthography_of(simplified);
        let items = self.word_dict.iter_homophones(word, ty);
        let ghost hs = deref_pairs(items@);
        let mut keys: Vec<(usize, usize)> = Vec::new();
        let mut i: usize = 0;
        while i < items.len()
            invariant
                i <= items@.len(),
                self.wf(),
                hs == deref_pairs(items@),
                keys@.map_values(|k: (usize, usize)| crate::order::key_view(k)) == hs.subrange(
                    0,
                    i as int,
                ).map_values(
                    |h: (WordEntry, bool)|
                        (
                            if h.1 {
                                0int
                            } else {
                                1int
                            },
                            stroke_key(self.character_dict, form(h.0, ty)),
                        ),
                ),
            decreases items@.len() - i,
        {
            let (e, exact) = items[i];
            let k = match ty {
                DictionaryType::Simplified => stroke_key_of(&self.character_dict, e.simplified.as_str()),
                DictionaryType::Traditional => stroke_key_of(&self.character_dict, e.traditional.as_str()),
            };
            let flag: usize = if exact {
                0
            } else {
                1
            };
            let ghost before = keys@.map_values(|k: (usize, usize)| crate::order::key_view(k));
            keys.push((flag, k));
            assert(hs[i as int] == (*e, exact));
            assert(keys@.map_values(|k: (usize, usize)| crate::order::key_view(k)) =~= before.push(
                (flag as int, k as int),
            ));
            assert(hs.subrange(0, i + 1).map_values(
                |h: (WordEntry, bool)|
                    (
                        if h.1 {
                            0int
                        } else {
                            1int
                        },
                        stroke_key(self.character_dict, form(h.0, ty)),
                    ),
            ) =~= hs.subrange(0, i as int).map_values(
                |h: (WordEntry, bool)|
                    (
                        if h.1 {
                            0int
                        } else {
                            1int
                        },
                        stroke_key(self.character_dict, form(h.0, ty)),
                    ),
            ).push((flag as int, k as int)));
            assert(keys@.map_values(|k: (usize, usize)| crate::order::key_view(k)) =~= hs.subrange(
                0,
                i + 1,
            ).map_values(
                |h: (WordEntry, bool)|
                    (
                        if h.1 {
                            0int
                        } else {
                            1int
                        },
                        stroke_key(self.character_dict, form(h.0, ty)),
                    ),
            ));
            i += 1;
        }
        assert(hs.subrange(0, i as int) =~= hs);
        let r = take_sorted(&items, &keys, items.len());
        proof {
            let kv = keys@.map_values(|k: (usize, usize)| crate::order::key_view(k));
            lemma_deref_pairs_sorted(items@, kv, items@.len() as int);
        }
        r
    }

    /// The entry for `character`.
    pub fn get_character(&self, character: char) -> (r: Option<&CharacterEntry>)
        requires
            self.wf(),
        ensures
            match r {
                Some(e) => self.character_dict@.contains_key(character) && *e
                    == self.character_dict@[character],
                None => !self.character_dict@.contains_key(character),
            },
    {
        self.character_dict.get(character)
    }

    /// The characters other than `component` whose decomposition lists it
    /// and that are words in the selected orthography, fewest strokes first.
    pub fn get_characters_including_component(&self, component: char, simplified: bool) -> (r: Vec<
        &CharacterEntry,
    >)
        requires
            self.wf(),
        ensures
            deref_seq(r@) == characters_including_component(
                self.word_dict,
                self.character_dict,
                component,
                orthography(simplified),
            ),
    {
        lookup_characters_including_component(
            &self.word_dict,
            &self.character_dict,
            component,
            orthography_of(simplified),
        )
    }

    /// The decomposition of `character`.
    pub fn decompose(&self, character: char) -> (r: CharacterDecomposition)
        requires
            self.wf(),
        ensures
            self.character_dict.decomposes_to(
                character,
                crate::character::MAX_DECOMPOSITION_DEPTH as nat,
                r,
            ),
    {
        self.character_dict.decompose(character)
    }

    /// The frequency score of one word.
    fn word_score(&self, word: &str) -> (r: u8)
        requires
            self.wf(),
        ensures
            r as int == self.word_frequency(word@),
            r <= 100,
    {
        let empty: Vec<WordEntry> = Vec::new();
        let list: &Vec<WordEntry> = match self.word_dict.get(word, DictionaryType::Traditional) {
            Some(v) => v,
            None => match self.word_dict.get(word, DictionaryType::Simplified) {
                Some(v) => v,
                None => &empty,
            },
        };
        let ghost es = self.entries_of_word(word@);
        assert(list@ == es);
        assert(es.subrange(0, es.len() as int) =~= es);
        let mut i: usize = 0;
        while i < list.len()
            invariant
                i <= list@.len(),
                list@ == es,
                es == self.entries_of_word(word@),
                self.wf(),
                first_score(self.frequency_dict, entry_forms(es)) == first_score(
                    self.frequency_dict,
                    entry_forms(es.subrange(i as int, es.len() as int)),
                ),
            decreases list@.len() - i,
        {
            let e = &list[i];
            let ghost tail = es.subrange(i as int, es.len() as int);
            assert(tail[0] == *e);
            assert(tail.drop_first() =~= es.subrange(i + 1, es.len() as int));
            let ghost fs = entry_forms(tail);
            assert(fs == seq![e.simplified@, e.traditional@] + entry_forms(tail.drop_first()));
            assert(fs[0] == e.simplified@);
            assert(fs.drop_first()[0] == e.traditional@);
            assert(fs.drop_first().drop_first() =~= entry_forms(tail.drop_first()));
            match self.frequency_dict.lookup(e.simplified.as_str()) {
                Some(sc) => {
                    proof {
                        crate::frequency::lemma_normalize_range(
                            self.frequency_dict.raw_value(e.simplified@)->0,
                            self.frequency_dict.max(),
                        );
                        assert(self.frequency_dict.raw_value(fs[0]) is Some);
                        assert(sc as int == normalize(self.frequency_dict.raw_value(fs[0])->0, self.frequency_dict.max()));
                        assert(first_score(self.frequency_dict, fs) == sc as int);
                    }
                    return sc;
                },
                None => {},
            }
            match self.frequency_dict.lookup(e.traditional.as_str()) {
                Some(sc) => {
                    proof {
                        crate::frequency::lemma_normalize_range(
                            self.frequency_dict.raw_value(e.traditional@)->0,
                            self.frequency_dict.max(),
                        );
                        assert(first_score(self.frequency_dict, fs) == first_score(self.frequency_dict, fs.drop_first()));
                        assert(first_score(self.frequency_dict, fs.drop_first()) == sc as int);
                    }
                    return sc;
                },
                None => {},
            }
            assert(first_score(self.frequency_dict, fs) == first_score(self.frequency_dict, fs.drop_first()));
            assert(first_score(self.frequency_dict, fs.drop_first()) == first_score(
                self.frequency_dict,
                fs.drop_first().drop_first(),
            ));
            i += 1;
        }
        assert(es.subrange(i as int, es.len() as int) =~= Seq::<WordEntry>::empty());
        0
    }

    /// The frequency score from 0 to 100 of each of `words`, in order.
    pub fn get_word_frequencies(&self, words: &Vec<String>) -> (r: Vec<u8>)
        requires
            self.wf(),
        ensures
            r@.len() == words@.len(),
            forall|i: int| 0 <= i < r@.len() ==> (#[trigger] r@[i]) as int == self.word_frequency(
                words@[i]@,
            ),
            forall|i: int| 0 <= i < r@.len() ==> #[trigger] r@[i] <= 100,
    {
        let mut out: Vec<u8> = Vec::new();
        let mut i: usize = 0;
        while i < words.len()
            invariant
                i <= words@.len(),
                self.wf(),
                out@.len() == i,
                forall|q: int| 0 <= q < i ==> (#[trigger] out@[q]) as int == self.word_frequency(
                    words@[q]@,
                ),
                forall|q: int| 0 <= q < i ==> #[trigger] out@[q] <= 100,
            decreases words@.len() - i,
        {
            let sc = self.word_score(words[i].as_str());
            out.push(sc);
            i += 1;
        }
        out
    }

    /// The sentences with a token whose form in the selected orthography is
    /// `word`, shortest first in bytes, at most `limit` of them.
    pub fn get_sentences_including_word(&self, word: &str, limit: usize, simplified: bool) -> (r: Vec<
        (String, String),
    >)
        requires
            self.wf(),
        ensures
            pair_views(r@) == self.sentences_including_word(word@, limit as int, orthography(simplified)),
    {
        let ty = orthography_of(simplified);
        let items = self.sentences_dict.iter_sentences_including_word(word, ty);
        let ghost ss = pair_views(items@);
        let mut keys: Vec<(usize, usize)> = Vec::new();
        let mut i: usize = 0;
        while i < items.len()
            invariant
                i <= items@.len(),
                ss == pair_views(items@),
                keys@.map_values(|k: (usize, usize)| crate::order::key_view(k)) == ss.subrange(
                    0,
                    i as int,
                ).map_values(|s: (Seq<char>, Seq<char>)| (byte_key(s.0), 0int)),
            decreases items@.len() - i,
        {
            let k = byte_length(items[i].0.as_str());
            let ghost before = keys@.map_values(|k: (usize, usize)| crate::order::key_view(k));
            keys.push((k, 0));
            assert(ss[i as int].0 == items@[i as int].0@);
            assert(keys@.map_values(|k: (usize, usize)| crate::order::key_view(k)) =~= before.push(
                (k as int, 0int),
            ));
            assert(ss.subrange(0, i + 1).map_values(|s: (Seq<char>, Seq<char>)| (byte_key(s.0), 0int))
                =~= ss.subrange(0, i as int).map_values(
                |s: (Seq<char>, Seq<char>)| (byte_key(s.0), 0int),
            ).push((k as int, 0int)));
            assert(keys@.map_values(|k: (usize, usize)| crate::order::key_view(k)) =~= ss.subrange(
                0,
                i + 1,
            ).map_values(|s: (Seq<char>, Seq<char>)| (byte_key(s.0), 0int)));
            i += 1;
        }
        assert(ss.subrange(0, i as int) =~= ss);
        take_sorted_pairs(&items, &keys, limit)
    }
}

/// Splits `input` into tokens with `words`.
pub fn tokenize(words: &WordDictionary, input: &str) -> (r: Vec<Token>)
    requires
        words.wf(),
    ensures
        r@.map_values(|t: Token| token_view(t)) == words.tokens(input@),
{
    words.tokenize(input)
}

/// The entries under simplified `word`.
pub fn lookup_simplified<'a>(words: &'a WordDictionary, word: &str) -> (r: Option<&'a Vec<WordEntry>>)
    requires
        words.wf(),
    ensures
        match r {
            Some(v) => words.map(DictionaryType::Simplified).contains_key(word@) && v@ == words.map(
                DictionaryType::Simplified,
            )[word@],
            None => !words.map(DictionaryType::Simplified).contains_key(word@),
        },
{
    words.get(word, DictionaryType::Simplified)
}

/// The entries under traditional `word`.
pub fn lookup_traditional<'a>(words: &'a WordDictionary, word: &str) -> (r: Option<&'a Vec<WordEntry>>)
    requires
        words.wf(),
    ensures
        match r {
            Some(v) => words.map(DictionaryType::Traditional).contains_key(word@) && v@ == words.map(
                DictionaryType::Traditional,
            )[word@],
            None => !words.map(DictionaryType::Traditional).contains_key(word@),
        },
{
    words.get(word, DictionaryType::Traditional)
}

/// The words whose simplified form strictly contains `slice`, fewest strokes first.
pub fn lookup_simplified_including_subslice<'a>(
    words: &'a WordDictionary,
    characters: &CharacterDictionary,
    slice: &str,
) -> (r: Vec<&'a WordEntry>)
    requires
        words.wf(),
        characters.wf(),
    ensures
        deref_seq(r@) == words_including_subslice(
            *words,
            *characters,
            slice@,
            usize::MAX as int,
            DictionaryType::Simplified,
        ),
{
    lookup_words_including_subslice(words, characters, slice, usize::MAX, DictionaryType::Simplified)
}

/// The words whose traditional form strictly contains `slice`, fewest strokes first.
pub fn lookup_traditional_with_subslice<'a>(
    words: &'a WordDictionary,
    characters: &CharacterDictionary,
    slice: &str,
) -> (r: Vec<&'a WordEntry>)
    requires
        words.wf(),
        characters.wf(),
    ensures
        deref_seq(r@) == words_including_subslice(
            *words,
            *characters,
            slice@,
            usize::MAX as int,
            DictionaryType::Traditional,
        ),
{
    lookup_words_including_subslice(words, characters, slice, usize::MAX, DictionaryType::Traditional)
}

/// The entry for `character`.
pub fn lookup_character(characters: &CharacterDictionary, character: char) -> (r: Option<
    &CharacterEntry,
>)
    requires
        characters.wf(),
    ensures
        match r {
            Some(e) => characters@.contains_key(character) && *e == characters@[character],
            None => !characters@.contains_key(character),
        },
{
    characters.get(character)
}

/// The simplified words among the characters that contain `component`, fewest strokes first.
pub fn lookup_simplified_characters_including_component<'a>(
    words: &WordDictionary,
    characters: &'a CharacterDictionary,
    component: char,
) -> (r: Vec<&'a CharacterEntry>)
    requires
        words.wf(),
        characters.wf(),
    ensures
        deref_seq(r@) == characters_including_component(
            *words,
            *characters,
            component,
            DictionaryType::Simplified,
        ),
{
    lookup_characters_including_component(words, characters, component, DictionaryType::Simplified)
}

/// The traditional words among the characters that contain `component`, fewest strokes first.
pub fn lookup_traditional_characters_including_component<'a>(
    words: &WordDictionary,
    characters: &'a CharacterDictionary,
    component: char,
) -> (r: Vec<&'a CharacterEntry>)
    requires
        words.wf(),
        characters.wf(),
    ensures
        deref_seq(r@) == characters_including_component(
            *words,
            *characters,
            component,
            DictionaryType::Traditional,
        ),
{
    lookup_characters_including_component(words, characters, component, DictionaryType::Traditional)
}

/// The decomposition of `character`.
pub fn decompose(characters: &CharacterDictionary, character: char) -> (r: CharacterDecomposition)
    requires
        characters.wf(),
    ensures
        characters.decomposes_to(character, crate::character::MAX_DECOMPOSITION_DEPTH as nat, r),
{
    characters.decompose(character)
}

} // verus!
