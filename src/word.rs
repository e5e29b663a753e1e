//! The bilingual word dictionary: two prefix trees of entries, one keyed by the
//! simplified form and one by the traditional form, and the forward maximum
//! match tokenizer built on them.
use vstd::prelude::*;

use crate::cedict::{
    all_ascii, entry_fields, lines, parse_cedict, parse_entry, parse_lines,
    split_lines, EntryFields,
};
use crate::text::{
    chars_of, contains_seq, contains_slice, slices_equal, is_ascii_alnum, is_ascii_alphanumeric, is_ascii_whitespace, is_ascii_ws,
    starts_with, starts_with_at, string_of,
};
use crate::trie::{deref_seq, lemma_all_values_stored, lemma_prefix_complete, CharTrie};

verus! {

#[derive(Debug, PartialEq, Eq, Clone)]
pub struct WordEntry {
    pub traditional: String,
    pub simplified: String,
    pub pinyin: String,
    pub english: String,
}

#[derive(Debug, PartialEq, Eq, Clone)]
pub struct Token {
    pub value: String,
    /// Code points emitted before this token.
    pub offset: usize,
    pub has_entries: bool,
}

/// Which orthography a lookup goes by.
#[derive(Debug, PartialEq, Eq, Clone, Copy)]
pub enum DictionaryType {
    Simplified,
    Traditional,
}

pub struct WordDictionary {
    simplified: CharTrie<Vec<WordEntry>>,
    traditional: CharTrie<Vec<WordEntry>>,
}

/// The word dictionary under the name of its source format.
pub type Cedict = WordDictionary;

/// The form of `e` in orthography `ty`.
pub open spec fn form(e: WordEntry, ty: DictionaryType) -> Seq<char> {
    match ty {
        DictionaryType::Simplified => e.simplified@,
        DictionaryType::Traditional => e.traditional@,
    }
}

/// The entries of a sequence of entry lists, in order.
pub open spec fn entries_of(vs: Seq<Vec<WordEntry>>) -> Seq<WordEntry>
    decreases vs.len(),
{
    if vs.len() == 0 {
        Seq::empty()
    } else {
        entries_of(vs.drop_last()) + vs.last()@
    }
}

/// Punctuation that counts as Chinese text.
pub open spec fn is_chinese_punct(c: char) -> bool {
    c == '·' || c == '×' || c == '—' || c == '‘' || c == '’' || c == '“' || c == '”' || c == '…'
        || c == '、' || c == '。' || c == '《' || c == '》' || c == '『' || c == '』' || c == '【'
        || c == '】' || c == '！' || c == '（' || c == '）' || c == '，' || c == '：' || c == '；'
        || c == '？'
}

pub fn is_chinese_punctuation(c: char) -> (r: bool)
    ensures
        r == is_chinese_punct(c),
{
    c == '·' || c == '×' || c == '—' || c == '‘' || c == '’' || c == '“' || c == '”' || c == '…'
        || c == '、' || c == '。' || c == '《' || c == '》' || c == '『' || c == '』' || c == '【'
        || c == '】' || c == '！' || c == '（' || c == '）' || c == '，' || c == '：' || c == '；'
        || c == '？'
}

/// The longer of the forms of `e` that `rest` begins with (the simplified
/// one when both are equally long).
pub open spec fn hit(e: WordEntry, rest: Seq<char>) -> Option<Seq<char>> {
    let s = starts_with(rest, e.simplified@);
    let t = starts_with(rest, e.traditional@);
    if s && t {
        if e.simplified@.len() < e.traditional@.len() {
            Some(e.traditional@)
        } else {
            Some(e.simplified@)
        }
    } else if s {
        Some(e.simplified@)
    } else if t {
        Some(e.traditional@)
    } else {
        None
    }
}

/// Keeps the best match so far unless the new one is strictly longer.
pub open spec fn longer(best: Option<Seq<char>>, h: Option<Seq<char>>) -> Option<Seq<char>> {
    match best {
        Some(b) => match h {
            Some(w) => if b.len() < w.len() {
                Some(w)
            } else {
                Some(b)
            },
            None => Some(b),
        },
        None => h,
    }
}

/// Starting from `init`, the longest form among `cands` that `rest` begins
/// with, the earlier one on ties. All such forms begin `rest`, so the longest
/// in code points is the longest in bytes.
pub open spec fn best_hit(init: Option<Seq<char>>, cands: Seq<WordEntry>, rest: Seq<char>) -> Option<
    Seq<char>,
>
    decreases cands.len(),
{
    if cands.len() == 0 {
        init
    } else {
        longer(best_hit(init, cands.drop_last(), rest), hit(cands.last(), rest))
    }
}

/// Scanning two lists one after the other is scanning their concatenation.
pub proof fn lemma_best_hit_concat(
    init: Option<Seq<char>>,
    a: Seq<WordEntry>,
    b: Seq<WordEntry>,
    rest: Seq<char>,
)
    ensures
        best_hit(init, a + b, rest) == best_hit(best_hit(init, a, rest), b, rest),
    decreases b.len(),
{
    if b.len() == 0 {
        assert(a + b =~= a);
    } else {
        assert((a + b).drop_last() =~= a + b.drop_last());
        lemma_best_hit_concat(init, a, b.drop_last(), rest);
    }
}

/// `r` is the length of `w`, or both are absent.
pub open spec fn same_len(r: Option<usize>, w: Option<Seq<char>>) -> bool {
    match w {
        Some(w) => r is Some && r->0 as int == w.len(),
        None => r is None,
    }
}

/// The form of a parsed line's entry in orthography `ty`.
pub open spec fn fields_form(f: EntryFields, ty: DictionaryType) -> Seq<char> {
    match ty {
        DictionaryType::Simplified => f.1,
        DictionaryType::Traditional => f.0,
    }
}

/// The entries of `es` whose form in orthography `ty` is `k`, in order.
pub open spec fn key_entries(es: Seq<EntryFields>, ty: DictionaryType, k: Seq<char>) -> Seq<
    EntryFields,
>
    decreases es.len(),
{
    if es.len() == 0 {
        Seq::empty()
    } else if fields_form(es.last(), ty) == k {
        key_entries(es.drop_last(), ty, k).push(es.last())
    } else {
        key_entries(es.drop_last(), ty, k)
    }
}

/// `m` with `e` appended to the list under `k`.
pub open spec fn appended(m: Map<Seq<char>, Seq<WordEntry>>, k: Seq<char>, e: WordEntry) -> Map<
    Seq<char>,
    Seq<WordEntry>,
> {
    m.insert(
        k,
        (if m.contains_key(k) {
            m[k]
        } else {
            Seq::empty()
        }).push(e),
    )
}

fn copy_entry(e: &WordEntry) -> (r: WordEntry)
    ensures
        r == *e,
{
    WordEntry {
        traditional: e.traditional.clone(),
        simplified: e.simplified.clone(),
        pinyin: e.pinyin.clone(),
        english: e.english.clone(),
    }
}

/// `c` with ASCII upper case made lower case.
pub open spec fn lower_char(c: char) -> char {
    if 'A' <= c && c <= 'Z' {
        ((c as u8) + 32) as char
    } else {
        c
    }
}

/// `s` with ASCII upper case made lower case.
pub open spec fn lower(s: Seq<char>) -> Seq<char> {
    s.map_values(|c: char| lower_char(c))
}

/// `s` without ASCII digits.
pub open spec fn without_digits(s: Seq<char>) -> Seq<char>
    decreases s.len(),
{
    if s.len() == 0 {
        Seq::empty()
    } else if '0' <= s.last() && s.last() <= '9' {
        without_digits(s.drop_last())
    } else {
        without_digits(s.drop_last()).push(s.last())
    }
}

/// A pinyin string without case and tones.
pub open spec fn normalized(s: Seq<char>) -> Seq<char> {
    without_digits(lower(s))
}

pub fn lowercase_ascii(s: &[char]) -> (r: Vec<char>)
    ensures
        r@ == lower(s@),
{
    let mut r: Vec<char> = Vec::new();
    let mut i: usize = 0;
    while i < s.len()
        invariant
            i <= s@.len(),
            r@ == lower(s@.subrange(0, i as int)),
        decreases s@.len() - i,
    {
        let c = s[i];
        let l = if 'A' <= c && c <= 'Z' {
            ((c as u8) + 32) as char
        } else {
            c
        };
        r.push(l);
        assert(r@ =~= lower(s@.subrange(0, i + 1)));
        i += 1;
    }
    assert(s@.subrange(0, i as int) =~= s@);
    r
}

pub fn strip_digits(s: &[char]) -> (r: Vec<char>)
    ensures
        r@ == without_digits(s@),
{
    let mut r: Vec<char> = Vec::new();
    let mut i: usize = 0;
    while i < s.len()
        invariant
            i <= s@.len(),
            r@ == without_digits(s@.subrange(0, i as int)),
        decreases s@.len() - i,
    {
        let c = s[i];
        assert(s@.subrange(0, i + 1).drop_last() =~= s@.subrange(0, i as int));
        if !('0' <= c && c <= '9') {
            r.push(c);
        }
        i += 1;
    }
    assert(s@.subrange(0, i as int) =~= s@);
    r
}

/// Whether `x` is one of `list`.
fn contains_chars(list: &Vec<Vec<char>>, x: &[char]) -> (r: bool)
    ensures
        r == crate::text::views(list@).contains(x@),
{
    let mut i: usize = 0;
    while i < list.len()
        invariant
            i <= list@.len(),
            forall|k: int| 0 <= k < i ==> list@[k]@ != x@,
        decreases list@.len() - i,
    {
        if slices_equal(list[i].as_slice(), x) {
            assert(crate::text::views(list@)[i as int] == x@);
            return true;
        }
        i += 1;
    }
    assert forall|k: int| 0 <= k < list@.len() implies crate::text::views(list@)[k] != x@ by {
        assert(list@[k]@ != x@);
    }
    false
}

/// The entries of `es` whose form in orthography `ty` strictly contains `slice`.
pub open spec fn including_subslice(es: Seq<WordEntry>, slice: Seq<char>, ty: DictionaryType) -> Seq<
    WordEntry,
>
    decreases es.len(),
{
    if es.len() == 0 {
        Seq::empty()
    } else {
        let e = es.last();
        let rest = including_subslice(es.drop_last(), slice, ty);
        if form(e, ty) != slice && contains_seq(form(e, ty), slice) {
            rest.push(e)
        } else {
            rest
        }
    }
}

/// Whether `e` is a homophone of a word whose lower-cased pinyins are `exact`
/// and whose normalized pinyins are `norm`, and if so whether exactly.
pub open spec fn homophone_kind(
    e: WordEntry,
    word: Seq<char>,
    ty: DictionaryType,
    exact: Seq<Seq<char>>,
    norm: Seq<Seq<char>>,
) -> Option<bool> {
    if form(e, ty) == word || contains_seq(e.english@, "variant of"@) {
        None
    } else if exact.contains(lower(e.pinyin@)) {
        Some(true)
    } else if norm.contains(normalized(e.pinyin@)) {
        Some(false)
    } else {
        None
    }
}

/// The homophones among `es`, each with whether its pinyin matches exactly.
pub open spec fn homophones_among(
    es: Seq<WordEntry>,
    word: Seq<char>,
    ty: DictionaryType,
    exact: Seq<Seq<char>>,
    norm: Seq<Seq<char>>,
) -> Seq<(WordEntry, bool)>
    decreases es.len(),
{
    if es.len() == 0 {
        Seq::empty()
    } else {
        let rest = homophones_among(es.drop_last(), word, ty, exact, norm);
        match homophone_kind(es.last(), word, ty, exact, norm) {
            Some(x) => rest.push((es.last(), x)),
            None => rest,
        }
    }
}

/// The values behind references paired with flags.
pub open spec fn deref_pairs(s: Seq<(&WordEntry, bool)>) -> Seq<(WordEntry, bool)> {
    s.map_values(|p: (&WordEntry, bool)| (*p.0, p.1))
}

/// The view of a token: value, offset, whether it has entries.
pub open spec fn token_view(t: Token) -> (Seq<char>, int, bool) {
    (t.value@, t.offset as int, t.has_entries)
}

impl WordDictionary {
    pub closed spec fn trie(self, ty: DictionaryType) -> CharTrie<Vec<WordEntry>> {
        match ty {
            DictionaryType::Simplified => self.simplified,
            DictionaryType::Traditional => self.traditional,
        }
    }

    /// Entry lists by key, in orthography `ty`.
    pub closed spec fn map(self, ty: DictionaryType) -> Map<Seq<char>, Seq<WordEntry>> {
        self.trie(ty)@.map_values(|v: Vec<WordEntry>| v@)
    }

    /// Entries whose key in orthography `ty` starts with `p`, in enumeration order.
    pub closed spec fn with_prefix(self, ty: DictionaryType, p: Seq<char>) -> Seq<WordEntry> {
        entries_of(self.trie(ty).values_with_prefix(p))
    }

    /// Both tries are well formed, every stored list is non-empty, and every
    /// entry is stored under its own form, with both forms non-empty.
    pub closed spec fn wf(self) -> bool {
        &&& self.simplified.wf()
        &&& self.traditional.wf()
        &&& forall|ty: DictionaryType, k: Seq<char>| #[trigger]
            self.map(ty).contains_key(k) ==> {
                &&& self.map(ty)[k].len() > 0
                &&& forall|i: int|
                    0 <= i < self.map(ty)[k].len() ==> {
                        &&& form(#[trigger] self.map(ty)[k][i], ty) == k
                        &&& self.map(ty)[k][i].simplified@.len() > 0
                        &&& self.map(ty)[k][i].traditional@.len() > 0
                    }
            }
    }

    /// No stored entry has an all-ASCII simplified or traditional form.
    pub open spec fn forms_non_ascii(self) -> bool {
        forall|ty: DictionaryType, k: Seq<char>, i: int|
            #![trigger self.map(ty)[k][i]]
            self.map(ty).contains_key(k) && 0 <= i < self.map(ty)[k].len() ==> !all_ascii(
                self.map(ty)[k][i].simplified@,
            ) && !all_ascii(self.map(ty)[k][i].traditional@)
    }

    /// The dictionary holds exactly the entries `es`: under each key, in
    /// each orthography, the entries with that form, in order.
    pub open spec fn holds(self, es: Seq<EntryFields>) -> bool {
        forall|ty: DictionaryType, k: Seq<char>|
            #![trigger self.map(ty).contains_key(k)]
            #![trigger key_entries(es, ty, k)]
            (self.map(ty).contains_key(k) <==> key_entries(es, ty, k).len() > 0) && (
            self.map(ty).contains_key(k) ==> self.map(ty)[k].map_values(
                |e: WordEntry| entry_fields(e),
            ) == key_entries(es, ty, k))
    }

    /// Appends `e` under its simplified and its traditional form.
    fn add_entry(&mut self, e: WordEntry)
        requires
            old(self).wf(),
            e.simplified@.len() > 0,
            e.traditional@.len() > 0,
        ensures
            final(self).wf(),
            forall|ty: DictionaryType|
                #[trigger] final(self).map(ty) == appended(old(self).map(ty), form(e, ty), e),
    {
        let ghost before = *self;
        let first = copy_entry(&e);
        let mut list = match self.simplified.take(e.simplified.as_str()) {
            Some(v) => v,
            None => Vec::new(),
        };
        list.push(first);
        self.simplified.push(e.simplified.as_str(), list);
        let mut list = match self.traditional.take(e.traditional.as_str()) {
            Some(v) => v,
            None => Vec::new(),
        };
        let key = e.traditional.clone();
        list.push(e);
        self.traditional.push(key.as_str(), list);
        proof {
            assert forall|ty: DictionaryType| #[trigger]
                self.map(ty) == appended(before.map(ty), form(e, ty), e) by {
                assert(self.map(ty) =~= appended(before.map(ty), form(e, ty), e));
            }
            assert forall|ty: DictionaryType, k: Seq<char>| #[trigger]
                self.map(ty).contains_key(k) implies {
                &&& self.map(ty)[k].len() > 0
                &&& forall|i: int|
                    0 <= i < self.map(ty)[k].len() ==> {
                        &&& form(#[trigger] self.map(ty)[k][i], ty) == k
                        &&& self.map(ty)[k][i].simplified@.len() > 0
                        &&& self.map(ty)[k][i].traditional@.len() > 0
                    }
            } by {
                assert(self.map(ty) == appended(before.map(ty), form(e, ty), e));
                if k != form(e, ty) {
                    assert(before.map(ty).contains_key(k));
                } else {
                    assert forall|i: int| 0 <= i < self.map(ty)[k].len() implies {
                        &&& form(#[trigger] self.map(ty)[k][i], ty) == k
                        &&& self.map(ty)[k][i].simplified@.len() > 0
                        &&& self.map(ty)[k][i].traditional@.len() > 0
                    } by {
                        if before.map(ty).contains_key(k) && i < before.map(ty)[k].len() {
                            assert(self.map(ty)[k][i] == before.map(ty)[k][i]);
                        }
                    }
                }
            }
        }
    }

    /// Reads CEDICT text; lines that describe no entry are skipped.
    pub fn new(data: &str) -> (r: Self)
        ensures
            r.wf(),
            r.forms_non_ascii(),
            r.holds(parse_cedict(data@)),
    {
        let mut d = WordDictionary {
            simplified: CharTrie::with_capacity(16384),
            traditional: CharTrie::with_capacity(16384),
        };
        let cs = chars_of(data);
        let ls = split_lines(cs.as_slice());
        let ghost all = lines(data@);
        proof {
            assert forall|ty: DictionaryType| #[trigger] d.map(ty) == Map::<Seq<char>, Seq<WordEntry>>::empty() by {
                assert(d.map(ty) =~= Map::<Seq<char>, Seq<WordEntry>>::empty());
            }
            assert(all.subrange(0, 0) =~= Seq::<Seq<char>>::empty());
        }
        let mut i: usize = 0;
        while i < ls.len()
            invariant
                i <= ls@.len(),
                crate::text::views(ls@) == all,
                d.wf(),
                d.forms_non_ascii(),
                d.holds(parse_lines(all.subrange(0, i as int))),
            decreases ls@.len() - i,
        {
            let ghost es = parse_lines(all.subrange(0, i as int));
            assert(all.subrange(0, i + 1).drop_last() =~= all.subrange(0, i as int));
            assert(all.subrange(0, i + 1).last() == ls[i as int]@);
            match parse_entry(ls[i].as_slice()) {
                Some(e) => {
                    let ghost before = d;
                    let ghost f = entry_fields(e);
                    proof {
                        crate::cedict::lemma_parsed_forms(ls[i as int]@);
                    }
                    d.add_entry(e);
                    proof {
                        let es2 = es.push(f);
                        assert(parse_lines(all.subrange(0, i + 1)) == es2);
                        assert forall|ty: DictionaryType, k: Seq<char>| #![trigger d.map(ty).contains_key(k)]
                            #![trigger key_entries(es2, ty, k)]
                            (d.map(ty).contains_key(k) <==> key_entries(es2, ty, k).len() > 0) && (
                            d.map(ty).contains_key(k) ==> d.map(ty)[k].map_values(
                                |e: WordEntry| entry_fields(e),
                            ) == key_entries(es2, ty, k)) by {
                            assert(d.map(ty) == appended(before.map(ty), form(e, ty), e));
                            assert(es2.drop_last() =~= es);
                            assert(fields_form(f, ty) == form(e, ty));
                            if k == form(e, ty) {
                                assert(key_entries(es2, ty, k) == key_entries(es, ty, k).push(f));
                                if before.map(ty).contains_key(k) {
                                    assert(d.map(ty)[k].map_values(|e: WordEntry| entry_fields(e))
                                        =~= before.map(ty)[k].map_values(
                                        |e: WordEntry| entry_fields(e),
                                    ).push(f));
                                } else {
                                    assert(key_entries(es, ty, k).len() == 0);
                                    assert(d.map(ty)[k].map_values(|e: WordEntry| entry_fields(e))
                                        =~= seq![f]);
                                    assert(key_entries(es, ty, k) =~= Seq::<EntryFields>::empty());
                                }
                            } else {
                                assert(key_entries(es2, ty, k) == key_entries(es, ty, k));
                            }
                        }
                        assert forall|ty: DictionaryType, k: Seq<char>, j: int|
                            #![trigger d.map(ty)[k][j]]
                            d.map(ty).contains_key(k) && 0 <= j < d.map(ty)[k].len() implies !all_ascii(
                                d.map(ty)[k][j].simplified@,
                            ) && !all_ascii(d.map(ty)[k][j].traditional@) by {
                            assert(d.map(ty) == appended(before.map(ty), form(e, ty), e));
                            if k == form(e, ty) && (!before.map(ty).contains_key(k) || j == before.map(ty)[k].len()) {
                                assert(d.map(ty)[k][j] == e);
                            } else {
                                assert(d.map(ty)[k][j] == before.map(ty)[k][j]);
                            }
                        }
                    }
                },
                None => {
                    assert(parse_lines(all.subrange(0, i + 1)) == es);
                },
            }
            i += 1;
        }
        assert(all.subrange(0, i as int) =~= all);
        d
    }

    /// Every entry, in enumeration order.
    pub open spec fn all_entries(self) -> Seq<WordEntry> {
        self.with_prefix(DictionaryType::Traditional, Seq::empty())
    }

    /// The entries stored under `word` in orthography `ty`, or none.
    pub open spec fn entries_for(self, word: Seq<char>, ty: DictionaryType) -> Seq<WordEntry> {
        if self.map(ty).contains_key(word) {
            self.map(ty)[word]
        } else {
            Seq::empty()
        }
    }

    /// The homophones of `word` in orthography `ty`, in enumeration order.
    pub open spec fn homophones(self, word: Seq<char>, ty: DictionaryType) -> Seq<(WordEntry, bool)> {
        let own = self.entries_for(word, ty);
        homophones_among(
            self.all_entries(),
            word,
            ty,
            own.map_values(|e: WordEntry| lower(e.pinyin@)),
            own.map_values(|e: WordEntry| normalized(e.pinyin@)),
        )
    }

    /// Every entry whose form in orthography `ty` strictly contains `slice`.
    pub fn iter_including_subslice(&self, slice: &str, ty: DictionaryType) -> (r: Vec<&WordEntry>)
        requires
            self.wf(),
        ensures
            deref_seq(r@) == including_subslice(self.all_entries(), slice@, ty),
    {
        let all = self.iter();
        let sc = chars_of(slice);
        let ghost es = deref_seq(all@);
        let mut out: Vec<&WordEntry> = Vec::new();
        let mut i: usize = 0;
        while i < all.len()
            invariant
                i <= all@.len(),
                es == deref_seq(all@),
                sc@ == slice@,
                deref_seq(out@) == including_subslice(es.subrange(0, i as int), slice@, ty),
            decreases all@.len() - i,
        {
            let e = all[i];
            let f = match ty {
                DictionaryType::Simplified => chars_of(e.simplified.as_str()),
                DictionaryType::Traditional => chars_of(e.traditional.as_str()),
            };
            assert(es.subrange(0, i + 1).drop_last() =~= es.subrange(0, i as int));
            assert(es.subrange(0, i + 1).last() == *e);
            if !slices_equal(f.as_slice(), sc.as_slice()) && contains_slice(f.as_slice(), sc.as_slice()) {
                let ghost before = out@;
                out.push(e);
                assert(deref_seq(out@) =~= deref_seq(before).push(*e));
            }
            i += 1;
        }
        assert(es.subrange(0, i as int) =~= es);
        out
    }

    /// The entries that sound like `word`, other than `word` itself and
    /// variant entries: `true` where the pinyin matches one of `word`'s
    /// pinyins up to case, `false` where it matches only without tones.
    pub fn iter_homophones(&self, word: &str, ty: DictionaryType) -> (r: Vec<(&WordEntry, bool)>)
        requires
            self.wf(),
        ensures
            deref_pairs(r@) == self.homophones(word@, ty),
    {
        let ghost own = self.entries_for(word@, ty);
        let empty: Vec<WordEntry> = Vec::new();
        let list: &Vec<WordEntry> = match self.get(word, ty) {
            Some(v) => v,
            None => &empty,
        };
        assert(list@ == own);
        let mut exact: Vec<Vec<char>> = Vec::new();
        let mut norm: Vec<Vec<char>> = Vec::new();
        let mut j: usize = 0;
        while j < list.len()
            invariant
                j <= list@.len(),
                crate::text::views(exact@) == list@.subrange(0, j as int).map_values(
                    |e: WordEntry| lower(e.pinyin@),
                ),
                crate::text::views(norm@) == list@.subrange(0, j as int).map_values(
                    |e: WordEntry| normalized(e.pinyin@),
                ),
            decreases list@.len() - j,
        {
            let p = chars_of(list[j].pinyin.as_str());
            let l = lowercase_ascii(p.as_slice());
            let n = strip_digits(l.as_slice());
            let ghost e0 = crate::text::views(exact@);
            let ghost n0 = crate::text::views(norm@);
            exact.push(l);
            norm.push(n);
            assert(crate::text::views(exact@) =~= e0.push(lower(list@[j as int].pinyin@)));
            assert(crate::text::views(norm@) =~= n0.push(normalized(list@[j as int].pinyin@)));
            assert(list@.subrange(0, j + 1).map_values(|e: WordEntry| lower(e.pinyin@))
                =~= list@.subrange(0, j as int).map_values(|e: WordEntry| lower(e.pinyin@)).push(
                lower(list@[j as int].pinyin@),
            ));
            assert(list@.subrange(0, j + 1).map_values(|e: WordEntry| normalized(e.pinyin@))
                =~= list@.subrange(0, j as int).map_values(|e: WordEntry| normalized(e.pinyin@)).push(
                normalized(list@[j as int].pinyin@),
            ));
            j += 1;
        }
        assert(list@.subrange(0, j as int) =~= list@);
        let ghost ex = crate::text::views(exact@);
        let ghost nm = crate::text::views(norm@);
        let wc = chars_of(word);
        let variant = chars_of("variant of");
        let all = self.iter();
        let ghost es = deref_seq(all@);
        let mut out: Vec<(&WordEntry, bool)> = Vec::new();
        let mut i: usize = 0;
        while i < all.len()
            invariant
                i <= all@.len(),
                es == deref_seq(all@),
                wc@ == word@,
                variant@ == "variant of"@,
                ex == crate::text::views(exact@),
                nm == crate::text::views(norm@),
                deref_pairs(out@) == homophones_among(es.subrange(0, i as int), word@, ty, ex, nm),
            decreases all@.len() - i,
        {
            let e = all[i];
            let f = match ty {
                DictionaryType::Simplified => chars_of(e.simplified.as_str()),
                DictionaryType::Traditional => chars_of(e.traditional.as_str()),
            };
            assert(es.subrange(0, i + 1).drop_last() =~= es.subrange(0, i as int));
            assert(es.subrange(0, i + 1).last() == *e);
            let eng = chars_of(e.english.as_str());
            if !slices_equal(f.as_slice(), wc.as_slice()) && !contains_slice(
                eng.as_slice(),
                variant.as_slice(),
            ) {
                let p = chars_of(e.pinyin.as_str());
                let l = lowercase_ascii(p.as_slice());
                let ghost before = out@;
                if contains_chars(&exact, l.as_slice()) {
                    out.push((e, true));
                    assert(deref_pairs(out@) =~= deref_pairs(before).push((*e, true)));
                } else {
                    let n = strip_digits(l.as_slice());
                    if contains_chars(&norm, n.as_slice()) {
                        out.push((e, false));
                        assert(deref_pairs(out@) =~= deref_pairs(before).push((*e, false)));
                    }
                }
            }
            i += 1;
        }
        assert(es.subrange(0, i as int) =~= es);
        out
    }

    /// Both forms of every entry are non-empty.
    pub proof fn lemma_entry_forms_non_empty(self)
        requires
            self.wf(),
        ensures
            forall|j: int|
                0 <= j < self.all_entries().len() ==> (#[trigger] self.all_entries()[j]).simplified@.len()
                    > 0 && self.all_entries()[j].traditional@.len() > 0,
    {
        let vs = self.traditional.values_with_prefix(Seq::empty());
        assert forall|j: int| 0 <= j < self.all_entries().len() implies (
        #[trigger] self.all_entries()[j]).simplified@.len() > 0
            && self.all_entries()[j].traditional@.len() > 0 by {
            let e = self.all_entries()[j];
            lemma_entries_of_member(vs, j);
            let (a, b) = choose|a: int, b: int|
                0 <= a < vs.len() && 0 <= b < vs[a]@.len() && #[trigger] vs[a]@[b] == e;
            lemma_all_values_stored(self.traditional, vs[a]);
            let k = choose|k: Seq<char>| #[trigger]
                self.traditional@.contains_key(k) && self.traditional@[k] == vs[a];
            assert(self.map(DictionaryType::Traditional).contains_key(k));
            assert(self.map(DictionaryType::Traditional)[k] == vs[a]@);
            assert(self.map(DictionaryType::Traditional)[k][b] == e);
        }
    }

    /// Every stored list is non-empty.
    pub proof fn lemma_lists_non_empty(self)
        requires
            self.wf(),
        ensures
            forall|ty: DictionaryType, k: Seq<char>| #[trigger]
                self.map(ty).contains_key(k) ==> self.map(ty)[k].len() > 0,
    {
    }

    /// The entries under simplified `word`.
    pub fn get_simplified(&self, word: &str) -> (r: Option<&Vec<WordEntry>>)
        requires
            self.wf(),
        ensures
            match r {
                Some(v) => self.map(DictionaryType::Simplified).contains_key(word@) && v@ == self.map(
                    DictionaryType::Simplified,
                )[word@],
                None => !self.map(DictionaryType::Simplified).contains_key(word@),
            },
    {
        self.get(word, DictionaryType::Simplified)
    }

    /// The entries under traditional `word`.
    pub fn get_traditional(&self, word: &str) -> (r: Option<&Vec<WordEntry>>)
        requires
            self.wf(),
        ensures
            match r {
                Some(v) => self.map(DictionaryType::Traditional).contains_key(word@) && v@ == self.map(
                    DictionaryType::Traditional,
                )[word@],
                None => !self.map(DictionaryType::Traditional).contains_key(word@),
            },
    {
        self.get(word, DictionaryType::Traditional)
    }

    /// Every entry whose simplified key starts with `word`.
    pub fn iter_simplified_prefix(&self, word: &str) -> (r: Vec<&WordEntry>)
        requires
            self.wf(),
        ensures
            deref_seq(r@) == self.with_prefix(DictionaryType::Simplified, word@),
    {
        self.iter_prefix(word, DictionaryType::Simplified)
    }

    /// Every entry whose traditional key starts with `word`.
    pub fn iter_traditional_prefix(&self, word: &str) -> (r: Vec<&WordEntry>)
        requires
            self.wf(),
        ensures
            deref_seq(r@) == self.with_prefix(DictionaryType::Traditional, word@),
    {
        self.iter_prefix(word, DictionaryType::Traditional)
    }

    /// Every entry, in the simplified trie's enumeration order.
    pub fn iter_simplified(&self) -> (r: Vec<&WordEntry>)
        requires
            self.wf(),
        ensures
            deref_seq(r@) == self.with_prefix(DictionaryType::Simplified, Seq::empty()),
    {
        let r = self.iter_prefix("", DictionaryType::Simplified);
        proof {
            reveal_strlit("");
            assert(""@ =~= Seq::<char>::empty());
        }
        r
    }

    /// Every entry, in the traditional trie's enumeration order.
    pub fn iter_traditional(&self) -> (r: Vec<&WordEntry>)
        requires
            self.wf(),
        ensures
            deref_seq(r@) == self.with_prefix(DictionaryType::Traditional, Seq::empty()),
    {
        self.iter()
    }

    /// Every entry whose simplified form strictly contains `slice`.
    pub fn iter_simplified_including_subslice(&self, slice: &str) -> (r: Vec<&WordEntry>)
        requires
            self.wf(),
        ensures
            deref_seq(r@) == including_subslice(self.all_entries(), slice@, DictionaryType::Simplified),
    {
        self.iter_including_subslice(slice, DictionaryType::Simplified)
    }

    /// Every entry whose traditional form strictly contains `slice`.
    pub fn iter_traditional_including_subslice(&self, slice: &str) -> (r: Vec<&WordEntry>)
        requires
            self.wf(),
        ensures
            deref_seq(r@) == including_subslice(self.all_entries(), slice@, DictionaryType::Traditional),
    {
        self.iter_including_subslice(slice, DictionaryType::Traditional)
    }

    /// `w` is a key in either orthography.
    pub open spec fn has_word(self, w: Seq<char>) -> bool {
        self.map(DictionaryType::Simplified).contains_key(w) || self.map(
            DictionaryType::Traditional,
        ).contains_key(w)
    }

    /// Not an ASCII letter or digit, and Chinese punctuation or a one-code-point word.
    pub open spec fn is_chinese(self, c: char) -> bool {
        !is_ascii_alnum(c) && (is_chinese_punct(c) || self.has_word(seq![c]))
    }

    /// Entries whose simplified or traditional key starts with `p`: simplified trie first.
    pub open spec fn candidates(self, p: Seq<char>) -> Seq<WordEntry> {
        self.with_prefix(DictionaryType::Simplified, p) + self.with_prefix(
            DictionaryType::Traditional,
            p,
        )
    }

    /// Length of the multi-code-point match at `i`, or 0 when there is none.
    pub open spec fn match_len(self, s: Seq<char>, i: int) -> int {
        let rest = s.subrange(i, s.len() as int);
        if rest.len() >= 2 {
            match best_hit(None, self.candidates(rest.subrange(0, 2)), rest) {
                Some(w) => w.len() as int,
                None => 0,
            }
        } else {
            0
        }
    }

    /// End of the non-Chinese run that continues at `j`.
    pub open spec fn run_end(self, s: Seq<char>, j: int) -> int
        decreases s.len() - j,
    {
        if 0 <= j < s.len() && !(is_ascii_ws(s[j]) || self.is_chinese(s[j])) {
            self.run_end(s, j + 1)
        } else {
            j
        }
    }

    /// Length of the token that starts at `i`.
    pub open spec fn token_len(self, s: Seq<char>, i: int) -> int {
        let m = self.match_len(s, i);
        if m > 0 {
            m
        } else if is_ascii_ws(s[i]) || self.is_chinese(s[i]) {
            1
        } else {
            self.run_end(s, i + 1) - i
        }
    }

    /// The tokens of `s` from position `i` on.
    pub open spec fn tokens_from(self, s: Seq<char>, i: int) -> Seq<(Seq<char>, int, bool)>
        decreases s.len() - i,
    {
        if i < 0 || i >= s.len() {
            Seq::empty()
        } else {
            let n = self.token_len(s, i);
            if n <= 0 || n > s.len() - i {
                Seq::empty()
            } else {
                let w = s.subrange(i, i + n);
                seq![(w, i, self.has_word(w))] + self.tokens_from(s, i + n)
            }
        }
    }

    /// The tokenization of `s`.
    pub open spec fn tokens(self, s: Seq<char>) -> Seq<(Seq<char>, int, bool)> {
        self.tokens_from(s, 0)
    }

    fn trie_ref(&self, ty: DictionaryType) -> (r: &CharTrie<Vec<WordEntry>>)
        ensures
            *r == self.trie(ty),
    {
        match ty {
            DictionaryType::Simplified => &self.simplified,
            DictionaryType::Traditional => &self.traditional,
        }
    }

    /// The entries stored under `word` in orthography `ty`.
    pub fn get(&self, word: &str, ty: DictionaryType) -> (r: Option<&Vec<WordEntry>>)
        requires
            self.wf(),
        ensures
            match r {
                Some(v) => self.map(ty).contains_key(word@) && v@ == self.map(ty)[word@],
                None => !self.map(ty).contains_key(word@),
            },
    {
        self.trie_ref(ty).get(word)
    }

    /// Every entry whose key in orthography `ty` starts with `word`.
    pub fn iter_prefix(&self, word: &str, ty: DictionaryType) -> (r: Vec<&WordEntry>)
        requires
            self.wf(),
        ensures
            deref_seq(r@) == self.with_prefix(ty, word@),
    {
        let lists = self.trie_ref(ty).get_prefix(word);
        let mut out: Vec<&WordEntry> = Vec::new();
        let mut i: usize = 0;
        while i < lists.len()
            invariant
                i <= lists@.len(),
                deref_seq(out@) == entries_of(deref_seq(lists@).subrange(0, i as int)),
            decreases lists@.len() - i,
        {
            let list = lists[i];
            let mut j: usize = 0;
            let ghost before = deref_seq(out@);
            while j < list.len()
                invariant
                    j <= list@.len(),
                    deref_seq(out@) == before + list@.subrange(0, j as int),
                decreases list@.len() - j,
            {
                let ghost prev = out@;
                out.push(&list[j]);
                assert(deref_seq(out@) =~= deref_seq(prev).push(list@[j as int]));
                assert(deref_seq(out@) =~= before + list@.subrange(0, j + 1));
                j += 1;
            }
            assert(deref_seq(lists@).subrange(0, i + 1).drop_last() =~= deref_seq(lists@).subrange(
                0,
                i as int,
            ));
            assert(list@.subrange(0, j as int) =~= list@);
            i += 1;
        }
        assert(deref_seq(lists@).subrange(0, i as int) =~= deref_seq(lists@));
        out
    }

    /// Every entry, in the traditional trie's enumeration order.
    pub fn iter(&self) -> (r: Vec<&WordEntry>)
        requires
            self.wf(),
        ensures
            deref_seq(r@) == self.with_prefix(DictionaryType::Traditional, Seq::empty()),
    {
        let r = self.iter_prefix("", DictionaryType::Traditional);
        proof {
            reveal_strlit("");
            assert(""@ =~= Seq::<char>::empty());
        }
        r
    }

    /// Whether `w` is a key in either orthography.
    fn has_key(&self, w: &str) -> (r: bool)
        requires
            self.wf(),
        ensures
            r == self.has_word(w@),
    {
        self.get(w, DictionaryType::Simplified).is_some() || self.get(
            w,
            DictionaryType::Traditional,
        ).is_some()
    }

    fn is_chinese_char(&self, c: char) -> (r: bool)
        requires
            self.wf(),
        ensures
            r == self.is_chinese(c),
    {
        if is_ascii_alphanumeric(c) {
            return false;
        }
        if is_chinese_punctuation(c) {
            return true;
        }
        let one = [c];
        let s = string_of(&one, 0, 1);
        assert(one@.subrange(0, 1) =~= seq![c]);
        self.has_key(s.as_str())
    }

    /// The form of `e` that `cs[i..]` begins with, as a length.
    fn hit_len(e: &WordEntry, cs: &Vec<char>, i: usize) -> (r: Option<usize>)
        requires
            i <= cs@.len(),
        ensures
            same_len(r, hit(*e, cs@.subrange(i as int, cs@.len() as int))),
    {
        let sc = chars_of(e.simplified.as_str());
        let tc = chars_of(e.traditional.as_str());
        let s = starts_with_at(cs.as_slice(), i, sc.as_slice());
        let t = starts_with_at(cs.as_slice(), i, tc.as_slice());
        if s && t {
            if sc.len() < tc.len() {
                Some(tc.len())
            } else {
                Some(sc.len())
            }
        } else if s {
            Some(sc.len())
        } else if t {
            Some(tc.len())
        } else {
            None
        }
    }

    /// Continues the search for the longest match at `i` over `entries`,
    /// from the match `w0` found so far, whose length is `init`.
    fn scan_hits(
        entries: &Vec<&WordEntry>,
        cs: &Vec<char>,
        i: usize,
        init: Option<usize>,
        Ghost(w0): Ghost<Option<Seq<char>>>,
    ) -> (r: Option<usize>)
        requires
            i <= cs@.len(),
            same_len(init, w0),
        ensures
            same_len(r, best_hit(w0, deref_seq(entries@), cs@.subrange(i as int, cs@.len() as int))),
    {
        let ghost rest = cs@.subrange(i as int, cs@.len() as int);
        let ghost es = deref_seq(entries@);
        let mut best = init;
        let mut j: usize = 0;
        while j < entries.len()
            invariant
                j <= entries@.len(),
                i <= cs@.len(),
                rest == cs@.subrange(i as int, cs@.len() as int),
                es == deref_seq(entries@),
                same_len(best, best_hit(w0, es.subrange(0, j as int), rest)),
            decreases entries@.len() - j,
        {
            let e: &WordEntry = entries[j];
            let h = Self::hit_len(e, cs, i);
            assert(es.subrange(0, j + 1).drop_last() =~= es.subrange(0, j as int));
            assert(es.subrange(0, j + 1).last() == *e);
            best = match best {
                Some(b) => match h {
                    Some(n) => if b < n {
                        Some(n)
                    } else {
                        Some(b)
                    },
                    None => Some(b),
                },
                None => h,
            };
            j += 1;
        }
        assert(es.subrange(0, j as int) =~= es);
        best
    }

    /// The length of the multi-code-point match at `i`, or 0.
    fn match_at(&self, cs: &Vec<char>, i: usize) -> (r: usize)
        requires
            self.wf(),
            i < cs@.len(),
        ensures
            r == self.match_len(cs@, i as int),
    {
        let ghost rest = cs@.subrange(i as int, cs@.len() as int);
        if cs.len() - i < 2 {
            return 0;
        }
        let prefix = string_of(cs.as_slice(), i, i + 2);
        assert(prefix@ =~= rest.subrange(0, 2));
        let simp = self.iter_prefix(prefix.as_str(), DictionaryType::Simplified);
        let trad = self.iter_prefix(prefix.as_str(), DictionaryType::Traditional);
        let ghost a = deref_seq(simp@);
        let ghost b = deref_seq(trad@);
        proof {
            lemma_best_hit_concat(None, a, b, rest);
        }
        let first = Self::scan_hits(&simp, cs, i, None, Ghost(None));
        let best = Self::scan_hits(&trad, cs, i, first, Ghost(best_hit(None, a, rest)));
        match best {
            Some(n) => n,
            None => 0,
        }
    }

    /// The end of the non-Chinese run that continues at `j`.
    fn run_end_at(&self, cs: &Vec<char>, j: usize) -> (r: usize)
        requires
            self.wf(),
            j <= cs@.len(),
        ensures
            r == self.run_end(cs@, j as int),
            j <= r <= cs@.len(),
    {
        let mut k = j;
        while k < cs.len() && !(is_ascii_whitespace(cs[k]) || self.is_chinese_char(cs[k]))
            invariant
                j <= k <= cs@.len(),
                self.wf(),
                self.run_end(cs@, k as int) == self.run_end(cs@, j as int),
            decreases cs@.len() - k,
        {
            k += 1;
        }
        k
    }

    /// Splits `input` into tokens by forward maximum match.
    pub fn tokenize(&self, input: &str) -> (r: Vec<Token>)
        requires
            self.wf(),
        ensures
            r@.map_values(|t: Token| token_view(t)) == self.tokens(input@),
    {
        let cs = chars_of(input);
        let mut tokens: Vec<Token> = Vec::new();
        let mut i: usize = 0;
        while i < cs.len()
            invariant
                i <= cs@.len(),
                cs@ == input@,
                self.wf(),
                tokens@.map_values(|t: Token| token_view(t)) + self.tokens_from(cs@, i as int)
                    == self.tokens_from(cs@, 0),
            decreases cs@.len() - i,
        {
            let m = self.match_at(&cs, i);
            let n: usize = if m > 0 {
                m
            } else if is_ascii_whitespace(cs[i]) || self.is_chinese_char(cs[i]) {
                1
            } else {
                self.run_end_at(&cs, i + 1) - i
            };
            assert(n as int == self.token_len(cs@, i as int));
            proof {
                self.lemma_token_len(cs@, i as int);
            }
            let value = string_of(cs.as_slice(), i, i + n);
            let has_entries = self.has_key(value.as_str());
            let ghost before = tokens@.map_values(|t: Token| token_view(t));
            tokens.push(Token { value, offset: i, has_entries });
            assert(tokens@.map_values(|t: Token| token_view(t)) =~= before.push(
                (cs@.subrange(i as int, i + n), i as int, self.has_word(cs@.subrange(i as int, i + n))),
            ));
            assert(self.tokens_from(cs@, i as int) =~= seq![
                (cs@.subrange(i as int, i + n), i as int, self.has_word(cs@.subrange(i as int, i + n))),
            ] + self.tokens_from(cs@, i + n));
            i += n;
        }
        assert(self.tokens_from(cs@, i as int) == Seq::<(Seq<char>, int, bool)>::empty());
        assert(tokens@.map_values(|t: Token| token_view(t)) =~= self.tokens_from(cs@, 0));
        tokens
    }
}

/// The token values of `ts`, concatenated.
pub open spec fn concat_values(ts: Seq<(Seq<char>, int, bool)>) -> Seq<char>
    decreases ts.len(),
{
    if ts.len() == 0 {
        Seq::empty()
    } else {
        ts[0].0 + concat_values(ts.drop_first())
    }
}

/// A match found by `best_hit` begins `rest`, unless it is the starting match.
proof fn lemma_best_hit_prefix(cands: Seq<WordEntry>, rest: Seq<char>)
    ensures
        best_hit(None, cands, rest) matches Some(w) ==> starts_with(rest, w),
    decreases cands.len(),
{
    if cands.len() > 0 {
        lemma_best_hit_prefix(cands.drop_last(), rest);
    }
}

/// The best match is at least as long as any candidate's match.
proof fn lemma_best_hit_at_least(
    init: Option<Seq<char>>,
    cands: Seq<WordEntry>,
    rest: Seq<char>,
    j: int,
)
    requires
        0 <= j < cands.len(),
        hit(cands[j], rest) is Some,
    ensures
        best_hit(init, cands, rest) is Some,
        best_hit(init, cands, rest)->0.len() >= hit(cands[j], rest)->0.len(),
    decreases cands.len(),
{
    if j < cands.len() - 1 {
        assert(cands.drop_last()[j] == cands[j]);
        lemma_best_hit_at_least(init, cands.drop_last(), rest, j);
    }
}

/// Every flattened entry comes from one of the lists.
proof fn lemma_entries_of_member(vs: Seq<Vec<WordEntry>>, j: int)
    requires
        0 <= j < entries_of(vs).len(),
    ensures
        exists|a: int, b: int| 0 <= a < vs.len() && 0 <= b < vs[a]@.len() && #[trigger] vs[a]@[b]
            == entries_of(vs)[j],
    decreases vs.len(),
{
    let left = entries_of(vs.drop_last());
    let x = entries_of(vs)[j];
    if j < left.len() {
        assert((left + vs.last()@)[j] == left[j]);
        lemma_entries_of_member(vs.drop_last(), j);
        let (a, b) = choose|a: int, b: int|
            0 <= a < vs.drop_last().len() && 0 <= b < vs.drop_last()[a]@.len()
                && #[trigger] vs.drop_last()[a]@[b] == left[j];
        assert(vs[a] == vs.drop_last()[a]);
        assert(vs[a]@[b] == x);
    } else {
        assert((left + vs.last()@)[j] == vs.last()@[j - left.len()]);
        assert(vs[vs.len() - 1]@[j - left.len()] == x);
    }
}

/// An entry of one of the lists is among the flattened entries.
proof fn lemma_entries_of_contains(vs: Seq<Vec<WordEntry>>, j: int, t: int)
    requires
        0 <= j < vs.len(),
        0 <= t < vs[j]@.len(),
    ensures
        entries_of(vs).contains(vs[j]@[t]),
    decreases vs.len(),
{
    let x = vs[j]@[t];
    let left = entries_of(vs.drop_last());
    if j == vs.len() - 1 {
        assert((left + vs.last()@)[left.len() + t] == x);
    } else {
        assert(vs.drop_last()[j] == vs[j]);
        lemma_entries_of_contains(vs.drop_last(), j, t);
        let k = choose|k: int| 0 <= k < left.len() && left[k] == x;
        assert((left + vs.last()@)[k] == x);
    }
}

impl WordDictionary {

    /// Every token is non-empty and lies within the input.
    proof fn lemma_token_len(self, s: Seq<char>, i: int)
        requires
            0 <= i < s.len(),
        ensures
            1 <= self.token_len(s, i) <= s.len() - i,
    {
        let rest = s.subrange(i, s.len() as int);
        if rest.len() >= 2 {
            lemma_best_hit_prefix(self.candidates(rest.subrange(0, 2)), rest);
        }
        if self.match_len(s, i) <= 0 && !(is_ascii_ws(s[i]) || self.is_chinese(s[i])) {
            self.lemma_run_end(s, i + 1);
        }
    }

    proof fn lemma_run_end(self, s: Seq<char>, j: int)
        requires
            0 <= j <= s.len(),
        ensures
            j <= self.run_end(s, j) <= s.len(),
        decreases s.len() - j,
    {
        if j < s.len() && !(is_ascii_ws(s[j]) || self.is_chinese(s[j])) {
            self.lemma_run_end(s, j + 1);
        }
    }

    /// The tokens from `i` on cover `s[i..]`; each token is the token that
    /// starts at its own offset, and the offset counts the code points before it.
    proof fn lemma_tokens_from(self, s: Seq<char>, i: int)
        requires
            0 <= i <= s.len(),
        ensures
            concat_values(self.tokens_from(s, i)) == s.subrange(i, s.len() as int),
            forall|k: int|
                0 <= k < self.tokens_from(s, i).len() ==> {
                    let t = #[trigger] self.tokens_from(s, i)[k];
                    &&& i <= t.1 < s.len()
                    &&& t.0 == s.subrange(t.1, t.1 + self.token_len(s, t.1))
                    &&& t.0.len() > 0
                    &&& t.1 == i + concat_values(self.tokens_from(s, i).subrange(0, k)).len()
                },
        decreases s.len() - i,
    {
        let ts = self.tokens_from(s, i);
        if i < s.len() {
            self.lemma_token_len(s, i);
            let n = self.token_len(s, i);
            self.lemma_tokens_from(s, i + n);
            let tail = self.tokens_from(s, i + n);
            assert(ts.drop_first() =~= tail);
            assert(s.subrange(i, s.len() as int) =~= s.subrange(i, i + n) + s.subrange(
                i + n,
                s.len() as int,
            ));
            assert forall|k: int| 0 <= k < ts.len() implies {
                let t = #[trigger] ts[k];
                &&& i <= t.1 < s.len()
                &&& t.0 == s.subrange(t.1, t.1 + self.token_len(s, t.1))
                &&& t.0.len() > 0
                &&& t.1 == i + concat_values(ts.subrange(0, k)).len()
            } by {
                if k == 0 {
                    assert(ts.subrange(0, 0) =~= Seq::<(Seq<char>, int, bool)>::empty());
                } else {
                    assert(ts[k] == tail[k - 1]);
                    assert(ts.subrange(0, k).drop_first() =~= tail.subrange(0, k - 1));
                    assert(ts.subrange(0, k)[0] == ts[0]);
                }
            }
        } else {
            assert(s.subrange(i, s.len() as int) =~= Seq::<char>::empty());
        }
    }
}

/// Tokenization is total and offset-monotonic: the token values,
/// concatenated, are the input; every token is non-empty; each token's offset
/// is the number of code points before it, so the offsets strictly increase.
pub proof fn lemma_tokens_cover(d: WordDictionary, s: Seq<char>)
    ensures
        concat_values(d.tokens(s)) == s,
        forall|k: int|
            0 <= k < d.tokens(s).len() ==> (#[trigger] d.tokens(s)[k]).0.len() > 0 && d.tokens(
                s,
            )[k].1 == concat_values(d.tokens(s).subrange(0, k)).len(),
        forall|j: int, k: int|
            0 <= j < k < d.tokens(s).len() ==> (#[trigger] d.tokens(s)[j]).1 < (
            #[trigger] d.tokens(s)[k]).1,
{
    d.lemma_tokens_from(s, 0);
    assert(s.subrange(0, s.len() as int) =~= s);
    let ts = d.tokens(s);
    assert forall|j: int, k: int| 0 <= j < k < ts.len() implies (#[trigger] ts[j]).1 < (
    #[trigger] ts[k]).1 by {
        lemma_concat_prefix_grows(ts, j, k);
    }
}

/// The concatenated values of a longer prefix of tokens are longer.
proof fn lemma_concat_prefix_grows(ts: Seq<(Seq<char>, int, bool)>, j: int, k: int)
    requires
        0 <= j < k <= ts.len(),
        forall|m: int| 0 <= m < ts.len() ==> (#[trigger] ts[m]).0.len() > 0,
    ensures
        concat_values(ts.subrange(0, j)).len() < concat_values(ts.subrange(0, k)).len(),
    decreases j,
{
    if j == 0 {
        assert(ts.subrange(0, k)[0] == ts[0]);
        assert(ts.subrange(0, 0) =~= Seq::<(Seq<char>, int, bool)>::empty());
    } else {
        let tail = ts.drop_first();
        assert(ts.subrange(0, j).drop_first() =~= tail.subrange(0, j - 1));
        assert(ts.subrange(0, k).drop_first() =~= tail.subrange(0, k - 1));
        assert(ts.subrange(0, j)[0] == ts[0]);
        assert(ts.subrange(0, k)[0] == ts[0]);
        assert forall|m: int| 0 <= m < tail.len() implies (#[trigger] tail[m]).0.len() > 0 by {
            assert(tail[m] == ts[m + 1]);
        }
        lemma_concat_prefix_grows(tail, j - 1, k - 1);
    }
}

/// Tokenizing then concatenating the token values gives back the input.
pub proof fn lemma_tokenize_round_trip(d: WordDictionary, s: Seq<char>)
    ensures
        concat_values(d.tokens(s)) == s,
{
    lemma_tokens_cover(d, s);
}

/// Forward maximum match: no key of either orthography that is longer than an
/// emitted token also begins the input at that token's offset.
pub proof fn lemma_tokens_maximal(d: WordDictionary, s: Seq<char>, k: int, w: Seq<char>)
    requires
        d.wf(),
        0 <= k < d.tokens(s).len(),
        d.has_word(w),
        w.len() > d.tokens(s)[k].0.len(),
    ensures
        !starts_with(s.subrange(d.tokens(s)[k].1, s.len() as int), w),
{
    d.lemma_tokens_from(s, 0);
    let t = d.tokens(s)[k];
    let p = t.1;
    let rest = s.subrange(p, s.len() as int);
    d.lemma_token_len(s, p);
    if starts_with(rest, w) {
        let ty = if d.map(DictionaryType::Simplified).contains_key(w) {
            DictionaryType::Simplified
        } else {
            DictionaryType::Traditional
        };
        let e = d.map(ty)[w][0];
        assert(form(e, ty) == w);
        let pfx = rest.subrange(0, 2);
        assert(w.subrange(0, 2) =~= pfx);
        lemma_prefix_complete(d.trie(ty), pfx, w);
        let vs = d.trie(ty).values_with_prefix(pfx);
        let j = choose|j: int| 0 <= j < vs.len() && vs[j] == d.trie(ty)@[w];
        lemma_entries_of_contains(vs, j, 0);
        let es = d.with_prefix(ty, pfx);
        let c = choose|c: int| 0 <= c < es.len() && es[c] == e;
        let cands = d.candidates(pfx);
        let ci = if ty == DictionaryType::Simplified {
            c
        } else {
            d.with_prefix(DictionaryType::Simplified, pfx).len() + c
        };
        assert(cands[ci] == e);
        assert(hit(e, rest) is Some);
        assert(hit(e, rest)->0.len() >= w.len());
        lemma_best_hit_at_least(None, cands, rest, ci);
    }
}

proof fn lemma_homophones_among(
    es: Seq<WordEntry>,
    word: Seq<char>,
    ty: DictionaryType,
    exact: Seq<Seq<char>>,
    norm: Seq<Seq<char>>,
    k: int,
)
    requires
        0 <= k < homophones_among(es, word, ty, exact, norm).len(),
    ensures
        ({
            let h = homophones_among(es, word, ty, exact, norm)[k];
            &&& form(h.0, ty) != word
            &&& h.1 ==> exact.contains(lower(h.0.pinyin@))
        }),
    decreases es.len(),
{
    let rest = homophones_among(es.drop_last(), word, ty, exact, norm);
    if k < rest.len() {
        lemma_homophones_among(es.drop_last(), word, ty, exact, norm, k);
    }
}

/// Homophones never include the word itself, and an exact homophone has the
/// lower-cased pinyin of one of the word's own entries.
pub proof fn lemma_homophones_sound(d: WordDictionary, word: Seq<char>, ty: DictionaryType, k: int)
    requires
        0 <= k < d.homophones(word, ty).len(),
    ensures
        form(d.homophones(word, ty)[k].0, ty) != word,
        d.homophones(word, ty)[k].1 ==> exists|i: int|
            0 <= i < d.entries_for(word, ty).len() && lower(d.homophones(word, ty)[k].0.pinyin@)
                == lower(#[trigger] d.entries_for(word, ty)[i].pinyin@),
{
    let own = d.entries_for(word, ty);
    let exact = own.map_values(|e: WordEntry| lower(e.pinyin@));
    lemma_homophones_among(
        d.all_entries(),
        word,
        ty,
        exact,
        own.map_values(|e: WordEntry| normalized(e.pinyin@)),
        k,
    );
    let h = d.homophones(word, ty)[k];
    if h.1 {
        let i = choose|i: int| 0 <= i < exact.len() && exact[i] == lower(h.0.pinyin@);
        assert(lower(own[i].pinyin@) == lower(h.0.pinyin@));
    }
}

} // verus!
