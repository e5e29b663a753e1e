//! Example sentences, tokenized once with the word dictionary, and the
//! sentences that contain a word.
use vstd::prelude::*;

use crate::cedict::{lines, split_lines};
use crate::text::{chars_of, pieces, slices_equal, split_pieces, string_of, views, Separator};
use crate::trie::CharTrie;
use crate::word::{token_view, DictionaryType, Token, WordDictionary};

verus! {

/// A sentence as `(simplified, traditional)` forms of its tokens, and its English text.
pub struct SentenceEntry {
    pub tokens: Vec<(String, String)>,
    pub english: String,
}

/// The view of a sentence entry.
pub open spec fn sentence_view(e: SentenceEntry) -> (Seq<(Seq<char>, Seq<char>)>, Seq<char>) {
    (e.tokens@.map_values(|p: (String, String)| (p.0@, p.1@)), e.english@)
}

/// The sentence and English text of one corpus line: its second and fourth
/// tab-separated fields.
pub open spec fn corpus_row(line: Seq<char>) -> Option<(Seq<char>, Seq<char>)> {
    let fs = pieces(line, Separator::Tab);
    if fs.len() >= 4 {
        Some((fs[1], fs[3]))
    } else {
        None
    }
}

/// The rows of a list of lines, in order.
pub open spec fn corpus_rows(ls: Seq<Seq<char>>) -> Seq<(Seq<char>, Seq<char>)>
    decreases ls.len(),
{
    if ls.len() == 0 {
        Seq::empty()
    } else {
        match corpus_row(ls.last()) {
            Some(r) => corpus_rows(ls.drop_last()).push(r),
            None => corpus_rows(ls.drop_last()),
        }
    }
}

/// Whether some row of `rows` has sentence `s`.
pub open spec fn has_sentence(rows: Seq<(Seq<char>, Seq<char>)>, s: Seq<char>) -> bool {
    exists|i: int| 0 <= i < rows.len() && #[trigger] rows[i].0 == s
}

/// The rows whose sentence did not come in an earlier row.
pub open spec fn first_rows(rows: Seq<(Seq<char>, Seq<char>)>) -> Seq<(Seq<char>, Seq<char>)>
    decreases rows.len(),
{
    if rows.len() == 0 {
        Seq::empty()
    } else if has_sentence(rows.drop_last(), rows.last().0) {
        first_rows(rows.drop_last())
    } else {
        first_rows(rows.drop_last()).push(rows.last())
    }
}

/// The `(simplified, traditional)` forms of a token: those of the first
/// entry under it, traditional key first; its own text without one.
pub open spec fn resolve(d: WordDictionary, t: Seq<char>) -> (Seq<char>, Seq<char>) {
    if d.map(DictionaryType::Traditional).contains_key(t) {
        let e = d.map(DictionaryType::Traditional)[t][0];
        (e.simplified@, e.traditional@)
    } else if d.map(DictionaryType::Simplified).contains_key(t) {
        let e = d.map(DictionaryType::Simplified)[t][0];
        (e.simplified@, e.traditional@)
    } else {
        (t, t)
    }
}

/// The entry a row gives.
pub open spec fn row_entry(d: WordDictionary, row: (Seq<char>, Seq<char>)) -> (
    Seq<(Seq<char>, Seq<char>)>,
    Seq<char>,
) {
    (d.tokens(row.0).map_values(|t: (Seq<char>, int, bool)| resolve(d, t.0)), row.1)
}

/// The form of a token pair in orthography `ty`.
pub open spec fn pair_form(p: (Seq<char>, Seq<char>), ty: DictionaryType) -> Seq<char> {
    match ty {
        DictionaryType::Simplified => p.0,
        DictionaryType::Traditional => p.1,
    }
}

/// The forms of `ps` in orthography `ty`, concatenated.
pub open spec fn joined_forms(ps: Seq<(Seq<char>, Seq<char>)>, ty: DictionaryType) -> Seq<char>
    decreases ps.len(),
{
    if ps.len() == 0 {
        Seq::empty()
    } else {
        joined_forms(ps.drop_last(), ty) + pair_form(ps.last(), ty)
    }
}

/// The sentences among `es` with a token whose form in `ty` is `word`, each
/// written in that orthography, with its English text.
pub open spec fn sentences_with(
    es: Seq<(Seq<(Seq<char>, Seq<char>)>, Seq<char>)>,
    word: Seq<char>,
    ty: DictionaryType,
) -> Seq<(Seq<char>, Seq<char>)>
    decreases es.len(),
{
    if es.len() == 0 {
        Seq::empty()
    } else {
        let e = es.last();
        let rest = sentences_with(es.drop_last(), word, ty);
        if exists|k: int| 0 <= k < e.0.len() && pair_form(#[trigger] e.0[k], ty) == word {
            rest.push((joined_forms(e.0, ty), e.1))
        } else {
            rest
        }
    }
}

/// The views of a list of sentence and English pairs.
pub open spec fn pair_views(v: Seq<(String, String)>) -> Seq<(Seq<char>, Seq<char>)> {
    v.map_values(|p: (String, String)| (p.0@, p.1@))
}

/// Appends the code points of `s` to `out`.
fn push_str(out: &mut String, s: &str)
    ensures
        final(out)@ == old(out)@ + s@,
{
    let cs = chars_of(s);
    let mut i: usize = 0;
    while i < cs.len()
        invariant
            i <= cs@.len(),
            cs@ == s@,
            out@ == old(out)@ + cs@.subrange(0, i as int),
        decreases cs@.len() - i,
    {
        out.push(cs[i]);
        assert(out@ =~= old(out)@ + cs@.subrange(0, i + 1));
        i += 1;
    }
    assert(cs@.subrange(0, i as int) =~= cs@);
}

/// The `(simplified, traditional)` forms of token `t`.
fn resolve_token(d: &WordDictionary, t: &str) -> (r: (String, String))
    requires
        d.wf(),
    ensures
        (r.0@, r.1@) == resolve(*d, t@),
{
    proof {
        d.lemma_lists_non_empty();
    }
    match d.get(t, DictionaryType::Traditional) {
        Some(list) => (list[0].simplified.clone(), list[0].traditional.clone()),
        None => match d.get(t, DictionaryType::Simplified) {
            Some(list) => (list[0].simplified.clone(), list[0].traditional.clone()),
            None => (String::from_str(t), String::from_str(t)),
        },
    }
}

pub struct SentenceDictionary {
    entries: Vec<SentenceEntry>,
    seen: CharTrie<()>,
    seen_empty: bool,
}

impl SentenceDictionary {
    /// The entries, in the order their sentences first came.
    pub closed spec fn view(self) -> Seq<(Seq<(Seq<char>, Seq<char>)>, Seq<char>)> {
        self.entries@.map_values(|e: SentenceEntry| sentence_view(e))
    }

    /// Reads a tab-separated corpus whose lines hold a sentence in their
    /// second field and its English text in their fourth, tokenizing each
    /// sentence with `word_dict`; a sentence that came before is skipped.
    pub fn new(data: &str, word_dict: &WordDictionary) -> (r: Self)
        requires
            word_dict.wf(),
        ensures
            r@ == first_rows(corpus_rows(lines(data@))).map_values(
                |row: (Seq<char>, Seq<char>)| row_entry(*word_dict, row),
            ),
    {
        let cs = chars_of(data);
        let ls = split_lines(cs.as_slice());
        let ghost all = lines(data@);
        let mut d = SentenceDictionary { entries: Vec::new(), seen: CharTrie::new(), seen_empty: false };
        let mut i: usize = 0;
        proof {
            assert(all.subrange(0, 0) =~= Seq::<Seq<char>>::empty());
            assert(d@ =~= Seq::<(Seq<(Seq<char>, Seq<char>)>, Seq<char>)>::empty());
        }
        while i < ls.len()
            invariant
                i <= ls@.len(),
                views(ls@) == all,
                word_dict.wf(),
                d.seen.wf(),
                forall|s: Seq<char>|
                    s.len() > 0 ==> (#[trigger] d.seen@.contains_key(s) <==> has_sentence(
                        corpus_rows(all.subrange(0, i as int)),
                        s,
                    )),
                d.seen_empty <==> has_sentence(corpus_rows(all.subrange(0, i as int)), Seq::empty()),
                d@ == first_rows(corpus_rows(all.subrange(0, i as int))).map_values(
                    |row: (Seq<char>, Seq<char>)| row_entry(*word_dict, row),
                ),
            decreases ls@.len() - i,
        {
            let ghost rows = corpus_rows(all.subrange(0, i as int));
            assert(all.subrange(0, i + 1).drop_last() =~= all.subrange(0, i as int));
            assert(all.subrange(0, i + 1).last() == ls[i as int]@);
            let fs = split_pieces(ls[i].as_slice(), Separator::Tab);
            if fs.len() >= 4 {
                let sentence = string_of(fs[1].as_slice(), 0, fs[1].len());
                let english = string_of(fs[3].as_slice(), 0, fs[3].len());
                let ghost row = (sentence@, english@);
                proof {
                    assert(fs[1]@.subrange(0, fs[1]@.len() as int) =~= fs[1]@);
                    assert(fs[3]@.subrange(0, fs[3]@.len() as int) =~= fs[3]@);
                    assert(views(fs@)[1] == fs[1]@);
                    assert(views(fs@)[3] == fs[3]@);
                    assert(corpus_rows(all.subrange(0, i + 1)) == rows.push(row));
                    assert(rows.push(row).drop_last() =~= rows);
                }
                let dup = if fs[1].len() == 0 {
                    d.seen_empty
                } else {
                    d.seen.get(sentence.as_str()).is_some()
                };
                proof {
                    if fs[1]@.len() == 0 {
                        assert(sentence@ =~= Seq::<char>::empty());
                    }
                    if !dup {
                        if fs[1]@.len() != 0 {
                            assert(!d.seen@.contains_key(sentence@));
                        }
                        assert(!has_sentence(rows, sentence@));
                    } else {
                        assert(has_sentence(rows, sentence@));
                    }
                }
                if !dup {
                    let tokens = word_dict.tokenize(sentence.as_str());
                    let mut pairs: Vec<(String, String)> = Vec::new();
                    let mut k: usize = 0;
                    let ghost tv = word_dict.tokens(sentence@);
                    while k < tokens.len()
                        invariant
                            k <= tokens@.len(),
                            word_dict.wf(),
                            tokens@.map_values(|t: Token| token_view(t)) == tv,
                            pair_views(pairs@) == tv.subrange(0, k as int).map_values(
                                |t: (Seq<char>, int, bool)| resolve(*word_dict, t.0),
                            ),
                        decreases tokens@.len() - k,
                    {
                        let p = resolve_token(word_dict, tokens[k].value.as_str());
                        let ghost before = pair_views(pairs@);
                        pairs.push(p);
                        assert(tv[k as int].0 == tokens@[k as int].value@);
                        assert(pair_views(pairs@) =~= before.push(resolve(*word_dict, tv[k as int].0)));
                        assert(tv.subrange(0, k + 1).map_values(
                            |t: (Seq<char>, int, bool)| resolve(*word_dict, t.0),
                        ) =~= tv.subrange(0, k as int).map_values(
                            |t: (Seq<char>, int, bool)| resolve(*word_dict, t.0),
                        ).push(resolve(*word_dict, tv[k as int].0)));
                        k += 1;
                    }
                    assert(tv.subrange(0, k as int) =~= tv);
                    let ghost before = d@;
                    let ghost fresh = SentenceEntry { tokens: pairs, english };
                    if sentence.as_str().is_empty() {
                        d.seen_empty = true;
                    } else {
                        d.seen.push(sentence.as_str(), ());
                    }
                    d.entries.push(SentenceEntry { tokens: pairs, english });
                    proof {
                        assert(!has_sentence(rows, sentence@));
                        assert(sentence_view(fresh) == row_entry(*word_dict, row));
                        assert(d@ =~= before.push(row_entry(*word_dict, row)));
                        let rows2 = rows.push(row);
                        assert(rows2.drop_last() =~= rows);
                        assert(first_rows(rows2) == first_rows(rows).push(row));
                        assert(first_rows(rows2).map_values(
                            |row: (Seq<char>, Seq<char>)| row_entry(*word_dict, row),
                        ) =~= first_rows(rows).map_values(
                            |row: (Seq<char>, Seq<char>)| row_entry(*word_dict, row),
                        ).push(row_entry(*word_dict, row)));
                        assert forall|s: Seq<char>| s.len() > 0 implies (#[trigger] d.seen@.contains_key(s)
                            <==> has_sentence(rows2, s)) by {
                            if has_sentence(rows2, s) && s != sentence@ {
                                let j = choose|j: int| 0 <= j < rows2.len() && #[trigger] rows2[j].0 == s;
                                assert(rows[j] == rows2[j]);
                            }
                            if has_sentence(rows, s) {
                                let j = choose|j: int| 0 <= j < rows.len() && #[trigger] rows[j].0 == s;
                                assert(rows2[j] == rows[j]);
                            }
                            assert(rows2[rows.len() as int].0 == sentence@);
                        }
                        let e = Seq::<char>::empty();
                        if has_sentence(rows2, e) && e != sentence@ {
                            let j = choose|j: int| 0 <= j < rows2.len() && #[trigger] rows2[j].0 == e;
                            assert(rows[j] == rows2[j]);
                        }
                        if has_sentence(rows, e) {
                            let j = choose|j: int| 0 <= j < rows.len() && #[trigger] rows[j].0 == e;
                            assert(rows2[j] == rows[j]);
                        }
                        assert(rows2[rows.len() as int].0 == sentence@);
                    }
                } else {
                    proof {
                        let rows2 = rows.push(row);
                        assert(has_sentence(rows, sentence@));
                        assert(first_rows(rows2) == first_rows(rows));
                        assert forall|s: Seq<char>| #[trigger] has_sentence(rows2, s) <==> has_sentence(rows, s) by {
                            if has_sentence(rows2, s) && s != sentence@ {
                                let j = choose|j: int| 0 <= j < rows2.len() && #[trigger] rows2[j].0 == s;
                                assert(rows[j] == rows2[j]);
                            }
                            if has_sentence(rows, s) {
                                let j = choose|j: int| 0 <= j < rows.len() && #[trigger] rows[j].0 == s;
                                assert(rows2[j] == rows[j]);
                            }
                        }
                    }
                }
            } else {
                assert(corpus_rows(all.subrange(0, i + 1)) == rows);
            }
            i += 1;
        }
        assert(all.subrange(0, i as int) =~= all);
        d
    }

    /// The sentences with a token whose form in orthography `ty` is `word`,
    /// each written in that orthography, with its English text.
    pub fn iter_sentences_including_word(&self, word: &str, ty: DictionaryType) -> (r: Vec<
        (String, String),
    >)
        ensures
            pair_views(r@) == sentences_with(self@, word@, ty),
    {
        let wc = chars_of(word);
        let mut out: Vec<(String, String)> = Vec::new();
        let mut i: usize = 0;
        while i < self.entries.len()
            invariant
                i <= self.entries@.len(),
                wc@ == word@,
                pair_views(out@) == sentences_with(self@.subrange(0, i as int), word@, ty),
            decreases self.entries@.len() - i,
        {
            let e = &self.entries[i];
            let ghost ev = sentence_view(*e);
            assert(self@.subrange(0, i + 1).drop_last() =~= self@.subrange(0, i as int));
            assert(self@.subrange(0, i + 1).last() == ev);
            let mut found = false;
            let mut text = String::new();
            let mut k: usize = 0;
            while k < e.tokens.len()
                invariant
                    k <= e.tokens@.len(),
                    ev == sentence_view(*e),
                    wc@ == word@,
                    text@ == joined_forms(ev.0.subrange(0, k as int), ty),
                    found <==> exists|j: int| 0 <= j < k && pair_form(#[trigger] ev.0[j], ty) == word@,
                decreases e.tokens@.len() - k,
            {
                let p = &e.tokens[k];
                let f = match ty {
                    DictionaryType::Simplified => &p.0,
                    DictionaryType::Traditional => &p.1,
                };
                assert(ev.0[k as int] == (p.0@, p.1@));
                assert(f@ == pair_form(ev.0[k as int], ty));
                let fc = chars_of(f.as_str());
                if slices_equal(fc.as_slice(), wc.as_slice()) {
                    found = true;
                }
                push_str(&mut text, f.as_str());
                assert(ev.0.subrange(0, k + 1).drop_last() =~= ev.0.subrange(0, k as int));
                k += 1;
            }
            assert(ev.0.subrange(0, k as int) =~= ev.0);
            if found {
                let ghost before = pair_views(out@);
                out.push((text, e.english.clone()));
                assert(pair_views(out@) =~= before.push((joined_forms(ev.0, ty), ev.1)));
            }
            i += 1;
        }
        assert(self@.subrange(0, i as int) =~= self@);
        out
    }
}

} // verus!
