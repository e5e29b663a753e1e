//! A thesaurus built from English glosses: each head word gets a bag of
//! keywords, and words are similar by the Jaccard coefficient of their bags.
use vstd::prelude::*;

use crate::cedict::{ascii_words, words_of};
use crate::text::{
    chars_of, contains_seq, contains_slice, pieces, slices_equal, split_pieces, starts_with,
    starts_with_at, string_of, views, Separator,
};
use crate::trie::{deref_seq, CharTrie};
use crate::word::{form, token_view, DictionaryType, Token, WordDictionary, WordEntry};

verus! {

/// ASCII punctuation, as `char::is_ascii_punctuation` defines it.
pub open spec fn is_ascii_punct(c: char) -> bool {
    ('!' <= c && c <= '/') || (':' <= c && c <= '@') || ('[' <= c && c <= '`') || ('{' <= c
        && c <= '~')
}

/// `c`, or a space where it is ASCII punctuation other than a bracket.
pub open spec fn blank_punct(c: char) -> char {
    if is_ascii_punct(c) && c != '(' && c != ')' && c != '[' && c != ']' {
        ' '
    } else {
        c
    }
}

/// A meaning that only names a classifier, a variant, a surname or a measure word.
pub open spec fn is_metadata(m: Seq<char>) -> bool {
    contains_seq(m, "classifier for"@) || contains_seq(m, "variant of"@) || contains_seq(
        m,
        "surname "@,
    ) || contains_seq(m, "CL:"@)
}

/// A meaning that refers to other words.
pub open spec fn is_reference(m: Seq<char>) -> bool {
    contains_seq(m, "abbr. for"@) || contains_seq(m, "also written"@) || contains_seq(
        m,
        "also called"@,
    ) || contains_seq(m, "also named"@) || contains_seq(m, "also pr."@) || starts_with(
        m,
        "see "@,
    )
}

/// The number of bytes `c` takes in UTF-8.
pub open spec fn utf8_width(c: char) -> int {
    if (c as u32) < 0x80 {
        1
    } else if (c as u32) < 0x800 {
        2
    } else if (c as u32) < 0x10000 {
        3
    } else {
        4
    }
}

/// The number of bytes `w` takes in UTF-8.
pub open spec fn utf8_len(w: Seq<char>) -> int
    decreases w.len(),
{
    if w.len() == 0 {
        0
    } else {
        utf8_len(w.drop_last()) + utf8_width(w.last())
    }
}

pub proof fn lemma_utf8_width_positive(c: char)
    ensures
        1 <= utf8_width(c) <= 4,
{
}

proof fn lemma_utf8_len_grows(w: Seq<char>, i: int)
    requires
        0 <= i <= w.len(),
    ensures
        utf8_len(w.subrange(0, i)) <= utf8_len(w),
    decreases w.len() - i,
{
    if i < w.len() {
        lemma_utf8_len_grows(w, i + 1);
        assert(w.subrange(0, i + 1).drop_last() =~= w.subrange(0, i));
    } else {
        assert(w.subrange(0, i) =~= w);
    }
}

/// Whether `w` takes at least three bytes in UTF-8.
fn three_bytes_or_more(w: &[char]) -> (r: bool)
    ensures
        r == (utf8_len(w@) >= 3),
{
    let mut n: usize = 0;
    let mut i: usize = 0;
    while i < w.len()
        invariant
            i <= w@.len(),
            n as int == utf8_len(w@.subrange(0, i as int)),
            n < 3,
        decreases w@.len() - i,
    {
        let c = w[i];
        let width: usize = if (c as u32) < 0x80 {
            1
        } else if (c as u32) < 0x800 {
            2
        } else if (c as u32) < 0x10000 {
            3
        } else {
            4
        };
        assert(w@.subrange(0, i + 1).drop_last() =~= w@.subrange(0, i as int));
        n = n + width;
        i += 1;
        if n >= 3 {
            proof {
                lemma_utf8_len_grows(w@, i as int);
            }
            return true;
        }
    }
    assert(w@.subrange(0, i as int) =~= w@);
    false
}

/// A word that can be a keyword: at least three bytes long and not a stop word.
pub open spec fn is_candidate(w: Seq<char>) -> bool {
    utf8_len(w) >= 3 && w != "the"@ && w != "are"@ && w != "sth"@ && w != "very"@
}

/// The candidates among `ws`, in order.
pub open spec fn candidates_of(ws: Seq<Seq<char>>) -> Seq<Seq<char>>
    decreases ws.len(),
{
    if ws.len() == 0 {
        Seq::empty()
    } else if is_candidate(ws.last()) {
        candidates_of(ws.drop_last()).push(ws.last())
    } else {
        candidates_of(ws.drop_last())
    }
}

pub open spec fn opens(w: Seq<char>, c: char) -> bool {
    w.len() > 0 && w[0] == c
}

pub open spec fn closes(w: Seq<char>, c: char) -> bool {
    w.len() > 0 && w.last() == c
}

/// The words of `ws` outside parentheses and brackets, scanning from the
/// front: a word enclosed on its own is dropped; an opening word starts a
/// skipped run, and a closing word ends it and is dropped.
pub open spec fn outside_brackets(ws: Seq<Seq<char>>, in_p: bool, in_b: bool) -> Seq<Seq<char>>
    decreases ws.len(),
{
    if ws.len() == 0 {
        Seq::empty()
    } else {
        let w = ws[0];
        let rest = ws.drop_first();
        if (opens(w, '(') && closes(w, ')')) || (opens(w, '[') && closes(w, ']')) {
            outside_brackets(rest, in_p, in_b)
        } else if opens(w, '(') {
            outside_brackets(rest, true, in_b)
        } else if opens(w, '[') {
            outside_brackets(rest, in_p, true)
        } else if closes(w, ')') {
            outside_brackets(rest, false, in_b)
        } else if closes(w, ']') {
            outside_brackets(rest, in_p, false)
        } else if !in_p && !in_b {
            seq![w] + outside_brackets(rest, in_p, in_b)
        } else {
            outside_brackets(rest, in_p, in_b)
        }
    }
}

/// The values of the tokens that have entries.
pub open spec fn known_values(ts: Seq<(Seq<char>, int, bool)>) -> Seq<Seq<char>>
    decreases ts.len(),
{
    if ts.len() == 0 {
        Seq::empty()
    } else if ts.last().2 {
        known_values(ts.drop_last()).push(ts.last().0)
    } else {
        known_values(ts.drop_last())
    }
}

/// The keywords one meaning gives, in order, possibly repeated.
pub open spec fn meaning_keywords(d: WordDictionary, m: Seq<char>) -> Seq<Seq<char>> {
    if is_reference(m) {
        known_values(d.tokens(m))
    } else {
        outside_brackets(
            candidates_of(ascii_words(m.map_values(|c: char| blank_punct(c)))),
            false,
            false,
        )
    }
}

/// `list` with `w` added unless it is there.
pub open spec fn add_unique(list: Seq<Seq<char>>, w: Seq<char>) -> Seq<Seq<char>> {
    if list.contains(w) {
        list
    } else {
        list.push(w)
    }
}

/// `list` with each of `ws` added unless it is there.
pub open spec fn add_all(list: Seq<Seq<char>>, ws: Seq<Seq<char>>) -> Seq<Seq<char>>
    decreases ws.len(),
{
    if ws.len() == 0 {
        list
    } else {
        add_unique(add_all(list, ws.drop_last()), ws.last())
    }
}

/// The keywords of the meanings `ms` that are not metadata, each once.
pub open spec fn keywords_of(d: WordDictionary, ms: Seq<Seq<char>>) -> Seq<Seq<char>>
    decreases ms.len(),
{
    if ms.len() == 0 {
        Seq::empty()
    } else if is_metadata(ms.last()) {
        keywords_of(d, ms.drop_last())
    } else {
        add_all(keywords_of(d, ms.drop_last()), meaning_keywords(d, ms.last()))
    }
}

/// The keywords of a `/`-separated gloss, each once.
pub open spec fn gloss_keywords(d: WordDictionary, gloss: Seq<char>) -> Seq<Seq<char>> {
    keywords_of(d, pieces(gloss, Separator::Slash))
}

fn is_ascii_punctuation(c: char) -> (r: bool)
    ensures
        r == is_ascii_punct(c),
{
    ('!' <= c && c <= '/') || (':' <= c && c <= '@') || ('[' <= c && c <= '`') || ('{' <= c
        && c <= '~')
}

/// Whether `m` holds the literal `lit`.
fn holds(m: &[char], lit: &str) -> (r: bool)
    ensures
        r == contains_seq(m@, lit@),
{
    let l = chars_of(lit);
    contains_slice(m, l.as_slice())
}

/// Whether `list` holds `w`.
fn list_contains(list: &Vec<Vec<char>>, w: &[char]) -> (r: bool)
    ensures
        r == views(list@).contains(w@),
{
    let mut i: usize = 0;
    while i < list.len()
        invariant
            i <= list@.len(),
            forall|k: int| 0 <= k < i ==> list@[k]@ != w@,
        decreases list@.len() - i,
    {
        if slices_equal(list[i].as_slice(), w) {
            assert(views(list@)[i as int] == w@);
            return true;
        }
        i += 1;
    }
    assert forall|k: int| 0 <= k < list@.len() implies views(list@)[k] != w@ by {
        assert(list@[k]@ != w@);
    }
    false
}

/// Adds each of `ws` to `list` unless it is there.
fn add_words(list: &mut Vec<Vec<char>>, ws: &Vec<Vec<char>>)
    ensures
        views(final(list)@) == add_all(views(old(list)@), views(ws@)),
{
    let ghost start = views(list@);
    let ghost all = views(ws@);
    let mut i: usize = 0;
    assert(all.subrange(0, 0) =~= Seq::<Seq<char>>::empty());
    while i < ws.len()
        invariant
            i <= ws@.len(),
            all == views(ws@),
            views(list@) == add_all(start, all.subrange(0, i as int)),
        decreases ws@.len() - i,
    {
        assert(all.subrange(0, i + 1).drop_last() =~= all.subrange(0, i as int));
        assert(all.subrange(0, i + 1).last() == ws[i as int]@);
        if !list_contains(list, ws[i].as_slice()) {
            let x = ws[i].clone();
            assert(x@ =~= ws[i as int]@);
            let ghost before = views(list@);
            list.push(x);
            assert(views(list@) =~= before.push(all[i as int]));
        }
        i += 1;
    }
    assert(all.subrange(0, i as int) =~= all);
}

/// The words of `ws` outside parentheses and brackets.
fn drop_bracketed(ws: &Vec<Vec<char>>) -> (r: Vec<Vec<char>>)
    ensures
        views(r@) == outside_brackets(views(ws@), false, false),
{
    let ghost all = views(ws@);
    let mut out: Vec<Vec<char>> = Vec::new();
    let mut in_p = false;
    let mut in_b = false;
    let mut i: usize = 0;
    assert(all.subrange(0, all.len() as int) =~= all);
    while i < ws.len()
        invariant
            i <= ws@.len(),
            all == views(ws@),
            views(out@) + outside_brackets(all.subrange(i as int, all.len() as int), in_p, in_b)
                == outside_brackets(all, false, false),
        decreases ws@.len() - i,
    {
        let w = &ws[i];
        let ghost tail = all.subrange(i as int, all.len() as int);
        assert(tail[0] == w@);
        assert(tail.drop_first() =~= all.subrange(i + 1, all.len() as int));
        let n = w.len();
        let op = n > 0 && w[0] == '(';
        let ob = n > 0 && w[0] == '[';
        let cp = n > 0 && w[n - 1] == ')';
        let cb = n > 0 && w[n - 1] == ']';
        if (op && cp) || (ob && cb) {
        } else if op {
            in_p = true;
        } else if ob {
            in_b = true;
        } else if cp {
            in_p = false;
        } else if cb {
            in_b = false;
        } else if !in_p && !in_b {
            let ghost before = views(out@);
            out.push(w.clone());
            assert(views(out@) =~= before.push(w@));
            assert(views(out@) + outside_brackets(all.subrange(i + 1, all.len() as int), in_p, in_b)
                =~= before + (seq![w@] + outside_brackets(all.subrange(i + 1, all.len() as int), in_p, in_b)));
        }
        i += 1;
    }
    assert(all.subrange(i as int, all.len() as int) =~= Seq::<Seq<char>>::empty());
    assert(views(out@) =~= views(out@) + Seq::<Seq<char>>::empty());
    out
}

/// The keywords of one meaning that does not refer to other words.
fn plain_keywords(m: &[char]) -> (r: Vec<Vec<char>>)
    ensures
        views(r@) == outside_brackets(
            candidates_of(ascii_words(m@.map_values(|c: char| blank_punct(c)))),
            false,
            false,
        ),
{
    let mut cleaned: Vec<char> = Vec::new();
    let mut i: usize = 0;
    while i < m.len()
        invariant
            i <= m@.len(),
            cleaned@ == m@.subrange(0, i as int).map_values(|c: char| blank_punct(c)),
        decreases m@.len() - i,
    {
        let c = m[i];
        let b = if is_ascii_punctuation(c) && c != '(' && c != ')' && c != '[' && c != ']' {
            ' '
        } else {
            c
        };
        cleaned.push(b);
        assert(cleaned@ =~= m@.subrange(0, i + 1).map_values(|c: char| blank_punct(c)));
        i += 1;
    }
    assert(m@.subrange(0, i as int) =~= m@);
    let ws = words_of(cleaned.as_slice());
    let ghost wv = views(ws@);
    let mut kept: Vec<Vec<char>> = Vec::new();
    let mut k: usize = 0;
    while k < ws.len()
        invariant
            k <= ws@.len(),
            wv == views(ws@),
            views(kept@) == candidates_of(wv.subrange(0, k as int)),
        decreases ws@.len() - k,
    {
        let w = &ws[k];
        assert(wv.subrange(0, k + 1).drop_last() =~= wv.subrange(0, k as int));
        assert(wv.subrange(0, k + 1).last() == w@);
        proof {
            reveal_strlit("the");
            reveal_strlit("are");
            reveal_strlit("sth");
            reveal_strlit("very");
        }
        if three_bytes_or_more(w.as_slice()) && !slices_equal(w.as_slice(), chars_of("the").as_slice())
            && !slices_equal(w.as_slice(), chars_of("are").as_slice()) && !slices_equal(
            w.as_slice(),
            chars_of("sth").as_slice(),
        ) && !slices_equal(w.as_slice(), chars_of("very").as_slice()) {
            let ghost before = views(kept@);
            kept.push(w.clone());
            assert(views(kept@) =~= before.push(w@));
        }
        k += 1;
    }
    assert(wv.subrange(0, k as int) =~= wv);
    drop_bracketed(&kept)
}

/// The values of the tokens that have entries, as code points.
fn known_token_values(ts: &Vec<Token>, Ghost(tv): Ghost<Seq<(Seq<char>, int, bool)>>) -> (r: Vec<
    Vec<char>,
>)
    requires
        ts@.map_values(|t: Token| token_view(t)) == tv,
    ensures
        views(r@) == known_values(tv),
{
    let mut out: Vec<Vec<char>> = Vec::new();
    let mut i: usize = 0;
    while i < ts.len()
        invariant
            i <= ts@.len(),
            ts@.map_values(|t: Token| token_view(t)) == tv,
            views(out@) == known_values(tv.subrange(0, i as int)),
        decreases ts@.len() - i,
    {
        assert(tv.subrange(0, i + 1).drop_last() =~= tv.subrange(0, i as int));
        assert(tv.subrange(0, i + 1).last() == token_view(ts@[i as int]));
        if ts[i].has_entries {
            let v = chars_of(ts[i].value.as_str());
            let ghost before = views(out@);
            out.push(v);
            assert(views(out@) =~= before.push(ts@[i as int].value@));
        }
        i += 1;
    }
    assert(tv.subrange(0, i as int) =~= tv);
    out
}

/// The keywords of a `/`-separated gloss, each once: meanings that name a
/// classifier, a variant, a surname or a measure word are skipped; a meaning
/// that refers to other words gives the tokens that have entries; any other
/// gives its words of three bytes or more, without stop words and without
/// what stands in parentheses or brackets.
fn extract_keywords(input: &str, word_dict: &WordDictionary) -> (r: Vec<Vec<char>>)
    requires
        word_dict.wf(),
    ensures
        views(r@) == gloss_keywords(*word_dict, input@),
{
    let cs = chars_of(input);
    let ms = split_pieces(cs.as_slice(), Separator::Slash);
    let ghost mv = views(ms@);
    let mut out: Vec<Vec<char>> = Vec::new();
    let mut i: usize = 0;
    assert(mv.subrange(0, 0) =~= Seq::<Seq<char>>::empty());
    while i < ms.len()
        invariant
            i <= ms@.len(),
            word_dict.wf(),
            mv == views(ms@),
            mv == pieces(input@, Separator::Slash),
            views(out@) == keywords_of(*word_dict, mv.subrange(0, i as int)),
        decreases ms@.len() - i,
    {
        let m = ms[i].as_slice();
        assert(mv.subrange(0, i + 1).drop_last() =~= mv.subrange(0, i as int));
        assert(mv.subrange(0, i + 1).last() == m@);
        if !(holds(m, "classifier for") || holds(m, "variant of") || holds(m, "surname ") || holds(
            m,
            "CL:",
        )) {
            let see = chars_of("see ");
            let reference = holds(m, "abbr. for") || holds(m, "also written") || holds(
                m,
                "also called",
            ) || holds(m, "also named") || holds(m, "also pr.") || starts_with_at(
                m,
                0,
                see.as_slice(),
            );
            assert(m@.subrange(0, m@.len() as int) =~= m@);
            let kws = if reference {
                let text = string_of(m, 0, m.len());
                let ts = word_dict.tokenize(text.as_str());
                known_token_values(&ts, Ghost(word_dict.tokens(m@)))
            } else {
                plain_keywords(m)
            };
            add_words(&mut out, &kws);
        }
        i += 1;
    }
    assert(mv.subrange(0, i as int) =~= mv);
    out
}

/// An entry counts unless its pinyin starts with an ASCII capital, the mark
/// of a proper noun.
pub open spec fn qualifies(e: WordEntry) -> bool {
    !(e.pinyin@.len() > 0 && 'A' <= e.pinyin@[0] && e.pinyin@[0] <= 'Z')
}

/// The bag of `k` in orthography `ty` after the entries `es`: the union, in
/// order, of the keywords of the qualifying entries with that form.
pub open spec fn bag_of(d: WordDictionary, es: Seq<WordEntry>, ty: DictionaryType, k: Seq<char>) -> Option<
    Seq<Seq<char>>,
>
    decreases es.len(),
{
    if es.len() == 0 {
        None
    } else {
        let b = bag_of(d, es.drop_last(), ty, k);
        let e = es.last();
        if qualifies(e) && form(e, ty) == k {
            Some(
                add_all(
                    match b {
                        Some(x) => x,
                        None => Seq::empty(),
                    },
                    gloss_keywords(d, e.english@),
                ),
            )
        } else {
            b
        }
    }
}

/// A similarity score `shared / total`.
#[derive(Debug, Clone, Copy, PartialEq, Eq)]
pub struct Score {
    pub shared: usize,
    pub total: usize,
}

/// The number of items of `a` that `b` holds.
pub open spec fn common(a: Seq<Seq<char>>, b: Seq<Seq<char>>) -> int
    decreases a.len(),
{
    if a.len() == 0 {
        0
    } else {
        common(a.drop_last(), b) + if b.contains(a.last()) {
            1int
        } else {
            0int
        }
    }
}

/// The score of head word `w` with bag `b` against bag `a`: 1 when `a`
/// holds `w`, else the Jaccard coefficient of the two bags.
pub open spec fn score_of(a: Seq<Seq<char>>, w: Seq<char>, b: Seq<Seq<char>>) -> (int, int) {
    if a.contains(w) {
        (1, 1)
    } else {
        (common(a, b), a.len() + b.len() - common(a, b))
    }
}

/// The head words other than `word` with a positive score, in order.
pub open spec fn scored(
    a: Seq<Seq<char>>,
    word: Seq<char>,
    items: Seq<(Seq<char>, Seq<Seq<char>>)>,
) -> Seq<(Seq<char>, (int, int))>
    decreases items.len(),
{
    if items.len() == 0 {
        Seq::empty()
    } else {
        let rest = scored(a, word, items.drop_last());
        let (w, b) = items.last();
        let sc = score_of(a, w, b);
        if w != word && sc.0 > 0 {
            rest.push((w, sc))
        } else {
            rest
        }
    }
}

/// `x / y` is less than `u / v`, for positive `y` and `v`.
pub open spec fn lower(x: (int, int), y: (int, int)) -> bool {
    x.0 * y.1 < y.0 * x.1
}

/// The first position from `i` on whose score is lower than `x`'s.
pub open spec fn first_lower(s: Seq<(Seq<char>, (int, int))>, x: (int, int), i: int) -> int
    decreases s.len() - i,
{
    if i < 0 || i >= s.len() {
        s.len() as int
    } else if lower(s[i].1, x) {
        i
    } else {
        first_lower(s, x, i + 1)
    }
}

/// `sorted` with `x` placed after every item that scores at least as high.
pub open spec fn insert_ranked(sorted: Seq<(Seq<char>, (int, int))>, x: (Seq<char>, (int, int))) -> Seq<
    (Seq<char>, (int, int)),
> {
    sorted.insert(first_lower(sorted, x.1, 0), x)
}

/// `s` by descending score, equal scores in their order in `s`.
pub open spec fn ranked(s: Seq<(Seq<char>, (int, int))>) -> Seq<(Seq<char>, (int, int))>
    decreases s.len(),
{
    if s.len() == 0 {
        Seq::empty()
    } else {
        insert_ranked(ranked(s.drop_last()), s.last())
    }
}

pub open spec fn score_view(s: Score) -> (int, int) {
    (s.shared as int, s.total as int)
}

/// The views of a ranked list.
pub open spec fn ranked_views(v: Seq<(String, Score)>) -> Seq<(Seq<char>, (int, int))> {
    v.map_values(|p: (String, Score)| (p.0@, score_view(p.1)))
}

/// Relies on `Vec::len`, and on the documented limit that a vector's
/// allocation never exceeds `isize::MAX` bytes, so that a vector of non-empty
/// items holds at most `isize::MAX` of them.
#[verifier::external_body]
fn bag_len(v: &Vec<Vec<char>>) -> (r: usize)
    ensures
        r == v@.len(),
        r <= isize::MAX,
{
    v.len()
}

/// The number of items of `a` that `b` holds.
fn count_common(a: &Vec<Vec<char>>, b: &Vec<Vec<char>>) -> (r: usize)
    ensures
        r as int == common(views(a@), views(b@)),
        r <= a@.len(),
{
    let ghost av = views(a@);
    let mut n: usize = 0;
    let mut i: usize = 0;
    assert(av.subrange(0, 0) =~= Seq::<Seq<char>>::empty());
    while i < a.len()
        invariant
            i <= a@.len(),
            av == views(a@),
            n <= i,
            n as int == common(av.subrange(0, i as int), views(b@)),
        decreases a@.len() - i,
    {
        assert(av.subrange(0, i + 1).drop_last() =~= av.subrange(0, i as int));
        assert(av.subrange(0, i + 1).last() == a[i as int]@);
        if list_contains(b, a[i].as_slice()) {
            n += 1;
        }
        i += 1;
    }
    assert(av.subrange(0, i as int) =~= av);
    n
}

/// Whether score `x` is lower than score `y`.
fn is_lower(x: Score, y: Score) -> (r: bool)
    requires
        x.shared <= isize::MAX,
        y.shared <= isize::MAX,
    ensures
        r == lower(score_view(x), score_view(y)),
{
    proof {
        assert((x.shared as int) * (y.total as int) < 0x1_0000_0000_0000_0000_0000_0000_0000_0000)
            by (nonlinear_arith)
            requires
                x.shared <= isize::MAX,
                y.total <= usize::MAX,
        {
        }
        assert((y.shared as int) * (x.total as int) < 0x1_0000_0000_0000_0000_0000_0000_0000_0000)
            by (nonlinear_arith)
            requires
                y.shared <= isize::MAX,
                x.total <= usize::MAX,
        {
        }
    }
    let a = (x.shared as u128) * (y.total as u128);
    let b = (y.shared as u128) * (x.total as u128);
    a < b
}

/// Bags of keywords by head word, in each orthography.
pub struct ThesaurusDictionary {
    simplified: CharTrie<(String, Vec<Vec<char>>)>,
    traditional: CharTrie<(String, Vec<Vec<char>>)>,
}

impl ThesaurusDictionary {
    pub closed spec fn trie(self, ty: DictionaryType) -> CharTrie<(String, Vec<Vec<char>>)> {
        match ty {
            DictionaryType::Simplified => self.simplified,
            DictionaryType::Traditional => self.traditional,
        }
    }

    /// Bags by head word, in orthography `ty`.
    pub closed spec fn bags(self, ty: DictionaryType) -> Map<Seq<char>, Seq<Seq<char>>> {
        self.trie(ty)@.map_values(|p: (String, Vec<Vec<char>>)| views(p.1@))
    }

    /// Head words and bags, in enumeration order, in orthography `ty`.
    pub closed spec fn items(self, ty: DictionaryType) -> Seq<(Seq<char>, Seq<Seq<char>>)> {
        self.trie(ty).values_with_prefix(Seq::empty()).map_values(
            |p: (String, Vec<Vec<char>>)| (p.0@, views(p.1@)),
        )
    }

    /// Each trie is well formed and each item holds its own head word.
    pub closed spec fn wf(self) -> bool {
        &&& self.simplified.wf()
        &&& self.traditional.wf()
        &&& forall|ty: DictionaryType, k: Seq<char>| #[trigger]
            self.trie(ty)@.contains_key(k) ==> self.trie(ty)@[k].0@ == k && views(
                self.trie(ty)@[k].1@,
            ).no_duplicates()
    }

    /// The words similar to `word` in orthography `ty`, by descending score.
    pub open spec fn similar(self, word: Seq<char>, ty: DictionaryType) -> Seq<(Seq<char>, (int, int))> {
        if self.bags(ty).contains_key(word) {
            ranked(scored(self.bags(ty)[word], word, self.items(ty)))
        } else {
            Seq::empty()
        }
    }

    fn trie_ref(&self, ty: DictionaryType) -> (r: &CharTrie<(String, Vec<Vec<char>>)>)
        ensures
            *r == self.trie(ty),
    {
        match ty {
            DictionaryType::Simplified => &self.simplified,
            DictionaryType::Traditional => &self.traditional,
        }
    }

    /// The head words other than `word` whose score against `word` is
    /// positive, by descending score, equal scores in enumeration order. The
    /// score is 1 when `word`'s bag holds the head word, else the Jaccard
    /// coefficient of the two bags; none when `word` has no bag.
    pub fn get_similar_words(&self, word: &str, ty: DictionaryType) -> (r: Vec<(String, Score)>)
        requires
            self.wf(),
        ensures
            ranked_views(r@) == self.similar(word@, ty),
    {
        let trie = self.trie_ref(ty);
        let own: &Vec<Vec<char>> = match trie.get(word) {
            Some(p) => &p.1,
            None => {
                return Vec::new();
            },
        };
        let ghost a = views(own@);
        assert(a == self.bags(ty)[word@]);
        let items = trie.get_prefix("");
        proof {
            reveal_strlit("");
            assert(""@ =~= Seq::<char>::empty());
        }
        let ghost iv = self.items(ty);
        assert(iv =~= deref_seq(items@).map_values(
            |p: (String, Vec<Vec<char>>)| (p.0@, views(p.1@)),
        ));
        let wc = chars_of(word);
        let alen = bag_len(own);
        let mut out: Vec<(String, Score)> = Vec::new();
        let mut i: usize = 0;
        assert(iv.subrange(0, 0) =~= Seq::<(Seq<char>, Seq<Seq<char>>)>::empty());
        while i < items.len()
            invariant
                i <= items@.len(),
                wc@ == word@,
                alen == a.len(),
                alen <= isize::MAX,
                a == views(own@),
                iv == deref_seq(items@).map_values(
                    |p: (String, Vec<Vec<char>>)| (p.0@, views(p.1@)),
                ),
                ranked_views(out@) == ranked(scored(a, word@, iv.subrange(0, i as int))),
                forall|k: int| 0 <= k < out@.len() ==> (#[trigger] out@[k]).1.shared <= isize::MAX,
            decreases items@.len() - i,
        {
            let (w, b) = items[i];
            assert(iv.subrange(0, i + 1).drop_last() =~= iv.subrange(0, i as int));
            assert(iv.subrange(0, i + 1).last() == (w@, views(b@)));
            let wch = chars_of(w.as_str());
            let ghost prev_scored = scored(a, word@, iv.subrange(0, i as int));
            let ghost next_scored = scored(a, word@, iv.subrange(0, i + 1));
            if slices_equal(wch.as_slice(), wc.as_slice()) {
                assert(next_scored == prev_scored);
            } else {
                let sc = if list_contains(own, wch.as_slice()) {
                    Score { shared: 1, total: 1 }
                } else {
                    let c = count_common(own, b);
                    let blen = bag_len(b);
                    Score { shared: c, total: (alen - c) + blen }
                };
                assert(score_view(sc) == score_of(a, w@, views(b@)));
                if sc.shared == 0 {
                    assert(next_scored == prev_scored);
                }
                if sc.shared > 0 {
                    assert(next_scored == prev_scored.push((w@, score_view(sc))));
                    assert(next_scored.drop_last() =~= prev_scored);
                    let ghost sorted = ranked_views(out@);
                    let mut pos: usize = 0;
                    while pos < out.len() && !is_lower(out[pos].1, sc)
                        invariant
                            pos <= out@.len(),
                            sorted == ranked_views(out@),
                            sc.shared <= isize::MAX,
                            forall|k: int| 0 <= k < out@.len() ==> (#[trigger] out@[k]).1.shared <= isize::MAX,
                            first_lower(sorted, score_view(sc), 0) == first_lower(sorted, score_view(sc), pos as int),
                        decreases out@.len() - pos,
                    {
                        assert(sorted[pos as int].1 == score_view(out@[pos as int].1));
                        pos += 1;
                    }
                    proof {
                        if pos < out@.len() {
                            assert(sorted[pos as int].1 == score_view(out@[pos as int].1));
                        }
                        assert(first_lower(sorted, score_view(sc), pos as int) == pos);
                    }
                    let ghost prev = out@;
                    out.insert(pos, (string_of(wch.as_slice(), 0, wch.len()), sc));
                    proof {
                        assert(wch@.subrange(0, wch@.len() as int) =~= wch@);
                        assert(ranked_views(out@) =~= sorted.insert(pos as int, (w@, score_view(sc))));
                        assert forall|k: int| 0 <= k < out@.len() implies (#[trigger] out@[k]).1.shared <= isize::MAX by {
                            if k < pos {
                                assert(out@[k] == prev[k]);
                            } else if k > pos {
                                assert(out@[k] == prev[k - 1]);
                            }
                        }
                    }
                }
            }
            i += 1;
        }
        assert(iv.subrange(0, i as int) =~= iv);
        out
    }

    /// Adds `kws` to the bag of `key`.
    fn merge(trie: &mut CharTrie<(String, Vec<Vec<char>>)>, key: &String, kws: &Vec<Vec<char>>)
        requires
            old(trie).wf(),
            key@.len() > 0,
            forall|k: Seq<char>| #[trigger]
                old(trie)@.contains_key(k) ==> old(trie)@[k].0@ == k && views(
                    old(trie)@[k].1@,
                ).no_duplicates(),
        ensures
            final(trie).wf(),
            forall|k: Seq<char>| #[trigger]
                final(trie)@.contains_key(k) ==> final(trie)@[k].0@ == k && views(
                    final(trie)@[k].1@,
                ).no_duplicates(),
            final(trie)@.map_values(|p: (String, Vec<Vec<char>>)| views(p.1@)) == old(trie)@.map_values(
                |p: (String, Vec<Vec<char>>)| views(p.1@),
            ).insert(
                key@,
                add_all(
                    if old(trie)@.contains_key(key@) {
                        views(old(trie)@[key@].1@)
                    } else {
                        Seq::empty()
                    },
                    views(kws@),
                ),
            ),
    {
        let ghost before = *trie;
        let item = match trie.take(key.as_str()) {
            Some(p) => {
                let (w, mut bag) = p;
                add_words(&mut bag, kws);
                (w, bag)
            },
            None => {
                let mut bag: Vec<Vec<char>> = Vec::new();
                assert(views(bag@) =~= Seq::<Seq<char>>::empty());
                add_words(&mut bag, kws);
                (key.clone(), bag)
            },
        };
        proof {
            let start = if before@.contains_key(key@) {
                views(before@[key@].1@)
            } else {
                Seq::empty()
            };
            lemma_add_all_unique(start, views(kws@));
        }
        trie.push(key.as_str(), item);
        proof {
            assert(trie@.map_values(|p: (String, Vec<Vec<char>>)| views(p.1@)) =~= before@.map_values(
                |p: (String, Vec<Vec<char>>)| views(p.1@),
            ).insert(
                key@,
                add_all(
                    if before@.contains_key(key@) {
                        views(before@[key@].1@)
                    } else {
                        Seq::empty()
                    },
                    views(kws@),
                ),
            ));
        }
    }

    /// Builds the bags from every qualifying entry of `data`.
    pub fn new(data: &WordDictionary) -> (r: Self)
        requires
            data.wf(),
        ensures
            r.wf(),
            forall|ty: DictionaryType, k: Seq<char>| #[trigger]
                r.bags(ty).contains_key(k) == bag_of(*data, data.all_entries(), ty, k) is Some,
            forall|ty: DictionaryType, k: Seq<char>| #[trigger]
                r.bags(ty).contains_key(k) ==> r.bags(ty)[k] == bag_of(
                    *data,
                    data.all_entries(),
                    ty,
                    k,
                )->0,
    {
        let entries = data.iter();
        let ghost es = deref_seq(entries@);
        let mut t = ThesaurusDictionary {
            simplified: CharTrie::with_capacity(16384),
            traditional: CharTrie::with_capacity(16384),
        };
        let mut i: usize = 0;
        proof {
            data.lemma_entry_forms_non_empty();
        }
        while i < entries.len()
            invariant
                i <= entries@.len(),
                es == deref_seq(entries@),
                es == data.all_entries(),
                data.wf(),
                forall|j: int| 0 <= j < es.len() ==> (#[trigger] es[j]).simplified@.len() > 0
                    && es[j].traditional@.len() > 0,
                t.wf(),
                forall|ty: DictionaryType, k: Seq<char>| #[trigger]
                    t.bags(ty).contains_key(k) == bag_of(*data, es.subrange(0, i as int), ty, k) is Some,
                forall|ty: DictionaryType, k: Seq<char>| #[trigger]
                    t.bags(ty).contains_key(k) ==> t.bags(ty)[k] == bag_of(
                        *data,
                        es.subrange(0, i as int),
                        ty,
                        k,
                    )->0,
            decreases entries@.len() - i,
        {
            let e = entries[i];
            assert(es.subrange(0, i + 1).drop_last() =~= es.subrange(0, i as int));
            assert(es.subrange(0, i + 1).last() == *e);
            let p = chars_of(e.pinyin.as_str());
            if !(p.len() > 0 && 'A' <= p[0] && p[0] <= 'Z') {
                let kws = extract_keywords(e.english.as_str(), data);
                let ghost old_t = t;
                proof {
                    assert forall|k: Seq<char>| #[trigger] t.simplified@.contains_key(k) implies t.simplified@[k].0@ == k
                        && views(t.simplified@[k].1@).no_duplicates() by {
                        assert(t.trie(DictionaryType::Simplified) == t.simplified);
                    }
                    assert forall|k: Seq<char>| #[trigger] t.traditional@.contains_key(k) implies t.traditional@[k].0@ == k
                        && views(t.traditional@[k].1@).no_duplicates() by {
                        assert(t.trie(DictionaryType::Traditional) == t.traditional);
                    }
                }
                Self::merge(&mut t.simplified, &e.simplified, &kws);
                Self::merge(&mut t.traditional, &e.traditional, &kws);
                proof {
                    assert forall|ty: DictionaryType, k: Seq<char>| #[trigger]
                        t.trie(ty)@.contains_key(k) implies t.trie(ty)@[k].0@ == k && views(
                            t.trie(ty)@[k].1@,
                        ).no_duplicates() by {
                        match ty {
                            DictionaryType::Simplified => {},
                            DictionaryType::Traditional => {},
                        }
                    }
                    assert forall|ty: DictionaryType, k: Seq<char>|
                        #[trigger] t.bags(ty).contains_key(k) == bag_of(*data, es.subrange(0, i + 1), ty, k) is Some
                        && (t.bags(ty).contains_key(k) ==> t.bags(ty)[k] == bag_of(
                            *data,
                            es.subrange(0, i + 1),
                            ty,
                            k,
                        )->0) by {
                        assert(t.bags(ty) == old_t.bags(ty).insert(
                            form(*e, ty),
                            add_all(
                                if old_t.bags(ty).contains_key(form(*e, ty)) {
                                    old_t.bags(ty)[form(*e, ty)]
                                } else {
                                    Seq::empty()
                                },
                                views(kws@),
                            ),
                        ));
                    }
                }
            }
            i += 1;
        }
        assert(es.subrange(0, i as int) =~= es);
        t
    }
}

/// Adding words one by one keeps a list free of duplicates.
proof fn lemma_add_all_unique(list: Seq<Seq<char>>, ws: Seq<Seq<char>>)
    requires
        list.no_duplicates(),
    ensures
        add_all(list, ws).no_duplicates(),
    decreases ws.len(),
{
    if ws.len() > 0 {
        lemma_add_all_unique(list, ws.drop_last());
        let prev = add_all(list, ws.drop_last());
        if !prev.contains(ws.last()) {
            let next = prev.push(ws.last());
            assert forall|i: int, j: int| 0 <= i < j < next.len() implies next[i] != next[j] by {
                if j == prev.len() {
                    assert(prev[i] == next[i]);
                }
            }
        }
    }
}

/// The items of `a` that `b` holds, in order.
pub open spec fn in_both(a: Seq<Seq<char>>, b: Seq<Seq<char>>) -> Seq<Seq<char>>
    decreases a.len(),
{
    if a.len() == 0 {
        Seq::empty()
    } else if b.contains(a.last()) {
        in_both(a.drop_last(), b).push(a.last())
    } else {
        in_both(a.drop_last(), b)
    }
}

proof fn lemma_in_both(a: Seq<Seq<char>>, b: Seq<Seq<char>>)
    requires
        a.no_duplicates(),
    ensures
        in_both(a, b).len() == common(a, b),
        in_both(a, b).no_duplicates(),
        forall|x: Seq<char>| #[trigger] in_both(a, b).contains(x) ==> a.contains(x) && b.contains(x),
    decreases a.len(),
{
    if a.len() > 0 {
        let prev = a.drop_last();
        assert(prev.no_duplicates()) by {
            assert forall|i: int, j: int| 0 <= i < j < prev.len() implies prev[i] != prev[j] by {
                assert(prev[i] == a[i] && prev[j] == a[j]);
            }
        }
        lemma_in_both(prev, b);
        let r = in_both(prev, b);
        assert forall|x: Seq<char>| #[trigger] in_both(a, b).contains(x) implies a.contains(x)
            && b.contains(x) by {
            let k = choose|k: int| 0 <= k < in_both(a, b).len() && in_both(a, b)[k] == x;
            if k < r.len() {
                assert(in_both(a, b)[k] == r[k]);
                assert(r.contains(x));
                let i = choose|i: int| 0 <= i < prev.len() && prev[i] == x;
                assert(a[i] == x);
            } else {
                assert(a[a.len() - 1] == x);
            }
        }
        if b.contains(a.last()) {
            let next = r.push(a.last());
            assert forall|i: int, j: int| 0 <= i < j < next.len() implies next[i] != next[j] by {
                if j == r.len() {
                    assert(next[i] == r[i]);
                    if r[i] == a.last() {
                        assert(r.contains(a.last()));
                        let q = choose|q: int| 0 <= q < prev.len() && prev[q] == a.last();
                        assert(a[q] == a[a.len() - 1]);
                    }
                } else {
                    assert(next[i] == r[i] && next[j] == r[j]);
                }
            }
        }
    }
}

/// Of a list without duplicates, `b` holds at most as many items as it has.
proof fn lemma_common_within(a: Seq<Seq<char>>, b: Seq<Seq<char>>)
    requires
        a.no_duplicates(),
    ensures
        common(a, b) <= b.len(),
{
    lemma_in_both(a, b);
    let r = in_both(a, b);
    r.unique_seq_to_set();
    b.lemma_cardinality_of_set();
    assert(r.to_set().subset_of(b.to_set()));
    vstd::set_lib::lemma_len_subset(r.to_set(), b.to_set());
}

/// Numerator and denominator are positive.
pub open spec fn positive(x: (int, int)) -> bool {
    0 < x.0 && 0 < x.1
}

/// A score in `(0, 1]`.
pub open spec fn in_unit(x: (int, int)) -> bool {
    0 < x.0 <= x.1
}

proof fn lemma_scored_in_unit(a: Seq<Seq<char>>, word: Seq<char>, items: Seq<(Seq<char>, Seq<Seq<char>>)>)
    requires
        a.no_duplicates(),
    ensures
        forall|k: int| 0 <= k < scored(a, word, items).len() ==> in_unit(
            #[trigger] scored(a, word, items)[k].1,
        ),
    decreases items.len(),
{
    if items.len() > 0 {
        lemma_scored_in_unit(a, word, items.drop_last());
        let (w, b) = items.last();
        lemma_common_bound(a, b);
        lemma_common_within(a, b);
        let rest = scored(a, word, items.drop_last());
        assert forall|k: int| 0 <= k < scored(a, word, items).len() implies in_unit(
            #[trigger] scored(a, word, items)[k].1,
        ) by {
            if k < rest.len() {
                assert(scored(a, word, items)[k] == rest[k]);
            }
        }
    }
}

/// Ranking keeps every item of its input.
proof fn lemma_ranked_items(s: Seq<(Seq<char>, (int, int))>)
    ensures
        forall|k: int| 0 <= k < ranked(s).len() ==> s.contains(#[trigger] ranked(s)[k]),
        ranked(s).len() == s.len(),
    decreases s.len(),
{
    if s.len() > 0 {
        let prev = s.drop_last();
        lemma_ranked_items(prev);
        let r0 = ranked(prev);
        lemma_first_lower(r0, s.last().1, 0);
        let p = first_lower(r0, s.last().1, 0);
        let r = r0.insert(p, s.last());
        assert forall|k: int| 0 <= k < r.len() implies s.contains(#[trigger] r[k]) by {
            if k < p {
                assert(r[k] == r0[k]);
                let i = choose|i: int| 0 <= i < prev.len() && prev[i] == r0[k];
                assert(s[i] == prev[i]);
            } else if k > p {
                assert(r[k] == r0[k - 1]);
                let i = choose|i: int| 0 <= i < prev.len() && prev[i] == r0[k - 1];
                assert(s[i] == prev[i]);
            } else {
                assert(s[s.len() - 1] == r[k]);
            }
        }
    }
}

proof fn lemma_common_bound(a: Seq<Seq<char>>, b: Seq<Seq<char>>)
    ensures
        0 <= common(a, b) <= a.len(),
        b.len() == 0 ==> common(a, b) == 0,
    decreases a.len(),
{
    if a.len() > 0 {
        lemma_common_bound(a.drop_last(), b);
        if b.len() == 0 {
            assert(!b.contains(a.last()));
        }
    }
}

proof fn lemma_scored_positive(a: Seq<Seq<char>>, word: Seq<char>, items: Seq<(Seq<char>, Seq<Seq<char>>)>)
    ensures
        forall|k: int| 0 <= k < scored(a, word, items).len() ==> positive(
            #[trigger] scored(a, word, items)[k].1,
        ),
    decreases items.len(),
{
    if items.len() > 0 {
        lemma_scored_positive(a, word, items.drop_last());
        let (w, b) = items.last();
        lemma_common_bound(a, b);
        let rest = scored(a, word, items.drop_last());
        assert forall|k: int| 0 <= k < scored(a, word, items).len() implies positive(
            #[trigger] scored(a, word, items)[k].1,
        ) by {
            if k < rest.len() {
                assert(scored(a, word, items)[k] == rest[k]);
            } else {
                assert(b.len() > 0 || common(a, b) == 0);
            }
        }
    }
}

proof fn lemma_first_lower(s: Seq<(Seq<char>, (int, int))>, x: (int, int), i: int)
    requires
        0 <= i <= s.len(),
    ensures
        i <= first_lower(s, x, i) <= s.len(),
        forall|k: int| i <= k < first_lower(s, x, i) ==> !lower(#[trigger] s[k].1, x),
        first_lower(s, x, i) < s.len() ==> lower(s[first_lower(s, x, i)].1, x),
    decreases s.len() - i,
{
    if i < s.len() && !lower(s[i].1, x) {
        lemma_first_lower(s, x, i + 1);
    }
}

/// With positive denominators, `x >= y` and `y > z`... chained: if `b >= c`
/// and `b < x` then `c < x`.
proof fn lemma_lower_chain(b: (int, int), c: (int, int), x: (int, int))
    requires
        positive(b),
        positive(c),
        positive(x),
        !lower(b, c),
        lower(b, x),
    ensures
        lower(c, x),
{
    assert(c.0 * x.1 < x.0 * c.1) by (nonlinear_arith)
        requires
            b.0 * c.1 >= c.0 * b.1,
            b.0 * x.1 < x.0 * b.1,
            0 < b.1,
            0 < c.1,
            0 < x.1,
    {
        assert(b.0 * c.1 * x.1 >= c.0 * b.1 * x.1);
        assert(b.0 * x.1 * c.1 < x.0 * b.1 * c.1);
    }
}

/// Ranking keeps the items, every score positive, and orders the scores so
/// that none is lower than a later one.
proof fn lemma_ranked(s: Seq<(Seq<char>, (int, int))>)
    requires
        forall|k: int| 0 <= k < s.len() ==> positive(#[trigger] s[k].1),
    ensures
        ranked(s).len() == s.len(),
        forall|k: int| 0 <= k < ranked(s).len() ==> positive(#[trigger] ranked(s)[k].1),
        forall|i: int, j: int|
            0 <= i < j < ranked(s).len() ==> !lower(#[trigger] ranked(s)[i].1, #[trigger] ranked(s)[j].1),
    decreases s.len(),
{
    if s.len() > 0 {
        let prev = s.drop_last();
        assert forall|k: int| 0 <= k < prev.len() implies positive(#[trigger] prev[k].1) by {
            assert(prev[k] == s[k]);
        }
        lemma_ranked(prev);
        let r0 = ranked(prev);
        let x = s.last();
        assert(positive(x.1)) by {
            assert(s[s.len() - 1] == x);
        }
        lemma_first_lower(r0, x.1, 0);
        let p = first_lower(r0, x.1, 0);
        let r = r0.insert(p, x);
        assert(ranked(s) == r);
        assert forall|k: int| 0 <= k < r.len() implies positive(#[trigger] r[k].1) by {
            if k < p {
                assert(r[k] == r0[k]);
            } else if k > p {
                assert(r[k] == r0[k - 1]);
            }
        }
        assert forall|i: int, j: int| 0 <= i < j < r.len() implies !lower(#[trigger] r[i].1, #[trigger] r[j].1) by {
            if j < p {
                assert(r[i] == r0[i] && r[j] == r0[j]);
            } else if j == p {
                assert(r[i] == r0[i]);
            } else if i < p {
                assert(r[i] == r0[i] && r[j] == r0[j - 1]);
                if p < r0.len() {
                    if lower(r0[i].1, r0[j - 1].1) {
                        assert(!lower(r0[i].1, r0[j - 1].1));
                    }
                }
            } else if i == p {
                assert(r[j] == r0[j - 1]);
                if j - 1 > p {
                    assert(!lower(r0[p].1, r0[j - 1].1));
                    lemma_lower_chain(r0[p].1, r0[j - 1].1, x.1);
                }
                if lower(x.1, r0[j - 1].1) {
                    assert(lower(r0[p].1, x.1));
                    assert(x.1.0 * r0[j - 1].1.1 < r0[j - 1].1.0 * x.1.1);
                }
            } else {
                assert(r[i] == r0[i - 1] && r[j] == r0[j - 1]);
            }
        }
    }
}

/// Similarity scores lie in `(0, 1]`, and the list never rises: no score is
/// lower than a later one.
pub proof fn lemma_similar_ranked(t: ThesaurusDictionary, word: Seq<char>, ty: DictionaryType)
    requires
        t.wf(),
    ensures
        forall|k: int| 0 <= k < t.similar(word, ty).len() ==> in_unit(
            #[trigger] t.similar(word, ty)[k].1,
        ),
        forall|k: int| 0 <= k < t.similar(word, ty).len() ==> positive(
            #[trigger] t.similar(word, ty)[k].1,
        ),
        forall|i: int, j: int|
            0 <= i < j < t.similar(word, ty).len() ==> !lower(
                #[trigger] t.similar(word, ty)[i].1,
                #[trigger] t.similar(word, ty)[j].1,
            ),
{
    if t.bags(ty).contains_key(word) {
        let a = t.bags(ty)[word];
        assert(a.no_duplicates());
        lemma_scored_positive(a, word, t.items(ty));
        lemma_scored_in_unit(a, word, t.items(ty));
        let sc = scored(a, word, t.items(ty));
        lemma_ranked(sc);
        lemma_ranked_items(sc);
        let r = ranked(sc);
        assert forall|k: int| 0 <= k < r.len() implies in_unit(#[trigger] r[k].1) by {
            let i = choose|i: int| 0 <= i < sc.len() && sc[i] == r[k];
            assert(in_unit(sc[i].1));
        }
    }
}

/// Asking twice for the words similar to `word` gives the same list: the
/// result depends on the thesaurus and the word alone.
pub proof fn lemma_similar_repeatable(
    t: ThesaurusDictionary,
    word: Seq<char>,
    ty: DictionaryType,
    first: Seq<(Seq<char>, (int, int))>,
    second: Seq<(Seq<char>, (int, int))>,
)
    requires
        first == t.similar(word, ty),
        second == t.similar(word, ty),
    ensures
        first == second,
{
}

} // verus!
