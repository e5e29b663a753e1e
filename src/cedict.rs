//! The CEDICT line format: `TRAD SIMP [PIN YIN] /GLOSS/GLOSS/`.
use vstd::prelude::*;

use crate::text::{
    join_spaced, join_with_spaces, pieces, split_pieces, string_of, trim, trimmed, views,
    Separator,
};
use crate::word::WordEntry;

verus! {

/// The four fields of a parsed line: traditional, simplified, pinyin, English.
pub type EntryFields = (Seq<char>, Seq<char>, Seq<char>, Seq<char>);

pub open spec fn entry_fields(e: WordEntry) -> EntryFields {
    (e.traditional@, e.simplified@, e.pinyin@, e.english@)
}

/// Every code point is ASCII.
pub open spec fn all_ascii(s: Seq<char>) -> bool {
    forall|i: int| 0 <= i < s.len() ==> (s[i] as u32) < 128
}

pub fn is_all_ascii(s: &[char]) -> (r: bool)
    ensures
        r == all_ascii(s@),
{
    let mut i: usize = 0;
    while i < s.len()
        invariant
            i <= s@.len(),
            forall|k: int| 0 <= k < i ==> (s@[k] as u32) < 128,
        decreases s@.len() - i,
    {
        if (s[i] as u32) >= 128 {
            return false;
        }
        i += 1;
    }
    true
}

/// The non-empty pieces, in order.
pub open spec fn non_empty(ps: Seq<Seq<char>>) -> Seq<Seq<char>>
    decreases ps.len(),
{
    if ps.len() == 0 {
        Seq::empty()
    } else if ps.last().len() > 0 {
        non_empty(ps.drop_last()).push(ps.last())
    } else {
        non_empty(ps.drop_last())
    }
}

/// The tokens of `s` between runs of ASCII whitespace.
pub open spec fn ascii_words(s: Seq<char>) -> Seq<Seq<char>> {
    non_empty(pieces(s, Separator::AsciiWhitespace))
}

/// The lines of `s` as `str::lines` yields them: split at `\n`, without a
/// final empty line, each without one trailing `\r`.
pub open spec fn lines(s: Seq<char>) -> Seq<Seq<char>> {
    let p = pieces(s, Separator::Newline);
    let q = if p.last().len() == 0 {
        p.drop_last()
    } else {
        p
    };
    q.map_values(|l: Seq<char>| strip_cr(l))
}

pub open spec fn strip_cr(l: Seq<char>) -> Seq<char> {
    if l.len() > 0 && l.last() == '\r' {
        l.drop_last()
    } else {
        l
    }
}

/// The first index from `k` on of a word that ends in `]`, or -1.
pub open spec fn closing_index(ws: Seq<Seq<char>>, k: int) -> int
    decreases ws.len() - k,
{
    if k < 0 || k >= ws.len() {
        -1
    } else if ws[k].len() > 0 && ws[k].last() == ']' {
        k
    } else {
        closing_index(ws, k + 1)
    }
}

/// `s` without its first and last code points.
pub open spec fn inner(s: Seq<char>) -> Seq<char> {
    s.subrange(1, s.len() - 1)
}

/// `s` opens with `open` and closes with a separate `close`.
pub open spec fn delimited(s: Seq<char>, open: char, close: char) -> bool {
    s.len() >= 2 && s[0] == open && s.last() == close
}

/// The entry one line describes, if it is one. A line is skipped when it is
/// blank or a `#` comment, has fewer than two words, has no word ending in
/// `]` after the two forms, has a pinyin field not enclosed in `[` and `]` or
/// an English field not enclosed in `/` and `/`, or has an all-ASCII form.
pub open spec fn parse_line(line: Seq<char>) -> Option<EntryFields> {
    let t = trim(line);
    if t.len() == 0 || t[0] == '#' {
        None
    } else {
        let ws = ascii_words(t);
        let k = closing_index(ws, 2);
        if ws.len() < 2 || k < 0 {
            None
        } else {
            let py = join_spaced(ws.subrange(2, k + 1));
            let en = trim(join_spaced(ws.subrange(k + 1, ws.len() as int)));
            if !delimited(py, '[', ']') || !delimited(en, '/', '/') || all_ascii(ws[0]) || all_ascii(
                ws[1],
            ) {
                None
            } else {
                Some((ws[0], ws[1], inner(py), inner(en)))
            }
        }
    }
}

/// The entries a list of lines describes, in order.
pub open spec fn parse_lines(ls: Seq<Seq<char>>) -> Seq<EntryFields>
    decreases ls.len(),
{
    if ls.len() == 0 {
        Seq::empty()
    } else {
        match parse_line(ls.last()) {
            Some(e) => parse_lines(ls.drop_last()).push(e),
            None => parse_lines(ls.drop_last()),
        }
    }
}

/// The entries a CEDICT text describes, in order.
pub open spec fn parse_cedict(data: Seq<char>) -> Seq<EntryFields> {
    parse_lines(lines(data))
}

/// Both forms of a parsed entry are non-empty and not all ASCII.
pub proof fn lemma_parsed_forms(line: Seq<char>)
    ensures
        parse_line(line) matches Some(f) ==> f.0.len() > 0 && f.1.len() > 0 && !all_ascii(f.0)
            && !all_ascii(f.1),
{
}

/// Every kept piece is non-empty.
pub proof fn lemma_non_empty_items(ps: Seq<Seq<char>>, k: int)
    ensures
        forall|j: int| 0 <= j < non_empty(ps).len() ==> #[trigger] non_empty(ps)[j].len() > 0,
    decreases ps.len(),
{
    if ps.len() > 0 {
        lemma_non_empty_items(ps.drop_last(), k);
        let rest = non_empty(ps.drop_last());
        assert forall|j: int| 0 <= j < non_empty(ps).len() implies #[trigger] non_empty(ps)[j].len() > 0 by {
            if j < rest.len() {
                assert(non_empty(ps)[j] == rest[j]);
            }
        }
    }
}

/// The tokens of `line` between runs of ASCII whitespace.
pub fn words_of(line: &[char]) -> (r: Vec<Vec<char>>)
    ensures
        views(r@) == ascii_words(line@),
{
    keep_non_empty(&split_pieces(line, Separator::AsciiWhitespace))
}

/// Keeps the non-empty pieces.
fn keep_non_empty(ps: &Vec<Vec<char>>) -> (r: Vec<Vec<char>>)
    ensures
        views(r@) == non_empty(views(ps@)),
{
    let ghost all = views(ps@);
    let mut out: Vec<Vec<char>> = Vec::new();
    let mut i: usize = 0;
    while i < ps.len()
        invariant
            i <= ps@.len(),
            all == views(ps@),
            views(out@) == non_empty(all.subrange(0, i as int)),
        decreases ps@.len() - i,
    {
        assert(all.subrange(0, i + 1).drop_last() =~= all.subrange(0, i as int));
        assert(all.subrange(0, i + 1).last() == ps[i as int]@);
        if ps[i].len() > 0 {
            let x = ps[i].clone();
            assert(x@ =~= ps[i as int]@);
            let ghost before = views(out@);
            out.push(x);
            assert(views(out@) =~= before.push(ps[i as int]@));
        }
        i += 1;
    }
    assert(all.subrange(0, i as int) =~= all);
    out
}

/// The first index from `k` on of a word that ends in `]`.
fn find_closing(ws: &Vec<Vec<char>>, k: usize) -> (r: Option<usize>)
    ensures
        match r {
            Some(i) => i as int == closing_index(views(ws@), k as int) && k <= i < ws@.len(),
            None => closing_index(views(ws@), k as int) == -1,
        },
{
    let mut i = k;
    while i < ws.len()
        invariant
            k <= i,
            closing_index(views(ws@), k as int) == closing_index(views(ws@), i as int),
        decreases ws@.len() - i,
    {
        let w = &ws[i];
        if w.len() > 0 && w[w.len() - 1] == ']' {
            return Some(i);
        }
        i += 1;
    }
    None
}

/// Parses one line of CEDICT text.
pub fn parse_entry(line: &[char]) -> (r: Option<WordEntry>)
    ensures
        match r {
            Some(e) => parse_line(line@) == Some(entry_fields(e)),
            None => parse_line(line@) is None,
        },
{
    let t = trimmed(line);
    if t.len() == 0 || t[0] == '#' {
        return None;
    }
    let ws = keep_non_empty(&split_pieces(t.as_slice(), Separator::AsciiWhitespace));
    if ws.len() < 2 {
        return None;
    }
    let k = match find_closing(&ws, 2) {
        Some(k) => k,
        None => {
            return None;
        },
    };
    let py = join_with_spaces(&ws, 2, k + 1);
    let en_joined = join_with_spaces(&ws, k + 1, ws.len());
    let en = trimmed(en_joined.as_slice());
    if py.len() < 2 || py[0] != '[' || py[py.len() - 1] != ']' || en.len() < 2 || en[0] != '/'
        || en[en.len() - 1] != '/' || is_all_ascii(ws[0].as_slice()) || is_all_ascii(
        ws[1].as_slice(),
    ) {
        return None;
    }
    let traditional = string_of(ws[0].as_slice(), 0, ws[0].len());
    let simplified = string_of(ws[1].as_slice(), 0, ws[1].len());
    let pinyin = string_of(py.as_slice(), 1, py.len() - 1);
    let english = string_of(en.as_slice(), 1, en.len() - 1);
    assert(ws[0]@.subrange(0, ws[0]@.len() as int) =~= ws[0]@);
    assert(ws[1]@.subrange(0, ws[1]@.len() as int) =~= ws[1]@);
    assert(views(ws@)[0] == ws[0]@);
    assert(views(ws@)[1] == ws[1]@);
    Some(WordEntry { traditional, simplified, pinyin, english })
}

/// The lines of `data`, as `str::lines` yields them.
pub fn split_lines(data: &[char]) -> (r: Vec<Vec<char>>)
    ensures
        views(r@) == lines(data@),
{
    let ps = split_pieces(data, Separator::Newline);
    proof {
        crate::text::lemma_pieces_len(data@, Separator::Newline);
    }
    let ghost p = views(ps@);
    let n: usize = if ps[ps.len() - 1].len() == 0 {
        ps.len() - 1
    } else {
        ps.len()
    };
    let ghost q = if p.last().len() == 0 {
        p.drop_last()
    } else {
        p
    };
    assert(q =~= p.subrange(0, n as int));
    let mut out: Vec<Vec<char>> = Vec::new();
    let mut i: usize = 0;
    while i < n
        invariant
            i <= n <= ps@.len(),
            p == views(ps@),
            q == p.subrange(0, n as int),
            views(out@) == q.subrange(0, i as int).map_values(|l: Seq<char>| strip_cr(l)),
        decreases n - i,
    {
        let l = &ps[i];
        let m: usize = if l.len() > 0 && l[l.len() - 1] == '\r' {
            l.len() - 1
        } else {
            l.len()
        };
        let mut c: Vec<char> = Vec::new();
        let mut j: usize = 0;
        while j < m
            invariant
                j <= m <= l@.len(),
                c@ == l@.subrange(0, j as int),
            decreases m - j,
        {
            c.push(l[j]);
            assert(c@ =~= l@.subrange(0, j + 1));
            j += 1;
        }
        assert(c@ =~= strip_cr(l@));
        let ghost before = views(out@);
        out.push(c);
        assert(views(out@) =~= before.push(strip_cr(l@)));
        assert(q.subrange(0, i + 1).map_values(|l: Seq<char>| strip_cr(l)) =~= q.subrange(
            0,
            i as int,
        ).map_values(|l: Seq<char>| strip_cr(l)).push(strip_cr(q[i as int])));
        i += 1;
    }
    assert(q.subrange(0, i as int) =~= q);
    out
}

} // verus!
