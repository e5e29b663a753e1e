//! Word frequencies from a whitespace-separated table whose fourth column is
//! a log-frequency, normalized to a score from 0 to 100.
//!
//! Log-frequencies are held exactly, as a signed 64-bit count of millionths,
//! so that scores are computed with integer arithmetic and without rounding.
//! The column is read as a plain decimal `[+-]digits[.digits]` with at most
//! twelve integer digits; fractional digits past the sixth are dropped.
//!
//! This is narrower than what a float parser accepts, on purpose:
//! - twelve integer digits is what a 64-bit count of millionths can hold
//!   (thirteen could overflow it), and a float's range cannot be held exactly
//!   in any fixed width;
//! - exponent forms (`1e5`) are not read, since an exponent can move the
//!   value out of that range or below a millionth;
//! - `inf` and `NaN` are not finite.
//!
//! A log-frequency is the base-10 logarithm of a word count, a small number
//! written as a plain decimal in frequency tables, so real rows are never
//! affected; a row whose fourth token is not such a decimal is skipped.
use vstd::prelude::*;

use crate::cedict::{ascii_words, lines, split_lines};
use crate::text::{chars_of, string_of, views, Separator};
use crate::trie::CharTrie;

verus! {

pub open spec fn is_digit(c: char) -> bool {
    '0' <= c && c <= '9'
}

pub open spec fn all_digits(s: Seq<char>) -> bool {
    forall|i: int| 0 <= i < s.len() ==> is_digit(s[i])
}

/// The number the decimal digits `s` spell.
pub open spec fn digits_value(s: Seq<char>) -> int
    decreases s.len(),
{
    if s.len() == 0 {
        0
    } else {
        digits_value(s.drop_last()) * 10 + (s.last() as int - '0' as int)
    }
}

pub open spec fn pow10(n: nat) -> int
    decreases n,
{
    if n == 0 {
        1
    } else {
        10 * pow10((n - 1) as nat)
    }
}

/// Position of the first `.` in `s`, or its length.
pub open spec fn dot_index(s: Seq<char>, i: int) -> int
    decreases s.len() - i,
{
    if i < 0 || i >= s.len() {
        s.len() as int
    } else if s[i] == '.' {
        i
    } else {
        dot_index(s, i + 1)
    }
}

/// The value of a decimal token in millionths, or none if it is not a plain
/// decimal with at most twelve integer digits (see the module documentation).
pub open spec fn decimal_micros(s: Seq<char>) -> Option<int> {
    let signed = s.len() > 0 && (s[0] == '-' || s[0] == '+');
    let body = if signed {
        s.drop_first()
    } else {
        s
    };
    let d = dot_index(body, 0);
    let ip = body.subrange(0, d);
    let fp = if d < body.len() {
        body.subrange(d + 1, body.len() as int)
    } else {
        Seq::empty()
    };
    let f6 = if fp.len() > 6 {
        fp.subrange(0, 6)
    } else {
        fp
    };
    if !all_digits(ip) || !all_digits(fp) || ip.len() + fp.len() == 0 || ip.len() > 12 {
        None
    } else {
        let m = digits_value(ip) * 1000000 + digits_value(f6) * pow10((6 - f6.len()) as nat);
        Some(
            if signed && s[0] == '-' {
                -m
            } else {
                m
            },
        )
    }
}

proof fn lemma_digits_value_bound(s: Seq<char>)
    requires
        all_digits(s),
    ensures
        0 <= digits_value(s) < pow10(s.len()),
    decreases s.len(),
{
    if s.len() > 0 {
        lemma_digits_value_bound(s.drop_last());
        assert(pow10(s.len()) == 10 * pow10((s.len() - 1) as nat));
    }
}

proof fn lemma_pow10_add(a: nat, b: nat)
    ensures
        pow10(a) * pow10(b) == pow10(a + b),
    decreases a,
{
    if a > 0 {
        lemma_pow10_add((a - 1) as nat, b);
        assert(pow10(a) * pow10(b) == 10 * (pow10((a - 1) as nat) * pow10(b))) by (nonlinear_arith)
            requires
                pow10(a) == 10 * pow10((a - 1) as nat),
        {
        }
    }
}

fn pow10_exec(n: usize) -> (r: i64)
    requires
        n <= 12,
    ensures
        r as int == pow10(n as nat),
{
    let mut r: i64 = 1;
    let mut k: usize = 0;
    while k < n
        invariant
            k <= n <= 12,
            r as int == pow10(k as nat),
        decreases n - k,
    {
        proof {
            lemma_pow10_le(k as nat, 11);
            reveal_with_fuel(pow10, 13);
            assert(pow10(11) == 100000000000);
            assert(pow10((k + 1) as nat) == 10 * pow10(k as nat));
        }
        r = r * 10;
        k += 1;
    }
    r
}

/// Whether `s[from..to]` is all decimal digits.
fn digits_only(s: &[char], from: usize, to: usize) -> (r: bool)
    requires
        from <= to <= s@.len(),
    ensures
        r == all_digits(s@.subrange(from as int, to as int)),
{
    let mut k = from;
    while k < to
        invariant
            from <= k <= to <= s@.len(),
            all_digits(s@.subrange(from as int, k as int)),
        decreases to - k,
    {
        if !('0' <= s[k] && s[k] <= '9') {
            assert(s@.subrange(from as int, to as int)[k - from] == s@[k as int]);
            return false;
        }
        assert(all_digits(s@.subrange(from as int, k + 1))) by {
            assert forall|q: int| 0 <= q < k + 1 - from implies is_digit(#[trigger] s@.subrange(from as int, k + 1)[q]) by {
                if q < k - from {
                    assert(s@.subrange(from as int, k + 1)[q] == s@.subrange(from as int, k as int)[q]);
                }
            }
        }
        k += 1;
    }
    true
}

/// The number the digits `s[from..to]` spell.
fn digits_number(s: &[char], from: usize, to: usize) -> (r: i64)
    requires
        from <= to <= s@.len(),
        to - from <= 12,
        all_digits(s@.subrange(from as int, to as int)),
    ensures
        r as int == digits_value(s@.subrange(from as int, to as int)),
        0 <= r < pow10((to - from) as nat),
{
    let mut r: i64 = 0;
    let mut k = from;
    while k < to
        invariant
            from <= k <= to <= s@.len(),
            to - from <= 12,
            all_digits(s@.subrange(from as int, to as int)),
            r as int == digits_value(s@.subrange(from as int, k as int)),
            0 <= r < pow10((k - from) as nat),
        decreases to - k,
    {
        proof {
            assert(s@.subrange(from as int, k + 1).drop_last() =~= s@.subrange(from as int, k as int));
            assert(s@.subrange(from as int, to as int)[k - from] == s@[k as int]);
            lemma_pow10_le((k - from) as nat, 11);
            reveal_with_fuel(pow10, 13);
            assert(pow10(11) == 100000000000);
            assert(pow10((k + 1 - from) as nat) == 10 * pow10((k - from) as nat));
        }
        r = r * 10 + (s[k] as i64 - '0' as i64);
        k += 1;
    }
    r
}

/// Reads a decimal token as millionths.
#[verifier::rlimit(40)]
pub fn parse_decimal_micros(s: &[char]) -> (r: Option<i64>)
    ensures
        match decimal_micros(s@) {
            Some(v) => r is Some && r->0 as int == v,
            None => r is None,
        },
{
    let signed = s.len() > 0 && (s[0] == '-' || s[0] == '+');
    let start: usize = if signed {
        1
    } else {
        0
    };
    let mut body: Vec<char> = Vec::new();
    let mut k = start;
    while k < s.len()
        invariant
            start <= k <= s@.len(),
            body@ == s@.subrange(start as int, k as int),
        decreases s@.len() - k,
    {
        body.push(s[k]);
        assert(body@ =~= s@.subrange(start as int, k + 1));
        k += 1;
    }
    assert(body@ =~= if signed { s@.drop_first() } else { s@ });
    let mut d: usize = 0;
    while d < body.len() && body[d] != '.'
        invariant
            d <= body@.len(),
            dot_index(body@, 0) == dot_index(body@, d as int),
        decreases body@.len() - d,
    {
        d += 1;
    }
    proof {
        lemma_dot_index(body@, d as int);
    }
    let fs: usize = if d < body.len() {
        d + 1
    } else {
        body.len()
    };
    let ghost fp = body@.subrange(fs as int, body@.len() as int);
    assert(fp =~= if d < body@.len() {
        body@.subrange(d + 1, body@.len() as int)
    } else {
        Seq::<char>::empty()
    });
    if !digits_only(body.as_slice(), 0, d) || !digits_only(body.as_slice(), fs, body.len()) || d
        + (body.len() - fs) == 0 || d > 12 {
        return None;
    }
    let fe: usize = if body.len() - fs > 6 {
        fs + 6
    } else {
        body.len()
    };
    assert(body@.subrange(fs as int, fe as int) =~= if fp.len() > 6 {
        fp.subrange(0, 6)
    } else {
        fp
    });
    assert(all_digits(body@.subrange(fs as int, fe as int))) by {
        assert forall|q: int| 0 <= q < fe - fs implies is_digit(#[trigger] body@.subrange(fs as int, fe as int)[q]) by {
            assert(body@.subrange(fs as int, fe as int)[q] == fp[q]);
        }
    }
    let ip = digits_number(body.as_slice(), 0, d);
    let f = digits_number(body.as_slice(), fs, fe);
    let scale = pow10_exec(6 - (fe - fs));
    proof {
        lemma_pow10_le(d as nat, 12);
        lemma_pow10_add((fe - fs) as nat, (6 - (fe - fs)) as nat);
        reveal_with_fuel(pow10, 13);
        assert(pow10(12) == 1000000000000);
        assert(pow10(6) == 1000000);
        assert(f * scale < 1000000) by (nonlinear_arith)
            requires
                0 <= f < pow10((fe - fs) as nat),
                scale == pow10((6 - (fe - fs)) as nat),
                pow10((fe - fs) as nat) * pow10((6 - (fe - fs)) as nat) == 1000000,
        {
        }
        assert(0 <= f * scale) by (nonlinear_arith)
            requires
                0 <= f,
                0 < scale,
        {
        }
        lemma_pow10_le((6 - (fe - fs)) as nat, 6);
    }
    let m: i64 = ip * 1000000 + f * scale;
    if signed && s[0] == '-' {
        Some(-m)
    } else {
        Some(m)
    }
}

/// The word and log-frequency of one table row, if it has at least four
/// tokens and the fourth is a decimal.
pub open spec fn freq_row(line: Seq<char>) -> Option<(Seq<char>, int)> {
    let ws = ascii_words(line);
    if ws.len() >= 4 && decimal_micros(ws[3]) is Some {
        Some((ws[0], decimal_micros(ws[3])->0))
    } else {
        None
    }
}

/// The rows a list of lines holds, in order.
pub open spec fn freq_rows(ls: Seq<Seq<char>>) -> Seq<(Seq<char>, int)>
    decreases ls.len(),
{
    if ls.len() == 0 {
        Seq::empty()
    } else {
        match freq_row(ls.last()) {
            Some(r) => freq_rows(ls.drop_last()).push(r),
            None => freq_rows(ls.drop_last()),
        }
    }
}

/// The rows of a table, after its three header lines.
pub open spec fn table_rows(data: Seq<char>) -> Seq<(Seq<char>, int)> {
    let ls = lines(data);
    freq_rows(
        if ls.len() > 3 {
            ls.subrange(3, ls.len() as int)
        } else {
            Seq::empty()
        },
    )
}

/// The log-frequency of the last row for `w`.
pub open spec fn last_value(rows: Seq<(Seq<char>, int)>, w: Seq<char>) -> Option<int>
    decreases rows.len(),
{
    if rows.len() == 0 {
        None
    } else if rows.last().0 == w {
        Some(rows.last().1)
    } else {
        last_value(rows.drop_last(), w)
    }
}

/// The largest log-frequency, and at least 0.
pub open spec fn max_value(rows: Seq<(Seq<char>, int)>) -> int
    decreases rows.len(),
{
    if rows.len() == 0 {
        0
    } else if max_value(rows.drop_last()) < rows.last().1 {
        rows.last().1
    } else {
        max_value(rows.drop_last())
    }
}

/// A log-frequency scaled so that `max` is 100, clamped to `[0, 100]` and truncated.
pub open spec fn normalize(v: int, max: int) -> int {
    if max <= 0 || v <= 0 {
        0
    } else if (100 * v) / max > 100 {
        100
    } else {
        (100 * v) / max
    }
}

/// A normalized score lies in `[0, 100]`.
pub proof fn lemma_normalize_range(v: int, max: int)
    ensures
        0 <= normalize(v, max) <= 100,
{
    if max > 0 && v > 0 {
        assert((100 * v) / max >= 0) by (nonlinear_arith)
            requires
                max > 0,
                v > 0,
        {
        }
    }
}

/// The smaller of two optional values; absent ones do not count.
pub open spec fn min_present(a: Option<int>, b: Option<int>) -> Option<int> {
    match a {
        Some(x) => match b {
            Some(y) => Some(if y < x { y } else { x }),
            None => Some(x),
        },
        None => b,
    }
}

pub struct FrequencyDictionary {
    data: CharTrie<i64>,
    max_log_frequency: i64,
}

impl FrequencyDictionary {
    /// Log-frequencies in millionths, by word.
    pub closed spec fn table(self) -> Map<Seq<char>, int> {
        self.data@.map_values(|v: i64| v as int)
    }

    /// The largest log-frequency, in millionths, and at least 0.
    pub closed spec fn max(self) -> int {
        self.max_log_frequency as int
    }

    pub closed spec fn wf(self) -> bool {
        self.data.wf() && self.max_log_frequency >= 0
    }

    /// The smallest log-frequency among the code points of `w` that have one.
    pub open spec fn char_min(self, w: Seq<char>) -> Option<int>
        decreases w.len(),
    {
        if w.len() == 0 {
            None
        } else {
            let c = seq![w.last()];
            min_present(
                self.char_min(w.drop_last()),
                if self.table().contains_key(c) {
                    Some(self.table()[c])
                } else {
                    None
                },
            )
        }
    }

    /// The log-frequency that scores `w`: its own, else its rarest code point's.
    pub open spec fn raw_value(self, w: Seq<char>) -> Option<int> {
        if self.table().contains_key(w) {
            Some(self.table()[w])
        } else {
            self.char_min(w)
        }
    }

    /// The score of `w`, 0 when neither it nor any of its code points has a log-frequency.
    pub open spec fn score(self, w: Seq<char>) -> int {
        match self.raw_value(w) {
            Some(v) => normalize(v, self.max()),
            None => 0,
        }
    }

    /// Reads a frequency table; rows without a decimal fourth token are skipped,
    /// and a later row for a word replaces an earlier one.
    pub fn new(data: &str) -> (r: Self)
        ensures
            r.wf(),
            forall|w: Seq<char>| #[trigger]
                r.table().contains_key(w) == last_value(table_rows(data@), w) is Some,
            forall|w: Seq<char>| #[trigger]
                r.table().contains_key(w) ==> r.table()[w] == last_value(table_rows(data@), w)->0,
            r.max() == max_value(table_rows(data@)),
    {
        let cs = chars_of(data);
        let ls = split_lines(cs.as_slice());
        let ghost all = lines(data@);
        let ghost body = if all.len() > 3 {
            all.subrange(3, all.len() as int)
        } else {
            Seq::<Seq<char>>::empty()
        };
        let mut d = FrequencyDictionary { data: CharTrie::with_capacity(131072), max_log_frequency: 0 };
        let first: usize = if ls.len() > 3 {
            3
        } else {
            ls.len()
        };
        let mut i: usize = first;
        proof {
            assert(body.subrange(0, 0) =~= Seq::<Seq<char>>::empty());
            assert(d.table() =~= Map::<Seq<char>, int>::empty());
        }
        while i < ls.len()
            invariant
                first <= i <= ls@.len(),
                views(ls@) == all,
                first == if all.len() > 3 { 3 } else { all.len() },
                body == if all.len() > 3 { all.subrange(3, all.len() as int) } else { Seq::<Seq<char>>::empty() },
                d.wf(),
                forall|w: Seq<char>| #[trigger]
                    d.table().contains_key(w) == last_value(freq_rows(body.subrange(0, i - first)), w) is Some,
                forall|w: Seq<char>| #[trigger]
                    d.table().contains_key(w) ==> d.table()[w] == last_value(
                        freq_rows(body.subrange(0, i - first)),
                        w,
                    )->0,
                d.max() == max_value(freq_rows(body.subrange(0, i - first))),
            decreases ls@.len() - i,
        {
            let ghost prev = freq_rows(body.subrange(0, i - first));
            assert(body.subrange(0, i - first + 1).drop_last() =~= body.subrange(0, i - first));
            assert(body.subrange(0, i - first + 1).last() == ls[i as int]@);
            let ws = crate::cedict::words_of(ls[i].as_slice());
            if ws.len() >= 4 {
                match parse_decimal_micros(ws[3].as_slice()) {
                    Some(v) => {
                        let word = string_of(ws[0].as_slice(), 0, ws[0].len());
                        proof {
                            assert(ws[0]@.subrange(0, ws[0]@.len() as int) =~= ws[0]@);
                            assert(views(ws@)[0] == ws[0]@);
                            assert(views(ws@)[3] == ws[3]@);
                            crate::cedict::lemma_non_empty_items(
                                crate::text::pieces(ls[i as int]@, Separator::AsciiWhitespace),
                                0,
                            );
                        }
                        let ghost old_d = d;
                        d.data.push(word.as_str(), v);
                        if v > d.max_log_frequency {
                            d.max_log_frequency = v;
                        }
                        proof {
                            let rows = prev.push((ws[0]@, v as int));
                            assert(freq_rows(body.subrange(0, i - first + 1)) == rows);
                            assert(rows.drop_last() =~= prev);
                            assert(d.table() =~= old_d.table().insert(ws[0]@, v as int));
                        }
                    },
                    None => {
                        assert(views(ws@)[3] == ws[3]@);
                    },
                }
            }
            i += 1;
        }
        proof {
            assert(body.subrange(0, i - first) =~= body);
        }
        d
    }

    /// The score of `word` from 0 to 100, or none when neither it nor any of
    /// its code points has a log-frequency.
    pub fn lookup(&self, word: &str) -> (r: Option<u8>)
        requires
            self.wf(),
        ensures
            match self.raw_value(word@) {
                Some(v) => r == Some(normalize(v, self.max()) as u8),
                None => r is None,
            },
    {
        let raw: Option<i64> = match self.data.get(word) {
            Some(v) => Some(*v),
            None => {
                let cs = chars_of(word);
                let mut best: Option<i64> = None;
                let mut i: usize = 0;
                while i < cs.len()
                    invariant
                        i <= cs@.len(),
                        cs@ == word@,
                        self.wf(),
                        match self.char_min(cs@.subrange(0, i as int)) {
                            Some(m) => best is Some && best->0 as int == m,
                            None => best is None,
                        },
                    decreases cs@.len() - i,
                {
                    let one = [cs[i]];
                    let key = string_of(&one, 0, 1);
                    assert(one@.subrange(0, 1) =~= seq![cs@[i as int]]);
                    assert(cs@.subrange(0, i + 1).drop_last() =~= cs@.subrange(0, i as int));
                    match self.data.get(key.as_str()) {
                        Some(v) => {
                            best = match best {
                                Some(b) => Some(if *v < b { *v } else { b }),
                                None => Some(*v),
                            };
                        },
                        None => {},
                    }
                    i += 1;
                }
                assert(cs@.subrange(0, i as int) =~= word@);
                best
            },
        };
        match raw {
            Some(v) => {
                let max = self.max_log_frequency;
                if max <= 0 || v <= 0 {
                    return Some(0);
                }
                let scaled: i128 = (v as i128) * 100 / (max as i128);
                if scaled > 100 {
                    Some(100)
                } else {
                    Some(scaled as u8)
                }
            },
            None => None,
        }
    }

    /// The score of `word` from 0 to 100; 0 when neither it nor any of its
    /// code points has a log-frequency.
    pub fn get(&self, word: &str) -> (r: u8)
        requires
            self.wf(),
        ensures
            r as int == self.score(word@),
            0 <= r <= 100,
    {
        match self.lookup(word) {
            Some(s) => s,
            None => 0,
        }
    }
}

proof fn lemma_dot_index(s: Seq<char>, i: int)
    requires
        0 <= i <= s.len(),
    ensures
        i <= dot_index(s, i) <= s.len(),
        dot_index(s, i) < s.len() ==> s[dot_index(s, i)] == '.',
        forall|j: int| i <= j < dot_index(s, i) ==> s[j] != '.',
    decreases s.len() - i,
{
    if i < s.len() && s[i] != '.' {
        lemma_dot_index(s, i + 1);
    }
}

proof fn lemma_pow10_le(n: nat, m: nat)
    requires
        n <= m,
    ensures
        1 <= pow10(n) <= pow10(m),
    decreases m,
{
    if m > 0 && n < m {
        lemma_pow10_le(n, (m - 1) as nat);
    } else if m > 0 {
        lemma_pow10_le((n - 1) as nat, (m - 1) as nat);
    }
}

} // verus!
