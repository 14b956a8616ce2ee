//! `Span`: a piece of text held both as a `&str` (to hand out owned strings) and as
//! its characters (to scan them), with the text operations the parsers need.

use vstd::prelude::*;

use crate::text::{
    ascii_lower, digits_value, eq_ignore_ascii_case, find, find_from, find_whitespace_from,
    is_digit, is_whitespace, lemma_find_from, lemma_find_whitespace_from, lemma_trim_start,
    parse_unsigned, split, split_once, starts_with, strip_prefix, trim, trim_end, trim_end_char,
    trim_end_crlf, trim_start, trim_start_char, unsigned_digits, words,
};

verus! {

/// A piece of text: `text` and `chars` hold the same characters.
#[derive(Clone, Copy)]
pub struct Span<'a> {
    pub text: &'a str,
    pub chars: &'a [char],
}

/// The contents of a list of spans.
pub open spec fn spans_view(v: Seq<Span>) -> Seq<Seq<char>> {
    v.map_values(|x: Span| x@)
}

/// Every span of the list is well formed.
pub open spec fn all_wf(v: Seq<Span>) -> bool {
    forall|i: int| 0 <= i < v.len() ==> (#[trigger] v[i]).wf()
}

/// Whether two texts hold the same characters.
pub fn same_text(a: &str, b: &str) -> (r: bool)
    ensures
        r == (a@ == b@),
{
    let n = a.unicode_len();
    if n != b.unicode_len() {
        return false;
    }
    let mut i: usize = 0;
    while i < n
        invariant
            n == a@.len() == b@.len(),
            i <= n,
            forall|k: int| 0 <= k < i ==> a@[k] == b@[k],
        decreases n - i,
    {
        if a.get_char(i) != b.get_char(i) {
            return false;
        }
        i += 1;
    }
    assert(a@ =~= b@);
    true
}

impl<'a> View for Span<'a> {
    type V = Seq<char>;

    open spec fn view(&self) -> Seq<char> {
        self.chars@
    }
}

/// `char::is_whitespace`.
pub fn char_is_whitespace(c: char) -> (b: bool)
    ensures
        b == is_whitespace(c),
{
    ('\t' <= c && c <= '\r') || c == ' ' || c == '\u{85}' || c == '\u{a0}' || c == '\u{1680}' || (
    '\u{2000}' <= c && c <= '\u{200a}') || c == '\u{2028}' || c == '\u{2029}' || c == '\u{202f}'
        || c == '\u{205f}' || c == '\u{3000}'
}

proof fn lemma_digits_value_prefix(d: Seq<char>, k: int)
    requires
        0 <= k <= d.len(),
        forall|i: int| 0 <= i < d.len() ==> is_digit(#[trigger] d[i]),
    ensures
        digits_value(d.take(k)) <= digits_value(d),
    decreases d.len(),
{
    if k < d.len() {
        let e = d.drop_last();
        assert(e.take(k) =~= d.take(k));
        assert forall|i: int| 0 <= i < e.len() implies is_digit(#[trigger] e[i]) by {
            assert(e[i] == d[i]);
        }
        lemma_digits_value_prefix(e, k);
    } else {
        assert(d.take(k) =~= d);
    }
}

impl<'a> Span<'a> {
    /// The text and its characters agree.
    pub open spec fn wf(&self) -> bool {
        self.text@ == self.chars@
    }

    pub fn new(text: &'a str, chars: &'a [char]) -> (r: Span<'a>)
        requires
            chars@ == text@,
        ensures
            r.wf(),
            r@ == text@,
    {
        Span { text, chars }
    }

    pub fn len(&self) -> (n: usize)
        ensures
            n == self@.len(),
    {
        self.chars.len()
    }

    /// The characters `lo..hi`.
    pub fn sub(&self, lo: usize, hi: usize) -> (r: Span<'a>)
        requires
            self.wf(),
            lo <= hi <= self@.len(),
        ensures
            r.wf(),
            r@ == self@.subrange(lo as int, hi as int),
    {
        let chars: &'a [char] = self.chars;
        Span { text: self.text.substring_char(lo, hi), chars: &chars[lo..hi] }
    }

    /// An owned copy.
    pub fn to_string(&self) -> (s: String)
        requires
            self.wf(),
        ensures
            s@ == self@,
    {
        self.text.to_owned()
    }

    /// The index of the first `c`, or the length.
    pub fn find(&self, c: char) -> (k: usize)
        ensures
            k == find(self@, c),
            k <= self@.len(),
    {
        let mut i: usize = 0;
        proof {
            lemma_find_from(self@, c, 0);
        }
        while i < self.chars.len()
            invariant
                i <= self@.len(),
                find(self@, c) == find_from(self@, c, i as int),
            decreases self@.len() - i,
        {
            if self.chars[i] == c {
                return i;
            }
            i += 1;
        }
        i
    }

    /// `str::split_once`.
    pub fn split_once(&self, c: char) -> (r: Option<(Span<'a>, Span<'a>)>)
        requires
            self.wf(),
        ensures
            match r {
                Some((a, b)) => a.wf() && b.wf() && split_once(self@, c) == Some((a@, b@)),
                None => split_once(self@, c) is None,
            },
    {
        let k = self.find(c);
        if k < self.len() {
            Some((self.sub(0, k), self.sub(k + 1, self.len())))
        } else {
            None
        }
    }

    /// `str::trim_start`.
    pub fn trim_start(&self) -> (r: Span<'a>)
        requires
            self.wf(),
        ensures
            r.wf(),
            r@ == trim_start(self@),
    {
        let mut i: usize = 0;
        assert(self@.skip(0) =~= self@);
        while i < self.chars.len() && char_is_whitespace(self.chars[i])
            invariant
                i <= self@.len(),
                trim_start(self@) == trim_start(self@.skip(i as int)),
            decreases self@.len() - i,
        {
            assert(self@.skip(i as int).drop_first() =~= self@.skip(i + 1));
            i += 1;
        }
        self.sub(i, self.chars.len())
    }

    /// `str::trim_end`.
    pub fn trim_end(&self) -> (r: Span<'a>)
        requires
            self.wf(),
        ensures
            r.wf(),
            r@ == trim_end(self@),
    {
        let mut j: usize = self.chars.len();
        assert(self@.take(j as int) =~= self@);
        while j > 0 && char_is_whitespace(self.chars[j - 1])
            invariant
                j <= self@.len(),
                trim_end(self@) == trim_end(self@.take(j as int)),
            decreases j,
        {
            assert(self@.take(j as int).drop_last() =~= self@.take(j - 1));
            j -= 1;
        }
        self.sub(0, j)
    }

    /// `str::trim`.
    pub fn trim(&self) -> (r: Span<'a>)
        requires
            self.wf(),
        ensures
            r.wf(),
            r@ == trim(self@),
    {
        self.trim_start().trim_end()
    }

    /// `str::trim_end_matches(c)`.
    pub fn trim_end_char(&self, c: char) -> (r: Span<'a>)
        requires
            self.wf(),
        ensures
            r.wf(),
            r@ == trim_end_char(self@, c),
    {
        let mut j: usize = self.chars.len();
        assert(self@.take(j as int) =~= self@);
        while j > 0 && self.chars[j - 1] == c
            invariant
                j <= self@.len(),
                trim_end_char(self@, c) == trim_end_char(self@.take(j as int), c),
            decreases j,
        {
            assert(self@.take(j as int).drop_last() =~= self@.take(j - 1));
            j -= 1;
        }
        self.sub(0, j)
    }

    /// `str::trim_end_matches(['\r', '\n'])`.
    pub fn trim_end_crlf(&self) -> (r: Span<'a>)
        requires
            self.wf(),
        ensures
            r.wf(),
            r@ == trim_end_crlf(self@),
    {
        let mut j: usize = self.chars.len();
        assert(self@.take(j as int) =~= self@);
        while j > 0 && (self.chars[j - 1] == '\r' || self.chars[j - 1] == '\n')
            invariant
                j <= self@.len(),
                trim_end_crlf(self@) == trim_end_crlf(self@.take(j as int)),
            decreases j,
        {
            assert(self@.take(j as int).drop_last() =~= self@.take(j - 1));
            j -= 1;
        }
        self.sub(0, j)
    }

    /// Whether the text is exactly `lit`.
    pub fn equals(&self, lit: &str) -> (b: bool)
        ensures
            b == (self@ == lit@),
    {
        let n = lit.unicode_len();
        if n != self.chars.len() {
            return false;
        }
        let mut i: usize = 0;
        while i < n
            invariant
                n == lit@.len() == self@.len(),
                i <= n,
                forall|k: int| 0 <= k < i ==> self@[k] == lit@[k],
            decreases n - i,
        {
            if self.chars[i] != lit.get_char(i) {
                return false;
            }
            i += 1;
        }
        assert(self@ =~= lit@);
        true
    }

    /// `str::starts_with(lit)`.
    pub fn starts_with(&self, lit: &str) -> (b: bool)
        requires
            self.wf(),
        ensures
            b == starts_with(self@, lit@),
    {
        let n = lit.unicode_len();
        if n > self.chars.len() {
            return false;
        }
        let head = self.sub(0, n);
        head.equals(lit)
    }

    /// `str::strip_prefix(lit)`.
    pub fn strip_prefix(&self, lit: &str) -> (r: Option<Span<'a>>)
        requires
            self.wf(),
        ensures
            match r {
                Some(t) => t.wf() && strip_prefix(self@, lit@) == Some(t@),
                None => strip_prefix(self@, lit@) is None,
            },
    {
        if self.starts_with(lit) {
            let n = lit.unicode_len();
            Some(self.sub(n, self.chars.len()))
        } else {
            None
        }
    }

    /// `str::eq_ignore_ascii_case`.
    pub fn eq_ignore_ascii_case(&self, other: &Span) -> (b: bool)
        ensures
            b == eq_ignore_ascii_case(self@, other@),
    {
        if self.chars.len() != other.chars.len() {
            return false;
        }
        let mut i: usize = 0;
        while i < self.chars.len()
            invariant
                self@.len() == other@.len(),
                i <= self@.len(),
                forall|k: int| 0 <= k < i ==> ascii_lower(self@[k]) == ascii_lower(other@[k]),
            decreases self@.len() - i,
        {
            let a = self.chars[i];
            let b = other.chars[i];
            let la: u32 = if 'A' <= a && a <= 'Z' {
                (a as u32) + 32
            } else {
                a as u32
            };
            let lb: u32 = if 'A' <= b && b <= 'Z' {
                (b as u32) + 32
            } else {
                b as u32
            };
            if la != lb {
                return false;
            }
            i += 1;
        }
        true
    }

    /// `str::parse` for an unsigned integer type whose largest value is `max`.
    pub fn parse_unsigned(&self, max: u64) -> (r: Option<u64>)
        ensures
            match r {
                Some(v) => parse_unsigned(self@, max as nat) == Some(v as nat),
                None => parse_unsigned(self@, max as nat) is None,
            },
    {
        let n = self.chars.len();
        let mut start: usize = 0;
        if n > 0 && self.chars[0] == '+' {
            start = 1;
        }
        let ghost d = unsigned_digits(self@);
        assert(d =~= self@.skip(start as int));
        if start == n {
            return None;
        }
        let mut i: usize = start;
        let mut acc: u64 = 0;
        assert(d.take(0) =~= Seq::<char>::empty());
        while i < n
            invariant
                start <= i <= n == self@.len(),
                d == self@.skip(start as int),
                d == unsigned_digits(self@),
                acc <= max,
                acc == digits_value(d.take(i - start)),
                forall|k: int| 0 <= k < i - start ==> is_digit(#[trigger] d[k]),
            decreases n - i,
        {
            let c = self.chars[i];
            if !('0' <= c && c <= '9') {
                assert(!is_digit(d[i - start]));
                return None;
            }
            let dv: u64 = ((c as u32) - 48) as u64;
            let ghost k = i - start;
            assert(d.take(k + 1).drop_last() =~= d.take(k));
            assert(d.take(k + 1).last() == c);
            if dv > max || acc > (max - dv) / 10 {
                proof {
                    assert(acc * 10 + dv > max) by (nonlinear_arith)
                        requires
                            dv > max || acc > (max - dv) / 10,
                            dv <= 9,
                    ;
                    assert(digits_value(d.take(k + 1)) > max);
                    if forall|m: int| 0 <= m < d.len() ==> is_digit(#[trigger] d[m]) {
                        lemma_digits_value_prefix(d, k + 1);
                    }
                }
                return None;
            }
            proof {
                assert(acc * 10 + dv <= max) by (nonlinear_arith)
                    requires
                        dv <= max,
                        acc <= (max - dv) / 10,
                ;
            }
            acc = acc * 10 + dv;
            i += 1;
        }
        assert(d.take(i - start) =~= d);
        Some(acc)
    }

    /// `str::split(c)`.
    pub fn split(&self, c: char) -> (r: Vec<Span<'a>>)
        requires
            self.wf(),
        ensures
            all_wf(r@),
            spans_view(r@) == split(self@, c),
    {
        let mut out: Vec<Span<'a>> = Vec::new();
        let mut start: usize = 0;
        let n = self.chars.len();
        assert(self@.skip(0) =~= self@);
        assert(spans_view(out@) =~= Seq::<Seq<char>>::empty());
        loop
            invariant
                start <= n == self@.len(),
                self.wf(),
                all_wf(out@),
                split(self@, c) == spans_view(out@) + split(self@.skip(start as int), c),
            decreases n - start,
        {
            let rest = self.sub(start, n);
            assert(rest@ =~= self@.skip(start as int));
            let k = rest.find(c);
            proof {
                lemma_find_from(rest@, c, 0);
            }
            let ghost before = spans_view(out@);
            if k < rest.len() {
                let piece = rest.sub(0, k);
                out.push(piece);
                assert(spans_view(out@) =~= before.push(piece@));
                assert(rest@.skip(k + 1) =~= self@.skip(start + k + 1));
                assert(before.push(piece@) + split(self@.skip(start + k + 1), c) =~= before + (
                seq![piece@] + split(self@.skip(start + k + 1), c)));
                start = start + k + 1;
            } else {
                out.push(rest);
                assert(spans_view(out@) =~= before.push(rest@));
                assert(before.push(rest@) =~= before + seq![rest@]);
                return out;
            }
        }
    }

    /// The index of the first whitespace character, or the length.
    pub fn find_whitespace(&self) -> (k: usize)
        ensures
            k == find_whitespace_from(self@, 0),
    {
        let mut i: usize = 0;
        while i < self.chars.len()
            invariant
                i <= self@.len(),
                find_whitespace_from(self@, 0) == find_whitespace_from(self@, i as int),
            decreases self@.len() - i,
        {
            if char_is_whitespace(self.chars[i]) {
                return i;
            }
            i += 1;
        }
        i
    }

    /// `str::split_whitespace`.
    pub fn words(&self) -> (r: Vec<Span<'a>>)
        requires
            self.wf(),
        ensures
            all_wf(r@),
            spans_view(r@) == words(self@),
    {
        let mut out: Vec<Span<'a>> = Vec::new();
        let mut rest: Span<'a> = *self;
        assert(spans_view(out@) =~= Seq::<Seq<char>>::empty());
        loop
            invariant
                rest.wf(),
                all_wf(out@),
                words(self@) == spans_view(out@) + words(rest@),
            decreases rest@.len(),
        {
            let t = rest.trim_start();
            proof {
                lemma_trim_start(rest@);
            }
            if t.len() == 0 {
                assert(spans_view(out@) + Seq::<Seq<char>>::empty() =~= spans_view(out@));
                return out;
            }
            let k = t.find_whitespace();
            proof {
                lemma_find_whitespace_from(t@, 0);
            }
            let ghost before = spans_view(out@);
            let w = t.sub(0, k);
            out.push(w);
            assert(spans_view(out@) =~= before.push(w@));
            rest = t.sub(k, t.len());
            assert(rest@ =~= t@.skip(k as int));
            assert(before.push(w@) + words(rest@) =~= before + (seq![w@] + words(rest@)));
        }
    }

    /// `str::trim_start_matches(c)`.
    pub fn trim_start_char(&self, c: char) -> (r: Span<'a>)
        requires
            self.wf(),
        ensures
            r.wf(),
            r@ == trim_start_char(self@, c),
    {
        let mut i: usize = 0;
        assert(self@.skip(0) =~= self@);
        while i < self.chars.len() && self.chars[i] == c
            invariant
                i <= self@.len(),
                trim_start_char(self@, c) == trim_start_char(self@.skip(i as int), c),
            decreases self@.len() - i,
        {
            assert(self@.skip(i as int).drop_first() =~= self@.skip(i + 1));
            i += 1;
        }
        self.sub(i, self.chars.len())
    }
}

} // verus!
