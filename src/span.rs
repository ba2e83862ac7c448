//! The directive argument mini-language: a target URL followed by an optional
//! span, which is a line range (`5`, `2:4`, `:3`, `2:`) or an anchor name.

use vstd::prelude::*;
use crate::lines::LineRange;
use crate::text::{chars_of, string_of};

verus! {

/// What a span selects, as a mathematical value.
pub enum Span {
    Lines(LineRange),
    Anchor(Seq<char>),
}

/// What part of a fetched text a directive takes.
#[derive(Debug)]
pub enum Selection {
    Range(LineRange),
    Anchor(String),
}

impl View for Selection {
    type V = Span;

    open spec fn view(&self) -> Span {
        match self {
            Selection::Range(r) => Span::Lines(*r),
            Selection::Anchor(a) => Span::Anchor(a@),
        }
    }
}

/// A parsed directive, as a mathematical value.
pub enum DirectiveView {
    Escaped,
    WebInclude(Seq<char>, Span),
    MalformedUrl(Seq<char>),
}

/// A parsed directive.
#[derive(Debug)]
pub enum Directive {
    /// An escaped token, which stands for its own text without the escape.
    Escaped,
    /// Include the selected part of the text behind `url`.
    WebInclude { url: String, selection: Selection },
    /// The target is not a well-formed absolute URL; the token is left as it is.
    MalformedUrl { target: String },
}

impl View for Directive {
    type V = DirectiveView;

    open spec fn view(&self) -> DirectiveView {
        match self {
            Directive::Escaped => DirectiveView::Escaped,
            Directive::WebInclude { url, selection } => DirectiveView::WebInclude(url@, selection@),
            Directive::MalformedUrl { target } => DirectiveView::MalformedUrl(target@),
        }
    }
}

/// The serialization of `s` parsed as an absolute URL, or `None` where it is not one.
pub uninterp spec fn parsed_url(s: Seq<char>) -> Option<Seq<char>>;

/// Relies on `url::Url::parse`: whether the text is a well-formed absolute
/// URL, and the URL's serialization when it is.
#[verifier::external_body]
fn parse_url(s: &str) -> (r: Option<String>)
    ensures
        match r {
            Some(u) => parsed_url(s@) == Some(u@),
            None => parsed_url(s@) is None,
        },
{
    url::Url::parse(s).ok().map(String::from)
}

pub open spec fn is_digit(c: char) -> bool {
    '0' <= c <= '9'
}

/// The number that a run of decimal digits denotes.
pub open spec fn digits_value(s: Seq<char>) -> nat
    decreases s.len(),
{
    if s.len() == 0 {
        0
    } else {
        digits_value(s.drop_last()) * 10 + (s.last() as nat - '0' as nat) as nat
    }
}

pub open spec fn all_digits(d: Seq<char>) -> bool {
    forall|i: int| 0 <= i < d.len() ==> is_digit(#[trigger] d[i])
}

/// The result of parsing a text as a `usize` in the way `str::parse` does:
/// an optional `+`, then one or more decimal digits, with a value that fits.
pub open spec fn usize_of(s: Seq<char>) -> Option<usize> {
    let d = if s.len() > 0 && s[0] == '+' { s.drop_first() } else { s };
    if d.len() > 0 && all_digits(d) && digits_value(d) <= usize::MAX {
        Some(digits_value(d) as usize)
    } else {
        None
    }
}

proof fn lemma_digits_grow(d: Seq<char>, i: int)
    requires
        0 <= i <= d.len(),
        forall|k: int| 0 <= k < d.len() ==> is_digit(#[trigger] d[k]),
    ensures
        digits_value(d.take(i)) <= digits_value(d),
    decreases d.len() - i,
{
    if i < d.len() {
        lemma_digits_grow(d, i + 1);
        assert(d.take(i + 1).drop_last() =~= d.take(i));
    } else {
        assert(d.take(i) =~= d);
    }
}

/// Parses a decimal `usize` as `str::parse` does.
pub fn parse_usize(s: &Vec<char>) -> (r: Option<usize>)
    ensures
        r == usize_of(s@),
{
    let start: usize = if s.len() > 0 && s[0] == '+' { 1 } else { 0 };
    let ghost d = if s@.len() > 0 && s@[0] == '+' { s@.drop_first() } else { s@ };
    assert(d =~= s@.subrange(start as int, s@.len() as int));
    if start >= s.len() {
        return None;
    }
    let mut value: usize = 0;
    let mut i = start;
    while i < s.len()
        invariant
            start <= i <= s@.len(),
            d == s@.subrange(start as int, s@.len() as int),
            d == (if s@.len() > 0 && s@[0] == '+' { s@.drop_first() } else { s@ }),
            forall|k: int| 0 <= k < i - start ==> is_digit(#[trigger] d[k]),
            value as nat == digits_value(d.take(i - start)),
        decreases s@.len() - i,
    {
        let c = s[i];
        assert(d[i - start] == c);
        if !('0' <= c && c <= '9') {
            assert(!is_digit(d[i - start]));
            assert(!all_digits(d));
            return None;
        }
        let ghost t = d.take(i - start + 1);
        assert(t.drop_last() =~= d.take(i - start));
        assert(t.last() == c);
        let digit = (c as u32 - '0' as u32) as usize;
        assert(digits_value(t) == value * 10 + digit);
        let grown = match value.checked_mul(10) {
            Some(v) => v.checked_add(digit),
            None => None,
        };
        match grown {
            Some(v) => {
                value = v;
            },
            None => {
                proof {
                    if all_digits(d) {
                        lemma_digits_grow(d, i - start + 1);
                    }
                }
                return None;
            },
        }
        i = i + 1;
    }
    assert(d.take(i - start) =~= d);
    Some(value)
}

/// The index of the first `c` in `s`, or its length where there is none.
pub open spec fn first_of(s: Seq<char>, c: char) -> int
    decreases s.len(),
{
    if s.len() == 0 {
        0
    } else if s[0] == c {
        0
    } else {
        1 + first_of(s.drop_first(), c)
    }
}

/// Finds the first `c` in `s`.
pub fn find_char(s: &Vec<char>, c: char) -> (r: usize)
    ensures
        r as int == first_of(s@, c),
        r <= s@.len(),
{
    let mut i: usize = 0;
    assert(s@.subrange(0, s@.len() as int) =~= s@);
    while i < s.len() && s[i] != c
        invariant
            i <= s@.len(),
            first_of(s@, c) == i + first_of(s@.subrange(i as int, s@.len() as int), c),
        decreases s@.len() - i,
    {
        assert(s@.subrange(i as int, s@.len() as int).drop_first() =~= s@.subrange(i as int + 1, s@.len() as int));
        i = i + 1;
    }
    i
}

pub fn sub_chars(s: &Vec<char>, from: usize, to: usize) -> (r: Vec<char>)
    requires
        from <= to <= s@.len(),
    ensures
        r@ == s@.subrange(from as int, to as int),
{
    let mut r: Vec<char> = Vec::new();
    let mut k = from;
    while k < to
        invariant
            from <= k <= to <= s@.len(),
            r@ == s@.subrange(from as int, k as int),
        decreases to - k,
    {
        r.push(s[k]);
        assert(r@ =~= s@.subrange(from as int, k as int + 1));
        k = k + 1;
    }
    r
}

/// The span that the text after the target denotes (`None`: no span given).
/// Of the fields between colons only the first two are read.
pub open spec fn span_of(parts: Option<Seq<char>>) -> Span {
    let s = match parts { Some(p) => p, None => Seq::<char>::empty() };
    let c0 = first_of(s, ':');
    let f0 = s.take(c0);
    let f1: Option<Seq<char>> = if c0 < s.len() {
        let rest = s.skip(c0 + 1);
        Some(rest.take(first_of(rest, ':')))
    } else {
        None
    };
    let start: Option<usize> = match usize_of(f0) {
        Some(v) => Some(if v == 0 { 0 } else { (v - 1) as usize }),
        None => None,
    };
    if start is None && f0.len() > 0 {
        Span::Anchor(f0)
    } else {
        let end: Option<Option<usize>> = match f1 { Some(f) => Some(usize_of(f)), None => None };
        match (start, end) {
            (Some(a), Some(Some(b))) => Span::Lines(LineRange::Bounded(a, b)),
            (Some(a), Some(None)) => Span::Lines(LineRange::From(a)),
            (Some(a), None) => Span::Lines(LineRange::Bounded(a, (a + 1) as usize)),
            (None, Some(Some(b))) => Span::Lines(LineRange::To(b)),
            (None, _) => Span::Lines(LineRange::Full),
        }
    }
}

/// Parses the span of a directive: a 1-based line number or line range, or an anchor name.
pub fn parse_range_or_anchor(parts: Option<&str>) -> (r: Selection)
    ensures
        r@ == span_of(match parts { Some(p) => Some(p@), None => None }),
{
    let s: Vec<char> = match parts {
        Some(p) => chars_of(p),
        None => Vec::new(),
    };
    let c0 = find_char(&s, ':');
    let f0 = sub_chars(&s, 0, c0);
    assert(f0@ =~= s@.take(c0 as int));
    let f1: Option<Vec<char>> = if c0 < s.len() {
        let rest = sub_chars(&s, c0 + 1, s.len());
        assert(rest@ =~= s@.skip(c0 + 1));
        let c1 = find_char(&rest, ':');
        let f = sub_chars(&rest, 0, c1);
        assert(f@ =~= rest@.take(c1 as int));
        Some(f)
    } else {
        None
    };
    let start: Option<usize> = match parse_usize(&f0) {
        Some(v) => Some(if v == 0 { 0 } else { v - 1 }),
        None => None,
    };
    if start.is_none() && f0.len() > 0 {
        return Selection::Anchor(string_of(&f0));
    }
    let end: Option<Option<usize>> = match &f1 {
        Some(f) => Some(parse_usize(f)),
        None => None,
    };
    let range = match (start, end) {
        (Some(a), Some(Some(b))) => LineRange::Bounded(a, b),
        (Some(a), Some(None)) => LineRange::From(a),
        (Some(a), None) => LineRange::Bounded(a, a + 1),
        (None, Some(Some(b))) => LineRange::To(b),
        (None, _) => LineRange::Full,
    };
    Selection::Range(range)
}

/// Splits directive arguments at the first space into a target and a span.
pub open spec fn directive_of_args(args: Seq<char>) -> DirectiveView {
    let sp = first_of(args, ' ');
    let target = args.take(sp);
    let parts = if sp < args.len() { Some(args.skip(sp + 1)) } else { None };
    match parsed_url(target) {
        Some(u) => DirectiveView::WebInclude(u, span_of(parts)),
        None => DirectiveView::MalformedUrl(target),
    }
}

/// Parses the arguments of a directive: `<url> [<span>]`.
pub fn parse_include_path(args: &str) -> (r: Directive)
    ensures
        r@ == directive_of_args(args@),
{
    let s = chars_of(args);
    let sp = find_char(&s, ' ');
    let target = sub_chars(&s, 0, sp);
    assert(target@ =~= s@.take(sp as int));
    let target = string_of(&target);
    let selection = if sp < s.len() {
        let rest = sub_chars(&s, sp + 1, s.len());
        assert(rest@ =~= s@.skip(sp + 1));
        let rest = string_of(&rest);
        parse_range_or_anchor(Some(rest.as_str()))
    } else {
        parse_range_or_anchor(None)
    };
    match parse_url(target.as_str()) {
        Some(url) => Directive::WebInclude { url, selection },
        None => Directive::MalformedUrl { target },
    }
}

} // verus!
