//! The directive tokenizer. A document holds directive tokens
//! `{{#kind args}}` and escaped tokens `\{{#...}}`, which end at the first
//! `}}` on their line; the scan walks the text
//! left to right, takes the leftmost token at each point, and keeps the
//! escaped tokens and the `webinclude` directives, in document order.

use vstd::prelude::*;
use crate::span::{directive_of_args, parse_include_path, sub_chars, Directive, DirectiveView};
use crate::text::{chars_of, is_white_space, same_chars, skip_space, space_end, string_of, white_space};

verus! {

/// A token found in a document, as a mathematical value.
pub struct LinkView {
    pub start: int,
    pub end: int,
    pub directive: DirectiveView,
    pub text: Seq<char>,
}

/// A token found in a document: its character offsets, its parsed
/// directive and its literal text.
#[derive(Debug)]
pub struct Link {
    pub start_index: usize,
    pub end_index: usize,
    pub directive: Directive,
    pub link_text: String,
}

impl View for Link {
    type V = LinkView;

    open spec fn view(&self) -> LinkView {
        LinkView {
            start: self.start_index as int,
            end: self.end_index as int,
            directive: self.directive@,
            text: self.link_text@,
        }
    }
}

pub open spec fn link_views(v: Seq<Link>) -> Seq<LinkView> {
    Seq::new(v.len(), |i: int| v[i]@)
}

/// The characters that open an escaped token.
pub open spec fn escape_open() -> Seq<char> {
    seq!['\\', '{', '{', '#']
}

/// The kind of directive this engine expands.
pub open spec fn webinclude_kind() -> Seq<char> {
    seq!['w', 'e', 'b', 'i', 'n', 'c', 'l', 'u', 'd', 'e']
}

/// The end of the first `}}` at or after `j` on the same line.
pub open spec fn close_scan(s: Seq<char>, j: int) -> Option<int>
    decreases s.len() - j,
{
    if j < 0 || j >= s.len() || s[j] == '\n' {
        None
    } else if j + 1 < s.len() && s[j] == '}' && s[j + 1] == '}' {
        Some(j + 2)
    } else {
        close_scan(s, j + 1)
    }
}

/// The end of an escaped token at `i`: the escape opening, then anything but a
/// newline, up to and including the first `}}`.
pub open spec fn escaped_end(s: Seq<char>, i: int) -> Option<int> {
    if 0 <= i && i + 4 <= s.len() && s.subrange(i, i + 4) == escape_open() {
        close_scan(s, i + 4)
    } else {
        None
    }
}

pub open spec fn ident_char(c: char) -> bool {
    ('a' <= c <= 'z') || ('A' <= c <= 'Z') || ('0' <= c <= '9') || c == '_'
}

/// The end of the run of identifier characters that starts at `j`.
pub open spec fn ident_end(s: Seq<char>, j: int) -> int
    decreases s.len() - j,
{
    if 0 <= j < s.len() && ident_char(s[j]) {
        ident_end(s, j + 1)
    } else {
        j
    }
}

/// The first `}` at or after `j`, or the length of the text.
pub open spec fn brace_from(s: Seq<char>, j: int) -> int
    decreases s.len() - j,
{
    if 0 <= j < s.len() && s[j] != '}' {
        brace_from(s, j + 1)
    } else {
        j
    }
}

/// A directive token at `i`: `{{`, optional white space, `#`, a kind, white
/// space, arguments without `}`, and `}}`. Gives the bounds of the kind, of
/// the arguments, and the end of the token.
pub open spec fn call_at(s: Seq<char>, i: int) -> Option<(int, int, int, int, int)> {
    if 0 <= i && i + 2 <= s.len() && s[i] == '{' && s[i + 1] == '{' {
        let p = space_end(s, i + 2);
        if p < s.len() && s[p] == '#' {
            let k = ident_end(s, p + 1);
            if k > p + 1 && k < s.len() && white_space(s[k]) {
                let j = brace_from(s, k);
                if j >= k + 2 && j + 1 < s.len() && s[j + 1] == '}' {
                    let w = space_end(s, k);
                    Some((p + 1, k, if w < j { w } else { j - 1 }, j, j + 2))
                } else {
                    None
                }
            } else {
                None
            }
        } else {
            None
        }
    } else {
        None
    }
}

/// The tokens of `s` from position `p` on.
pub open spec fn links_from(s: Seq<char>, p: int) -> Seq<LinkView>
    decreases s.len() - p,
{
    if p < 0 || p >= s.len() {
        Seq::empty()
    } else if s[p] == '\\' && escaped_end(s, p) is Some {
        let e = escaped_end(s, p)->0;
        if p < e <= s.len() {
            seq![LinkView { start: p, end: e, directive: DirectiveView::Escaped, text: s.subrange(p, e) }]
                + links_from(s, e)
        } else {
            Seq::empty()
        }
    } else if call_at(s, p) is Some {
        let (ks, ke, a, b, e) = call_at(s, p)->0;
        if p < e <= s.len() {
            if s.subrange(ks, ke) == webinclude_kind() {
                seq![LinkView {
                    start: p,
                    end: e,
                    directive: directive_of_args(s.subrange(a, b)),
                    text: s.subrange(p, e),
                }] + links_from(s, e)
            } else {
                links_from(s, e)
            }
        } else {
            Seq::empty()
        }
    } else {
        links_from(s, p + 1)
    }
}

/// The tokens of a whole document, in order.
pub open spec fn links_of(s: Seq<char>) -> Seq<LinkView> {
    links_from(s, 0)
}

proof fn lemma_close_scan_bounds(s: Seq<char>, j: int)
    requires
        0 <= j,
    ensures
        close_scan(s, j) matches Some(e) ==> j < e <= s.len(),
    decreases s.len() - j,
{
    if j < 0 || j >= s.len() || s[j] == '\n' {
    } else if j + 1 < s.len() && s[j] == '}' && s[j + 1] == '}' {
    } else {
        lemma_close_scan_bounds(s, j + 1);
    }
}

fn escaped_end_at(s: &Vec<char>, i: usize) -> (r: Option<usize>)
    requires
        i < s@.len(),
    ensures
        match r {
            Some(e) => escaped_end(s@, i as int) == Some(e as int) && i < e <= s@.len(),
            None => escaped_end(s@, i as int) is None,
        },
{
    let n = s.len();
    if n - i < 4 || s[i] != '\\' || s[i + 1] != '{' || s[i + 2] != '{' || s[i + 3] != '#' {
        proof {
            if i + 4 <= n {
                let sub = s@.subrange(i as int, i + 4);
                assert(sub[0] == s@[i as int] && sub[1] == s@[i + 1] && sub[2] == s@[i + 2] && sub[3] == s@[i + 3]);
            }
        }
        return None;
    }
    assert(s@.subrange(i as int, i + 4) =~= escape_open());
    proof { lemma_close_scan_bounds(s@, i + 4); }
    let mut j = i + 4;
    while j < n && s[j] != '\n'
        invariant
            n == s@.len(),
            i + 4 <= j <= n,
            s@.subrange(i as int, i + 4) == escape_open(),
            close_scan(s@, i + 4) == close_scan(s@, j as int),
        decreases n - j,
    {
        if j + 1 < n && s[j] == '}' && s[j + 1] == '}' {
            return Some(j + 2);
        }
        j = j + 1;
    }
    None
}

fn ident_end_at(s: &Vec<char>, j: usize) -> (r: usize)
    requires
        j <= s@.len(),
    ensures
        r as int == ident_end(s@, j as int),
        j <= r <= s@.len(),
{
    let mut k = j;
    while k < s.len() && (('a' <= s[k] && s[k] <= 'z') || ('A' <= s[k] && s[k] <= 'Z') || ('0' <= s[k] && s[k] <= '9') || s[k] == '_')
        invariant
            j <= k <= s@.len(),
            ident_end(s@, j as int) == ident_end(s@, k as int),
        decreases s@.len() - k,
    {
        k = k + 1;
    }
    k
}

fn brace_at(s: &Vec<char>, j: usize) -> (r: usize)
    requires
        j <= s@.len(),
    ensures
        r as int == brace_from(s@, j as int),
        j <= r <= s@.len(),
{
    let mut k = j;
    while k < s.len() && s[k] != '}'
        invariant
            j <= k <= s@.len(),
            brace_from(s@, j as int) == brace_from(s@, k as int),
        decreases s@.len() - k,
    {
        k = k + 1;
    }
    k
}

fn call_at_exec(s: &Vec<char>, i: usize) -> (r: Option<(usize, usize, usize, usize, usize)>)
    requires
        i < s@.len(),
    ensures
        match r {
            Some((ks, ke, a, b, e)) => call_at(s@, i as int) == Some((ks as int, ke as int, a as int, b as int, e as int))
                && i < ks <= ke <= s@.len() && ke <= a <= b <= s@.len() && i < e <= s@.len(),
            None => call_at(s@, i as int) is None,
        },
{
    let n = s.len();
    if n - i < 2 || s[i] != '{' || s[i + 1] != '{' {
        return None;
    }
    let p = skip_space(s, i + 2);
    if p >= n || s[p] != '#' {
        return None;
    }
    let k = ident_end_at(s, p + 1);
    if k <= p + 1 || k >= n || !is_white_space(s[k]) {
        return None;
    }
    let j = brace_at(s, k);
    if j - k < 2 || n - j <= 1 || s[j + 1] != '}' {
        return None;
    }
    let w = skip_space(s, k);
    let a = if w < j { w } else { j - 1 };
    Some((p + 1, k, a, j, j + 2))
}

fn webinclude_chars() -> (r: Vec<char>)
    ensures
        r@ == webinclude_kind(),
{
    let r = vec!['w', 'e', 'b', 'i', 'n', 'c', 'l', 'u', 'd', 'e'];
    assert(r@ =~= webinclude_kind());
    r
}

/// Finds the escaped tokens and the `webinclude` directives of a document,
/// in document order.
pub fn find_links(contents: &str) -> (r: Vec<Link>)
    ensures
        link_views(r@) == links_of(contents@),
{
    let s = chars_of(contents);
    let kind = webinclude_chars();
    let n = s.len();
    let mut out: Vec<Link> = Vec::new();
    let mut p: usize = 0;
    while p < n
        invariant
            n == s@.len(),
            s@ == contents@,
            kind@ == webinclude_kind(),
            p <= n,
            link_views(out@) + links_from(s@, p as int) == links_of(s@),
        decreases n - p,
    {
        let ghost before = link_views(out@);
        if s[p] == '\\' {
            match escaped_end_at(&s, p) {
                Some(e) => {
                    let text = string_of(&sub_chars(&s, p, e));
                    out.push(Link { start_index: p, end_index: e, directive: Directive::Escaped, link_text: text });
                    assert(link_views(out@) =~= before.push(out@.last()@));
                    assert(link_views(out@) + links_from(s@, e as int) =~= before + links_from(s@, p as int));
                    p = e;
                    continue;
                },
                None => {},
            }
        }
        match call_at_exec(&s, p) {
            Some((ks, ke, a, b, e)) => {
                let name = sub_chars(&s, ks, ke);
                if same_chars(&name, &kind) {
                    let args = string_of(&sub_chars(&s, a, b));
                    let directive = parse_include_path(args.as_str());
                    let text = string_of(&sub_chars(&s, p, e));
                    out.push(Link { start_index: p, end_index: e, directive, link_text: text });
                    assert(link_views(out@) =~= before.push(out@.last()@));
                    assert(link_views(out@) + links_from(s@, e as int) =~= before + links_from(s@, p as int));
                } else {
                    assert(link_views(out@) =~= before);
                }
                p = e;
            },
            None => {
                p = p + 1;
            },
        }
    }
    assert(link_views(out@) + links_from(s@, p as int) =~= link_views(out@));
    out
}

} // verus!
