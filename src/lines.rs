//! Selection of part of a text: a range of lines, or the block between two
//! anchor marker lines.

use vstd::prelude::*;
use crate::text::{
    pieces, strip_cr,
    chars_of, copy_chars, is_word_char, join, join_lines, lines_of, same_chars, skip_space, space_end,
    split_lines, string_of, views, word_char,
};

verus! {

/// A range of 0-based line indices; ends are exclusive.
#[derive(Clone, Copy, Debug, PartialEq, Eq, Structural)]
pub enum LineRange {
    /// Lines `start..end`.
    Bounded(usize, usize),
    /// Lines from `start` on.
    From(usize),
    /// Lines before `end`.
    To(usize),
    /// Every line.
    Full,
}

impl LineRange {
    /// The first line selected.
    pub open spec fn first(self) -> int {
        match self {
            LineRange::Bounded(a, _) => a as int,
            LineRange::From(a) => a as int,
            _ => 0,
        }
    }

    /// The exclusive end, if there is one.
    pub open spec fn limit(self) -> Option<int> {
        match self {
            LineRange::Bounded(_, b) => Some(b as int),
            LineRange::To(b) => Some(b as int),
            _ => None,
        }
    }
}

/// The lines that a range selects out of `ls`, clamped to what is there.
pub open spec fn select_lines(ls: Seq<Seq<char>>, r: LineRange) -> Seq<Seq<char>> {
    let n = ls.len() as int;
    let lo = if r.first() < n { r.first() } else { n };
    let hi = match r.limit() {
        Some(e) => if e <= r.first() { lo } else if e < n { e } else { n },
        None => n,
    };
    ls.subrange(lo, hi)
}

/// What `take_lines` returns: the selected lines, joined by newlines.
pub open spec fn lines_in_range(s: Seq<char>, r: LineRange) -> Seq<char> {
    join_lines(select_lines(lines_of(s), r))
}

/// Takes a range of lines from a string.
pub fn take_lines(s: &str, range: LineRange) -> (r: String)
    ensures
        r@ == lines_in_range(s@, range),
{
    let chars = chars_of(s);
    let ls = split_lines(&chars);
    let n = ls.len();
    let first = match range {
        LineRange::Bounded(a, _) => a,
        LineRange::From(a) => a,
        _ => 0,
    };
    let lo = if first < n { first } else { n };
    let hi = match range {
        LineRange::Bounded(_, e) | LineRange::To(e) => if e <= first { lo } else if e < n { e } else { n },
        _ => n,
    };
    let mut picked: Vec<Vec<char>> = Vec::new();
    let mut k = lo;
    while k < hi
        invariant
            lo <= k <= hi <= n == ls@.len(),
            views(picked@) == views(ls@).subrange(lo as int, k as int),
        decreases hi - k,
    {
        let ghost before = views(picked@);
        picked.push(copy_chars(&ls[k]));
        assert(views(picked@) =~= before.push(views(ls@)[k as int]));
        assert(views(picked@) =~= views(ls@).subrange(lo as int, k as int + 1));
        k = k + 1;
    }
    let out = join(&picked);
    string_of(&out)
}

/// The characters of the opening marker.
pub open spec fn open_tag() -> Seq<char> {
    seq!['A', 'N', 'C', 'H', 'O', 'R', ':']
}

/// The characters of the closing marker.
pub open spec fn close_tag() -> Seq<char> {
    seq!['A', 'N', 'C', 'H', 'O', 'R', '_', 'E', 'N', 'D', ':']
}

/// Characters allowed in an anchor name: word characters and `-`.
pub open spec fn name_char(c: char) -> bool {
    word_char(c) || c == '-'
}

/// The end of the run of name characters that starts at `j`.
pub open spec fn name_end(s: Seq<char>, j: int) -> int
    decreases s.len() - j,
{
    if 0 <= j < s.len() && name_char(s[j]) {
        name_end(s, j + 1)
    } else {
        j
    }
}

/// The anchor name of a marker `tag` that starts at `i`: the tag, optional
/// white space, and a non-empty run of name characters.
pub open spec fn marker_at(l: Seq<char>, tag: Seq<char>, i: int) -> Option<Seq<char>> {
    if 0 <= i && i + tag.len() <= l.len() && l.subrange(i, i + tag.len()) == tag {
        let w = space_end(l, i + tag.len());
        let e = name_end(l, w);
        if e > w {
            Some(l.subrange(w, e))
        } else {
            None
        }
    } else {
        None
    }
}

/// The name of the leftmost marker `tag` at or after position `i` of a line.
pub open spec fn marker_from(l: Seq<char>, tag: Seq<char>, i: int) -> Option<Seq<char>>
    decreases l.len() - i,
{
    if i < 0 || i >= l.len() {
        None
    } else {
        match marker_at(l, tag, i) {
            Some(name) => Some(name),
            None => marker_from(l, tag, i + 1),
        }
    }
}

/// The lines kept by the anchor state machine, from the lines `ls` on, where
/// `collecting` says whether the opening marker has been seen.
pub open spec fn anchored(ls: Seq<Seq<char>>, anchor: Seq<char>, collecting: bool) -> Seq<Seq<char>>
    decreases ls.len(),
{
    if ls.len() == 0 {
        Seq::empty()
    } else {
        let l = ls[0];
        let rest = ls.drop_first();
        if collecting {
            if marker_from(l, close_tag(), 0) == Some(anchor) {
                Seq::empty()
            } else if marker_from(l, open_tag(), 0) is Some {
                anchored(rest, anchor, true)
            } else {
                seq![l] + anchored(rest, anchor, true)
            }
        } else {
            anchored(rest, anchor, marker_from(l, open_tag(), 0) == Some(anchor))
        }
    }
}

/// What `take_anchored_lines` returns.
pub open spec fn anchored_text(s: Seq<char>, anchor: Seq<char>) -> Seq<char> {
    join_lines(anchored(lines_of(s), anchor, false))
}

fn open_tag_chars() -> (r: Vec<char>)
    ensures
        r@ == open_tag(),
{
    let r = vec!['A', 'N', 'C', 'H', 'O', 'R', ':'];
    assert(r@ =~= open_tag());
    r
}

fn close_tag_chars() -> (r: Vec<char>)
    ensures
        r@ == close_tag(),
{
    let r = vec!['A', 'N', 'C', 'H', 'O', 'R', '_', 'E', 'N', 'D', ':'];
    assert(r@ =~= close_tag());
    r
}

fn tag_at(l: &Vec<char>, tag: &Vec<char>, i: usize) -> (r: bool)
    requires
        i <= l@.len(),
    ensures
        r == (i + tag@.len() <= l@.len() && l@.subrange(i as int, i + tag@.len()) == tag@),
{
    let ln = l.len();
    if tag.len() > ln - i {
        return false;
    }
    let mut k: usize = 0;
    while k < tag.len()
        invariant
            ln == l@.len(),
            i + tag@.len() <= l@.len(),
            i <= l@.len(),
            k <= tag@.len(),
            l@.subrange(i as int, i + k) == tag@.take(k as int),
        decreases tag@.len() - k,
    {
        if l[i + k] != tag[k] {
            assert(l@.subrange(i as int, i + tag@.len())[k as int] != tag@[k as int]);
            return false;
        }
        assert(l@.subrange(i as int, i + k + 1) =~= l@.subrange(i as int, i + k).push(l@[i + k]));
        assert(tag@.take(k as int + 1) =~= tag@.take(k as int).push(tag@[k as int]));
        k = k + 1;
    }
    assert(tag@.take(k as int) =~= tag@);
    true
}

fn skip_name(s: &Vec<char>, j: usize) -> (r: usize)
    requires
        j <= s@.len(),
    ensures
        r as int == name_end(s@, j as int),
        j <= r <= s@.len(),
{
    let mut k = j;
    while k < s.len() && (is_word_char(s[k]) || s[k] == '-')
        invariant
            j <= k <= s@.len(),
            name_end(s@, j as int) == name_end(s@, k as int),
        decreases s@.len() - k,
    {
        k = k + 1;
    }
    k
}

/// Finds the name of the leftmost marker `tag` in a line.
fn find_marker(l: &Vec<char>, tag: &Vec<char>) -> (r: Option<Vec<char>>)
    requires
        tag@.len() > 0,
    ensures
        r matches Some(v) ==> marker_from(l@, tag@, 0) == Some(v@),
        r is None ==> marker_from(l@, tag@, 0) is None,
{
    let mut i: usize = 0;
    while i < l.len()
        invariant
            i <= l@.len(),
            tag@.len() > 0,
            marker_from(l@, tag@, 0) == marker_from(l@, tag@, i as int),
        decreases l@.len() - i,
    {
        if tag_at(l, tag, i) {
            let w = skip_space(l, i + tag.len());
            let e = skip_name(l, w);
            if e > w {
                let mut name: Vec<char> = Vec::new();
                let mut k = w;
                while k < e
                    invariant
                        w <= k <= e <= l@.len(),
                        name@ == l@.subrange(w as int, k as int),
                    decreases e - k,
                {
                    name.push(l[k]);
                    assert(name@ =~= l@.subrange(w as int, k as int + 1));
                    k = k + 1;
                }
                return Some(name);
            }
        }
        i = i + 1;
    }
    None
}

proof fn lemma_anchored_step(ls: Seq<Seq<char>>, k: int)
    requires
        0 <= k < ls.len(),
    ensures
        ls.subrange(k, ls.len() as int).len() > 0,
        ls.subrange(k, ls.len() as int)[0] == ls[k],
        ls.subrange(k, ls.len() as int).drop_first() == ls.subrange(k + 1, ls.len() as int),
{
    assert(ls.subrange(k, ls.len() as int).drop_first() =~= ls.subrange(k + 1, ls.len() as int));
}

/// Takes the lines between the opening and closing markers of an anchor.
/// Inside the block, opening marker lines of any anchor are left out, and
/// closing marker lines of other anchors are kept as ordinary lines.
pub fn take_anchored_lines(s: &str, anchor: &str) -> (r: String)
    ensures
        r@ == anchored_text(s@, anchor@),
{
    let chars = chars_of(s);
    let name = chars_of(anchor);
    let ls = split_lines(&chars);
    let open = open_tag_chars();
    let close = close_tag_chars();
    let ghost all = views(ls@);
    let mut retained: Vec<Vec<char>> = Vec::new();
    let mut collecting = false;
    let mut k: usize = 0;
    assert(all.subrange(0, all.len() as int) =~= all);
    while k < ls.len()
        invariant
            k <= ls@.len(),
            all == views(ls@),
            open@ == open_tag(),
            close@ == close_tag(),
            name@ == anchor@,
            views(retained@) + anchored(all.subrange(k as int, all.len() as int), name@, collecting)
                == anchored(all, name@, false),
        decreases ls@.len() - k,
    {
        proof { lemma_anchored_step(all, k as int); }
        let l = &ls[k];
        let ghost before = views(retained@);
        if collecting {
            let closing = find_marker(l, &close);
            let at_end = match closing {
                Some(n) => same_chars(&n, &name),
                None => false,
            };
            if at_end {
                assert(all.subrange(ls.len() as int, all.len() as int) =~= Seq::<Seq<char>>::empty());
                assert(views(retained@) + Seq::<Seq<char>>::empty() =~= views(retained@));
                k = ls.len();
            } else {
                let opening = find_marker(l, &open);
                if opening.is_none() {
                    retained.push(copy_chars(l));
                    assert(views(retained@) =~= before.push(all[k as int]));
                    assert(before + (seq![all[k as int]] + anchored(all.subrange(k as int + 1, all.len() as int), name@, true))
                        =~= views(retained@) + anchored(all.subrange(k as int + 1, all.len() as int), name@, true));
                } else {
                    assert(views(retained@) =~= before);
                }
                k = k + 1;
            }
        } else {
            let opening = find_marker(l, &open);
            collecting = match opening {
                Some(n) => same_chars(&n, &name),
                None => false,
            };
            assert(views(retained@) =~= before);
            k = k + 1;
        }
    }
    assert(all.subrange(k as int, all.len() as int) =~= Seq::<Seq<char>>::empty());
    assert(views(retained@) + Seq::<Seq<char>>::empty() =~= views(retained@));
    let out = join(&retained);
    string_of(&out)
}

proof fn lemma_join_extend_last(q: Seq<Seq<char>>, c: char)
    requires
        q.len() > 0,
    ensures
        join_lines(q.update(q.len() - 1, q.last().push(c))) == join_lines(q).push(c),
{
    let u = q.update(q.len() - 1, q.last().push(c));
    if q.len() == 1 {
        assert(u[0] == q[0].push(c));
    } else {
        assert(u.drop_last() =~= q.drop_last());
        assert(join_lines(u) =~= join_lines(q).push(c));
    }
}

/// Splitting on newlines and joining again gives the text back; no piece
/// holds a carriage return that the text does not hold; the last piece is
/// empty exactly where the text is empty or ends with a newline.
proof fn lemma_pieces_join(s: Seq<char>)
    ensures
        join_lines(pieces(s)) == s,
        pieces(s).len() > 0,
        (pieces(s).last().len() == 0) == (s.len() == 0 || s.last() == '\n'),
        !s.contains('\r') ==> forall|i: int| 0 <= i < pieces(s).len() ==> !(#[trigger] pieces(s)[i]).contains('\r'),
    decreases s.len(),
{
    if s.len() > 0 {
        let t = s.drop_last();
        lemma_pieces_join(t);
        let p = pieces(t);
        if !s.contains('\r') {
            assert(!t.contains('\r')) by {
                if t.contains('\r') {
                    let j = choose|j: int| 0 <= j < t.len() && t[j] == '\r';
                    assert(s[j] == '\r');
                }
            }
        }
        if s.last() == '\n' {
            assert(p.push(Seq::<char>::empty()).drop_last() =~= p);
            assert(join_lines(pieces(s)) =~= s);
            if !s.contains('\r') {
                assert forall|i: int| 0 <= i < pieces(s).len() implies !(#[trigger] pieces(s)[i]).contains('\r') by {
                    if i < p.len() {
                        assert(pieces(s)[i] == p[i]);
                    }
                }
            }
        } else {
            lemma_join_extend_last(p, s.last());
            assert(t.push(s.last()) =~= s);
            if !s.contains('\r') {
                assert forall|i: int| 0 <= i < pieces(s).len() implies !(#[trigger] pieces(s)[i]).contains('\r') by {
                    if i < p.len() - 1 {
                        assert(pieces(s)[i] == p[i]);
                    } else {
                        let l = pieces(s)[i];
                        assert(l == p.last().push(s.last()));
                        if l.contains('\r') {
                            let j = choose|j: int| 0 <= j < l.len() && l[j] == '\r';
                            if j < p.last().len() {
                                assert(p.last()[j] == '\r');
                                assert(p[p.len() - 1].contains('\r'));
                            } else {
                                assert(s[s.len() - 1] == '\r');
                            }
                        }
                    }
                }
            }
        }
    }
}

/// Taking every line of a text without carriage returns gives the text back,
/// less a final newline.
pub proof fn lemma_full_range_keeps_text(t: Seq<char>)
    requires
        !t.contains('\r'),
    ensures
        lines_in_range(t, LineRange::Full) == (if t.len() > 0 && t.last() == '\n' { t.drop_last() } else { t }),
{
    lemma_pieces_join(t);
    let p = pieces(t);
    let done = p.drop_last().map_values(|l: Seq<char>| strip_cr(l));
    assert(done =~= p.drop_last()) by {
        assert forall|i: int| 0 <= i < done.len() implies done[i] == p.drop_last()[i] by {
            assert(p.drop_last()[i] == p[i]);
            assert(!p[i].contains('\r'));
            if p[i].len() > 0 && p[i].last() == '\r' {
                assert(p[i][p[i].len() - 1] == '\r');
            }
        }
    }
    let ls = lines_of(t);
    assert(select_lines(ls, LineRange::Full) =~= ls);
    if p.last().len() == 0 {
        if t.len() > 0 {
            assert(p.len() >= 2) by {
                if p.len() == 1 {
                    assert(join_lines(p) == p[0]);
                }
            }
            assert(join_lines(p) == join_lines(p.drop_last()) + seq!['\n'] + p.last());
            assert(t.drop_last() =~= join_lines(p.drop_last()));
        } else {
            assert(ls.len() == 0);
        }
    } else {
        assert(done.push(p.last()) =~= p);
    }
}

/// A bounded range whose start is not below its end selects nothing.
pub proof fn lemma_inverted_range_empty(t: Seq<char>, a: usize, b: usize)
    requires
        a >= b,
    ensures
        lines_in_range(t, LineRange::Bounded(a, b)) == Seq::<char>::empty(),
{
    let ls = lines_of(t);
    assert(select_lines(ls, LineRange::Bounded(a, b)).len() == 0);
}

} // verus!
