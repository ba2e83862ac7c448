//! The substitution driver. Expanding a document is a machine that the caller
//! runs: it asks for a fetch whenever it meets a `webinclude` directive, is
//! handed back the body (or the failure), and finally gives the expanded text.
//! Fetched text is expanded in turn, down to a fixed depth.

use vstd::prelude::*;
use crate::lines::{anchored_text, lines_in_range, take_anchored_lines, take_lines};
use crate::links::{find_links, link_views, links_from, links_of, call_at, escaped_end, Link, LinkView};
use crate::span::{DirectiveView, Directive, Selection, Span};
use crate::text::{chars_of, string_of};

verus! {

/// How many times fetched text is expanded again, below the document itself.
pub const MAX_LINK_NESTED_DEPTH: usize = 10;

/// Tokens lie inside the text, each with its own text, in order and apart.
pub open spec fn placed(s: Seq<char>, ls: Seq<LinkView>) -> bool {
    &&& forall|i: int| 0 <= i < ls.len() ==> 0 <= #[trigger] ls[i].start < ls[i].end <= s.len()
    &&& forall|i: int| 0 <= i < ls.len() ==> #[trigger] ls[i].text == s.subrange(ls[i].start, ls[i].end)
    &&& forall|i: int| 0 <= i < ls.len() - 1 ==> #[trigger] ls[i].end <= ls[i + 1].start
}

proof fn lemma_cons_placed(s: Seq<char>, h: LinkView, t: Seq<LinkView>)
    requires
        0 <= h.start < h.end <= s.len(),
        h.text == s.subrange(h.start, h.end),
        placed(s, t),
        forall|i: int| 0 <= i < t.len() ==> h.end <= #[trigger] t[i].start,
    ensures
        placed(s, seq![h] + t),
{
    let ls = seq![h] + t;
    assert forall|i: int| 0 <= i < ls.len() - 1 implies #[trigger] ls[i].end <= ls[i + 1].start by {
        if i > 0 {
            assert(ls[i] == t[i - 1] && ls[i + 1] == t[i]);
        } else {
            assert(ls[1] == t[0]);
        }
    }
    assert forall|i: int| 0 <= i < ls.len() implies 0 <= #[trigger] ls[i].start < ls[i].end <= s.len() by {
        if i > 0 {
            assert(ls[i] == t[i - 1]);
        }
    }
    assert forall|i: int| 0 <= i < ls.len() implies #[trigger] ls[i].text == s.subrange(ls[i].start, ls[i].end) by {
        if i > 0 {
            assert(ls[i] == t[i - 1]);
        }
    }
}

/// The tokens found from `p` on lie at or after `p`, inside the text, in order.
pub proof fn lemma_links_placed(s: Seq<char>, p: int)
    requires
        0 <= p,
    ensures
        placed(s, links_from(s, p)),
        forall|i: int| 0 <= i < links_from(s, p).len() ==> p <= #[trigger] links_from(s, p)[i].start,
    decreases s.len() - p,
{
    if p < 0 || p >= s.len() {
    } else if s[p] == '\\' && escaped_end(s, p) is Some {
        let e = escaped_end(s, p)->0;
        if p < e <= s.len() {
            lemma_links_placed(s, e);
            let h = LinkView { start: p, end: e, directive: DirectiveView::Escaped, text: s.subrange(p, e) };
            lemma_cons_placed(s, h, links_from(s, e));
            let ls = links_from(s, p);
            assert forall|i: int| 0 <= i < ls.len() implies p <= #[trigger] ls[i].start by {
                if i > 0 {
                    assert(ls[i] == links_from(s, e)[i - 1]);
                }
            }
        }
    } else if call_at(s, p) is Some {
        let (ks, ke, a, b, e) = call_at(s, p)->0;
        if p < e <= s.len() {
            lemma_links_placed(s, e);
            let ls = links_from(s, p);
            if s.subrange(ks, ke) == crate::links::webinclude_kind() {
                lemma_cons_placed(s, ls[0], links_from(s, e));
                assert forall|i: int| 0 <= i < ls.len() implies p <= #[trigger] ls[i].start by {
                    if i > 0 {
                        assert(ls[i] == links_from(s, e)[i - 1]);
                    }
                }
            }
        }
    } else {
        lemma_links_placed(s, p + 1);
    }
}

/// The text of `s` from `cursor` on, with tokens `k..` replaced by their
/// results; a token without a result stays as it is.
pub open spec fn splice_from(
    s: Seq<char>,
    ls: Seq<LinkView>,
    rs: Seq<Option<Seq<char>>>,
    k: int,
    cursor: int,
) -> Seq<char>
    decreases ls.len() - k,
{
    if k < 0 || k >= ls.len() {
        s.subrange(cursor, s.len() as int)
    } else {
        let gap = s.subrange(cursor, ls[k].start);
        match rs[k] {
            Some(t) => gap + t + splice_from(s, ls, rs, k + 1, ls[k].end),
            None => gap + splice_from(s, ls, rs, k + 1, ls[k].start),
        }
    }
}

/// The text with each token replaced by its result, or left as it is where it has none.
pub open spec fn spliced(s: Seq<char>, ls: Seq<LinkView>, rs: Seq<Option<Seq<char>>>) -> Seq<char> {
    splice_from(s, ls, rs, 0, 0)
}

pub open spec fn result_views(rs: Seq<Option<String>>) -> Seq<Option<Seq<char>>> {
    Seq::new(rs.len(), |i: int| match rs[i] { Some(t) => Some(t@), None => None })
}

fn push_range(out: &mut Vec<char>, s: &Vec<char>, from: usize, to: usize)
    requires
        from <= to <= s@.len(),
    ensures
        final(out)@ == old(out)@ + s@.subrange(from as int, to as int),
{
    let mut k = from;
    while k < to
        invariant
            from <= k <= to <= s@.len(),
            out@ == old(out)@ + s@.subrange(from as int, k as int),
        decreases to - k,
    {
        out.push(s[k]);
        assert(out@ =~= old(out)@ + s@.subrange(from as int, k as int + 1));
        k = k + 1;
    }
}

/// Replaces each token of `text` by its result; a token whose result is
/// `None` stays in the output as it is.
pub fn splice(text: &str, links: &Vec<Link>, results: &Vec<Option<String>>) -> (r: String)
    requires
        link_views(links@) == links_of(text@),
        results@.len() == links@.len(),
    ensures
        r@ == spliced(text@, links_of(text@), result_views(results@)),
{
    proof { lemma_links_placed(text@, 0); }
    let s = chars_of(text);
    let ghost ls = links_of(text@);
    let ghost rs = result_views(results@);
    let mut out: Vec<char> = Vec::new();
    let mut cursor: usize = 0;
    let mut k: usize = 0;
    while k < links.len()
        invariant
            s@ == text@,
            ls == link_views(links@),
            rs == result_views(results@),
            results@.len() == links@.len(),
            placed(s@, ls),
            k <= links@.len(),
            cursor <= s@.len(),
            k < links@.len() ==> cursor <= ls[k as int].start,
            out@ + splice_from(s@, ls, rs, k as int, cursor as int) == spliced(s@, ls, rs),
        decreases links@.len() - k,
    {
        let link = &links[k];
        assert(ls[k as int] == link@);
        let ghost before = out@;
        let old_cursor = cursor;
        push_range(&mut out, &s, cursor, link.start_index);
        match &results[k] {
            Some(t) => {
                let tc = chars_of(t.as_str());
                let mut j: usize = 0;
                let ghost mid = out@;
                while j < tc.len()
                    invariant
                        j <= tc@.len(),
                        out@ == mid + tc@.take(j as int),
                    decreases tc@.len() - j,
                {
                    out.push(tc[j]);
                    assert(out@ =~= mid + tc@.take(j as int + 1));
                    j = j + 1;
                }
                assert(tc@.take(j as int) =~= tc@);
                assert(rs[k as int] == Some(t@));
                cursor = link.end_index;
            },
            None => {
                assert(rs[k as int] is None);
                cursor = link.start_index;
            },
        }
        assert(out@ + splice_from(s@, ls, rs, k as int + 1, cursor as int)
            =~= before + splice_from(s@, ls, rs, k as int, old_cursor as int));
        k = k + 1;
    }
    push_range(&mut out, &s, cursor, s.len());
    assert(out@ =~= spliced(s@, ls, rs));
    string_of(&out)
}

/// The part of a fetched text that a span selects.
pub open spec fn selected(body: Seq<char>, span: Span) -> Seq<char> {
    match span {
        Span::Lines(r) => lines_in_range(body, r),
        Span::Anchor(a) => anchored_text(body, a),
    }
}

/// Takes the part of a fetched text that a selection names.
pub fn select_text(body: &str, selection: &Selection) -> (r: String)
    ensures
        r@ == selected(body@, selection@),
{
    match selection {
        Selection::Range(range) => take_lines(body, *range),
        Selection::Anchor(anchor) => take_anchored_lines(body, anchor.as_str()),
    }
}

/// One text being expanded, as a mathematical value: its tokens and the
/// results gathered so far for the first of them.
pub struct FrameView {
    pub text: Seq<char>,
    pub links: Seq<LinkView>,
    pub results: Seq<Option<Seq<char>>>,
    pub depth: int,
}

/// One text being expanded.
pub struct Frame {
    text: String,
    links: Vec<Link>,
    results: Vec<Option<String>>,
    depth: usize,
}

impl View for Frame {
    type V = FrameView;

    closed spec fn view(&self) -> FrameView {
        FrameView {
            text: self.text@,
            links: link_views(self.links@),
            results: result_views(self.results@),
            depth: self.depth as int,
        }
    }
}

/// A fresh frame for `text` at `depth`.
pub open spec fn frame_of(text: Seq<char>, depth: int) -> FrameView {
    FrameView { text, links: links_of(text), results: Seq::empty(), depth }
}

pub open spec fn with_result(f: FrameView, r: Option<Seq<char>>) -> FrameView {
    FrameView { results: f.results.push(r), ..f }
}

/// The frame waits for the body of its next token, a `webinclude` directive.
pub open spec fn awaits_fetch(f: FrameView) -> bool {
    f.results.len() < f.links.len() && f.links[f.results.len() as int].directive is WebInclude
}

/// A stack of frames: frame `i` expands text fetched `i` levels below the
/// document, every frame but the top waits for the one above it, and no
/// frame lies deeper than the bound.
pub open spec fn frames_wf(fs: Seq<FrameView>) -> bool {
    &&& fs.len() <= MAX_LINK_NESTED_DEPTH + 1
    &&& forall|i: int| 0 <= i < fs.len() ==> (#[trigger] fs[i]).depth == i
        && fs[i].links == links_of(fs[i].text) && fs[i].results.len() <= fs[i].links.len()
    &&& forall|i: int| 0 <= i < fs.len() - 1 ==> awaits_fetch(#[trigger] fs[i])
}

pub open spec fn remaining(fs: Seq<FrameView>) -> int {
    if fs.len() == 0 {
        0
    } else if fs.last().links.len() > fs.last().results.len() {
        fs.last().links.len() - fs.last().results.len()
    } else {
        0
    }
}

/// Runs the stack until it needs a fetch or the document is done: escaped
/// tokens stand for their text without the escape, tokens with a malformed
/// URL stay as they are, and a finished frame hands its spliced text to the
/// frame below it. Gives the new stack, and the expanded document once the
/// last frame is done.
pub open spec fn settle(fs: Seq<FrameView>) -> (Seq<FrameView>, Option<Seq<char>>)
    decreases fs.len(), remaining(fs),
{
    if fs.len() == 0 {
        (fs, None)
    } else {
        let top = fs.last();
        let k = top.results.len() as int;
        if k < top.links.len() {
            match top.links[k].directive {
                DirectiveView::Escaped => settle(
                    fs.drop_last().push(with_result(top, Some(top.links[k].text.drop_first()))),
                ),
                DirectiveView::MalformedUrl(_) => settle(fs.drop_last().push(with_result(top, None))),
                DirectiveView::WebInclude(_, _) => (fs, None),
            }
        } else {
            let out = spliced(top.text, top.links, top.results);
            if fs.len() == 1 {
                (Seq::empty(), Some(out))
            } else {
                let rest = fs.drop_last();
                settle(rest.drop_last().push(with_result(rest.last(), Some(out))))
            }
        }
    }
}

/// The texts of the tokens with a malformed URL that `settle` passes, in
/// document order.
pub open spec fn malformed_passed(fs: Seq<FrameView>) -> Seq<Seq<char>>
    decreases fs.len(), remaining(fs),
{
    if fs.len() == 0 {
        Seq::empty()
    } else {
        let top = fs.last();
        let k = top.results.len() as int;
        if k < top.links.len() {
            match top.links[k].directive {
                DirectiveView::Escaped => malformed_passed(
                    fs.drop_last().push(with_result(top, Some(top.links[k].text.drop_first()))),
                ),
                DirectiveView::MalformedUrl(_) => seq![top.links[k].text]
                    + malformed_passed(fs.drop_last().push(with_result(top, None))),
                DirectiveView::WebInclude(_, _) => Seq::empty(),
            }
        } else if fs.len() == 1 {
            Seq::empty()
        } else {
            let out = spliced(top.text, top.links, top.results);
            let rest = fs.drop_last();
            malformed_passed(rest.drop_last().push(with_result(rest.last(), Some(out))))
        }
    }
}

/// The stack after the pending fetch of the top frame gave `body`, or failed.
/// A failed token keeps its text. A fetched text is expanded in a new frame
/// one level deeper, unless the top frame lies at the bound: then the
/// selected text is taken as it is.
pub open spec fn fed(fs: Seq<FrameView>, body: Option<Seq<char>>) -> Seq<FrameView> {
    let top = fs.last();
    let k = top.results.len() as int;
    match body {
        None => fs.drop_last().push(with_result(top, None)),
        Some(b) => match top.links[k].directive {
            DirectiveView::WebInclude(_, span) => if top.depth < MAX_LINK_NESTED_DEPTH {
                fs.push(frame_of(selected(b, span), top.depth + 1))
            } else {
                fs.drop_last().push(with_result(top, Some(selected(b, span))))
            },
            _ => fs,
        },
    }
}

/// What the caller of the machine is asked to do next.
#[derive(Debug)]
pub enum Action {
    /// Fetch `url` and hand the body back with `resume`; `link_text` is the
    /// token that asked for it.
    Fetch { url: String, link_text: String },
    /// The document is expanded.
    Finished(String),
}

/// The expansion of one document.
pub struct Expansion {
    frames: Vec<Frame>,
    malformed: Vec<String>,
}

impl View for Expansion {
    type V = Seq<FrameView>;

    closed spec fn view(&self) -> Seq<FrameView> {
        Seq::new(self.frames@.len(), |i: int| self.frames@[i]@)
    }
}

impl Frame {
    fn new(text: String, depth: usize) -> (r: Frame)
        ensures
            r@ == frame_of(text@, depth as int),
    {
        let links = find_links(text.as_str());
        let r = Frame { text, links, results: Vec::new(), depth };
        assert(r@.results =~= Seq::<Option<Seq<char>>>::empty());
        r
    }
}

impl Expansion {
    /// Whether the stack is well formed.
    pub open spec fn wf(&self) -> bool {
        frames_wf(self@)
    }

    /// The texts of the tokens with a malformed URL passed and not yet handed out.
    pub closed spec fn reported(&self) -> Seq<Seq<char>> {
        Seq::new(self.malformed@.len(), |i: int| self.malformed@[i]@)
    }

    /// Starts the expansion of a document.
    pub fn new(text: &str) -> (r: Expansion)
        ensures
            r@ == seq![frame_of(text@, 0)],
            r.wf(),
            r.reported() == Seq::<Seq<char>>::empty(),
    {
        let f = Frame::new(text.to_owned(), 0);
        let mut frames: Vec<Frame> = Vec::new();
        frames.push(f);
        let r = Expansion { frames, malformed: Vec::new() };
        assert(r@ =~= seq![frame_of(text@, 0)]);
        assert(r.reported() =~= Seq::<Seq<char>>::empty());
        r
    }

    /// Whether the document is expanded.
    pub fn is_finished(&self) -> (r: bool)
        ensures
            r == (self@.len() == 0),
    {
        self.frames.len() == 0
    }

    /// Whether the top frame lies at the depth bound, so that a body handed
    /// back now is taken without being expanded again.
    pub fn at_depth_bound(&self) -> (r: bool)
        requires
            self.wf(),
        ensures
            r == (self@.len() > 0 && self@.last().depth == MAX_LINK_NESTED_DEPTH),
    {
        let n = self.frames.len();
        if n == 0 {
            return false;
        }
        assert(self@.last() == self.frames@[n - 1]@);
        self.frames[n - 1].depth >= MAX_LINK_NESTED_DEPTH
    }

    /// Runs the expansion until it needs a fetch or is finished.
    pub fn next_action(&mut self) -> (r: Action)
        requires
            old(self).wf(),
            old(self)@.len() > 0,
        ensures
            final(self)@ == settle(old(self)@).0,
            final(self).wf(),
            final(self).reported() == old(self).reported() + malformed_passed(old(self)@),
            match r {
                Action::Finished(out) => settle(old(self)@).1 == Some(out@) && final(self)@.len() == 0,
                Action::Fetch { url, link_text } => {
                    let top = final(self)@.last();
                    let link = top.links[top.results.len() as int];
                    &&& settle(old(self)@).1 is None
                    &&& final(self)@.len() > 0
                    &&& awaits_fetch(top)
                    &&& link.directive matches DirectiveView::WebInclude(u, _) && u == url@
                    &&& link.text == link_text@
                },
            },
    {
        loop
            invariant
                self.wf(),
                self@.len() > 0,
                settle(self@) == settle(old(self)@),
                self.reported() + malformed_passed(self@) == old(self).reported() + malformed_passed(old(self)@),
            decreases self@.len(), remaining(self@),
        {
            let n = self.frames.len();
            let ghost fs = self@;
            assert(fs.last() == self.frames@[n - 1]@);
            let k = self.frames[n - 1].results.len();
            if k < self.frames[n - 1].links.len() {
                let link = &self.frames[n - 1].links[k];
                assert(link@ == fs.last().links[k as int]);
                match &link.directive {
                    Directive::Escaped => {
                        proof { lemma_links_placed(fs.last().text, 0); }
                        let chars = chars_of(link.link_text.as_str());
                        let rest = string_of(&crate::span::sub_chars(&chars, 1, chars.len()));
                        assert(rest@ =~= link@.text.drop_first());
                        let mut top = self.frames.pop().unwrap();
                        top.results.push(Some(rest));
                        assert(top@.results =~= fs.last().results.push(Some(rest@)));
                        self.frames.push(top);
                        assert(self@ =~= fs.drop_last().push(with_result(fs.last(), Some(rest@))));
                    },
                    Directive::MalformedUrl { .. } => {
                        let ghost before = self.reported();
                        self.malformed.push(link.link_text.clone());
                        assert(self.reported() =~= before.push(link@.text));
                        let mut top = self.frames.pop().unwrap();
                        top.results.push(None);
                        assert(top@.results =~= fs.last().results.push(None));
                        self.frames.push(top);
                        assert(self@ =~= fs.drop_last().push(with_result(fs.last(), None)));
                        assert(before + malformed_passed(fs) =~= self.reported() + malformed_passed(self@));
                    },
                    Directive::WebInclude { url, .. } => {
                        assert(self.reported() + malformed_passed(self@) =~= self.reported());
                        return Action::Fetch { url: url.clone(), link_text: link.link_text.clone() };
                    },
                }
            } else {
                let top = self.frames.pop().unwrap();
                assert(top@ == fs.last());
                let out = splice(top.text.as_str(), &top.links, &top.results);
                if self.frames.len() == 0 {
                    assert(self.reported() + malformed_passed(fs) =~= self.reported());
                    return Action::Finished(out);
                }
                let mut parent = self.frames.pop().unwrap();
                assert(parent@ == fs.drop_last().last());
                parent.results.push(Some(out));
                assert(parent@.results =~= fs.drop_last().last().results.push(Some(out@)));
                self.frames.push(parent);
                assert(self@ =~= fs.drop_last().drop_last().push(with_result(fs.drop_last().last(), Some(out@))));
            }
        }
    }

    /// Hands out the texts of the tokens left in place since the last call
    /// because their target is not a well-formed URL.
    pub fn take_malformed(&mut self) -> (r: Vec<String>)
        ensures
            final(self)@ == old(self)@,
            Seq::new(r@.len(), |i: int| r@[i]@) == old(self).reported(),
            final(self).reported() == Seq::<Seq<char>>::empty(),
    {
        let mut r: Vec<String> = Vec::new();
        std::mem::swap(&mut r, &mut self.malformed);
        assert(Seq::new(r@.len(), |i: int| r@[i]@) =~= old(self).reported());
        assert(self.reported() =~= Seq::<Seq<char>>::empty());
        r
    }

    /// Hands back the body of the pending fetch, or `None` where it failed.
    pub fn resume(&mut self, body: Option<String>)
        requires
            old(self).wf(),
            old(self)@.len() > 0,
            awaits_fetch(old(self)@.last()),
        ensures
            final(self)@ == fed(old(self)@, match body { Some(b) => Some(b@), None => None }),
            final(self).wf(),
            final(self).reported() == old(self).reported(),
    {
        let ghost fs = self@;
        let n = self.frames.len();
        assert(fs.last() == self.frames@[n - 1]@);
        let mut top = self.frames.pop().unwrap();
        assert(top@ == fs.last());
        match body {
            None => {
                top.results.push(None);
                assert(top@.results =~= fs.last().results.push(None));
                self.frames.push(top);
                assert(self@ =~= fs.drop_last().push(with_result(fs.last(), None)));
            },
            Some(b) => {
                let k = top.results.len();
                let sel = match &top.links[k].directive {
                    Directive::WebInclude { selection, .. } => select_text(b.as_str(), selection),
                    _ => {
                        self.frames.push(top);
                        assert(self@ =~= fs);
                        return;
                    },
                };
                if top.depth < MAX_LINK_NESTED_DEPTH {
                    let f = Frame::new(sel, top.depth + 1);
                    self.frames.push(top);
                    self.frames.push(f);
                    assert(self@ =~= fs.push(f@));
                } else {
                    let ghost t = sel@;
                    top.results.push(Some(sel));
                    assert(top@.results =~= fs.last().results.push(Some(t)));
                    self.frames.push(top);
                    assert(self@ =~= fs.drop_last().push(with_result(fs.last(), Some(t))));
                }
            },
        }
    }
}

/// A document without tokens comes out of the expansion unchanged.
pub proof fn lemma_plain_document_unchanged(s: Seq<char>)
    requires
        links_of(s).len() == 0,
    ensures
        settle(seq![frame_of(s, 0)]) == (Seq::<FrameView>::empty(), Some(s)),
{
    let fs = seq![frame_of(s, 0)];
    assert(fs.last() == frame_of(s, 0));
    assert(s.subrange(0, s.len() as int) =~= s);
    assert(spliced(s, links_of(s), Seq::empty()) == s);
}

/// A document whose one token is a directive that cannot be fetched comes
/// out of the expansion unchanged.
pub proof fn lemma_failed_directive_leaves_document(s: Seq<char>)
    requires
        links_of(s).len() == 1,
        links_of(s)[0].directive is WebInclude,
    ensures
        settle(seq![frame_of(s, 0)]).1 is None,
        settle(seq![frame_of(s, 0)]).0 == seq![frame_of(s, 0)],
        settle(fed(seq![frame_of(s, 0)], None)) == (Seq::<FrameView>::empty(), Some(s)),
{
    lemma_links_placed(s, 0);
    let ls = links_of(s);
    let f = frame_of(s, 0);
    let fs = seq![f];
    assert(fs.last() == f);
    assert(fs.drop_last() =~= Seq::<FrameView>::empty());
    let g = with_result(f, None);
    assert(fed(fs, None) =~= seq![g]);
    assert(seq![g].last() == g);
    let rs = seq![None::<Seq<char>>];
    assert(g.results =~= rs);
    let a = ls[0].start;
    assert(splice_from(s, ls, rs, 1, a) == s.subrange(a, s.len() as int));
    assert(splice_from(s, ls, rs, 0, 0) == s.subrange(0, a) + splice_from(s, ls, rs, 1, a));
    assert(s.subrange(0, a) + s.subrange(a, s.len() as int) =~= s);
}

/// Results come out in the order of their tokens in the document, each in
/// the place of its token.
pub proof fn lemma_results_in_document_order(s: Seq<char>, a: Seq<char>, b: Seq<char>)
    requires
        links_of(s).len() == 2,
    ensures
        ({
            let ls = links_of(s);
            spliced(s, ls, seq![Some(a), Some(b)])
                == s.subrange(0, ls[0].start) + a + s.subrange(ls[0].end, ls[1].start) + b
                    + s.subrange(ls[1].end, s.len() as int)
        }),
{
    lemma_links_placed(s, 0);
    let ls = links_of(s);
    let rs = seq![Some(a), Some(b)];
    assert(splice_from(s, ls, rs, 2, ls[1].end) == s.subrange(ls[1].end, s.len() as int));
    assert(splice_from(s, ls, rs, 1, ls[0].end) == s.subrange(ls[0].end, ls[1].start) + b
        + splice_from(s, ls, rs, 2, ls[1].end));
    assert(splice_from(s, ls, rs, 0, 0) == s.subrange(0, ls[0].start) + a
        + splice_from(s, ls, rs, 1, ls[0].end));
    assert(spliced(s, ls, rs) =~= s.subrange(0, ls[0].start) + a + s.subrange(ls[0].end, ls[1].start) + b
        + s.subrange(ls[1].end, s.len() as int));
}

/// The stack of an expansion never holds more frames than the bound allows,
/// and a text fetched at the deepest level is taken as it is, without a frame
/// of its own.
pub proof fn lemma_depth_bounded(fs: Seq<FrameView>, body: Seq<char>)
    requires
        frames_wf(fs),
        fs.len() > 0,
        awaits_fetch(fs.last()),
        fs.last().depth == MAX_LINK_NESTED_DEPTH,
    ensures
        fs.len() == MAX_LINK_NESTED_DEPTH + 1,
        fed(fs, Some(body)).len() == fs.len(),
        ({
            let top = fs.last();
            top.links[top.results.len() as int].directive matches DirectiveView::WebInclude(_, span)
                && fed(fs, Some(body)).last().results == top.results.push(Some(selected(body, span)))
        }),
{
    assert(fs[fs.len() - 1].depth == fs.len() - 1);
}

/// At the depth bound, a text whose one token is a `webinclude` directive
/// becomes its text with the selected body in place of the token, taken as
/// it is: the body's own tokens are neither expanded nor fetched, and that
/// text is handed to the frame below.
pub proof fn lemma_bound_text_spliced_verbatim(fs: Seq<FrameView>, body: Seq<char>)
    requires
        frames_wf(fs),
        fs.len() > 0,
        fs.last().depth == MAX_LINK_NESTED_DEPTH,
        fs.last().results.len() == 0,
        fs.last().links.len() == 1,
        fs.last().links[0].directive is WebInclude,
    ensures
        ({
            let top = fs.last();
            let ls = top.links;
            let rest = fs.drop_last();
            top.links[0].directive matches DirectiveView::WebInclude(_, span)
                && settle(fed(fs, Some(body))) == settle(rest.drop_last().push(with_result(
                    rest.last(),
                    Some(top.text.subrange(0, ls[0].start) + selected(body, span)
                        + top.text.subrange(ls[0].end, top.text.len() as int)),
                )))
        }),
{
    let top = fs.last();
    assert(fs[fs.len() - 1].depth == fs.len() - 1);
    let ls = top.links;
    let span = match ls[0].directive {
        DirectiveView::WebInclude(_, sp) => sp,
        _ => Span::Lines(crate::lines::LineRange::Full),
    };
    let t = selected(body, span);
    let g = with_result(top, Some(t));
    let next = fed(fs, Some(body));
    assert(next == fs.drop_last().push(g));
    assert(next.last() == g);
    assert(next.drop_last() =~= fs.drop_last());
    let rs = seq![Some(t)];
    assert(g.results =~= rs);
    assert(splice_from(top.text, ls, rs, 1, ls[0].end) == top.text.subrange(ls[0].end, top.text.len() as int));
    assert(spliced(top.text, ls, rs) == top.text.subrange(0, ls[0].start) + t
        + splice_from(top.text, ls, rs, 1, ls[0].end));
}

} // verus!
