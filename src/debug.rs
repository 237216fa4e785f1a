use vstd::prelude::*;
use crate::code::{view_ops, Code, Op, Piece, SourceLoc};
use crate::colours::{colour_style, paint, painted, slot, Highlight, Registry};
use crate::render::{ends_open, newlines, spaces, starts_closed, spaces_string, MAX_CONSECUTIVE_NEWLINES};
use crate::text::{
    blank, chars_of, decimal, decimal_string, is_ws, leading_ws, lemma_trim_end_bounds, lemma_ws_run_bounds,
    trim_end_of,
};

verus! {

broadcast use vstd::seq::group_seq_axioms;

/// The state of a highlighting render: the plain renderer's state, the style
/// changes recorded on the current line (position and style from there on),
/// the source locations met so far, and the colour registry.
pub ghost struct Marked {
    pub out: Seq<char>,
    pub curr: Seq<char>,
    pub nls: nat,
    pub max_nls: nat,
    pub styles: Seq<(nat, Highlight)>,
    pub seen: Seq<SourceLoc>,
    pub reg: Seq<usize>,
}

pub open spec fn plain_style() -> Highlight {
    Highlight { foreground: None, background: None, bold: false, underline: false }
}

pub open spec fn emphasis(h: Highlight) -> Highlight {
    Highlight { foreground: h.foreground, background: h.background, bold: true, underline: true }
}

/// `curr[c..]` painted piece by piece: up to each recorded position in the
/// style in force before it.
pub open spec fn segments(curr: Seq<char>, styles: Seq<(nat, Highlight)>, j: int, c: nat, style: Highlight) -> Seq<char>
    decreases styles.len() - j,
{
    if j < 0 || j >= styles.len() {
        painted(style, curr.subrange(c as int, curr.len() as int))
    } else {
        painted(style, curr.subrange(c as int, styles[j].0 as int)) + segments(curr, styles, j + 1, styles[j].0, styles[j].1)
    }
}

/// Style changes kept for a new line that starts at column `base`: the first,
/// and the one in force at the end of the line, moved to `base`.
pub open spec fn reset_styles(styles: Seq<(nat, Highlight)>, base: nat) -> Seq<(nat, Highlight)> {
    if styles.len() > 1 {
        seq![styles[0], (base, styles.last().1)]
    } else {
        styles
    }
}

pub open spec fn mflush(st: Marked, base: nat) -> Marked {
    let styles = reset_styles(st.styles, base);
    if blank(st.curr, 0, st.curr.len() as int) {
        Marked { curr: spaces(base), styles, ..st }
    } else {
        let nls = if starts_closed(st.curr) && st.nls > 1 { 1 } else { st.nls };
        Marked {
            out: st.out + newlines(nls) + segments(st.curr, st.styles, 0, 0, plain_style()),
            curr: spaces(base),
            nls: 0,
            max_nls: if ends_open(st.curr) { 1 } else { MAX_CONSECUTIVE_NEWLINES as nat },
            styles,
            ..st
        }
    }
}

pub open spec fn mnewline(st: Marked, base: nat) -> Marked {
    let f = mflush(st, base);
    if f.nls < f.max_nls {
        Marked { nls: f.nls + 1, ..f }
    } else {
        f
    }
}

pub open spec fn has_id(seen: Seq<SourceLoc>, id: usize) -> bool {
    exists|k: int| 0 <= k < seen.len() && (#[trigger] seen[k]).id == id
}

pub open spec fn assign(reg: Seq<usize>, id: usize) -> Seq<usize> {
    if reg.contains(id) {
        reg
    } else {
        reg.push(id)
    }
}

/// An origin marker: from here on the text shows the location's colour.
pub open spec fn mark(st: Marked, l: SourceLoc) -> Marked {
    let reg = assign(st.reg, l.id);
    Marked {
        styles: st.styles.push((st.curr.len(), colour_style(slot(reg, l.id)))),
        seen: if has_id(st.seen, l.id) { st.seen } else { st.seen.push(l) },
        reg,
        ..st
    }
}

pub open spec fn last_style(st: Marked) -> Highlight {
    if st.styles.len() > 0 {
        st.styles.last().1
    } else {
        plain_style()
    }
}

/// Runs `ops` as nested code: emphasised from the start, with the style in
/// force before it restored at the end.
pub open spec fn mrun(st: Marked, ops: Seq<Piece>, base: nat) -> Marked
    decreases ops, ops.len() + 1,
{
    let restore = last_style(st);
    let st1 = Marked { styles: st.styles.push((st.curr.len(), emphasis(restore))), ..st };
    let st2 = mrun_from(st1, ops, 0, base);
    Marked { styles: st2.styles.push((st2.curr.len(), restore)), ..st2 }
}

pub open spec fn mrun_from(st: Marked, ops: Seq<Piece>, i: int, base: nat) -> Marked
    decreases ops, ops.len() - i,
{
    if i < 0 || i >= ops.len() {
        st
    } else {
        let next = match ops[i] {
            Piece::Nl => mnewline(st, base),
            Piece::Lit(t) => Marked { curr: st.curr + t, ..st },
            Piece::Blob(t) => Marked { curr: st.curr + t, ..st },
            Piece::Inner(inner) => mrun(st, inner, st.curr.len()),
            Piece::InnerRef(k) => if 1 <= k <= i {
                match ops[i - k] {
                    Piece::Inner(inner) => mrun(st, inner, st.curr.len()),
                    _ => st,
                }
            } else {
                st
            },
            Piece::Origin(l) => mark(st, l),
        };
        mrun_from(next, ops, i + 1, base)
    }
}

/// How a source location reads in the legend: `file:line:column`.
pub open spec fn label(l: SourceLoc) -> Seq<char> {
    l.file@ + seq![':'] + decimal(l.line as nat) + seq![':'] + decimal(l.column as nat)
}

/// One legend entry per location in `seen[k..]`, each in its colour.
pub open spec fn legend(seen: Seq<SourceLoc>, reg: Seq<usize>, k: int) -> Seq<char>
    decreases seen.len() - k,
{
    if k < 0 || k >= seen.len() {
        Seq::empty()
    } else {
        let r2 = assign(reg, seen[k].id);
        "\n    "@ + painted(colour_style(slot(r2, seen[k].id)), label(seen[k])) + legend(seen, r2, k + 1)
    }
}

/// The registry once the legend of `seen[k..]` has been written.
pub open spec fn legend_reg(seen: Seq<SourceLoc>, reg: Seq<usize>, k: int) -> Seq<usize>
    decreases seen.len() - k,
{
    if k < 0 || k >= seen.len() {
        reg
    } else {
        legend_reg(seen, assign(reg, seen[k].id), k + 1)
    }
}

pub open spec fn marked_start(reg: Seq<usize>) -> Marked {
    Marked {
        out: Seq::empty(),
        curr: Seq::empty(),
        nls: 0,
        max_nls: 0,
        styles: seq![(0nat, plain_style())],
        seen: Seq::empty(),
        reg,
    }
}

/// The state once code has run and its last line is flushed.
pub open spec fn marked_end(ops: Seq<Piece>, reg: Seq<usize>) -> Marked {
    mflush(mrun(marked_start(reg), ops, 0), 0)
}

pub open spec fn legend_style() -> Highlight {
    Highlight { foreground: None, background: None, bold: true, underline: false }
}

/// The highlighted text of code, followed by its legend.
pub open spec fn render_marked(ops: Seq<Piece>, reg: Seq<usize>) -> Seq<char> {
    let st = marked_end(ops, reg);
    st.out + painted(legend_style(), "\n  LEGEND"@) + legend(st.seen, st.reg, 0)
}

/// The registry after `render_marked`.
pub open spec fn reg_after_marked(ops: Seq<Piece>, reg: Seq<usize>) -> Seq<usize> {
    let st = marked_end(ops, reg);
    legend_reg(st.seen, st.reg, 0)
}

pub open spec fn style_view(s: Seq<(usize, Highlight)>) -> Seq<(nat, Highlight)> {
    Seq::new(s.len(), |i: int| (s[i].0 as nat, s[i].1))
}

struct Marker {
    out: String,
    curr: String,
    nls: usize,
    max_nls: usize,
    styles: Vec<(usize, Highlight)>,
    seen: Vec<SourceLoc>,
}

impl Marker {
    spec fn view_with(&self, reg: Seq<usize>) -> Marked {
        Marked {
            out: self.out@,
            curr: self.curr@,
            nls: self.nls as nat,
            max_nls: self.max_nls as nat,
            styles: style_view(self.styles@),
            seen: self.seen@,
            reg,
        }
    }

    /// Style positions start at 0, never decrease, and lie within the line.
    #[verifier::opaque]
    spec fn inv(&self) -> bool {
        &&& self.styles@.len() >= 1
        &&& self.styles@[0].0 == 0
        &&& forall|j: int|
            #![trigger self.styles@[j]]
            0 <= j < self.styles@.len() ==> self.styles@[j].0 <= self.curr@.len() && (j > 0
                ==> self.styles@[j - 1].0 <= self.styles@[j].0)
    }

    fn new() -> (r: Marker)
        ensures
            r.inv(),
            forall|reg: Seq<usize>| r.view_with(reg) == marked_start(reg),
    {
        reveal(Marker::inv);
        let r = Marker {
            out: String::new(),
            curr: String::new(),
            nls: 0,
            max_nls: 0,
            styles: vec![(0, Highlight::plain())],
            seen: Vec::new(),
        };
        assert(style_view(r.styles@) =~= seq![(0nat, plain_style())]);
        r
    }

    /// Writes the current line, piece by piece in its styles.
    fn paint_line(&mut self)
        requires
            old(self).inv(),
        ensures
            final(self).out@ == old(self).out@ + segments(old(self).curr@, style_view(old(self).styles@), 0, 0, plain_style()),
            final(self).curr == old(self).curr,
            final(self).styles == old(self).styles,
            final(self).seen == old(self).seen,
            final(self).nls == old(self).nls,
            final(self).max_nls == old(self).max_nls,
    {
        reveal(Marker::inv);
        let ghost sv = style_view(self.styles@);
        let ghost target = self.out@ + segments(self.curr@, sv, 0, 0, plain_style());
        let mut c: usize = 0;
        let mut style = Highlight::plain();
        let mut j: usize = 0;
        let n = self.curr.as_str().unicode_len();
        while j < self.styles.len()
            invariant
                n == self.curr@.len(),
                sv == style_view(self.styles@),
                self.inv(),
                j <= self.styles@.len(),
                j == 0 ==> c == 0 && style == plain_style(),
                j > 0 ==> c == self.styles@[j - 1].0 && style == self.styles@[j - 1].1,
                self.out@ + segments(self.curr@, sv, j as int, c as nat, style) == target,
                self.curr == old(self).curr,
                self.styles == old(self).styles,
                self.seen == old(self).seen,
                self.nls == old(self).nls,
                self.max_nls == old(self).max_nls,
            decreases self.styles@.len() - j,
        {
            reveal(Marker::inv);
            let (idx, st) = self.styles[j];
            assert(self.styles@[j as int].0 <= n);
            let p = paint(style, self.curr.as_str().substring_char(c, idx));
            let ghost out0 = self.out@;
            self.out.append(p.as_str());
            proof {
                assert(sv[j as int] == (idx as nat, st));
                assert(out0 + segments(self.curr@, sv, j as int, c as nat, style) == out0 + (p@ + segments(
                    self.curr@,
                    sv,
                    j + 1,
                    idx as nat,
                    st,
                )));
                assert(out0 + (p@ + segments(self.curr@, sv, j + 1, idx as nat, st)) =~= self.out@ + segments(
                    self.curr@,
                    sv,
                    j + 1,
                    idx as nat,
                    st,
                ));
            }
            c = idx;
            style = st;
            j += 1;
        }
        let p = paint(style, self.curr.as_str().substring_char(c, n));
        self.out.append(p.as_str());
    }

    fn flush(&mut self, base: usize)
        requires
            old(self).inv(),
        ensures
            final(self).inv(),
            forall|reg: Seq<usize>| final(self).view_with(reg) == mflush(old(self).view_with(reg), base as nat),
    {
        reveal(Marker::inv);
        let ghost old_styles = style_view(self.styles@);
        let cs = chars_of(self.curr.as_str());
        let len = cs.len();
        let k = leading_ws(&cs, 0, len);
        proof {
            lemma_ws_run_bounds(cs@, 0, len as int);
            if k < len {
                assert(!is_ws(cs@[k as int]));
                assert(!blank(cs@, 0, len as int));
            }
        }
        let ghost before = *self;
        if k < len {
            if (cs[k] == '}' || cs[k] == ')' || cs[k] == ']') && self.nls > 1 {
                self.nls = 1;
            }
            let ghost out0 = self.out@;
            let ghost nls0 = self.nls;
            let mut j: usize = 0;
            while j < self.nls
                invariant
                    j <= self.nls,
                    self.nls == nls0,
                    self.curr == before.curr,
                    self.styles == before.styles,
                    self.seen == before.seen,
                    self.max_nls == before.max_nls,
                    self.out@ == out0 + newlines(j as nat),
                decreases self.nls - j,
            {
                proof {
                    reveal_strlit("\n");
                }
                self.out.append("\n");
                j += 1;
                assert(self.out@ =~= out0 + newlines(j as nat));
            }
            self.nls = 0;
            self.paint_line();
            let e = trim_end_of(&cs, 0, len);
            proof {
                lemma_trim_end_bounds(cs@, 0, len as int);
            }
            if e > 0 && (cs[e - 1] == '{' || cs[e - 1] == '(' || cs[e - 1] == '[') {
                self.max_nls = 1;
            } else {
                self.max_nls = MAX_CONSECUTIVE_NEWLINES;
            }
        } else {
            assert(blank(before.curr@, 0, before.curr@.len() as int));
        }
        let n = self.styles.len();
        if n > 1 {
            let first = self.styles[0];
            let last = self.styles[n - 1];
            self.styles = vec![first, (base, last.1)];
            assert(style_view(self.styles@) =~= reset_styles(old_styles, base as nat));
        } else {
            assert(style_view(self.styles@) =~= reset_styles(old_styles, base as nat));
        }
        self.curr = spaces_string(base);
    }

    fn has_seen(&self, id: usize) -> (r: bool)
        ensures
            r == has_id(self.seen@, id),
    {
        let mut j: usize = 0;
        while j < self.seen.len()
            invariant
                j <= self.seen@.len(),
                forall|k: int| 0 <= k < j ==> (#[trigger] self.seen@[k]).id != id,
            decreases self.seen@.len() - j,
        {
            if self.seen[j].id == id {
                return true;
            }
            j += 1;
        }
        false
    }

    /// Appends `t` to the current line.
    fn push_text(&mut self, t: &String)
        requires
            old(self).inv(),
        ensures
            final(self).inv(),
            forall|reg: Seq<usize>| final(self).view_with(reg) == (Marked { curr: old(self).curr@ + t@, ..old(self).view_with(reg) }),
    {
        reveal(Marker::inv);
        self.curr.append(t.as_str());
    }

    /// Records that what follows comes from `l`.
    fn mark(&mut self, reg: &mut Registry, l: SourceLoc)
        requires
            old(self).inv(),
            old(reg).wf(),
        ensures
            final(self).inv(),
            final(reg).wf(),
            final(self).view_with(final(reg)@) == mark(old(self).view_with(old(reg)@), l),
    {
        reveal(Marker::inv);
        let clen = self.curr.as_str().unicode_len();
        let h = reg.style_of(l.id);
        let ghost sv = style_view(self.styles@);
        self.styles.push((clen, h));
        assert(style_view(self.styles@) =~= sv.push((clen as nat, h)));
        if !self.has_seen(l.id) {
            self.seen.push(l);
        }
    }

    fn run(&mut self, reg: &mut Registry, ops: &Vec<Op>, base: usize)
        requires
            old(self).inv(),
            old(reg).wf(),
        ensures
            final(self).inv(),
            final(reg).wf(),
            final(self).view_with(final(reg)@) == mrun(old(self).view_with(old(reg)@), view_ops(ops@), base as nat),
        decreases ops,
    {
        let ghost v = view_ops(ops@);
        reveal(Marker::inv);
        let restore = self.styles[self.styles.len() - 1].1;
        let clen = self.curr.as_str().unicode_len();
        let ghost sv = style_view(self.styles@);
        self.styles.push((clen, restore.emphasised()));
        assert(style_view(self.styles@) =~= sv.push((clen as nat, emphasis(restore))));
        let ghost st1 = self.view_with(reg@);
        let mut i: usize = 0;
        while i < ops.len()
            invariant
                i <= ops@.len(),
                v == view_ops(ops@),
                self.inv(),
                reg.wf(),
                mrun_from(self.view_with(reg@), v, i as int, base as nat) == mrun_from(st1, v, 0, base as nat),
            decreases ops@.len() - i,
        {
            assert(v[i as int] == ops@[i as int].view());
            reveal(Marker::inv);
            let ghost pre = self.view_with(reg@);
            match &ops[i] {
                Op::Nl => {
                    self.flush(base);
                    assert(self.view_with(reg@) == mflush(pre, base as nat));
                    if self.nls < self.max_nls {
                        self.nls += 1;
                    }
                    assert(self.view_with(reg@) == mnewline(pre, base as nat));
                },
                Op::Lit(t) => {
                    self.push_text(t);
                    assert(self.view_with(reg@) == (Marked { curr: pre.curr + t@, ..pre }));
                },
                Op::Blob(t) => {
                    self.push_text(t);
                    assert(self.view_with(reg@) == (Marked { curr: pre.curr + t@, ..pre }));
                },
                Op::Inner(inner) => {
                    let offset = self.curr.as_str().unicode_len();
                    self.run(reg, inner, offset);
                },
                Op::InnerRef(back) => {
                    let back = *back;
                    if 1 <= back && back <= i {
                        assert(v[i - back] == ops@[i - back].view());
                        match &ops[i - back] {
                            Op::Inner(inner) => {
                                let offset = self.curr.as_str().unicode_len();
                                self.run(reg, inner, offset);
                            },
                            _ => {},
                        }
                    }
                },
                Op::Origin(l) => self.mark(reg, *l),
            }
            i += 1;
        }
        let clen = self.curr.as_str().unicode_len();
        let ghost sv2 = style_view(self.styles@);
        self.styles.push((clen, restore));
        assert(style_view(self.styles@) =~= sv2.push((clen as nat, restore)));
    }
}

/// `file:line:column` for `l`.
fn label_string(l: &SourceLoc) -> (r: String)
    ensures
        r@ == label(*l),
{
    let mut r = String::from_str(l.file);
    proof {
        reveal_strlit(":");
    }
    r.append(":");
    r.append(decimal_string(l.line as u64).as_str());
    r.append(":");
    r.append(decimal_string(l.column as u64).as_str());
    r
}

impl Code {
    /// Renders this code with each substitution emphasised and the text of
    /// each template shown in its location's colour, followed by a legend of
    /// the locations. Colours come from `reg`, which hands them out in order
    /// of first use.
    pub fn render_marked(&self, reg: &mut Registry) -> (r: String)
        requires
            old(reg).wf(),
        ensures
            final(reg).wf(),
            r@ == render_marked(self.view(), old(reg)@),
            final(reg)@ == reg_after_marked(self.view(), old(reg)@),
    {
        let mut m = Marker::new();
        m.run(reg, &self.ops, 0);
        m.flush(0);
        let ghost st = m.view_with(reg@);
        let mut out = m.out;
        let header = Highlight { foreground: None, background: None, bold: true, underline: false };
        out.append(paint(header, "\n  LEGEND").as_str());
        let ghost out1 = out@;
        let mut k: usize = 0;
        while k < m.seen.len()
            invariant
                k <= m.seen@.len(),
                st.seen == m.seen@,
                reg.wf(),
                out@ + legend(st.seen, reg@, k as int) == out1 + legend(st.seen, st.reg, 0),
                legend_reg(st.seen, reg@, k as int) == legend_reg(st.seen, st.reg, 0),
            decreases m.seen@.len() - k,
        {
            let l = m.seen[k];
            let ghost reg0 = reg@;
            let h = reg.style_of(l.id);
            let ghost out0 = out@;
            out.append("\n    ");
            let p = paint(h, label_string(&l).as_str());
            out.append(p.as_str());
            proof {
                assert(reg@ == assign(reg0, l.id));
                assert(legend(st.seen, reg0, k as int) == "\n    "@ + p@ + legend(st.seen, reg@, k + 1));
                assert(out0 + ("\n    "@ + p@ + legend(st.seen, reg@, k + 1)) =~= out@ + legend(st.seen, reg@, k + 1));
            }
            k += 1;
        }
        out
    }
}

} // verus!
