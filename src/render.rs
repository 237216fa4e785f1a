use vstd::prelude::*;
use crate::code::{view_ops, Code, Op, Piece};
use crate::text::{blank, chars_of, is_ws, leading_ws, lemma_trim_end_bounds, lemma_ws_run_bounds, trim_end, trim_end_of, ws_run};

verus! {

broadcast use vstd::seq::group_seq_axioms;

/// The most blank lines that may stand between two lines of output.
pub const MAX_CONSECUTIVE_NEWLINES: usize = 2;

/// The renderer's state: the text emitted so far, the line being assembled,
/// the blank lines pending, and how many blank lines may precede the next line.
pub ghost struct Layout {
    pub out: Seq<char>,
    pub curr: Seq<char>,
    pub nls: nat,
    pub max_nls: nat,
}

pub open spec fn spaces(n: nat) -> Seq<char> {
    Seq::new(n, |i: int| ' ')
}

pub open spec fn newlines(n: nat) -> Seq<char> {
    Seq::new(n, |i: int| '\n')
}

pub open spec fn is_closer(c: char) -> bool {
    c == '}' || c == ')' || c == ']'
}

pub open spec fn is_opener(c: char) -> bool {
    c == '{' || c == '(' || c == '['
}

/// Whether the first non-whitespace character of `s` closes a bracket.
pub open spec fn starts_closed(s: Seq<char>) -> bool {
    let k = ws_run(s, 0, s.len() as int);
    k < s.len() && is_closer(s[k as int])
}

/// Whether the last non-whitespace character of `s` opens a bracket.
pub open spec fn ends_open(s: Seq<char>) -> bool {
    let k = trim_end(s, 0, s.len() as int);
    k > 0 && is_opener(s[k - 1])
}

/// Ends the current line: a line holding more than whitespace is emitted,
/// after its pending blank lines (at most one before a closing bracket), and
/// the next line starts with `base` spaces.
pub open spec fn flush(st: Layout, base: nat) -> Layout {
    if blank(st.curr, 0, st.curr.len() as int) {
        Layout { out: st.out, curr: spaces(base), nls: st.nls, max_nls: st.max_nls }
    } else {
        let nls = if starts_closed(st.curr) && st.nls > 1 { 1 } else { st.nls };
        Layout {
            out: st.out + newlines(nls) + st.curr,
            curr: spaces(base),
            nls: 0,
            max_nls: if ends_open(st.curr) { 1 } else { MAX_CONSECUTIVE_NEWLINES as nat },
        }
    }
}

/// A newline operation: flush, then count one more blank line, up to the cap.
pub open spec fn newline(st: Layout, base: nat) -> Layout {
    let f = flush(st, base);
    if f.nls < f.max_nls {
        Layout { out: f.out, curr: f.curr, nls: f.nls + 1, max_nls: f.max_nls }
    } else {
        f
    }
}

/// Runs the operations `ops[i..]`, whose lines start at column `base`. Nested
/// code, and each repeat of it, runs with its lines starting at the column
/// where it was inserted.
pub open spec fn run_from(st: Layout, ops: Seq<Piece>, i: int, base: nat) -> Layout
    decreases ops, ops.len() - i,
{
    if i < 0 || i >= ops.len() {
        st
    } else {
        let next = match ops[i] {
            Piece::Nl => newline(st, base),
            Piece::Lit(t) => Layout { out: st.out, curr: st.curr + t, nls: st.nls, max_nls: st.max_nls },
            Piece::Blob(t) => Layout { out: st.out, curr: st.curr + t, nls: st.nls, max_nls: st.max_nls },
            Piece::Inner(inner) => run_from(st, inner, 0, st.curr.len()),
            Piece::InnerRef(k) => if 1 <= k <= i {
                match ops[i - k] {
                    Piece::Inner(inner) => run_from(st, inner, 0, st.curr.len()),
                    _ => st,
                }
            } else {
                st
            },
            Piece::Origin(_) => st,
        };
        run_from(next, ops, i + 1, base)
    }
}

pub open spec fn initial() -> Layout {
    Layout { out: Seq::empty(), curr: Seq::empty(), nls: 0, max_nls: 0 }
}

/// The text that code renders to.
pub open spec fn render(ops: Seq<Piece>) -> Seq<char> {
    flush(run_from(initial(), ops, 0, 0), 0).out
}

struct State {
    out: String,
    curr: String,
    nls: usize,
    max_nls: usize,
}

impl State {
    spec fn view(&self) -> Layout {
        Layout { out: self.out@, curr: self.curr@, nls: self.nls as nat, max_nls: self.max_nls as nat }
    }

    fn new() -> (r: State)
        ensures
            r.view() == initial(),
    {
        State { out: String::new(), curr: String::new(), nls: 0, max_nls: 0 }
    }

    fn flush(&mut self, base: usize)
        ensures
            final(self).view() == flush(old(self).view(), base as nat),
    {
        let cs = chars_of(self.curr.as_str());
        let len = cs.len();
        let k = leading_ws(&cs, 0, len);
        proof {
            lemma_ws_run_bounds(cs@, 0, len as int);
            if k < len {
                assert(!is_ws(cs@[k as int]));
            }
        }
        let ghost old_st = self.view();
        if k < len {
            assert(!blank(old_st.curr, 0, old_st.curr.len() as int));
            if (cs[k] == '}' || cs[k] == ')' || cs[k] == ']') && self.nls > 1 {
                self.nls = 1;
            }
            let ghost out0 = self.out@;
            let ghost nls0 = self.nls;
            let mut j: usize = 0;
            while j < self.nls
                invariant
                    j <= self.nls,
                    self.nls == nls0,
                    self.curr@ == old_st.curr,
                    self.max_nls == old_st.max_nls,
                    self.out@ == out0 + newlines(j as nat),
                decreases self.nls - j,
            {
                proof {
                    reveal_strlit("\n");
                }
                self.out.append("\n");
                j += 1;
                assert(self.out@ =~= out0 + newlines(j as nat));
            }
            self.nls = 0;
            self.out.append(self.curr.as_str());
            let e = trim_end_of(&cs, 0, len);
            proof {
                lemma_trim_end_bounds(cs@, 0, len as int);
            }
            if e > 0 && (cs[e - 1] == '{' || cs[e - 1] == '(' || cs[e - 1] == '[') {
                self.max_nls = 1;
            } else {
                self.max_nls = MAX_CONSECUTIVE_NEWLINES;
            }
        }
        else {
            assert(blank(old_st.curr, 0, old_st.curr.len() as int));
        }
        self.curr = spaces_string(base);
    }

    fn push_text(&mut self, t: &String)
        ensures
            final(self).view() == (Layout { curr: old(self).curr@ + t@, ..old(self).view() }),
    {
        self.curr.append(t.as_str());
    }

    fn run(&mut self, ops: &Vec<Op>, base: usize)
        ensures
            final(self).view() == run_from(old(self).view(), view_ops(ops@), 0, base as nat),
        decreases ops,
    {
        let ghost v = view_ops(ops@);
        let mut i: usize = 0;
        while i < ops.len()
            invariant
                i <= ops@.len(),
                v == view_ops(ops@),
                run_from(self.view(), v, i as int, base as nat) == run_from(old(self).view(), v, 0, base as nat),
            decreases ops@.len() - i,
        {
            assert(v[i as int] == ops@[i as int].view());
            match &ops[i] {
                Op::Nl => {
                    self.flush(base);
                    if self.nls < self.max_nls {
                        self.nls += 1;
                    }
                },
                Op::Lit(t) => self.push_text(t),
                Op::Blob(t) => self.push_text(t),
                Op::Inner(inner) => {
                    let offset = self.curr.as_str().unicode_len();
                    self.run(inner, offset);
                },
                Op::InnerRef(back) => {
                    let back = *back;
                    if 1 <= back && back <= i {
                        assert(v[i - back] == ops@[i - back].view());
                        match &ops[i - back] {
                            Op::Inner(inner) => {
                                let offset = self.curr.as_str().unicode_len();
                                self.run(inner, offset);
                            },
                            _ => {},
                        }
                    }
                },
                Op::Origin(_) => {},
            }
            i += 1;
        }
    }
}

/// A string of `n` spaces.
pub(crate) fn spaces_string(n: usize) -> (r: String)
    ensures
        r@ == spaces(n as nat),
{
    let mut r = String::new();
    let mut i: usize = 0;
    while i < n
        invariant
            i <= n,
            r@ == spaces(i as nat),
        decreases n - i,
    {
        proof {
            reveal_strlit(" ");
        }
        r.append(" ");
        i += 1;
        assert(r@ =~= spaces(i as nat));
    }
    r
}

impl Code {
    /// Renders this code as text.
    pub fn render(&self) -> (r: String)
        ensures
            r@ == render(self.view()),
    {
        let mut st = State::new();
        st.run(&self.ops, 0);
        st.flush(0);
        st.out
    }
}

} // verus!
