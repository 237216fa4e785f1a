//! The document model: code as a sequence of operations, and the values that
//! convert into code.

use vstd::prelude::*;
use crate::template::{compile, indent_of, lemma_compile_plain_ok, str_to_code, view_args, Acc, ArgV, BuildArg};
use crate::text::{decimal, decimal_string, lemma_decimal_has_no_newline, signed_decimal, signed_decimal_string};

verus! {

broadcast use vstd::std_specs::vec::group_vec_axioms, vstd::seq::group_seq_axioms;

/// Where a template was written. Two locations are the same token when their
/// `id`s agree; the registry that hands out ids keeps them unique.
#[derive(Clone, Copy, Debug)]
pub struct SourceLoc {
    pub line: u32,
    pub column: u32,
    pub file: &'static str,
    pub id: usize,
}

/// One step in the construction of a chunk of code.
pub enum Op {
    /// A line break.
    Nl,
    /// Text from a template literal, without line breaks.
    Lit(String),
    /// Text produced at run time, without line breaks.
    Blob(String),
    /// An embedded chunk of code.
    Inner(Vec<Op>),
    /// A repeat of the `Inner` found this many positions earlier in the same sequence.
    InnerRef(usize),
    /// The code that follows comes from this location.
    Origin(SourceLoc),
}

/// The mathematical value of an `Op`.
pub ghost enum Piece {
    Nl,
    Lit(Seq<char>),
    Blob(Seq<char>),
    Inner(Seq<Piece>),
    InnerRef(nat),
    Origin(SourceLoc),
}

impl Op {
    pub open spec fn view(&self) -> Piece
        decreases self,
    {
        match self {
            Op::Nl => Piece::Nl,
            Op::Lit(s) => Piece::Lit(s@),
            Op::Blob(s) => Piece::Blob(s@),
            Op::Inner(v) => Piece::Inner(view_ops(v@)),
            Op::InnerRef(k) => Piece::InnerRef(*k as nat),
            Op::Origin(l) => Piece::Origin(*l),
        }
    }
}

pub open spec fn view_ops(s: Seq<Op>) -> Seq<Piece>
    decreases s,
{
    Seq::new(s.len(), |i: int| if 0 <= i < s.len() { s[i].view() } else { Piece::Nl })
}

/// Whether, at every depth of `s`, text holds no line break and every back
/// reference names an `Inner` that stands earlier in the same sequence.
pub open spec fn wf_pieces(s: Seq<Piece>) -> bool
    decreases s,
{
    forall|i: int|
        #![trigger s[i]]
        0 <= i < s.len() ==> match s[i] {
            Piece::InnerRef(k) => 1 <= k <= i && s[i - k] is Inner,
            Piece::Inner(inner) => wf_pieces(inner),
            Piece::Lit(t) => !t.contains('\n'),
            Piece::Blob(t) => !t.contains('\n'),
            _ => true,
        }
}

/// A chunk of code: a sequence of operations that renders to text.
pub struct Code {
    pub(crate) ops: Vec<Op>,
}

impl Code {
    pub open(crate) spec fn view(&self) -> Seq<Piece> {
        view_ops(self.ops@)
    }

    pub open(crate) spec fn wf(&self) -> bool {
        wf_pieces(self.view())
    }
}

pub(crate) proof fn lemma_view_push(v: Seq<Op>, op: Op)
    ensures
        view_ops(v.push(op)) == view_ops(v).push(op.view()),
{
    assert(view_ops(v.push(op)) =~= view_ops(v).push(op.view()));
}

pub(crate) proof fn lemma_wf_push(s: Seq<Piece>, p: Piece)
    requires
        wf_pieces(s),
        match p {
            Piece::InnerRef(k) => 1 <= k <= s.len() && s[s.len() - k] is Inner,
            Piece::Inner(x) => wf_pieces(x),
            Piece::Lit(t) => !t.contains('\n'),
            Piece::Blob(t) => !t.contains('\n'),
            _ => true,
        },
    ensures
        wf_pieces(s.push(p)),
{
    let t = s.push(p);
    assert forall|i: int| 0 <= i < t.len() implies match #[trigger] t[i] {
        Piece::InnerRef(k) => 1 <= k <= i && t[i - k] is Inner,
        Piece::Inner(inner) => wf_pieces(inner),
        Piece::Lit(t) => !t.contains('\n'),
        Piece::Blob(t) => !t.contains('\n'),
        _ => true,
    } by {
        if i < s.len() {
            assert(t[i] == s[i]);
        }
    }
}

proof fn lemma_wf_append(a: Seq<Piece>, b: Seq<Piece>)
    requires
        wf_pieces(a),
        wf_pieces(b),
    ensures
        wf_pieces(a + b),
{
    let t = a + b;
    assert forall|i: int| 0 <= i < t.len() implies match #[trigger] t[i] {
        Piece::InnerRef(k) => 1 <= k <= i && t[i - k] is Inner,
        Piece::Inner(inner) => wf_pieces(inner),
        Piece::Lit(t) => !t.contains('\n'),
        Piece::Blob(t) => !t.contains('\n'),
        _ => true,
    } by {
        if i < a.len() {
            assert(t[i] == a[i]);
        } else {
            assert(t[i] == b[i - a.len()]);
            if let Piece::InnerRef(k) = b[i - a.len()] {
                assert(t[i - k] == b[i - a.len() - k]);
            }
        }
    }
}

proof fn lemma_view_append(a: Seq<Op>, b: Seq<Op>)
    ensures
        view_ops(a + b) == view_ops(a) + view_ops(b),
{
    assert(view_ops(a + b) =~= view_ops(a) + view_ops(b));
}

/// Values that convert into code, and so can be substituted into templates.
pub trait CodeArg: Sized {
    /// The operations this value converts into.
    spec fn code_view(&self) -> Seq<Piece>;

    /// Whether this value can be converted.
    spec fn arg_wf(&self) -> bool;

    /// Converts this value into code.
    fn into_code(self) -> (r: Code)
        requires
            self.arg_wf(),
        ensures
            r.view() == self.code_view(),
            r.wf(),
    ;
}

impl CodeArg for Code {
    open spec fn code_view(&self) -> Seq<Piece> {
        self.view()
    }

    open spec fn arg_wf(&self) -> bool {
        self.wf()
    }

    fn into_code(self) -> (r: Code)
        ensures
            r.view() == self.code_view(),
            r.wf(),
    {
        self
    }
}

impl CodeArg for bool {
    open spec fn code_view(&self) -> Seq<Piece> {
        seq![Piece::Lit(if *self { "true"@ } else { "false"@ })]
    }

    open spec fn arg_wf(&self) -> bool {
        true
    }

    fn into_code(self) -> (r: Code) {
        let t = if self {
            String::from_str("true")
        } else {
            String::from_str("false")
        };
        let op = Op::Lit(t);
        let ops = vec![op];
        proof {
            reveal_strlit("true");
            reveal_strlit("false");
            assert(!t@.contains('\n')) by {
                if t@.contains('\n') {
                    let m = choose|m: int| 0 <= m < t@.len() && t@[m] == '\n';
                }
            }
            assert(view_ops(ops@) =~= seq![op.view()]);
            assert(wf_pieces(view_ops(ops@)));
        }
        Code { ops }
    }
}

/// What a run-time string converts into: its lines, dedented and trimmed, as
/// owned text, with nothing substituted.
pub open spec fn str_code(s: Seq<char>) -> Seq<Piece> {
    match compile(s, None, None, true) {
        Ok(acc) => acc.ops,
        Err(_) => Seq::empty(),
    }
}

fn str_into_code(s: &str) -> (r: Code)
    ensures
        r.view() == str_code(s@),
        r.wf(),
{
    proof {
        lemma_compile_plain_ok(Acc { ops: Seq::empty(), args: Seq::empty() }, s@, 0, indent_of(s@), true);
    }
    let mut none: Vec<BuildArg> = Vec::new();
    match str_to_code(s, None, &mut none, false, true) {
        Ok(c) => c,
        Err(_) => Code::new(),
    }
}

impl<'a> CodeArg for &'a str {
    open spec fn code_view(&self) -> Seq<Piece> {
        str_code(self@)
    }

    open spec fn arg_wf(&self) -> bool {
        true
    }

    fn into_code(self) -> (r: Code) {
        str_into_code(self)
    }
}

impl CodeArg for String {
    open spec fn code_view(&self) -> Seq<Piece> {
        str_code(self@)
    }

    open spec fn arg_wf(&self) -> bool {
        true
    }

    fn into_code(self) -> (r: Code) {
        str_into_code(self.as_str())
    }
}

impl Code {
    /// Code with no operations.
    pub fn new() -> (r: Code)
        ensures
            r.view() == Seq::<Piece>::empty(),
            r.wf(),
    {
        let ops: Vec<Op> = Vec::new();
        assert(view_ops(ops@) =~= Seq::<Piece>::empty());
        Code { ops }
    }

    /// Appends the code that `v` converts into.
    pub fn push<T: CodeArg>(&mut self, v: T)
        requires
            old(self).wf(),
            v.arg_wf(),
        ensures
            final(self).view() == old(self).view() + v.code_view(),
            final(self).wf(),
    {
        let mut c = v.into_code();
        let ghost a = self.ops@;
        let ghost b = c.ops@;
        self.ops.append(&mut c.ops);
        proof {
            lemma_view_append(a, b);
            lemma_wf_append(view_ops(a), view_ops(b));
        }
    }

    /// Compiles the template `tmpl`, written at `loc`, substituting each
    /// `$name` with the argument of that name: its code at the first use, a
    /// back reference to it at each later one. Fails with the first
    /// placeholder name that no argument carries.
    pub fn build(tmpl: &str, loc: SourceLoc, args: Vec<BuildArg>) -> (r: Result<Code, String>)
        requires
            forall|j: int| 0 <= j < args@.len() ==> (#[trigger] args@[j]).wf(),
        ensures
            match compile(tmpl@, Some(loc), Some(view_args(args@)), false) {
                Ok(acc) => r matches Ok(c) && c.view() == acc.ops && c.wf(),
                Err(name) => r matches Err(n) && n@ == name,
            },
    {
        let mut args = args;
        str_to_code(tmpl, Some(loc), &mut args, true, false)
    }

    /// Joins the code of each item, in order; no items give empty code.
    pub fn from_seq<T: CodeArg>(items: Vec<T>) -> (r: Code)
        requires
            forall|j: int| 0 <= j < items@.len() ==> (#[trigger] items@[j]).arg_wf(),
        ensures
            r.view() == concat_code(items@),
            r.wf(),
    {
        let mut items = items;
        let ghost all = items@;
        let total = items.len();
        let mut c = Code::new();
        let mut k: usize = 0;
        while items.len() > 0
            invariant
                items@ == all.subrange(k as int, all.len() as int),
                k <= all.len(),
                total == all.len(),
                forall|j: int| 0 <= j < all.len() ==> (#[trigger] all[j]).arg_wf(),
                c.wf(),
                c.view() == concat_code(all.subrange(0, k as int)),
            decreases items@.len(),
        {
            let x = items.remove(0);
            proof {
                assert(all.subrange(0, k + 1).drop_last() =~= all.subrange(0, k as int));
                assert(x == all[k as int]);
            }
            c.push(x);
            k += 1;
        }
        assert(all.subrange(0, all.len() as int) =~= all);
        c
    }
}

/// The operations of each item's code, joined in order.
pub open spec fn concat_code<T: CodeArg>(items: Seq<T>) -> Seq<Piece>
    decreases items.len(),
{
    if items.len() == 0 {
        Seq::empty()
    } else {
        concat_code(items.drop_last()) + items.last().code_view()
    }
}

/// Code holding `t` as one piece of owned text.
fn blob_code(t: String) -> (r: Code)
    requires
        !t@.contains('\n'),
    ensures
        r.view() == seq![Piece::Blob(t@)],
        r.wf(),
{
    let op = Op::Blob(t);
    let ops = vec![op];
    proof {
        assert(view_ops(ops@) =~= seq![op.view()]);
        assert(wf_pieces(view_ops(ops@)));
    }
    Code { ops }
}

impl CodeArg for u8 {
    open spec fn code_view(&self) -> Seq<Piece> {
        seq![Piece::Blob(decimal(*self as nat))]
    }

    open spec fn arg_wf(&self) -> bool {
        true
    }

    fn into_code(self) -> (r: Code) {
        let t = decimal_string(self as u64);
        proof {
            lemma_decimal_has_no_newline(self as nat);
        }
        blob_code(t)
    }
}

impl CodeArg for u16 {
    open spec fn code_view(&self) -> Seq<Piece> {
        seq![Piece::Blob(decimal(*self as nat))]
    }

    open spec fn arg_wf(&self) -> bool {
        true
    }

    fn into_code(self) -> (r: Code) {
        let t = decimal_string(self as u64);
        proof {
            lemma_decimal_has_no_newline(self as nat);
        }
        blob_code(t)
    }
}

impl CodeArg for u32 {
    open spec fn code_view(&self) -> Seq<Piece> {
        seq![Piece::Blob(decimal(*self as nat))]
    }

    open spec fn arg_wf(&self) -> bool {
        true
    }

    fn into_code(self) -> (r: Code) {
        let t = decimal_string(self as u64);
        proof {
            lemma_decimal_has_no_newline(self as nat);
        }
        blob_code(t)
    }
}

impl CodeArg for u64 {
    open spec fn code_view(&self) -> Seq<Piece> {
        seq![Piece::Blob(decimal(*self as nat))]
    }

    open spec fn arg_wf(&self) -> bool {
        true
    }

    fn into_code(self) -> (r: Code) {
        let t = decimal_string(self as u64);
        proof {
            lemma_decimal_has_no_newline(self as nat);
        }
        blob_code(t)
    }
}

impl CodeArg for i8 {
    open spec fn code_view(&self) -> Seq<Piece> {
        seq![Piece::Blob(signed_decimal(*self as int))]
    }

    open spec fn arg_wf(&self) -> bool {
        true
    }

    fn into_code(self) -> (r: Code) {
        let t = signed_decimal_string(self as i64);
        proof {
            lemma_decimal_has_no_newline(if self < 0 { (-(self as int)) as nat } else { self as nat });
            assert(!seq!['-'].contains('\n')) by {
                if seq!['-'].contains('\n') {
                    let m = choose|m: int| 0 <= m < 1 && seq!['-'][m] == '\n';
                }
            }
            assert(!t@.contains('\n')) by {
                if t@.contains('\n') {
                    let m = choose|m: int| 0 <= m < t@.len() && t@[m] == '\n';
                    if self < 0 {
                        if m > 0 {
                            assert(t@[m] == decimal((-(self as int)) as nat)[m - 1]);
                        }
                    } else {
                        assert(decimal(self as nat)[m] == '\n');
                    }
                }
            }
        }
        blob_code(t)
    }
}

impl CodeArg for i16 {
    open spec fn code_view(&self) -> Seq<Piece> {
        seq![Piece::Blob(signed_decimal(*self as int))]
    }

    open spec fn arg_wf(&self) -> bool {
        true
    }

    fn into_code(self) -> (r: Code) {
        let t = signed_decimal_string(self as i64);
        proof {
            lemma_decimal_has_no_newline(if self < 0 { (-(self as int)) as nat } else { self as nat });
            assert(!seq!['-'].contains('\n')) by {
                if seq!['-'].contains('\n') {
                    let m = choose|m: int| 0 <= m < 1 && seq!['-'][m] == '\n';
                }
            }
            assert(!t@.contains('\n')) by {
                if t@.contains('\n') {
                    let m = choose|m: int| 0 <= m < t@.len() && t@[m] == '\n';
                    if self < 0 {
                        if m > 0 {
                            assert(t@[m] == decimal((-(self as int)) as nat)[m - 1]);
                        }
                    } else {
                        assert(decimal(self as nat)[m] == '\n');
                    }
                }
            }
        }
        blob_code(t)
    }
}

impl CodeArg for i32 {
    open spec fn code_view(&self) -> Seq<Piece> {
        seq![Piece::Blob(signed_decimal(*self as int))]
    }

    open spec fn arg_wf(&self) -> bool {
        true
    }

    fn into_code(self) -> (r: Code) {
        let t = signed_decimal_string(self as i64);
        proof {
            lemma_decimal_has_no_newline(if self < 0 { (-(self as int)) as nat } else { self as nat });
            assert(!seq!['-'].contains('\n')) by {
                if seq!['-'].contains('\n') {
                    let m = choose|m: int| 0 <= m < 1 && seq!['-'][m] == '\n';
                }
            }
            assert(!t@.contains('\n')) by {
                if t@.contains('\n') {
                    let m = choose|m: int| 0 <= m < t@.len() && t@[m] == '\n';
                    if self < 0 {
                        if m > 0 {
                            assert(t@[m] == decimal((-(self as int)) as nat)[m - 1]);
                        }
                    } else {
                        assert(decimal(self as nat)[m] == '\n');
                    }
                }
            }
        }
        blob_code(t)
    }
}

impl CodeArg for i64 {
    open spec fn code_view(&self) -> Seq<Piece> {
        seq![Piece::Blob(signed_decimal(*self as int))]
    }

    open spec fn arg_wf(&self) -> bool {
        true
    }

    fn into_code(self) -> (r: Code) {
        let t = signed_decimal_string(self as i64);
        proof {
            lemma_decimal_has_no_newline(if self < 0 { (-(self as int)) as nat } else { self as nat });
            assert(!seq!['-'].contains('\n')) by {
                if seq!['-'].contains('\n') {
                    let m = choose|m: int| 0 <= m < 1 && seq!['-'][m] == '\n';
                }
            }
            assert(!t@.contains('\n')) by {
                if t@.contains('\n') {
                    let m = choose|m: int| 0 <= m < t@.len() && t@[m] == '\n';
                    if self < 0 {
                        if m > 0 {
                            assert(t@[m] == decimal((-(self as int)) as nat)[m - 1]);
                        }
                    } else {
                        assert(decimal(self as nat)[m] == '\n');
                    }
                }
            }
        }
        blob_code(t)
    }
}

} // verus!
