//! The template compiler: a template and its named arguments become code.

use vstd::prelude::*;
use crate::code::{lemma_view_push, lemma_wf_push, view_ops, wf_pieces, Code, CodeArg, Op, Piece, SourceLoc};
use crate::text::{
    chars_of, count_char, find_char, find_from, is_min_indent, lemma_find_from_bounds, lemma_name_end_bounds,
    lemma_trim_end_bounds, line_end, min_indent, name_end, name_end_of, nonblank_line, trim_end, trim_end_of,
    ws_run,
};

verus! {

broadcast use vstd::std_specs::vec::group_vec_axioms, vstd::seq::group_seq_axioms;

/// A named value offered to a template, consumed by its first use.
pub struct BuildArg {
    pub(crate) name: String,
    pub(crate) code: Option<Code>,
    pub(crate) index: usize,
}

/// The mathematical value of a `BuildArg`.
pub ghost struct ArgV {
    pub name: Seq<char>,
    pub code: Option<Seq<Piece>>,
    pub index: nat,
}

impl BuildArg {
    pub open(crate) spec fn view(&self) -> ArgV {
        ArgV {
            name: self.name@,
            code: match self.code {
                Some(c) => Some(c.view()),
                None => None,
            },
            index: self.index as nat,
        }
    }

    /// Not yet consumed, and holding well-formed code.
    pub open(crate) spec fn wf(&self) -> bool {
        &&& self.code is Some
        &&& self.code->Some_0.wf()
    }
}

pub open spec fn view_args(a: Seq<BuildArg>) -> Seq<ArgV> {
    Seq::new(a.len(), |i: int| a[i].view())
}

/// Output of compilation so far: operations, and the state of the arguments.
pub ghost struct Acc {
    pub ops: Seq<Piece>,
    pub args: Seq<ArgV>,
}

/// A text operation: owned text comes from run-time strings, the rest from templates.
pub open spec fn text_piece(t: Seq<char>, owned: bool) -> Piece {
    if owned {
        Piece::Blob(t)
    } else {
        Piece::Lit(t)
    }
}

/// The position of the first argument called `name` at or after `j`.
pub open spec fn find_arg(args: Seq<ArgV>, name: Seq<char>, j: int) -> Option<int>
    decreases args.len() - j,
{
    if j < 0 || j >= args.len() {
        None
    } else if args[j].name == name {
        Some(j)
    } else {
        find_arg(args, name, j + 1)
    }
}

/// Compiles `s[i..hi]`, one dedented and trimmed template line, substituting
/// each `$name` with its argument; fails with the first name that has none.
pub open spec fn compile_line(acc: Acc, s: Seq<char>, i: int, hi: int, owned: bool) -> Result<Acc, Seq<char>>
    decreases hi - i,
    via compile_line_decreases
{
    if i < 0 || i >= hi || hi > s.len() {
        Ok(acc)
    } else {
        let x = find_from(s, i, hi, '$');
        if x >= hi {
            Ok(Acc { ops: acc.ops.push(text_piece(s.subrange(i, hi), owned)), args: acc.args })
        } else {
            let ne = name_end(s, x + 1, hi);
            let name = s.subrange(x + 1, ne);
            let ops1 = if x > i { acc.ops.push(text_piece(s.subrange(i, x), owned)) } else { acc.ops };
            match find_arg(acc.args, name, 0) {
                None => Err(name),
                Some(j) => {
                    let a = acc.args[j];
                    let next = match a.code {
                        Some(c) => Acc {
                            ops: ops1.push(Piece::Inner(c)),
                            args: acc.args.update(j, ArgV { name: a.name, code: None, index: ops1.len() }),
                        },
                        None => Acc {
                            ops: ops1.push(Piece::InnerRef((ops1.len() - a.index) as nat)),
                            args: acc.args,
                        },
                    };
                    compile_line(next, s, ne, hi, owned)
                },
            }
        }
    }
}

#[via_fn]
proof fn compile_line_decreases(acc: Acc, s: Seq<char>, i: int, hi: int, owned: bool) {
    if !(i < 0 || i >= hi || hi > s.len()) {
        lemma_find_from_bounds(s, i, hi, '$');
        let x = find_from(s, i, hi, '$');
        if x < hi {
            lemma_name_end_bounds(s, x + 1, hi);
        }
    }
}

/// The first and last position of the text of the line starting at `p`, once
/// `indent` characters are stripped (when the line is that long) and trailing
/// whitespace is removed.
pub open spec fn line_text_start(s: Seq<char>, p: int, indent: nat) -> int {
    if line_end(s, p) - p >= indent { p + indent } else { p }
}

pub open spec fn line_text_end(s: Seq<char>, p: int, indent: nat) -> int {
    trim_end(s, line_text_start(s, p, indent), line_end(s, p))
}

/// Compiles the lines of `s` from the one that starts at `p`: a newline
/// operation between lines, the text of each line with its placeholders
/// substituted when `subst` holds, or as one text operation otherwise.
pub open spec fn compile_lines(acc: Acc, s: Seq<char>, p: int, indent: nat, subst: bool, owned: bool) -> Result<Acc, Seq<char>>
    decreases s.len() - p,
    via compile_lines_decreases
{
    if p < 0 || p > s.len() {
        Ok(acc)
    } else {
        let e = line_end(s, p);
        let lo = line_text_start(s, p, indent);
        let hi = line_text_end(s, p, indent);
        let r = if subst {
            compile_line(acc, s, lo, hi, owned)
        } else if lo < hi {
            Ok(Acc { ops: acc.ops.push(text_piece(s.subrange(lo, hi), owned)), args: acc.args })
        } else {
            Ok(acc)
        };
        match r {
            Err(name) => Err(name),
            Ok(a) => if e >= s.len() {
                Ok(a)
            } else {
                compile_lines(Acc { ops: a.ops.push(Piece::Nl), args: a.args }, s, e + 1, indent, subst, owned)
            },
        }
    }
}

#[via_fn]
proof fn compile_lines_decreases(acc: Acc, s: Seq<char>, p: int, indent: nat, subst: bool, owned: bool) {
    if 0 <= p <= s.len() {
        lemma_find_from_bounds(s, p, s.len() as int, '\n');
    }
}

/// The indentation of `s` (see `is_min_indent`).
pub open spec fn indent_of(s: Seq<char>) -> nat {
    choose|r: nat| is_min_indent(s, r)
}

/// What compiling template `s` yields: the operations (after an `Origin` for
/// `loc`, if any) and the final state of the arguments, or the first
/// placeholder name that has no argument. Without arguments nothing is
/// substituted.
pub open spec fn compile(s: Seq<char>, loc: Option<SourceLoc>, args: Option<Seq<ArgV>>, owned: bool) -> Result<Acc, Seq<char>> {
    let ops = match loc {
        Some(l) => seq![Piece::Origin(l)],
        None => Seq::empty(),
    };
    let a = match args {
        Some(a) => a,
        None => Seq::empty(),
    };
    compile_lines(Acc { ops, args: a }, s, 0, indent_of(s), args is Some, owned)
}

pub proof fn lemma_indent_unique(s: Seq<char>, r: nat)
    requires
        is_min_indent(s, r),
    ensures
        indent_of(s) == r,
{
    let c = indent_of(s);
    assert(is_min_indent(s, c));
    if exists|p: int| #[trigger] nonblank_line(s, p) {
        let p = choose|p: int| #[trigger] nonblank_line(s, p);
        let q1 = choose|q: int| #[trigger] nonblank_line(s, q) && r == ws_run(s, q, line_end(s, q));
        let q2 = choose|q: int| #[trigger] nonblank_line(s, q) && c == ws_run(s, q, line_end(s, q));
        assert(c <= r);
        assert(r <= c);
    }
}

/// What compilation keeps true: the operations are well formed, unconsumed
/// arguments hold well-formed code, and each consumed one records where its
/// `Inner` stands.
#[verifier::opaque]
pub open(crate) spec fn compiling(ops: Seq<Op>, args: Seq<BuildArg>) -> bool {
    &&& wf_pieces(view_ops(ops))
    &&& forall|j: int|
        #![trigger args[j]]
        0 <= j < args.len() ==> match args[j].code {
            Some(c) => c.wf(),
            None => args[j].index < ops.len() && view_ops(ops)[args[j].index as int] is Inner,
        }
}

/// A text operation holding `t[lo..hi]`.
fn make_text(t: &str, lo: usize, hi: usize, owned: bool) -> (r: Op)
    requires
        lo <= hi <= t@.len(),
    ensures
        r.view() == text_piece(t@.subrange(lo as int, hi as int), owned),
{
    let seg = String::from_str(t.substring_char(lo, hi));
    if owned {
        Op::Blob(seg)
    } else {
        Op::Lit(seg)
    }
}

/// Finds the next placeholder in `s[i..hi]`: the position of its `$` and the
/// end of its name.
fn subst_point(s: &Vec<char>, i: usize, hi: usize) -> (r: Option<(usize, usize)>)
    requires
        i <= hi <= s@.len(),
    ensures
        find_from(s@, i as int, hi as int, '$') >= hi ==> r is None,
        find_from(s@, i as int, hi as int, '$') < hi ==> r == Some(
            (
                find_from(s@, i as int, hi as int, '$') as usize,
                name_end(s@, find_from(s@, i as int, hi as int, '$') + 1, hi as int) as usize,
            ),
        ),
{
    let x = find_char(s, i, hi, '$');
    proof {
        lemma_find_from_bounds(s@, i as int, hi as int, '$');
    }
    if x < hi {
        let ne = name_end_of(s, x + 1, hi);
        Some((x, ne))
    } else {
        None
    }
}

/// The position of the first argument called `name`.
fn get_by_name(name: &String, args: &Vec<BuildArg>) -> (r: Option<usize>)
    ensures
        r matches Some(j) ==> find_arg(view_args(args@), name@, 0) == Some(j as int),
        r is None ==> find_arg(view_args(args@), name@, 0) is None,
{
    let mut j: usize = 0;
    while j < args.len()
        invariant
            j <= args@.len(),
            find_arg(view_args(args@), name@, j as int) == find_arg(view_args(args@), name@, 0),
        decreases args@.len() - j,
    {
        if args[j].name == *name {
            return Some(j);
        }
        j += 1;
    }
    None
}

/// Appends the use of argument `j`: its code, on first use, or a back reference.
fn use_arg(ops: &mut Vec<Op>, args: &mut Vec<BuildArg>, j: usize)
    requires
        j < old(args)@.len(),
        compiling(old(ops)@, old(args)@),
    ensures
        compiling(final(ops)@, final(args)@),
        ({
            let a = view_args(old(args)@)[j as int];
            let ops0 = view_ops(old(ops)@);
            match a.code {
                Some(c) => view_ops(final(ops)@) == ops0.push(Piece::Inner(c)) && view_args(final(args)@)
                    == view_args(old(args)@).update(j as int, ArgV { name: a.name, code: None, index: ops0.len() }),
                None => view_ops(final(ops)@) == ops0.push(Piece::InnerRef((ops0.len() - a.index) as nat))
                    && view_args(final(args)@) == view_args(old(args)@),
            }
        }),
{
    reveal(compiling);
    let len = ops.len();
    let mut tmp = BuildArg { name: String::new(), code: None, index: len };
    let ghost args0 = args@;
    let ghost ops1 = ops@;
    args.set_and_swap(j, &mut tmp);
    let name = tmp.name;
    match tmp.code {
        Some(c) => {
            let op = Op::Inner(c.ops);
            proof {
                lemma_view_push(ops@, op);
                lemma_wf_push(view_ops(ops@), op.view());
            }
            ops.push(op);
            args.set(j, BuildArg { name, code: None, index: len });
            proof {
                assert(view_args(args@) =~= view_args(args0).update(
                    j as int,
                    ArgV { name: args0[j as int].name@, code: None, index: len as nat },
                ));
                assert forall|k: int| 0 <= k < args@.len() implies match (#[trigger] args@[k]).code {
                    Some(c) => c.wf(),
                    None => args@[k].index < ops@.len() && view_ops(ops@)[args@[k].index as int] is Inner,
                } by {
                    if k != j {
                        assert(args@[k] == args0[k]);
                        if args@[k].code is None {
                            assert(view_ops(ops@)[args@[k].index as int] == view_ops(ops1)[args@[k].index as int]);
                        }
                    }
                }
            }
        },
        None => {
            let idx = tmp.index;
            let op = Op::InnerRef(len - idx);
            proof {
                assert(args0[j as int].index == idx);
                assert(args0[j as int].code is None);
                lemma_view_push(ops@, op);
                lemma_wf_push(view_ops(ops@), op.view());
            }
            ops.push(op);
            args.set(j, BuildArg { name, code: None, index: idx });
            proof {
                assert(args@ =~= args0);
                assert forall|k: int| 0 <= k < args@.len() implies match (#[trigger] args@[k]).code {
                    Some(c) => c.wf(),
                    None => args@[k].index < ops@.len() && view_ops(ops@)[args@[k].index as int] is Inner,
                } by {
                    if args@[k].code is None {
                        assert(view_ops(ops@)[args@[k].index as int] == view_ops(ops1)[args@[k].index as int]);
                    }
                }
            }
        },
    }
}

/// Appends a text operation for `t[lo..hi]`.
fn push_text(ops: &mut Vec<Op>, args: &Vec<BuildArg>, t: &str, lo: usize, hi: usize, owned: bool)
    requires
        lo <= hi <= t@.len(),
        forall|m: int| lo <= m < hi ==> t@[m] != '\n',
        compiling(old(ops)@, args@),
    ensures
        compiling(final(ops)@, args@),
        view_ops(final(ops)@) == view_ops(old(ops)@).push(text_piece(t@.subrange(lo as int, hi as int), owned)),
{
    reveal(compiling);
    let op = make_text(t, lo, hi, owned);
    let ghost ops0 = ops@;
    proof {
        assert(!t@.subrange(lo as int, hi as int).contains('\n')) by {
            if t@.subrange(lo as int, hi as int).contains('\n') {
                let m = choose|m: int| 0 <= m < hi - lo && t@.subrange(lo as int, hi as int)[m] == '\n';
                assert(t@[lo + m] == '\n');
            }
        }
        lemma_view_push(ops@, op);
        lemma_wf_push(view_ops(ops@), op.view());
    }
    ops.push(op);
    assert forall|k: int| 0 <= k < args@.len() && (#[trigger] args@[k]).code is None implies
        view_ops(ops@)[args@[k].index as int] is Inner by {
        assert(view_ops(ops@)[args@[k].index as int] == view_ops(ops0)[args@[k].index as int]);
    }
}

/// Appends a newline operation.
fn push_nl(ops: &mut Vec<Op>, args: &Vec<BuildArg>)
    requires
        compiling(old(ops)@, args@),
    ensures
        compiling(final(ops)@, args@),
        view_ops(final(ops)@) == view_ops(old(ops)@).push(Piece::Nl),
{
    reveal(compiling);
    let ghost ops0 = ops@;
    proof {
        lemma_view_push(ops@, Op::Nl);
        lemma_wf_push(view_ops(ops@), Piece::Nl);
    }
    ops.push(Op::Nl);
    assert forall|k: int| 0 <= k < args@.len() && (#[trigger] args@[k]).code is None implies
        view_ops(ops@)[args@[k].index as int] is Inner by {
        assert(view_ops(ops@)[args@[k].index as int] == view_ops(ops0)[args@[k].index as int]);
    }
}

/// Compiles `s[i..hi]`, one dedented and trimmed line of the template `t`,
/// onto `ops`, substituting placeholders from `args`.
fn subst_line(
    ops: &mut Vec<Op>,
    args: &mut Vec<BuildArg>,
    s: &Vec<char>,
    t: &str,
    i: usize,
    hi: usize,
    owned: bool,
) -> (r: Result<(), String>)
    requires
        s@ == t@,
        i <= hi <= s@.len(),
        forall|m: int| i <= m < hi ==> s@[m] != '\n',
        compiling(old(ops)@, old(args)@),
    ensures
        match compile_line(
            Acc { ops: view_ops(old(ops)@), args: view_args(old(args)@) },
            s@,
            i as int,
            hi as int,
            owned,
        ) {
            Ok(acc) => r is Ok && view_ops(final(ops)@) == acc.ops && view_args(final(args)@)
                == acc.args && compiling(final(ops)@, final(args)@),
            Err(name) => r matches Err(n) && n@ == name,
        },
{
    let ghost goal = compile_line(
        Acc { ops: view_ops(ops@), args: view_args(args@) },
        s@,
        i as int,
        hi as int,
        owned,
    );
    let mut k = i;
    while k < hi
        invariant
            s@ == t@,
            i <= k <= hi <= s@.len(),
            forall|m: int| i <= m < hi ==> s@[m] != '\n',
            compiling(ops@, args@),
            goal == compile_line(
                Acc { ops: view_ops(old(ops)@), args: view_args(old(args)@) },
                s@,
                i as int,
                hi as int,
                owned,
            ),
            compile_line(Acc { ops: view_ops(ops@), args: view_args(args@) }, s@, k as int, hi as int, owned) == goal,
        decreases hi - k,
    {
        match subst_point(s, k, hi) {
            None => {
                assert(forall|m: int| k <= m < hi ==> t@[m] != '\n');
                push_text(ops, args, t, k, hi, owned);
                k = hi;
            },
            Some((x, ne)) => {
                proof {
                    lemma_find_from_bounds(s@, k as int, hi as int, '$');
                    lemma_name_end_bounds(s@, x + 1, hi as int);
                }
                if x > k {
                    assert(forall|m: int| k <= m < x ==> t@[m] != '\n');
                    push_text(ops, args, t, k, x, owned);
                }
                let name = String::from_str(t.substring_char(x + 1, ne));
                match get_by_name(&name, args) {
                    None => {
                        return Err(name);
                    },
                    Some(j) => {
                        proof {
                            lemma_find_arg(view_args(args@), name@, 0);
                        }
                        use_arg(ops, args, j);
                    },
                }
                k = ne;
            },
        }
    }
    Ok(())
}

proof fn lemma_find_arg(args: Seq<ArgV>, name: Seq<char>, j: int)
    requires
        0 <= j,
    ensures
        find_arg(args, name, j) matches Some(k) ==> j <= k < args.len() && args[k].name == name,
    decreases args.len() - j,
{
    if j < args.len() && args[j].name != name {
        lemma_find_arg(args, name, j + 1);
    }
}

pub(crate) proof fn lemma_compile_plain_ok(acc: Acc, s: Seq<char>, p: int, indent: nat, owned: bool)
    ensures
        compile_lines(acc, s, p, indent, false, owned) is Ok,
    decreases s.len() - p,
{
    if 0 <= p <= s.len() {
        lemma_find_from_bounds(s, p, s.len() as int, '\n');
        let e = line_end(s, p);
        let lo = line_text_start(s, p, indent);
        let hi = line_text_end(s, p, indent);
        let a = if lo < hi {
            Acc { ops: acc.ops.push(text_piece(s.subrange(lo, hi), owned)), args: acc.args }
        } else {
            acc
        };
        if e < s.len() {
            lemma_compile_plain_ok(Acc { ops: a.ops.push(Piece::Nl), args: a.args }, s, e + 1, indent, owned);
        }
    }
}

/// Compiles the template `tmpl` into code. With `subst`, each `$name` is
/// replaced by the argument of that name; otherwise the text is taken as it is.
/// Fails with the first placeholder name that no argument carries.
pub(crate) fn str_to_code(
    tmpl: &str,
    loc: Option<SourceLoc>,
    args: &mut Vec<BuildArg>,
    subst: bool,
    owned: bool,
) -> (r: Result<Code, String>)
    requires
        !subst ==> old(args)@.len() == 0,
        forall|j: int| 0 <= j < old(args)@.len() ==> (#[trigger] old(args)@[j]).wf(),
    ensures
        match compile(tmpl@, loc, if subst { Some(view_args(old(args)@)) } else { None }, owned) {
            Ok(acc) => r matches Ok(c) && c.view() == acc.ops && c.wf(),
            Err(name) => r matches Err(n) && n@ == name,
        },
{
    let s = chars_of(tmpl);
    let n = s.len();
    let mut estimate = count_char(&s, '\n');
    estimate = estimate.saturating_add(estimate).saturating_add(1);
    if subst {
        let dollars = count_char(&s, '$');
        estimate = estimate.saturating_add(dollars).saturating_add(dollars);
    }
    let indent = min_indent(&s);
    proof {
        lemma_indent_unique(s@, indent as nat);
    }
    let mut ops: Vec<Op> = Vec::with_capacity(estimate);
    proof {
        assert(view_ops(ops@) =~= Seq::<Piece>::empty());
        reveal(compiling);
    }
    match loc {
        Some(l) => {
            let empty = Vec::new();
            push_origin(&mut ops, &empty, l);
        },
        None => {},
    }
    assert(compiling(ops@, args@)) by {
        reveal(compiling);
    }
    let ghost a0 = if subst { view_args(args@) } else { Seq::<ArgV>::empty() };
    proof {
        if !subst {
            assert(view_args(args@) =~= Seq::<ArgV>::empty());
        }
    }
    let ghost goal = compile(tmpl@, loc, if subst { Some(view_args(args@)) } else { None }, owned);
    let mut p: usize = 0;
    loop
        invariant
            s@ == tmpl@,
            n == s@.len(),
            p <= n,
            !subst ==> args@.len() == 0,
            compiling(ops@, args@),
            compile_lines(
                Acc { ops: view_ops(ops@), args: view_args(args@) },
                s@,
                p as int,
                indent as nat,
                subst,
                owned,
            ) == goal,
            goal == compile(tmpl@, loc, if subst { Some(view_args(old(args)@)) } else { None }, owned),
        decreases n - p,
    {
        let e = find_char(&s, p, n, '\n');
        proof {
            lemma_find_from_bounds(s@, p as int, n as int, '\n');
        }
        let lo = if e - p >= indent {
            p + indent
        } else {
            p
        };
        let hi = trim_end_of(&s, lo, e);
        proof {
            lemma_trim_end_bounds(s@, lo as int, e as int);
            assert(forall|m: int| lo <= m < hi ==> s@[m] != '\n');
        }
        if subst {
            match subst_line(&mut ops, args, &s, tmpl, lo, hi, owned) {
                Ok(()) => {},
                Err(name) => {
                    return Err(name);
                },
            }
        } else if lo < hi {
            push_text(&mut ops, args, tmpl, lo, hi, owned);
        }
        if e == n {
            let c = Code { ops };
            proof {
                reveal(compiling);
            }
            return Ok(c);
        }
        push_nl(&mut ops, args);
        p = e + 1;
    }
}

/// Appends an origin marker.
fn push_origin(ops: &mut Vec<Op>, args: &Vec<BuildArg>, l: SourceLoc)
    requires
        compiling(old(ops)@, args@),
    ensures
        compiling(final(ops)@, args@),
        view_ops(final(ops)@) == view_ops(old(ops)@).push(Piece::Origin(l)),
{
    reveal(compiling);
    let ghost ops0 = ops@;
    proof {
        lemma_view_push(ops@, Op::Origin(l));
        lemma_wf_push(view_ops(ops@), Piece::Origin(l));
    }
    ops.push(Op::Origin(l));
    assert forall|k: int| 0 <= k < args@.len() && (#[trigger] args@[k]).code is None implies
        view_ops(ops@)[args@[k].index as int] is Inner by {
        assert(view_ops(ops@)[args@[k].index as int] == view_ops(ops0)[args@[k].index as int]);
    }
}

impl BuildArg {
    /// The argument called `name`, holding the code that `arg` converts into.
    pub fn new<T: CodeArg>(name: &str, arg: T) -> (r: BuildArg)
        requires
            arg.arg_wf(),
        ensures
            r.view() == (ArgV { name: name@, code: Some(arg.code_view()), index: 0 }),
            r.wf(),
    {
        BuildArg { name: String::from_str(name), code: Some(arg.into_code()), index: 0 }
    }
}

} // verus!
