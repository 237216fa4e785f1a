use vstd::prelude::*;
use crate::code::{wf_pieces, Piece, SourceLoc};
use crate::template::{
    compile, compile_line, compile_lines, find_arg, indent_of, lemma_indent_unique, line_text_end,
    line_text_start, text_piece, Acc, ArgV,
};
use crate::colours::slot;
use crate::debug::{
    assign, has_id, legend_reg, mark, marked_end, marked_start, mnewline, mrun, mrun_from, Marked,
};
use crate::render::{flush, initial, newline, newlines, run_from, spaces, starts_closed, Layout};
use crate::text::{
    blank, find_from, is_min_indent, is_name_char, is_ws, lemma_find_from_bounds, lemma_ws_run_bounds, lemma_trim_end_bounds,
    line_end, line_start, name_end, nonblank_line, trim_end, ws_run,
};

verus! {

broadcast use vstd::seq::group_seq_axioms;

/// A template made of one placeholder, `$name`, fails to compile when no
/// argument is called `name`, and the failure names it: nothing is produced.
pub proof fn law_missing_argument_fails(name: Seq<char>, loc: SourceLoc, args: Seq<ArgV>)
    requires
        name.len() > 0,
        forall|i: int| 0 <= i < name.len() ==> is_name_char(#[trigger] name[i]),
        find_arg(args, name, 0) is None,
    ensures
        compile(seq!['$'] + name, Some(loc), Some(args), false) == Err::<Acc, Seq<char>>(name),
{
    let s = seq!['$'] + name;
    let n = s.len() as int;
    assert(forall|i: int| 1 <= i < n ==> s[i] == name[i - 1]);
    assert(!is_ws(s[0]));
    // One line, which is not blank and has no leading whitespace.
    lemma_find_from_bounds(s, 0, n, '\n');
    assert(line_end(s, 0) == n) by {
        if line_end(s, 0) < n {
            let e = line_end(s, 0);
            assert(is_name_char(s[e]) || e == 0);
        }
    }
    assert(ws_run(s, 0, n) == 0);
    assert(nonblank_line(s, 0)) by {
        assert(!is_ws(s[0]));
    }
    assert forall|p: int| #[trigger] nonblank_line(s, p) implies p == 0 by {
        if p > 0 {
            assert(is_name_char(s[p - 1]));
        }
    }
    assert(is_min_indent(s, 0));
    lemma_indent_unique(s, 0);
    // The line's text is all of it.
    assert(trim_end(s, 0, n) == n) by {
        assert(is_name_char(s[n - 1]));
    }
    assert(line_text_start(s, 0, 0) == 0);
    assert(line_text_end(s, 0, 0) == n);
    // Its first placeholder is the whole name.
    assert(find_from(s, 0, n, '$') == 0);
    lemma_name_run(s, 1, n);
    assert(name_end(s, 1, n) == n);
    assert(s.subrange(1, n) =~= name);
    let acc = Acc { ops: seq![Piece::Origin(loc)], args };
    assert(compile_line(acc, s, 0, n, false) == Err::<Acc, Seq<char>>(name));
}

proof fn lemma_name_run(s: Seq<char>, i: int, hi: int)
    requires
        0 <= i <= hi <= s.len(),
        forall|j: int| i <= j < hi ==> is_name_char(#[trigger] s[j]),
    ensures
        name_end(s, i, hi) == hi,
    decreases hi - i,
{
    if i < hi {
        lemma_name_run(s, i + 1, hi);
    }
}

/// The least leading-whitespace width over the non-blank lines from the one
/// that starts at `p` (`usize::MAX` when there are none).
pub open spec fn line_min(s: Seq<char>, p: int) -> nat
    decreases s.len() - p,
    via line_min_decreases
{
    if p < 0 || p > s.len() {
        usize::MAX as nat
    } else {
        let e = line_end(s, p);
        let here = if blank(s, p, e) { usize::MAX as nat } else { ws_run(s, p, e) };
        if e >= s.len() {
            here
        } else {
            let rest = line_min(s, e + 1);
            if here <= rest { here } else { rest }
        }
    }
}

#[via_fn]
proof fn line_min_decreases(s: Seq<char>, p: int) {
    if 0 <= p <= s.len() {
        lemma_find_from_bounds(s, p, s.len() as int, '\n');
    }
}

proof fn lemma_line_min(s: Seq<char>, p: int)
    requires
        s.len() <= usize::MAX,
        line_start(s, p),
    ensures
        forall|q: int| #[trigger] nonblank_line(s, q) && q >= p ==> line_min(s, p) <= ws_run(s, q, line_end(s, q)),
        (exists|q: int| #[trigger] nonblank_line(s, q) && q >= p && line_min(s, p) == ws_run(s, q, line_end(s, q)))
            || ((forall|q: int| #[trigger] nonblank_line(s, q) ==> q < p) && line_min(s, p) == usize::MAX),
    decreases s.len() - p,
{
    let n = s.len() as int;
    lemma_find_from_bounds(s, p, n, '\n');
    let e = line_end(s, p);
    lemma_ws_run_bounds(s, p, e);
    assert forall|q: int| #[trigger] line_start(s, q) && p < q <= e implies false by {
        assert(s[q - 1] != '\n');
    }
    let here = if blank(s, p, e) { usize::MAX as nat } else { ws_run(s, p, e) };
    if !blank(s, p, e) {
        assert(nonblank_line(s, p));
    } else {
        assert(!nonblank_line(s, p));
    }
    if e < n {
        assert(line_start(s, e + 1));
        lemma_line_min(s, e + 1);
        let rest = line_min(s, e + 1);
        if exists|q: int| #[trigger] nonblank_line(s, q) && q >= e + 1 && rest == ws_run(s, q, line_end(s, q)) {
            let q = choose|q: int| #[trigger] nonblank_line(s, q) && q >= e + 1 && rest == ws_run(s, q, line_end(s, q));
            lemma_find_from_bounds(s, q, n, '\n');
            lemma_ws_run_bounds(s, q, line_end(s, q));
            if here <= rest && !blank(s, p, e) {
                assert(nonblank_line(s, p) && p >= p && line_min(s, p) == ws_run(s, p, line_end(s, p)));
            } else {
                assert(nonblank_line(s, q) && q >= p && line_min(s, p) == ws_run(s, q, line_end(s, q)));
            }
        } else {
            if !blank(s, p, e) {
                assert(nonblank_line(s, p) && p >= p && line_min(s, p) == ws_run(s, p, line_end(s, p)));
            } else {
                assert forall|q: int| #[trigger] nonblank_line(s, q) implies q < p by {
                    if q >= p {
                        if q == p {
                        } else {
                            assert(q >= e + 1);
                        }
                    }
                }
            }
        }
    } else {
        if !blank(s, p, e) {
            assert(nonblank_line(s, p) && p >= p && line_min(s, p) == ws_run(s, p, line_end(s, p)));
        } else {
            assert forall|q: int| #[trigger] nonblank_line(s, q) implies q < p by {
                if q >= p && q != p {
                    assert(line_start(s, q));
                }
            }
        }
    }
}

/// Dedenting: the indent of a template is the least leading-whitespace width
/// over its non-blank lines, blank lines playing no part, and every non-blank
/// line loses exactly that many characters, all of them whitespace.
pub proof fn law_dedent(s: Seq<char>)
    requires
        s.len() <= usize::MAX,
    ensures
        is_min_indent(s, indent_of(s)),
        forall|p: int| #[trigger] nonblank_line(s, p) ==> line_text_start(s, p, indent_of(s)) == p + indent_of(s)
            && blank(s, p, p + indent_of(s)),
{
    lemma_line_min(s, 0);
    let m = line_min(s, 0);
    assert forall|q: int| #[trigger] nonblank_line(s, q) implies q >= 0 by {}
    assert(is_min_indent(s, m));
    lemma_indent_unique(s, m);
    assert forall|p: int| #[trigger] nonblank_line(s, p) implies line_text_start(s, p, indent_of(s)) == p + indent_of(s)
        && blank(s, p, p + indent_of(s)) by {
        lemma_find_from_bounds(s, p, s.len() as int, '\n');
        lemma_ws_run_bounds(s, p, line_end(s, p));
    }
}

proof fn lemma_same_tail(st: Layout, ops: Seq<Piece>, ops2: Seq<Piece>, i: int, j: int, base: nat)
    requires
        wf_pieces(ops),
        0 <= i < j,
        ops2.len() == ops.len(),
        ops[i] is InnerRef,
        forall|m: int| 0 <= m < ops.len() && m != i ==> ops2[m] == ops[m],
    ensures
        run_from(st, ops, j, base) == run_from(st, ops2, j, base),
    decreases ops.len() - j,
{
    if j < ops.len() {
        assert(ops2[j] == ops[j]);
        if let Piece::InnerRef(k) = ops[j] {
            if 1 <= k <= j {
                assert(ops[j - k] is Inner);
                assert(j - k != i);
                assert(ops2[j - k] == ops[j - k]);
            }
        }
        let next = match ops[j] {
            Piece::Nl => newline(st, base),
            Piece::Lit(t) => Layout { out: st.out, curr: st.curr + t, nls: st.nls, max_nls: st.max_nls },
            Piece::Blob(t) => Layout { out: st.out, curr: st.curr + t, nls: st.nls, max_nls: st.max_nls },
            Piece::Inner(inner) => run_from(st, inner, 0, st.curr.len()),
            Piece::InnerRef(k) => if 1 <= k <= j {
                match ops[j - k] {
                    Piece::Inner(inner) => run_from(st, inner, 0, st.curr.len()),
                    _ => st,
                }
            } else {
                st
            },
            Piece::Origin(_) => st,
        };
        lemma_same_tail(next, ops, ops2, i, j + 1, base);
    }
}

/// A back reference renders exactly as the nested code it points to would,
/// had that code been repeated at the same place: each use of an argument
/// gives the same text, laid out from the column where it stands.
pub proof fn law_back_reference_renders_as_block(st: Layout, ops: Seq<Piece>, i: int, base: nat)
    requires
        wf_pieces(ops),
        0 <= i < ops.len(),
        ops[i] is InnerRef,
    ensures
        ({
            let k = ops[i]->InnerRef_0;
            run_from(st, ops, i, base) == run_from(st, ops.update(i, ops[i - k]), i, base)
        }),
{
    let k = ops[i]->InnerRef_0;
    assert(1 <= k <= i && ops[i - k] is Inner);
    let ops2 = ops.update(i, ops[i - k]);
    assert(ops2[i - k] == ops[i - k]);
    let next = match ops[i - k] {
        Piece::Inner(inner) => run_from(st, inner, 0, st.curr.len()),
        _ => st,
    };
    lemma_same_tail(next, ops, ops2, i, i + 1, base);
}

proof fn lemma_line_plain(acc: Acc, s: Seq<char>, i: int, hi: int, owned: bool)
    requires
        0 <= i <= hi <= s.len(),
        forall|m: int| 0 <= m < s.len() ==> s[m] != '$',
    ensures
        compile_line(acc, s, i, hi, owned) == Ok::<Acc, Seq<char>>(
            if i < hi {
                Acc { ops: acc.ops.push(text_piece(s.subrange(i, hi), owned)), args: acc.args }
            } else {
                acc
            },
        ),
{
    lemma_find_from_bounds(s, i, hi, '$');
}

proof fn lemma_lines_plain(a: Acc, b: Acc, s: Seq<char>, p: int, indent: nat, owned: bool)
    requires
        a.ops == b.ops,
        0 <= p <= s.len(),
        forall|m: int| 0 <= m < s.len() ==> s[m] != '$',
    ensures
        compile_lines(a, s, p, indent, true, owned) is Ok,
        compile_lines(b, s, p, indent, false, owned) is Ok,
        compile_lines(a, s, p, indent, true, owned)->Ok_0.ops == compile_lines(b, s, p, indent, false, owned)->Ok_0.ops,
    decreases s.len() - p,
{
    let e = line_end(s, p);
    lemma_find_from_bounds(s, p, s.len() as int, '\n');
    let lo = line_text_start(s, p, indent);
    let hi = line_text_end(s, p, indent);
    lemma_trim_end_bounds(s, lo, e);
    lemma_line_plain(a, s, lo, hi, owned);
    if e < s.len() {
        let ra = compile_line(a, s, lo, hi, owned)->Ok_0;
        let rb = if lo < hi {
            Acc { ops: b.ops.push(text_piece(s.subrange(lo, hi), owned)), args: b.args }
        } else {
            b
        };
        lemma_lines_plain(
            Acc { ops: ra.ops.push(Piece::Nl), args: ra.args },
            Acc { ops: rb.ops.push(Piece::Nl), args: rb.args },
            s,
            e + 1,
            indent,
            owned,
        );
    }
}

/// A template without placeholders compiles whatever the arguments, to the
/// same code as with nothing substituted at all: its rendering, a function of
/// that code, is fixed by the template alone and comes out the same each time.
pub proof fn law_plain_template_compiles(s: Seq<char>, loc: Option<SourceLoc>, args: Seq<ArgV>, owned: bool)
    requires
        forall|m: int| 0 <= m < s.len() ==> s[m] != '$',
    ensures
        compile(s, loc, Some(args), owned) is Ok,
        compile(s, loc, None, owned) is Ok,
        compile(s, loc, Some(args), owned)->Ok_0.ops == compile(s, loc, None, owned)->Ok_0.ops,
{
    let ops = match loc {
        Some(l) => seq![Piece::Origin(l)],
        None => Seq::empty(),
    };
    lemma_lines_plain(Acc { ops, args }, Acc { ops, args: Seq::empty() }, s, 0, indent_of(s), owned);
}

/// Whether `s` begins with `k` spaces.
pub open spec fn padded(s: Seq<char>, k: nat) -> bool {
    k <= s.len() && forall|j: int| 0 <= j < k ==> s[j] == ' '
}

/// Nested indentation: once code runs with its lines starting at column `k`
/// or further right (nested code runs at the column where it was inserted),
/// a line that begins with `k` spaces keeps them, whatever the code appends
/// or nests, and every newline starts the next line with exactly `base`
/// spaces, so each line written after the first carries that padding.
pub proof fn law_nested_lines_keep_padding(st: Layout, ops: Seq<Piece>, i: int, base: nat, k: nat)
    requires
        k <= base,
        padded(st.curr, k),
    ensures
        padded(run_from(st, ops, i, base).curr, k),
        newline(st, base).curr == spaces(base),
    decreases ops, ops.len() - i,
{
    assert(flush(st, base).curr == spaces(base));
    if 0 <= i < ops.len() {
        let next = match ops[i] {
            Piece::Nl => newline(st, base),
            Piece::Lit(t) => Layout { out: st.out, curr: st.curr + t, nls: st.nls, max_nls: st.max_nls },
            Piece::Blob(t) => Layout { out: st.out, curr: st.curr + t, nls: st.nls, max_nls: st.max_nls },
            Piece::Inner(inner) => run_from(st, inner, 0, st.curr.len()),
            Piece::InnerRef(r) => if 1 <= r <= i {
                match ops[i - r] {
                    Piece::Inner(inner) => run_from(st, inner, 0, st.curr.len()),
                    _ => st,
                }
            } else {
                st
            },
            Piece::Origin(_) => st,
        };
        match ops[i] {
            Piece::Inner(inner) => {
                law_nested_lines_keep_padding(st, inner, 0, st.curr.len(), k);
            },
            Piece::InnerRef(r) => {
                if 1 <= r <= i {
                    if let Piece::Inner(inner) = ops[i - r] {
                        law_nested_lines_keep_padding(st, inner, 0, st.curr.len(), k);
                    }
                }
            },
            _ => {},
        }
        assert(padded(next.curr, k));
        law_nested_lines_keep_padding(next, ops, i + 1, base, k);
    }
}

/// The locations met so far are distinct, and each holds a colour.
pub open spec fn seen_ok(st: Marked) -> bool {
    &&& st.reg.no_duplicates()
    &&& forall|a: int, b: int| 0 <= a < b < st.seen.len() ==> st.seen[a].id != st.seen[b].id
    &&& forall|a: int| 0 <= a < st.seen.len() ==> st.reg.contains(#[trigger] st.seen[a].id)
}

proof fn lemma_assign(reg: Seq<usize>, id: usize)
    requires
        reg.no_duplicates(),
    ensures
        assign(reg, id).no_duplicates(),
        assign(reg, id).contains(id),
        forall|x: usize| reg.contains(x) ==> assign(reg, id).contains(x),
{
    if !reg.contains(id) {
        let r = reg.push(id);
        assert(r[reg.len() as int] == id);
        assert forall|x: usize| reg.contains(x) implies r.contains(x) by {
            let j = choose|j: int| 0 <= j < reg.len() && reg[j] == x;
            assert(r[j] == x);
        }
    }
}

proof fn lemma_mark_ok(st: Marked, l: SourceLoc)
    requires
        seen_ok(st),
    ensures
        seen_ok(mark(st, l)),
{
    lemma_assign(st.reg, l.id);
    let m = mark(st, l);
    if !has_id(st.seen, l.id) {
        assert forall|a: int, b: int| 0 <= a < b < m.seen.len() implies m.seen[a].id != m.seen[b].id by {
            if b == st.seen.len() {
                assert(m.seen[a] == st.seen[a]);
            }
        }
    }
    assert forall|a: int| 0 <= a < m.seen.len() implies m.reg.contains(#[trigger] m.seen[a].id) by {
        if a < st.seen.len() {
            assert(m.seen[a] == st.seen[a]);
            assert(st.reg.contains(st.seen[a].id));
        }
    }
}

proof fn lemma_mrun_ok(st: Marked, ops: Seq<Piece>, base: nat)
    requires
        seen_ok(st),
    ensures
        seen_ok(mrun(st, ops, base)),
    decreases ops, ops.len() + 1,
{
    let restore = crate::debug::last_style(st);
    let st1 = Marked { styles: st.styles.push((st.curr.len(), crate::debug::emphasis(restore))), ..st };
    lemma_mrun_from_ok(st1, ops, 0, base);
}

proof fn lemma_mrun_from_ok(st: Marked, ops: Seq<Piece>, i: int, base: nat)
    requires
        seen_ok(st),
    ensures
        seen_ok(mrun_from(st, ops, i, base)),
    decreases ops, ops.len() - i,
{
    if 0 <= i < ops.len() {
        let next = match ops[i] {
            Piece::Nl => mnewline(st, base),
            Piece::Lit(t) => Marked { curr: st.curr + t, ..st },
            Piece::Blob(t) => Marked { curr: st.curr + t, ..st },
            Piece::Inner(inner) => mrun(st, inner, st.curr.len()),
            Piece::InnerRef(k) => if 1 <= k <= i {
                match ops[i - k] {
                    Piece::Inner(inner) => mrun(st, inner, st.curr.len()),
                    _ => st,
                }
            } else {
                st
            },
            Piece::Origin(l) => mark(st, l),
        };
        match ops[i] {
            Piece::Inner(inner) => lemma_mrun_ok(st, inner, st.curr.len()),
            Piece::InnerRef(k) => {
                if 1 <= k <= i {
                    if let Piece::Inner(inner) = ops[i - k] {
                        lemma_mrun_ok(st, inner, st.curr.len());
                    }
                }
            },
            Piece::Origin(l) => lemma_mark_ok(st, l),
            _ => {},
        }
        assert(seen_ok(next));
        lemma_mrun_from_ok(next, ops, i + 1, base);
    }
}

proof fn lemma_legend_reg(seen: Seq<SourceLoc>, reg: Seq<usize>, k: int)
    requires
        0 <= k,
        forall|a: int| 0 <= a < seen.len() ==> reg.contains(#[trigger] seen[a].id),
    ensures
        legend_reg(seen, reg, k) == reg,
    decreases seen.len() - k,
{
    if k < seen.len() {
        assert(reg.contains(seen[k].id));
        lemma_legend_reg(seen, reg, k + 1);
    }
}

/// The legend of a highlighted rendering lists each source location met at
/// most once, and gives distinct locations distinct colours: the colour of a
/// location is its place in the registry, which the legend leaves as the
/// rendering left it. Colours depend only on the order in which locations
/// were first met.
pub proof fn law_legend_entries_distinct(ops: Seq<Piece>, reg: Seq<usize>)
    requires
        reg.no_duplicates(),
    ensures
        ({
            let st = marked_end(ops, reg);
            &&& forall|a: int, b: int| 0 <= a < b < st.seen.len() ==> st.seen[a].id != st.seen[b].id
            &&& legend_reg(st.seen, st.reg, 0) == st.reg
            &&& forall|a: int, b: int|
                0 <= a < b < st.seen.len() ==> slot(st.reg, st.seen[a].id) != slot(st.reg, st.seen[b].id)
        }),
{
    let st0 = marked_start(reg);
    assert(seen_ok(st0));
    lemma_mrun_ok(st0, ops, 0);
    let st = marked_end(ops, reg);
    assert(seen_ok(st));
    lemma_legend_reg(st.seen, st.reg, 0);
    assert forall|a: int, b: int| 0 <= a < b < st.seen.len() implies slot(st.reg, st.seen[a].id) != slot(
        st.reg,
        st.seen[b].id,
    ) by {
        let ia = st.seen[a].id;
        let ib = st.seen[b].id;
        assert(st.reg.contains(ia));
        assert(st.reg.contains(ib));
        let ja = choose|j: int| 0 <= j < st.reg.len() && st.reg[j] == ia;
        let jb = choose|j: int| 0 <= j < st.reg.len() && st.reg[j] == ib;
        crate::colours::lemma_slot(st.reg, ia, ja);
        crate::colours::lemma_slot(st.reg, ib, jb);
    }
}

/// At most two line breaks are pending, never more than the cap allows.
pub open spec fn capped(st: Layout) -> bool {
    st.nls <= st.max_nls <= 2
}

proof fn lemma_run_capped(st: Layout, ops: Seq<Piece>, i: int, base: nat)
    requires
        capped(st),
    ensures
        capped(run_from(st, ops, i, base)),
    decreases ops, ops.len() - i,
{
    if 0 <= i < ops.len() {
        let next = match ops[i] {
            Piece::Nl => newline(st, base),
            Piece::Lit(t) => Layout { out: st.out, curr: st.curr + t, nls: st.nls, max_nls: st.max_nls },
            Piece::Blob(t) => Layout { out: st.out, curr: st.curr + t, nls: st.nls, max_nls: st.max_nls },
            Piece::Inner(inner) => run_from(st, inner, 0, st.curr.len()),
            Piece::InnerRef(r) => if 1 <= r <= i {
                match ops[i - r] {
                    Piece::Inner(inner) => run_from(st, inner, 0, st.curr.len()),
                    _ => st,
                }
            } else {
                st
            },
            Piece::Origin(_) => st,
        };
        match ops[i] {
            Piece::Inner(inner) => lemma_run_capped(st, inner, 0, st.curr.len()),
            Piece::InnerRef(r) => {
                if 1 <= r <= i {
                    if let Piece::Inner(inner) = ops[i - r] {
                        lemma_run_capped(st, inner, 0, st.curr.len());
                    }
                }
            },
            _ => {},
        }
        assert(capped(next));
        lemma_run_capped(next, ops, i + 1, base);
    }
}

/// Blank-line collapsing: rendering starts with no line break pending and
/// running code never lets more than two pile up; and whenever a line is
/// flushed from such a state it is written after at most two line breaks (so
/// at most one blank line), after at most one (no blank line) when it begins
/// with a closing bracket, and a line of whitespace alone is not written.
pub proof fn law_blank_lines_collapse(st: Layout, ops: Seq<Piece>, i: int, base: nat)
    requires
        capped(st),
    ensures
        capped(initial()),
        capped(run_from(st, ops, i, base)),
        !blank(st.curr, 0, st.curr.len() as int) ==> exists|n: nat|
            #![trigger newlines(n)]
            n <= 2 && (starts_closed(st.curr) ==> n <= 1) && flush(st, base).out == st.out + newlines(n) + st.curr,
        blank(st.curr, 0, st.curr.len() as int) ==> flush(st, base).out == st.out,
{
    lemma_run_capped(st, ops, i, base);
    if !blank(st.curr, 0, st.curr.len() as int) {
        let n: nat = if starts_closed(st.curr) && st.nls > 1 { 1 } else { st.nls };
        assert(n <= 2 && (starts_closed(st.curr) ==> n <= 1) && flush(st, base).out == st.out + newlines(n) + st.curr);
    }
}

} // verus!
