use vstd::prelude::*;

verus! {

broadcast use vstd::seq::group_seq_axioms;

/// Unicode `White_Space`.
pub open spec fn is_ws(c: char) -> bool {
    c == ' ' || ('\t' <= c && c <= '\r') || c == '\u{85}' || c == '\u{A0}' || c == '\u{1680}'
        || ('\u{2000}' <= c && c <= '\u{200A}') || c == '\u{2028}' || c == '\u{2029}'
        || c == '\u{202F}' || c == '\u{205F}' || c == '\u{3000}'
}

/// Whether `c` has the Unicode `White_Space` property.
pub fn is_whitespace(c: char) -> (r: bool)
    ensures
        r == is_ws(c),
{
    c == ' ' || ('\t' <= c && c <= '\r') || c == '\u{85}' || c == '\u{A0}' || c == '\u{1680}'
        || ('\u{2000}' <= c && c <= '\u{200A}') || c == '\u{2028}' || c == '\u{2029}'
        || c == '\u{202F}' || c == '\u{205F}' || c == '\u{3000}'
}

/// Characters that may appear in a placeholder name.
pub open spec fn is_name_char(c: char) -> bool {
    ('a' <= c && c <= 'z') || ('A' <= c && c <= 'Z') || ('0' <= c && c <= '9') || c == '_'
}

/// Whether every character of `s[lo..hi]` is whitespace.
pub open spec fn blank(s: Seq<char>, lo: int, hi: int) -> bool {
    forall|i: int| lo <= i < hi ==> is_ws(#[trigger] s[i])
}

/// Number of occurrences of `c` in `s`.
pub open spec fn occurrences(s: Seq<char>, c: char) -> nat
    decreases s.len(),
{
    if s.len() == 0 {
        0
    } else {
        occurrences(s.drop_last(), c) + if s.last() == c { 1nat } else { 0nat }
    }
}

/// The position of the first `c` in `s[i..hi]`, or `hi` when there is none.
pub open spec fn find_from(s: Seq<char>, i: int, hi: int, c: char) -> int
    decreases hi - i,
{
    if i >= hi {
        hi
    } else if s[i] == c {
        i
    } else {
        find_from(s, i + 1, hi, c)
    }
}

/// The end of the line that starts at `i`: the next `'\n'`, or the end of `s`.
pub open spec fn line_end(s: Seq<char>, i: int) -> int {
    find_from(s, i, s.len() as int, '\n')
}

/// Whether a line of `s` starts at `p`.
pub open spec fn line_start(s: Seq<char>, p: int) -> bool {
    0 <= p <= s.len() && (p == 0 || s[p - 1] == '\n')
}

/// Length of the run of whitespace at the start of `s[i..hi]`.
pub open spec fn ws_run(s: Seq<char>, i: int, hi: int) -> nat
    decreases hi - i,
{
    if i < hi && is_ws(s[i]) {
        1 + ws_run(s, i + 1, hi)
    } else {
        0
    }
}

/// End of `s[lo..hi]` with trailing whitespace removed.
pub open spec fn trim_end(s: Seq<char>, lo: int, hi: int) -> int
    decreases hi - lo,
{
    if hi > lo && is_ws(s[hi - 1]) {
        trim_end(s, lo, hi - 1)
    } else {
        hi
    }
}

/// End of the run of name characters that starts at `i`, bounded by `hi`.
pub open spec fn name_end(s: Seq<char>, i: int, hi: int) -> int
    decreases hi - i,
{
    if i < hi && is_name_char(s[i]) {
        name_end(s, i + 1, hi)
    } else {
        i
    }
}

/// Whether the line starting at `p` holds something besides whitespace.
pub open spec fn nonblank_line(s: Seq<char>, p: int) -> bool {
    line_start(s, p) && !blank(s, p, line_end(s, p))
}

/// The indentation of a template: the least leading-whitespace width of its
/// non-blank lines, or `usize::MAX` when every line is blank.
pub open spec fn is_min_indent(s: Seq<char>, r: nat) -> bool {
    &&& forall|p: int| #[trigger] nonblank_line(s, p) ==> r <= ws_run(s, p, line_end(s, p))
    &&& (exists|p: int| #[trigger] nonblank_line(s, p) && r == ws_run(s, p, line_end(s, p)))
        || ((forall|p: int| !#[trigger] nonblank_line(s, p)) && r == usize::MAX)
}

pub proof fn lemma_find_from_bounds(s: Seq<char>, i: int, hi: int, c: char)
    requires
        0 <= i <= hi <= s.len(),
    ensures
        i <= find_from(s, i, hi, c) <= hi,
        find_from(s, i, hi, c) < hi ==> s[find_from(s, i, hi, c)] == c,
        forall|j: int| i <= j < find_from(s, i, hi, c) ==> s[j] != c,
    decreases hi - i,
{
    if i < hi && s[i] != c {
        lemma_find_from_bounds(s, i + 1, hi, c);
    }
}

pub proof fn lemma_ws_run_bounds(s: Seq<char>, i: int, hi: int)
    requires
        0 <= i <= hi <= s.len(),
    ensures
        i + ws_run(s, i, hi) <= hi,
        blank(s, i, i + ws_run(s, i, hi)),
        i + ws_run(s, i, hi) < hi ==> !is_ws(s[i + ws_run(s, i, hi)]),
    decreases hi - i,
{
    if i < hi && is_ws(s[i]) {
        lemma_ws_run_bounds(s, i + 1, hi);
    }
}

pub proof fn lemma_trim_end_bounds(s: Seq<char>, lo: int, hi: int)
    requires
        0 <= lo <= hi <= s.len(),
    ensures
        lo <= trim_end(s, lo, hi) <= hi,
        blank(s, trim_end(s, lo, hi), hi),
        trim_end(s, lo, hi) > lo ==> !is_ws(s[trim_end(s, lo, hi) - 1]),
    decreases hi - lo,
{
    if hi > lo && is_ws(s[hi - 1]) {
        lemma_trim_end_bounds(s, lo, hi - 1);
    }
}

pub proof fn lemma_name_end_bounds(s: Seq<char>, i: int, hi: int)
    requires
        0 <= i <= hi <= s.len(),
    ensures
        i <= name_end(s, i, hi) <= hi,
        forall|j: int| i <= j < name_end(s, i, hi) ==> is_name_char(s[j]),
        name_end(s, i, hi) < hi ==> !is_name_char(s[name_end(s, i, hi)]),
    decreases hi - i,
{
    if i < hi && is_name_char(s[i]) {
        lemma_name_end_bounds(s, i + 1, hi);
    }
}

/// The characters of `s`, in order.
pub fn chars_of(s: &str) -> (r: Vec<char>)
    ensures
        r@ == s@,
{
    let n = s.unicode_len();
    let mut r: Vec<char> = Vec::new();
    let mut i: usize = 0;
    while i < n
        invariant
            n == s@.len(),
            i <= n,
            r@ == s@.subrange(0, i as int),
        decreases n - i,
    {
        r.push(s.get_char(i));
        i += 1;
    }
    r
}

/// Counts the occurrences of `c` in `s`.
pub fn count_char(s: &Vec<char>, c: char) -> (r: usize)
    ensures
        r == occurrences(s@, c),
{
    let mut count: usize = 0;
    let mut i: usize = 0;
    while i < s.len()
        invariant
            i <= s@.len(),
            count == occurrences(s@.subrange(0, i as int), c),
            count <= i,
        decreases s@.len() - i,
    {
        assert(s@.subrange(0, i + 1).drop_last() == s@.subrange(0, i as int));
        if s[i] == c {
            count += 1;
        }
        i += 1;
    }
    assert(s@.subrange(0, s@.len() as int) == s@);
    count
}

/// Position of the first `c` in `s[i..hi]`, or `hi`.
pub fn find_char(s: &Vec<char>, i: usize, hi: usize, c: char) -> (r: usize)
    requires
        i <= hi <= s@.len(),
    ensures
        r == find_from(s@, i as int, hi as int, c),
{
    let mut j = i;
    while j < hi && s[j] != c
        invariant
            i <= j <= hi <= s@.len(),
            find_from(s@, j as int, hi as int, c) == find_from(s@, i as int, hi as int, c),
        decreases hi - j,
    {
        j += 1;
    }
    j
}

/// Width of the whitespace run at the start of `s[i..hi]`.
pub fn leading_ws(s: &Vec<char>, i: usize, hi: usize) -> (r: usize)
    requires
        i <= hi <= s@.len(),
    ensures
        r == ws_run(s@, i as int, hi as int),
{
    let mut j = i;
    while j < hi && is_whitespace(s[j])
        invariant
            i <= j <= hi <= s@.len(),
            (j - i) + ws_run(s@, j as int, hi as int) == ws_run(s@, i as int, hi as int),
        decreases hi - j,
    {
        j += 1;
    }
    j - i
}

/// End of `s[lo..hi]` once trailing whitespace is removed.
pub fn trim_end_of(s: &Vec<char>, lo: usize, hi: usize) -> (r: usize)
    requires
        lo <= hi <= s@.len(),
    ensures
        r == trim_end(s@, lo as int, hi as int),
{
    let mut j = hi;
    while j > lo && is_whitespace(s[j - 1])
        invariant
            lo <= j <= hi <= s@.len(),
            trim_end(s@, lo as int, j as int) == trim_end(s@, lo as int, hi as int),
        decreases j - lo,
    {
        j -= 1;
    }
    j
}

/// End of the run of name characters starting at `i`, bounded by `hi`.
pub fn name_end_of(s: &Vec<char>, i: usize, hi: usize) -> (r: usize)
    requires
        i <= hi <= s@.len(),
    ensures
        r == name_end(s@, i as int, hi as int),
{
    let mut j = i;
    while j < hi && (('a' <= s[j] && s[j] <= 'z') || ('A' <= s[j] && s[j] <= 'Z') || ('0' <= s[j]
        && s[j] <= '9') || s[j] == '_')
        invariant
            i <= j <= hi <= s@.len(),
            name_end(s@, j as int, hi as int) == name_end(s@, i as int, hi as int),
        decreases hi - j,
    {
        j += 1;
    }
    j
}

/// The least leading-whitespace width over the non-blank lines of `s`
/// (`usize::MAX` when there are none).
pub fn min_indent(s: &Vec<char>) -> (r: usize)
    ensures
        is_min_indent(s@, r as nat),
{
    let n = s.len();
    let mut min_indent = usize::MAX;
    let mut p: usize = 0;
    let ghost mut found = false;
    let ghost mut lim: int = 0;
    let mut more = true;
    while more
        invariant
            n == s@.len(),
            more ==> line_start(s@, p as int) && lim == p,
            !more ==> forall|q: int| #[trigger] line_start(s@, q) ==> q < lim,
            forall|q: int|
                #![trigger nonblank_line(s@, q)]
                q < lim && nonblank_line(s@, q) ==> min_indent <= ws_run(s@, q, line_end(s@, q)),
            found ==> exists|q: int|
                #![trigger nonblank_line(s@, q)]
                q < lim && nonblank_line(s@, q) && min_indent == ws_run(s@, q, line_end(s@, q)),
            !found ==> min_indent == usize::MAX && forall|q: int|
                #![trigger nonblank_line(s@, q)]
                q < lim ==> !nonblank_line(s@, q),
        decreases n + 1 - lim,
    {
        let e = find_char(s, p, n, '\n');
        proof {
            lemma_find_from_bounds(s@, p as int, n as int, '\n');
        }
        let w = leading_ws(s, p, e);
        proof {
            lemma_ws_run_bounds(s@, p as int, e as int);
            if p + w < e {
                assert(!is_ws(s@[p + w]));
                assert(nonblank_line(s@, p as int));
            } else {
                assert(!nonblank_line(s@, p as int));
            }
        }
        if p + w < e {
            if w <= min_indent {
                min_indent = w;
                proof {
                    found = true;
                }
            }
        }
        if e == n {
            assert forall|q: int| #[trigger] line_start(s@, q) && q > p implies false by {
                assert(s@[q - 1] != '\n');
            }
            more = false;
        } else {
            assert forall|q: int| #[trigger] line_start(s@, q) && p < q < e + 1 implies false by {
                assert(s@[q - 1] != '\n');
            }
            p = e + 1;
        }
        proof {
            lim = p + 1;
            if more { lim = p as int; }
        }
    }
    min_indent
}

/// The decimal digit `d`.
pub open spec fn digit(d: nat) -> char {
    seq!['0', '1', '2', '3', '4', '5', '6', '7', '8', '9'][d as int]
}

/// The decimal form of `n`, without leading zeros.
pub open spec fn decimal(n: nat) -> Seq<char>
    decreases n,
{
    if n < 10 {
        seq![digit(n)]
    } else {
        decimal(n / 10).push(digit(n % 10))
    }
}

/// The decimal form of a signed `n`.
pub open spec fn signed_decimal(n: int) -> Seq<char> {
    if n < 0 {
        seq!['-'] + decimal((-n) as nat)
    } else {
        decimal(n as nat)
    }
}

fn digit_str(d: u64) -> (r: &'static str)
    requires
        d < 10,
    ensures
        r@ == seq![digit(d as nat)],
{
    proof {
        reveal_strlit("0");
        reveal_strlit("1");
        reveal_strlit("2");
        reveal_strlit("3");
        reveal_strlit("4");
        reveal_strlit("5");
        reveal_strlit("6");
        reveal_strlit("7");
        reveal_strlit("8");
        reveal_strlit("9");
    }
    match d {
        0 => "0",
        1 => "1",
        2 => "2",
        3 => "3",
        4 => "4",
        5 => "5",
        6 => "6",
        7 => "7",
        8 => "8",
        _ => "9",
    }
}

/// The decimal form of `n`.
pub fn decimal_string(n: u64) -> (r: String)
    ensures
        r@ == decimal(n as nat),
    decreases n,
{
    if n < 10 {
        String::from_str(digit_str(n))
    } else {
        let mut r = decimal_string(n / 10);
        r.append(digit_str(n % 10));
        r
    }
}

/// The decimal form of a signed `n`.
pub fn signed_decimal_string(n: i64) -> (r: String)
    ensures
        r@ == signed_decimal(n as int),
{
    if n < 0 {
        let m: u64 = ((-(n + 1)) as u64) + 1;
        let mut r = String::from_str("-");
        proof {
            reveal_strlit("-");
        }
        r.append(decimal_string(m).as_str());
        r
    } else {
        decimal_string(n as u64)
    }
}

pub proof fn lemma_decimal_has_no_newline(n: nat)
    ensures
        !decimal(n).contains('\n'),
    decreases n,
{
    let ds = seq!['0', '1', '2', '3', '4', '5', '6', '7', '8', '9'];
    assert(forall|d: int| 0 <= d < 10 ==> ds[d] != '\n');
    if n >= 10 {
        lemma_decimal_has_no_newline(n / 10);
    }
    if decimal(n).contains('\n') {
        let m = choose|m: int| 0 <= m < decimal(n).len() && decimal(n)[m] == '\n';
        if n >= 10 && m < decimal(n / 10).len() {
            assert(decimal(n / 10)[m] == '\n');
        }
    }
}

} // verus!
