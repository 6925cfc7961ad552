//! Text helpers: the `${NAME}` reference syntax, the first-`{}` placeholder
//! replacement and the lexicographic order of names.
use vstd::prelude::*;
use vstd::string::*;

verus! {

/// A character that may start a variable name in `${NAME}`.
pub open spec fn is_name_start(c: char) -> bool {
    ('A' <= c && c <= 'Z') || ('a' <= c && c <= 'z') || c == '_'
}

/// A character that may continue a variable name in `${NAME}`.
pub open spec fn is_name_char(c: char) -> bool {
    is_name_start(c) || ('0' <= c && c <= '9')
}

/// The index just past the run of name characters that starts at `j`.
pub open spec fn name_end(s: Seq<char>, j: int) -> int
    decreases s.len() - j,
{
    if 0 <= j < s.len() && is_name_char(s[j]) {
        name_end(s, j + 1)
    } else {
        j
    }
}

/// Where a reference `${NAME}` starts at `i`: the index of its closing brace.
pub open spec fn reference_at(s: Seq<char>, i: int) -> Option<int> {
    if 0 <= i && i + 2 < s.len() && s[i] == '$' && s[i + 1] == '{' && is_name_start(s[i + 2]) {
        let e = name_end(s, i + 2);
        if i < e < s.len() && s[e] == '}' {
            Some(e)
        } else {
            None
        }
    } else {
        None
    }
}

/// The names referenced as `${NAME}` in `s` from index `i` on, left to right,
/// each match consuming its text.
pub open spec fn references_from(s: Seq<char>, i: int) -> Seq<Seq<char>>
    decreases s.len() - i,
{
    if i < 0 || i >= s.len() {
        Seq::empty()
    } else {
        match reference_at(s, i) {
            Some(e) => seq![s.subrange(i + 2, e)] + references_from(s, e + 1),
            None => references_from(s, i + 1),
        }
    }
}

/// The names referenced as `${NAME}` in `s`.
pub open spec fn references(s: Seq<char>) -> Seq<Seq<char>> {
    references_from(s, 0)
}

/// `s` from index `i` on, with every reference `${NAME}` replaced by `f(NAME)`.
pub open spec fn substitute_from(s: Seq<char>, i: int, f: spec_fn(Seq<char>) -> Seq<char>) -> Seq<char>
    decreases s.len() - i,
{
    if i < 0 || i >= s.len() {
        Seq::empty()
    } else {
        match reference_at(s, i) {
            Some(e) => f(s.subrange(i + 2, e)) + substitute_from(s, e + 1, f),
            None => seq![s[i]] + substitute_from(s, i + 1, f),
        }
    }
}

/// `s` with every reference `${NAME}` replaced by `f(NAME)`.
pub open spec fn substitute(s: Seq<char>, f: spec_fn(Seq<char>) -> Seq<char>) -> Seq<char> {
    substitute_from(s, 0, f)
}

/// The index of the first `{}` in `s` at or after `i`.
pub open spec fn placeholder_from(s: Seq<char>, i: int) -> Option<int>
    decreases s.len() - i,
{
    if i < 0 || i + 1 >= s.len() {
        None
    } else if s[i] == '{' && s[i + 1] == '}' {
        Some(i)
    } else {
        placeholder_from(s, i + 1)
    }
}

/// `s` with its first `{}` replaced by `v`; `s` itself when it holds none.
pub open spec fn fill_first(s: Seq<char>, v: Seq<char>) -> Seq<char> {
    match placeholder_from(s, 0) {
        Some(k) => s.subrange(0, k) + v + s.subrange(k + 2, s.len() as int),
        None => s,
    }
}

/// `s` holds neither `{` nor `}`.
pub open spec fn no_braces(s: Seq<char>) -> bool {
    forall|i: int| 0 <= i < s.len() ==> #[trigger] s[i] != '{' && s[i] != '}'
}

proof fn lemma_placeholder_at(s: Seq<char>, i: int, k: int)
    requires
        0 <= i <= k,
        k + 1 < s.len(),
        s[k] == '{',
        s[k + 1] == '}',
        forall|j: int| i <= j < k ==> #[trigger] s[j] != '{',
    ensures
        placeholder_from(s, i) == Some(k),
    decreases k - i,
{
    if i < k {
        lemma_placeholder_at(s, i + 1, k);
    }
}

/// Filling placeholders one call at a time: with two `{}` in a text whose
/// other parts before the second hold no braces, and values without braces,
/// the first call fills the first `{}` and the second call the other.
pub proof fn lemma_fill_in_turn(a: Seq<char>, b: Seq<char>, c: Seq<char>, x: Seq<char>, y: Seq<char>)
    requires
        no_braces(a),
        no_braces(b),
        no_braces(x),
        no_braces(y),
    ensures
        fill_first(fill_first(a + seq!['{', '}'] + b + seq!['{', '}'] + c, x), y) == a + x + b + y + c,
{
    let ph = seq!['{', '}'];
    let s = a + ph + b + ph + c;
    assert(s[a.len() as int] == '{');
    assert(s[a.len() as int + 1] == '}');
    assert forall|j: int| 0 <= j < a.len() implies #[trigger] s[j] != '{' by {
        assert(s[j] == a[j]);
    }
    lemma_placeholder_at(s, 0, a.len() as int);
    let s1 = s.subrange(0, a.len() as int) + x + s.subrange(a.len() as int + 2, s.len() as int);
    assert(s1 =~= a + x + b + ph + c);
    let k: int = (a.len() + x.len() + b.len()) as int;
    assert(s1[k] == '{');
    assert(s1[k + 1] == '}');
    assert forall|j: int| 0 <= j < k implies #[trigger] s1[j] != '{' by {
        if j < a.len() {
            assert(s1[j] == a[j]);
        } else if j < a.len() + x.len() {
            assert(s1[j] == x[j - a.len()]);
        } else {
            assert(s1[j] == b[j - a.len() - x.len()]);
        }
    }
    lemma_placeholder_at(s1, 0, k);
    assert(s1.subrange(0, k) + y + s1.subrange(k + 2, s1.len() as int) =~= a + x + b + y + c);
}

/// Lexicographic order from index `i` on (by code point, a proper prefix first).
pub open spec fn lex_lt_from(a: Seq<char>, b: Seq<char>, i: int) -> bool
    decreases a.len() - i,
{
    if i < 0 || i > a.len() || i > b.len() {
        false
    } else if i == a.len() {
        i < b.len()
    } else if i == b.len() {
        false
    } else if a[i] != b[i] {
        a[i] < b[i]
    } else {
        lex_lt_from(a, b, i + 1)
    }
}

/// Strict lexicographic order on names, as `str`'s `<` orders them.
pub open spec fn lex_lt(a: Seq<char>, b: Seq<char>) -> bool {
    lex_lt_from(a, b, 0)
}

/// `p` is a prefix of `s`.
pub open spec fn is_prefix(p: Seq<char>, s: Seq<char>) -> bool {
    p.len() <= s.len() && s.subrange(0, p.len() as int) == p
}

proof fn lemma_lex_from_irreflexive(a: Seq<char>, i: int)
    requires
        0 <= i <= a.len(),
    ensures
        !lex_lt_from(a, a, i),
    decreases a.len() - i,
{
    if i < a.len() {
        lemma_lex_from_irreflexive(a, i + 1);
    }
}

proof fn lemma_lex_from_total(a: Seq<char>, b: Seq<char>, i: int)
    requires
        0 <= i <= a.len(),
        i <= b.len(),
        a.subrange(0, i) == b.subrange(0, i),
        a != b,
    ensures
        lex_lt_from(a, b, i) || lex_lt_from(b, a, i),
    decreases a.len() - i,
{
    if i == a.len() && i == b.len() {
        assert(a =~= a.subrange(0, i));
        assert(b =~= b.subrange(0, i));
    } else if i < a.len() && i < b.len() && a[i] == b[i] {
        assert(a.subrange(0, i + 1) =~= a.subrange(0, i).push(a[i]));
        assert(b.subrange(0, i + 1) =~= b.subrange(0, i).push(b[i]));
        lemma_lex_from_total(a, b, i + 1);
    } else if i < a.len() && i < b.len() {
    }
}

proof fn lemma_lex_from_asym(a: Seq<char>, b: Seq<char>, i: int)
    requires
        lex_lt_from(a, b, i),
    ensures
        !lex_lt_from(b, a, i),
    decreases a.len() - i,
{
    if 0 <= i < a.len() && i < b.len() && a[i] == b[i] {
        lemma_lex_from_asym(a, b, i + 1);
    }
}

proof fn lemma_lex_from_trans(a: Seq<char>, b: Seq<char>, c: Seq<char>, i: int)
    requires
        lex_lt_from(a, b, i),
        lex_lt_from(b, c, i),
    ensures
        lex_lt_from(a, c, i),
    decreases a.len() - i,
{
    if 0 <= i < a.len() && i < b.len() && i < c.len() && a[i] == b[i] && b[i] == c[i] {
        lemma_lex_from_trans(a, b, c, i + 1);
    }
}

/// The lexicographic order is a strict total order.
pub proof fn lemma_lex_order(a: Seq<char>, b: Seq<char>, c: Seq<char>)
    ensures
        !lex_lt(a, a),
        a != b ==> lex_lt(a, b) || lex_lt(b, a),
        lex_lt(a, b) ==> !lex_lt(b, a),
        lex_lt(a, b) && lex_lt(b, c) ==> lex_lt(a, c),
{
    lemma_lex_from_irreflexive(a, 0);
    if a != b {
        assert(a.subrange(0, 0) =~= b.subrange(0, 0));
        lemma_lex_from_total(a, b, 0);
    }
    if lex_lt(a, b) {
        lemma_lex_from_asym(a, b, 0);
        if lex_lt(b, c) {
            lemma_lex_from_trans(a, b, c, 0);
        }
    }
}

/// The index of the closing brace of a reference `${NAME}` that starts at `i`.
pub fn reference_end(s: &str, i: usize) -> (r: Option<usize>)
    requires
        i < s@.len(),
    ensures
        r == (match reference_at(s@, i as int) {
            Some(e) => Some(e as usize),
            None => None::<usize>,
        }),
{
    let n = s.unicode_len();
    if i >= n || n - i <= 2 {
        return None;
    }
    if s.get_char(i) != '$' || s.get_char(i + 1) != '{' || !is_name_start_char(s.get_char(i + 2)) {
        return None;
    }
    let mut j: usize = i + 2;
    while j < n && is_name_char_exec(s.get_char(j))
        invariant
            n == s@.len(),
            i + 2 <= j <= n,
            name_end(s@, i + 2) == name_end(s@, j as int),
            j > i + 2 || is_name_start(s@[j as int]),
        decreases n - j,
    {
        j = j + 1;
    }
    assert(name_end(s@, j as int) == j);
    if j < n && s.get_char(j) == '}' {
        Some(j)
    } else {
        None
    }
}

fn is_name_start_char(c: char) -> (r: bool)
    ensures
        r == is_name_start(c),
{
    ('A' <= c && c <= 'Z') || ('a' <= c && c <= 'z') || c == '_'
}

fn is_name_char_exec(c: char) -> (r: bool)
    ensures
        r == is_name_char(c),
{
    is_name_start_char(c) || ('0' <= c && c <= '9')
}

/// The names referenced as `${NAME}` in `s`, left to right.
pub fn references_in(s: &str) -> (r: Vec<String>)
    ensures
        r@.map_values(|x: String| x@) == references(s@),
{
    let n = s.unicode_len();
    let mut out: Vec<String> = Vec::new();
    let mut i: usize = 0;
    while i < n
        invariant
            n == s@.len(),
            i <= n,
            references(s@) == out@.map_values(|x: String| x@) + references_from(s@, i as int),
        decreases n - i,
    {
        match reference_end(s, i) {
            Some(e) => {
                let name = String::from_str(s.substring_char(i + 2, e));
                let ghost before = out@.map_values(|x: String| x@);
                out.push(name);
                assert(out@.map_values(|x: String| x@) =~= before.push(name@));
                assert(before.push(name@) + references_from(s@, e + 1) =~= before + (seq![name@]
                    + references_from(s@, e + 1)));
                i = e + 1;
            },
            None => {
                i = i + 1;
            },
        }
    }
    assert(references_from(s@, n as int) =~= Seq::<Seq<char>>::empty());
    assert(out@.map_values(|x: String| x@) + Seq::<Seq<char>>::empty() =~= out@.map_values(
        |x: String| x@,
    ));
    out
}

/// `s` with its first `{}` replaced by `v`.
pub fn replace_first_placeholder(s: &str, v: &str) -> (r: String)
    ensures
        r@ == fill_first(s@, v@),
{
    let n = s.unicode_len();
    let mut i: usize = 0;
    while i < n && i + 1 < n
        invariant
            n == s@.len(),
            i <= n,
            placeholder_from(s@, 0) == placeholder_from(s@, i as int),
        decreases n - i,
    {
        if s.get_char(i) == '{' && s.get_char(i + 1) == '}' {
            let mut r = String::from_str(s.substring_char(0, i));
            r.append(v);
            r.append(s.substring_char(i + 2, n));
            return r;
        }
        i = i + 1;
    }
    String::from_str(s)
}

/// A white-space character, as `char::is_whitespace` defines it (the
/// Unicode `White_Space` property).
pub open spec fn is_white(c: char) -> bool {
    ('\t' <= c && c <= '\r') || c == ' ' || c == '\u{85}' || c == '\u{a0}' || c == '\u{1680}'
        || ('\u{2000}' <= c && c <= '\u{200a}') || c == '\u{2028}' || c == '\u{2029}' || c
        == '\u{202f}' || c == '\u{205f}' || c == '\u{3000}'
}

fn is_white_char(c: char) -> (r: bool)
    ensures
        r == is_white(c),
{
    ('\t' <= c && c <= '\r') || c == ' ' || c == '\u{85}' || c == '\u{a0}' || c == '\u{1680}'
        || ('\u{2000}' <= c && c <= '\u{200a}') || c == '\u{2028}' || c == '\u{2029}' || c
        == '\u{202f}' || c == '\u{205f}' || c == '\u{3000}'
}

/// `s` without its leading white space.
pub open spec fn trim_start(s: Seq<char>) -> Seq<char>
    decreases s.len(),
{
    if s.len() > 0 && is_white(s[0]) {
        trim_start(s.drop_first())
    } else {
        s
    }
}

/// `s` without its trailing white space.
pub open spec fn trim_end(s: Seq<char>) -> Seq<char>
    decreases s.len(),
{
    if s.len() > 0 && is_white(s.last()) {
        trim_end(s.drop_last())
    } else {
        s
    }
}

/// `s` without its leading and trailing white space, as `str::trim` gives it.
pub open spec fn trimmed(s: Seq<char>) -> Seq<char> {
    trim_end(trim_start(s))
}

/// `s` without its leading and trailing white space.
pub fn trim_text(s: &str) -> (r: String)
    ensures
        r@ == trimmed(s@),
{
    let n = s.unicode_len();
    let mut a: usize = 0;
    assert(s@.subrange(0, n as int) =~= s@);
    while a < n && is_white_char(s.get_char(a))
        invariant
            n == s@.len(),
            a <= n,
            trim_start(s@) == trim_start(s@.subrange(a as int, n as int)),
        decreases n - a,
    {
        assert(s@.subrange(a as int, n as int).drop_first() =~= s@.subrange(a + 1, n as int));
        a = a + 1;
    }
    let ghost t = s@.subrange(a as int, n as int);
    assert(trim_start(t) == t);
    let mut b: usize = n;
    while b > a && is_white_char(s.get_char(b - 1))
        invariant
            n == s@.len(),
            a <= b <= n,
            t == s@.subrange(a as int, n as int),
            trim_end(t) == trim_end(s@.subrange(a as int, b as int)),
        decreases b,
    {
        assert(s@.subrange(a as int, b as int).drop_last() =~= s@.subrange(a as int, b - 1));
        b = b - 1;
    }
    String::from_str(s.substring_char(a, b))
}

/// The index of the first line feed in `s` at or after `i`.
pub open spec fn newline_from(s: Seq<char>, i: int) -> Option<int>
    decreases s.len() - i,
{
    if i < 0 || i >= s.len() {
        None
    } else if s[i] == '\n' {
        Some(i)
    } else {
        newline_from(s, i + 1)
    }
}

/// A line without the carriage return that ends it, if any.
pub open spec fn without_cr(l: Seq<char>) -> Seq<char> {
    if l.len() > 0 && l.last() == '\r' {
        l.drop_last()
    } else {
        l
    }
}

/// The lines of `s` from `start` on, as `str::lines` gives them: split at
/// line feeds, a carriage return before a line feed dropped, no empty line
/// after a final line feed.
pub open spec fn lines_from(s: Seq<char>, start: int) -> Seq<Seq<char>>
    decreases s.len() - start,
{
    if start < 0 || start >= s.len() {
        Seq::empty()
    } else {
        match newline_from(s, start) {
            Some(k) => if start <= k < s.len() {
                seq![without_cr(s.subrange(start, k))] + lines_from(s, k + 1)
            } else {
                Seq::empty()
            },
            None => seq![s.subrange(start, s.len() as int)],
        }
    }
}

/// The lines of `s`.
pub open spec fn lines_of(s: Seq<char>) -> Seq<Seq<char>> {
    lines_from(s, 0)
}

proof fn lemma_newline_from_bounds(s: Seq<char>, i: int)
    requires
        0 <= i,
    ensures
        match newline_from(s, i) {
            Some(k) => i <= k < s.len() && s[k] == '\n',
            None => true,
        },
    decreases s.len() - i,
{
    if i < s.len() && s[i] != '\n' {
        lemma_newline_from_bounds(s, i + 1);
    }
}

/// The lines of `s`, as `str::lines` gives them.
pub fn split_lines(s: &str) -> (r: Vec<String>)
    ensures
        r@.map_values(|x: String| x@) == lines_of(s@),
{
    let n = s.unicode_len();
    let mut out: Vec<String> = Vec::new();
    let mut start: usize = 0;
    while start < n
        invariant
            n == s@.len(),
            start <= n,
            lines_of(s@) == out@.map_values(|x: String| x@) + lines_from(s@, start as int),
        decreases n - start,
    {
        let mut k: usize = start;
        while k < n && s.get_char(k) != '\n'
            invariant
                n == s@.len(),
                start <= k <= n,
                newline_from(s@, start as int) == newline_from(s@, k as int),
            decreases n - k,
        {
            k = k + 1;
        }
        proof {
            lemma_newline_from_bounds(s@, start as int);
        }
        let ghost before = out@.map_values(|x: String| x@);
        if k < n {
            let mut e = k;
            if e > start && s.get_char(e - 1) == '\r' {
                e = e - 1;
            }
            let line = String::from_str(s.substring_char(start, e));
            assert(line@ == without_cr(s@.subrange(start as int, k as int))) by {
                if k > start && s@[k - 1] == '\r' {
                    assert(s@.subrange(start as int, k as int).drop_last() =~= s@.subrange(start as int, k - 1));
                }
            }
            out.push(line);
            assert(out@.map_values(|x: String| x@) =~= before.push(line@));
            assert(before.push(line@) + lines_from(s@, k + 1) =~= before + (seq![line@] + lines_from(s@, k + 1)));
            start = k + 1;
        } else {
            let line = String::from_str(s.substring_char(start, n));
            out.push(line);
            assert(out@.map_values(|x: String| x@) =~= before.push(line@));
            assert(lines_from(s@, n as int) =~= Seq::<Seq<char>>::empty());
            assert(before + seq![line@] =~= before.push(line@));
            start = n;
        }
    }
    assert(out@.map_values(|x: String| x@) + Seq::<Seq<char>>::empty() =~= out@.map_values(|x: String| x@));
    out
}

/// `s` as a fresh `String`.
pub fn to_owned_string(s: &str) -> (r: String)
    ensures
        r@ == s@,
{
    String::from_str(s)
}

/// Whether two names are equal.
pub fn str_eq(a: &str, b: &str) -> (r: bool)
    ensures
        r == (a@ == b@),
{
    let n = a.unicode_len();
    if n != b.unicode_len() {
        return false;
    }
    let mut i: usize = 0;
    while i < n
        invariant
            n == a@.len() == b@.len(),
            i <= n,
            a@.subrange(0, i as int) == b@.subrange(0, i as int),
        decreases n - i,
    {
        if a.get_char(i) != b.get_char(i) {
            return false;
        }
        assert(a@.subrange(0, i + 1) =~= a@.subrange(0, i as int).push(a@[i as int]));
        assert(b@.subrange(0, i + 1) =~= b@.subrange(0, i as int).push(b@[i as int]));
        i = i + 1;
    }
    assert(a@ =~= a@.subrange(0, n as int));
    assert(b@ =~= b@.subrange(0, n as int));
    true
}

/// Whether `p` is a prefix of `s`.
pub fn starts_with(s: &str, p: &str) -> (r: bool)
    ensures
        r == is_prefix(p@, s@),
{
    let n = p.unicode_len();
    if n > s.unicode_len() {
        return false;
    }
    let mut i: usize = 0;
    while i < n
        invariant
            n == p@.len() <= s@.len(),
            i <= n,
            s@.subrange(0, i as int) == p@.subrange(0, i as int),
        decreases n - i,
    {
        if s.get_char(i) != p.get_char(i) {
            assert(s@.subrange(0, n as int)[i as int] != p@[i as int]);
            return false;
        }
        assert(s@.subrange(0, i + 1) =~= s@.subrange(0, i as int).push(s@[i as int]));
        assert(p@.subrange(0, i + 1) =~= p@.subrange(0, i as int).push(p@[i as int]));
        i = i + 1;
    }
    assert(p@ =~= p@.subrange(0, n as int));
    true
}

/// Whether `a` comes strictly before `b` in lexicographic order.
pub fn lex_less(a: &str, b: &str) -> (r: bool)
    ensures
        r == lex_lt(a@, b@),
{
    let na = a.unicode_len();
    let nb = b.unicode_len();
    let mut i: usize = 0;
    while i < na && i < nb
        invariant
            na == a@.len(),
            nb == b@.len(),
            i <= na,
            i <= nb,
            lex_lt(a@, b@) == lex_lt_from(a@, b@, i as int),
        decreases na - i,
    {
        let ca = a.get_char(i);
        let cb = b.get_char(i);
        if ca != cb {
            return ca < cb;
        }
        i = i + 1;
    }
    i == na && i < nb
}

} // verus!
