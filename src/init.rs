//! Shell integration: the path of this program quoted for each shell, and
//! the integration scripts with that path filled in.
use vstd::prelude::*;

verus! {

/// The path of this program.
pub struct UsePath {
    pub native_path: String,
}

/// `s` with each `'` doubled, as a PowerShell single-quoted string needs.
pub open spec fn pwsh_escaped(s: Seq<char>) -> Seq<char>
    decreases s.len(),
{
    if s.len() == 0 {
        Seq::empty()
    } else {
        pwsh_escaped(s.drop_last()) + if s.last() == '\'' {
            seq!['\'', '\'']
        } else {
            seq![s.last()]
        }
    }
}

/// `s` from index `i` on with each occurrence of `marker` replaced by
/// `with`, occurrences taken left to right without overlap.
pub open spec fn replaced_from(s: Seq<char>, i: int, marker: Seq<char>, with: Seq<char>) -> Seq<char>
    decreases s.len() - i,
{
    if i < 0 || i >= s.len() {
        Seq::empty()
    } else if marker.len() > 0 && i + marker.len() <= s.len() && s.subrange(i, i + marker.len())
        == marker {
        with + replaced_from(s, i + marker.len(), marker, with)
    } else {
        seq![s[i]] + replaced_from(s, i + 1, marker, with)
    }
}

/// The placeholder for the program's path in the integration scripts.
pub open spec fn path_marker() -> Seq<char> {
    seq![':', ':', 'U', 'S', 'E', ':', ':']
}

fn marker_at(s: &str, i: usize, n: usize) -> (r: bool)
    requires
        n == s@.len(),
        i < n,
    ensures
        r == (i + 7 <= n && s@.subrange(i as int, i + 7) == path_marker()),
{
    if n - i < 7 {
        return false;
    }
    let m = [':', ':', 'U', 'S', 'E', ':', ':'];
    let mut k: usize = 0;
    while k < 7
        invariant
            n == s@.len(),
            i + 7 <= n,
            k <= 7,
            m@ == path_marker(),
            s@.subrange(i as int, i + k) == path_marker().subrange(0, k as int),
        decreases 7 - k,
    {
        if s.get_char(i + k) != m[k] {
            assert(s@.subrange(i as int, i + 7)[k as int] != path_marker()[k as int]);
            return false;
        }
        assert(s@.subrange(i as int, i + k + 1) =~= s@.subrange(i as int, i + k).push(s@[i + k]));
        assert(path_marker().subrange(0, k + 1) =~= path_marker().subrange(0, k as int).push(
            path_marker()[k as int],
        ));
        k = k + 1;
    }
    assert(path_marker().subrange(0, 7) =~= path_marker());
    true
}

/// The integration script `script` with each `::USE::` replaced by `path`.
pub fn fill_script(script: &str, path: &str) -> (r: String)
    ensures
        r@ == replaced_from(script@, 0, path_marker(), path@),
{
    let n = script.unicode_len();
    let mut out = String::new();
    let mut i: usize = 0;
    while i < n
        invariant
            n == script@.len(),
            i <= n,
            replaced_from(script@, 0, path_marker(), path@) == out@ + replaced_from(
                script@,
                i as int,
                path_marker(),
                path@,
            ),
        decreases n - i,
    {
        let ghost before = out@;
        if marker_at(script, i, n) {
            out.append(path);
            assert(before + (path@ + replaced_from(script@, i + 7, path_marker(), path@)) =~= out@
                + replaced_from(script@, i + 7, path_marker(), path@));
            i = i + 7;
        } else {
            out.append(script.substring_char(i, i + 1));
            assert(script@.subrange(i as int, i + 1) =~= seq![script@[i as int]]);
            assert(before + (seq![script@[i as int]] + replaced_from(script@, i + 1, path_marker(), path@))
                =~= out@ + replaced_from(script@, i + 1, path_marker(), path@));
            i = i + 1;
        }
    }
    assert(out@ + replaced_from(script@, n as int, path_marker(), path@) =~= out@);
    out
}

impl UsePath {
    /// The path as text.
    pub fn str_path(&self) -> (r: &str)
        ensures
            r@ == self.native_path@,
    {
        self.native_path.as_str()
    }

    /// The path as a PowerShell single-quoted string.
    pub fn sprint_pwsh(&self) -> (r: String)
        ensures
            r@ == seq!['\''] + pwsh_escaped(self.native_path@) + seq!['\''],
    {
        let s = self.str_path();
        let n = s.unicode_len();
        let mut out = String::from_str("'");
        proof {
            reveal_strlit("'");
        }
        let mut i: usize = 0;
        while i < n
            invariant
                n == s@.len(),
                s@ == self.native_path@,
                i <= n,
                out@ == seq!['\''] + pwsh_escaped(s@.subrange(0, i as int)),
            decreases n - i,
        {
            let c = s.substring_char(i, i + 1);
            assert(s@.subrange(0, i + 1).drop_last() =~= s@.subrange(0, i as int));
            if s.get_char(i) == '\'' {
                out.append("''");
                proof {
                    reveal_strlit("''");
                }
            } else {
                out.append(c);
            }
            assert(out@ =~= seq!['\''] + pwsh_escaped(s@.subrange(0, i + 1)));
            i = i + 1;
        }
        out.append("'");
        assert(s@.subrange(0, n as int) =~= s@);
        out
    }

    /// The path as a cmd.exe double-quoted string.
    pub fn sprint_cmdexe(&self) -> (r: String)
        ensures
            r@ == "\""@ + self.native_path@ + "\""@,
    {
        let mut out = String::from_str("\"");
        out.append(self.str_path());
        out.append("\"");
        out
    }
}

} // verus!
