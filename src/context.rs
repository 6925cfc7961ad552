//! The running context: operating system, shell, and where the catalog lives.
use vstd::prelude::*;
use crate::text::str_eq;

verus! {

/// The operating system the tool runs on.
#[derive(Debug, Clone, Copy, PartialEq, Eq, Structural)]
pub enum OperatingSystem {
    Windows,
    MacOS,
    Linux,
    Unknown,
}

/// The shell whose syntax is emitted.
#[derive(Debug, Clone, Copy, PartialEq, Eq, Structural)]
pub enum Shell {
    Cmd,
    Powershell,
    Unknown,
}

/// The current operating system and shell, and the catalog's path.
pub struct Context {
    pub os: OperatingSystem,
    pub shell: Shell,
    pub config_path: String,
}

/// One token of a context filter holds for `os` and `shell`: it names the
/// current operating system or the current shell. A token outside that
/// vocabulary never holds, so its entry is left out.
pub open spec fn token_holds(os: OperatingSystem, shell: Shell, t: Seq<char>) -> bool {
    ||| t == "windows"@ && os == OperatingSystem::Windows
    ||| t == "macos"@ && os == OperatingSystem::MacOS
    ||| t == "linux"@ && os == OperatingSystem::Linux
    ||| t == "cmd"@ && shell == Shell::Cmd
    ||| (t == "powershell"@ || t == "pwsh"@) && shell == Shell::Powershell
}

/// The index of the first `,` in `s` at or after `i`.
pub open spec fn comma_from(s: Seq<char>, i: int) -> Option<int>
    decreases s.len() - i,
{
    if i < 0 || i >= s.len() {
        None
    } else if s[i] == ',' {
        Some(i)
    } else {
        comma_from(s, i + 1)
    }
}

/// Every comma-separated token of `s` from `start` on holds.
pub open spec fn filter_holds_from(os: OperatingSystem, shell: Shell, s: Seq<char>, start: int) -> bool
    decreases s.len() - start,
{
    if start < 0 || start > s.len() {
        true
    } else {
        match comma_from(s, start) {
            Some(k) => if start <= k < s.len() {
                token_holds(os, shell, s.subrange(start, k)) && filter_holds_from(os, shell, s, k + 1)
            } else {
                true
            },
            None => token_holds(os, shell, s.subrange(start, s.len() as int)),
        }
    }
}

/// A context filter, a comma-separated list of operating system and shell
/// names, holds for `os` and `shell`.
pub open spec fn filter_holds(os: OperatingSystem, shell: Shell, s: Seq<char>) -> bool {
    filter_holds_from(os, shell, s, 0)
}

proof fn lemma_comma_from_bounds(s: Seq<char>, i: int)
    requires
        0 <= i,
    ensures
        match comma_from(s, i) {
            Some(k) => i <= k < s.len() && s[k] == ',',
            None => true,
        },
    decreases s.len() - i,
{
    if i < s.len() && s[i] != ',' {
        lemma_comma_from_bounds(s, i + 1);
    }
}

/// `p` occurs in `s`.
pub open spec fn contains_text(s: Seq<char>, p: Seq<char>) -> bool {
    exists|i: int| 0 <= i <= s.len() - p.len() && #[trigger] s.subrange(i, i + p.len()) == p
}

/// Whether `p` occurs in `s`.
fn find_text(s: &str, p: &str) -> (r: bool)
    ensures
        r == contains_text(s@, p@),
{
    let n = s.unicode_len();
    let m = p.unicode_len();
    if m > n {
        return false;
    }
    if m == 0 {
        assert(s@.subrange(0int, 0int + p@.len()) =~= p@);
        return true;
    }
    let mut i: usize = 0;
    while m <= n - i
        invariant
            n == s@.len(),
            m == p@.len(),
            0 < m <= n,
            i <= n,
            forall|j: int| 0 <= j < i ==> #[trigger] s@.subrange(j, j + m) != p@,
        decreases n - i,
    {
        if str_eq(s.substring_char(i, i + m), p) {
            return true;
        }
        i = i + 1;
    }
    false
}

/// The shell that the `USE_SHELL` value names: cmd when it mentions `cmd`,
/// otherwise PowerShell when it mentions `powershell` or `pwsh`.
pub open spec fn shell_named(value: Seq<char>) -> Shell {
    if contains_text(value, "cmd"@) {
        Shell::Cmd
    } else if contains_text(value, "powershell"@) || contains_text(value, "pwsh"@) {
        Shell::Powershell
    } else {
        Shell::Unknown
    }
}

impl Shell {
    /// The shell that the `USE_SHELL` variable names, if it is set.
    pub fn detect(use_shell: Option<&str>) -> (r: Shell)
        ensures
            r == (match use_shell {
                Some(v) => shell_named(v@),
                None => Shell::Unknown,
            }),
    {
        match use_shell {
            Some(v) => {
                if find_text(v, "cmd") {
                    Shell::Cmd
                } else if find_text(v, "powershell") || find_text(v, "pwsh") {
                    Shell::Powershell
                } else {
                    Shell::Unknown
                }
            },
            None => Shell::Unknown,
        }
    }
}

impl Context {
    /// Whether a token holds in this context.
    fn token_allowed(&self, t: &str) -> (r: bool)
        ensures
            r == token_holds(self.os, self.shell, t@),
    {
        proof {
            reveal_strlit("windows");
            reveal_strlit("macos");
            reveal_strlit("linux");
            reveal_strlit("cmd");
            reveal_strlit("powershell");
            reveal_strlit("pwsh");
        }
        (str_eq(t, "windows") && self.os == OperatingSystem::Windows)
            || (str_eq(t, "macos") && self.os == OperatingSystem::MacOS)
            || (str_eq(t, "linux") && self.os == OperatingSystem::Linux)
            || (str_eq(t, "cmd") && self.shell == Shell::Cmd)
            || ((str_eq(t, "powershell") || str_eq(t, "pwsh")) && self.shell == Shell::Powershell)
    }

    /// Whether the context filter `context` holds: every comma-separated
    /// token names the current operating system or the current shell.
    pub fn check(&self, context: &str) -> (r: bool)
        ensures
            r == filter_holds(self.os, self.shell, context@),
    {
        let n = context.unicode_len();
        let mut start: usize = 0;
        loop
            invariant
                n == context@.len(),
                start <= n,
                filter_holds(self.os, self.shell, context@) == filter_holds_from(
                    self.os,
                    self.shell,
                    context@,
                    start as int,
                ),
            decreases n - start,
        {
            let mut k: usize = start;
            while k < n && context.get_char(k) != ','
                invariant
                    n == context@.len(),
                    start <= k <= n,
                    comma_from(context@, start as int) == comma_from(context@, k as int),
                decreases n - k,
            {
                k = k + 1;
            }
            proof {
                lemma_comma_from_bounds(context@, start as int);
            }
            let token = context.substring_char(start, k);
            if !self.token_allowed(token) {
                return false;
            }
            if k == n {
                return true;
            }
            start = k + 1;
        }
    }
}

} // verus!
