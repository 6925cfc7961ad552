//! Shell backends: each turns the commands of an environment into the
//! lines its shell evaluates (cmd, PowerShell) or a person reads (debug).
use vstd::prelude::*;
use crate::colorize::{wrapped, Colorize};
use crate::text::{
    lines_of, reference_end, split_lines, str_eq, substitute, substitute_from,
};

verus! {

/// One step of applying environments.
pub enum Command {
    /// An environment starts.
    Start(String, String),
    /// An environment is done.
    Finish,
    /// All environments are applied; the last one is named.
    Finalize(String, String),
    /// A message for the user.
    Echo(String),
    /// A script to run.
    Run(String),
    /// Set a variable.
    SetVar(String, String),
    /// Append to a variable, with the path separator.
    Append(String, String),
    /// Prepend to a variable, with the path separator.
    Prepend(String, String),
    /// Prepend a directory to `PATH`.
    PrependPath(String),
    /// Change directory.
    Go(String),
    /// Change the terminal's title.
    ChangeTitle(String),
}

/// A `Command` over character sequences.
pub enum CommandView {
    Start(Seq<char>, Seq<char>),
    Finish,
    Finalize(Seq<char>, Seq<char>),
    Echo(Seq<char>),
    Run(Seq<char>),
    SetVar(Seq<char>, Seq<char>),
    Append(Seq<char>, Seq<char>),
    Prepend(Seq<char>, Seq<char>),
    PrependPath(Seq<char>),
    Go(Seq<char>),
    ChangeTitle(Seq<char>),
}

impl View for Command {
    type V = CommandView;

    open spec fn view(&self) -> CommandView {
        match self {
            Command::Start(a, b) => CommandView::Start(a@, b@),
            Command::Finish => CommandView::Finish,
            Command::Finalize(a, b) => CommandView::Finalize(a@, b@),
            Command::Echo(a) => CommandView::Echo(a@),
            Command::Run(a) => CommandView::Run(a@),
            Command::SetVar(a, b) => CommandView::SetVar(a@, b@),
            Command::Append(a, b) => CommandView::Append(a@, b@),
            Command::Prepend(a, b) => CommandView::Prepend(a@, b@),
            Command::PrependPath(a) => CommandView::PrependPath(a@),
            Command::Go(a) => CommandView::Go(a@),
            Command::ChangeTitle(a) => CommandView::ChangeTitle(a@),
        }
    }
}

/// An optional line as characters.
pub open spec fn opt_text(o: Option<String>) -> Option<Seq<char>> {
    match o {
        Some(s) => Some(s@),
        None => None,
    }
}

/// A shell backend: the line (if any) for each command, and the syntax of a
/// reference to an environment variable.
pub trait ShellPrinter {
    /// How a reference to the variable `name` is written.
    spec fn var_ref(&self, name: Seq<char>) -> Seq<char>;

    /// The line printed for `c`, if any.
    spec fn text_of(&self, c: CommandView) -> Option<Seq<char>>;

    /// The reference to the variable `env` in this shell's syntax.
    fn env_variable(&self, env: &str) -> (r: String)
        ensures
            r@ == self.var_ref(env@),
    ;

    /// The line printed for `c`, if any.
    fn line(&self, c: &Command) -> (r: Option<String>)
        ensures
            opt_text(r) == self.text_of(c@),
    ;
}

/// The lines printed for `cmds`, in order.
pub open spec fn printed_lines<P: ShellPrinter>(p: P, cmds: Seq<CommandView>) -> Seq<Seq<char>>
    decreases cmds.len(),
{
    if cmds.len() == 0 {
        Seq::empty()
    } else {
        printed_lines(p, cmds.drop_last()) + match p.text_of(cmds.last()) {
            Some(l) => seq![l],
            None => Seq::empty(),
        }
    }
}

/// The lines that `printer` prints for `cmds`.
pub fn print_commands<P: ShellPrinter>(printer: &P, cmds: &Vec<Command>) -> (r: Vec<String>)
    ensures
        r@.map_values(|s: String| s@) == printed_lines(*printer, cmds@.map_values(|c: Command| c@)),
{
    let mut out: Vec<String> = Vec::new();
    let mut i: usize = 0;
    while i < cmds.len()
        invariant
            i <= cmds@.len(),
            out@.map_values(|s: String| s@) == printed_lines(
                *printer,
                cmds@.subrange(0, i as int).map_values(|c: Command| c@),
            ),
        decreases cmds@.len() - i,
    {
        let ghost before = out@.map_values(|s: String| s@);
        let line = printer.line(&cmds[i]);
        let ghost cv = cmds@.subrange(0, i + 1).map_values(|c: Command| c@);
        assert(cv.drop_last() =~= cmds@.subrange(0, i as int).map_values(|c: Command| c@));
        assert(cv.last() == cmds@[i as int]@);
        match line {
            Some(l) => {
                out.push(l);
                assert(out@.map_values(|s: String| s@) =~= before + seq![l@]);
            },
            None => {
                assert(before + Seq::<Seq<char>>::empty() =~= before);
            },
        }
        i = i + 1;
    }
    assert(cmds@.subrange(0, i as int) =~= cmds@);
    out
}

/// `value` with each reference `${NAME}` written in `printer`'s syntax.
pub fn substitute_env_vars<P: ShellPrinter>(value: &str, printer: &P) -> (r: String)
    ensures
        r@ == substitute(value@, |n: Seq<char>| printer.var_ref(n)),
{
    let ghost f = |n: Seq<char>| printer.var_ref(n);
    let n = value.unicode_len();
    let mut out = String::new();
    let mut i: usize = 0;
    while i < n
        invariant
            n == value@.len(),
            i <= n,
            f == (|n: Seq<char>| printer.var_ref(n)),
            substitute(value@, f) == out@ + substitute_from(value@, i as int, f),
        decreases n - i,
    {
        let ghost before = out@;
        match reference_end(value, i) {
            Some(e) => {
                let r = printer.env_variable(value.substring_char(i + 2, e));
                out.append(r.as_str());
                assert(before + (r@ + substitute_from(value@, e + 1, f)) =~= out@ + substitute_from(value@, e + 1, f));
                i = e + 1;
            },
            None => {
                out.append(value.substring_char(i, i + 1));
                assert(value@.subrange(i as int, i + 1) =~= seq![value@[i as int]]);
                assert(before + (seq![value@[i as int]] + substitute_from(value@, i + 1, f)) =~= out@ + substitute_from(value@, i + 1, f));
                i = i + 1;
            },
        }
    }
    assert(out@ + substitute_from(value@, n as int, f) =~= out@);
    out
}

/// The three texts one after the other.
fn join3(a: &str, b: &str, c: &str) -> (r: String)
    ensures
        r@ == a@ + b@ + c@,
{
    let mut r = String::from_str(a);
    r.append(b);
    r.append(c);
    r
}

fn join2(a: &str, b: &str) -> (r: String)
    ensures
        r@ == a@ + b@,
{
    let mut r = String::from_str(a);
    r.append(b);
    r
}

/// The cmd.exe backend.
pub struct CmdPrinter {}

impl ShellPrinter for CmdPrinter {
    open spec fn var_ref(&self, name: Seq<char>) -> Seq<char> {
        "%"@ + name + "%"@
    }

    open spec fn text_of(&self, c: CommandView) -> Option<Seq<char>> {
        match c {
            CommandView::Start(_, d) => Some("echo "@ + wrapped("\x1b[1;32m"@, " Configuring"@) + " "@ + d),
            CommandView::Finish => None,
            CommandView::Finalize(_, d) => Some(
                "echo "@ + wrapped("\x1b[1;32m"@, "    Finished"@) + " setting up "@ + wrapped(
                    "\x1b[0;34m"@,
                    d,
                ),
            ),
            CommandView::Echo(m) => Some("echo "@ + m),
            CommandView::Run(s) => Some(s),
            CommandView::SetVar(k, v) => Some("@set "@ + k + "="@ + v),
            CommandView::Append(k, v) => Some("@set "@ + k + "=%"@ + k + "%;"@ + v),
            CommandView::Prepend(k, v) => Some("@set "@ + k + "="@ + v + ";%"@ + k + "%"@),
            CommandView::PrependPath(p) => Some("@set PATH="@ + p + ";%PATH%"@),
            CommandView::Go(p) => Some("chdir /D "@ + p),
            CommandView::ChangeTitle(t) => Some("TITLE "@ + t),
        }
    }

    fn env_variable(&self, env: &str) -> (r: String) {
        join3("%", env, "%")
    }

    fn line(&self, c: &Command) -> (r: Option<String>) {
        match c {
            Command::Start(_, d) => {
                let mut r = String::from_str("echo ");
                r.append(" Configuring".success().as_str());
                r.append(" ");
                r.append(d.as_str());
                Some(r)
            },
            Command::Finish => None,
            Command::Finalize(_, d) => {
                let mut r = String::from_str("echo ");
                r.append("    Finished".success().as_str());
                r.append(" setting up ");
                r.append(d.as_str().info().as_str());
                Some(r)
            },
            Command::Echo(m) => Some(join2("echo ", m.as_str())),
            Command::Run(s) => Some(s.clone()),
            Command::SetVar(k, v) => {
                let mut r = join3("@set ", k.as_str(), "=");
                r.append(v.as_str());
                Some(r)
            },
            Command::Append(k, v) => {
                let mut r = join3("@set ", k.as_str(), "=%");
                r.append(k.as_str());
                r.append("%;");
                r.append(v.as_str());
                Some(r)
            },
            Command::Prepend(k, v) => {
                let mut r = join3("@set ", k.as_str(), "=");
                r.append(v.as_str());
                r.append(";%");
                r.append(k.as_str());
                r.append("%");
                Some(r)
            },
            Command::PrependPath(p) => Some(join3("@set PATH=", p.as_str(), ";%PATH%")),
            Command::Go(p) => Some(join2("chdir /D ", p.as_str())),
            Command::ChangeTitle(t) => Some(join2("TITLE ", t.as_str())),
        }
    }
}

/// The PowerShell backend.
pub struct PowershellPrinter {}

impl ShellPrinter for PowershellPrinter {
    open spec fn var_ref(&self, name: Seq<char>) -> Seq<char> {
        "$env:"@ + name
    }

    open spec fn text_of(&self, c: CommandView) -> Option<Seq<char>> {
        match c {
            CommandView::Start(_, d) => Some(
                "Write-Host '"@ + wrapped("\x1b[1;32m"@, " Configuring"@) + " "@ + d + "'"@,
            ),
            CommandView::Finish => None,
            CommandView::Finalize(_, d) => Some(
                "Write-Host '"@ + wrapped("\x1b[1;32m"@, "    Finished"@) + " setting up "@ + wrapped(
                    "\x1b[0;34m"@,
                    d,
                ) + "'"@,
            ),
            CommandView::Echo(m) => Some("Write-Host '"@ + m + "'"@),
            CommandView::Run(s) => Some(s),
            CommandView::SetVar(k, v) => Some("$env:"@ + k + " = '"@ + v + "'"@),
            CommandView::Append(k, v) => Some("$env:"@ + k + " += \";"@ + v + "\""@),
            CommandView::Prepend(k, v) => Some("$env:"@ + k + " = \""@ + v + ";$env:"@ + k + "\""@),
            CommandView::PrependPath(p) => Some("$env:PATH = \""@ + p + ";$env:PATH\""@),
            CommandView::Go(p) => Some("Set-Location "@ + p),
            CommandView::ChangeTitle(t) => Some("$host.ui.RawUI.WindowTitle = '"@ + t + "'"@),
        }
    }

    fn env_variable(&self, env: &str) -> (r: String) {
        join2("$env:", env)
    }

    fn line(&self, c: &Command) -> (r: Option<String>) {
        match c {
            Command::Start(_, d) => {
                let mut r = String::from_str("Write-Host '");
                r.append(" Configuring".success().as_str());
                r.append(" ");
                r.append(d.as_str());
                r.append("'");
                Some(r)
            },
            Command::Finish => None,
            Command::Finalize(_, d) => {
                let mut r = String::from_str("Write-Host '");
                r.append("    Finished".success().as_str());
                r.append(" setting up ");
                r.append(d.as_str().info().as_str());
                r.append("'");
                Some(r)
            },
            Command::Echo(m) => Some(join3("Write-Host '", m.as_str(), "'")),
            Command::Run(s) => Some(s.clone()),
            Command::SetVar(k, v) => {
                let mut r = join3("$env:", k.as_str(), " = '");
                r.append(v.as_str());
                r.append("'");
                Some(r)
            },
            Command::Append(k, v) => {
                let mut r = join3("$env:", k.as_str(), " += \";");
                r.append(v.as_str());
                r.append("\"");
                Some(r)
            },
            Command::Prepend(k, v) => {
                let mut r = join3("$env:", k.as_str(), " = \"");
                r.append(v.as_str());
                r.append(";$env:");
                r.append(k.as_str());
                r.append("\"");
                Some(r)
            },
            Command::PrependPath(p) => Some(join3("$env:PATH = \"", p.as_str(), ";$env:PATH\"")),
            Command::Go(p) => Some(join2("Set-Location ", p.as_str())),
            Command::ChangeTitle(t) => Some(join3("$host.ui.RawUI.WindowTitle = '", t.as_str(), "'")),
        }
    }
}

/// `s` in the colour `code` when colours are on, as the console styles text.
pub open spec fn paint(colors: bool, code: Seq<char>, s: Seq<char>) -> Seq<char> {
    if colors {
        wrapped(code, s)
    } else {
        s
    }
}

fn paint_text(colors: bool, code: &str, s: &str) -> (r: String)
    ensures
        r@ == paint(colors, code@, s@),
{
    if colors {
        join3(code, s, "\x1b[0m")
    } else {
        String::from_str(s)
    }
}

/// The lines joined with line feeds.
pub open spec fn join_lines(ls: Seq<Seq<char>>) -> Seq<char>
    decreases ls.len(),
{
    if ls.len() == 0 {
        Seq::empty()
    } else if ls.len() == 1 {
        ls[0]
    } else {
        join_lines(ls.drop_last()) + "\n"@ + ls.last()
    }
}

/// The margin that the debug backend puts before each line of a script.
pub open spec fn script_margin(colors: bool) -> Seq<char> {
    paint(colors, "\x1b[32m"@, "\u{2502}"@) + " "@ + paint(colors, "\x1b[34m"@, "\u{2503}"@) + " "@
}

/// A script as the debug backend shows it: each line behind a margin.
pub open spec fn debug_script(colors: bool, s: Seq<char>) -> Seq<char> {
    join_lines(lines_of(s).map_values(|l: Seq<char>| script_margin(colors) + l))
}

/// A human-readable backend that shows what would be applied.
pub struct DebugPrinter {
    /// Whether the console shows colours.
    pub colors: bool,
}

impl DebugPrinter {
    fn bar(&self) -> (r: String)
        ensures
            r@ == paint(self.colors, "\x1b[32m"@, "\u{2502}"@),
    {
        paint_text(self.colors, "\x1b[32m", "\u{2502}")
    }

    fn script(&self, s: &str) -> (r: String)
        ensures
            r@ == debug_script(self.colors, s@),
    {
        let ls = split_lines(s);
        let ghost lv = ls@.map_values(|x: String| x@);
        let ghost margin = script_margin(self.colors);
        let mut margin_text = self.bar();
        margin_text.append(" ");
        margin_text.append(paint_text(self.colors, "\x1b[34m", "\u{2503}").as_str());
        margin_text.append(" ");
        let mut out = String::new();
        let mut i: usize = 0;
        while i < ls.len()
            invariant
                lv == ls@.map_values(|x: String| x@),
                margin == script_margin(self.colors),
                margin_text@ == margin,
                i <= ls@.len(),
                out@ == join_lines(lv.subrange(0, i as int).map_values(|l: Seq<char>| margin + l)),
            decreases ls@.len() - i,
        {
            let ghost before = out@;
            if i > 0 {
                out.append("\n");
            }
            out.append(margin_text.as_str());
            out.append(ls[i].as_str());
            proof {
                let m1 = lv.subrange(0, i + 1).map_values(|l: Seq<char>| margin + l);
                let m0 = lv.subrange(0, i as int).map_values(|l: Seq<char>| margin + l);
                assert(m1.drop_last() =~= m0);
                assert(m1.last() == margin + lv[i as int]);
                if i == 0 {
                    assert(before == Seq::<char>::empty());
                    assert(out@ =~= m1[0]);
                } else {
                    assert(out@ =~= before + "\n"@ + m1.last());
                }
            }
            i = i + 1;
        }
        assert(lv.subrange(0, i as int) =~= lv);
        out
    }
}

impl ShellPrinter for DebugPrinter {
    open spec fn var_ref(&self, name: Seq<char>) -> Seq<char> {
        "$"@ + wrapped("\x1b[1;33m"@, name)
    }

    open spec fn text_of(&self, c: CommandView) -> Option<Seq<char>> {
        let bar = paint(self.colors, "\x1b[32m"@, "\u{2502}"@);
        match c {
            CommandView::Start(n, d) => Some(
                paint(self.colors, "\x1b[30m\x1b[42m"@, n) + " "@ + paint(self.colors, "\x1b[34m"@, d),
            ),
            CommandView::Finish => Some(Seq::empty()),
            CommandView::Finalize(_, _) => None,
            CommandView::Echo(m) => Some(m),
            CommandView::Run(s) => Some(debug_script(self.colors, s)),
            CommandView::SetVar(k, v) => if k == "USE_PROMPT"@ {
                None
            } else {
                Some(bar + " "@ + k + " = "@ + v)
            },
            CommandView::Append(k, v) => Some(bar + " "@ + k + " += "@ + v),
            CommandView::Prepend(k, v) => Some(bar + " "@ + k + " += "@ + v),
            CommandView::PrependPath(p) => Some(bar + " PATH += "@ + p),
            CommandView::Go(p) => Some(paint(self.colors, "\x1b[32m"@, "\u{2514}\u{2192}"@) + " "@ + p),
            CommandView::ChangeTitle(_) => None,
        }
    }

    fn env_variable(&self, env: &str) -> (r: String) {
        join2("$", env.warning().as_str())
    }

    fn line(&self, c: &Command) -> (r: Option<String>) {
        match c {
            Command::Start(n, d) => {
                let mut r = paint_text(self.colors, "\x1b[30m\x1b[42m", n.as_str());
                r.append(" ");
                r.append(paint_text(self.colors, "\x1b[34m", d.as_str()).as_str());
                Some(r)
            },
            Command::Finish => Some(String::new()),
            Command::Finalize(_, _) => None,
            Command::Echo(m) => Some(m.clone()),
            Command::Run(s) => Some(self.script(s.as_str())),
            Command::SetVar(k, v) => {
                if str_eq(k.as_str(), "USE_PROMPT") {
                    None
                } else {
                    let mut r = self.bar();
                    r.append(" ");
                    r.append(k.as_str());
                    r.append(" = ");
                    r.append(v.as_str());
                    Some(r)
                }
            },
            Command::Append(k, v) | Command::Prepend(k, v) => {
                let mut r = self.bar();
                r.append(" ");
                r.append(k.as_str());
                r.append(" += ");
                r.append(v.as_str());
                Some(r)
            },
            Command::PrependPath(p) => {
                let mut r = self.bar();
                r.append(" PATH += ");
                r.append(p.as_str());
                Some(r)
            },
            Command::Go(p) => {
                let mut r = paint_text(self.colors, "\x1b[32m", "\u{2514}\u{2192}");
                r.append(" ");
                r.append(p.as_str());
                Some(r)
            },
            Command::ChangeTitle(_) => None,
        }
    }
}

} // verus!
