//! The catalog of environments and the commands that apply one
//! environment with what it reuses.
use vstd::prelude::*;
use crate::environment::{display_name_of, env_commands, orders_ok, Environment, VarOrders};
use crate::resolve::{resolved, ResolveFailure};
use crate::settings::Settings;
use crate::shell::{print_commands, printed_lines, Command, CommandView, ShellPrinter};
use crate::text::to_owned_string;

verus! {

/// What can go wrong while loading or applying environments.
#[derive(Debug, PartialEq, Eq)]
pub enum UseError {
    /// The catalog file does not exist.
    ConfigNotFound(String),
    /// The catalog file is not a valid catalog.
    ConfigParse(String),
    /// No environment has this name, nor a name that starts with it.
    EnvironmentNotFound(String),
    /// The environment reuses itself, directly or through others.
    CyclicReuse(String),
    /// The shell is neither cmd nor PowerShell.
    UnsupportedShell,
    /// The operating system is not supported.
    UnsupportedOperatingSystem,
}

fn concat3(a: &str, b: &str, c: &str) -> (r: String)
    ensures
        r@ == a@ + b@ + c@,
{
    let mut r = String::from_str(a);
    r.append(b);
    r.append(c);
    r
}

impl UseError {
    /// The message that reports this error.
    pub fn message(&self) -> (r: String)
        ensures
            match self {
                UseError::ConfigNotFound(p) => r@ == "Config file not found at "@ + p@,
                UseError::ConfigParse(m) => r@ == "Failed to read config file: "@ + m@,
                UseError::EnvironmentNotFound(n) => r@ == "Environment "@ + n@ + " not found"@,
                UseError::CyclicReuse(n) => r@ == "Environment "@ + n@ + " reuses itself"@,
                UseError::UnsupportedShell => r@ == "Unsupported shell"@,
                UseError::UnsupportedOperatingSystem => r@ == "Unsupported operating system"@,
            },
    {
        match self {
            UseError::ConfigNotFound(p) => {
                let mut r = String::from_str("Config file not found at ");
                r.append(p.as_str());
                r
            },
            UseError::ConfigParse(m) => {
                let mut r = String::from_str("Failed to read config file: ");
                r.append(m.as_str());
                r
            },
            UseError::EnvironmentNotFound(n) => concat3("Environment ", n.as_str(), " not found"),
            UseError::CyclicReuse(n) => concat3("Environment ", n.as_str(), " reuses itself"),
            UseError::UnsupportedShell => String::from_str("Unsupported shell"),
            UseError::UnsupportedOperatingSystem => String::from_str("Unsupported operating system"),
        }
    }

    /// The failure this error reports, if it is one of resolution.
    pub open spec fn failure(&self) -> Option<ResolveFailure> {
        match self {
            UseError::EnvironmentNotFound(n) => Some(ResolveFailure::NotFound(n@)),
            UseError::CyclicReuse(n) => Some(ResolveFailure::Cycle(n@)),
            _ => None,
        }
    }
}

/// The catalog: every environment that applies in the current context.
pub struct Config {
    pub environments: Vec<Environment>,
}

/// The commands that apply the environments `idx` of `envs` in turn, each
/// with its variable orders from `os`.
pub open spec fn all_env_commands(
    envs: Seq<Environment>,
    idx: Seq<int>,
    f: spec_fn(Seq<char>) -> Seq<char>,
    os: Seq<VarOrders>,
) -> Seq<CommandView>
    decreases idx.len(),
{
    if idx.len() == 0 || os.len() != idx.len() {
        Seq::empty()
    } else {
        all_env_commands(envs, idx.drop_last(), f, os.drop_last()) + env_commands(
            envs[idx.last()],
            f,
            os.last(),
        )
    }
}

/// The commands of a whole run: the environments `idx` in turn, then, when
/// `title` is set, the target's display name as title, then the closing
/// message naming the target (the last of `idx`).
pub open spec fn session_commands(
    envs: Seq<Environment>,
    idx: Seq<int>,
    f: spec_fn(Seq<char>) -> Seq<char>,
    os: Seq<VarOrders>,
    title: bool,
) -> Seq<CommandView> {
    let target = envs[idx.last()];
    all_env_commands(envs, idx, f, os) + (if title {
        seq![CommandView::ChangeTitle(display_name_of(target))]
    } else {
        Seq::empty()
    }) + seq![CommandView::Finalize(target.name@, display_name_of(target))]
}

impl Config {
    /// Every environment names each variable once in each map.
    pub open spec fn wf(&self) -> bool {
        forall|i: int| 0 <= i < self.environments@.len() ==> #[trigger] self.environments@[i].wf()
    }

    /// The names of the environments, in catalog order.
    pub fn list(&self) -> (r: Vec<String>)
        ensures
            r@.map_values(|s: String| s@) == self.environments@.map_values(|e: Environment| e.name@),
    {
        let mut r: Vec<String> = Vec::new();
        let mut i: usize = 0;
        while i < self.environments.len()
            invariant
                i <= self.environments@.len(),
                r@.len() == i,
                forall|j: int| 0 <= j < i ==> #[trigger] r@[j]@ == self.environments@[j].name@,
            decreases self.environments@.len() - i,
        {
            r.push(self.environments[i].name.clone());
            i = i + 1;
        }
        assert(r@.map_values(|s: String| s@) =~= self.environments@.map_values(|e: Environment| e.name@));
        r
    }

    /// The commands that apply `name` with what it reuses, in
    /// `printer`'s syntax, with the title change when `settings` asks for it.
    pub fn env_commands_of<P: ShellPrinter>(
        &self,
        name: &str,
        settings: &Settings,
        printer: &P,
    ) -> (r: Result<Vec<Command>, UseError>)
        requires
            self.wf(),
        ensures
            match resolved(self.environments@, name@) {
                Ok(idx) => r matches Ok(cmds) && exists|os: Seq<VarOrders>|
                    os.len() == idx.len() && (forall|j: int| 0 <= j < idx.len() ==> orders_ok(
                        self.environments@[idx[j]],
                        #[trigger] os[j],
                    )) && cmds@.map_values(|c: Command| c@) == session_commands(
                        self.environments@,
                        idx,
                        |n: Seq<char>| printer.var_ref(n),
                        os,
                        settings.update_title,
                    ),
                Err(f) => r matches Err(e) && e.failure() == Some(f),
            },
    {
        let ghost envs = self.environments@;
        let ghost f = |n: Seq<char>| printer.var_ref(n);
        let idx = self.resolve_indices_of(name)?;
        let ghost iv = idx@.map_values(|x: usize| x as int);
        let mut cmds: Vec<Command> = Vec::new();
        let ghost mut os: Seq<VarOrders> = Seq::empty();
        let mut j: usize = 0;
        while j < idx.len()
            invariant
                envs == self.environments@,
                self.wf(),
                f == (|n: Seq<char>| printer.var_ref(n)),
                iv == idx@.map_values(|x: usize| x as int),
                forall|u: int| 0 <= u < idx@.len() ==> #[trigger] idx@[u] < envs.len(),
                j <= idx@.len(),
                os.len() == j,
                forall|u: int| 0 <= u < j ==> orders_ok(envs[iv[u]], #[trigger] os[u]),
                cmds@.map_values(|c: Command| c@) == all_env_commands(envs, iv.subrange(0, j as int), f, os),
            decreases idx@.len() - j,
        {
            let e = &self.environments[idx[j]];
            assert(e.wf());
            let mut c = e.commands(printer);
            let ghost o = choose|o: VarOrders| orders_ok(*e, o) && c@.map_values(|c: Command| c@)
                == env_commands(*e, f, o);
            let ghost before = cmds@.map_values(|c: Command| c@);
            let ghost cv = c@.map_values(|c: Command| c@);
            cmds.append(&mut c);
            proof {
                let os2 = os.push(o);
                let iv2 = iv.subrange(0, j + 1);
                assert(iv2.drop_last() =~= iv.subrange(0, j as int));
                assert(os2.drop_last() =~= os);
                assert(iv2.last() == idx@[j as int] as int);
                assert(cmds@.map_values(|c: Command| c@) =~= before + cv);
                os = os2;
            }
            j = j + 1;
        }
        assert(iv.subrange(0, j as int) =~= iv);
        let last = &self.environments[idx[idx.len() - 1]];
        if settings.update_title {
            cmds.push(Command::ChangeTitle(to_owned_string(last.display_name())));
        }
        cmds.push(Command::Finalize(last.name.clone(), to_owned_string(last.display_name())));
        proof {
            assert(iv.last() == idx@[idx@.len() - 1] as int);
            assert(cmds@.map_values(|c: Command| c@) =~= session_commands(envs, iv, f, os, settings.update_title));
        }
        Ok(cmds)
    }

    /// The lines that apply `name` with what it reuses in `printer`'s shell:
    /// each environment in dependency-first order, the title when
    /// `settings` asks for it, and a closing message naming the target.
    pub fn print_env<P: ShellPrinter>(
        &self,
        name: &str,
        settings: &Settings,
        printer: &P,
    ) -> (r: Result<Vec<String>, UseError>)
        requires
            self.wf(),
        ensures
            match resolved(self.environments@, name@) {
                Ok(idx) => r matches Ok(lines) && exists|os: Seq<VarOrders>|
                    os.len() == idx.len() && (forall|j: int| 0 <= j < idx.len() ==> orders_ok(
                        self.environments@[idx[j]],
                        #[trigger] os[j],
                    )) && lines@.map_values(|s: String| s@) == printed_lines(
                        *printer,
                        session_commands(
                            self.environments@,
                            idx,
                            |n: Seq<char>| printer.var_ref(n),
                            os,
                            settings.update_title,
                        ),
                    ),
                Err(f) => r matches Err(e) && e.failure() == Some(f),
            },
    {
        let cmds = self.env_commands_of(name, settings, printer)?;
        Ok(print_commands(printer, &cmds))
    }

}

} // verus!
