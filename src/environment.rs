//! Environment definitions: the property bag, the shell-specific fold,
//! placeholder filling for pattern instances, and the order of variables.
use vstd::prelude::*;
use crate::context::{Context, Shell};
use crate::shell::{
    print_commands, printed_lines, substitute_env_vars, Command, CommandView, ShellPrinter,
};
use crate::text::{
    fill_first, lex_lt, references, replace_first_placeholder, substitute, to_owned_string, trim_text,
    trimmed,
};
use crate::vars::{
    copy_pairs, names_unique, dependency_lists, dep_list, is_name_order, walk, walk_all, walk_order, dependency_ordered, depends, deps_exact, is_reordering, keys_unique,
    lemma_distinct_indices, merge_pairs, merged_into, names_increasing, no_cross_references,
    pairs_view, reaches, sorted_key_order, visit, walk_state,
};

verus! {

/// Where a pattern environment looks for its instances: a directory and a
/// regular expression matched against the names of its entries.
pub struct Pattern {
    pub path: String,
    pub regex: String,
}

/// The properties an environment sets, in common or for one shell.
pub struct CommonProperties {
    pub display: Option<String>,
    pub script: Option<String>,
    pub set: Option<Vec<(String, String)>>,
    pub append: Option<Vec<(String, String)>>,
    pub prepend: Option<Vec<(String, String)>>,
    pub path: Option<Vec<String>>,
    pub reuse: Option<Vec<String>>,
    pub go: Option<String>,
}

/// A named environment of the catalog.
pub struct Environment {
    pub name: String,
    pub context: Option<String>,
    pub pattern: Option<Pattern>,
    pub global: CommonProperties,
    pub for_cmd: Option<CommonProperties>,
    pub for_powershell: Option<CommonProperties>,
    pub version: Option<String>,
    pub original_name: Option<String>,
}

/// The pairs of an optional variable map; none when it is absent.
pub open spec fn opt_pairs(o: Option<Vec<(String, String)>>) -> Seq<(Seq<char>, Seq<char>)> {
    match o {
        Some(v) => pairs_view(v@),
        None => Seq::empty(),
    }
}

/// The entries of an optional list; none when it is absent.
pub open spec fn opt_list(o: Option<Vec<String>>) -> Seq<String> {
    match o {
        Some(v) => v@,
        None => Seq::empty(),
    }
}

/// An optional text with its first `{}` filled with `v`.
pub open spec fn fill_opt(o: Option<String>, r: Option<String>, v: Seq<char>) -> bool {
    match o {
        Some(s) => r is Some && r->0@ == fill_first(s@, v),
        None => r is None,
    }
}

/// An optional variable map with the first `{}` of each value filled with `v`.
pub open spec fn fill_map_opt(o: Option<Vec<(String, String)>>, r: Option<Vec<(String, String)>>, v: Seq<char>) -> bool {
    match o {
        Some(m) => r is Some && pairs_view(r->0@) == pairs_view(m@).map_values(
            |p: (Seq<char>, Seq<char>)| (p.0, fill_first(p.1, v)),
        ),
        None => r is None,
    }
}

/// An optional list with the first `{}` of each entry filled with `v`.
pub open spec fn fill_list_opt(o: Option<Vec<String>>, r: Option<Vec<String>>, v: Seq<char>) -> bool {
    match o {
        Some(l) => r is Some && r->0@.map_values(|s: String| s@) == l@.map_values(
            |s: String| fill_first(s@, v),
        ),
        None => r is None,
    }
}

/// Folding an optional variable map `over` into `base` gives `r`.
pub open spec fn map_folded(
    base: Option<Vec<(String, String)>>,
    over: Option<Vec<(String, String)>>,
    r: Option<Vec<(String, String)>>,
) -> bool {
    match over {
        Some(o) => r is Some && merged_into(opt_pairs(base), pairs_view(o@), pairs_view(r->0@)),
        None => r == base,
    }
}

/// Folding an optional list `over` into `base` gives `r`.
pub open spec fn list_folded(base: Option<Vec<String>>, over: Option<Vec<String>>, r: Option<Vec<String>>) -> bool {
    match over {
        Some(o) => r is Some && r->0@ == opt_list(base) + o@,
        None => r == base,
    }
}

/// Folding `over` into `base` gives `r`: texts of `over` win, maps are
/// joined with `over` winning on equal names, lists are concatenated.
pub open spec fn properties_folded(base: CommonProperties, over: CommonProperties, r: CommonProperties) -> bool {
    &&& r.display == (if over.display is Some { over.display } else { base.display })
    &&& r.script == (if over.script is Some { over.script } else { base.script })
    &&& r.go == (if over.go is Some { over.go } else { base.go })
    &&& map_folded(base.set, over.set, r.set)
    &&& map_folded(base.append, over.append, r.append)
    &&& map_folded(base.prepend, over.prepend, r.prepend)
    &&& list_folded(base.path, over.path, r.path)
    &&& list_folded(base.reuse, over.reuse, r.reuse)
}

fn fold_map(target: &mut Option<Vec<(String, String)>>, source: Option<Vec<(String, String)>>)
    requires
        keys_unique(opt_pairs(*old(target))),
        keys_unique(opt_pairs(source)),
    ensures
        map_folded(*old(target), source, *final(target)),
        keys_unique(opt_pairs(*final(target))),
{
    if let Some(src) = source {
        let mut base = match target.take() {
            Some(b) => b,
            None => Vec::new(),
        };
        assert(pairs_view(base@) == opt_pairs(*old(target))) by {
            if *old(target) is None {
                assert(pairs_view(base@) =~= Seq::empty());
            }
        }
        merge_pairs(&mut base, src);
        *target = Some(base);
    }
}

fn fold_list(target: &mut Option<Vec<String>>, source: Option<Vec<String>>)
    ensures
        list_folded(*old(target), source, *final(target)),
{
    if let Some(mut src) = source {
        let mut base = match target.take() {
            Some(b) => b,
            None => Vec::new(),
        };
        base.append(&mut src);
        *target = Some(base);
    }
}

fn fill_opt_text(o: &mut Option<String>, value: &str)
    ensures
        fill_opt(*old(o), *final(o), value@),
{
    if let Some(s) = o.take() {
        *o = Some(replace_first_placeholder(s.as_str(), value));
    }
}

fn fill_map(o: &mut Option<Vec<(String, String)>>, value: &str)
    ensures
        fill_map_opt(*old(o), *final(o), value@),
        keys_unique(opt_pairs(*old(o))) ==> keys_unique(opt_pairs(*final(o))),
{
    if let Some(m) = o.take() {
        let mut r: Vec<(String, String)> = Vec::new();
        let mut i: usize = 0;
        while i < m.len()
            invariant
                i <= m@.len(),
                r@.len() == i,
                forall|j: int| 0 <= j < i ==> #[trigger] r@[j].0@ == m@[j].0@ && r@[j].1@ == fill_first(m@[j].1@, value@),
            decreases m@.len() - i,
        {
            let k = m[i].0.clone();
            let v = replace_first_placeholder(m[i].1.as_str(), value);
            r.push((k, v));
            i = i + 1;
        }
        assert(pairs_view(r@) =~= pairs_view(m@).map_values(
            |p: (Seq<char>, Seq<char>)| (p.0, fill_first(p.1, value@)),
        ));
        *o = Some(r);
    }
}

fn fill_list(o: &mut Option<Vec<String>>, value: &str)
    ensures
        fill_list_opt(*old(o), *final(o), value@),
{
    if let Some(l) = o.take() {
        let mut r: Vec<String> = Vec::new();
        let mut i: usize = 0;
        while i < l.len()
            invariant
                i <= l@.len(),
                r@.len() == i,
                forall|j: int| 0 <= j < i ==> #[trigger] r@[j]@ == fill_first(l@[j]@, value@),
            decreases l@.len() - i,
        {
            r.push(replace_first_placeholder(l[i].as_str(), value));
            i = i + 1;
        }
        assert(r@.map_values(|s: String| s@) =~= l@.map_values(|s: String| fill_first(s@, value@)));
        *o = Some(r);
    }
}

/// `s` is the order in which the variables of `m` are emitted: the
/// depth-first walk from the names in lexicographic order, each variable
/// after the variables it references (see `sort_env_by_dependencies`).
pub open spec fn vars_in_order(m: Option<Vec<(String, String)>>, s: Seq<(Seq<char>, Seq<char>)>) -> bool {
    exists|ord: Seq<usize>| is_name_order(opt_pairs(m), ord) && s == walk_order(opt_pairs(m), ord)
}

/// The orders in which the set, append and prepend maps are emitted.
pub type VarOrders = (Seq<(Seq<char>, Seq<char>)>, Seq<(Seq<char>, Seq<char>)>, Seq<(Seq<char>, Seq<char>)>);

/// Each map of `e` is emitted in an order its dependencies allow.
pub open spec fn orders_ok(e: Environment, o: VarOrders) -> bool {
    vars_in_order(e.global.set, o.0) && vars_in_order(e.global.append, o.1) && vars_in_order(
        e.global.prepend,
        o.2,
    )
}

/// The commands that apply `e`, with variable references written by `f`
/// and the variable maps emitted in the orders `o`.
pub open spec fn env_commands(e: Environment, f: spec_fn(Seq<char>) -> Seq<char>, o: VarOrders) -> Seq<CommandView> {
    let (s1, s2, s3) = o;
    seq![CommandView::Start(e.name@, display_name_of(e))]
        + s1.map_values(|p: (Seq<char>, Seq<char>)| CommandView::SetVar(p.0, substitute(p.1, f)))
        + s2.map_values(|p: (Seq<char>, Seq<char>)| CommandView::Append(p.0, substitute(p.1, f)))
        + s3.map_values(|p: (Seq<char>, Seq<char>)| CommandView::Prepend(p.0, substitute(p.1, f)))
        + opt_list(e.global.path).map_values(|x: String| CommandView::PrependPath(substitute(x@, f)))
        + match e.global.script {
            Some(sc) => seq![CommandView::Run(substitute(trimmed(sc@), f))],
            None => Seq::empty(),
        }
        + match e.global.go {
            Some(g) => seq![CommandView::Go(substitute(g@, f))],
            None => Seq::empty(),
        }
        + seq![CommandView::SetVar("USE_PROMPT"@, e.name@), CommandView::Finish]
}

/// The commands for the variables of `m`, in the order the dependency sort gives.
fn var_commands<P: ShellPrinter>(
    cmds: &mut Vec<Command>,
    m: &Option<Vec<(String, String)>>,
    printer: &P,
    kind: u8,
) -> (s: Ghost<Seq<(Seq<char>, Seq<char>)>>)
    requires
        keys_unique(opt_pairs(*m)),
    ensures
        vars_in_order(*m, s@),
        final(cmds)@.map_values(|c: Command| c@) == old(cmds)@.map_values(|c: Command| c@)
            + s@.map_values(
            |p: (Seq<char>, Seq<char>)|
                var_command(kind, p.0, substitute(p.1, |n: Seq<char>| printer.var_ref(n))),
        ),
{
    let empty: Vec<(String, String)> = Vec::new();
    let map = match m {
        Some(v) => v,
        None => &empty,
    };
    assert(pairs_view(map@) == opt_pairs(*m)) by {
        if m is None {
            assert(pairs_view(map@) =~= Seq::empty());
        }
    }
    let sorted = Environment::sort_env_by_dependencies(map);
    let ghost sv = pairs_view(sorted@);
    let ghost f = |n: Seq<char>| printer.var_ref(n);
    let ghost start = cmds@.map_values(|c: Command| c@);
    let mut i: usize = 0;
    while i < sorted.len()
        invariant
            sv == pairs_view(sorted@),
            f == (|n: Seq<char>| printer.var_ref(n)),
            i <= sorted@.len(),
            cmds@.map_values(|c: Command| c@) == start + sv.subrange(0, i as int).map_values(
                |p: (Seq<char>, Seq<char>)| var_command(kind, p.0, substitute(p.1, f)),
            ),
        decreases sorted@.len() - i,
    {
        let k = sorted[i].0.clone();
        let v = substitute_env_vars(sorted[i].1.as_str(), printer);
        let c = if kind == 0 {
            Command::SetVar(k, v)
        } else if kind == 1 {
            Command::Append(k, v)
        } else {
            Command::Prepend(k, v)
        };
        let ghost before = cmds@.map_values(|c: Command| c@);
        cmds.push(c);
        proof {
            assert(sv[i as int] == (sorted@[i as int].0@, sorted@[i as int].1@));
            assert(cmds@.map_values(|c: Command| c@) =~= before.push(c@));
            assert(sv.subrange(0, i + 1).map_values(
                |p: (Seq<char>, Seq<char>)| var_command(kind, p.0, substitute(p.1, f)),
            ) =~= sv.subrange(0, i as int).map_values(
                |p: (Seq<char>, Seq<char>)| var_command(kind, p.0, substitute(p.1, f)),
            ).push(c@));
        }
        i = i + 1;
    }
    assert(sv.subrange(0, i as int) =~= sv);
    Ghost(sv)
}

/// The command for one variable: set (0), append (1) or prepend (otherwise).
pub open spec fn var_command(kind: u8, k: Seq<char>, v: Seq<char>) -> CommandView {
    if kind == 0 {
        CommandView::SetVar(k, v)
    } else if kind == 1 {
        CommandView::Append(k, v)
    } else {
        CommandView::Prepend(k, v)
    }
}

/// An optional text as characters.
pub open spec fn text_view(o: Option<String>) -> Option<Seq<char>> {
    match o {
        Some(s) => Some(s@),
        None => None,
    }
}

/// An optional variable map as pairs of character sequences.
pub open spec fn pairs_opt_view(o: Option<Vec<(String, String)>>) -> Option<Seq<(Seq<char>, Seq<char>)>> {
    match o {
        Some(v) => Some(pairs_view(v@)),
        None => None,
    }
}

/// An optional list as character sequences.
pub open spec fn list_view(o: Option<Vec<String>>) -> Option<Seq<Seq<char>>> {
    match o {
        Some(v) => Some(v@.map_values(|s: String| s@)),
        None => None,
    }
}

/// The contents of a property bag.
pub open spec fn props_view(p: CommonProperties) -> (
    Option<Seq<char>>,
    Option<Seq<char>>,
    Option<Seq<(Seq<char>, Seq<char>)>>,
    Option<Seq<(Seq<char>, Seq<char>)>>,
    Option<Seq<(Seq<char>, Seq<char>)>>,
    Option<Seq<Seq<char>>>,
    Option<Seq<Seq<char>>>,
    Option<Seq<char>>,
) {
    (
        text_view(p.display),
        text_view(p.script),
        pairs_opt_view(p.set),
        pairs_opt_view(p.append),
        pairs_opt_view(p.prepend),
        list_view(p.path),
        list_view(p.reuse),
        text_view(p.go),
    )
}

/// The contents of an optional property bag.
pub open spec fn props_opt_view(o: Option<CommonProperties>) -> Option<
    (
        Option<Seq<char>>,
        Option<Seq<char>>,
        Option<Seq<(Seq<char>, Seq<char>)>>,
        Option<Seq<(Seq<char>, Seq<char>)>>,
        Option<Seq<(Seq<char>, Seq<char>)>>,
        Option<Seq<Seq<char>>>,
        Option<Seq<Seq<char>>>,
        Option<Seq<char>>,
    ),
> {
    match o {
        Some(p) => Some(props_view(p)),
        None => None,
    }
}

fn copy_text(o: &Option<String>) -> (r: Option<String>)
    ensures
        r == *o,
{
    match o {
        Some(s) => Some(s.clone()),
        None => None,
    }
}

fn copy_pairs_opt(o: &Option<Vec<(String, String)>>) -> (r: Option<Vec<(String, String)>>)
    ensures
        pairs_opt_view(r) == pairs_opt_view(*o),
        opt_pairs(r) == opt_pairs(*o),
{
    match o {
        Some(v) => Some(copy_pairs(v)),
        None => None,
    }
}

fn copy_list(o: &Option<Vec<String>>) -> (r: Option<Vec<String>>)
    ensures
        list_view(r) == list_view(*o),
        r matches Some(v) ==> v@ == opt_list(*o),
{
    match o {
        Some(v) => {
            let mut r: Vec<String> = Vec::new();
            let mut i: usize = 0;
            while i < v.len()
                invariant
                    i <= v@.len(),
                    r@ == v@.subrange(0, i as int),
                decreases v@.len() - i,
            {
                r.push(v[i].clone());
                assert(r@ =~= v@.subrange(0, i + 1));
                i = i + 1;
            }
            assert(v@.subrange(0, i as int) =~= v@);
            Some(r)
        },
        None => None,
    }
}

impl CommonProperties {
    /// A copy of these properties.
    pub fn copy(&self) -> (r: CommonProperties)
        ensures
            props_view(r) == props_view(*self),
            self.wf() ==> r.wf(),
    {
        CommonProperties {
            display: copy_text(&self.display),
            script: copy_text(&self.script),
            set: copy_pairs_opt(&self.set),
            append: copy_pairs_opt(&self.append),
            prepend: copy_pairs_opt(&self.prepend),
            path: copy_list(&self.path),
            reuse: copy_list(&self.reuse),
            go: copy_text(&self.go),
        }
    }
}

impl CommonProperties {
    /// Every variable map names each variable once.
    pub open spec fn wf(&self) -> bool {
        &&& keys_unique(opt_pairs(self.set))
        &&& keys_unique(opt_pairs(self.append))
        &&& keys_unique(opt_pairs(self.prepend))
    }

    /// Fold `other` into these properties: its texts replace, its maps are
    /// joined in (its values winning), its lists are appended.
    pub fn merge(&mut self, other: Self)
        requires
            old(self).wf(),
            other.wf(),
        ensures
            properties_folded(*old(self), other, *final(self)),
            final(self).wf(),
    {
        if other.display.is_some() {
            self.display = other.display;
        }
        if other.script.is_some() {
            self.script = other.script;
        }
        if other.go.is_some() {
            self.go = other.go;
        }
        fold_map(&mut self.set, other.set);
        fold_map(&mut self.append, other.append);
        fold_map(&mut self.prepend, other.prepend);
        fold_list(&mut self.path, other.path);
        fold_list(&mut self.reuse, other.reuse);
    }
}

/// `e` is `raw` with the block for `shell` folded into its common
/// properties and consumed; everything but the name is covered.
#[verifier::opaque]
pub open spec fn folded(shell: Shell, raw: Environment, e: Environment) -> bool {
    &&& match (if shell == Shell::Cmd { raw.for_cmd } else { raw.for_powershell }) {
        Some(p) => properties_folded(raw.global, p, e.global),
        None => e.global == raw.global,
    }
    &&& shell == Shell::Cmd ==> e.for_cmd is None && e.for_powershell == raw.for_powershell
    &&& shell != Shell::Cmd ==> e.for_powershell is None && e.for_cmd == raw.for_cmd
    &&& e.context == raw.context
    &&& e.pattern == raw.pattern
    &&& e.version == raw.version
    &&& e.original_name == raw.original_name
}

/// Folding does not depend on the name.
pub proof fn lemma_folded_renamed(shell: Shell, raw: Environment, e: Environment, e2: Environment)
    requires
        folded(shell, raw, e),
        e2.context == e.context,
        e2.pattern == e.pattern,
        e2.global == e.global,
        e2.for_cmd == e.for_cmd,
        e2.for_powershell == e.for_powershell,
        e2.version == e.version,
        e2.original_name == e.original_name,
    ensures
        folded(shell, raw, e2),
{
    reveal(folded);
}

/// The display name of `e`, or its name when it has none.
pub open spec fn display_name_of(e: Environment) -> Seq<char> {
    match e.global.display {
        Some(d) => d@,
        None => e.name@,
    }
}

impl Environment {
    /// Every property bag names each variable once.
    pub open spec fn wf(&self) -> bool {
        &&& self.global.wf()
        &&& (self.for_cmd matches Some(p) ==> p.wf())
        &&& (self.for_powershell matches Some(p) ==> p.wf())
    }

    /// Fill the first remaining `{}` of the name, display, go, script, of
    /// each variable value and of each path entry with `value`.
    pub fn replace_placeholders(&mut self, value: &str)
        ensures
            final(self).name@ == fill_first(old(self).name@, value@),
            fill_opt(old(self).global.display, final(self).global.display, value@),
            fill_opt(old(self).global.go, final(self).global.go, value@),
            fill_opt(old(self).global.script, final(self).global.script, value@),
            fill_map_opt(old(self).global.set, final(self).global.set, value@),
            fill_map_opt(old(self).global.append, final(self).global.append, value@),
            fill_map_opt(old(self).global.prepend, final(self).global.prepend, value@),
            fill_list_opt(old(self).global.path, final(self).global.path, value@),
            final(self).global.reuse == old(self).global.reuse,
            final(self).context == old(self).context,
            final(self).pattern == old(self).pattern,
            final(self).for_cmd == old(self).for_cmd,
            final(self).for_powershell == old(self).for_powershell,
            final(self).version == old(self).version,
            final(self).original_name == old(self).original_name,
            old(self).wf() ==> final(self).wf(),
    {
        self.name = replace_first_placeholder(self.name.as_str(), value);
        fill_opt_text(&mut self.global.display, value);
        fill_opt_text(&mut self.global.go, value);
        fill_opt_text(&mut self.global.script, value);
        fill_map(&mut self.global.set, value);
        fill_map(&mut self.global.append, value);
        fill_map(&mut self.global.prepend, value);
        fill_list(&mut self.global.path, value);
    }

    /// Fold the properties for the context's shell into the common ones;
    /// that shell's block is consumed.
    pub fn fold(&mut self, context: &Context)
        requires
            context.shell != Shell::Unknown,
            old(self).wf(),
        ensures
            folded(context.shell, *old(self), *final(self)),
            final(self).name == old(self).name,
            final(self).context == old(self).context,
            final(self).pattern == old(self).pattern,
            final(self).wf(),
    {
        proof {
            reveal(folded);
        }
        let shell_props = match context.shell {
            Shell::Cmd => self.for_cmd.take(),
            _ => self.for_powershell.take(),
        };
        if let Some(props) = shell_props {
            self.global.merge(props);
        }
    }

    /// The entries of a variable map ordered so that each comes after the
    /// variables its value references as `${NAME}`: a depth-first walk from
    /// the names in lexicographic order, visiting each name once, so that a
    /// cycle of references still yields every entry exactly once.
    pub fn sort_env_by_dependencies(env_map: &Vec<(String, String)>) -> (r: Vec<(String, String)>)
        requires
            keys_unique(pairs_view(env_map@)),
        ensures
            is_reordering(pairs_view(env_map@), pairs_view(r@)),
            dependency_ordered(pairs_view(env_map@), pairs_view(r@)),
            no_cross_references(pairs_view(env_map@)) ==> names_increasing(pairs_view(r@)),
            exists|ord: Seq<usize>| is_name_order(pairs_view(env_map@), ord) && pairs_view(r@) == walk_order(
                pairs_view(env_map@),
                ord,
            ),
    {
        let ghost m = pairs_view(env_map@);
        let n = env_map.len();
        let order = sorted_key_order(env_map);
        let deps = dependency_lists(env_map, &order);
        let mut visited: Vec<bool> = Vec::new();
        let mut i: usize = 0;
        while i < n
            invariant
                n == env_map@.len(),
                i <= n,
                visited@.len() == i,
                forall|x: int| 0 <= x < i ==> !#[trigger] visited@[x],
            decreases n - i,
        {
            visited.push(false);
            i = i + 1;
        }
        let mut out: Vec<usize> = Vec::new();
        proof {
            assert forall|x: usize| x < m.len() implies !(#[trigger] visited@[x as int]) by {}
            assert(visited@ =~= walk_all(m, order@, 0).0);
            assert(out@ =~= walk_all(m, order@, 0).1);
        }
        let mut t: usize = 0;
        while t < n
            invariant
                n == env_map@.len(),
                m == pairs_view(env_map@),
                deps_exact(m, deps@),
                order@.len() == n,
                order@.no_duplicates(),
                forall|u: int| 0 <= u < order@.len() ==> #[trigger] order@[u] < n,
                t <= n,
                walk_state(m, visited@, out@, Seq::empty()),
                forall|u: int| 0 <= u < t ==> visited@[#[trigger] order@[u] as int],
                no_cross_references(m) ==> out@ == order@.subrange(0, t as int),
                forall|x: int| 0 <= x < n ==> (#[trigger] deps@[x])@ == dep_list(m, order@, x),
                (visited@, out@) == walk_all(m, order@, t as int),
            decreases n - t,
        {
            let a = order[t];
            assert(walk_all(m, order@, t + 1) == walk(m, order@, a, visited@, out@, m.len()));
            if !visited[a] {
                let ghost visited1 = visited@;
                visit(env_map, &deps, a, &mut visited, &mut out, Ghost(Seq::empty()), Ghost(order@));
                proof {
                    assert forall|u: int| 0 <= u < t + 1 implies visited@[#[trigger] order@[u] as int] by {
                        if u < t {
                            assert(visited1[order@[u] as int]);
                        }
                    }
                    if no_cross_references(m) {
                        assert(order@.subrange(0, t + 1) =~= order@.subrange(0, t as int).push(a));
                    }
                }
            } else {
                proof {
                    if no_cross_references(m) {
                        assert(out@.contains(a) || Seq::<usize>::empty().contains(a));
                        let w = choose|w: int| 0 <= w < out@.len() && out@[w] == a;
                        assert(order@[w] == a);
                    }
                }
            }
            t = t + 1;
        }
        proof {
            assert(is_name_order(m, order@));
            assert forall|x: usize| x < n implies out@.contains(x) by {
                assert(order@.contains(x));
                let u = choose|u: int| 0 <= u < order@.len() && order@[u] == x;
                assert(visited@[order@[u] as int]);
            }
            lemma_distinct_indices(out@, n as nat);
        }
        let mut r: Vec<(String, String)> = Vec::new();
        let mut k: usize = 0;
        while k < out.len()
            invariant
                m == pairs_view(env_map@),
                out@.len() == n == env_map@.len(),
                forall|u: int| 0 <= u < out@.len() ==> #[trigger] out@[u] < n,
                k <= n,
                r@.len() == k,
                forall|u: int| 0 <= u < k ==> #[trigger] pairs_view(r@)[u] == m[out@[u] as int],
            decreases n - k,
        {
            let e = out[k];
            let ghost r0 = r@;
            r.push((env_map[e].0.clone(), env_map[e].1.clone()));
            proof {
                assert forall|u: int| 0 <= u < k + 1 implies #[trigger] pairs_view(r@)[u] == m[out@[u] as int] by {
                    assert(pairs_view(r@)[u] == (r@[u].0@, r@[u].1@));
                    if u < k {
                        assert(r@[u] == r0[u]);
                        assert(pairs_view(r0)[u] == (r0[u].0@, r0[u].1@));
                    } else {
                        assert(m[e as int] == (env_map@[e as int].0@, env_map@[e as int].1@));
                    }
                }
            }
            k = k + 1;
        }
        proof {
            let rv = pairs_view(r@);
            assert forall|x: int| 0 <= x < m.len() implies rv.contains(#[trigger] m[x]) by {
                assert(out@.contains(x as usize));
                let u = choose|u: int| 0 <= u < out@.len() && out@[u] == x as usize;
                assert(rv[u] == m[x]);
            }
            assert forall|u: int| 0 <= u < rv.len() implies m.contains(#[trigger] rv[u]) by {
                assert(rv[u] == m[out@[u] as int]);
            }
            assert forall|u: int, j: int|
                0 <= u < rv.len() && 0 <= j < m.len() && #[trigger] references(rv[u].1).contains(#[trigger] m[j].0)
                    implies (exists|u2: int| 0 <= u2 < u && rv[u2].0 == m[j].0) || (exists|x: int|
                    0 <= x < m.len() && m[x] == rv[u] && reaches(m, j, x)) by {
                let a = out@[u];
                assert(rv[u] == m[a as int]);
                assert(depends(m, a as int, j));
                assert(depends(m, out@[u] as int, (j as usize) as int));
                if out@.subrange(0, u).contains(j as usize) {
                    let u2 = choose|u2: int| 0 <= u2 < u && out@.subrange(0, u)[u2] == j as usize;
                    assert(rv[u2] == m[j]);
                } else {
                    assert(reaches(m, j, a as int));
                }
            }
            if no_cross_references(m) {
                assert forall|k1: int, k2: int| 0 <= k1 < k2 < rv.len() implies lex_lt(rv[k1].0, rv[k2].0) by {
                    assert(out@ == order@.subrange(0, n as int));
                    assert(out@[k1] == order@[k1]);
                    assert(out@[k2] == order@[k2]);
                }
            }
            assert(out@ == walk_all(m, order@, n as int).1);
            assert(rv =~= walk_order(m, order@));
        }
        r
    }

    /// The commands that apply this environment with `printer`'s syntax:
    /// start, the variables to set, append and prepend (each map in
    /// dependency order), the `PATH` entries, the trimmed script, the
    /// directory to go to, `USE_PROMPT` set to the name, finish.
    pub fn commands<P: ShellPrinter>(&self, printer: &P) -> (r: Vec<Command>)
        requires
            self.wf(),
        ensures
            exists|o: VarOrders|
                orders_ok(*self, o) && r@.map_values(|c: Command| c@) == env_commands(
                    *self,
                    |n: Seq<char>| printer.var_ref(n),
                    o,
                ),
    {
        let ghost f = |n: Seq<char>| printer.var_ref(n);
        let mut cmds: Vec<Command> = Vec::new();
        cmds.push(Command::Start(self.name.clone(), to_owned_string(self.display_name())));
        let s1 = var_commands(&mut cmds, &self.global.set, printer, 0);
        let s2 = var_commands(&mut cmds, &self.global.append, printer, 1);
        let s3 = var_commands(&mut cmds, &self.global.prepend, printer, 2);
        let ghost after_vars = cmds@.map_values(|c: Command| c@);
        proof {
            assert(s1@.map_values(|p: (Seq<char>, Seq<char>)| var_command(0, p.0, substitute(p.1, f)))
                =~= s1@.map_values(|p: (Seq<char>, Seq<char>)| CommandView::SetVar(p.0, substitute(p.1, f))));
            assert(s2@.map_values(|p: (Seq<char>, Seq<char>)| var_command(1, p.0, substitute(p.1, f)))
                =~= s2@.map_values(|p: (Seq<char>, Seq<char>)| CommandView::Append(p.0, substitute(p.1, f))));
            assert(s3@.map_values(|p: (Seq<char>, Seq<char>)| var_command(2, p.0, substitute(p.1, f)))
                =~= s3@.map_values(|p: (Seq<char>, Seq<char>)| CommandView::Prepend(p.0, substitute(p.1, f))));
            assert(after_vars == seq![CommandView::Start(self.name@, display_name_of(*self))]
                + s1@.map_values(|p: (Seq<char>, Seq<char>)| CommandView::SetVar(p.0, substitute(p.1, f)))
                + s2@.map_values(|p: (Seq<char>, Seq<char>)| CommandView::Append(p.0, substitute(p.1, f)))
                + s3@.map_values(|p: (Seq<char>, Seq<char>)| CommandView::Prepend(p.0, substitute(p.1, f))));
        }
        let empty: Vec<String> = Vec::new();
        let paths = match &self.global.path {
            Some(p) => p,
            None => &empty,
        };
        assert(paths@ == opt_list(self.global.path)) by {
            if self.global.path is None {
                assert(paths@ =~= Seq::<String>::empty());
            }
        }
        let mut i: usize = 0;
        while i < paths.len()
            invariant
                f == (|n: Seq<char>| printer.var_ref(n)),
                i <= paths@.len(),
                cmds@.map_values(|c: Command| c@) == after_vars + paths@.subrange(0, i as int).map_values(
                    |x: String| CommandView::PrependPath(substitute(x@, f)),
                ),
            decreases paths@.len() - i,
        {
            let ghost before = cmds@.map_values(|c: Command| c@);
            let c = Command::PrependPath(substitute_env_vars(paths[i].as_str(), printer));
            cmds.push(c);
            proof {
                assert(cmds@.map_values(|c: Command| c@) =~= before.push(c@));
                assert(paths@.subrange(0, i + 1).map_values(
                    |x: String| CommandView::PrependPath(substitute(x@, f)),
                ) =~= paths@.subrange(0, i as int).map_values(
                    |x: String| CommandView::PrependPath(substitute(x@, f)),
                ).push(c@));
            }
            i = i + 1;
        }
        assert(paths@.subrange(0, i as int) =~= paths@);
        let ghost after_paths = cmds@.map_values(|c: Command| c@);
        if let Some(script) = &self.global.script {
            let t = trim_text(script.as_str());
            cmds.push(Command::Run(substitute_env_vars(t.as_str(), printer)));
        }
        let ghost after_script = cmds@.map_values(|c: Command| c@);
        assert(after_script == after_paths + match self.global.script {
            Some(sc) => seq![CommandView::Run(substitute(trimmed(sc@), f))],
            None => Seq::<CommandView>::empty(),
        });
        if let Some(go) = &self.global.go {
            cmds.push(Command::Go(substitute_env_vars(go.as_str(), printer)));
        }
        let ghost after_go = cmds@.map_values(|c: Command| c@);
        assert(after_go == after_script + match self.global.go {
            Some(g) => seq![CommandView::Go(substitute(g@, f))],
            None => Seq::<CommandView>::empty(),
        });
        cmds.push(Command::SetVar(to_owned_string("USE_PROMPT"), self.name.clone()));
        cmds.push(Command::Finish);
        let ghost o: VarOrders = (s1@, s2@, s3@);
        assert(cmds@.map_values(|c: Command| c@) =~= env_commands(*self, f, o));
        assert(orders_ok(*self, o));
        cmds
    }

    /// The lines that apply this environment in `printer`'s shell.
    pub fn print<P: ShellPrinter>(&self, printer: &P) -> (r: Vec<String>)
        requires
            self.wf(),
        ensures
            exists|o: VarOrders|
                orders_ok(*self, o) && r@.map_values(|s: String| s@) == printed_lines(
                    *printer,
                    env_commands(*self, |n: Seq<char>| printer.var_ref(n), o),
                ),
    {
        let cmds = self.commands(printer);
        print_commands(printer, &cmds)
    }

    /// The display name, or the name when there is none.
    pub fn display_name(&self) -> (r: &str)
        ensures
            r@ == display_name_of(*self),
    {
        match &self.global.display {
            Some(d) => d.as_str(),
            None => self.name.as_str(),
        }
    }
}

fn pairs_opt_unique(o: &Option<Vec<(String, String)>>) -> (r: bool)
    ensures
        r == keys_unique(opt_pairs(*o)),
{
    match o {
        Some(v) => names_unique(v),
        None => {
            assert(keys_unique(opt_pairs(*o)));
            true
        },
    }
}

impl CommonProperties {
    /// Whether every variable map names each variable once.
    pub fn is_wf(&self) -> (r: bool)
        ensures
            r == self.wf(),
    {
        pairs_opt_unique(&self.set) && pairs_opt_unique(&self.append) && pairs_opt_unique(&self.prepend)
    }
}

impl Environment {
    /// Whether every property bag names each variable once.
    pub fn is_wf(&self) -> (r: bool)
        ensures
            r == self.wf(),
    {
        self.global.is_wf() && match &self.for_cmd {
            Some(p) => p.is_wf(),
            None => true,
        } && match &self.for_powershell {
            Some(p) => p.is_wf(),
            None => true,
        }
    }
}

} // verus!
