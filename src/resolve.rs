//! Reuse resolution: which environment a name designates, and the
//! environments to apply for it, dependencies first, each once.
use vstd::prelude::*;
use crate::config::{Config, UseError};
use crate::environment::{opt_list, Environment};
use crate::text::{is_prefix, starts_with, str_eq, to_owned_string};

verus! {

/// Why resolving a name failed.
pub enum ResolveFailure {
    NotFound(Seq<char>),
    Cycle(Seq<char>),
}

/// The first index from `i` on whose name is `name` (`exact`) or starts
/// with it (otherwise).
pub open spec fn first_match_from(envs: Seq<Environment>, name: Seq<char>, i: int, exact: bool) -> Option<int>
    decreases envs.len() - i,
{
    if i < 0 || i >= envs.len() {
        None
    } else if (exact && envs[i].name@ == name) || (!exact && is_prefix(name, envs[i].name@)) {
        Some(i)
    } else {
        first_match_from(envs, name, i + 1, exact)
    }
}

/// The environment `name` designates: the first whose name is `name`, else
/// the only one whose name starts with it; none when no name starts with it
/// or several do.
pub open spec fn find_env(envs: Seq<Environment>, name: Seq<char>) -> Option<int> {
    match first_match_from(envs, name, 0, true) {
        Some(i) => Some(i),
        None => match first_match_from(envs, name, 0, false) {
            Some(j) => if first_match_from(envs, name, j + 1, false) is None {
                Some(j)
            } else {
                None
            },
            None => None,
        },
    }
}

/// The names an environment reuses.
pub open spec fn reuse_names(e: Environment) -> Seq<Seq<char>> {
    opt_list(e.global.reuse).map_values(|s: String| s@)
}

/// `acc` followed by the entries of `deps` that it does not hold yet.
pub open spec fn append_new(acc: Seq<int>, deps: Seq<int>) -> Seq<int>
    decreases deps.len(),
{
    if deps.len() == 0 {
        acc
    } else {
        let a = append_new(acc, deps.drop_last());
        if a.contains(deps.last()) {
            a
        } else {
            a.push(deps.last())
        }
    }
}

/// The environments to apply for `name`, as indices, when the environments
/// in `stack` are being resolved: those it reuses (each resolved in turn,
/// in declared order, none twice), then itself.
pub open spec fn resolve_spec(envs: Seq<Environment>, name: Seq<char>, stack: Seq<int>) -> Result<Seq<int>, ResolveFailure>
    decreases envs.len() - stack.len(), 0int, 0int,
{
    match find_env(envs, name) {
        None => Err(ResolveFailure::NotFound(name)),
        Some(i) => if stack.contains(i) || stack.len() >= envs.len() {
            Err(ResolveFailure::Cycle(name))
        } else {
            match resolve_list(envs, reuse_names(envs[i]), 0, stack.push(i), Seq::empty()) {
                Ok(acc) => Ok(acc.push(i)),
                Err(e) => Err(e),
            }
        },
    }
}

/// Resolve `names` from index `k` on, adding what each needs to `acc`.
pub open spec fn resolve_list(
    envs: Seq<Environment>,
    names: Seq<Seq<char>>,
    k: int,
    stack: Seq<int>,
    acc: Seq<int>,
) -> Result<Seq<int>, ResolveFailure>
    decreases envs.len() - stack.len(), 1int, names.len() - k,
{
    if k < 0 || k >= names.len() {
        Ok(acc)
    } else {
        match resolve_spec(envs, names[k], stack) {
            Ok(deps) => resolve_list(envs, names, k + 1, stack, append_new(acc, deps)),
            Err(e) => Err(e),
        }
    }
}

/// The environments to apply for `name`, as indices.
pub open spec fn resolved(envs: Seq<Environment>, name: Seq<char>) -> Result<Seq<int>, ResolveFailure> {
    resolve_spec(envs, name, Seq::empty())
}

proof fn lemma_append_new_present(acc: Seq<int>, deps: Seq<int>)
    requires
        forall|j: int| 0 <= j < deps.len() ==> acc.contains(#[trigger] deps[j]),
    ensures
        append_new(acc, deps) == acc,
    decreases deps.len(),
{
    if deps.len() > 0 {
        lemma_append_new_present(acc, deps.drop_last());
        assert(acc.contains(deps[deps.len() - 1]));
    }
}

/// Resolving names that all give `d` adds nothing more once `d` is there.
proof fn lemma_list_same(
    envs: Seq<Environment>,
    names: Seq<Seq<char>>,
    k: int,
    stack: Seq<int>,
    acc: Seq<int>,
    d: Seq<int>,
)
    requires
        0 <= k,
        forall|j: int| k <= j < names.len() ==> resolve_spec(envs, #[trigger] names[j], stack) == Ok::<
            Seq<int>,
            ResolveFailure,
        >(d),
        forall|j: int| 0 <= j < d.len() ==> acc.contains(#[trigger] d[j]),
    ensures
        resolve_list(envs, names, k, stack, acc) == Ok::<Seq<int>, ResolveFailure>(acc),
    decreases names.len() - k,
{
    if k < names.len() {
        lemma_append_new_present(acc, d);
        lemma_list_same(envs, names, k + 1, stack, acc, d);
    }
}

/// Resolving names that all give `d`, a sequence without repeats, gives `d`.
proof fn lemma_list_all(envs: Seq<Environment>, names: Seq<Seq<char>>, stack: Seq<int>, d: Seq<int>)
    requires
        names.len() > 0,
        d.no_duplicates(),
        forall|j: int| 0 <= j < names.len() ==> resolve_spec(envs, #[trigger] names[j], stack) == Ok::<
            Seq<int>,
            ResolveFailure,
        >(d),
    ensures
        resolve_list(envs, names, 0, stack, Seq::empty()) == Ok::<Seq<int>, ResolveFailure>(d),
{
    assert(resolve_spec(envs, names[0], stack) == Ok::<Seq<int>, ResolveFailure>(d));
    lemma_append_new_fresh(d, d.len() as int);
    assert(d.subrange(0, d.len() as int) =~= d);
    assert forall|j: int| 0 <= j < d.len() implies d.contains(#[trigger] d[j]) by {}
    lemma_list_same(envs, names, 1, stack, d, d);
}

proof fn lemma_append_new_fresh(d: Seq<int>, n: int)
    requires
        d.no_duplicates(),
        0 <= n <= d.len(),
    ensures
        append_new(Seq::empty(), d.subrange(0, n)) == d.subrange(0, n),
    decreases n,
{
    if n > 0 {
        lemma_append_new_fresh(d, n - 1);
        assert(d.subrange(0, n).drop_last() =~= d.subrange(0, n - 1));
        assert(!d.subrange(0, n - 1).contains(d[n - 1]));
        assert(d.subrange(0, n - 1).push(d[n - 1]) =~= d.subrange(0, n));
    }
}

/// Resolving names that each give `[c]` or `[c, b]`, one of them `[c, b]`
/// unless `acc` already is, ends with `[c, b]`.
proof fn lemma_list_two(
    envs: Seq<Environment>,
    names: Seq<Seq<char>>,
    k: int,
    stack: Seq<int>,
    acc: Seq<int>,
    c: int,
    b: int,
)
    requires
        0 <= k,
        c != b,
        forall|j: int| k <= j < names.len() ==> (resolve_spec(envs, #[trigger] names[j], stack) == Ok::<
            Seq<int>,
            ResolveFailure,
        >(seq![c]) || resolve_spec(envs, names[j], stack) == Ok::<Seq<int>, ResolveFailure>(seq![c, b])),
        acc == Seq::<int>::empty() || acc == seq![c] || acc == seq![c, b],
        acc == seq![c, b] || exists|j: int| k <= j < names.len() && resolve_spec(envs, #[trigger] names[j], stack)
            == Ok::<Seq<int>, ResolveFailure>(seq![c, b]),
    ensures
        resolve_list(envs, names, k, stack, acc) == Ok::<Seq<int>, ResolveFailure>(seq![c, b]),
    decreases names.len() - k,
{
    reveal_with_fuel(append_new, 3);
    if k < names.len() {
        let d = resolve_spec(envs, names[k], stack)->Ok_0;
        let cb = seq![c, b];
        let cc = seq![c];
        assert(cb.drop_last() =~= cc);
        assert(cc.drop_last() =~= Seq::<int>::empty());
        assert(Seq::<int>::empty().push(c) =~= cc);
        assert(cc.push(b) =~= cb);
        assert(cc.contains(c)) by { assert(cc[0] == c); }
        assert(cb.contains(c)) by { assert(cb[0] == c); }
        assert(cb.contains(b)) by { assert(cb[1] == b); }
        assert(!cc.contains(b)) by {
            if cc.contains(b) {
                let w = choose|w: int| 0 <= w < cc.len() && cc[w] == b;
            }
        }
        let acc2 = append_new(acc, d);
        assert(acc2 == Seq::<int>::empty() || acc2 == cc || acc2 == cb);
        if acc2 != cb {
            assert(d == cc);
            let j = choose|j: int| k <= j < names.len() && resolve_spec(envs, #[trigger] names[j], stack)
                == Ok::<Seq<int>, ResolveFailure>(seq![c, b]);
            assert(j != k);
        }
        lemma_list_two(envs, names, k + 1, stack, acc2, c, b);
    }
}

/// A chain of reuse: when `a` reuses `b` (once or more, and perhaps `c`
/// too), `b` reuses only `c` (once or more) and `c` reuses nothing,
/// resolving `a` gives `c`, `b`, `a`, each once, whatever the repeats.
pub proof fn lemma_reuse_chain(envs: Seq<Environment>, a: Seq<char>, b: Seq<char>, c: Seq<char>)
    requires
        find_env(envs, a) is Some,
        find_env(envs, b) is Some,
        find_env(envs, c) is Some,
        find_env(envs, a) != find_env(envs, b),
        find_env(envs, b) != find_env(envs, c),
        find_env(envs, a) != find_env(envs, c),
        reuse_names(envs[find_env(envs, a)->0]).len() > 0,
        forall|j: int| 0 <= j < reuse_names(envs[find_env(envs, a)->0]).len() ==> find_env(envs, #[trigger] reuse_names(envs[find_env(envs, a)->0])[j]) == find_env(envs, b)
            || find_env(envs, reuse_names(envs[find_env(envs, a)->0])[j]) == find_env(envs, c),
        exists|j: int| 0 <= j < reuse_names(envs[find_env(envs, a)->0]).len() && find_env(envs, #[trigger] reuse_names(envs[find_env(envs, a)->0])[j]) == find_env(envs, b),
        reuse_names(envs[find_env(envs, b)->0]).len() > 0,
        forall|j: int| 0 <= j < reuse_names(envs[find_env(envs, b)->0]).len() ==> find_env(envs, #[trigger] reuse_names(envs[find_env(envs, b)->0])[j]) == find_env(envs, c),
        reuse_names(envs[find_env(envs, c)->0]).len() == 0,
    ensures
        resolved(envs, a) == Ok::<Seq<int>, ResolveFailure>(
            seq![find_env(envs, c)->0, find_env(envs, b)->0, find_env(envs, a)->0],
        ),
{
    let ia = find_env(envs, a)->0;
    let ib = find_env(envs, b)->0;
    let ic = find_env(envs, c)->0;
    lemma_find_bounds(envs, a);
    lemma_find_bounds(envs, b);
    lemma_find_bounds(envs, c);
    let sa = seq![ia];
    let sab = seq![ia, ib];
    assert(envs.len() >= 3) by {
        assert(0 <= ia < envs.len() && 0 <= ib < envs.len() && 0 <= ic < envs.len());
    }
    // `c` alone, below `a` and `b`.
    let nb = reuse_names(envs[ib]);
    assert forall|j: int| 0 <= j < nb.len() implies resolve_spec(envs, #[trigger] nb[j], sab) == Ok::<
        Seq<int>,
        ResolveFailure,
    >(seq![ic]) by {
        assert(!sab.contains(ic)) by {
            assert(sab[0] != ic && sab[1] != ic);
        }
        assert(sab.push(ic).len() == 3);
        assert(resolve_list(envs, reuse_names(envs[ic]), 0, sab.push(ic), Seq::empty()) == Ok::<
            Seq<int>,
            ResolveFailure,
        >(Seq::empty()));
        assert(Seq::<int>::empty().push(ic) =~= seq![ic]);
    }
    lemma_list_all(envs, nb, sab, seq![ic]);
    // `b` with `c`, below `a`.
    let na = reuse_names(envs[ia]);
    let dcb = seq![ic, ib];
    assert(dcb.no_duplicates()) by {
        assert forall|i: int, j: int| 0 <= i < 2 && 0 <= j < 2 && i != j implies dcb[i] != dcb[j] by {}
    }
    assert forall|j: int| 0 <= j < na.len() implies (find_env(envs, #[trigger] na[j]) == Some(ib) ==> resolve_spec(envs, na[j], sa) == Ok::<
        Seq<int>,
        ResolveFailure,
    >(dcb)) && (find_env(envs, na[j]) == Some(ic) ==> resolve_spec(envs, na[j], sa) == Ok::<
        Seq<int>,
        ResolveFailure,
    >(seq![ic])) by {
        assert(!sa.contains(ib)) by {
            assert(sa[0] != ib);
        }
        assert(!sa.contains(ic)) by {
            assert(sa[0] != ic);
        }
        assert(sa.push(ib) =~= sab);
        assert(seq![ic].push(ib) =~= dcb);
        assert(resolve_list(envs, reuse_names(envs[ic]), 0, sa.push(ic), Seq::empty()) == Ok::<
            Seq<int>,
            ResolveFailure,
        >(Seq::empty()));
        assert(Seq::<int>::empty().push(ic) =~= seq![ic]);
    }
    let jb = choose|j: int| 0 <= j < na.len() && find_env(envs, #[trigger] na[j]) == Some(ib);
    assert(resolve_spec(envs, na[jb], sa) == Ok::<Seq<int>, ResolveFailure>(seq![ic, ib]));
    lemma_list_two(envs, na, 0, sa, Seq::empty(), ic, ib);
    assert(Seq::<int>::empty().push(ia) =~= sa);
    assert(!Seq::<int>::empty().contains(ia));
    assert(dcb.push(ia) =~= seq![ic, ib, ia]);
}

proof fn lemma_find_bounds(envs: Seq<Environment>, name: Seq<char>)
    ensures
        find_env(envs, name) matches Some(i) ==> 0 <= i < envs.len(),
{
    lemma_first_match_bounds(envs, name, 0, true);
    lemma_first_match_bounds(envs, name, 0, false);
}

proof fn lemma_first_match_bounds(envs: Seq<Environment>, name: Seq<char>, i: int, exact: bool)
    ensures
        first_match_from(envs, name, i, exact) matches Some(j) ==> i <= j < envs.len(),
    decreases envs.len() - i,
{
    if 0 <= i < envs.len() {
        lemma_first_match_bounds(envs, name, i + 1, exact);
    }
}

impl Config {
    /// The index of the environment `name` designates.
    fn find(&self, name: &str) -> (r: Option<usize>)
        ensures
            r matches Some(i) ==> i < self.environments@.len() && find_env(self.environments@, name@)
                == Some(i as int),
            r is None ==> find_env(self.environments@, name@) is None,
    {
        let n = self.environments.len();
        let mut i: usize = 0;
        while i < n
            invariant
                n == self.environments@.len(),
                i <= n,
                first_match_from(self.environments@, name@, 0, true) == first_match_from(
                    self.environments@,
                    name@,
                    i as int,
                    true,
                ),
            decreases n - i,
        {
            if str_eq(self.environments[i].name.as_str(), name) {
                return Some(i);
            }
            i = i + 1;
        }
        let mut j: usize = 0;
        while j < n
            invariant
                n == self.environments@.len(),
                j <= n,
                first_match_from(self.environments@, name@, 0, true) is None,
                first_match_from(self.environments@, name@, 0, false) == first_match_from(
                    self.environments@,
                    name@,
                    j as int,
                    false,
                ),
            decreases n - j,
        {
            if starts_with(self.environments[j].name.as_str(), name) {
                assert(first_match_from(self.environments@, name@, j as int, false) == Some(j as int));
                let mut k: usize = j + 1;
                while k < n
                    invariant
                        n == self.environments@.len(),
                        j < k <= n,
                        first_match_from(self.environments@, name@, 0, true) is None,
                        first_match_from(self.environments@, name@, 0, false) == Some(j as int),
                        first_match_from(self.environments@, name@, j + 1, false) == first_match_from(
                            self.environments@,
                            name@,
                            k as int,
                            false,
                        ),
                    decreases n - k,
                {
                    if starts_with(self.environments[k].name.as_str(), name) {
                        assert(first_match_from(self.environments@, name@, k as int, false) == Some(k as int));
                        return None;
                    }
                    k = k + 1;
                }
                return Some(j);
            }
            j = j + 1;
        }
        None
    }

    /// Resolve `name` while the environments in `stack` are being resolved.
    fn resolve_indices(&self, name: &str, stack: &mut Vec<usize>) -> (r: Result<Vec<usize>, UseError>)
        requires
            old(stack)@.len() <= self.environments@.len(),
        ensures
            final(stack)@ == old(stack)@,
            r matches Ok(v) ==> forall|u: int| 0 <= u < v@.len() ==> #[trigger] v@[u] < self.environments@.len(),
            match r {
                Ok(v) => resolve_spec(self.environments@, name@, old(stack)@.map_values(|x: usize| x as int))
                    == Ok::<Seq<int>, ResolveFailure>(v@.map_values(|x: usize| x as int)),
                Err(e) => e.failure() matches Some(f) && resolve_spec(
                    self.environments@,
                    name@,
                    old(stack)@.map_values(|x: usize| x as int),
                ) == Err::<Seq<int>, ResolveFailure>(f),
            },
        decreases self.environments@.len() - old(stack)@.len(),
    {
        let ghost envs = self.environments@;
        let ghost st = stack@.map_values(|x: usize| x as int);
        let i = match self.find(name) {
            Some(i) => i,
            None => return Err(UseError::EnvironmentNotFound(to_owned_string(name))),
        };
        let mut on_stack = false;
        let mut t: usize = 0;
        while t < stack.len()
            invariant
                st == stack@.map_values(|x: usize| x as int),
                t <= stack@.len(),
                on_stack <==> exists|u: int| 0 <= u < t && stack@[u] == i,
            decreases stack@.len() - t,
        {
            if stack[t] == i {
                on_stack = true;
            }
            t = t + 1;
        }
        assert(on_stack <==> st.contains(i as int)) by {
            if st.contains(i as int) {
                let u = choose|u: int| 0 <= u < st.len() && st[u] == i as int;
                assert(stack@[u] == i);
            }
            if on_stack {
                let u = choose|u: int| 0 <= u < t && stack@[u] == i;
                assert(st[u] == i as int);
            }
        }
        if on_stack || stack.len() >= self.environments.len() {
            return Err(UseError::CyclicReuse(to_owned_string(name)));
        }
        let empty: Vec<String> = Vec::new();
        let reuse = match &self.environments[i].global.reuse {
            Some(r) => r,
            None => &empty,
        };
        let ghost names = reuse@.map_values(|s: String| s@);
        assert(names == reuse_names(envs[i as int])) by {
            if envs[i as int].global.reuse is None {
                assert(names =~= Seq::<Seq<char>>::empty());
            }
        }
        stack.push(i);
        let ghost st2 = stack@.map_values(|x: usize| x as int);
        assert(st2 =~= st.push(i as int));
        let mut acc: Vec<usize> = Vec::new();
        assert(acc@.map_values(|x: usize| x as int) =~= Seq::<int>::empty());
        let mut k: usize = 0;
        while k < reuse.len()
            invariant
                envs == self.environments@,
                names == reuse@.map_values(|s: String| s@),
                i < envs.len(),
                names == reuse_names(envs[i as int]),
                find_env(envs, name@) == Some(i as int),
                !st.contains(i as int),
                st.len() < envs.len(),
                st == old(stack)@.map_values(|x: usize| x as int),
                st2 == st.push(i as int),
                st2 == stack@.map_values(|x: usize| x as int),
                stack@.len() <= envs.len(),
                stack@.len() == old(stack)@.len() + 1,
                stack@.drop_last() == old(stack)@,
                k <= reuse@.len(),
                forall|u: int| 0 <= u < acc@.len() ==> #[trigger] acc@[u] < envs.len(),
                resolve_list(envs, names, 0, st2, Seq::empty()) == resolve_list(
                    envs,
                    names,
                    k as int,
                    st2,
                    acc@.map_values(|x: usize| x as int),
                ),
            decreases reuse@.len() - k,
        {
            let deps = match self.resolve_indices(reuse[k].as_str(), stack) {
                Ok(d) => d,
                Err(e) => {
                    stack.pop();
                    assert(stack@ =~= old(stack)@);
                    assert(names[k as int] == reuse@[k as int]@);
                    assert(resolve_list(envs, names, 0, st2, Seq::empty()) == Err::<Seq<int>, ResolveFailure>(e.failure()->0));
                    assert(find_env(envs, name@) == Some(i as int));
                    assert(!st.contains(i as int));
                    assert(resolve_spec(envs, name@, st) == Err::<Seq<int>, ResolveFailure>(e.failure()->0));
                    return Err(e);
                },
            };
            let ghost acc0 = acc@.map_values(|x: usize| x as int);
            let ghost dv = deps@.map_values(|x: usize| x as int);
            let mut d: usize = 0;
            while d < deps.len()
                invariant
                    dv == deps@.map_values(|x: usize| x as int),
                    d <= deps@.len(),
                    forall|u: int| 0 <= u < acc@.len() ==> #[trigger] acc@[u] < envs.len(),
                    forall|u: int| 0 <= u < deps@.len() ==> #[trigger] deps@[u] < envs.len(),
                    acc@.map_values(|x: usize| x as int) == append_new(acc0, dv.subrange(0, d as int)),
                decreases deps@.len() - d,
            {
                let x = deps[d];
                let mut present = false;
                let mut w: usize = 0;
                while w < acc.len()
                    invariant
                        w <= acc@.len(),
                        present <==> exists|u: int| 0 <= u < w && acc@[u] == x,
                    decreases acc@.len() - w,
                {
                    if acc[w] == x {
                        present = true;
                    }
                    w = w + 1;
                }
                let ghost av = acc@.map_values(|x: usize| x as int);
                assert(dv.subrange(0, d + 1).drop_last() =~= dv.subrange(0, d as int));
                assert(dv.subrange(0, d + 1).last() == x as int);
                assert(present <==> av.contains(x as int)) by {
                    if av.contains(x as int) {
                        let u = choose|u: int| 0 <= u < av.len() && av[u] == x as int;
                        assert(acc@[u] == x);
                    }
                    if present {
                        let u = choose|u: int| 0 <= u < w && acc@[u] == x;
                        assert(av[u] == x as int);
                    }
                }
                if !present {
                    acc.push(x);
                    assert(acc@.map_values(|x: usize| x as int) =~= av.push(x as int));
                }
                d = d + 1;
            }
            assert(dv.subrange(0, d as int) =~= dv);
            k = k + 1;
        }
        stack.pop();
        assert(stack@ =~= old(stack)@);
        let ghost accv = acc@.map_values(|x: usize| x as int);
        assert(resolve_list(envs, names, 0, st2, Seq::empty()) == Ok::<Seq<int>, ResolveFailure>(accv));
        acc.push(i);
        assert(acc@.map_values(|x: usize| x as int) =~= accv.push(i as int));
        Ok(acc)
    }

    /// The indices of the environments to apply for `name`.
    pub fn resolve_indices_of(&self, name: &str) -> (r: Result<Vec<usize>, UseError>)
        ensures
            r matches Ok(v) ==> forall|u: int| 0 <= u < v@.len() ==> #[trigger] v@[u] < self.environments@.len(),
            match r {
                Ok(v) => resolved(self.environments@, name@) == Ok::<Seq<int>, ResolveFailure>(
                    v@.map_values(|x: usize| x as int),
                ),
                Err(e) => e.failure() matches Some(f) && resolved(self.environments@, name@) == Err::<
                    Seq<int>,
                    ResolveFailure,
                >(f),
            },
    {
        let mut stack: Vec<usize> = Vec::new();
        assert(stack@.map_values(|x: usize| x as int) =~= Seq::<int>::empty());
        self.resolve_indices(name, &mut stack)
    }

    /// The environments to apply for `name`: those it reuses, resolved in
    /// declared order and each kept once, then the environment itself.
    pub fn resolve_dependencies(&self, name: &str) -> (r: Result<Vec<&Environment>, UseError>)
        ensures
            match r {
                Ok(v) => resolved(self.environments@, name@) matches Ok(idx) && v@.len() == idx.len()
                    && forall|j: int| 0 <= j < idx.len() ==> 0 <= #[trigger] idx[j] < self.environments@.len()
                    && *v@[j] == self.environments@[idx[j]],
                Err(e) => e.failure() matches Some(f) && resolved(self.environments@, name@) == Err::<
                    Seq<int>,
                    ResolveFailure,
                >(f),
            },
    {
        let idx = self.resolve_indices_of(name)?;
        let mut r: Vec<&Environment> = Vec::new();
        let mut j: usize = 0;
        while j < idx.len()
            invariant
                j <= idx@.len(),
                r@.len() == j,
                forall|u: int| 0 <= u < idx@.len() ==> #[trigger] idx@[u] < self.environments@.len(),
                forall|u: int| 0 <= u < j ==> *r@[u] == self.environments@[#[trigger] idx@[u] as int],
            decreases idx@.len() - j,
        {
            r.push(&self.environments[idx[j]]);
            j = j + 1;
        }
        Ok(r)
    }
}

} // verus!
