//! Building the catalog: the entries of the catalog file folded for the
//! current shell, filtered by context, templates replaced by their
//! instances, and the whole ordered.
use vstd::prelude::*;
use crate::config::{Config, UseError};
use crate::context::{filter_holds, Context, Shell};
use crate::environment::{folded, lemma_folded_renamed, Environment};
use crate::pattern::{captured_values, fill_all, instance_of, matched, regex_compiles};
use crate::text::{lex_less, lex_lt, str_eq, to_owned_string};

verus! {

#[verifier::external_type_specification]
#[verifier::external_body]
pub struct ExVersion(semver::Version);

/// Whether `text` is a semantic version the semver crate accepts.
pub uninterp spec fn is_semver(text: Seq<char>) -> bool;

/// How the version written `a` compares with the version written `b`, in
/// the semver crate's order.
pub uninterp spec fn version_cmp(a: Seq<char>, b: Seq<char>) -> std::cmp::Ordering;

/// A parsed version and the text it was parsed from.
struct ParsedVersion {
    version: semver::Version,
    source: String,
}

/// The opposite ordering.
pub open spec fn reversed(o: std::cmp::Ordering) -> std::cmp::Ordering {
    match o {
        std::cmp::Ordering::Less => std::cmp::Ordering::Greater,
        std::cmp::Ordering::Equal => std::cmp::Ordering::Equal,
        std::cmp::Ordering::Greater => std::cmp::Ordering::Less,
    }
}

/// Relies on `semver::Version::parse`: it accepts or rejects a text on the
/// text alone.
#[verifier::external_body]
fn parse_version(text: &str) -> (r: Option<ParsedVersion>)
    ensures
        r is Some == is_semver(text@),
        r matches Some(v) ==> v.source@ == text@,
{
    semver::Version::parse(text).ok().map(|version| ParsedVersion { version, source: text.to_string() })
}

/// Relies on semver's `Ord` for `Version` (precedence by major, minor,
/// patch, pre-release, then build metadata), which like every `Ord` gives
/// the opposite answer for the swapped pair.
#[verifier::external_body]
fn compare_versions(a: &ParsedVersion, b: &ParsedVersion) -> (r: std::cmp::Ordering)
    ensures
        r == version_cmp(a.source@, b.source@),
        version_cmp(b.source@, a.source@) == reversed(r),
{
    a.version.cmp(&b.version)
}

/// Both are instances of the same template and both carry a version.
pub open spec fn same_template(a: Environment, b: Environment) -> bool {
    &&& a.original_name is Some
    &&& b.original_name is Some
    &&& a.original_name->0@ == b.original_name->0@
    &&& a.version is Some
    &&& b.version is Some
}

/// Whether `a` goes before `b` in the catalog, given `b_vs_a`, how `b`'s
/// version compares with `a`'s when both parse: instances of one template
/// newest first, everything else by name.
pub open spec fn goes_before(a: Environment, b: Environment, b_vs_a: Option<std::cmp::Ordering>) -> bool {
    if same_template(a, b) && b_vs_a is Some {
        b_vs_a == Some(std::cmp::Ordering::Less)
    } else {
        lex_lt(a.name@, b.name@)
    }
}

/// How `b`'s version compares with `a`'s when both are instances of one
/// template and both versions parse.
pub open spec fn version_order(a: Environment, b: Environment) -> Option<std::cmp::Ordering> {
    if same_template(a, b) && is_semver(a.version->0@) && is_semver(b.version->0@) {
        Some(version_cmp(b.version->0@, a.version->0@))
    } else {
        None
    }
}

/// `a` goes before `b` in the catalog: instances of one template newest
/// version first when both versions parse, everything else by name.
pub open spec fn precedes(a: Environment, b: Environment) -> bool {
    goes_before(a, b, version_order(a, b))
}

/// No environment of `s` goes before the one just ahead of it.
pub open spec fn catalog_ordered(s: Seq<Environment>) -> bool {
    forall|k: int| 0 <= k < s.len() - 1 ==> !precedes(#[trigger] s[k + 1], s[k])
}

fn same_template_exec(a: &Environment, b: &Environment) -> (r: bool)
    ensures
        r == same_template(*a, *b),
{
    match (&a.original_name, &b.original_name, &a.version, &b.version) {
        (Some(ka), Some(kb), Some(_), Some(_)) => str_eq(ka.as_str(), kb.as_str()),
        _ => false,
    }
}

/// The raw entry `e` applies in the context: it has no filter, or its filter holds.
pub open spec fn applies(ctx: Context, e: Environment) -> bool {
    e.context is None || filter_holds(ctx.os, ctx.shell, e.context->0@)
}

/// `e` is the raw entry `i`, which applies, named by its key and folded for
/// the current shell.
#[verifier::opaque]
pub open spec fn entry_as(ctx: Context, raw: Seq<(String, Environment)>, i: int, e: Environment) -> bool {
    &&& 0 <= i < raw.len()
    &&& applies(ctx, raw[i].1)
    &&& e.name == raw[i].0
    &&& e.pattern == raw[i].1.pattern
    &&& folded(ctx.shell, raw[i].1, e)
}

/// `e` is a plain raw entry (one without pattern) that applies, named and folded.
pub open spec fn plain_from(ctx: Context, raw: Seq<(String, Environment)>, e: Environment) -> bool {
    exists|i: int| #[trigger] entry_as(ctx, raw, i, e) && raw[i].1.pattern is None
}

/// `t` is a template raw entry that applies, named and folded.
pub open spec fn template_from(ctx: Context, raw: Seq<(String, Environment)>, t: Environment) -> bool {
    exists|i: int| #[trigger] entry_as(ctx, raw, i, t) && raw[i].1.pattern is Some
}

/// The entry names listed for the directory `path`: those of its first
/// listing; none when it has no listing.
pub open spec fn listing_of(listings: Seq<(String, Vec<String>)>, path: Seq<char>) -> Seq<Seq<char>>
    decreases listings.len(),
{
    if listings.len() == 0 {
        Seq::empty()
    } else if listings[0].0@ == path {
        listings[0].1@.map_values(|s: String| s@)
    } else {
        listing_of(listings.drop_first(), path)
    }
}

/// The matches of the template `t`'s expression in the entries of its directory.
pub open spec fn template_matches(listings: Seq<(String, Vec<String>)>, t: Environment) -> Seq<
    Seq<Option<Seq<char>>>,
> {
    matched(t.pattern->0.regex@, listing_of(listings, t.pattern->0.path@))
}

/// `e` is the instance of a template that applies for one match of its
/// expression in its directory.
pub open spec fn instance_from(
    ctx: Context,
    raw: Seq<(String, Environment)>,
    listings: Seq<(String, Vec<String>)>,
    e: Environment,
) -> bool {
    exists|t: Environment, j: int|
        template_from(ctx, raw, t) && 0 <= j < template_matches(listings, t).len() && #[trigger] instance_of(
            t,
            template_matches(listings, t)[j],
            e,
        )
}

/// No two environments of `v` share a name.
pub open spec fn names_unique(v: Seq<Environment>) -> bool {
    forall|a: int, b: int| 0 <= a < v.len() && 0 <= b < v.len() && a != b ==> (#[trigger] v[a]).name@ != (#[trigger] v[b]).name@
}

/// The names of the instances of template `t` for the matches of its
/// expression in its directory, in order.
pub open spec fn instance_names(listings: Seq<(String, Vec<String>)>, t: Environment) -> Seq<Seq<char>> {
    template_matches(listings, t).map_values(|g: Seq<Option<Seq<char>>>| fill_all(t.name@, captured_values(g)))
}

/// The template raw entry `i` applies and its expression compiles.
pub open spec fn expands(ctx: Context, raw: Seq<(String, Environment)>, i: int) -> bool {
    0 <= i < raw.len() && applies(ctx, raw[i].1) && raw[i].1.pattern is Some && regex_compiles(
        raw[i].1.pattern->0.regex@,
    )
}

/// The names that the template raw entry `i` gives its instances.
pub open spec fn raw_instance_names(ctx: Context, raw: Seq<(String, Environment)>, listings: Seq<(String, Vec<String>)>, i: int) -> Seq<Seq<char>> {
    let p = raw[i].1.pattern->0;
    matched(p.regex@, listing_of(listings, p.path@)).map_values(
        |g: Seq<Option<Seq<char>>>| fill_all(raw[i].0@, captured_values(g)),
    )
}

/// `v` is the catalog built from the raw entries `raw` and the directory
/// listings `listings`:
/// - no templates, every environment well formed;
/// - each environment a plain entry that applies, named and folded, or an
///   instance of a template that applies for one match in its directory;
/// - each name that a plain entry that applies, or an instance of a template
///   that applies, would have is there, once (names are unique; where two
///   would share one, the first of them in building order stays);
/// - the whole in catalog order.
pub open spec fn catalog_of(
    ctx: Context,
    raw: Seq<(String, Environment)>,
    listings: Seq<(String, Vec<String>)>,
    v: Seq<Environment>,
) -> bool {
    &&& forall|k: int| 0 <= k < v.len() ==> (#[trigger] v[k]).pattern is None && v[k].wf()
    &&& forall|k: int| 0 <= k < v.len() ==> plain_from(ctx, raw, #[trigger] v[k]) || instance_from(ctx, raw, listings, v[k])
    &&& forall|i: int|
        0 <= i < raw.len() && applies(ctx, #[trigger] raw[i].1) && raw[i].1.pattern is None ==> has_name(v, raw[i].0@)
    &&& forall|i: int, j: int|
        #[trigger] expands(ctx, raw, i) && 0 <= j < raw_instance_names(ctx, raw, listings, i).len() ==> has_name(
            v,
            #[trigger] raw_instance_names(ctx, raw, listings, i)[j],
        )
    &&& names_unique(v)
    &&& catalog_ordered(v)
}

/// Some environment of `v` is named `name`.
pub open spec fn has_name(v: Seq<Environment>, name: Seq<char>) -> bool {
    exists|k: int| 0 <= k < v.len() && #[trigger] v[k].name@ == name
}

/// The environments of `v` whose names no earlier one has, in order.
fn keep_first_names(v: Vec<Environment>) -> (r: Vec<Environment>)
    ensures
        names_unique(r@),
        forall|k: int| 0 <= k < r@.len() ==> v@.contains(#[trigger] r@[k]),
        forall|k: int| 0 <= k < v@.len() ==> has_name(r@, (#[trigger] v@[k]).name@),
{
    let ghost orig = v@;
    let mut rest = v;
    let mut r: Vec<Environment> = Vec::new();
    let ghost mut i: int = 0;
    while rest.len() > 0
        invariant
            0 <= i,
            i + rest@.len() == orig.len(),
            rest@ == orig.subrange(i as int, orig.len() as int),
            names_unique(r@),
            forall|k: int| 0 <= k < r@.len() ==> orig.contains(#[trigger] r@[k]),
            forall|k: int| 0 <= k < i ==> has_name(r@, (#[trigger] orig[k]).name@),
        decreases rest@.len(),
    {
        let x = rest.remove(0);
        assert(x == orig[i]);
        let mut found = false;
        let mut k: usize = 0;
        while k < r.len() && !found
            invariant
                k <= r@.len(),
                found ==> has_name(r@, x.name@),
                !found ==> forall|w: int| 0 <= w < k ==> r@[w].name@ != x.name@,
            decreases r@.len() - k + (if found { 0int } else { 1int }),
        {
            if str_eq(r[k].name.as_str(), x.name.as_str()) {
                found = true;
                assert(r@[k as int].name@ == x.name@);
            } else {
                k = k + 1;
            }
        }
        let ghost r0 = r@;
        if !found {
            r.push(x);
            proof {
                assert(r@[r0.len() as int] == orig[i as int]);
                assert forall|a: int, b: int| 0 <= a < r@.len() && 0 <= b < r@.len() && a != b implies (#[trigger] r@[a]).name@
                    != (#[trigger] r@[b]).name@ by {
                    if a < r0.len() && b < r0.len() {
                        assert(r@[a] == r0[a] && r@[b] == r0[b]);
                    } else if a < r0.len() {
                        assert(r@[a] == r0[a]);
                    } else if b < r0.len() {
                        assert(r@[b] == r0[b]);
                    }
                }
                assert forall|k2: int| 0 <= k2 < r@.len() implies orig.contains(#[trigger] r@[k2]) by {
                    if k2 < r0.len() {
                        assert(r@[k2] == r0[k2]);
                    } else {
                        assert(orig[i as int] == r@[k2]);
                    }
                }
                assert forall|k2: int| 0 <= k2 < i + 1 implies has_name(r@, (#[trigger] orig[k2]).name@) by {
                    if k2 < i {
                        let w = choose|w: int| 0 <= w < r0.len() && #[trigger] r0[w].name@ == orig[k2].name@;
                        assert(r@[w] == r0[w]);
                    } else {
                        assert(r@[r0.len() as int].name@ == orig[k2].name@);
                    }
                }
            }
        }
        assert(rest@ =~= orig.subrange(i + 1, orig.len() as int));
        proof {
            i = i + 1;
        }
    }
    r
}

/// A reordering keeps names unique.
proof fn lemma_unique_after_reordering(u: Seq<Environment>, s: Seq<Environment>)
    requires
        names_unique(u),
        s.to_multiset() == u.to_multiset(),
    ensures
        names_unique(s),
{
    broadcast use vstd::seq_lib::group_to_multiset_ensures;
    assert forall|a: int, b: int| 0 <= a < s.len() && 0 <= b < s.len() && a != b implies (#[trigger] s[a]).name@
        != (#[trigger] s[b]).name@ by {
        if s[a].name@ == s[b].name@ {
            vstd::seq_lib::to_multiset_contains(s, s[a]);
            vstd::seq_lib::to_multiset_contains(u, s[a]);
            vstd::seq_lib::to_multiset_contains(s, s[b]);
            vstd::seq_lib::to_multiset_contains(u, s[b]);
            let i = choose|i: int| 0 <= i < u.len() && u[i] == s[a];
            let j = choose|j: int| 0 <= j < u.len() && u[j] == s[b];
            if i == j {
                // s holds this element twice, so u does too.
                vstd::seq_lib::to_multiset_remove(s, a);
                assert(s.remove(a)[if b < a { b } else { b - 1 }] == s[b]);
                vstd::seq_lib::to_multiset_contains(s.remove(a), s[a]);
                vstd::seq_lib::to_multiset_remove(u, i);
                vstd::seq_lib::to_multiset_contains(u.remove(i), s[a]);
                let w = choose|w: int| 0 <= w < u.remove(i).len() && u.remove(i)[w] == s[a];
                let w2 = if w < i { w } else { w + 1 };
                assert(u[w2] == s[a]);
                assert(u[w2].name@ == u[i].name@);
            } else {
                assert(u[i].name@ == u[j].name@);
            }
        }
    }
}

/// A name present in `built` is present after keeping first names and
/// reordering.
proof fn lemma_name_kept(built: Seq<Environment>, unsorted: Seq<Environment>, sorted: Seq<Environment>, n: Seq<char>)
    requires
        has_name(built, n),
        forall|k: int| 0 <= k < built.len() ==> has_name(unsorted, (#[trigger] built[k]).name@),
        sorted.to_multiset() == unsorted.to_multiset(),
    ensures
        has_name(sorted, n),
{
    broadcast use vstd::seq_lib::group_to_multiset_ensures;
    let k = choose|k: int| 0 <= k < built.len() && #[trigger] built[k].name@ == n;
    assert(has_name(unsorted, built[k].name@));
    let w = choose|w: int| 0 <= w < unsorted.len() && #[trigger] unsorted[w].name@ == built[k].name@;
    vstd::seq_lib::to_multiset_contains(unsorted, unsorted[w]);
    vstd::seq_lib::to_multiset_contains(sorted, unsorted[w]);
    let x = choose|x: int| 0 <= x < sorted.len() && sorted[x] == unsorted[w];
    assert(sorted[x].name@ == n);
}

/// The steps of `create_env_vector` build a catalog.
proof fn lemma_catalog(
    ctx: Context,
    raw: Seq<(String, Environment)>,
    listings: Seq<(String, Vec<String>)>,
    plain0: Seq<Environment>,
    templates: Seq<Environment>,
    built: Seq<Environment>,
    unsorted: Seq<Environment>,
    sorted: Seq<Environment>,
)
    requires
        forall|u: int|
            0 <= u < raw.len() && applies(ctx, #[trigger] raw[u].1) && raw[u].1.pattern is None
                ==> exists|k: int| 0 <= k < plain0.len() && #[trigger] entry_as(ctx, raw, u, plain0[k]),
        forall|u: int|
            0 <= u < raw.len() && applies(ctx, #[trigger] raw[u].1) && raw[u].1.pattern is Some
                ==> exists|k: int| 0 <= k < templates.len() && #[trigger] entry_as(ctx, raw, u, templates[k]),
        forall|k: int| 0 <= k < built.len() ==> (#[trigger] built[k]).pattern is None && built[k].wf(),
        forall|k: int| 0 <= k < built.len() ==> plain_from(ctx, raw, #[trigger] built[k]) || instance_from(ctx, raw, listings, built[k]),
        plain0.len() <= built.len(),
        forall|k: int| 0 <= k < plain0.len() ==> #[trigger] built[k] == plain0[k],
        forall|tt: int, j: int|
            0 <= tt < templates.len() && regex_compiles(templates[tt].pattern->0.regex@) && 0 <= j < instance_names(listings, templates[tt]).len()
                ==> has_name(built, #[trigger] instance_names(listings, templates[tt])[j]),
        names_unique(unsorted),
        forall|k: int| 0 <= k < unsorted.len() ==> built.contains(#[trigger] unsorted[k]),
        forall|k: int| 0 <= k < built.len() ==> has_name(unsorted, (#[trigger] built[k]).name@),
        sorted.to_multiset() == unsorted.to_multiset(),
        catalog_ordered(sorted),
    ensures
        catalog_of(ctx, raw, listings, sorted),
{
    broadcast use vstd::seq_lib::group_to_multiset_ensures;
    lemma_unique_after_reordering(unsorted, sorted);
    assert forall|k: int| 0 <= k < sorted.len() implies (#[trigger] sorted[k]).pattern is None && sorted[k].wf() && (plain_from(
        ctx,
        raw,
        sorted[k],
    ) || instance_from(ctx, raw, listings, sorted[k])) by {
        vstd::seq_lib::to_multiset_contains(sorted, sorted[k]);
        vstd::seq_lib::to_multiset_contains(unsorted, sorted[k]);
        let w = choose|w: int| 0 <= w < unsorted.len() && unsorted[w] == sorted[k];
        assert(built.contains(unsorted[w]));
        let b = choose|b: int| 0 <= b < built.len() && built[b] == unsorted[w];
        assert(built[b] == sorted[k]);
    }
    assert forall|i: int|
        0 <= i < raw.len() && applies(ctx, #[trigger] raw[i].1) && raw[i].1.pattern is None implies has_name(sorted, raw[i].0@) by {
        let k = choose|k: int| 0 <= k < plain0.len() && #[trigger] entry_as(ctx, raw, i, plain0[k]);
        reveal(entry_as);
        assert(built[k] == plain0[k]);
        assert(built[k].name@ == raw[i].0@);
        lemma_name_kept(built, unsorted, sorted, raw[i].0@);
    }
    assert forall|i: int, j: int|
        #[trigger] expands(ctx, raw, i) && 0 <= j < raw_instance_names(ctx, raw, listings, i).len() implies has_name(
            sorted,
            #[trigger] raw_instance_names(ctx, raw, listings, i)[j],
        ) by {
        let k = choose|k: int| 0 <= k < templates.len() && #[trigger] entry_as(ctx, raw, i, templates[k]);
        let t = templates[k];
        reveal(folded);
        reveal(entry_as);
        assert(t.pattern == raw[i].1.pattern);
        assert(t.name == raw[i].0);
        assert(instance_names(listings, t) =~= raw_instance_names(ctx, raw, listings, i));
        assert(has_name(built, instance_names(listings, templates[k])[j]));
        lemma_name_kept(built, unsorted, sorted, raw_instance_names(ctx, raw, listings, i)[j]);
    }
}

/// The entry names listed for `path`, as `listing_of` finds them.
fn find_listing<'a>(listings: &'a Vec<(String, Vec<String>)>, path: &str) -> (r: Option<&'a Vec<String>>)
    ensures
        match r {
            Some(es) => es@.map_values(|s: String| s@) == listing_of(listings@, path@),
            None => listing_of(listings@, path@) == Seq::<Seq<char>>::empty(),
        },
{
    let n = listings.len();
    let mut l: usize = 0;
    assert(listings@.subrange(0, n as int) =~= listings@);
    while l < n
        invariant
            n == listings@.len(),
            l <= n,
            listing_of(listings@, path@) == listing_of(listings@.subrange(l as int, n as int), path@),
        decreases n - l,
    {
        let ghost rest = listings@.subrange(l as int, n as int);
        if str_eq(listings[l].0.as_str(), path) {
            assert(rest[0] == listings@[l as int]);
            return Some(&listings[l].1);
        }
        assert(rest.drop_first() =~= listings@.subrange(l + 1, n as int));
        l = l + 1;
    }
    assert(listings@.subrange(l as int, n as int) =~= Seq::<(String, Vec<String>)>::empty());
    None
}

impl Config {
    /// The raw entry `u`, `(name, env)`, named and folded for the current
    /// shell, when its filter holds.
    fn prepare_entry(
        context: &Context,
        raw: Ghost<Seq<(String, Environment)>>,
        u: Ghost<int>,
        name: String,
        env: Environment,
    ) -> (r: Option<Environment>)
        requires
            context.shell != Shell::Unknown,
            0 <= u@ < raw@.len(),
            raw@[u@] == (name, env),
            env.wf(),
        ensures
            r is Some == applies(*context, raw@[u@].1),
            r matches Some(e) ==> entry_as(*context, raw@, u@, e) && e.wf() && e.pattern == raw@[u@].1.pattern,
    {
        let mut env = env;
        env.fold(context);
        let ghost folded_env = env;
        env.name = name;
        proof {
            lemma_folded_renamed(context.shell, raw@[u@].1, folded_env, env);
        }
        let keep = match &env.context {
            Some(c) => context.check(c.as_str()),
            None => true,
        };
        proof {
            reveal(entry_as);
        }
        if keep {
            Some(env)
        } else {
            None
        }
    }

    /// Name, fold and filter the raw entries: the plain ones and the
    /// templates that apply, folded for the current shell.
    fn split_entries(context: &Context, env_hash: Vec<(String, Environment)>) -> (r: (Vec<Environment>, Vec<Environment>))
        requires
            context.shell != Shell::Unknown,
            forall|u: int| 0 <= u < env_hash@.len() ==> (#[trigger] env_hash@[u]).1.wf(),
        ensures
            forall|k: int| 0 <= k < r.0@.len() ==> (#[trigger] r.0@[k]).pattern is None && r.0@[k].wf(),
            forall|k: int| 0 <= k < r.0@.len() ==> plain_from(*context, env_hash@, #[trigger] r.0@[k]),
            forall|k: int| 0 <= k < r.1@.len() ==> (#[trigger] r.1@[k]).wf(),
            forall|k: int| 0 <= k < r.1@.len() ==> template_from(*context, env_hash@, #[trigger] r.1@[k]),
            forall|u: int|
                0 <= u < env_hash@.len() && applies(*context, #[trigger] env_hash@[u].1) && env_hash@[u].1.pattern is None
                    ==> exists|k: int| 0 <= k < r.0@.len() && #[trigger] entry_as(*context, env_hash@, u, r.0@[k]),
            forall|u: int|
                0 <= u < env_hash@.len() && applies(*context, #[trigger] env_hash@[u].1) && env_hash@[u].1.pattern is Some
                    ==> exists|k: int| 0 <= k < r.1@.len() && #[trigger] entry_as(*context, env_hash@, u, r.1@[k]),
    {
        let mut plain: Vec<Environment> = Vec::new();
        let mut templates: Vec<Environment> = Vec::new();
        let mut hash = env_hash;
        let ghost raw = hash@;
        while hash.len() > 0
            invariant
                context.shell != Shell::Unknown,
                forall|u: int| 0 <= u < raw.len() ==> (#[trigger] raw[u]).1.wf(),
                hash@.len() <= raw.len(),
                hash@ == raw.subrange(0, hash@.len() as int),
                forall|k: int| 0 <= k < plain@.len() ==> (#[trigger] plain@[k]).pattern is None && plain@[k].wf(),
                forall|k: int| 0 <= k < templates@.len() ==> (#[trigger] templates@[k]).wf(),
                forall|u: int|
                    hash@.len() <= u < raw.len() && applies(*context, #[trigger] raw[u].1) && raw[u].1.pattern is None
                        ==> exists|k: int| 0 <= k < plain@.len() && #[trigger] entry_as(*context, raw, u, plain@[k]),
                forall|k: int| 0 <= k < plain@.len() ==> plain_from(*context, raw, #[trigger] plain@[k]),
                forall|k: int| 0 <= k < templates@.len() ==> template_from(*context, raw, #[trigger] templates@[k]),
                forall|u: int|
                    hash@.len() <= u < raw.len() && applies(*context, #[trigger] raw[u].1) && raw[u].1.pattern is Some
                        ==> exists|k: int| 0 <= k < templates@.len() && #[trigger] entry_as(*context, raw, u, templates@[k]),
            decreases hash@.len(),
        {
            let ghost u = hash@.len() - 1;
            let (name, env) = hash.pop().unwrap();
            assert(raw[u] == (name, env));
            let prepared = Self::prepare_entry(context, Ghost(raw), Ghost(u), name, env);
            let keep = prepared.is_some();
            if let Some(env) = prepared {
                if env.pattern.is_none() {
                    let ghost before = plain@;
                    plain.push(env);
                    proof {
                        assert(plain@[before.len() as int] == env);
                        assert forall|k: int| 0 <= k < plain@.len() implies plain_from(*context, raw, #[trigger] plain@[k]) by {
                            if k < before.len() {
                                assert(plain@[k] == before[k]);
                            } else {
                                assert(entry_as(*context, raw, u, plain@[k]));
                            }
                        }
                        assert forall|w: int|
                            hash@.len() <= w < raw.len() && applies(*context, #[trigger] raw[w].1) && raw[w].1.pattern is None
                                implies exists|k: int| 0 <= k < plain@.len() && #[trigger] entry_as(*context, raw, w, plain@[k]) by {
                            if w > u {
                                let k = choose|k: int| 0 <= k < before.len() && #[trigger] entry_as(*context, raw, w, before[k]);
                                assert(plain@[k] == before[k]);
                            } else {
                                assert(entry_as(*context, raw, w, plain@[before.len() as int]));
                            }
                        }
                        assert forall|w: int|
                            hash@.len() <= w < raw.len() && applies(*context, #[trigger] raw[w].1) && raw[w].1.pattern is Some
                                implies exists|k: int| 0 <= k < templates@.len() && #[trigger] entry_as(*context, raw, w, templates@[k]) by {
                            assert(w != u);
                        }
                    }
                } else {
                    let ghost before = templates@;
                    templates.push(env);
                    proof {
                        assert forall|k: int| 0 <= k < templates@.len() implies template_from(*context, raw, #[trigger] templates@[k]) by {
                            if k < before.len() {
                                assert(templates@[k] == before[k]);
                            } else {
                                assert(entry_as(*context, raw, u, templates@[k]));
                            }
                        }
                        assert forall|w: int|
                            hash@.len() <= w < raw.len() && applies(*context, #[trigger] raw[w].1) && raw[w].1.pattern is Some
                                implies exists|k: int| 0 <= k < templates@.len() && #[trigger] entry_as(*context, raw, w, templates@[k]) by {
                            if w > u {
                                let k = choose|k: int| 0 <= k < before.len() && #[trigger] entry_as(*context, raw, w, before[k]);
                                assert(templates@[k] == before[k]);
                            } else {
                                assert(entry_as(*context, raw, w, templates@[before.len() as int]));
                            }
                        }
                    }
                }
            } else {
                proof {
                    assert forall|w: int|
                        hash@.len() <= w < raw.len() && applies(*context, #[trigger] raw[w].1) && raw[w].1.pattern is None
                            implies exists|k: int| 0 <= k < plain@.len() && #[trigger] entry_as(*context, raw, w, plain@[k]) by {
                        assert(w != u);
                    }
                    assert forall|w: int|
                        hash@.len() <= w < raw.len() && applies(*context, #[trigger] raw[w].1) && raw[w].1.pattern is Some
                            implies exists|k: int| 0 <= k < templates@.len() && #[trigger] entry_as(*context, raw, w, templates@[k]) by {
                        assert(w != u);
                    }
                }
            }
            assert(hash@ =~= raw.subrange(0, hash@.len() as int));
        }
        proof {
            assert forall|u: int|
                0 <= u < raw.len() && applies(*context, #[trigger] raw[u].1) && raw[u].1.pattern is Some
                    implies exists|k: int| 0 <= k < templates@.len() && #[trigger] entry_as(*context, raw, u, templates@[k]) by {
                assert(hash@.len() <= u);
                let k = choose|k: int| 0 <= k < templates@.len() && #[trigger] entry_as(*context, raw, u, templates@[k]);
                assert(entry_as(*context, raw, u, templates@[k]));
            }
        }
        let r = (plain, templates);
        assert(r.1@ == templates@);
        r
    }

    /// Append to `plain` the instances of each of `templates` for the
    /// entries of its directory.
    fn expand_templates(
        context: &Context,
        raw: Ghost<Seq<(String, Environment)>>,
        templates: &Vec<Environment>,
        listings: &Vec<(String, Vec<String>)>,
        plain: &mut Vec<Environment>,
    )
        requires
            forall|k: int| 0 <= k < old(plain)@.len() ==> (#[trigger] old(plain)@[k]).pattern is None && old(plain)@[k].wf(),
            forall|k: int| 0 <= k < templates@.len() ==> (#[trigger] templates@[k]).wf(),
            forall|k: int| 0 <= k < templates@.len() ==> template_from(*context, raw@, #[trigger] templates@[k]),
            forall|k: int| 0 <= k < old(plain)@.len() ==> plain_from(*context, raw@, #[trigger] old(plain)@[k]) || instance_from(
                *context,
                raw@,
                listings@,
                old(plain)@[k],
            ),
        ensures
            forall|k: int| 0 <= k < final(plain)@.len() ==> (#[trigger] final(plain)@[k]).pattern is None && final(plain)@[k].wf(),
            forall|k: int| 0 <= k < final(plain)@.len() ==> plain_from(*context, raw@, #[trigger] final(plain)@[k]) || instance_from(
                *context,
                raw@,
                listings@,
                final(plain)@[k],
            ),
            old(plain)@.len() <= final(plain)@.len(),
            forall|k: int| 0 <= k < old(plain)@.len() ==> #[trigger] final(plain)@[k] == old(plain)@[k],
            forall|tt: int, j: int|
                0 <= tt < templates@.len() && regex_compiles(templates@[tt].pattern->0.regex@) && 0 <= j < instance_names(listings@, templates@[tt]).len()
                    ==> has_name(final(plain)@, #[trigger] instance_names(listings@, templates@[tt])[j]),
    {
        let ghost raw = raw@;
        let ghost plain0 = plain@;
        let mut t: usize = 0;
        while t < templates.len()
            invariant
                forall|k: int| 0 <= k < plain@.len() ==> (#[trigger] plain@[k]).pattern is None && plain@[k].wf(),
                forall|k: int| 0 <= k < templates@.len() ==> (#[trigger] templates@[k]).wf(),
                t <= templates@.len(),
                forall|k: int| 0 <= k < templates@.len() ==> template_from(*context, raw, #[trigger] templates@[k]),
                forall|k: int| 0 <= k < plain@.len() ==> plain_from(*context, raw, #[trigger] plain@[k]) || instance_from(
                    *context,
                    raw,
                    listings@,
                    plain@[k],
                ),
                plain0.len() <= plain@.len(),
                forall|k: int| 0 <= k < plain0.len() ==> #[trigger] plain@[k] == plain0[k],
                forall|tt: int, j: int|
                    0 <= tt < t && regex_compiles(templates@[tt].pattern->0.regex@) && 0 <= j < instance_names(listings@, templates@[tt]).len()
                        ==> has_name(plain@, #[trigger] instance_names(listings@, templates@[tt])[j]),
            decreases templates@.len() - t,
        {
            let tp = &templates[t];
            assert(template_from(*context, raw, *tp));
            proof {
                reveal(entry_as);
            }
            let ghost ti = choose|ti: int| #[trigger] entry_as(*context, raw, ti, *tp) && raw[ti].1.pattern is Some;
            let listed = match &tp.pattern {
                Some(p) => find_listing(listings, p.path.as_str()),
                None => None,
            };
            if let Some(es) = listed {
                let ghost p = tp.pattern->0;
                let mut inst = tp.create_pattern_envs(es);
                let ghost before = plain@;
                let ghost iv = inst@;
                plain.append(&mut inst);
                proof {
                    assert(plain@ == before + iv);
                    let ms = template_matches(listings@, *tp);
                    assert(ms == matched(p.regex@, es@.map_values(|s: String| s@)));
                    assert forall|k: int| 0 <= k < plain@.len() implies (plain_from(*context, raw, #[trigger] plain@[k]) || instance_from(
                        *context,
                        raw,
                        listings@,
                        plain@[k],
                    )) && plain@[k].pattern is None && plain@[k].wf() by {
                        if k < before.len() {
                            assert(plain@[k] == before[k]);
                        } else {
                            let j = k - before.len();
                            assert(plain@[k] == iv[j]);
                            if regex_compiles(p.regex@) {
                                assert(instance_of(*tp, ms[j], iv[j]));
                            } else {
                                assert(iv.len() == 0);
                            }
                        }
                    }
                    assert forall|k: int| 0 <= k < plain0.len() implies #[trigger] plain@[k] == plain0[k] by {
                        assert(plain@[k] == before[k]);
                    }
                    assert forall|tt: int, j: int|
                        0 <= tt < t + 1 && regex_compiles(templates@[tt].pattern->0.regex@) && 0 <= j < instance_names(listings@, templates@[tt]).len()
                            implies has_name(plain@, #[trigger] instance_names(listings@, templates@[tt])[j]) by {
                        let nm = instance_names(listings@, templates@[tt])[j];
                        if tt < t {
                            let k = choose|k: int| 0 <= k < before.len() && #[trigger] before[k].name@ == nm;
                            assert(plain@[k] == before[k]);
                        } else {
                            let k = before.len() + j;
                            assert(plain@[k] == iv[j]);
                            assert(instance_of(*tp, ms[j], iv[j]));
                            assert(plain@[k].name@ == nm);
                        }
                    }
                }
            }
            else {
                proof {
                    assert(listing_of(listings@, tp.pattern->0.path@) == Seq::<Seq<char>>::empty());
                    assert(template_matches(listings@, *tp) =~= Seq::<Seq<Option<Seq<char>>>>::empty());
                    assert forall|k: int| 0 <= k < plain0.len() implies #[trigger] plain@[k] == plain0[k] by {}
                }
            }
            t = t + 1;
        }
    }

    /// Build the catalog from the entries of the catalog file, `env_hash`
    /// (name and definition), and the entry names of the directories that
    /// patterns scan, `listings` (a directory missing there is not one):
    /// each entry is named, its properties for the current shell folded in,
    /// kept only when its filter holds, templates replaced by their
    /// instances; where two would share a name, the first in building order
    /// (plain entries before instances) stays; the whole is then sorted.
    pub fn create_env_vector(
        context: &Context,
        env_hash: Vec<(String, Environment)>,
        listings: &Vec<(String, Vec<String>)>,
    ) -> (r: Result<Vec<Environment>, UseError>)
        ensures
            context.shell == Shell::Unknown ==> r == Err::<Vec<Environment>, UseError>(UseError::UnsupportedShell),
            context.shell != Shell::Unknown && (exists|i: int| 0 <= i < env_hash@.len() && !(#[trigger] env_hash@[i]).1.wf())
                ==> (r matches Err(UseError::ConfigParse(_))),
            context.shell != Shell::Unknown && (forall|i: int| 0 <= i < env_hash@.len() ==> (#[trigger] env_hash@[i]).1.wf())
                ==> (r matches Ok(v) && catalog_of(*context, env_hash@, listings@, v@)),
    {
        if context.shell == Shell::Unknown {
            return Err(UseError::UnsupportedShell);
        }
        let ghost raw = env_hash@;
        let mut i: usize = 0;
        while i < env_hash.len()
            invariant
                raw == env_hash@,
                context.shell != Shell::Unknown,
                i <= raw.len(),
                forall|u: int| 0 <= u < i ==> (#[trigger] raw[u]).1.wf(),
            decreases raw.len() - i,
        {
            if !env_hash[i].1.is_wf() {
                return Err(UseError::ConfigParse(to_owned_string("a variable is defined twice")));
            }
            i = i + 1;
        }
        let (mut plain, templates) = Self::split_entries(context, env_hash);
        let ghost plain0 = plain@;
        Self::expand_templates(context, Ghost(raw), &templates, listings, &mut plain);
        let ghost built = plain@;
        let mut kept = keep_first_names(plain);
        let ghost unsorted = kept@;
        Self::sort_environments(&mut kept);
        proof {
            lemma_catalog(*context, raw, listings@, plain0, templates@, built, unsorted, kept@);
        }
        Ok(kept)
    }

    /// The catalog built from `env_hash` and `listings` as
    /// `create_env_vector` builds it.
    pub fn new(
        context: &Context,
        env_hash: Vec<(String, Environment)>,
        listings: &Vec<(String, Vec<String>)>,
    ) -> (r: Result<Config, UseError>)
        ensures
            context.shell == Shell::Unknown ==> r == Err::<Config, UseError>(UseError::UnsupportedShell),
            context.shell != Shell::Unknown && (exists|i: int| 0 <= i < env_hash@.len() && !(#[trigger] env_hash@[i]).1.wf())
                ==> (r matches Err(UseError::ConfigParse(_))),
            context.shell != Shell::Unknown && (forall|i: int| 0 <= i < env_hash@.len() ==> (#[trigger] env_hash@[i]).1.wf())
                ==> (r matches Ok(c) && catalog_of(*context, env_hash@, listings@, c.environments@)),
            r matches Ok(c) ==> c.wf(),
    {
        match Self::create_env_vector(context, env_hash, listings) {
            Ok(environments) => {
                let c = Config { environments };
                assert(c.wf()) by {
                    assert forall|i: int| 0 <= i < c.environments@.len() implies #[trigger] c.environments@[i].wf() by {
                        assert(c.environments@[i].pattern is None && c.environments@[i].wf());
                    }
                }
                Ok(c)
            },
            Err(e) => Err(e),
        }
    }

    /// Whether `a` goes before `b` in the catalog, given how `b`'s version
    /// compares with `a`'s when both parse (`b_vs_a`).
    pub fn sorts_before(a: &Environment, b: &Environment, b_vs_a: Option<std::cmp::Ordering>) -> (r: bool)
        ensures
            r == goes_before(*a, *b, b_vs_a),
    {
        let same = match (&a.original_name, &b.original_name, &a.version, &b.version) {
            (Some(ka), Some(kb), Some(_), Some(_)) => str_eq(ka.as_str(), kb.as_str()),
            _ => false,
        };
        if same {
            if let Some(o) = b_vs_a {
                return match o {
                    std::cmp::Ordering::Less => true,
                    _ => false,
                };
            }
        }
        lex_less(a.name.as_str(), b.name.as_str())
    }

    /// Whether `a` goes before `b`: instances of one template by version,
    /// newest first, when both versions parse; otherwise by name.
    fn env_before(a: &Environment, b: &Environment) -> (r: bool)
        ensures
            r == precedes(*a, *b),
            r ==> !precedes(*b, *a),
    {
        let mut b_vs_a: Option<std::cmp::Ordering> = None;
        if let (Some(va), Some(vb)) = (&a.version, &b.version) {
            if let (Some(pa), Some(pb)) = (parse_version(va.as_str()), parse_version(vb.as_str())) {
                if same_template_exec(a, b) {
                    b_vs_a = Some(compare_versions(&pb, &pa));
                }
            }
        }
        proof {
            crate::text::lemma_lex_order(a.name@, b.name@, a.name@);
        }
        Self::sorts_before(a, b, b_vs_a)
    }

    /// Order the catalog: instances of one template newest version first,
    /// everything else by name; a stable insertion sort that keeps every
    /// environment.
    pub fn sort_environments(environments: &mut Vec<Environment>)
        ensures
            final(environments)@.to_multiset() == old(environments)@.to_multiset(),
            catalog_ordered(final(environments)@),
    {
        broadcast use vstd::seq_lib::group_to_multiset_ensures;
        let n = environments.len();
        if n == 0 {
            return;
        }
        let mut i: usize = 1;
        while i < n
            invariant
                n == environments@.len(),
                1 <= i <= n,
                environments@.to_multiset() == old(environments)@.to_multiset(),
                catalog_ordered(environments@.subrange(0, i as int)),
            decreases n - i,
        {
            let ghost s0 = environments@;
            let x = environments.remove(i);
            proof {
                vstd::seq_lib::to_multiset_remove(s0, i as int);
            }
            let ghost s1 = environments@;
            proof {
                assert(s1 =~= s0.remove(i as int));
                assert forall|k: int| 0 <= k < i - 1 implies !precedes((#[trigger] s1[k + 1]), s1[k]) by {
                    assert(s1[k] == s0.subrange(0, i as int)[k]);
                    assert(s1[k + 1] == s0.subrange(0, i as int)[k + 1]);
                }
            }
            let mut p: usize = i;
            let mut moving = true;
            while p > 0 && moving
                invariant
                    p <= i,
                    i < n,
                    environments@ == s1,
                    s1 == s0.remove(i as int),
                    s0.len() == n,
                    s1.len() == n - 1,
                    s0[i as int] == x,
                    forall|k: int| 0 <= k < i - 1 ==> !precedes((#[trigger] s1[k + 1]), s1[k]),
                    forall|q: int| p <= q < i ==> !precedes(#[trigger] s1[q], x),
                    !moving ==> p > 0 && !precedes(x, s1[p - 1]),
                decreases p + if moving { 1int } else { 0int },
            {
                let before = Self::env_before(&x, &environments[p - 1]);
                if before {
                    p = p - 1;
                } else {
                    moving = false;
                }
            }
            environments.insert(p, x);
            proof {
                let s2 = environments@;
                vstd::seq_lib::to_multiset_insert(s1, p as int, x);
                assert(s0.contains(x));
                vstd::seq_lib::to_multiset_contains(s0, x);
                assert(s0.to_multiset().remove(x).insert(x) =~= s0.to_multiset());
                let t = s2.subrange(0, i + 1);
                assert(s2 == s1.insert(p as int, x));
                assert forall|k: int| 0 <= k < t.len() - 1 implies !precedes(#[trigger] t[k + 1], t[k]) by {
                    if k + 1 < p {
                        assert(t[k] == s1[k] && t[k + 1] == s1[k + 1]);
                    } else if k + 1 == p {
                        assert(t[k] == s1[k] && t[k + 1] == x);
                        assert(!moving);
                    } else if k == p {
                        assert(t[k] == x && t[k + 1] == s1[k]);
                    } else {
                        assert(t[k] == s1[k - 1] && t[k + 1] == s1[k]);
                        let j = k - 1;
                        assert(!precedes(s1[j + 1], s1[j]));
                    }
                }
            }
            i = i + 1;
        }
        assert(environments@.subrange(0, n as int) =~= environments@);
    }
}

} // verus!
