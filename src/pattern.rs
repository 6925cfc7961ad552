//! Pattern environments: one template, one instance per directory entry
//! whose name the template's regular expression matches.
use vstd::prelude::*;
use crate::environment::{
    fill_list_opt, fill_map_opt, list_view, pairs_opt_view, props_opt_view, text_view,
    Environment, Pattern,
};
use crate::text::fill_first;
use crate::vars::pairs_view;

verus! {

#[verifier::external_type_specification]
#[verifier::external_body]
pub struct ExRegex(regex::Regex);

/// Whether `pattern` is a regular expression the regex crate accepts.
pub uninterp spec fn regex_compiles(pattern: Seq<char>) -> bool;

/// The match of `pattern` in `text` as the regex crate finds it, as its
/// groups in order; none when there is no match.
pub uninterp spec fn captures_of(pattern: Seq<char>, text: Seq<char>) -> Option<Seq<Option<Seq<char>>>>;

/// A compiled regular expression and the text it was compiled from.
struct CompiledRegex {
    re: regex::Regex,
    source: String,
}

/// Relies on `regex::Regex::new`: it accepts or rejects a pattern on the
/// pattern alone.
#[verifier::external_body]
fn compile_regex(pattern: &str) -> (r: Option<CompiledRegex>)
    ensures
        r is Some == regex_compiles(pattern@),
        r matches Some(c) ==> c.source@ == pattern@,
{
    regex::Regex::new(pattern).ok().map(|re| CompiledRegex { re, source: pattern.to_string() })
}

/// `part` occurs in `text`.
pub open spec fn occurs_in(part: Seq<char>, text: Seq<char>) -> bool {
    exists|i: int| 0 <= i <= text.len() - part.len() && #[trigger] text.subrange(i, i + part.len()) == part
}

/// Match groups as character sequences.
pub open spec fn groups_view(g: Seq<Option<String>>) -> Seq<Option<Seq<char>>> {
    g.map_values(|o: Option<String>| text_view(o))
}

/// Relies on `regex::Regex::captures`: the leftmost-first match in `text`,
/// as its groups in order (group 0 being the whole match, which is always
/// there), each the part of `text` it matched, or none when it took no part.
#[verifier::external_body]
fn capture_groups(re: &CompiledRegex, text: &str) -> (r: Option<Vec<Option<String>>>)
    ensures
        match r {
            Some(g) => captures_of(re.source@, text@) == Some(groups_view(g@)),
            None => captures_of(re.source@, text@) is None,
        },
        r matches Some(g) ==> g@.len() >= 1 && g@[0] is Some && forall|j: int|
            0 <= j < g@.len() && #[trigger] g@[j] is Some ==> occurs_in(g@[j]->0@, text@),
{
    re.re.captures(text).map(|c| c.iter().map(|m| m.map(|m| m.as_str().to_string())).collect())
}

/// The matches of `pattern` in the entries that it matches, in order.
pub open spec fn matched(pattern: Seq<char>, entries: Seq<Seq<char>>) -> Seq<Seq<Option<Seq<char>>>>
    decreases entries.len(),
{
    if entries.len() == 0 {
        Seq::empty()
    } else {
        let m = matched(pattern, entries.drop_last());
        match captures_of(pattern, entries.last()) {
            Some(g) => m.push(g),
            None => m,
        }
    }
}

/// `s` with its first remaining `{}` filled by each of `vals` in turn.
pub open spec fn fill_all(s: Seq<char>, vals: Seq<Seq<char>>) -> Seq<char>
    decreases vals.len(),
{
    if vals.len() == 0 {
        s
    } else {
        fill_first(fill_all(s, vals.drop_last()), vals.last())
    }
}

/// An optional text filled with `vals`.
pub open spec fn fill_text_all(o: Option<Seq<char>>, vals: Seq<Seq<char>>) -> Option<Seq<char>> {
    match o {
        Some(s) => Some(fill_all(s, vals)),
        None => None,
    }
}

/// An optional variable map with each value filled with `vals`.
pub open spec fn fill_pairs_all(o: Option<Seq<(Seq<char>, Seq<char>)>>, vals: Seq<Seq<char>>) -> Option<
    Seq<(Seq<char>, Seq<char>)>,
> {
    match o {
        Some(m) => Some(m.map_values(|p: (Seq<char>, Seq<char>)| (p.0, fill_all(p.1, vals)))),
        None => None,
    }
}

/// An optional list with each entry filled with `vals`.
pub open spec fn fill_list_all(o: Option<Seq<Seq<char>>>, vals: Seq<Seq<char>>) -> Option<Seq<Seq<char>>> {
    match o {
        Some(l) => Some(l.map_values(|s: Seq<char>| fill_all(s, vals))),
        None => None,
    }
}

/// The groups after group 0 that took part in a match, in order.
pub open spec fn captured_values(groups: Seq<Option<Seq<char>>>) -> Seq<Seq<char>>
    decreases groups.len(),
{
    if groups.len() <= 1 {
        Seq::empty()
    } else {
        let rest = captured_values(groups.drop_last());
        match groups.last() {
            Some(g) => rest.push(g),
            None => rest,
        }
    }
}

/// `r` is `t` with its placeholders filled with `vals`: name, display, go,
/// script, variable values and path entries; everything else as in `t`.
pub open spec fn filled_from(t: Environment, vals: Seq<Seq<char>>, r: Environment) -> bool {
    &&& r.name@ == fill_all(t.name@, vals)
    &&& text_view(r.global.display) == fill_text_all(text_view(t.global.display), vals)
    &&& text_view(r.global.go) == fill_text_all(text_view(t.global.go), vals)
    &&& text_view(r.global.script) == fill_text_all(text_view(t.global.script), vals)
    &&& pairs_opt_view(r.global.set) == fill_pairs_all(pairs_opt_view(t.global.set), vals)
    &&& pairs_opt_view(r.global.append) == fill_pairs_all(pairs_opt_view(t.global.append), vals)
    &&& pairs_opt_view(r.global.prepend) == fill_pairs_all(pairs_opt_view(t.global.prepend), vals)
    &&& list_view(r.global.path) == fill_list_all(list_view(t.global.path), vals)
    &&& list_view(r.global.reuse) == list_view(t.global.reuse)
    &&& text_view(r.context) == text_view(t.context)
    &&& props_opt_view(r.for_cmd) == props_opt_view(t.for_cmd)
    &&& props_opt_view(r.for_powershell) == props_opt_view(t.for_powershell)
}

/// `r` is the instance of the template `t` for the match `groups`: filled
/// with the groups after group 0 that took part, its version the text of
/// group 1, its original name the template's name, and no pattern.
pub open spec fn instance_of(t: Environment, groups: Seq<Option<Seq<char>>>, r: Environment) -> bool {
    &&& filled_from(t, captured_values(groups), r)
    &&& text_view(r.version) == (if groups.len() > 1 { groups[1] } else { None })
    &&& text_view(r.original_name) == Some(t.name@)
    &&& r.pattern is None
}

/// `r` holds, in order, one instance of the template `t` for each entry
/// of `entries` that its regular expression matches, filled from that match;
/// nothing when `t` has no pattern or the expression does not compile.
pub open spec fn expansion_of(t: Environment, entries: Seq<Seq<char>>, r: Seq<Environment>) -> bool {
    match t.pattern {
        Some(p) => if regex_compiles(p.regex@) {
            let ms = matched(p.regex@, entries);
            &&& r.len() == ms.len()
            &&& forall|k: int| 0 <= k < r.len() ==> instance_of(t, ms[k], #[trigger] r[k])
        } else {
            r.len() == 0
        },
        None => r.len() == 0,
    }
}

impl Environment {
    /// A copy of this environment.
    pub fn copy(&self) -> (r: Environment)
        ensures
            filled_from(*self, Seq::empty(), r),
            text_view(r.version) == text_view(self.version),
            text_view(r.original_name) == text_view(self.original_name),
            r.pattern is None <==> self.pattern is None,
            self.wf() ==> r.wf(),
    {
        let r = Environment {
            name: self.name.clone(),
            context: match &self.context {
                Some(c) => Some(c.clone()),
                None => None,
            },
            pattern: match &self.pattern {
                Some(p) => Some(Pattern { path: p.path.clone(), regex: p.regex.clone() }),
                None => None,
            },
            global: self.global.copy(),
            for_cmd: match &self.for_cmd {
                Some(p) => Some(p.copy()),
                None => None,
            },
            for_powershell: match &self.for_powershell {
                Some(p) => Some(p.copy()),
                None => None,
            },
            version: match &self.version {
                Some(v) => Some(v.clone()),
                None => None,
            },
            original_name: match &self.original_name {
                Some(v) => Some(v.clone()),
                None => None,
            },
        };
        proof {
            let e = Seq::<Seq<char>>::empty();
            assert(fill_all(self.name@, e) == self.name@);
            if let Some(m) = pairs_opt_view(self.global.set) {
                assert(m.map_values(|p: (Seq<char>, Seq<char>)| (p.0, fill_all(p.1, e))) =~= m);
            }
            if let Some(m) = pairs_opt_view(self.global.append) {
                assert(m.map_values(|p: (Seq<char>, Seq<char>)| (p.0, fill_all(p.1, e))) =~= m);
            }
            if let Some(m) = pairs_opt_view(self.global.prepend) {
                assert(m.map_values(|p: (Seq<char>, Seq<char>)| (p.0, fill_all(p.1, e))) =~= m);
            }
            if let Some(l) = list_view(self.global.path) {
                assert(l.map_values(|s: Seq<char>| fill_all(s, e)) =~= l);
            }
        }
        r
    }

    /// The instances of this template for the entries of its directory,
    /// `entries`: one for each entry whose name the template's regular
    /// expression matches, in the order of `entries`. None when there is no
    /// pattern or the expression does not compile.
    pub fn create_pattern_envs(&self, entries: &Vec<String>) -> (r: Vec<Environment>)
        ensures
            expansion_of(*self, entries@.map_values(|s: String| s@), r@),
            forall|k: int| 0 <= k < r@.len() ==> (#[trigger] r@[k]).pattern is None,
            self.wf() ==> forall|k: int| 0 <= k < r@.len() ==> (#[trigger] r@[k]).wf(),
    {
        let mut out: Vec<Environment> = Vec::new();
        let pattern = match &self.pattern {
            Some(p) => p,
            None => return out,
        };
        let re = match compile_regex(pattern.regex.as_str()) {
            Some(re) => re,
            None => return out,
        };
        let ghost ev = entries@.map_values(|s: String| s@);
        let ghost pat = pattern.regex@;
        let mut i: usize = 0;
        while i < entries.len()
            invariant
                ev == entries@.map_values(|s: String| s@),
                self.pattern matches Some(p) && p.regex@ == pat,
                re.source@ == pat,
                i <= entries@.len(),
                out@.len() == matched(pat, ev.subrange(0, i as int)).len(),
                forall|k: int| 0 <= k < out@.len() ==> instance_of(*self, matched(pat, ev.subrange(0, i as int))[k], #[trigger] out@[k]),
                forall|k: int| 0 <= k < out@.len() ==> (#[trigger] out@[k]).pattern is None,
                self.wf() ==> forall|k: int| 0 <= k < out@.len() ==> (#[trigger] out@[k]).wf(),
            decreases entries@.len() - i,
        {
            let ghost m0 = matched(pat, ev.subrange(0, i as int));
            assert(ev.subrange(0, i + 1).drop_last() =~= ev.subrange(0, i as int));
            assert(ev.subrange(0, i + 1).last() == entries@[i as int]@);
            if let Some(groups) = capture_groups(&re, entries[i].as_str()) {
                let e = self.instantiate(&groups);
                let ghost before = out@;
                out.push(e);
                proof {
                    let m1 = matched(pat, ev.subrange(0, i + 1));
                    assert(m1 == m0.push(groups_view(groups@)));
                    assert forall|k: int| 0 <= k < out@.len() implies instance_of(*self, m1[k], #[trigger] out@[k]) by {
                        if k < before.len() {
                            assert(out@[k] == before[k]);
                        }
                    }
                }
            }
            i = i + 1;
        }
        assert(ev.subrange(0, i as int) =~= ev);
        out
    }

    /// The instance of this template for a match whose groups are `groups`:
    /// each group after group 0 that took part fills the next `{}`.
    pub fn instantiate(&self, groups: &Vec<Option<String>>) -> (r: Environment)
        ensures
            instance_of(*self, groups_view(groups@), r),
            self.wf() ==> r.wf(),
    {
        let mut e = self.copy();
        if groups.len() == 0 {
            e.version = None;
            e.original_name = Some(self.name.clone());
            e.pattern = None;
            return e;
        }
        let ghost gv = groups_view(groups@);
        let mut j: usize = 1;
        assert(captured_values(gv.subrange(0, 1)) == Seq::<Seq<char>>::empty());
        while j < groups.len()
            invariant
                1 <= j <= groups@.len(),
                gv == groups_view(groups@),
                filled_from(*self, captured_values(gv.subrange(0, j as int)), e),
                self.wf() ==> e.wf(),
            decreases groups@.len() - j,
        {
            let ghost vals = captured_values(gv.subrange(0, j as int));
            let ghost e0 = e;
            assert(gv.subrange(0, j + 1).drop_last() =~= gv.subrange(0, j as int));
            assert(gv.subrange(0, j + 1).last() == text_view(groups@[j as int]));
            if let Some(g) = &groups[j] {
                e.replace_placeholders(g.as_str());
                proof {
                    let v2 = vals.push(g@);
                    assert(captured_values(gv.subrange(0, j + 1)) == v2);
                    assert(v2.drop_last() =~= vals);
                    lemma_fill_step_pairs(e0.global.set, e.global.set, self.global.set, vals, g@);
                    lemma_fill_step_pairs(e0.global.append, e.global.append, self.global.append, vals, g@);
                    lemma_fill_step_pairs(e0.global.prepend, e.global.prepend, self.global.prepend, vals, g@);
                    lemma_fill_step_list(e0.global.path, e.global.path, self.global.path, vals, g@);
                }
            } else {
                assert(captured_values(gv.subrange(0, j + 1)) == vals);
            }
            j = j + 1;
        }
        assert(gv.subrange(0, j as int) =~= gv);
        e.version = if groups.len() > 1 {
            match &groups[1] {
                Some(v) => Some(v.clone()),
                None => None,
            }
        } else {
            None
        };
        e.original_name = Some(self.name.clone());
        e.pattern = None;
        e
    }
}

proof fn lemma_fill_step_pairs(
    before: Option<Vec<(String, String)>>,
    after: Option<Vec<(String, String)>>,
    template: Option<Vec<(String, String)>>,
    vals: Seq<Seq<char>>,
    g: Seq<char>,
)
    requires
        pairs_opt_view(before) == fill_pairs_all(pairs_opt_view(template), vals),
        fill_map_opt(before, after, g),
    ensures
        pairs_opt_view(after) == fill_pairs_all(pairs_opt_view(template), vals.push(g)),
{
    assert(vals.push(g).drop_last() =~= vals);
    if let Some(t) = template {
        let tv = pairs_view(t@);
        assert(pairs_view(after->0@) =~= tv.map_values(
            |p: (Seq<char>, Seq<char>)| (p.0, fill_all(p.1, vals.push(g))),
        ));
    }
}

proof fn lemma_fill_step_list(
    before: Option<Vec<String>>,
    after: Option<Vec<String>>,
    template: Option<Vec<String>>,
    vals: Seq<Seq<char>>,
    g: Seq<char>,
)
    requires
        list_view(before) == fill_list_all(list_view(template), vals),
        fill_list_opt(before, after, g),
    ensures
        list_view(after) == fill_list_all(list_view(template), vals.push(g)),
{
    assert(vals.push(g).drop_last() =~= vals);
    if let Some(t) = template {
        let tv = t@.map_values(|s: String| s@);
        let bv = before->0@.map_values(|s: String| s@);
        let av = after->0@.map_values(|s: String| s@);
        assert(bv == tv.map_values(|s: Seq<char>| fill_all(s, vals)));
        assert(av == before->0@.map_values(|s: String| fill_first(s@, g)));
        assert forall|i: int| 0 <= i < av.len() implies av[i] == fill_all(tv[i], vals.push(g)) by {
            assert(av[i] == fill_first(before->0@[i]@, g));
            assert(bv[i] == before->0@[i]@);
        }
        assert(av =~= tv.map_values(|s: Seq<char>| fill_all(s, vals.push(g))));
    }
}

} // verus!
