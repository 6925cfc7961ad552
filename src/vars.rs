//! Variable maps and the pieces of their dependency order: names sorted
//! lexicographically, the references of each value, and a depth-first walk
//! that emits every variable after the variables it references.
use vstd::prelude::*;
use vstd::set_lib::*;
use crate::text::{lemma_lex_order, lex_less, lex_lt, references, references_in, str_eq};

verus! {

/// A variable map as name/value pairs.
pub open spec fn pairs_view(v: Seq<(String, String)>) -> Seq<(Seq<char>, Seq<char>)> {
    v.map_values(|p: (String, String)| (p.0@, p.1@))
}

/// No name occurs twice.
pub open spec fn keys_unique(m: Seq<(Seq<char>, Seq<char>)>) -> bool {
    forall|i: int, j: int| 0 <= i < m.len() && 0 <= j < m.len() && i != j ==> m[i].0 != m[j].0
}

/// The value of entry `a` references the name of entry `b`.
pub open spec fn depends(m: Seq<(Seq<char>, Seq<char>)>, a: int, b: int) -> bool {
    0 <= a < m.len() && 0 <= b < m.len() && references(m[a].1).contains(m[b].0)
}

/// `p` is a walk along references: each entry references the next.
pub open spec fn is_path(m: Seq<(Seq<char>, Seq<char>)>, p: Seq<usize>) -> bool {
    &&& p.len() > 0
    &&& forall|t: int| 0 <= t < p.len() ==> #[trigger] p[t] < m.len()
    &&& forall|t: int| 0 <= t < p.len() - 1 ==> depends(m, #[trigger] p[t] as int, p[t + 1] as int)
}

/// Entry `b` reaches entry `a` along references.
pub open spec fn reaches(m: Seq<(Seq<char>, Seq<char>)>, b: int, a: int) -> bool {
    exists|p: Seq<usize>| is_path(m, p) && p[0] == b && p.last() == a
}

/// No value references the name of another entry.
pub open spec fn no_cross_references(m: Seq<(Seq<char>, Seq<char>)>) -> bool {
    forall|a: int, b: int| a != b ==> !depends(m, a, b)
}

/// `r` holds the entries of `m`, each exactly once.
pub open spec fn is_reordering(m: Seq<(Seq<char>, Seq<char>)>, r: Seq<(Seq<char>, Seq<char>)>) -> bool {
    &&& r.len() == m.len()
    &&& forall|i: int| 0 <= i < m.len() ==> r.contains(#[trigger] m[i])
    &&& forall|k: int| 0 <= k < r.len() ==> m.contains(#[trigger] r[k])
}

/// Every entry of `r` comes after the entries it references, except where
/// the referenced entry reaches it back (a cycle).
pub open spec fn dependency_ordered(m: Seq<(Seq<char>, Seq<char>)>, r: Seq<(Seq<char>, Seq<char>)>) -> bool {
    forall|k: int, j: int|
        0 <= k < r.len() && 0 <= j < m.len() && #[trigger] references(r[k].1).contains(#[trigger] m[j].0)
            ==> (exists|k2: int| 0 <= k2 < k && r[k2].0 == m[j].0) || (exists|i: int|
            0 <= i < m.len() && m[i] == r[k] && reaches(m, j, i))
}

/// The names of `r` strictly increase.
pub open spec fn names_increasing(r: Seq<(Seq<char>, Seq<char>)>) -> bool {
    forall|k1: int, k2: int| 0 <= k1 < k2 < r.len() ==> lex_lt(r[k1].0, r[k2].0)
}

/// A sequence of distinct indices below `n` has at most `n` entries, and
/// exactly `n` when it holds all of them.
pub proof fn lemma_distinct_indices(s: Seq<usize>, n: nat)
    requires
        s.no_duplicates(),
        forall|t: int| 0 <= t < s.len() ==> s[t] < n,
    ensures
        s.len() <= n,
        n <= usize::MAX + 1 && (forall|x: usize| x < n ==> s.contains(x)) ==> s.len() == n,
{
    let si = s.map_values(|x: usize| x as int);

    assert forall|i: int, j: int| 0 <= i < si.len() && 0 <= j < si.len() && i != j implies si[i]
        != si[j] by {
        assert(s[i] != s[j]);
    }
    si.unique_seq_to_set();
    lemma_int_range(0, n as int);
    assert forall|x: int| si.to_set().contains(x) implies set_int_range(0, n as int).contains(x) by {
        let t = choose|t: int| 0 <= t < si.len() && si[t] == x;
        assert(s[t] < n);
    }
    lemma_len_subset(si.to_set(), set_int_range(0, n as int));
    if n <= usize::MAX + 1 && forall|x: usize| x < n ==> s.contains(x) {
        assert forall|x: int| set_int_range(0, n as int).contains(x) implies si.to_set().contains(
            x,
        ) by {
            assert(s.contains(x as usize));
            let t = choose|t: int| 0 <= t < s.len() && s[t] == x as usize;
            assert(si[t] == x);
        }
        lemma_len_subset(set_int_range(0, n as int), si.to_set());
    }
}

/// The indices of `env_map` ordered by name.
pub(crate) fn sorted_key_order(env_map: &Vec<(String, String)>) -> (order: Vec<usize>)
    requires
        keys_unique(pairs_view(env_map@)),
    ensures
        order@.len() == env_map@.len(),
        order@.no_duplicates(),
        forall|t: int| 0 <= t < order@.len() ==> #[trigger] order@[t] < env_map@.len(),
        forall|x: usize| x < env_map@.len() ==> order@.contains(x),
        forall|t1: int, t2: int|
            0 <= t1 < t2 < order@.len() ==> lex_lt(
                env_map@[order@[t1] as int].0@,
                env_map@[order@[t2] as int].0@,
            ),
{
    let ghost m = pairs_view(env_map@);
    let n = env_map.len();
    let mut order: Vec<usize> = Vec::new();
    let mut i: usize = 0;
    while i < n
        invariant
            n == env_map@.len(),
            m == pairs_view(env_map@),
            keys_unique(m),
            i <= n,
            order@.len() == i,
            order@.no_duplicates(),
            forall|t: int| 0 <= t < order@.len() ==> #[trigger] order@[t] < i,
            forall|x: usize| x < i ==> order@.contains(x),
            forall|t1: int, t2: int|
                0 <= t1 < t2 < order@.len() ==> lex_lt(
                    env_map@[order@[t1] as int].0@,
                    env_map@[order@[t2] as int].0@,
                ),
        decreases n - i,
    {
        let mut p: usize = 0;
        while p < order.len() && lex_less(env_map[order[p]].0.as_str(), env_map[i].0.as_str())
            invariant
                n == env_map@.len(),
                i < n,
                p <= order@.len(),
                forall|t: int| 0 <= t < order@.len() ==> #[trigger] order@[t] < i,
                forall|t: int|
                    0 <= t < p ==> lex_lt(env_map@[order@[t] as int].0@, env_map@[i as int].0@),
            decreases order@.len() - p,
        {
            p = p + 1;
        }
        proof {
            if p < order@.len() {
                let kp = env_map@[order@[p as int] as int].0@;
                let ki = env_map@[i as int].0@;
                assert(m[order@[p as int] as int].0 != m[i as int].0);
                lemma_lex_order(kp, ki, ki);
                assert(lex_lt(ki, kp));
                assert forall|t: int| p <= t < order@.len() implies lex_lt(
                    ki,
                    env_map@[order@[t] as int].0@,
                ) by {
                    if t > p {
                        lemma_lex_order(ki, kp, env_map@[order@[t] as int].0@);
                    }
                }
            }
        }
        let ghost old_order = order@;
        order.insert(p, i);
        proof {
            assert forall|x: usize| x < i + 1 implies order@.contains(x) by {
                if x < i {
                    assert(old_order.contains(x));
                    let t = choose|t: int| 0 <= t < old_order.len() && old_order[t] == x;
                    if t < p {
                        assert(order@[t] == x);
                    } else {
                        assert(order@[t + 1] == x);
                    }
                } else {
                    assert(order@[p as int] == x);
                }
            }
            assert forall|t1: int, t2: int| 0 <= t1 < t2 < order@.len() implies lex_lt(
                env_map@[order@[t1] as int].0@,
                env_map@[order@[t2] as int].0@,
            ) by {
                if t2 < p {
                } else if t2 == p {
                } else if t1 < p {
                    assert(order@[t2] == old_order[t2 - 1]);
                    if t1 < p && p < old_order.len() {
                        lemma_lex_order(
                            env_map@[order@[t1] as int].0@,
                            env_map@[i as int].0@,
                            env_map@[order@[t2] as int].0@,
                        );
                    }
                } else if t1 == p {
                    assert(order@[t2] == old_order[t2 - 1]);
                } else {
                    assert(order@[t2] == old_order[t2 - 1]);
                    assert(order@[t1] == old_order[t1 - 1]);
                }
            }
        }
        i = i + 1;
    }
    order
}

/// The state of the depth-first walk: `visited` marks exactly the entries
/// emitted (`out`) or in progress (`stack`, a walk along references), and
/// each emitted entry follows what it references unless that reaches it back.
pub open spec fn walk_state(
    m: Seq<(Seq<char>, Seq<char>)>,
    visited: Seq<bool>,
    out: Seq<usize>,
    stack: Seq<usize>,
) -> bool {
    &&& visited.len() == m.len()
    &&& forall|x: usize|
        x < m.len() ==> (#[trigger] visited[x as int] <==> (out.contains(x) || stack.contains(x)))
    &&& out.no_duplicates()
    &&& stack.no_duplicates()
    &&& forall|t: int| 0 <= t < out.len() ==> #[trigger] out[t] < m.len()
    &&& forall|t: int| 0 <= t < stack.len() ==> #[trigger] stack[t] < m.len()
    &&& forall|x: usize| out.contains(x) ==> !stack.contains(x)
    &&& stack.len() == 0 || is_path(m, stack)
    &&& emitted_in_order(m, out)
}

/// Each emitted entry follows the entries it references, unless the
/// referenced entry reaches it back.
pub open spec fn emitted_in_order(m: Seq<(Seq<char>, Seq<char>)>, out: Seq<usize>) -> bool {
    forall|k: int, b: usize|
        0 <= k < out.len() && #[trigger] depends(m, #[trigger] out[k] as int, b as int)
            ==> out.subrange(0, k).contains(b) || reaches(m, b as int, out[k] as int)
}

/// Visit entry `a`: first the entries it references that are not yet
/// visited, then `a` itself.
pub(crate) fn visit(
    env_map: &Vec<(String, String)>,
    deps: &Vec<Vec<usize>>,
    a: usize,
    visited: &mut Vec<bool>,
    out: &mut Vec<usize>,
    in_progress: Ghost<Seq<usize>>,
    ord: Ghost<Seq<usize>>,
)
    requires
        deps_exact(pairs_view(env_map@), deps@),
        forall|x: int| 0 <= x < env_map@.len() ==> (#[trigger] deps@[x])@ == dep_list(pairs_view(env_map@), ord@, x),
        a < env_map@.len(),
        walk_state(pairs_view(env_map@), old(visited)@, old(out)@, in_progress@),
        !old(visited)@[a as int],
        in_progress@.len() == 0 || depends(pairs_view(env_map@), in_progress@.last() as int, a as int),
    ensures
        walk_state(pairs_view(env_map@), final(visited)@, final(out)@, in_progress@),
        final(visited)@[a as int],
        old(out)@.len() <= final(out)@.len(),
        final(out)@.subrange(0, old(out)@.len() as int) == old(out)@,
        forall|x: int| 0 <= x < old(visited)@.len() && #[trigger] old(visited)@[x] ==> final(visited)@[x],
        no_cross_references(pairs_view(env_map@)) ==> final(out)@ == old(out)@.push(a),
        (final(visited)@, final(out)@) == walk(
            pairs_view(env_map@),
            ord@,
            a,
            old(visited)@,
            old(out)@,
            (env_map@.len() - in_progress@.len()) as nat,
        ),
    decreases env_map@.len() - in_progress@.len(),
{
    let ghost stack = in_progress@;
    let ghost m = pairs_view(env_map@);
    let ghost n = env_map@.len();
    let ghost out0 = out@;
    let ghost visited0 = visited@;
    let ghost stack2 = stack.push(a);
    proof {
        lemma_walk_room(m, visited@, out@, stack, a);
    }
    visited.set(a, true);
    proof {
        assert(stack2[stack.len() as int] == a);
        assert forall|x: usize| #[trigger] stack2.contains(x) <==> (stack.contains(x) || x == a) by {
            if stack.contains(x) {
                let w = choose|w: int| 0 <= w < stack.len() && stack[w] == x;
                assert(stack2[w] == x);
            }
            if stack2.contains(x) && x != a {
                let w = choose|w: int| 0 <= w < stack2.len() && stack2[w] == x;
                assert(stack[w] == x);
            }
        }
        if stack.len() > 0 {
            assert forall|t: int| 0 <= t < stack2.len() - 1 implies depends(
                m,
                #[trigger] stack2[t] as int,
                stack2[t + 1] as int,
            ) by {
                if t < stack.len() - 1 {
                    assert(stack2[t] == stack[t] && stack2[t + 1] == stack[t + 1]);
                }
            }
        }
        assert(walk_state(m, visited@, out@, stack2));
    }
    let da = &deps[a];
    let ghost f1 = (n - stack2.len()) as nat;
    let ghost v1 = visited@;
    assert(da@ == dep_list(m, ord@, a as int));
    let mut t: usize = 0;
    while t < da.len()
        invariant
            deps_exact(m, deps@),
            m == pairs_view(env_map@),
            n == env_map@.len(),
            a < n,
            da@ == deps@[a as int]@,
            t <= da@.len(),
            walk_state(m, visited@, out@, stack2),
            stack2 == stack.push(a),
            stack == in_progress@,
            stack.len() + out0.len() < n,
            visited0.len() == n,
            visited@[a as int],
            out0.len() <= out@.len(),
            out@.subrange(0, out0.len() as int) == out0,
            forall|x: int| 0 <= x < visited0.len() && #[trigger] visited0[x] ==> visited@[x],
            forall|t2: int| 0 <= t2 < t ==> visited@[#[trigger] da@[t2] as int],
            no_cross_references(m) ==> out@ == out0,
            forall|x: int| 0 <= x < n ==> (#[trigger] deps@[x])@ == dep_list(m, ord@, x),
            f1 == (n - stack2.len()) as nat,
            walk_list(m, ord@, da@, 0, v1, out0, f1) == walk_list(m, ord@, da@, t as int, visited@, out@, f1),
        decreases da@.len() - t,
    {
        let b = da[t];
        assert(deps_of_exact(m, a as int, deps@[a as int]@));
        let ghost vb = visited@;
        let ghost ob = out@;
        assert(walk_list(m, ord@, da@, t as int, vb, ob, f1) == walk_list(
            m,
            ord@,
            da@,
            t + 1,
            walk(m, ord@, b, vb, ob, f1).0,
            walk(m, ord@, b, vb, ob, f1).1,
            f1,
        ));
        if !visited[b] {
            proof {
                lemma_walk_room(m, visited@, out@, stack2, b);
            }
            let ghost out1 = out@;
            let ghost visited1 = visited@;
            assert(visited1.len() == visited0.len());
            visit(env_map, deps, b, visited, out, Ghost(stack2), ord);
            proof {
                assert(out@.subrange(0, out0.len() as int) =~= out@.subrange(0, out1.len() as int).subrange(0, out0.len() as int));
                assert forall|x: int| 0 <= x < visited0.len() && #[trigger] visited0[x] implies visited@[x] by {
                    assert(visited1[x]);
                }
                assert forall|t2: int| 0 <= t2 < t + 1 implies visited@[#[trigger] da@[t2] as int] by {
                    if t2 < t {
                        assert(visited1[da@[t2] as int]);
                    }
                }
                if no_cross_references(m) {
                    assert(depends(m, a as int, b as int));
                }
            }
        }
        t = t + 1;
    }
    let ghost out2 = out@;
    out.push(a);
    proof {
        assert(!out2.contains(a));
        assert(out@[out2.len() as int] == a);
        assert forall|x: usize| #[trigger] out@.contains(x) <==> (out2.contains(x) || x == a) by {
            if out2.contains(x) {
                let w = choose|w: int| 0 <= w < out2.len() && out2[w] == x;
                assert(out@[w] == x);
            }
            if out@.contains(x) && x != a {
                let w = choose|w: int| 0 <= w < out@.len() && out@[w] == x;
                assert(out2[w] == x);
            }
        }
        // `a` follows what it references, or is reached back from it.
        assert forall|b: usize| #[trigger] depends(m, a as int, b as int) implies out2.contains(b) || reaches(m, b as int, a as int) by {
            assert(deps_of_exact(m, a as int, deps@[a as int]@));
            assert(da@.contains(b));
            let w = choose|w: int| 0 <= w < da@.len() && da@[w] == b;
            assert(visited@[da@[w] as int]);
            if !out2.contains(b) {
                assert(stack2.contains(b));
                let i = choose|i: int| 0 <= i < stack2.len() && stack2[i] == b;
                let p = stack2.subrange(i, stack2.len() as int);
                assert(p[0] == b);
                assert(p.last() == a);
                assert forall|u: int| 0 <= u < p.len() - 1 implies depends(m, #[trigger] p[u] as int, p[u + 1] as int) by {
                    assert(p[u] == stack2[i + u]);
                    assert(p[u + 1] == stack2[i + u + 1]);
                }
                assert forall|u: int| 0 <= u < p.len() implies #[trigger] p[u] < m.len() by {
                    assert(p[u] == stack2[i + u]);
                }
                assert(is_path(m, p));
            }
        }
        assert forall|k: int, b: usize|
            0 <= k < out@.len() && #[trigger] depends(m, #[trigger] out@[k] as int, b as int) implies out@.subrange(0, k).contains(
                b,
            ) || reaches(m, b as int, out@[k] as int) by {
            if k < out2.len() {
                assert(out@[k] == out2[k]);
                assert(out@.subrange(0, k) =~= out2.subrange(0, k));
            } else {
                assert(out@.subrange(0, k) =~= out2);
            }
        }
        assert(out@.subrange(0, out0.len() as int) =~= out2.subrange(0, out0.len() as int));
        if stack.len() > 0 {
            assert forall|u: int| 0 <= u < stack.len() - 1 implies depends(m, #[trigger] stack[u] as int, stack[u + 1] as int) by {
                assert(stack[u] == stack2[u] && stack[u + 1] == stack2[u + 1]);
            }
            assert forall|u: int| 0 <= u < stack.len() implies #[trigger] stack[u] < m.len() by {
                assert(stack[u] == stack2[u]);
            }
        }
        assert(walk_state(m, visited@, out@, stack));
    }
}

/// While `b` is not visited, the walk has room for it.
proof fn lemma_walk_room(
    m: Seq<(Seq<char>, Seq<char>)>,
    visited: Seq<bool>,
    out: Seq<usize>,
    stack: Seq<usize>,
    b: usize,
)
    requires
        walk_state(m, visited, out, stack),
        b < m.len(),
        !visited[b as int],
    ensures
        out.len() + stack.len() < m.len(),
{
    let s = out + stack + seq![b];
    assert(!out.contains(b) && !stack.contains(b));
    assert forall|i: int| 0 <= i < s.len() implies #[trigger] s[i] < m.len() && (i < out.len() ==> out.contains(s[i])) && (out.len() <= i < out.len() + stack.len() ==> stack.contains(s[i])) && (i == s.len() - 1 ==> s[i] == b) by {
        if i < out.len() {
            assert(out[i] == s[i]);
        } else if i < out.len() + stack.len() {
            assert(s[i] == stack[i - out.len()]);
        }
    }
    assert forall|i: int, j: int| 0 <= i < s.len() && 0 <= j < s.len() && i != j implies s[i] != s[j] by {
        if out.len() <= i < out.len() + stack.len() && out.len() <= j < out.len() + stack.len() {
            assert(s[i] == stack[i - out.len()]);
            assert(s[j] == stack[j - out.len()]);
        }
    }
    lemma_distinct_indices(s, m.len());
}

/// The value that a variable map gives `k`.
pub open spec fn lookup(m: Seq<(Seq<char>, Seq<char>)>, k: Seq<char>) -> Option<Seq<char>> {
    if exists|i: int| 0 <= i < m.len() && m[i].0 == k {
        Some(m[choose|i: int| 0 <= i < m.len() && m[i].0 == k].1)
    } else {
        None
    }
}

/// In a map with unique names, the value of `k` is the one stored beside it.
pub proof fn lemma_lookup_at(m: Seq<(Seq<char>, Seq<char>)>, i: int)
    requires
        keys_unique(m),
        0 <= i < m.len(),
    ensures
        lookup(m, m[i].0) == Some(m[i].1),
{
    let k = m[i].0;
    assert(exists|j: int| 0 <= j < m.len() && m[j].0 == k);
}

/// `r` is `base` with the entries of `over` added, `over` winning on equal names.
pub open spec fn merged_into(
    base: Seq<(Seq<char>, Seq<char>)>,
    over: Seq<(Seq<char>, Seq<char>)>,
    r: Seq<(Seq<char>, Seq<char>)>,
) -> bool {
    &&& keys_unique(r)
    &&& forall|k: Seq<char>|
        #[trigger] lookup(r, k) == (match lookup(over, k) {
            Some(v) => Some(v),
            None => lookup(base, k),
        })
}

/// Insert the entries of `over` into `target`, replacing the values of names
/// already there.
pub(crate) fn merge_pairs(target: &mut Vec<(String, String)>, over: Vec<(String, String)>)
    requires
        keys_unique(pairs_view(old(target)@)),
        keys_unique(pairs_view(over@)),
    ensures
        merged_into(pairs_view(old(target)@), pairs_view(over@), pairs_view(final(target)@)),
{
    let ghost base = pairs_view(target@);
    let ghost src = pairs_view(over@);
    let mut j: usize = 0;
    while j < over.len()
        invariant
            src == pairs_view(over@),
            keys_unique(src),
            j <= over@.len(),
            keys_unique(pairs_view(target@)),
            forall|k: Seq<char>|
                #[trigger] lookup(pairs_view(target@), k) == (match lookup(src.subrange(0, j as int), k) {
                    Some(v) => Some(v),
                    None => lookup(base, k),
                }),
        decreases over@.len() - j,
    {
        let k = over[j].0.clone();
        let v = over[j].1.clone();
        let ghost t0 = pairs_view(target@);
        let mut i: usize = 0;
        let mut found = false;
        while i < target.len() && !found
            invariant
                i <= target@.len(),
                t0 == pairs_view(target@),
                forall|i2: int| 0 <= i2 < i ==> t0[i2].0 != k@,
                found ==> i < target@.len() && t0[i as int].0 == k@,
            decreases target@.len() - i + (if found { 0int } else { 1int }),
        {
            if str_eq(target[i].0.as_str(), k.as_str()) {
                found = true;
            } else {
                i = i + 1;
            }
        }
        proof {
            let s0 = src.subrange(0, j as int);
            let s1 = src.subrange(0, j + 1);
            assert(s1[j as int] == (k@, v@));
            assert(keys_unique(s1));
            lemma_lookup_at(s1, j as int);
            assert forall|k2: Seq<char>| k2 != k@ implies #[trigger] lookup(s1, k2) == lookup(s0, k2) by {
                if exists|w: int| 0 <= w < s1.len() && s1[w].0 == k2 {
                    let w = choose|w: int| 0 <= w < s1.len() && s1[w].0 == k2;
                    assert(s0[w] == s1[w]);
                    lemma_lookup_at(s1, w);
                    lemma_lookup_at(s0, w);
                }
                if exists|w: int| 0 <= w < s0.len() && s0[w].0 == k2 {
                    let w = choose|w: int| 0 <= w < s0.len() && s0[w].0 == k2;
                    assert(s0[w] == s1[w]);
                }
            }
        }
        if found {
            target.set(i, (k, v));
            proof {
                let t1 = pairs_view(target@);
                assert(t1 =~= t0.update(i as int, (k@, v@)));
                assert(keys_unique(t1));
                lemma_lookup_at(t1, i as int);
                assert forall|k2: Seq<char>| k2 != k@ implies #[trigger] lookup(t1, k2) == lookup(t0, k2) by {
                    if exists|w: int| 0 <= w < t1.len() && t1[w].0 == k2 {
                        let w = choose|w: int| 0 <= w < t1.len() && t1[w].0 == k2;
                        assert(t0[w] == t1[w]);
                        lemma_lookup_at(t1, w);
                        lemma_lookup_at(t0, w);
                    }
                    if exists|w: int| 0 <= w < t0.len() && t0[w].0 == k2 {
                        let w = choose|w: int| 0 <= w < t0.len() && t0[w].0 == k2;
                        assert(t0[w] == t1[w]);
                    }
                }
            }
        } else {
            target.push((k, v));
            proof {
                let t1 = pairs_view(target@);
                assert(t1 =~= t0.push((k@, v@)));
                assert forall|a: int, b: int| 0 <= a < t1.len() && 0 <= b < t1.len() && a != b implies t1[a].0 != t1[b].0 by {
                    if a < t0.len() && b < t0.len() {
                        assert(t1[a] == t0[a] && t1[b] == t0[b]);
                    } else if a < t0.len() {
                        assert(t1[a] == t0[a]);
                    } else if b < t0.len() {
                        assert(t1[b] == t0[b]);
                    }
                }
                lemma_lookup_at(t1, i as int);
                assert forall|k2: Seq<char>| k2 != k@ implies #[trigger] lookup(t1, k2) == lookup(t0, k2) by {
                    if exists|w: int| 0 <= w < t1.len() && t1[w].0 == k2 {
                        let w = choose|w: int| 0 <= w < t1.len() && t1[w].0 == k2;
                        assert(t0[w] == t1[w]);
                        lemma_lookup_at(t1, w);
                        lemma_lookup_at(t0, w);
                    }
                    if exists|w: int| 0 <= w < t0.len() && t0[w].0 == k2 {
                        let w = choose|w: int| 0 <= w < t0.len() && t0[w].0 == k2;
                        assert(t0[w] == t1[w]);
                    }
                }
            }
        }
        j = j + 1;
    }
    assert(src.subrange(0, j as int) =~= src);
}

/// Whether no name occurs twice in `v`.
pub(crate) fn names_unique(v: &Vec<(String, String)>) -> (r: bool)
    ensures
        r == keys_unique(pairs_view(v@)),
{
    let ghost m = pairs_view(v@);
    let n = v.len();
    let mut i: usize = 0;
    while i < n
        invariant
            n == v@.len(),
            m == pairs_view(v@),
            i <= n,
            forall|a: int, b: int| 0 <= a < i && 0 <= b < n && a != b ==> m[a].0 != m[b].0,
        decreases n - i,
    {
        let mut j: usize = 0;
        while j < n
            invariant
                n == v@.len(),
                m == pairs_view(v@),
                i < n,
                j <= n,
                forall|b: int| 0 <= b < j && b != i ==> m[i as int].0 != m[b].0,
            decreases n - j,
        {
            if j != i && str_eq(v[i].0.as_str(), v[j].0.as_str()) {
                assert(m[i as int].0 == m[j as int].0);
                return false;
            }
            j = j + 1;
        }
        i = i + 1;
    }
    true
}

/// A copy of a variable map.
pub(crate) fn copy_pairs(v: &Vec<(String, String)>) -> (r: Vec<(String, String)>)
    ensures
        r@ == v@,
{
    let mut r: Vec<(String, String)> = Vec::new();
    let mut i: usize = 0;
    while i < v.len()
        invariant
            i <= v@.len(),
            r@ == v@.subrange(0, i as int),
        decreases v@.len() - i,
    {
        r.push((v[i].0.clone(), v[i].1.clone()));
        assert(r@ =~= v@.subrange(0, i + 1));
        i = i + 1;
    }
    assert(v@.subrange(0, i as int) =~= v@);
    r
}

/// The entries that entry `a` references, among the first `q` of `ord`, in
/// the order of `ord`.
pub open spec fn dep_prefix(m: Seq<(Seq<char>, Seq<char>)>, ord: Seq<usize>, a: int, q: int) -> Seq<usize>
    decreases q,
{
    if q <= 0 || q > ord.len() {
        Seq::empty()
    } else {
        dep_prefix(m, ord, a, q - 1) + if depends(m, a, ord[q - 1] as int) {
            seq![ord[q - 1]]
        } else {
            Seq::empty()
        }
    }
}

/// The entries that entry `a` references, in the order of `ord`.
pub open spec fn dep_list(m: Seq<(Seq<char>, Seq<char>)>, ord: Seq<usize>, a: int) -> Seq<usize> {
    dep_prefix(m, ord, a, ord.len() as int)
}

/// The depth-first walk from entry `a`: unless it is visited, mark it,
/// walk the entries it references in the order of `ord`, then emit it.
pub open spec fn walk(
    m: Seq<(Seq<char>, Seq<char>)>,
    ord: Seq<usize>,
    a: usize,
    vis: Seq<bool>,
    out: Seq<usize>,
    fuel: nat,
) -> (Seq<bool>, Seq<usize>)
    decreases fuel, 0int, 0int,
{
    if fuel == 0 || a >= vis.len() || vis[a as int] {
        (vis, out)
    } else {
        let r = walk_list(m, ord, dep_list(m, ord, a as int), 0, vis.update(a as int, true), out, (fuel - 1) as nat);
        (r.0, r.1.push(a))
    }
}

/// The walk from each of `ds`, from index `k` on, in turn.
pub open spec fn walk_list(
    m: Seq<(Seq<char>, Seq<char>)>,
    ord: Seq<usize>,
    ds: Seq<usize>,
    k: int,
    vis: Seq<bool>,
    out: Seq<usize>,
    fuel: nat,
) -> (Seq<bool>, Seq<usize>)
    decreases fuel, 1int, ds.len() - k,
{
    if k < 0 || k >= ds.len() {
        (vis, out)
    } else {
        let r = walk(m, ord, ds[k], vis, out, fuel);
        walk_list(m, ord, ds, k + 1, r.0, r.1, fuel)
    }
}

/// The walk from each of the first `t` entries of `ord` in turn, starting
/// with nothing visited.
pub open spec fn walk_all(m: Seq<(Seq<char>, Seq<char>)>, ord: Seq<usize>, t: int) -> (Seq<bool>, Seq<usize>)
    decreases t,
{
    if t <= 0 || t > ord.len() {
        (Seq::new(m.len(), |i: int| false), Seq::empty())
    } else {
        let r = walk_all(m, ord, t - 1);
        walk(m, ord, ord[t - 1], r.0, r.1, m.len())
    }
}

/// `ord` lists the indices of `m` by strictly increasing name.
pub open spec fn is_name_order(m: Seq<(Seq<char>, Seq<char>)>, ord: Seq<usize>) -> bool {
    &&& ord.len() == m.len()
    &&& forall|x: usize| x < m.len() ==> ord.contains(x)
    &&& forall|t: int| 0 <= t < ord.len() ==> #[trigger] ord[t] < m.len()
    &&& forall|t1: int, t2: int| 0 <= t1 < t2 < ord.len() ==> lex_lt(m[ord[t1] as int].0, m[ord[t2] as int].0)
}

/// The entries of `m` in the order of the depth-first walk from the names
/// in the order `ord`, each emitted after the entries it references.
pub open spec fn walk_order(m: Seq<(Seq<char>, Seq<char>)>, ord: Seq<usize>) -> Seq<(Seq<char>, Seq<char>)> {
    walk_all(m, ord, ord.len() as int).1.map_values(|i: usize| m[i as int])
}


/// For each entry, the indices of the entries whose names its value references.
pub(crate) fn dependency_lists(env_map: &Vec<(String, String)>, order: &Vec<usize>) -> (deps: Vec<Vec<usize>>)
    requires
        order@.len() == env_map@.len(),
        forall|t: int| 0 <= t < order@.len() ==> #[trigger] order@[t] < env_map@.len(),
        forall|x: usize| x < env_map@.len() ==> order@.contains(x),
    ensures
        deps_exact(pairs_view(env_map@), deps@),
        forall|x: int| 0 <= x < env_map@.len() ==> (#[trigger] deps@[x])@ == dep_list(pairs_view(env_map@), order@, x),
{
    let ghost m = pairs_view(env_map@);
    let n = env_map.len();
    let mut deps: Vec<Vec<usize>> = Vec::new();
    let mut a: usize = 0;
    while a < n
        invariant
            n == env_map@.len(),
            m == pairs_view(env_map@),
            a <= n,
            order@.len() == n,
            forall|t: int| 0 <= t < order@.len() ==> #[trigger] order@[t] < n,
            forall|x: usize| x < n ==> order@.contains(x),
            deps@.len() == a,
            forall|x: int| 0 <= x < a ==> deps_of_exact(m, x, #[trigger] deps@[x]@),
            forall|x: int| 0 <= x < a ==> (#[trigger] deps@[x])@ == dep_list(m, order@, x),
        decreases n - a,
    {
        let refs = references_in(env_map[a].1.as_str());
        let ghost rv = refs@.map_values(|x: String| x@);
        assert(rv == references(m[a as int].1));
        let mut list: Vec<usize> = Vec::new();
        let mut q: usize = 0;
        while q < n
            invariant
                n == env_map@.len(),
                m == pairs_view(env_map@),
                a < n,
                q <= n,
                order@.len() == n,
                forall|t: int| 0 <= t < order@.len() ==> #[trigger] order@[t] < n,
                rv == references(m[a as int].1),
                rv == refs@.map_values(|x: String| x@),
                forall|t: int| 0 <= t < list@.len() ==> #[trigger] list@[t] < n && depends(
                    m,
                    a as int,
                    list@[t] as int,
                ),
                forall|w: int| 0 <= w < q && depends(m, a as int, #[trigger] order@[w] as int) ==> list@.contains(order@[w]),
                list@ == dep_prefix(m, order@, a as int, q as int),
            decreases n - q,
        {
            let b = order[q];
            let mut found = false;
            let mut t: usize = 0;
            while t < refs.len() && !found
                invariant
                    b < n,
                    n == env_map@.len(),
                    m == pairs_view(env_map@),
                    rv == refs@.map_values(|x: String| x@),
                    t <= refs@.len(),
                    found ==> rv.contains(m[b as int].0),
                    !found ==> forall|t2: int| 0 <= t2 < t ==> rv[t2] != m[b as int].0,
                decreases refs@.len() - t + (if found { 0int } else { 1int }),
            {
                if str_eq(refs[t].as_str(), env_map[b].0.as_str()) {
                    found = true;
                    assert(rv[t as int] == m[b as int].0);
                } else {
                    t = t + 1;
                }
            }
            assert(dep_prefix(m, order@, a as int, q + 1) == dep_prefix(m, order@, a as int, q as int) + if depends(m, a as int, b as int) {
                seq![b]
            } else {
                Seq::empty()
            });
            if found {
                let ghost old_list = list@;
                list.push(b);
                assert(depends(m, a as int, b as int));
                assert(list@ =~= dep_prefix(m, order@, a as int, q + 1));
                proof {
                    assert forall|w: int| 0 <= w < q + 1 && depends(m, a as int, #[trigger] order@[w] as int) implies list@.contains(
                        order@[w],
                    ) by {
                        if w < q {
                            assert(old_list.contains(order@[w]));
                            let v = choose|v: int| 0 <= v < old_list.len() && old_list[v] == order@[w];
                            assert(list@[v] == order@[w]);
                        } else {
                            assert(list@[old_list.len() as int] == order@[w]);
                        }
                    }
                }
            } else {
                proof {
                    assert(!depends(m, a as int, b as int)) by {
                        if rv.contains(m[b as int].0) {
                            let w = choose|w: int| 0 <= w < rv.len() && rv[w] == m[b as int].0;
                        }
                    }
                    assert(list@ =~= dep_prefix(m, order@, a as int, q + 1));
                }
            }
            q = q + 1;
        }
        proof {
            assert forall|y: usize| depends(m, a as int, y as int) implies list@.contains(y) by {
                assert(y < n);
                assert(order@.contains(y));
                let w = choose|w: int| 0 <= w < order@.len() && order@[w] == y;
            }
        }
        deps.push(list);
        proof {
            assert forall|x: int| 0 <= x < a + 1 implies deps_of_exact(m, x, #[trigger] deps@[x]@) by {
                if x == a {
                    assert(deps@[x]@ == list@);
                }
            }
            assert forall|x: int| 0 <= x < a + 1 implies (#[trigger] deps@[x])@ == dep_list(m, order@, x) by {
                if x == a {
                    assert(deps@[x]@ == list@);
                }
            }
        }
        a = a + 1;
    }
    deps
}

/// `d` lists exactly the entries that entry `x` references.
pub open spec fn deps_of_exact(m: Seq<(Seq<char>, Seq<char>)>, x: int, d: Seq<usize>) -> bool {
    &&& forall|t: int| 0 <= t < d.len() ==> #[trigger] d[t] < m.len() && depends(m, x, d[t] as int)
    &&& forall|y: usize| depends(m, x, y as int) ==> d.contains(y)
}

/// `deps` lists, for each entry, exactly the entries it references.
pub open spec fn deps_exact(m: Seq<(Seq<char>, Seq<char>)>, deps: Seq<Vec<usize>>) -> bool {
    &&& deps.len() == m.len()
    &&& forall|x: int| 0 <= x < m.len() ==> deps_of_exact(m, x, #[trigger] deps[x]@)
}

} // verus!
