//! The dependency graph between units: which units a start pulls in, and the
//! order, in waves, in which they come up.
use vstd::prelude::*;
use crate::text::{name_before, name_less, lemma_name_order, same_text};
use vstd::string::StringExecFns;
use crate::unit::{Unit, lists};

verus! {

/// `us[i]` is the unit called `n`.
pub open spec fn named(us: Seq<Unit>, i: int, n: Seq<char>) -> bool {
    0 <= i < us.len() && us[i].name@ == n
}

/// Some unit in `us` is called `n`.
pub open spec fn has_unit(us: Seq<Unit>, n: Seq<char>) -> bool {
    exists|i: int| #[trigger] named(us, i, n)
}

/// The units are in name order, so no name occurs twice.
pub open spec fn sorted_by_name(us: Seq<Unit>) -> bool {
    forall|i: int, j: int| 0 <= i < j < us.len() ==> name_before(#[trigger] us[i].name@, #[trigger] us[j].name@)
}

/// `us[i]` starts after `us[j]`: its `after` names `us[j]`, or `us[j]`'s `before` names it.
pub open spec fn follows(us: Seq<Unit>, i: int, j: int) -> bool {
    lists(us[i].after@, us[j].name@) || lists(us[j].before@, us[i].name@)
}

/// `us[i]` pulls `us[j]` in: it requires or wants it.
pub open spec fn needs(us: Seq<Unit>, i: int, j: int) -> bool {
    lists(us[i].requires@, us[j].name@) || lists(us[i].wants@, us[j].name@)
}

/// Every name that `us[i]` requires is a unit of `us`.
pub open spec fn requires_met(us: Seq<Unit>, i: int) -> bool {
    forall|p: int| 0 <= p < us[i].requires@.len() ==> has_unit(us, #[trigger] us[i].requires@[p]@)
}

/// `input[k]` is the last unit of `input` that carries its name.
pub open spec fn is_latest(input: Seq<Unit>, k: int) -> bool {
    0 <= k < input.len() && forall|k2: int| k < k2 < input.len() ==> #[trigger] input[k2].name@ != input[k].name@
}

/// `u` is the last unit of `input` that carries its name.
pub open spec fn latest_in(input: Seq<Unit>, u: Unit) -> bool {
    exists|k: int| is_latest(input, k) && input[k] == u
}

/// `us` holds, in name order, for each name in `input`, the last unit of `input` by that name.
pub open spec fn keeps_latest(input: Seq<Unit>, us: Seq<Unit>) -> bool {
    &&& sorted_by_name(us)
    &&& forall|i: int| 0 <= i < us.len() ==> latest_in(input, #[trigger] us[i])
    &&& forall|k: int| 0 <= k < input.len() ==> has_unit(us, #[trigger] input[k].name@)
}

/// Building stops at `unit` requiring `missing`: the first unit in name order with a
/// requirement that names no unit, and its first such requirement.
pub open spec fn first_missing(us: Seq<Unit>, unit: Seq<char>, missing: Seq<char>) -> bool {
    exists|i: int, p: int|
        #![trigger named(us, i, unit), us[i].requires@[p]]
        named(us, i, unit) && 0 <= p < us[i].requires@.len() && us[i].requires@[p]@ == missing
            && !has_unit(us, missing)
            && (forall|q: int| 0 <= q < p ==> has_unit(us, #[trigger] us[i].requires@[q]@))
            && (forall|i2: int| 0 <= i2 < i ==> #[trigger] requires_met(us, i2))
}

/// Every requirement of every unit names a unit.
pub open spec fn all_requires_met(us: Seq<Unit>) -> bool {
    forall|i: int| 0 <= i < us.len() ==> #[trigger] requires_met(us, i)
}

/// The order relation between the units can be ranked: each unit ranks above
/// every unit it starts after, so no circle of `after` and `before` exists.
pub open spec fn ranked(us: Seq<Unit>, rank: Seq<int>) -> bool {
    &&& rank.len() == us.len()
    &&& forall|i: int, j: int| 0 <= i < us.len() && 0 <= j < us.len() && #[trigger] follows(us, i, j) ==> rank[j] < rank[i]
}

pub open spec fn has_no_circle(us: Seq<Unit>) -> bool {
    exists|rank: Seq<int>| ranked(us, rank)
}

/// `path` holds the names of the units along the circle `c`, when there is one.
pub open spec fn names_along(us: Seq<Unit>, c: Option<Seq<usize>>, path: Seq<String>) -> bool {
    match c {
        Some(c) => path.len() == c.len() && forall|k: int| 0 <= k < c.len() ==> (#[trigger] path[k])@ == us[c[k] as int].name@,
        None => false,
    }
}

/// `path` walks the order relation backwards, each unit followed by one it
/// starts after, and ends where it began; no unit comes twice on the way.
pub open spec fn is_circle(us: Seq<Unit>, path: Seq<String>) -> bool {
    &&& path.len() >= 2
    &&& path[0]@ == path.last()@
    &&& forall|k: int| 0 <= k < path.len() - 1 ==> starts_after(us, #[trigger] path[k]@, path[k + 1]@)
    &&& forall|a: int, b: int| 0 <= a < b < path.len() - 1 ==> #[trigger] path[a]@ != #[trigger] path[b]@
}

/// The unit called `a` starts after the unit called `b`.
pub open spec fn starts_after(us: Seq<Unit>, a: Seq<char>, b: Seq<char>) -> bool {
    exists|i: int, j: int| named(us, i, a) && named(us, j, b) && #[trigger] follows(us, i, j)
}

/// `edges` lists, in increasing order, exactly the units `us[i]` starts after.
pub open spec fn edges_of(us: Seq<Unit>, i: int, edges: Seq<usize>) -> bool {
    &&& forall|a: int, b: int| 0 <= a < b < edges.len() ==> edges[a] < edges[b]
    &&& forall|a: int| 0 <= a < edges.len() ==> (#[trigger] edges[a]) < us.len()
    &&& forall|j: int| 0 <= j < us.len() ==> (follows(us, i, j) <==> edges.contains(j as usize))
}

#[derive(Debug, Clone, PartialEq, Eq)]
pub enum Trouble {
    Missing { unit: String, needs: String },
    Cycle(Vec<String>),
    Incompatible { unit: String, with: String, pulled_in_by: String },
    Unknown(String),
}

#[derive(Debug)]
pub struct Graph {
    units: Vec<Unit>,
    follows: Vec<Vec<usize>>,
}

/// Where `name` sits in `us`, or `None` if no unit carries it.
fn position_of(us: &Vec<Unit>, name: &String) -> (r: Option<usize>)
    ensures
        match r {
            Some(i) => named(us@, i as int, name@),
            None => !has_unit(us@, name@),
        },
{
    for i in 0..us.len()
        invariant
            forall|i2: int| 0 <= i2 < i ==> us@[i2].name@ != name@,
    {
        if us[i].name == *name {
            return Some(i);
        }
    }
    None
}

/// Puts `u` into the sorted `us`, unless a unit of that name is already there.
fn insert_by_name(us: &mut Vec<Unit>, u: Unit)
    requires
        sorted_by_name(old(us)@),
    ensures
        sorted_by_name(final(us)@),
        has_unit(old(us)@, u.name@) ==> final(us)@ == old(us)@,
        !has_unit(old(us)@, u.name@) ==> exists|pos: int| 0 <= pos <= old(us)@.len() && final(us)@ == old(us)@.insert(pos, u),
{
    let ghost before = us@;
    let mut pos: usize = 0;
    while pos < us.len() && name_less(us[pos].name.as_str(), u.name.as_str())
        invariant
            us@ == before,
            pos <= us@.len(),
            sorted_by_name(us@),
            forall|i: int| 0 <= i < pos ==> name_before(#[trigger] us@[i].name@, u.name@),
        decreases us@.len() - pos,
    {
        pos = pos + 1;
    }
    if pos < us.len() && us[pos].name == u.name {
        assert(named(before, pos as int, u.name@));
        return;
    }
    proof {
        assert forall|i: int| #[trigger] named(before, i, u.name@) implies false by {
            lemma_name_order(u.name@, u.name@, u.name@);
            if i > pos {
                assert(name_before(before[pos as int].name@, before[i].name@));
            }
        }
    }
    proof {
        if pos < before.len() {
            lemma_name_order(before[pos as int].name@, u.name@, u.name@);
            assert(name_before(u.name@, before[pos as int].name@));
        }
    }
    us.insert(pos, u);
    proof {
        let after = us@;
        assert forall|i: int, j: int| 0 <= i < j < after.len() implies name_before(#[trigger] after[i].name@, #[trigger] after[j].name@) by {
            if j < pos {
            } else if j == pos {
                assert(after[j] == u);
            } else if i == pos {
                assert(after[j] == before[j - 1]);
                if j > pos + 1 {
                    assert(name_before(before[pos as int].name@, before[j - 1].name@));
                    lemma_name_order(u.name@, before[pos as int].name@, before[j - 1].name@);
                }
            } else if i < pos {
                assert(after[j] == before[j - 1]);
                assert(name_before(before[i].name@, u.name@));
                if j > pos + 1 {
                    assert(name_before(before[pos as int].name@, before[j - 1].name@));
                    lemma_name_order(u.name@, before[pos as int].name@, before[j - 1].name@);
                }
                lemma_name_order(before[i].name@, u.name@, before[j - 1].name@);
            } else {
                assert(after[i] == before[i - 1]);
                assert(after[j] == before[j - 1]);
            }
        }
    }
}

proof fn lemma_insert_keeps(old: Seq<Unit>, pos: int, u: Unit)
    requires
        0 <= pos <= old.len(),
    ensures
        forall|n: Seq<char>| has_unit(old, n) ==> has_unit(old.insert(pos, u), n),
        has_unit(old.insert(pos, u), u.name@),
        forall|i: int| 0 <= i < old.len() + 1 ==> (#[trigger] old.insert(pos, u)[i] == u || exists|j: int| 0 <= j < old.len() && old[j] == old.insert(pos, u)[i]),
{
    let new = old.insert(pos, u);
    assert(named(new, pos, u.name@));
    assert forall|n: Seq<char>| has_unit(old, n) implies has_unit(new, n) by {
        let i = choose|i: int| named(old, i, n);
        if i < pos {
            assert(named(new, i, n));
        } else {
            assert(named(new, i + 1, n));
        }
    }
    assert forall|i: int| 0 <= i < old.len() + 1 implies (#[trigger] new[i] == u || exists|j: int| 0 <= j < old.len() && old[j] == new[i]) by {
        if i < pos {
            assert(old[i] == new[i]);
        } else if i > pos {
            assert(old[i - 1] == new[i]);
        }
    }
}

/// The last unit of each name in `units`, in name order.
fn by_name(units: Vec<Unit>) -> (us: Vec<Unit>)
    ensures
        keeps_latest(units@, us@),
{
    let ghost input = units@;
    let mut rest = units;
    let mut us: Vec<Unit> = Vec::new();
    while rest.len() > 0
        invariant
            rest@ == input.take(rest@.len() as int),
            rest@.len() <= input.len(),
            sorted_by_name(us@),
            forall|i: int| 0 <= i < us@.len() ==> exists|k: int| rest@.len() <= k && is_latest(input, k) && input[k] == #[trigger] us@[i],
            forall|k: int| rest@.len() <= k < input.len() ==> has_unit(us@, #[trigger] input[k].name@),
        decreases rest@.len(),
    {
        let ghost m = (rest@.len() - 1) as int;
        let ghost old_us = us@;
        let u = rest.pop().unwrap();
        assert(input.take(m) =~= rest@);
        assert(u == input[m]);
        insert_by_name(&mut us, u);
        proof {
            if has_unit(old_us, input[m].name@) {
                assert(us@ == old_us);
            } else {
                let pos = choose|pos: int| 0 <= pos <= old_us.len() && us@ == old_us.insert(pos, input[m]);
                lemma_insert_keeps(old_us, pos, input[m]);
                assert(is_latest(input, m)) by {
                    assert forall|k2: int| m < k2 < input.len() implies #[trigger] input[k2].name@ != input[m].name@ by {
                        assert(has_unit(old_us, input[k2].name@));
                    }
                }
                assert forall|i: int| 0 <= i < us@.len() implies exists|k: int| m <= k && is_latest(input, k) && input[k] == #[trigger] us@[i] by {
                    if us@[i] != input[m] {
                        let j = choose|j: int| 0 <= j < old_us.len() && old_us[j] == us@[i];
                        assert(old_us[j] == old_us[j]);
                    }
                }
            }
        }
    }
    assert forall|i: int| 0 <= i < us@.len() implies latest_in(input, #[trigger] us@[i]) by {
        let k = choose|k: int| rest@.len() <= k && is_latest(input, k) && input[k] == us@[i];
    }
    us
}

/// Whether `v` holds an entry equal to `n`.
fn listed(v: &Vec<String>, n: &String) -> (r: bool)
    ensures
        r == lists(v@, n@),
{
    listed_in(v.as_slice(), n)
}

/// Whether `v` holds an entry equal to `n`.
fn listed_in(v: &[String], n: &String) -> (r: bool)
    ensures
        r == lists(v@, n@),
{
    for k in 0..v.len()
        invariant
            forall|k2: int| 0 <= k2 < k ==> v@[k2]@ != n@,
    {
        if v[k] == *n {
            return true;
        }
    }
    false
}

/// The first unit, in name order, with a requirement that names no unit, and
/// the position of its first such requirement.
fn find_missing(us: &Vec<Unit>) -> (r: Option<(usize, usize)>)
    ensures
        match r {
            Some((i, p)) => i < us@.len() && p < us@[i as int].requires@.len()
                && first_missing(us@, us@[i as int].name@, us@[i as int].requires@[p as int]@),
            None => all_requires_met(us@),
        },
{
    for i in 0..us.len()
        invariant
            forall|i2: int| 0 <= i2 < i ==> #[trigger] requires_met(us@, i2),
    {
        let unit = &us[i];
        for p in 0..unit.requires.len()
            invariant
                i < us@.len(),
                unit == us@[i as int],
                forall|i2: int| 0 <= i2 < i ==> #[trigger] requires_met(us@, i2),
                forall|q: int| 0 <= q < p ==> has_unit(us@, #[trigger] unit.requires@[q]@),
        {
            if position_of(us, &unit.requires[p]).is_none() {
                assert(named(us@, i as int, us@[i as int].name@));
                assert(us@[i as int].requires@[p as int] == unit.requires@[p as int]);
                assert(forall|q: int| 0 <= q < p ==> has_unit(us@, #[trigger] us@[i as int].requires@[q]@));
                return Some((i, p));
            }
        }
    }
    None
}

/// The units `us[i]` starts after, in increasing order.
fn edges_for(us: &Vec<Unit>, i: usize) -> (e: Vec<usize>)
    requires
        i < us@.len(),
    ensures
        edges_of(us@, i as int, e@),
        e@ == follow_list(us@, i as int, us@.len() as int),
{
    let mut e: Vec<usize> = Vec::new();
    for j in 0..us.len()
        invariant
            i < us@.len(),
            forall|a: int, b: int| 0 <= a < b < e@.len() ==> e@[a] < e@[b],
            forall|a: int| 0 <= a < e@.len() ==> (#[trigger] e@[a]) < j,
            forall|j2: int| 0 <= j2 < j ==> (follows(us@, i as int, j2) <==> e@.contains(j2 as usize)),
            e@ == follow_list(us@, i as int, j as int),
    {
        let ghost old_e = e@;
        if listed(&us[i].after, &us[j].name) || listed(&us[j].before, &us[i].name) {
            e.push(j);
            proof {
                assert(e@[old_e.len() as int] == j);
                assert forall|j2: int| 0 <= j2 < j implies (#[trigger] e@.contains(j2 as usize) <==> old_e.contains(j2 as usize)) by {
                    if e@.contains(j2 as usize) {
                        let a = choose|a: int| 0 <= a < e@.len() && e@[a] == j2 as usize;
                        assert(a < old_e.len());
                        assert(old_e[a] == e@[a]);
                    }
                    if old_e.contains(j2 as usize) {
                        let a = choose|a: int| 0 <= a < old_e.len() && old_e[a] == j2 as usize;
                        assert(old_e[a] == e@[a]);
                    }
                }
            }
        }
    }
    e
}

/// The units before `j` that `us[i]` starts after, in increasing order.
pub open spec fn follow_list(us: Seq<Unit>, i: int, j: int) -> Seq<usize>
    decreases j,
{
    if j <= 0 {
        seq![]
    } else if follows(us, i, j - 1) {
        follow_list(us, i, j - 1).push((j - 1) as usize)
    } else {
        follow_list(us, i, j - 1)
    }
}

/// For each unit, the units it starts after, in increasing order.
pub open spec fn edge_table(us: Seq<Unit>) -> Seq<Seq<usize>> {
    Seq::new(us.len(), |i: int| follow_list(us, i, us.len() as int))
}

/// The circle a search came back with, as a plain list.
pub open spec fn circle_view(r: Option<Vec<usize>>) -> Option<Seq<usize>> {
    match r {
        Some(c) => Some(c@),
        None => None,
    }
}

/// The lists of a list of vectors.
pub open spec fn tab(f: Seq<Vec<usize>>) -> Seq<Seq<usize>> {
    f.map_values(|v: Vec<usize>| v@)
}

/// Where `n` first is in `p` from `k` on, or the length of `p` when it is not there.
pub open spec fn seek(p: Seq<usize>, n: usize, k: int) -> int
    decreases p.len() - k,
{
    if k < 0 || k >= p.len() {
        p.len() as int
    } else if p[k] == n {
        k
    } else {
        seek(p, n, k + 1)
    }
}

/// A depth-first search from `n` against the edges of `t`, inside `within`,
/// with the units of `done` settled and `path` the trail that led to `n`:
/// the units it settles, and the first circle it closes, if it closes one.
pub open spec fn dfs(t: Seq<Seq<usize>>, within: Seq<bool>, done: Seq<bool>, path: Seq<usize>, n: int) -> (
    Seq<bool>,
    Option<Seq<usize>>,
)
    decreases t.len() - path.len(), 1int, 0int,
{
    if 0 <= n < done.len() && done[n] {
        (done, None)
    } else if seek(path, n as usize, 0) < path.len() {
        (done, Some(path.subrange(seek(path, n as usize, 0), path.len() as int).push(n as usize)))
    } else if path.len() >= t.len() || n < 0 || n >= t.len() {
        (done, None)
    } else {
        dfs_edges(t, within, done, path.push(n as usize), n, 0)
    }
}

/// The search from `n`, once `n` is on the trail `path`, through its edges
/// from the `a`-th on: each edge inside `within` is searched in turn, and
/// `n` is settled when none closes a circle.
pub open spec fn dfs_edges(t: Seq<Seq<usize>>, within: Seq<bool>, done: Seq<bool>, path: Seq<usize>, n: int, a: int) -> (
    Seq<bool>,
    Option<Seq<usize>>,
)
    decreases t.len() - path.len() + 1, 0int, if 0 <= n < t.len() { t[n].len() - a } else { 0 },
{
    if path.len() > t.len() || n < 0 || n >= t.len() || a < 0 || a >= t[n].len() {
        (done.update(n, true), None)
    } else {
        let y = t[n][a] as int;
        if 0 <= y < within.len() && within[y] {
            let (d, r) = dfs(t, within, done, path, y);
            if r is Some {
                (d, r)
            } else {
                dfs_edges(t, within, d, path, n, a + 1)
            }
        } else {
            dfs_edges(t, within, done, path, n, a + 1)
        }
    }
}

/// The first circle a search from each unit of `within` in turn, from the
/// `x`-th on, closes, with the units of `done` settled.
pub open spec fn circle_from(t: Seq<Seq<usize>>, within: Seq<bool>, done: Seq<bool>, x: int) -> Option<Seq<usize>>
    decreases t.len() - x,
{
    if x < 0 || x >= t.len() {
        None
    } else if 0 <= x < within.len() && within[x] {
        let (d, r) = dfs(t, within, done, seq![], x);
        if r is Some {
            r
        } else {
            circle_from(t, within, d, x + 1)
        }
    } else {
        circle_from(t, within, done, x + 1)
    }
}

/// The circle building reports: the first one that a depth-first search
/// closes, taking the units in name order and the units each starts after
/// in name order.
pub open spec fn first_circle(us: Seq<Unit>) -> Option<Seq<usize>> {
    circle_from(edge_table(us), Seq::new(us.len(), |i: int| true), Seq::new(us.len(), |i: int| false), 0)
}

/// `f[i]` lists `j`: unit `i` starts after unit `j`.
pub open spec fn edge(f: Seq<Vec<usize>>, i: int, j: int) -> bool {
    0 <= i < f.len() && f[i]@.contains(j as usize)
}

/// Every edge of `f` leads to one of its `f.len()` units.
pub open spec fn shaped(f: Seq<Vec<usize>>) -> bool {
    forall|i: int, a: int| 0 <= i < f.len() && 0 <= a < f[i]@.len() ==> (#[trigger] f[i]@[a]) < f.len()
}

/// `c` is a circle of edges of `f` that stays inside `within`, with no
/// unit twice on the way.
pub open spec fn circle_in(f: Seq<Vec<usize>>, within: Seq<bool>, c: Seq<usize>) -> bool {
    &&& c.len() >= 2
    &&& c[0] == c.last()
    &&& forall|a: int, b: int| 0 <= a < b < c.len() - 1 ==> #[trigger] c[a] != #[trigger] c[b]
    &&& forall|k: int| 0 <= k < c.len() ==> (#[trigger] c[k]) < f.len() && within[c[k] as int]
    &&& forall|k: int| 0 <= k < c.len() - 1 ==> edge(f, #[trigger] c[k] as int, c[k + 1] as int)
}

/// The units of `within` that the search has finished with, each ranked above
/// every unit of `within` it starts after.
struct Settled {
    done: Vec<bool>,
    rank: Ghost<Seq<int>>,
    count: Ghost<int>,
}

spec fn settled_ok(f: Seq<Vec<usize>>, within: Seq<bool>, s: Settled) -> bool {
    &&& s.done@.len() == f.len()
    &&& s.rank@.len() == f.len()
    &&& s.count@ >= 0
    &&& forall|x: int| 0 <= x < f.len() && #[trigger] s.done@[x] ==> 0 <= s.rank@[x] < s.count@
    &&& forall|x: int, y: int| 0 <= x < f.len() && 0 <= y < f.len() && s.done@[x] && within[y] && #[trigger] edge(f, x, y)
        ==> s.done@[y] && s.rank@[y] < s.rank@[x]
}

spec fn grows(a: Settled, b: Settled) -> bool {
    &&& b.done@.len() == a.done@.len()
    &&& b.count@ >= a.count@
    &&& forall|x: int| 0 <= x < a.done@.len() && #[trigger] a.done@[x] ==> b.done@[x] && b.rank@[x] == a.rank@[x]
}

/// The search's current trail: distinct unsettled units of `within`, each starting after the next.
spec fn trail_ok(f: Seq<Vec<usize>>, within: Seq<bool>, s: Settled, path: Seq<usize>) -> bool {
    &&& path.no_duplicates()
    &&& forall|k: int| 0 <= k < path.len() ==> (#[trigger] path[k]) < f.len() && within[path[k] as int] && !s.done@[path[k] as int]
    &&& forall|k: int| 0 <= k < path.len() - 1 ==> edge(f, #[trigger] path[k] as int, path[k + 1] as int)
}

proof fn lemma_distinct_below(path: Seq<usize>, n: usize, bound: nat)
    requires
        path.no_duplicates(),
        forall|k: int| 0 <= k < path.len() ==> (#[trigger] path[k]) < bound,
        !path.contains(n),
        n < bound,
    ensures
        path.len() < bound,
{
    let whole = path.push(n);
    assert(whole.no_duplicates()) by {
        assert forall|a: int, b: int| 0 <= a < whole.len() && 0 <= b < whole.len() && a != b implies whole[a] != whole[b] by {
            if a < path.len() && b < path.len() {
            } else if a == path.len() {
                assert(path[b] == whole[b]);
            } else {
                assert(path[a] == whole[a]);
            }
        }
    }
    let ints = whole.map_values(|x: usize| x as int);
    whole.lemma_no_duplicates_injective(|x: usize| x as int);
    ints.unique_seq_to_set();
    vstd::set_lib::lemma_int_range(0, bound as int);
    assert(ints.to_set().subset_of(vstd::set_lib::set_int_range(0, bound as int))) by {
        assert forall|x: int| ints.to_set().contains(x) implies vstd::set_lib::set_int_range(0, bound as int).contains(x) by {
            let k = choose|k: int| 0 <= k < ints.len() && ints[k] == x;
            if k < path.len() {
                assert(whole[k] == path[k]);
            }
        }
    }
    vstd::set_lib::lemma_len_subset(ints.to_set(), vstd::set_lib::set_int_range(0, bound as int));
}

/// Depth-first search from `n` against the order edges, staying inside
/// `within`: settles what it finishes, or returns the first circle it closes.
#[verifier::rlimit(40)]
#[verifier::spinoff_prover]
fn walk(f: &Vec<Vec<usize>>, n: usize, within: &Vec<bool>, s: &mut Settled, path: &mut Vec<usize>) -> (r: Option<Vec<usize>>)
    requires
        shaped(f@),
        f@.len() <= usize::MAX,
        within@.len() == f@.len(),
        n < f@.len(),
        within@[n as int],
        settled_ok(f@, within@, *old(s)),
        trail_ok(f@, within@, *old(s), old(path)@),
        old(path)@.len() > 0 ==> edge(f@, old(path)@.last() as int, n as int),
    ensures
        match r {
            None => {
                &&& settled_ok(f@, within@, *final(s))
                &&& final(s).done@[n as int]
                &&& final(path)@ == old(path)@
                &&& grows(*old(s), *final(s))
                &&& forall|k: int| 0 <= k < old(path)@.len() ==> !final(s).done@[#[trigger] old(path)@[k] as int]
            },
            Some(c) => circle_in(f@, within@, c@),
        },
        (final(s).done@, circle_view(r)) == dfs(tab(f@), within@, old(s).done@, old(path)@, n as int),
    decreases f@.len() - old(path)@.len(),
{
    if s.done[n] {
        return None;
    }
    let mut from: usize = 0;
    while from < path.len() && path[from] != n
        invariant
            from <= path@.len(),
            forall|k: int| 0 <= k < from ==> path@[k] != n,
            seek(path@, n, 0) == seek(path@, n, from as int),
        decreases path@.len() - from,
    {
        from = from + 1;
    }
    if from < path.len() {
        let mut c: Vec<usize> = Vec::new();
        let mut k = from;
        while k < path.len()
            invariant
                from <= k <= path@.len(),
                c@ == path@.subrange(from as int, k as int),
            decreases path@.len() - k,
        {
            c.push(path[k]);
            assert(path@.subrange(from as int, k + 1) =~= path@.subrange(from as int, k as int).push(path@[k as int]));
            k = k + 1;
        }
        c.push(n);
        proof {
            let p = path@;
            assert forall|k2: int| 0 <= k2 < c@.len() - 1 implies edge(f@, #[trigger] c@[k2] as int, c@[k2 + 1] as int) by {
                if k2 + 1 < c@.len() - 1 {
                    assert(c@[k2] == p[from + k2]);
                    assert(c@[k2 + 1] == p[from + k2 + 1]);
                } else {
                    assert(c@[k2] == p[p.len() - 1]);
                }
            }
            assert forall|k2: int| 0 <= k2 < c@.len() implies (#[trigger] c@[k2]) < f@.len() && within@[c@[k2] as int] by {
                if k2 < c@.len() - 1 {
                    assert(c@[k2] == p[from + k2]);
                }
            }
            assert forall|a: int, b: int| 0 <= a < b < c@.len() - 1 implies #[trigger] c@[a] != #[trigger] c@[b] by {
                assert(c@[a] == p[from + a]);
                assert(c@[b] == p[from + b]);
            }
            assert(seek(p, n, 0) == from);
        }
        return Some(c);
    }
    proof {
        assert(!path@.contains(n)) by {
            if path@.contains(n) {
                let k = choose|k: int| 0 <= k < path@.len() && path@[k] == n;
            }
        }
        lemma_distinct_below(path@, n, f@.len());
    }
    let ghost s0 = *s;
    let ghost p0 = path@;
    path.push(n);
    proof {
        assert(path@.no_duplicates()) by {
            assert forall|a: int, b: int| 0 <= a < path@.len() && 0 <= b < path@.len() && a != b implies path@[a] != path@[b] by {
                if a < p0.len() && b < p0.len() {
                    assert(path@[a] == p0[a] && path@[b] == p0[b]);
                } else if a == p0.len() {
                    assert(path@[b] == p0[b]);
                } else {
                    assert(path@[a] == p0[a]);
                }
            }
        }
        assert forall|k: int| 0 <= k < path@.len() - 1 implies edge(f@, #[trigger] path@[k] as int, path@[k + 1] as int) by {
            if k < p0.len() - 1 {
                assert(path@[k] == p0[k] && path@[k + 1] == p0[k + 1]);
            } else {
                assert(path@[k] == p0[p0.len() - 1]);
            }
        }
    }
    let edges = &f[n];
    proof {
        assert(seek(p0, n, 0) == p0.len());
        assert(tab(f@)[n as int] == f@[n as int]@);
        assert(tab(f@).len() == f@.len());
    }
    let mut a: usize = 0;
    while a < edges.len()
        invariant
            edges == f@[n as int],
            s0.done@ == old(s).done@,
            shaped(f@),
            f@.len() <= usize::MAX,
            within@.len() == f@.len(),
            n < f@.len(),
            within@[n as int],
            path@ == p0.push(n),
            p0 == old(path)@,
            p0.len() < f@.len(),
            settled_ok(f@, within@, *s),
            trail_ok(f@, within@, *s, path@),
            grows(s0, *s),
            !s.done@[n as int],
            forall|k: int| 0 <= k < p0.len() ==> !s.done@[#[trigger] p0[k] as int],
            forall|b: int| 0 <= b < a ==> within@[#[trigger] edges@[b] as int] ==> s.done@[edges@[b] as int],
            tab(f@)[n as int] == edges@,
            dfs(tab(f@), within@, s0.done@, p0, n as int) == dfs_edges(tab(f@), within@, s.done@, path@, n as int, a as int),
        decreases edges@.len() - a,
    {
        let y = edges[a];
        if within[y] {
            assert(edge(f@, n as int, y as int)) by {
                assert(f@[n as int]@[a as int] == y);
            }
            let ghost s1 = *s;
            match walk(f, y, within, s, path) {
                Some(c) => {
                    return Some(c);
                },
                None => {
                    proof {
                        assert forall|x: int| 0 <= x < s0.done@.len() && #[trigger] s0.done@[x] implies s.done@[x] && s.rank@[x] == s0.rank@[x] by {
                            assert(s1.done@[x]);
                        }
                        assert(path@[path@.len() - 1] == n);
                        assert forall|k: int| 0 <= k < p0.len() implies !s.done@[#[trigger] p0[k] as int] by {
                            assert(path@[k] == p0[k]);
                        }
                    }
                },
            }
        }
        a = a + 1;
    }
    path.pop();
    proof {
        assert(path@ =~= p0);
    }
    let ghost s2 = *s;
    s.done.set(n, true);
    proof {
        s.rank@ = s.rank@.update(n as int, s.count@);
        s.count@ = s.count@ + 1;
        assert forall|x: int, y: int| 0 <= x < f@.len() && 0 <= y < f@.len() && s.done@[x] && within@[y] && #[trigger] edge(f@, x, y)
            implies s.done@[y] && s.rank@[y] < s.rank@[x] by {
            if x == n {
                assert(edges@ == f@[x]@);
                assert(f@[x]@.contains(y as usize));
                let b = choose|b: int| 0 <= b < edges@.len() && edges@[b] == y as usize;
                assert(edges@[b] as int == y);
                assert(within@[edges@[b] as int]);
                assert(s2.done@[y]);
            } else {
                assert(s2.done@[x]);
                if y == n {
                    assert(false);
                }
            }
        }
        assert forall|k: int| 0 <= k < p0.len() implies !s.done@[#[trigger] p0[k] as int] by {
            assert(p0[k] != n) by {
                assert(path@[k] == p0[k]);
            }
        }
    }
    None
}

/// Runs the search over every unit of `within`: either every unit of
/// `within` gets a rank above all it starts after, or a circle comes back.
fn search(f: &Vec<Vec<usize>>, within: &Vec<bool>) -> (r: Result<Ghost<Seq<int>>, Vec<usize>>)
    requires
        shaped(f@),
        within@.len() == f@.len(),
    ensures
        match r {
            Ok(rank) => rank@.len() == f@.len() && forall|x: int, y: int| 0 <= x < f@.len() && 0 <= y < f@.len() && within@[x] && within@[y]
                && #[trigger] edge(f@, x, y) ==> rank@[y] < rank@[x],
            Err(c) => circle_in(f@, within@, c@),
        },
        match r {
            Ok(_) => circle_from(tab(f@), within@, Seq::new(f@.len(), |i: int| false), 0) is None,
            Err(c) => circle_from(tab(f@), within@, Seq::new(f@.len(), |i: int| false), 0) == Some(c@),
        },
{
    let mut done: Vec<bool> = Vec::new();
    for i in 0..f.len()
        invariant
            done@.len() == i,
            forall|x: int| 0 <= x < i ==> !done@[x],
    {
        done.push(false);
    }
    let mut s = Settled { done, rank: Ghost(Seq::new(f@.len() as nat, |i: int| 0)), count: Ghost(0) };
    let mut path: Vec<usize> = Vec::new();
    proof {
        assert(s.done@ =~= Seq::new(f@.len(), |i: int| false));
        assert(tab(f@).len() == f@.len());
    }
    for x in 0..f.len()
        invariant
            shaped(f@),
            f@.len() <= usize::MAX,
            within@.len() == f@.len(),
            settled_ok(f@, within@, s),
            path@.len() == 0,
            circle_from(tab(f@), within@, Seq::new(f@.len(), |i: int| false), 0)
                == circle_from(tab(f@), within@, s.done@, x as int),
            forall|x2: int| 0 <= x2 < x && within@[x2] ==> #[trigger] s.done@[x2],
    {
        if within[x] {
            let ghost s0 = s;
            proof {
                assert(path@ =~= seq![]);
            }
            match walk(f, x, within, &mut s, &mut path) {
                Some(c) => {
                    return Err(c);
                },
                None => {
                    assert forall|x2: int| 0 <= x2 < x && within@[x2] implies #[trigger] s.done@[x2] by {
                        assert(s0.done@[x2]);
                    }
                },
            }
        }
    }
    Ok(s.rank)
}

/// The names of the units at positions `c`, in that order.
fn names_at(us: &Vec<Unit>, c: &Vec<usize>) -> (r: Vec<String>)
    requires
        forall|k: int| 0 <= k < c@.len() ==> (#[trigger] c@[k]) < us@.len(),
    ensures
        r@.len() == c@.len(),
        forall|k: int| 0 <= k < c@.len() ==> (#[trigger] r@[k])@ == us@[c@[k] as int].name@,
{
    let mut r: Vec<String> = Vec::new();
    for k in 0..c.len()
        invariant
            forall|k: int| 0 <= k < c@.len() ==> (#[trigger] c@[k]) < us@.len(),
            r@.len() == k,
            forall|k2: int| 0 <= k2 < k ==> (#[trigger] r@[k2])@ == us@[c@[k2] as int].name@,
    {
        r.push(us[c[k]].name.clone());
    }
    r
}

proof fn lemma_ranked(us: Seq<Unit>, order: Seq<Vec<usize>>, rank: Seq<int>)
    requires
        order.len() == us.len(),
        forall|x: int| 0 <= x < us.len() ==> edges_of(us, x, #[trigger] order[x]@),
        rank.len() == order.len(),
        forall|x: int, y: int| 0 <= x < order.len() && 0 <= y < order.len() && true && true
            && #[trigger] edge(order, x, y) ==> rank[y] < rank[x],
    ensures
        ranked(us, rank),
{
    assert forall|i: int, j: int| 0 <= i < us.len() && 0 <= j < us.len() && #[trigger] follows(us, i, j)
        implies rank[j] < rank[i] by {
        assert(edges_of(us, i, order[i]@));
        assert(edge(order, i, j));
    }
}

/// The names along the circle `c`.
fn circle_names(us: &Vec<Unit>, order: &Vec<Vec<usize>>, within: &Vec<bool>, c: &Vec<usize>) -> (path: Vec<String>)
    requires
        sorted_by_name(us@),
        order@.len() == us@.len(),
        forall|x: int| 0 <= x < us@.len() ==> edges_of(us@, x, #[trigger] order@[x]@),
        circle_in(order@, within@, c@),
    ensures
        is_circle(us@, path@),
        names_along(us@, Some(c@), path@),
{
    let path = names_at(us, c);
    proof {
        assert forall|k: int| 0 <= k < path@.len() - 1 implies starts_after(us@, #[trigger] path@[k]@, path@[k + 1]@) by {
            let i = c@[k] as int;
            let j = c@[k + 1] as int;
            assert(edge(order@, i, j));
            assert(edges_of(us@, i, order@[i]@));
            assert(named(us@, i, path@[k]@));
            assert(named(us@, j, path@[k + 1]@));
            assert(follows(us@, i, j));
        }
        assert(path@[0]@ == path@.last()@) by {
            assert(path@[path@.len() - 1]@ == us@[c@[c@.len() - 1] as int].name@);
            assert(path@[0]@ == us@[c@[0] as int].name@);
        }
        assert(path@.len() >= 2);
        assert forall|a: int, b: int| 0 <= a < b < path@.len() - 1 implies #[trigger] path@[a]@ != #[trigger] path@[b]@ by {
            if path@[a]@ == path@[b]@ {
                assert(named(us@, c@[a] as int, path@[a]@));
                assert(named(us@, c@[b] as int, path@[a]@));
                lemma_unique_names(us@, c@[a] as int, c@[b] as int, path@[a]@);
            }
        }
    }
    path
}

/// `s` takes in every unit that one of its units requires or wants.
pub open spec fn closed_under_needs(us: Seq<Unit>, s: Set<int>) -> bool {
    forall|i: int, j: int| #![trigger s.contains(i), needs(us, i, j)]
        0 <= i < us.len() && 0 <= j < us.len() && s.contains(i) && needs(us, i, j) ==> s.contains(j)
}

/// `s` holds every unit that `roots` names.
pub open spec fn holds_roots(us: Seq<Unit>, roots: Seq<String>, s: Set<int>) -> bool {
    forall|i: int| 0 <= i < us.len() && lists(roots, us[i].name@) ==> #[trigger] s.contains(i)
}

/// `c` is what starting `roots` pulls in: the roots, whatever one of them
/// requires or wants, and so on, and nothing more.
pub open spec fn pulled_in(us: Seq<Unit>, roots: Seq<String>, c: Set<int>) -> bool {
    &&& forall|i: int| #[trigger] c.contains(i) ==> 0 <= i < us.len()
    &&& holds_roots(us, roots, c)
    &&& closed_under_needs(us, c)
    &&& forall|s: Set<int>| holds_roots(us, roots, s) && #[trigger] closed_under_needs(us, s) ==> c.subset_of(s)
}

/// The positions at which `m` is set.
pub open spec fn set_of(m: Seq<bool>) -> Set<int> {
    Set::new(|i: int| 0 <= i < m.len() && m[i])
}

/// A unit of `c` is called `n`.
pub open spec fn named_in(us: Seq<Unit>, c: Set<int>, n: Seq<char>) -> bool {
    exists|i: int| c.contains(i) && #[trigger] named(us, i, n)
}

/// Every root names a unit.
pub open spec fn all_known(us: Seq<Unit>, roots: Seq<String>) -> bool {
    forall|k: int| 0 <= k < roots.len() ==> has_unit(us, #[trigger] roots[k]@)
}

/// `n` is the first root that names no unit.
pub open spec fn first_unknown(us: Seq<Unit>, roots: Seq<String>, n: Seq<char>) -> bool {
    exists|k: int| 0 <= k < roots.len() && #[trigger] roots[k]@ == n && !has_unit(us, n)
        && forall|k2: int| 0 <= k2 < k ==> has_unit(us, #[trigger] roots[k2]@)
}

/// `us[i]`, pulled in, conflicts at position `p` with a unit pulled in too.
pub open spec fn clashes(us: Seq<Unit>, c: Set<int>, i: int, p: int) -> bool {
    &&& c.contains(i)
    &&& 0 <= p < us[i].conflicts@.len()
    &&& named_in(us, c, us[i].conflicts@[p]@)
}

pub open spec fn no_clash(us: Seq<Unit>, c: Set<int>) -> bool {
    forall|i: int, p: int| !#[trigger] clashes(us, c, i, p)
}

/// The first clash: the first unit in name order that has one, at its first.
pub open spec fn first_clash(us: Seq<Unit>, c: Set<int>, i: int, p: int) -> bool {
    &&& clashes(us, c, i, p)
    &&& forall|q: int| 0 <= q < p ==> !#[trigger] clashes(us, c, i, q)
    &&& forall|i2: int, q: int| 0 <= i2 < i ==> !#[trigger] clashes(us, c, i2, q)
}

/// `us[j]` requires or wants the unit called `n`.
pub open spec fn asks_for(us: Seq<Unit>, j: int, n: Seq<char>) -> bool {
    lists(us[j].requires@ + us[j].wants@, n)
}

/// `by` names the unit that asked for `n`: the first unit of `c` in name order
/// that requires or wants it, or `n` itself when none does.
pub open spec fn asked_by(us: Seq<Unit>, c: Set<int>, n: Seq<char>, by: Seq<char>) -> bool {
    if exists|j: int| c.contains(j) && #[trigger] asks_for(us, j, n) {
        exists|j: int| c.contains(j) && #[trigger] asks_for(us, j, n) && us[j].name@ == by
            && forall|j2: int| 0 <= j2 < j && c.contains(j2) ==> !#[trigger] asks_for(us, j2, n)
    } else {
        by == n
    }
}

pub open spec fn count_set(m: Seq<bool>) -> nat
    decreases m.len(),
{
    if m.len() == 0 {
        0
    } else {
        count_set(m.drop_last()) + if m.last() { 1nat } else { 0nat }
    }
}

proof fn lemma_count_set(m: Seq<bool>, i: int)
    requires
        0 <= i < m.len(),
        !m[i],
    ensures
        count_set(m.update(i, true)) == count_set(m) + 1,
        count_set(m) <= m.len(),
    decreases m.len(),
{
    let u = m.update(i, true);
    if i == m.len() - 1 {
        assert(u.drop_last() =~= m.drop_last());
        lemma_count_bounded(m.drop_last());
    } else {
        assert(u.drop_last() =~= m.drop_last().update(i, true));
        lemma_count_set(m.drop_last(), i);
    }
}

proof fn lemma_count_bounded(m: Seq<bool>)
    ensures
        count_set(m) <= m.len(),
    decreases m.len(),
{
    if m.len() > 0 {
        lemma_count_bounded(m.drop_last());
    }
}

/// Names in strictly increasing order, so none twice.
pub open spec fn strictly_sorted(r: Seq<String>) -> bool {
    forall|a: int, b: int| 0 <= a < b < r.len() ==> name_before(#[trigger] r[a]@, #[trigger] r[b]@)
}

/// The units whose names `names` holds.
pub open spec fn chosen_by_name(us: Seq<Unit>, names: Seq<String>) -> Set<int> {
    Set::new(|i: int| 0 <= i < us.len() && lists(names, us[i].name@))
}

/// Each entry of `names` is the name of a unit.
pub open spec fn all_units(us: Seq<Unit>, names: Seq<String>) -> bool {
    forall|k: int| 0 <= k < names.len() ==> has_unit(us, #[trigger] names[k]@)
}

/// In name order, two units never share a name.
pub proof fn lemma_unique_names(us: Seq<Unit>, i: int, j: int, n: Seq<char>)
    requires
        sorted_by_name(us),
        named(us, i, n),
        named(us, j, n),
    ensures
        i == j,
{
    lemma_name_order(n, n, n);
    if i < j {
        assert(name_before(us[i].name@, us[j].name@));
    } else if j < i {
        assert(name_before(us[j].name@, us[i].name@));
    }
}

/// Each unit of `c` sits on a level from 1 up: above every unit of `c` it
/// starts after, and, off the bottom level, right above one of them.
pub open spec fn layered_by(us: Seq<Unit>, c: Set<int>, level: Seq<int>) -> bool {
    &&& level.len() == us.len()
    &&& forall|i: int| #[trigger] c.contains(i) ==> level[i] >= 1
    &&& forall|i: int, j: int| c.contains(i) && c.contains(j) && #[trigger] follows(us, i, j) ==> level[j] < level[i]
    &&& forall|i: int| #[trigger] c.contains(i) && level[i] > 1 ==> exists|j: int| c.contains(j) && #[trigger] follows(us, i, j) && level[j] == level[i] - 1
}

/// `w[k]` holds, in name order, the units of `c` on level `k + 1`, and no level is left empty.
pub open spec fn waves_from(us: Seq<Unit>, c: Set<int>, level: Seq<int>, w: Seq<Seq<String>>) -> bool {
    &&& forall|i: int| #[trigger] c.contains(i) ==> level[i] <= w.len()
    &&& forall|k: int| 0 <= k < w.len() ==> (#[trigger] w[k]).len() > 0 && strictly_sorted(w[k]) && all_units(us, w[k])
        && chosen_by_name(us, w[k]) == Set::new(|i: int| c.contains(i) && level[i] == k + 1)
}

/// The views of a list of lists of names.
pub open spec fn views(w: Seq<Vec<String>>) -> Seq<Seq<String>> {
    w.map_values(|v: Vec<String>| v@)
}

/// The count of marked positions that are still on no level.
spec fn unplaced(m: Seq<bool>, level: Seq<usize>) -> Seq<bool> {
    Seq::new(m.len(), |i: int| m[i] && level[i] == 0)
}

proof fn lemma_count_shrinks(a: Seq<bool>, b: Seq<bool>, i: int)
    requires
        a.len() == b.len(),
        forall|x: int| 0 <= x < b.len() && #[trigger] b[x] ==> a[x],
        0 <= i < a.len(),
        a[i],
        !b[i],
    ensures
        count_set(b) < count_set(a),
    decreases a.len(),
{
    if i == a.len() - 1 {
        lemma_count_le(a.drop_last(), b.drop_last());
    } else {
        lemma_count_shrinks(a.drop_last(), b.drop_last(), i);
    }
}

proof fn lemma_count_le(a: Seq<bool>, b: Seq<bool>)
    requires
        a.len() == b.len(),
        forall|x: int| 0 <= x < b.len() && #[trigger] b[x] ==> a[x],
    ensures
        count_set(b) <= count_set(a),
    decreases a.len(),
{
    if a.len() > 0 {
        lemma_count_le(a.drop_last(), b.drop_last());
    }
}

/// Among the units of `c` still on no level, one ranks lowest.
proof fn lemma_lowest(rank: Seq<int>, m: Seq<bool>, level: Seq<usize>, n: int) -> (i: int)
    requires
        0 <= n <= m.len(),
        m.len() == level.len(),
        rank.len() == m.len(),
        exists|x: int| 0 <= x < n && m[x] && level[x] == 0,
    ensures
        0 <= i < n && m[i] && level[i] == 0,
        forall|x: int| 0 <= x < n && m[x] && level[x] == 0 ==> rank[i] <= rank[x],
    decreases n,
{
    if exists|x: int| 0 <= x < n - 1 && m[x] && level[x] == 0 {
        let i = lemma_lowest(rank, m, level, n - 1);
        if m[n - 1] && level[n - 1] == 0 && rank[n - 1] < rank[i] {
            n - 1
        } else {
            i
        }
    } else {
        n - 1
    }
}

/// Why starting `roots` is refused with `t`: the first root that is no unit,
/// or the first clash among what the roots pull in.
pub open spec fn refused(us: Seq<Unit>, roots: Seq<String>, t: Trouble) -> bool {
    match t {
        Trouble::Unknown(n) => first_unknown(us, roots, n@),
        Trouble::Incompatible { unit, with, pulled_in_by } => {
            &&& all_known(us, roots)
            &&& exists|c: Set<int>, i: int, p: int| pulled_in(us, roots, c)
                && first_clash(us, c, i, p) && unit@ == us[i].name@
                && with@ == us[i].conflicts@[p]@
                && asked_by(us, c, with@, pulled_in_by@)
        },
        _ => false,
    }
}

/// `w` are the waves in which starting `roots` brings its units up.
pub open spec fn start_waves(us: Seq<Unit>, roots: Seq<String>, w: Seq<Seq<String>>) -> bool {
    &&& all_known(us, roots)
    &&& exists|c: Set<int>, level: Seq<int>| pulled_in(us, roots, c) && no_clash(us, c)
        && layered_by(us, c, level) && waves_from(us, c, level, w)
}

/// Each entry of `chosen` that is not in `up` is the name of a unit.
pub open spec fn pending_known(us: Seq<Unit>, chosen: Seq<String>, up: Seq<String>) -> bool {
    forall|k: int| 0 <= k < chosen.len() && !lists(up, chosen[k]@) ==> has_unit(us, #[trigger] chosen[k]@)
}

/// The unit called `n` is not up yet, but every unit of `chosen` it starts after is.
pub open spec fn ready_name(us: Seq<Unit>, chosen: Seq<String>, up: Seq<String>, n: Seq<char>) -> bool {
    &&& !lists(up, n)
    &&& forall|i: int, j: int| named(us, i, n) && chosen_by_name(us, chosen).contains(j) && #[trigger] follows(us, i, j)
        ==> lists(up, us[j].name@)
}

impl Graph {
    /// The units of the graph, in name order.
    pub closed spec fn spec_units(&self) -> Seq<Unit> {
        self.units@
    }

    pub closed spec fn well_formed(&self) -> bool {
        &&& sorted_by_name(self.units@)
        &&& self.follows@.len() == self.units@.len()
        &&& forall|i: int| 0 <= i < self.units@.len() ==> edges_of(self.units@, i, #[trigger] self.follows@[i]@)
        &&& has_no_circle(self.units@)
    }

    /// A graph that was built holds its units in name order, and its order
    /// relation has no circle.
    pub proof fn lemma_well_formed(&self)
        requires
            self.well_formed(),
        ensures
            sorted_by_name(self.spec_units()),
            has_no_circle(self.spec_units()),
    {
    }

    proof fn lemma_edges(&self)
        requires
            self.well_formed(),
        ensures
            shaped(self.follows@),
            forall|i: int, j: int| 0 <= i < self.units@.len() && 0 <= j < self.units@.len()
                ==> (#[trigger] edge(self.follows@, i, j) <==> follows(self.units@, i, j)),
    {
        assert forall|i: int, a: int| 0 <= i < self.follows@.len() && 0 <= a < self.follows@[i]@.len()
            implies (#[trigger] self.follows@[i]@[a]) < self.follows@.len() by {
            assert(edges_of(self.units@, i, self.follows@[i]@));
        }
        assert forall|i: int, j: int| 0 <= i < self.units@.len() && 0 <= j < self.units@.len()
            implies (#[trigger] edge(self.follows@, i, j) <==> follows(self.units@, i, j)) by {
            assert(edges_of(self.units@, i, self.follows@[i]@));
        }
    }

    /// Takes the units by name, the last of each name winning; refuses a
    /// requirement that names no unit, and an order that runs in a circle.
    pub fn build(units: Vec<Unit>) -> (r: Result<Graph, Trouble>)
        ensures
            match r {
                Ok(g) => {
                    &&& g.well_formed()
                    &&& keeps_latest(units@, g.spec_units())
                    &&& all_requires_met(g.spec_units())
                    &&& has_no_circle(g.spec_units())
                    &&& first_circle(g.spec_units()) is None
                },
                Err(Trouble::Missing { unit, needs }) => exists|us: Seq<Unit>|
                    keeps_latest(units@, us) && first_missing(us, unit@, needs@),
                Err(Trouble::Cycle(path)) => exists|us: Seq<Unit>|
                    keeps_latest(units@, us) && all_requires_met(us) && is_circle(us, path@)
                        && names_along(us, first_circle(us), path@),
                Err(_) => false,
            },
            r is Ok <==> exists|us: Seq<Unit>| keeps_latest(units@, us) && buildable(us),
            r is Ok <==> exists|us: Seq<Unit>| keeps_latest(units@, us) && all_requires_met(us) && circle_free(us),
    {
        let us = by_name(units);
        if let Some((i, p)) = find_missing(&us) {
            let r = Err(Trouble::Missing { unit: us[i].name.clone(), needs: us[i].requires[p].clone() });
            proof {
                assert(first_missing(us@, us@[i as int].name@, us@[i as int].requires@[p as int]@));
                a_missing_requirement_is_unmet(us@, us@[i as int].name@, us@[i as int].requires@[p as int]@);
                assert forall|us2: Seq<Unit>| keeps_latest(units@, us2) implies !buildable(us2)
                    && !all_requires_met(us2) by {
                    the_units_kept_are_determined(units@, us@, us2);
                }
            }
            return r;
        }
        let mut order: Vec<Vec<usize>> = Vec::new();
        let mut within: Vec<bool> = Vec::new();
        for i in 0..us.len()
            invariant
                order@.len() == i,
                within@.len() == i,
                forall|x: int| 0 <= x < i ==> #[trigger] within@[x],
                forall|x: int| 0 <= x < i ==> edges_of(us@, x, #[trigger] order@[x]@),
                forall|x: int| 0 <= x < i ==> (#[trigger] order@[x])@ == follow_list(us@, x, us@.len() as int),
        {
            order.push(edges_for(&us, i));
            within.push(true);
        }
        proof {
            assert(tab(order@) =~= edge_table(us@));
            assert(within@ =~= Seq::new(us@.len(), |i: int| true));
            assert forall|i: int, a: int| 0 <= i < order@.len() && 0 <= a < order@[i]@.len()
                implies (#[trigger] order@[i]@[a]) < order@.len() by {
                assert(edges_of(us@, i, order@[i]@));
            }
        }
        match search(&order, &within) {
            Err(c) => {
                let path = circle_names(&us, &order, &within, &c);
                proof {
                    a_circle_cannot_be_ranked(us@, path@);
                    assert forall|us2: Seq<Unit>| keeps_latest(units@, us2) implies !buildable(us2)
                        && !circle_free(us2) by {
                        the_units_kept_are_determined(units@, us@, us2);
                        assert(is_circle(us2, path@));
                    }
                }
                Err(Trouble::Cycle(path))
            },
            Ok(rank) => {
                proof {
                    lemma_ranked(us@, order@, rank@);
                    assert(keeps_latest(units@, us@) && buildable(us@));
                    assert forall|path: Seq<String>| !#[trigger] is_circle(us@, path) by {
                        if is_circle(us@, path) {
                            a_circle_cannot_be_ranked(us@, path);
                        }
                    }
                    assert(circle_free(us@));
                }
                let g = Graph { units: us, follows: order };
                Ok(g)
            },
        }
    }

    /// The names of the units, in name order.
    pub fn names(&self) -> (r: Vec<String>)
        ensures
            r@.len() == self.spec_units().len(),
            forall|i: int| 0 <= i < r@.len() ==> (#[trigger] r@[i])@ == self.spec_units()[i].name@,
    {
        let mut r: Vec<String> = Vec::new();
        for i in 0..self.units.len()
            invariant
                r@.len() == i,
                forall|i2: int| 0 <= i2 < i ==> (#[trigger] r@[i2])@ == self.units@[i2].name@,
        {
            r.push(self.units[i].name.clone());
        }
        r
    }

    /// The unit called `name`, if there is one.
    pub fn get(&self, name: &str) -> (r: Option<&Unit>)
        ensures
            match r {
                Some(u) => exists|i: int| named(self.spec_units(), i, name@) && self.spec_units()[i] == *u,
                None => !has_unit(self.spec_units(), name@),
            },
    {
        for i in 0..self.units.len()
            invariant
                forall|i2: int| 0 <= i2 < i ==> self.units@[i2].name@ != name@,
        {
            if same_text(self.units[i].name.as_str(), name) {
                assert(named(self.spec_units(), i as int, name@) && self.spec_units()[i as int] == self.units@[i as int]);
                return Some(&self.units[i]);
            }
        }
        None
    }
}

impl Graph {
    /// Marks what starting `roots` pulls in, or names the first root that is no unit.
    fn closure(&self, roots: &[String]) -> (r: Result<Vec<bool>, Trouble>)
        requires
            self.well_formed(),
        ensures
            match r {
                Ok(m) => m@.len() == self.units@.len() && all_known(self.units@, roots@)
                    && pulled_in(self.units@, roots@, set_of(m@)),
                Err(Trouble::Unknown(n)) => first_unknown(self.units@, roots@, n@),
                Err(_) => false,
            },
    {
        let us = &self.units;
        let ghost u = us@;
        let mut chosen: Vec<bool> = Vec::new();
        for i in 0..us.len()
            invariant
                chosen@.len() == i,
                forall|x: int| 0 <= x < i ==> !chosen@[x],
        {
            chosen.push(false);
        }
        let mut pending: Vec<usize> = Vec::new();
        for k in 0..roots.len()
            invariant
                u == us@,
                u == self.units@,
                sorted_by_name(u),
                chosen@.len() == u.len(),
                forall|x: int| 0 <= x < u.len() ==> !chosen@[x],
                forall|a: int| 0 <= a < pending@.len() ==> (#[trigger] pending@[a]) < u.len(),
                forall|k2: int| 0 <= k2 < k ==> has_unit(u, #[trigger] roots@[k2]@),
                forall|i: int| #![trigger u[i]] 0 <= i < u.len() && lists(roots@.take(k as int), u[i].name@)
                    ==> pending@.contains(i as usize),
                forall|s: Set<int>| holds_roots(u, roots@, s) ==> forall|a: int| 0 <= a < pending@.len() ==> s.contains(#[trigger] pending@[a] as int),
        {
            match position_of(us, &roots[k]) {
                None => {
                    let n = roots[k].clone();
                    assert(roots@[k as int]@ == n@);
                    return Err(Trouble::Unknown(n));
                },
                Some(i) => {
                    let ghost before = pending@;
                    pending.push(i);
                    proof {
                        assert(pending@[before.len() as int] == i);
                        assert forall|i3: int| #![trigger u[i3]] 0 <= i3 < u.len() && lists(roots@.take(k + 1), u[i3].name@)
                            implies pending@.contains(i3 as usize) by {
                            let k2 = choose|k2: int| 0 <= k2 < k + 1 && #[trigger] roots@.take(k + 1)[k2]@ == u[i3].name@;
                            assert(roots@.take(k + 1)[k2] == roots@[k2]);
                            if k2 < k {
                                assert(roots@.take(k as int)[k2] == roots@[k2]);
                            }
                            if k2 < k {
                                let a = choose|a: int| 0 <= a < before.len() && before[a] == i3 as usize;
                                assert(pending@[a] == before[a]);
                            } else {
                                lemma_name_order(u[i3].name@, u[i as int].name@, u[i3].name@);
                                if i3 != i {
                                    if i3 < i {
                                        assert(name_before(u[i3].name@, u[i as int].name@));
                                    } else {
                                        assert(name_before(u[i as int].name@, u[i3].name@));
                                    }
                                }
                            }
                        }
                        assert forall|s: Set<int>| holds_roots(u, roots@, s) implies forall|a: int| 0 <= a < pending@.len() ==> s.contains(#[trigger] pending@[a] as int) by {
                            assert(lists(roots@, u[i as int].name@)) by {
                                assert(roots@[k as int]@ == u[i as int].name@);
                            }
                            assert forall|a: int| 0 <= a < pending@.len() implies s.contains(#[trigger] pending@[a] as int) by {
                                if a < before.len() {
                                    assert(pending@[a] == before[a]);
                                }
                            }
                        }
                    }
                },
            }
        }
        proof {
            assert forall|i: int| 0 <= i < u.len() && lists(roots@, u[i].name@) implies #[trigger] pending@.contains(i as usize) by {
                let k2 = choose|k2: int| 0 <= k2 < roots@.len() && #[trigger] roots@[k2]@ == u[i].name@;
                assert(roots@.take(roots@.len() as int)[k2] == roots@[k2]);
            }
        }
        let ghost n = u.len();
        let total = us.len();
        assert(n == total);
        while pending.len() > 0
            invariant
                n <= usize::MAX,
                u == us@,
                self.well_formed(),
                u == self.units@,
                chosen@.len() == n,
                n == u.len(),
                all_known(u, roots@),
                forall|a: int| 0 <= a < pending@.len() ==> (#[trigger] pending@[a]) < n,
                forall|i: int| 0 <= i < n && lists(roots@, u[i].name@) ==> chosen@[i] || pending@.contains(i as usize),
                forall|i: int, j: int| #![trigger chosen@[i], needs(u, i, j)] 0 <= i < n && 0 <= j < n && chosen@[i] && needs(u, i, j)
                    ==> chosen@[j] || pending@.contains(j as usize),
                forall|s: Set<int>| holds_roots(u, roots@, s) && #[trigger] closed_under_needs(u, s)
                    ==> (forall|a: int| 0 <= a < pending@.len() ==> s.contains(#[trigger] pending@[a] as int))
                        && (forall|x: int| 0 <= x < n && #[trigger] chosen@[x] ==> s.contains(x)),
            decreases n - count_set(chosen@), pending@.len(),
        {
            let ghost before = pending@;
            let ghost old_chosen = chosen@;
            let x = pending.pop().unwrap();
            assert(before == pending@.push(x));
            assert(before[before.len() - 1] == x);
            if chosen[x] {
                proof {
                    assert forall|i: int| 0 <= i < n && lists(roots@, u[i].name@) implies chosen@[i] || pending@.contains(i as usize) by {
                        if !chosen@[i] {
                            let a = choose|a: int| 0 <= a < before.len() && before[a] == i as usize;
                            if a == before.len() - 1 {
                                assert(i == x as int);
                            }
                            assert(a < pending@.len());
                            assert(pending@[a] == before[a]);
                        }
                    }
                    assert forall|i: int, j: int| #![trigger chosen@[i], needs(u, i, j)] 0 <= i < n && 0 <= j < n && chosen@[i] && needs(u, i, j)
                        implies chosen@[j] || pending@.contains(j as usize) by {
                        if !chosen@[j] {
                            let a = choose|a: int| 0 <= a < before.len() && before[a] == j as usize;
                            if a == before.len() - 1 {
                                assert(j == x as int);
                            }
                            assert(a < pending@.len());
                            assert(pending@[a] == before[a]);
                        }
                    }
                    assert forall|s: Set<int>| holds_roots(u, roots@, s) && #[trigger] closed_under_needs(u, s)
                        implies (forall|a: int| 0 <= a < pending@.len() ==> s.contains(#[trigger] pending@[a] as int)) by {
                        assert forall|a: int| 0 <= a < pending@.len() implies s.contains(#[trigger] pending@[a] as int) by {
                            assert(pending@[a] == before[a]);
                        }
                    }
                }
                continue;
            }
            proof {
                lemma_count_set(chosen@, x as int);
            }
            chosen.set(x, true);
            proof {
                lemma_count_bounded(chosen@);
            }
            let wanted = us[x].needs();
            let ghost mid = pending@;
            for k in 0..wanted.len()
                invariant
                    u == us@,
                    sorted_by_name(u),
                    x < n,
                    n == u.len(),
                    wanted@ == u[x as int].requires@ + u[x as int].wants@,
                    forall|a: int| 0 <= a < pending@.len() ==> (#[trigger] pending@[a]) < n,
                    pending@.len() >= mid.len(),
                    forall|a: int| 0 <= a < mid.len() ==> pending@[a] == #[trigger] mid[a],
                    forall|j: int| #![trigger u[j]] 0 <= j < n && lists(wanted@.take(k as int), u[j].name@)
                        ==> pending@.contains(j as usize),
                    forall|a: int| mid.len() <= a < pending@.len() ==> lists(wanted@.take(k as int), u[#[trigger] pending@[a] as int].name@),
            {
                let ghost p0 = pending@;
                if let Some(j) = position_of(us, &wanted[k]) {
                    pending.push(j);
                    proof {
                        assert(pending@[p0.len() as int] == j);
                        assert forall|j2: int| #![trigger u[j2]] 0 <= j2 < n && lists(wanted@.take(k + 1), u[j2].name@)
                            implies pending@.contains(j2 as usize) by {
                            let k2 = choose|k2: int| 0 <= k2 < k + 1 && #[trigger] wanted@.take(k + 1)[k2]@ == u[j2].name@;
                            assert(wanted@.take(k + 1)[k2] == wanted@[k2]);
                            if k2 < k {
                                assert(wanted@.take(k as int)[k2] == wanted@[k2]);
                                let a = choose|a: int| 0 <= a < p0.len() && p0[a] == j2 as usize;
                                assert(pending@[a] == p0[a]);
                            } else {
                                lemma_name_order(u[j2].name@, u[j as int].name@, u[j2].name@);
                                if j2 != j {
                                    if j2 < j {
                                        assert(name_before(u[j2].name@, u[j as int].name@));
                                    } else {
                                        assert(name_before(u[j as int].name@, u[j2].name@));
                                    }
                                }
                            }
                        }
                        assert forall|a: int| mid.len() <= a < pending@.len() implies lists(wanted@.take(k + 1), u[#[trigger] pending@[a] as int].name@) by {
                            if a < p0.len() {
                                assert(pending@[a] == p0[a]);
                                let k2 = choose|k2: int| 0 <= k2 < k && #[trigger] wanted@.take(k as int)[k2]@ == u[pending@[a] as int].name@;
                                assert(wanted@.take(k as int)[k2] == wanted@.take(k + 1)[k2]);
                            } else {
                                assert(wanted@.take(k + 1)[k as int] == wanted@[k as int]);
                                assert(wanted@[k as int]@ == u[pending@[a] as int].name@);
                            }
                        }
                    }
                } else {
                    proof {
                        assert forall|j2: int| #![trigger u[j2]] 0 <= j2 < n && lists(wanted@.take(k + 1), u[j2].name@)
                            implies pending@.contains(j2 as usize) by {
                            let k2 = choose|k2: int| 0 <= k2 < k + 1 && #[trigger] wanted@.take(k + 1)[k2]@ == u[j2].name@;
                            assert(wanted@.take(k + 1)[k2] == wanted@[k2]);
                            if k2 == k {
                                assert(named(u, j2, wanted@[k as int]@));
                            } else {
                                assert(wanted@.take(k as int)[k2] == wanted@[k2]);
                            }
                        }
                    }
                }
            }
            proof {
                let w = u[x as int].requires@ + u[x as int].wants@;
                assert(wanted@.take(wanted@.len() as int) =~= wanted@);
                assert forall|j: int| 0 <= j < n && needs(u, x as int, j) implies pending@.contains(j as usize) by {
                    if lists(u[x as int].requires@, u[j].name@) {
                        let p = choose|p: int| 0 <= p < u[x as int].requires@.len() && #[trigger] u[x as int].requires@[p]@ == u[j].name@;
                        assert(wanted@[p] == u[x as int].requires@[p]);
                        assert(wanted@.take(wanted@.len() as int)[p]@ == u[j].name@);
                    } else {
                        let p = choose|p: int| 0 <= p < u[x as int].wants@.len() && #[trigger] u[x as int].wants@[p]@ == u[j].name@;
                        assert(wanted@[u[x as int].requires@.len() + p] == u[x as int].wants@[p]);
                        assert(wanted@.take(wanted@.len() as int)[u[x as int].requires@.len() + p]@ == u[j].name@);
                    }
                }
                assert forall|i: int| 0 <= i < n && lists(roots@, u[i].name@) implies chosen@[i] || pending@.contains(i as usize) by {
                    if !chosen@[i] {
                        let a = choose|a: int| 0 <= a < before.len() && before[a] == i as usize;
                        assert(a < mid.len());
                        assert(pending@[a] == mid[a]);
                    }
                }
                assert forall|i: int, j: int| #![trigger chosen@[i], needs(u, i, j)] 0 <= i < n && 0 <= j < n && chosen@[i] && needs(u, i, j)
                    implies chosen@[j] || pending@.contains(j as usize) by {
                    if i != x && !chosen@[j] {
                        assert(old_chosen[i]);
                        let a = choose|a: int| 0 <= a < before.len() && before[a] == j as usize;
                        if a < mid.len() {
                            assert(pending@[a] == mid[a]);
                        } else {
                            assert(mid.len() == before.len() - 1);
                            assert(j == x as int);
                        }
                    }
                }
                assert forall|s: Set<int>| holds_roots(u, roots@, s) && #[trigger] closed_under_needs(u, s)
                    implies (forall|a: int| 0 <= a < pending@.len() ==> s.contains(#[trigger] pending@[a] as int))
                        && (forall|y: int| 0 <= y < n && #[trigger] chosen@[y] ==> s.contains(y)) by {
                    assert(s.contains(x as int)) by {
                        assert(before[before.len() - 1] == x);
                    }
                    assert forall|a: int| 0 <= a < pending@.len() implies s.contains(#[trigger] pending@[a] as int) by {
                        if a < mid.len() {
                            assert(pending@[a] == mid[a]);
                            assert(before[a] == mid[a]);
                        } else {
                            let k2 = choose|k2: int| 0 <= k2 < wanted@.len() && #[trigger] wanted@.take(wanted@.len() as int)[k2]@ == u[pending@[a] as int].name@;
                            assert(wanted@.take(wanted@.len() as int)[k2] == wanted@[k2]);
                            let j = pending@[a] as int;
                            if k2 < u[x as int].requires@.len() {
                                assert(u[x as int].requires@[k2] == wanted@[k2]);
                                assert(lists(u[x as int].requires@, u[j].name@));
                            } else {
                                assert(u[x as int].wants@[k2 - u[x as int].requires@.len()] == wanted@[k2]);
                                assert(lists(u[x as int].wants@, u[j].name@));
                            }
                            assert(needs(u, x as int, j));
                        }
                    }
                    assert forall|y: int| 0 <= y < n && #[trigger] chosen@[y] implies s.contains(y) by {
                        if y != x {
                            assert(old_chosen[y]);
                        }
                    }
                }
            }
        }
        proof {
            let c = set_of(chosen@);
            assert forall|i: int| 0 <= i < u.len() && lists(roots@, u[i].name@) implies #[trigger] c.contains(i) by {
                assert(chosen@[i]);
            }
            assert forall|i: int, j: int| #![trigger c.contains(i), needs(u, i, j)] 0 <= i < u.len() && 0 <= j < u.len() && c.contains(i) && needs(u, i, j)
                implies c.contains(j) by {
                assert(chosen@[i]);
            }
            assert forall|s: Set<int>| holds_roots(u, roots@, s) && #[trigger] closed_under_needs(u, s) implies c.subset_of(s) by {
                assert forall|x: int| c.contains(x) implies s.contains(x) by {
                    assert(chosen@[x]);
                }
            }
        }
        Ok(chosen)
    }
}

impl Graph {
    /// The first unit pulled in that requires or wants `name`, or `name` itself.
    fn who_asked_for(&self, name: &String, chosen: &Vec<bool>) -> (r: String)
        requires
            chosen@.len() == self.units@.len(),
        ensures
            asked_by(self.units@, set_of(chosen@), name@, r@),
    {
        let ghost c = set_of(chosen@);
        let ghost u = self.units@;
        for j in 0..self.units.len()
            invariant
                chosen@.len() == u.len(),
                u == self.units@,
                c == set_of(chosen@),
                forall|j2: int| 0 <= j2 < j && c.contains(j2) ==> !#[trigger] asks_for(u, j2, name@),
        {
            if chosen[j] {
                let wanted = self.units[j].needs();
                if listed(&wanted, name) {
                    assert(c.contains(j as int) && asks_for(u, j as int, name@));
                    return self.units[j].name.clone();
                }
            }
        }
        proof {
            assert forall|j: int| c.contains(j) implies !#[trigger] asks_for(u, j, name@) by {}
        }
        name.clone()
    }

    /// The first clash among the units pulled in, if there is one.
    fn check_nothing_conflicts(&self, chosen: &Vec<bool>) -> (r: Result<(), Trouble>)
        requires
            self.well_formed(),
            chosen@.len() == self.units@.len(),
        ensures
            match r {
                Ok(()) => no_clash(self.units@, set_of(chosen@)),
                Err(Trouble::Incompatible { unit, with, pulled_in_by }) => exists|i: int, p: int|
                    first_clash(self.units@, set_of(chosen@), i, p) && unit@ == self.units@[i].name@
                        && with@ == self.units@[i].conflicts@[p]@
                        && asked_by(self.units@, set_of(chosen@), with@, pulled_in_by@),
                Err(_) => false,
            },
    {
        let ghost c = set_of(chosen@);
        let ghost u = self.units@;
        for i in 0..self.units.len()
            invariant
                self.well_formed(),
                chosen@.len() == u.len(),
                u == self.units@,
                c == set_of(chosen@),
                forall|i2: int, q: int| 0 <= i2 < i ==> !#[trigger] clashes(u, c, i2, q),
        {
            if chosen[i] {
                let unit = &self.units[i];
                for p in 0..unit.conflicts.len()
                    invariant
                        self.well_formed(),
                        chosen@.len() == u.len(),
                        u == self.units@,
                        c == set_of(chosen@),
                        i < u.len(),
                        *unit == u[i as int],
                        chosen@[i as int],
                        forall|i2: int, q: int| 0 <= i2 < i ==> !#[trigger] clashes(u, c, i2, q),
                        forall|q: int| 0 <= q < p ==> !#[trigger] clashes(u, c, i as int, q),
                {
                    match position_of(&self.units, &unit.conflicts[p]) {
                        Some(j) => {
                            if chosen[j] {
                                let by = self.who_asked_for(&unit.conflicts[p], chosen);
                                assert(clashes(u, c, i as int, p as int)) by {
                                    assert(c.contains(j as int) && named(u, j as int, u[i as int].conflicts@[p as int]@));
                                }
                                let with = unit.conflicts[p].clone();
                                assert(first_clash(u, c, i as int, p as int));
                                assert(with@ == u[i as int].conflicts@[p as int]@);
                                return Err(Trouble::Incompatible {
                                    unit: unit.name.clone(),
                                    with,
                                    pulled_in_by: by,
                                });
                            } else {
                                assert(!clashes(u, c, i as int, p as int)) by {
                                    if named_in(u, c, u[i as int].conflicts@[p as int]@) {
                                        let j2 = choose|j2: int| c.contains(j2) && #[trigger] named(u, j2, u[i as int].conflicts@[p as int]@);
                                        lemma_unique_names(u, j as int, j2, u[i as int].conflicts@[p as int]@);
                                    }
                                }
                            }
                        },
                        None => {
                            assert(!clashes(u, c, i as int, p as int));
                        },
                    }
                }
                assert forall|q: int| !#[trigger] clashes(u, c, i as int, q) by {}
            } else {
                assert forall|q: int| !#[trigger] clashes(u, c, i as int, q) by {}
            }
        }
        Ok(())
    }

    /// The names of the units marked in `m`, in name order.
    fn names_marked(&self, m: &Vec<bool>) -> (r: Vec<String>)
        requires
            self.well_formed(),
            m@.len() == self.units@.len(),
        ensures
            strictly_sorted(r@),
            all_units(self.units@, r@),
            chosen_by_name(self.units@, r@) == set_of(m@),
    {
        let ghost u = self.units@;
        let mut r: Vec<String> = Vec::new();
        let ghost mut at: Seq<int> = Seq::empty();
        for i in 0..self.units.len()
            invariant
                self.well_formed(),
                u == self.units@,
                m@.len() == u.len(),
                at.len() == r@.len(),
                forall|k: int| 0 <= k < at.len() ==> 0 <= #[trigger] at[k] < i && m@[at[k]] && r@[k]@ == u[at[k]].name@,
                forall|a: int, b: int| 0 <= a < b < at.len() ==> at[a] < at[b],
                forall|x: int| 0 <= x < i && m@[x] ==> exists|k: int| 0 <= k < at.len() && #[trigger] at[k] == x,
        {
            if m[i] {
                r.push(self.units[i].name.clone());
                proof {
                    let old_at = at;
                    at = at.push(i as int);
                    assert forall|x: int| 0 <= x < i + 1 && m@[x] implies exists|k: int| 0 <= k < at.len() && #[trigger] at[k] == x by {
                        if x < i {
                            let k = choose|k: int| 0 <= k < old_at.len() && #[trigger] old_at[k] == x;
                            assert(at[k] == x);
                        } else {
                            assert(at[at.len() - 1] == x);
                        }
                    }
                }
            }
        }
        proof {
            assert forall|a: int, b: int| 0 <= a < b < r@.len() implies name_before(#[trigger] r@[a]@, #[trigger] r@[b]@) by {
                assert(at[a] < at[b]);
            }
            assert forall|k: int| 0 <= k < r@.len() implies has_unit(u, #[trigger] r@[k]@) by {
                assert(named(u, at[k], r@[k]@));
            }
            assert forall|i: int| chosen_by_name(u, r@).contains(i) == set_of(m@).contains(i) by {
                if chosen_by_name(u, r@).contains(i) {
                    let k = choose|k: int| 0 <= k < r@.len() && #[trigger] r@[k]@ == u[i].name@;
                    lemma_unique_names(u, i, at[k], u[i].name@);
                }
                if set_of(m@).contains(i) {
                    let k = choose|k: int| 0 <= k < at.len() && #[trigger] at[k] == i;
                    assert(r@[k]@ == u[i].name@);
                }
            }
            assert(chosen_by_name(u, r@) =~= set_of(m@));
        }
        r
    }

    /// What starting `roots` pulls in, as marks by position.
    fn pull_mask(&self, roots: &[String]) -> (r: Result<Vec<bool>, Trouble>)
        requires
            self.well_formed(),
        ensures
            match r {
                Ok(m) => {
                    &&& m@.len() == self.units@.len()
                    &&& all_known(self.units@, roots@)
                    &&& pulled_in(self.units@, roots@, set_of(m@))
                    &&& no_clash(self.units@, set_of(m@))
                },
                Err(Trouble::Unknown(n)) => first_unknown(self.spec_units(), roots@, n@),
                Err(Trouble::Incompatible { unit, with, pulled_in_by }) => {
                    &&& all_known(self.spec_units(), roots@)
                    &&& exists|c: Set<int>, i: int, p: int| pulled_in(self.spec_units(), roots@, c)
                        && first_clash(self.spec_units(), c, i, p) && unit@ == self.spec_units()[i].name@
                        && with@ == self.spec_units()[i].conflicts@[p]@
                        && asked_by(self.spec_units(), c, with@, pulled_in_by@)
                },
                Err(_) => false,
            },
    {
        let chosen = match self.closure(roots) {
            Ok(m) => m,
            Err(e) => {
                return Err(e);
            },
        };
        match self.check_nothing_conflicts(&chosen) {
            Ok(()) => {},
            Err(e) => {
                proof {
                    if e is Incompatible {
                        let unit = e->Incompatible_unit;
                        let with = e->Incompatible_with;
                        let pulled_in_by = e->pulled_in_by;
                        let c = set_of(chosen@);
                        let (i, p) = choose|i: int, p: int|
                            first_clash(self.units@, c, i, p) && unit@ == self.units@[i].name@
                                && with@ == self.units@[i].conflicts@[p]@
                                && asked_by(self.units@, c, with@, pulled_in_by@);
                        assert(pulled_in(self.spec_units(), roots@, c) && first_clash(self.spec_units(), c, i, p));
                    }
                }
                return Err(e);
            },
        }
        Ok(chosen)
    }

    /// What starting `roots` pulls in, by name in name order: the roots and,
    /// again and again, whatever a unit pulled in requires or wants. Refuses
    /// a root that is no unit, and two units pulled in that conflict.
    pub fn pull_in(&self, roots: &[String]) -> (r: Result<Vec<String>, Trouble>)
        requires
            self.well_formed(),
        ensures
            match r {
                Ok(names) => {
                    &&& all_known(self.spec_units(), roots@)
                    &&& pulled_in(self.spec_units(), roots@, chosen_by_name(self.spec_units(), names@))
                    &&& no_clash(self.spec_units(), chosen_by_name(self.spec_units(), names@))
                    &&& strictly_sorted(names@)
                    &&& all_units(self.spec_units(), names@)
                },
                Err(t) => refused(self.spec_units(), roots@, t),
            },
            r is Ok <==> startable(self.spec_units(), roots@),
    {
        match self.pull_mask(roots) {
            Ok(chosen) => Ok(self.names_marked(&chosen)),
            Err(e) => {
                proof {
                    assert(refused(self.spec_units(), roots@, e));
                    a_refusal_means_no_start(self.spec_units(), roots@, e);
                }
                Err(e)
            },
        }
    }
}

/// `x` is marked, on no level yet, and every marked unit it starts after has a level.
pub open spec fn ready_at(us: Seq<Unit>, m: Seq<bool>, level: Seq<usize>, x: int) -> bool {
    &&& m[x]
    &&& level[x] == 0
    &&& forall|j: int| 0 <= j < us.len() && m[j] && #[trigger] follows(us, x, j) ==> level[j] != 0
}

/// Whether some marked position has no level yet.
fn exists_unplaced(m: &Vec<bool>, level: &Vec<usize>) -> (r: bool)
    requires
        m@.len() == level@.len(),
    ensures
        r == exists|x: int| 0 <= x < m@.len() && m@[x] && level@[x] == 0,
{
    for x in 0..m.len()
        invariant
            m@.len() == level@.len(),
            forall|x2: int| 0 <= x2 < x ==> !(m@[x2] && level@[x2] == 0),
    {
        if m[x] && level[x] == 0 {
            return true;
        }
    }
    false
}

impl Graph {
    /// The units that can go up now, in name order.
    fn ready_now(&self, chosen: &Vec<bool>, level: &Vec<usize>) -> (r: Vec<usize>)
        requires
            self.well_formed(),
            chosen@.len() == self.units@.len(),
            level@.len() == self.units@.len(),
        ensures
            forall|a: int, b: int| 0 <= a < b < r@.len() ==> r@[a] < r@[b],
            forall|a: int| 0 <= a < r@.len() ==> (#[trigger] r@[a]) < self.units@.len(),
            forall|x: int| 0 <= x < self.units@.len() ==> (r@.contains(x as usize) <==> ready_at(self.units@, chosen@, level@, x)),
    {
        proof {
            self.lemma_edges();
        }
        let ghost u = self.units@;
        let mut r: Vec<usize> = Vec::new();
        for i in 0..self.units.len()
            invariant
                self.well_formed(),
                u == self.units@,
                chosen@.len() == u.len(),
                level@.len() == u.len(),
                shaped(self.follows@),
                forall|x: int, j: int| 0 <= x < u.len() && 0 <= j < u.len() ==> (#[trigger] edge(self.follows@, x, j) <==> follows(u, x, j)),
                forall|a: int, b: int| 0 <= a < b < r@.len() ==> r@[a] < r@[b],
                forall|a: int| 0 <= a < r@.len() ==> (#[trigger] r@[a]) < i,
                forall|x: int| 0 <= x < i ==> (r@.contains(x as usize) <==> ready_at(u, chosen@, level@, x)),
        {
            let ghost old_r = r@;
            if chosen[i] && level[i] == 0 {
                let edges = &self.follows[i];
                let mut ok = true;
                for a in 0..edges.len()
                    invariant
                        edges == self.follows@[i as int],
                        i < u.len(),
                        chosen@.len() == u.len(),
                        level@.len() == u.len(),
                        shaped(self.follows@),
                        self.follows@.len() == u.len(),
                        ok <==> forall|b: int| 0 <= b < a ==> !(chosen@[#[trigger] edges@[b] as int] && level@[edges@[b] as int] == 0),
                {
                    let e = edges[a];
                    if chosen[e] && level[e] == 0 {
                        ok = false;
                    }
                }
                proof {
                    assert(ok <==> ready_at(u, chosen@, level@, i as int)) by {
                        if ok {
                            assert forall|j: int| 0 <= j < u.len() && chosen@[j] && #[trigger] follows(u, i as int, j) implies level@[j] != 0 by {
                                assert(edge(self.follows@, i as int, j));
                                let b = choose|b: int| 0 <= b < edges@.len() && edges@[b] == j as usize;
                                assert(edges@[b] as int == j);
                            }
                        } else {
                            let b = choose|b: int| 0 <= b < edges@.len() && (chosen@[#[trigger] edges@[b] as int] && level@[edges@[b] as int] == 0);
                            let j = edges@[b] as int;
                            assert(edge(self.follows@, i as int, j));
                        }
                    }
                }
                if ok {
                    r.push(i);
                    proof {
                        assert(r@[old_r.len() as int] == i);
                        assert forall|x: int| 0 <= x < i + 1 implies (#[trigger] r@.contains(x as usize) <==> ready_at(u, chosen@, level@, x)) by {
                            if x < i {
                                if r@.contains(x as usize) {
                                    let a = choose|a: int| 0 <= a < r@.len() && r@[a] == x as usize;
                                    assert(a < old_r.len());
                                    assert(old_r[a] == r@[a]);
                                }
                                if old_r.contains(x as usize) {
                                    let a = choose|a: int| 0 <= a < old_r.len() && old_r[a] == x as usize;
                                    assert(old_r[a] == r@[a]);
                                }
                            }
                        }
                    }
                } else {
                    proof {
                        assert forall|x: int| 0 <= x < i + 1 implies (#[trigger] r@.contains(x as usize) <==> ready_at(u, chosen@, level@, x)) by {
                            if x == i && r@.contains(x as usize) {
                                let a = choose|a: int| 0 <= a < r@.len() && r@[a] == x as usize;
                            }
                        }
                    }
                }
            } else {
                proof {
                    assert forall|x: int| 0 <= x < i + 1 implies (#[trigger] r@.contains(x as usize) <==> ready_at(u, chosen@, level@, x)) by {
                        if x == i && r@.contains(x as usize) {
                            let a = choose|a: int| 0 <= a < r@.len() && r@[a] == x as usize;
                        }
                    }
                }
            }
        }
        r
    }
}

spec fn below(lv: Seq<usize>, d: int) -> bool {
    forall|x: int| 0 <= x < lv.len() ==> #[trigger] lv[x] <= d
}

spec fn placed_chosen(m: Seq<bool>, lv: Seq<usize>) -> bool {
    forall|x: int| 0 <= x < lv.len() && lv[x] != 0 ==> #[trigger] m[x]
}

/// A placed unit sits above every marked unit it starts after, and these are placed too.
spec fn ordered(u: Seq<Unit>, c: Set<int>, lv: Seq<usize>) -> bool {
    forall|i: int, j: int| c.contains(i) && c.contains(j) && #[trigger] follows(u, i, j) && lv[i] != 0
        ==> lv[j] != 0 && lv[j] < lv[i]
}

/// Off the bottom level, a placed unit sits right above one it starts after.
spec fn steps_down(u: Seq<Unit>, c: Set<int>, lv: Seq<usize>) -> bool {
    forall|i: int| #[trigger] c.contains(i) && lv[i] > 1 ==> exists|j: int| c.contains(j) && #[trigger] follows(u, i, j) && lv[j] == lv[i] - 1
}

/// After round `d`, a unit still unplaced waits on one unplaced or placed in round `d`.
spec fn waiting(u: Seq<Unit>, c: Set<int>, lv: Seq<usize>, d: int) -> bool {
    forall|i: int| #[trigger] c.contains(i) && lv[i] == 0 && d >= 1 ==> exists|j: int| c.contains(j) && #[trigger] follows(u, i, j) && (lv[j] == 0 || lv[j] == d)
}

spec fn wave_ok(u: Seq<Unit>, c: Set<int>, lv: Seq<usize>, w: Seq<String>, k: int) -> bool {
    &&& w.len() > 0
    &&& strictly_sorted(w)
    &&& all_units(u, w)
    &&& chosen_by_name(u, w) == Set::new(|i: int| c.contains(i) && lv[i] == k + 1)
}

/// What a round does to the levels: the ready units go up on level `d0 + 1`.
spec fn round(m: Seq<bool>, before: Seq<usize>, after: Seq<usize>, rs: Seq<usize>, d0: int) -> bool {
    &&& before.len() == m.len()
    &&& after.len() == m.len()
    &&& m.len() <= usize::MAX
    &&& 0 <= d0 < usize::MAX
    &&& forall|x: int| 0 <= x < m.len() ==> #[trigger] after[x] == if rs.contains(x as usize) { (d0 + 1) as usize } else { before[x] }
}

spec fn ready_list(u: Seq<Unit>, m: Seq<bool>, before: Seq<usize>, rs: Seq<usize>) -> bool {
    forall|x: int| 0 <= x < m.len() ==> (#[trigger] rs.contains(x as usize) <==> ready_at(u, m, before, x))
}

proof fn lemma_round_placed(u: Seq<Unit>, m: Seq<bool>, before: Seq<usize>, after: Seq<usize>, rs: Seq<usize>, d0: int)
    requires
        u.len() == m.len(),
        round(m, before, after, rs, d0),
        ready_list(u, m, before, rs),
        below(before, d0),
        placed_chosen(m, before),
    ensures
        below(after, d0 + 1),
        placed_chosen(m, after),
        forall|x: int| 0 <= x < m.len() && rs.contains(x as usize) ==> #[trigger] before[x] == 0,
{
    let n = m.len();
    assert forall|x: int| 0 <= x < n && rs.contains(x as usize) implies #[trigger] before[x] == 0 by {
        assert(ready_at(u, m, before, x));
    }
    assert forall|x: int| 0 <= x < n && after[x] != 0 implies #[trigger] m[x] by {
        if rs.contains(x as usize) {
            assert(ready_at(u, m, before, x));
        }
    }
    assert forall|x: int| 0 <= x < n implies #[trigger] after[x] <= d0 + 1 by {}
}

proof fn lemma_round_ordered(u: Seq<Unit>, m: Seq<bool>, before: Seq<usize>, after: Seq<usize>, rs: Seq<usize>, d0: int)
    requires
        u.len() == m.len(),
        round(m, before, after, rs, d0),
        ready_list(u, m, before, rs),
        below(before, d0),
        ordered(u, set_of(m), before),
    ensures
        ordered(u, set_of(m), after),
{
    let c = set_of(m);
    assert forall|i: int, j: int| c.contains(i) && c.contains(j) && #[trigger] follows(u, i, j) && after[i] != 0
        implies after[j] != 0 && after[j] < after[i] by {
        if rs.contains(i as usize) {
            assert(ready_at(u, m, before, i));
            assert(before[j] != 0);
        } else {
            assert(before[j] != 0);
        }
        if rs.contains(j as usize) {
            assert(ready_at(u, m, before, j));
        }
    }
}

proof fn lemma_round_steps(u: Seq<Unit>, m: Seq<bool>, before: Seq<usize>, after: Seq<usize>, rs: Seq<usize>, d0: int)
    requires
        u.len() == m.len(),
        round(m, before, after, rs, d0),
        ready_list(u, m, before, rs),
        steps_down(u, set_of(m), before),
        waiting(u, set_of(m), before, d0),
    ensures
        steps_down(u, set_of(m), after),
{
    let c = set_of(m);
    assert forall|i: int| #[trigger] c.contains(i) && after[i] > 1 implies exists|j: int| c.contains(j) && #[trigger] follows(u, i, j) && after[j] == after[i] - 1 by {
        if rs.contains(i as usize) {
            assert(ready_at(u, m, before, i));
            let j = choose|j: int| c.contains(j) && #[trigger] follows(u, i, j) && (before[j] == 0 || before[j] == d0);
            assert(before[j] != 0);
            if rs.contains(j as usize) {
                assert(ready_at(u, m, before, j));
            }
            assert(after[j] == after[i] - 1);
        } else {
            let j = choose|j: int| c.contains(j) && #[trigger] follows(u, i, j) && before[j] == before[i] - 1;
            if rs.contains(j as usize) {
                assert(ready_at(u, m, before, j));
            }
        }
    }
}

proof fn lemma_round_waiting(u: Seq<Unit>, m: Seq<bool>, before: Seq<usize>, after: Seq<usize>, rs: Seq<usize>, d0: int)
    requires
        u.len() == m.len(),
        round(m, before, after, rs, d0),
        ready_list(u, m, before, rs),
    ensures
        waiting(u, set_of(m), after, d0 + 1),
{
    let c = set_of(m);
    assert forall|i: int| #[trigger] c.contains(i) && after[i] == 0 && d0 + 1 >= 1 implies exists|j: int| c.contains(j) && #[trigger] follows(u, i, j) && (after[j] == 0 || after[j] == d0 + 1) by {
        assert(!rs.contains(i as usize));
        assert(!ready_at(u, m, before, i));
        let j = choose|j: int| 0 <= j < u.len() && m[j] && #[trigger] follows(u, i, j) && before[j] == 0;
        assert(c.contains(j));
    }
}

proof fn lemma_old_wave(u: Seq<Unit>, m: Seq<bool>, before: Seq<usize>, after: Seq<usize>, rs: Seq<usize>, d0: int, w: Seq<String>, k: int)
    requires
        round(m, before, after, rs, d0),
        0 <= k < d0,
        wave_ok(u, set_of(m), before, w, k),
        forall|x: int| 0 <= x < m.len() && rs.contains(x as usize) ==> #[trigger] before[x] == 0,
    ensures
        wave_ok(u, set_of(m), after, w, k),
{
    let c = set_of(m);
    assert(Set::new(|i: int| c.contains(i) && after[i] == k + 1) =~= Set::new(|i: int| c.contains(i) && before[i] == k + 1)) by {
        assert forall|i: int| c.contains(i) implies (after[i] == k + 1 <==> before[i] == k + 1) by {
            assert(after[i] == if rs.contains(i as usize) { (d0 + 1) as usize } else { before[i] });
        }
    }
}

proof fn lemma_new_wave(u: Seq<Unit>, m: Seq<bool>, before: Seq<usize>, after: Seq<usize>, rs: Seq<usize>, d0: int, w: Seq<String>)
    requires
        sorted_by_name(u),
        u.len() == m.len(),
        after.len() == m.len(),
        before.len() == m.len(),
        d0 >= 0,
        rs.len() > 0,
        w.len() == rs.len(),
        forall|a: int, b: int| 0 <= a < b < rs.len() ==> rs[a] < rs[b],
        forall|a: int| 0 <= a < rs.len() ==> (#[trigger] rs[a]) < m.len(),
        forall|a: int| 0 <= a < w.len() ==> (#[trigger] w[a])@ == u[rs[a] as int].name@,
        ready_list(u, m, before, rs),
        forall|x: int| 0 <= x < m.len() && rs.contains(x as usize) ==> #[trigger] before[x] == 0,
        below(before, d0),
        round(m, before, after, rs, d0),
    ensures
        wave_ok(u, set_of(m), after, w, d0),
{
    let c = set_of(m);
    assert forall|a: int, b: int| 0 <= a < b < w.len() implies name_before(#[trigger] w[a]@, #[trigger] w[b]@) by {
        assert(rs[a] < rs[b]);
    }
    assert forall|a: int| 0 <= a < w.len() implies has_unit(u, #[trigger] w[a]@) by {
        assert(named(u, rs[a] as int, w[a]@));
    }
    assert(chosen_by_name(u, w) =~= Set::new(|i: int| c.contains(i) && after[i] == d0 + 1)) by {
        assert forall|i: int| chosen_by_name(u, w).contains(i) implies c.contains(i) && after[i] == d0 + 1 by {
            let a = choose|a: int| 0 <= a < w.len() && #[trigger] w[a]@ == u[i].name@;
            lemma_unique_names(u, i, rs[a] as int, u[i].name@);
            assert(rs.contains(i as usize));
            assert(ready_at(u, m, before, i));
        }
        assert forall|i: int| c.contains(i) && after[i] == d0 + 1 implies chosen_by_name(u, w).contains(i) by {
            if !rs.contains(i as usize) {
                assert(before[i] <= d0);
            }
            let a = choose|a: int| 0 <= a < rs.len() && rs[a] == i as usize;
            assert(w[a]@ == u[i].name@);
        }
    }
}

impl Graph {
    /// Sorts the units marked in `chosen` into waves: a unit goes up in the
    /// first wave after every marked unit it starts after is up.
    fn layers(&self, chosen: &Vec<bool>) -> (r: Vec<Vec<String>>)
        requires
            self.well_formed(),
            chosen@.len() == self.units@.len(),
        ensures
            exists|level: Seq<int>| layered_by(self.units@, set_of(chosen@), level)
                && waves_from(self.units@, set_of(chosen@), level, views(r@)),
    {
        let ghost u = self.units@;
        let ghost c = set_of(chosen@);
        let n = self.units.len();
        let mut level: Vec<usize> = Vec::new();
        for i in 0..n
            invariant
                level@.len() == i,
                forall|x: int| 0 <= x < i ==> level@[x] == 0,
        {
            level.push(0);
        }
        let mut waves: Vec<Vec<String>> = Vec::new();
        let mut d: usize = 0;
        proof {
            lemma_count_bounded(unplaced(chosen@, level@));
        }
        while exists_unplaced(chosen, &level)
            invariant
                self.well_formed(),
                u == self.units@,
                n == u.len(),
                c == set_of(chosen@),
                chosen@.len() == n,
                level@.len() == n,
                d == waves@.len(),
                d <= n - count_set(unplaced(chosen@, level@)),
                count_set(unplaced(chosen@, level@)) <= n,
                below(level@, d as int),
                placed_chosen(chosen@, level@),
                ordered(u, c, level@),
                steps_down(u, c, level@),
                waiting(u, c, level@, d as int),
                forall|k: int| 0 <= k < d ==> wave_ok(u, c, level@, #[trigger] waves@[k]@, k),
            decreases count_set(unplaced(chosen@, level@)),
        {
            let ready = self.ready_now(chosen, &level);
            proof {
                let rank = choose|r: Seq<int>| ranked(u, r);
                let lo = lemma_lowest(rank, chosen@, level@, n as int);
                assert(ready_at(u, chosen@, level@, lo)) by {
                    assert forall|j: int| 0 <= j < u.len() && chosen@[j] && #[trigger] follows(u, lo, j) implies level@[j] != 0 by {
                        assert(rank[j] < rank[lo]);
                    }
                }
                assert(ready@.contains(lo as usize));
                let um = unplaced(chosen@, level@);
                lemma_count_shrinks(um, um.update(lo, false), lo);
            }
            let ghost before = level@;
            let ghost d0 = d as int;
            d = d + 1;
            let mut wave: Vec<String> = Vec::new();
            for a in 0..ready.len()
                invariant
                    u == self.units@,
                    n == u.len(),
                    level@.len() == n,
                    forall|a2: int, b2: int| 0 <= a2 < b2 < ready@.len() ==> ready@[a2] < ready@[b2],
                    forall|a2: int| 0 <= a2 < ready@.len() ==> (#[trigger] ready@[a2]) < n,
                    wave@.len() == a,
                    forall|a2: int| 0 <= a2 < a ==> (#[trigger] wave@[a2])@ == u[ready@[a2] as int].name@,
                    forall|x: int| 0 <= x < n ==> #[trigger] level@[x] == if (exists|a2: int| 0 <= a2 < a && ready@[a2] == x) { d as usize } else { before[x] },
            {
                level.set(ready[a], d);
                wave.push(self.units[ready[a]].name.clone());
            }
            proof {
                let after = level@;
                let rs = ready@;
                assert forall|x: int| 0 <= x < n implies #[trigger] after[x] == if rs.contains(x as usize) { (d0 + 1) as usize } else { before[x] } by {}
                assert(round(chosen@, before, after, rs, d0));
                assert(ready_list(u, chosen@, before, rs));
                lemma_round_placed(u, chosen@, before, after, rs, d0);
                lemma_round_ordered(u, chosen@, before, after, rs, d0);
                lemma_round_steps(u, chosen@, before, after, rs, d0);
                lemma_round_waiting(u, chosen@, before, after, rs, d0);
                let um0 = unplaced(chosen@, before);
                let um1 = unplaced(chosen@, after);
                let lo = choose|x: int| 0 <= x < n && #[trigger] rs.contains(x as usize);
                assert(ready_at(u, chosen@, before, lo));
                assert(um0[lo] && !um1[lo]);
                lemma_count_shrinks(um0, um1, lo);
                lemma_count_bounded(um1);
                lemma_new_wave(u, chosen@, before, after, rs, d0, wave@);
                assert forall|k: int| 0 <= k < d0 implies wave_ok(u, c, after, #[trigger] waves@[k]@, k) by {
                    lemma_old_wave(u, chosen@, before, after, rs, d0, waves@[k]@, k);
                }
            }
            let ghost old_waves = waves@;
            waves.push(wave);
            proof {
                assert forall|k: int| 0 <= k < d implies wave_ok(u, c, level@, #[trigger] waves@[k]@, k) by {
                    if k < d0 {
                        assert(waves@[k] == old_waves[k]);
                    }
                }
            }
        }
        let ghost lv = level@.map_values(|x: usize| x as int);
        proof {
            assert forall|i: int| #[trigger] c.contains(i) implies lv[i] >= 1 by {
                if level@[i] == 0 {
                    assert(chosen@[i]);
                }
            }
            assert forall|i: int, j: int| c.contains(i) && c.contains(j) && #[trigger] follows(u, i, j) implies lv[j] < lv[i] by {
                assert(lv[i] >= 1);
            }
            assert forall|i: int| #[trigger] c.contains(i) && lv[i] > 1 implies exists|j: int| c.contains(j) && #[trigger] follows(u, i, j) && lv[j] == lv[i] - 1 by {
                let j = choose|j: int| c.contains(j) && #[trigger] follows(u, i, j) && level@[j] == level@[i] - 1;
                assert(lv[j] == lv[i] - 1);
            }
            assert(layered_by(u, c, lv));
            assert forall|k: int| 0 <= k < views(waves@).len() implies (#[trigger] views(waves@)[k]).len() > 0
                && strictly_sorted(views(waves@)[k]) && all_units(u, views(waves@)[k])
                && chosen_by_name(u, views(waves@)[k]) == Set::new(|i: int| c.contains(i) && lv[i] == k + 1) by {
                assert(views(waves@)[k] == waves@[k]@);
                assert(wave_ok(u, c, level@, waves@[k]@, k));
                assert(Set::new(|i: int| c.contains(i) && lv[i] == k + 1) =~= Set::new(|i: int| c.contains(i) && level@[i] == k + 1));
            }
            assert forall|i: int| #[trigger] c.contains(i) implies lv[i] <= views(waves@).len() by {}
            assert(waves_from(u, c, lv, views(waves@)));
        }
        waves
    }
}

impl Graph {
    /// The waves in which starting `roots` brings units up: every unit goes
    /// up in the first wave after all the units pulled in that it starts after.
    pub fn waves(&self, roots: &[String]) -> (r: Result<Vec<Vec<String>>, Trouble>)
        requires
            self.well_formed(),
        ensures
            match r {
                Ok(w) => start_waves(self.spec_units(), roots@, views(w@)),
                Err(t) => refused(self.spec_units(), roots@, t),
            },
            r is Ok <==> startable(self.spec_units(), roots@),
    {
        match self.pull_mask(roots) {
            Ok(chosen) => {
                let w = self.layers(&chosen);
                Ok(w)
            },
            Err(e) => {
                proof {
                    a_refusal_means_no_start(self.spec_units(), roots@, e);
                }
                Err(e)
            },
        }
    }

    /// Starting `roots`, one unit after the other: the waves in turn.
    pub fn start_order(&self, roots: &[String]) -> (r: Result<Vec<String>, Trouble>)
        requires
            self.well_formed(),
        ensures
            match r {
                Ok(order) => exists|w: Seq<Seq<String>>| start_waves(self.spec_units(), roots@, w) && order@ == w.flatten(),
                Err(t) => refused(self.spec_units(), roots@, t),
            },
            r is Ok <==> startable(self.spec_units(), roots@),
    {
        let waves = match self.waves(roots) {
            Ok(w) => w,
            Err(e) => {
                return Err(e);
            },
        };
        let mut order: Vec<String> = Vec::new();
        for k in 0..waves.len()
            invariant
                order@ == views(waves@).take(k as int).flatten(),
        {
            let wave = &waves[k];
            let ghost before = order@;
            for a in 0..wave.len()
                invariant
                    order@ == before + wave@.take(a as int),
            {
                order.push(wave[a].clone());
                assert(wave@.take(a + 1) =~= wave@.take(a as int).push(wave@[a as int]));
            }
            proof {
                assert(wave@.take(wave@.len() as int) =~= wave@);
                assert(views(waves@).take(k + 1) =~= views(waves@).take(k as int).push(wave@));
                views(waves@).take(k as int).lemma_flatten_push(wave@);
            }
        }
        assert(views(waves@).take(waves@.len() as int) =~= views(waves@));
        Ok(order)
    }

    /// Stopping `roots`: the start order backwards.
    pub fn stop_order(&self, roots: &[String]) -> (r: Result<Vec<String>, Trouble>)
        requires
            self.well_formed(),
        ensures
            match r {
                Ok(order) => exists|w: Seq<Seq<String>>| start_waves(self.spec_units(), roots@, w) && order@ == w.flatten().reverse(),
                Err(t) => refused(self.spec_units(), roots@, t),
            },
            r is Ok <==> startable(self.spec_units(), roots@),
    {
        let up = match self.start_order(roots) {
            Ok(o) => o,
            Err(e) => {
                return Err(e);
            },
        };
        let mut order: Vec<String> = Vec::new();
        let mut k = up.len();
        while k > 0
            invariant
                k <= up@.len(),
                order@ == up@.skip(k as int).reverse(),
            decreases k,
        {
            k = k - 1;
            order.push(up[k].clone());
            assert(up@.skip(k as int).reverse() =~= up@.skip(k + 1).reverse().push(up@[k as int]));
        }
        assert(up@.skip(0) =~= up@);
        Ok(order)
    }
}

impl Graph {
    /// The units of `chosen`, in its order, that can go up now that the units
    /// of `already_up` are up.
    pub fn ready(&self, chosen: &[String], already_up: &[String]) -> (r: Vec<String>)
        requires
            self.well_formed(),
            strictly_sorted(chosen@),
            pending_known(self.spec_units(), chosen@, already_up@),
        ensures
            strictly_sorted(r@),
            forall|k: int| 0 <= k < r@.len() ==> lists(chosen@, #[trigger] r@[k]@) && ready_name(self.spec_units(), chosen@, already_up@, r@[k]@),
            forall|k: int| 0 <= k < chosen@.len() && ready_name(self.spec_units(), chosen@, already_up@, #[trigger] chosen@[k]@) ==> lists(r@, chosen@[k]@),
    {
        proof {
            self.lemma_edges();
        }
        let ghost u = self.units@;
        let total = self.units.len();
        let mut r: Vec<String> = Vec::new();
        let ghost mut at: Seq<int> = Seq::empty();
        for k in 0..chosen.len()
            invariant
                self.well_formed(),
                u == self.units@,
                u.len() == total,
                strictly_sorted(chosen@),
                pending_known(u, chosen@, already_up@),
                shaped(self.follows@),
                forall|x: int, j: int| 0 <= x < u.len() && 0 <= j < u.len() ==> (#[trigger] edge(self.follows@, x, j) <==> follows(u, x, j)),
                at.len() == r@.len(),
                forall|a: int| 0 <= a < at.len() ==> 0 <= #[trigger] at[a] < k && r@[a] == chosen@[at[a]] && ready_name(u, chosen@, already_up@, r@[a]@),
                forall|a: int, b: int| 0 <= a < b < at.len() ==> at[a] < at[b],
                forall|k2: int| 0 <= k2 < k && ready_name(u, chosen@, already_up@, #[trigger] chosen@[k2]@) ==> lists(r@, chosen@[k2]@),
        {
            let name = &chosen[k];
            if listed_in(already_up, name) {
                proof {
                    assert forall|k2: int| 0 <= k2 < k + 1 && ready_name(u, chosen@, already_up@, #[trigger] chosen@[k2]@) implies lists(r@, chosen@[k2]@) by {
                        if k2 == k {
                            assert(!ready_name(u, chosen@, already_up@, name@));
                        }
                    }
                }
            } else {
                let i = match position_of(&self.units, name) {
                    Some(i) => i,
                    None => {
                        proof {
                            assert(has_unit(u, chosen@[k as int]@));
                        }
                        return r;
                    },
                };
                let edges = &self.follows[i];
                let mut ok = true;
                for a in 0..edges.len()
                    invariant
                        edges == self.follows@[i as int],
                        i < u.len(),
                        u == self.units@,
                        shaped(self.follows@),
                        self.follows@.len() == u.len(),
                        ok <==> forall|b: int| 0 <= b < a ==> !(lists(chosen@, u[#[trigger] edges@[b] as int].name@) && !lists(already_up@, u[edges@[b] as int].name@)),
                {
                    let e = edges[a];
                    if listed_in(chosen, &self.units[e].name) && !listed_in(already_up, &self.units[e].name) {
                        ok = false;
                    }
                }
                proof {
                    assert(ok <==> ready_name(u, chosen@, already_up@, name@)) by {
                        if ok {
                            assert forall|i2: int, j: int| named(u, i2, name@) && chosen_by_name(u, chosen@).contains(j) && #[trigger] follows(u, i2, j)
                                implies lists(already_up@, u[j].name@) by {
                                lemma_unique_names(u, i as int, i2, name@);
                                assert(edge(self.follows@, i as int, j));
                                let b = choose|b: int| 0 <= b < edges@.len() && edges@[b] == j as usize;
                                assert(edges@[b] as int == j);
                            }
                        } else {
                            let b = choose|b: int| 0 <= b < edges@.len() && (lists(chosen@, u[#[trigger] edges@[b] as int].name@) && !lists(already_up@, u[edges@[b] as int].name@));
                            let j = edges@[b] as int;
                            assert(edge(self.follows@, i as int, j));
                            assert(chosen_by_name(u, chosen@).contains(j));
                        }
                    }
                }
                let ghost old_r = r@;
                if ok {
                    r.push(name.clone());
                    proof {
                        let old_at = at;
                        at = at.push(k as int);
                        assert forall|k2: int| 0 <= k2 < k + 1 && ready_name(u, chosen@, already_up@, #[trigger] chosen@[k2]@) implies lists(r@, chosen@[k2]@) by {
                            if k2 == k {
                                assert(r@[r@.len() - 1] == chosen@[k as int]);
                            } else {
                                let a = choose|a: int| 0 <= a < old_r.len() && #[trigger] old_r[a]@ == chosen@[k2]@;
                                assert(r@[a] == old_r[a]);
                            }
                        }
                    }
                } else {
                    proof {
                        assert forall|k2: int| 0 <= k2 < k + 1 && ready_name(u, chosen@, already_up@, #[trigger] chosen@[k2]@) implies lists(r@, chosen@[k2]@) by {
                            if k2 == k {
                                assert(!ready_name(u, chosen@, already_up@, name@));
                            }
                        }
                    }
                }
            }
        }
        proof {
            assert forall|a: int, b: int| 0 <= a < b < r@.len() implies name_before(#[trigger] r@[a]@, #[trigger] r@[b]@) by {
                assert(at[a] < at[b]);
            }
            assert forall|k: int| 0 <= k < r@.len() implies lists(chosen@, #[trigger] r@[k]@) && ready_name(u, chosen@, already_up@, r@[k]@) by {
                assert(r@[k] == chosen@[at[k]]);
            }
        }
        r
    }
}

/// The texts of a list of names.
pub open spec fn texts(v: Seq<String>) -> Seq<Seq<char>> {
    v.map_values(|s: String| s@)
}

/// The texts of a list of waves.
pub open spec fn wave_texts(w: Seq<Seq<String>>) -> Seq<Seq<Seq<char>>> {
    w.map_values(|v: Seq<String>| texts(v))
}

proof fn lemma_pulled_in_unique(us: Seq<Unit>, roots: Seq<String>, c1: Set<int>, c2: Set<int>)
    requires
        pulled_in(us, roots, c1),
        pulled_in(us, roots, c2),
    ensures
        c1 == c2,
{
    assert(closed_under_needs(us, c2));
    assert(closed_under_needs(us, c1));
    assert(c1.subset_of(c2));
    assert(c2.subset_of(c1));
    assert(c1 =~= c2);
}

proof fn lemma_level_unique(us: Seq<Unit>, c: Set<int>, l1: Seq<int>, l2: Seq<int>, i: int)
    requires
        layered_by(us, c, l1),
        layered_by(us, c, l2),
        c.contains(i),
    ensures
        l1[i] == l2[i],
    decreases l1[i],
{
    if l2[i] > 1 {
        let j = choose|j: int| c.contains(j) && #[trigger] follows(us, i, j) && l2[j] == l2[i] - 1;
        assert(l1[j] < l1[i]);
        assert(l1[j] >= 1);
        lemma_level_unique(us, c, l1, l2, j);
    }
    if l1[i] > 1 {
        let j = choose|j: int| c.contains(j) && #[trigger] follows(us, i, j) && l1[j] == l1[i] - 1;
        assert(l1[j] >= 1);
        lemma_level_unique(us, c, l1, l2, j);
        assert(l2[j] < l2[i]);
    }
    assert(l1[i] >= 1 && l2[i] >= 1);
}

/// Two lists of names in strictly increasing order that hold the same names are the same list.
proof fn lemma_sorted_unique(a: Seq<Seq<char>>, b: Seq<Seq<char>>)
    requires
        forall|x: int, y: int| 0 <= x < y < a.len() ==> name_before(#[trigger] a[x], #[trigger] a[y]),
        forall|x: int, y: int| 0 <= x < y < b.len() ==> name_before(#[trigger] b[x], #[trigger] b[y]),
        forall|n: Seq<char>| a.contains(n) <==> b.contains(n),
    ensures
        a == b,
    decreases a.len(),
{
    if a.len() == 0 {
        if b.len() > 0 {
            assert(b.contains(b[0]));
        }
        assert(a =~= b);
    } else {
        assert(a.contains(a[0]));
        let k = choose|k: int| 0 <= k < b.len() && b[k] == a[0];
        if k > 0 {
            assert(b.contains(b[0]));
            let m = choose|m: int| 0 <= m < a.len() && a[m] == b[0];
            assert(name_before(b[0], b[k]));
            lemma_name_order(a[0], b[0], a[0]);
            if m > 0 {
                assert(name_before(a[0], a[m]));
            }
        }
        assert forall|n: Seq<char>| a.drop_first().contains(n) <==> b.drop_first().contains(n) by {
            if a.drop_first().contains(n) {
                let x = choose|x: int| 0 <= x < a.drop_first().len() && a.drop_first()[x] == n;
                assert(a[x + 1] == n);
                assert(name_before(a[0], a[x + 1]));
                lemma_name_order(a[0], n, n);
                assert(b.contains(n));
                let y = choose|y: int| 0 <= y < b.len() && b[y] == n;
                assert(y != 0);
                assert(b.drop_first()[y - 1] == n);
            }
            if b.drop_first().contains(n) {
                let y = choose|y: int| 0 <= y < b.drop_first().len() && b.drop_first()[y] == n;
                assert(b[y + 1] == n);
                assert(name_before(b[0], b[y + 1]));
                lemma_name_order(b[0], n, n);
                assert(a.contains(n));
                let x = choose|x: int| 0 <= x < a.len() && a[x] == n;
                assert(x != 0);
                assert(a.drop_first()[x - 1] == n);
            }
        }
        lemma_sorted_unique(a.drop_first(), b.drop_first());
        assert(a =~= b) by {
            assert forall|x: int| 0 <= x < a.len() implies a[x] == b[x] by {
                if x > 0 {
                    assert(a[x] == a.drop_first()[x - 1]);
                    assert(b[x] == b.drop_first()[x - 1]);
                }
            }
        }
    }
}

/// The names of one wave are those of the units on its level.
proof fn lemma_wave_texts(us: Seq<Unit>, c: Set<int>, level: Seq<int>, w: Seq<Seq<String>>, k: int, n: Seq<char>)
    requires
        sorted_by_name(us),
        forall|i: int| #[trigger] c.contains(i) ==> 0 <= i < us.len(),
        waves_from(us, c, level, w),
        0 <= k < w.len(),
    ensures
        texts(w[k]).contains(n) <==> exists|i: int| c.contains(i) && level[i] == k + 1 && #[trigger] named(us, i, n),
{
    let v = w[k];
    assert(chosen_by_name(us, v) == Set::new(|i: int| c.contains(i) && level[i] == k + 1));
    if texts(v).contains(n) {
        let a = choose|a: int| 0 <= a < texts(v).len() && texts(v)[a] == n;
        assert(v[a]@ == n);
        assert(has_unit(us, v[a]@));
        let i = choose|i: int| named(us, i, v[a]@);
        assert(chosen_by_name(us, v).contains(i));
    }
    if exists|i: int| c.contains(i) && level[i] == k + 1 && #[trigger] named(us, i, n) {
        let i = choose|i: int| c.contains(i) && level[i] == k + 1 && #[trigger] named(us, i, n);
        assert(Set::new(|i: int| c.contains(i) && level[i] == k + 1).contains(i));
        assert(chosen_by_name(us, v).contains(i));
        let a = choose|a: int| 0 <= a < v.len() && #[trigger] v[a]@ == us[i].name@;
        assert(texts(v)[a] == n);
    }
}

/// Starting the same roots in the same graph gives the same waves every time.
#[verifier::rlimit(40)]
#[verifier::spinoff_prover]
pub proof fn waves_are_determined(us: Seq<Unit>, roots: Seq<String>, w1: Seq<Seq<String>>, w2: Seq<Seq<String>>)
    requires
        sorted_by_name(us),
        start_waves(us, roots, w1),
        start_waves(us, roots, w2),
    ensures
        wave_texts(w1) == wave_texts(w2),
{
    let (c1, l1) = choose|c: Set<int>, level: Seq<int>| pulled_in(us, roots, c) && no_clash(us, c)
        && layered_by(us, c, level) && waves_from(us, c, level, w1);
    let (c2, l2) = choose|c: Set<int>, level: Seq<int>| pulled_in(us, roots, c) && no_clash(us, c)
        && layered_by(us, c, level) && waves_from(us, c, level, w2);
    lemma_pulled_in_unique(us, roots, c1, c2);
    let c = c1;
    assert forall|i: int| #[trigger] c.contains(i) implies l1[i] == l2[i] by {
        lemma_level_unique(us, c, l1, l2, i);
    }
    // the same number of waves: the last wave of each holds a unit on its level
    assert(w1.len() == w2.len()) by {
        if w1.len() > w2.len() {
            let v = w1[w1.len() - 1];
            assert(has_unit(us, v[0]@));
            let i = choose|i: int| named(us, i, v[0]@);
            assert(chosen_by_name(us, v).contains(i));
        } else if w2.len() > w1.len() {
            let v = w2[w2.len() - 1];
            assert(has_unit(us, v[0]@));
            let i = choose|i: int| named(us, i, v[0]@);
            assert(chosen_by_name(us, v).contains(i));
        }
    }
    assert forall|k: int| 0 <= k < w1.len() implies #[trigger] wave_texts(w1)[k] == wave_texts(w2)[k] by {
        assert forall|n: Seq<char>| texts(w1[k]).contains(n) <==> texts(w2[k]).contains(n) by {
            lemma_wave_texts(us, c, l1, w1, k, n);
            lemma_wave_texts(us, c, l2, w2, k, n);
        }
        assert(strictly_sorted(w1[k]) && strictly_sorted(w2[k]));
        assert forall|x: int, y: int| 0 <= x < y < texts(w1[k]).len() implies name_before(#[trigger] texts(w1[k])[x], #[trigger] texts(w1[k])[y]) by {
            assert(name_before(w1[k][x]@, w1[k][y]@));
        }
        assert forall|x: int, y: int| 0 <= x < y < texts(w2[k]).len() implies name_before(#[trigger] texts(w2[k])[x], #[trigger] texts(w2[k])[y]) by {
            assert(name_before(w2[k][x]@, w2[k][y]@));
        }
        lemma_sorted_unique(texts(w1[k]), texts(w2[k]));
    }
    assert(wave_texts(w1) =~= wave_texts(w2));
}

/// A unit started with others goes up in a later wave than every unit
/// among them that it starts after.
pub proof fn a_unit_goes_up_after_what_it_follows(us: Seq<Unit>, roots: Seq<String>, w: Seq<Seq<String>>, i: int, j: int, ki: int, kj: int)
    requires
        sorted_by_name(us),
        start_waves(us, roots, w),
        0 <= i < us.len(),
        0 <= j < us.len(),
        follows(us, i, j),
        0 <= ki < w.len(),
        0 <= kj < w.len(),
        lists(w[ki], us[i].name@),
        lists(w[kj], us[j].name@),
    ensures
        kj < ki,
{
    let (c, level) = choose|c: Set<int>, level: Seq<int>| pulled_in(us, roots, c) && no_clash(us, c)
        && layered_by(us, c, level) && waves_from(us, c, level, w);
    let a = choose|a: int| 0 <= a < w[ki].len() && #[trigger] w[ki][a]@ == us[i].name@;
    assert(texts(w[ki])[a] == us[i].name@);
    lemma_wave_texts(us, c, level, w, ki, us[i].name@);
    let i2 = choose|i2: int| c.contains(i2) && level[i2] == ki + 1 && #[trigger] named(us, i2, us[i].name@);
    lemma_unique_names(us, i, i2, us[i].name@);
    let b = choose|b: int| 0 <= b < w[kj].len() && #[trigger] w[kj][b]@ == us[j].name@;
    assert(texts(w[kj])[b] == us[j].name@);
    lemma_wave_texts(us, c, level, w, kj, us[j].name@);
    let j2 = choose|j2: int| c.contains(j2) && level[j2] == kj + 1 && #[trigger] named(us, j2, us[j].name@);
    lemma_unique_names(us, j, j2, us[j].name@);
}

proof fn lemma_texts_flatten(w: Seq<Seq<String>>)
    ensures
        texts(w.flatten()) == wave_texts(w).flatten(),
    decreases w.len(),
{
    if w.len() > 0 {
        lemma_texts_flatten(w.drop_first());
        assert(wave_texts(w).drop_first() =~= wave_texts(w.drop_first()));
        assert(texts(w.first() + w.drop_first().flatten()) =~= texts(w.first()) + texts(w.drop_first().flatten()));
        assert(wave_texts(w).first() == texts(w.first()));
    } else {
        assert(texts(w.flatten()) =~= wave_texts(w).flatten());
    }
}

/// `lists` and `texts(..).contains` say the same of a list of names.
proof fn lemma_lists_texts(v: Seq<String>, n: Seq<char>)
    ensures
        lists(v, n) <==> texts(v).contains(n),
{
    if lists(v, n) {
        let a = choose|a: int| 0 <= a < v.len() && #[trigger] v[a]@ == n;
        assert(texts(v)[a] == n);
    }
    if texts(v).contains(n) {
        let a = choose|a: int| 0 <= a < texts(v).len() && texts(v)[a] == n;
        assert(v[a]@ == n);
    }
}

/// With the first `k` waves up, a unit pulled in is up exactly when its level is at most `k`.
proof fn lemma_up_is_low(
    us: Seq<Unit>,
    c: Set<int>,
    level: Seq<int>,
    w: Seq<Seq<String>>,
    up: Seq<String>,
    k: int,
    i: int,
)
    requires
        sorted_by_name(us),
        forall|x: int| #[trigger] c.contains(x) ==> 0 <= x < us.len(),
        forall|x: int| #[trigger] c.contains(x) ==> level[x] >= 1,
        waves_from(us, c, level, w),
        0 <= k < w.len(),
        forall|m: Seq<char>| #[trigger] lists(up, m) <==> exists|j: int| 0 <= j < k && lists(w[j], m),
        c.contains(i),
    ensures
        lists(up, us[i].name@) <==> level[i] <= k,
{
    let n = us[i].name@;
    if lists(up, n) {
        let j = choose|j: int| 0 <= j < k && lists(w[j], n);
        lemma_lists_texts(w[j], n);
        lemma_wave_texts(us, c, level, w, j, n);
        let i2 = choose|i2: int| c.contains(i2) && level[i2] == j + 1 && #[trigger] named(us, i2, n);
        lemma_unique_names(us, i, i2, n);
    }
    if level[i] <= k {
        let j = level[i] - 1;
        assert(named(us, i, n));
        lemma_wave_texts(us, c, level, w, j, n);
        lemma_lists_texts(w[j], n);
        assert(lists(w[j], n));
    }
}

/// Readiness agrees with the waves: with what starting `roots` pulls in as
/// the chosen units, and the units of the first `k` waves up, a name is
/// ready exactly when it is in wave `k`.
pub proof fn readiness_matches_the_waves(
    us: Seq<Unit>,
    roots: Seq<String>,
    w: Seq<Seq<String>>,
    chosen: Seq<String>,
    up: Seq<String>,
    k: int,
    n: Seq<char>,
)
    requires
        sorted_by_name(us),
        start_waves(us, roots, w),
        pulled_in(us, roots, chosen_by_name(us, chosen)),
        all_units(us, chosen),
        0 <= k < w.len(),
        forall|m: Seq<char>| #[trigger] lists(up, m) <==> exists|j: int| 0 <= j < k && lists(w[j], m),
    ensures
        lists(chosen, n) && ready_name(us, chosen, up, n) <==> lists(w[k], n),
{
    let (c, level) = choose|c: Set<int>, level: Seq<int>| pulled_in(us, roots, c) && no_clash(us, c)
        && layered_by(us, c, level) && waves_from(us, c, level, w);
    lemma_pulled_in_unique(us, roots, c, chosen_by_name(us, chosen));
    lemma_lists_texts(w[k], n);
    lemma_wave_texts(us, c, level, w, k, n);
    if lists(w[k], n) {
        let i = choose|i: int| c.contains(i) && level[i] == k + 1 && #[trigger] named(us, i, n);
        lemma_up_is_low(us, c, level, w, up, k, i);
        assert(lists(chosen, n));
        assert forall|i2: int, j: int|
            named(us, i2, n) && chosen_by_name(us, chosen).contains(j) && #[trigger] follows(us, i2, j)
            implies lists(up, us[j].name@) by {
            lemma_unique_names(us, i, i2, n);
            lemma_up_is_low(us, c, level, w, up, k, j);
        }
    }
    if lists(chosen, n) && ready_name(us, chosen, up, n) {
        let a = choose|a: int| 0 <= a < chosen.len() && #[trigger] chosen[a]@ == n;
        assert(has_unit(us, chosen[a]@));
        let i = choose|i: int| #[trigger] named(us, i, n);
        assert(c.contains(i));
        lemma_up_is_low(us, c, level, w, up, k, i);
        if level[i] > k + 1 {
            let j = choose|j: int| c.contains(j) && #[trigger] follows(us, i, j) && level[j] == level[i] - 1;
            lemma_up_is_low(us, c, level, w, up, k, j);
            assert(lists(up, us[j].name@));
        }
        assert(level[i] == k + 1);
    }
}

/// The waves bring up exactly what starting `roots` pulls in: each wave is
/// non-empty and in name order, each unit pulled in goes up in exactly one
/// wave, after every unit it starts after, and a unit past the first wave
/// starts after some unit of the wave just before its own.
pub proof fn the_waves_bring_up_what_is_pulled_in(
    us: Seq<Unit>,
    roots: Seq<String>,
    w: Seq<Seq<String>>,
    chosen: Seq<String>,
)
    requires
        sorted_by_name(us),
        start_waves(us, roots, w),
        pulled_in(us, roots, chosen_by_name(us, chosen)),
        all_units(us, chosen),
    ensures
        forall|k: int| 0 <= k < w.len() ==> (#[trigger] w[k]).len() > 0 && strictly_sorted(w[k]),
        forall|n: Seq<char>| #[trigger] lists(chosen, n) <==> exists|k: int| 0 <= k < w.len() && lists(w[k], n),
        forall|k1: int, k2: int, n: Seq<char>|
            0 <= k1 < w.len() && 0 <= k2 < w.len() && #[trigger] lists(w[k1], n) && #[trigger] lists(w[k2], n) ==> k1 == k2,
        forall|k1: int, k2: int, a: Seq<char>, b: Seq<char>|
            0 <= k1 < w.len() && 0 <= k2 < w.len() && #[trigger] lists(w[k1], a) && #[trigger] lists(w[k2], b)
                && starts_after(us, a, b) ==> k2 < k1,
        forall|k: int, n: Seq<char>| 1 <= k < w.len() && #[trigger] lists(w[k], n)
            ==> exists|m: Seq<char>| lists(w[k - 1], m) && #[trigger] starts_after(us, n, m),
{
    let (c, level) = choose|c: Set<int>, level: Seq<int>| pulled_in(us, roots, c) && no_clash(us, c)
        && layered_by(us, c, level) && waves_from(us, c, level, w);
    lemma_pulled_in_unique(us, roots, c, chosen_by_name(us, chosen));
    assert forall|n: Seq<char>| #[trigger] lists(chosen, n) <==> exists|k: int| 0 <= k < w.len() && lists(w[k], n) by {
        if lists(chosen, n) {
            let a = choose|a: int| 0 <= a < chosen.len() && #[trigger] chosen[a]@ == n;
            assert(has_unit(us, chosen[a]@));
            let i = choose|i: int| #[trigger] named(us, i, n);
            assert(chosen_by_name(us, chosen).contains(i));
            let k = level[i] - 1;
            lemma_wave_texts(us, c, level, w, k, n);
            lemma_lists_texts(w[k], n);
            assert(lists(w[k], n));
        }
        if exists|k: int| 0 <= k < w.len() && lists(w[k], n) {
            let k = choose|k: int| 0 <= k < w.len() && lists(w[k], n);
            lemma_lists_texts(w[k], n);
            lemma_wave_texts(us, c, level, w, k, n);
            let i = choose|i: int| c.contains(i) && level[i] == k + 1 && #[trigger] named(us, i, n);
            assert(chosen_by_name(us, chosen).contains(i));
        }
    }
    assert forall|k1: int, k2: int, n: Seq<char>|
        0 <= k1 < w.len() && 0 <= k2 < w.len() && #[trigger] lists(w[k1], n) && #[trigger] lists(w[k2], n) implies k1 == k2 by {
        lemma_lists_texts(w[k1], n);
        lemma_wave_texts(us, c, level, w, k1, n);
        lemma_lists_texts(w[k2], n);
        lemma_wave_texts(us, c, level, w, k2, n);
        let i1 = choose|i: int| c.contains(i) && level[i] == k1 + 1 && #[trigger] named(us, i, n);
        let i2 = choose|i: int| c.contains(i) && level[i] == k2 + 1 && #[trigger] named(us, i, n);
        lemma_unique_names(us, i1, i2, n);
    }
    assert forall|k1: int, k2: int, a: Seq<char>, b: Seq<char>|
        0 <= k1 < w.len() && 0 <= k2 < w.len() && #[trigger] lists(w[k1], a) && #[trigger] lists(w[k2], b)
            && starts_after(us, a, b) implies k2 < k1 by {
        let (i, j) = choose|i: int, j: int| named(us, i, a) && named(us, j, b) && #[trigger] follows(us, i, j);
        a_unit_goes_up_after_what_it_follows(us, roots, w, i, j, k1, k2);
    }
    assert forall|k: int, n: Seq<char>| 1 <= k < w.len() && #[trigger] lists(w[k], n)
        implies exists|m: Seq<char>| lists(w[k - 1], m) && #[trigger] starts_after(us, n, m) by {
        lemma_lists_texts(w[k], n);
        lemma_wave_texts(us, c, level, w, k, n);
        let i = choose|i: int| c.contains(i) && level[i] == k + 1 && #[trigger] named(us, i, n);
        let j = choose|j: int| c.contains(j) && #[trigger] follows(us, i, j) && level[j] == level[i] - 1;
        let m = us[j].name@;
        assert(named(us, j, m));
        lemma_wave_texts(us, c, level, w, k - 1, m);
        lemma_lists_texts(w[k - 1], m);
        assert(starts_after(us, n, m));
    }
}

/// With nothing up yet, the units ready among all that starting `roots`
/// pulls in are exactly the first wave.
pub proof fn nothing_up_means_the_first_wave(
    us: Seq<Unit>,
    roots: Seq<String>,
    w: Seq<Seq<String>>,
    chosen: Seq<String>,
    n: Seq<char>,
)
    requires
        sorted_by_name(us),
        start_waves(us, roots, w),
        pulled_in(us, roots, chosen_by_name(us, chosen)),
        all_units(us, chosen),
        chosen.len() > 0,
    ensures
        w.len() > 0,
        lists(chosen, n) && ready_name(us, chosen, Seq::empty(), n) <==> lists(w[0], n),
{
    let (c, level) = choose|c: Set<int>, level: Seq<int>| pulled_in(us, roots, c) && no_clash(us, c)
        && layered_by(us, c, level) && waves_from(us, c, level, w);
    lemma_pulled_in_unique(us, roots, c, chosen_by_name(us, chosen));
    assert(has_unit(us, chosen[0]@));
    let i = choose|i: int| #[trigger] named(us, i, chosen[0]@);
    assert(lists(chosen, us[i].name@));
    assert(chosen_by_name(us, chosen).contains(i));
    assert(c.contains(i));
    let none: Seq<String> = Seq::empty();
    assert forall|m: Seq<char>| #[trigger] lists(none, m) <==> exists|j: int| 0 <= j < 0 && lists(w[j], m) by {}
    readiness_matches_the_waves(us, roots, w, chosen, none, 0, n);
}

/// `us1` and `us2` hold units with the same names, in the same places, that
/// require and want the same units.
pub open spec fn same_needs(us1: Seq<Unit>, us2: Seq<Unit>) -> bool {
    &&& us1.len() == us2.len()
    &&& forall|i: int| 0 <= i < us1.len() ==> {
        &&& (#[trigger] us1[i]).name@ == us2[i].name@
        &&& us1[i].requires@ == us2[i].requires@
        &&& us1[i].wants@ == us2[i].wants@
    }
}

/// `us1` and `us2` hold units with the same names, in the same places, that
/// are ordered after and before the same units.
pub open spec fn same_order(us1: Seq<Unit>, us2: Seq<Unit>) -> bool {
    &&& us1.len() == us2.len()
    &&& forall|i: int| 0 <= i < us1.len() ==> {
        &&& (#[trigger] us1[i]).name@ == us2[i].name@
        &&& us1[i].after@ == us2[i].after@
        &&& us1[i].before@ == us2[i].before@
    }
}

/// Ordering does not pull anything in: what starting `roots` pulls in
/// depends on `requires` and `wants` alone, whatever `after` and `before` say.
pub proof fn ordering_does_not_pull_in(us1: Seq<Unit>, us2: Seq<Unit>, roots: Seq<String>, c: Set<int>)
    requires
        same_needs(us1, us2),
        pulled_in(us1, roots, c),
    ensures
        pulled_in(us2, roots, c),
{
    assert forall|i: int, j: int| 0 <= i < us1.len() && 0 <= j < us1.len() implies needs(us1, i, j) == needs(us2, i, j) by {
        assert(us1[i].name@ == us2[i].name@);
        assert(us1[j].name@ == us2[j].name@);
    }
    assert forall|s: Set<int>| holds_roots(us1, roots, s) == holds_roots(us2, roots, s) by {
        assert forall|i: int| 0 <= i < us1.len() implies us1[i].name@ == us2[i].name@ by {
            assert(us1[i].name@ == us2[i].name@);
        }
    }
    assert forall|s: Set<int>| closed_under_needs(us1, s) == closed_under_needs(us2, s) by {
        if closed_under_needs(us1, s) {
            assert forall|i: int, j: int| #![trigger s.contains(i), needs(us2, i, j)]
                0 <= i < us2.len() && 0 <= j < us2.len() && s.contains(i) && needs(us2, i, j) implies s.contains(j) by {
                assert(needs(us1, i, j) == needs(us2, i, j));
            }
        }
        if closed_under_needs(us2, s) {
            assert forall|i: int, j: int| #![trigger s.contains(i), needs(us1, i, j)]
                0 <= i < us1.len() && 0 <= j < us1.len() && s.contains(i) && needs(us1, i, j) implies s.contains(j) by {
                assert(needs(us1, i, j) == needs(us2, i, j));
            }
        }
    }
}

/// Requiring does not order: which unit starts after which depends on
/// `after` and `before` alone, whatever `requires` and `wants` say.
pub proof fn requiring_does_not_order(us1: Seq<Unit>, us2: Seq<Unit>, i: int, j: int)
    requires
        same_order(us1, us2),
        0 <= i < us1.len(),
        0 <= j < us1.len(),
    ensures
        follows(us1, i, j) == follows(us2, i, j),
{
    assert(us1[i].name@ == us2[i].name@);
    assert(us1[j].name@ == us2[j].name@);
}

/// The names of a list of units.
pub open spec fn unit_names(us: Seq<Unit>) -> Seq<Seq<char>> {
    us.map_values(|u: Unit| u.name@)
}

/// The units a graph keeps are determined by the units it was given: the
/// last unit of each name, in name order.
pub proof fn the_units_kept_are_determined(input: Seq<Unit>, us1: Seq<Unit>, us2: Seq<Unit>)
    requires
        keeps_latest(input, us1),
        keeps_latest(input, us2),
    ensures
        us1 == us2,
{
    let n1 = unit_names(us1);
    let n2 = unit_names(us2);
    assert forall|n: Seq<char>| n1.contains(n) implies n2.contains(n) by {
        let a = choose|a: int| 0 <= a < n1.len() && n1[a] == n;
        assert(latest_in(input, us1[a]));
        let k = choose|k: int| is_latest(input, k) && input[k] == us1[a];
        assert(has_unit(us2, input[k].name@));
        let b = choose|b: int| named(us2, b, input[k].name@);
        assert(n2[b] == n);
    }
    assert forall|n: Seq<char>| n2.contains(n) implies n1.contains(n) by {
        let b = choose|b: int| 0 <= b < n2.len() && n2[b] == n;
        assert(latest_in(input, us2[b]));
        let k = choose|k: int| is_latest(input, k) && input[k] == us2[b];
        assert(has_unit(us1, input[k].name@));
        let a = choose|a: int| named(us1, a, input[k].name@);
        assert(n1[a] == n);
    }
    assert forall|x: int, y: int| 0 <= x < y < n1.len() implies name_before(#[trigger] n1[x], #[trigger] n1[y]) by {
        assert(name_before(us1[x].name@, us1[y].name@));
    }
    assert forall|x: int, y: int| 0 <= x < y < n2.len() implies name_before(#[trigger] n2[x], #[trigger] n2[y]) by {
        assert(name_before(us2[x].name@, us2[y].name@));
    }
    lemma_sorted_unique(n1, n2);
    assert forall|i: int| 0 <= i < us1.len() implies us1[i] == us2[i] by {
        assert(n1[i] == n2[i]);
        let k1 = choose|k: int| is_latest(input, k) && input[k] == us1[i];
        let k2 = choose|k: int| is_latest(input, k) && input[k] == us2[i];
        if k1 < k2 {
            assert(input[k2].name@ != input[k1].name@);
        } else if k2 < k1 {
            assert(input[k1].name@ != input[k2].name@);
        }
    }
    assert(us1 =~= us2);
}

/// A graph builds from these units: every requirement names a unit, and
/// the order relation has no circle.
pub open spec fn buildable(us: Seq<Unit>) -> bool {
    all_requires_met(us) && has_no_circle(us)
}

/// No path runs in a circle through the order relation.
pub open spec fn circle_free(us: Seq<Unit>) -> bool {
    forall|path: Seq<String>| !#[trigger] is_circle(us, path)
}

/// A requirement that names no unit is not met.
pub proof fn a_missing_requirement_is_unmet(us: Seq<Unit>, unit: Seq<char>, missing: Seq<char>)
    requires
        first_missing(us, unit, missing),
    ensures
        !all_requires_met(us),
{
    let (i, p) = choose|i: int, p: int|
        #![trigger named(us, i, unit), us[i].requires@[p]]
        named(us, i, unit) && 0 <= p < us[i].requires@.len() && us[i].requires@[p]@ == missing
            && !has_unit(us, missing)
            && (forall|q: int| 0 <= q < p ==> has_unit(us, #[trigger] us[i].requires@[q]@))
            && (forall|i2: int| 0 <= i2 < i ==> #[trigger] requires_met(us, i2));
    assert(!requires_met(us, i));
}

/// Along a circle the ranks fall at every step: unit `k` of the path ranks
/// below the first.
proof fn lemma_ranks_fall(us: Seq<Unit>, path: Seq<String>, rank: Seq<int>, k: int) -> (r: (int, int))
    requires
        sorted_by_name(us),
        is_circle(us, path),
        ranked(us, rank),
        1 <= k < path.len(),
    ensures
        named(us, r.0, path[0]@),
        named(us, r.1, path[k]@),
        rank[r.1] < rank[r.0],
    decreases k,
{
    assert(starts_after(us, path[k - 1]@, path[k]@));
    let (a, b) = choose|a: int, b: int| named(us, a, path[k - 1]@) && named(us, b, path[k]@) && #[trigger] follows(us, a, b);
    if k == 1 {
        (a, b)
    } else {
        let (i, j) = lemma_ranks_fall(us, path, rank, k - 1);
        lemma_unique_names(us, j, a, path[k - 1]@);
        (i, b)
    }
}

/// A circle in the order relation means it has no ranking.
pub proof fn a_circle_cannot_be_ranked(us: Seq<Unit>, path: Seq<String>)
    requires
        sorted_by_name(us),
        is_circle(us, path),
    ensures
        !has_no_circle(us),
{
    if has_no_circle(us) {
        let rank = choose|rank: Seq<int>| ranked(us, rank);
        let (i, j) = lemma_ranks_fall(us, path, rank, path.len() - 1);
        lemma_unique_names(us, i, j, path[0]@);
    }
}

/// Starting `roots` can go ahead: every root names a unit, and what they
/// pull in holds no two units that conflict.
pub open spec fn startable(us: Seq<Unit>, roots: Seq<String>) -> bool {
    all_known(us, roots) && exists|c: Set<int>| pulled_in(us, roots, c) && no_clash(us, c)
}

/// A refusal and a start that can go ahead exclude each other.
pub proof fn a_refusal_means_no_start(us: Seq<Unit>, roots: Seq<String>, t: Trouble)
    requires
        refused(us, roots, t),
    ensures
        !startable(us, roots),
{
    match t {
        Trouble::Unknown(n) => {
            let k = choose|k: int| 0 <= k < roots.len() && #[trigger] roots[k]@ == n@ && !has_unit(us, n@)
                && forall|k2: int| 0 <= k2 < k ==> has_unit(us, #[trigger] roots[k2]@);
            assert(!has_unit(us, roots[k]@));
        },
        Trouble::Incompatible { unit, with, pulled_in_by } => {
            let (c, i, p) = choose|c: Set<int>, i: int, p: int| pulled_in(us, roots, c)
                && first_clash(us, c, i, p) && unit@ == us[i].name@
                && with@ == us[i].conflicts@[p]@
                && asked_by(us, c, with@, pulled_in_by@);
            if startable(us, roots) {
                let c2 = choose|c2: Set<int>| pulled_in(us, roots, c2) && no_clash(us, c2);
                lemma_pulled_in_unique(us, roots, c, c2);
                assert(clashes(us, c2, i, p));
            }
        },
        _ => {},
    }
}

/// Two troubles say the same: the same kind, about units of the same names.
pub open spec fn same_trouble(a: Trouble, b: Trouble) -> bool {
    match (a, b) {
        (Trouble::Unknown(x), Trouble::Unknown(y)) => x@ == y@,
        (
            Trouble::Incompatible { unit: u1, with: w1, pulled_in_by: p1 },
            Trouble::Incompatible { unit: u2, with: w2, pulled_in_by: p2 },
        ) => u1@ == u2@ && w1@ == w2@ && p1@ == p2@,
        (Trouble::Missing { unit: u1, needs: n1 }, Trouble::Missing { unit: u2, needs: n2 }) => u1@ == u2@
            && n1@ == n2@,
        (Trouble::Cycle(x), Trouble::Cycle(y)) => texts(x@) == texts(y@),
        _ => false,
    }
}

/// A start is refused for one reason only: every refusal of the same roots
/// says the same, so `pull_in`, `waves`, `start_order` and `stop_order`
/// refuse alike.
pub proof fn a_refusal_is_determined(us: Seq<Unit>, roots: Seq<String>, a: Trouble, b: Trouble)
    requires
        refused(us, roots, a),
        refused(us, roots, b),
    ensures
        same_trouble(a, b),
{
    match (a, b) {
        (Trouble::Unknown(x), Trouble::Unknown(y)) => {
            let k1 = choose|k: int| 0 <= k < roots.len() && #[trigger] roots[k]@ == x@ && !has_unit(us, x@)
                && forall|k2: int| 0 <= k2 < k ==> has_unit(us, #[trigger] roots[k2]@);
            let k2 = choose|k: int| 0 <= k < roots.len() && #[trigger] roots[k]@ == y@ && !has_unit(us, y@)
                && forall|k3: int| 0 <= k3 < k ==> has_unit(us, #[trigger] roots[k3]@);
            if k1 < k2 {
                assert(has_unit(us, roots[k1]@));
            } else if k2 < k1 {
                assert(has_unit(us, roots[k2]@));
            }
        },
        (Trouble::Unknown(x), Trouble::Incompatible { .. }) => {
            let k1 = choose|k: int| 0 <= k < roots.len() && #[trigger] roots[k]@ == x@ && !has_unit(us, x@)
                && forall|k2: int| 0 <= k2 < k ==> has_unit(us, #[trigger] roots[k2]@);
            assert(has_unit(us, roots[k1]@));
        },
        (Trouble::Incompatible { .. }, Trouble::Unknown(y)) => {
            let k2 = choose|k: int| 0 <= k < roots.len() && #[trigger] roots[k]@ == y@ && !has_unit(us, y@)
                && forall|k3: int| 0 <= k3 < k ==> has_unit(us, #[trigger] roots[k3]@);
            assert(has_unit(us, roots[k2]@));
        },
        (
            Trouble::Incompatible { unit: u1, with: w1, pulled_in_by: p1 },
            Trouble::Incompatible { unit: u2, with: w2, pulled_in_by: p2 },
        ) => {
            let (c1, i1, q1) = choose|c: Set<int>, i: int, p: int| pulled_in(us, roots, c)
                && first_clash(us, c, i, p) && u1@ == us[i].name@
                && w1@ == us[i].conflicts@[p]@
                && asked_by(us, c, w1@, p1@);
            let (c2, i2, q2) = choose|c: Set<int>, i: int, p: int| pulled_in(us, roots, c)
                && first_clash(us, c, i, p) && u2@ == us[i].name@
                && w2@ == us[i].conflicts@[p]@
                && asked_by(us, c, w2@, p2@);
            lemma_pulled_in_unique(us, roots, c1, c2);
            if i1 < i2 {
                assert(!clashes(us, c2, i1, q1));
            } else if i2 < i1 {
                assert(!clashes(us, c1, i2, q2));
            }
            if q1 < q2 {
                assert(!clashes(us, c2, i2, q1));
            } else if q2 < q1 {
                assert(!clashes(us, c1, i1, q2));
            }
            let n = w1@;
            if exists|j: int| c1.contains(j) && #[trigger] asks_for(us, j, n) {
                let j1 = choose|j: int| c1.contains(j) && #[trigger] asks_for(us, j, n) && us[j].name@ == p1@
                    && forall|j2: int| 0 <= j2 < j && c1.contains(j2) ==> !#[trigger] asks_for(us, j2, n);
                let j2 = choose|j: int| c1.contains(j) && #[trigger] asks_for(us, j, n) && us[j].name@ == p2@
                    && forall|j3: int| 0 <= j3 < j && c1.contains(j3) ==> !#[trigger] asks_for(us, j3, n);
                assert(0 <= j1 && 0 <= j2);
                if j1 < j2 {
                    assert(!asks_for(us, j1, n));
                } else if j2 < j1 {
                    assert(!asks_for(us, j2, n));
                }
            }
        },
        _ => {},
    }
}

/// Stopping is starting backwards: what the stop order of `roots` lists is
/// the start order of `roots`, reversed.
pub proof fn stopping_reverses_starting(us: Seq<Unit>, roots: Seq<String>, up: Seq<String>, down: Seq<String>)
    requires
        sorted_by_name(us),
        exists|w: Seq<Seq<String>>| start_waves(us, roots, w) && up == w.flatten(),
        exists|w: Seq<Seq<String>>| start_waves(us, roots, w) && down == w.flatten().reverse(),
    ensures
        texts(down) == texts(up).reverse(),
{
    let w1 = choose|w: Seq<Seq<String>>| start_waves(us, roots, w) && up == w.flatten();
    let w2 = choose|w: Seq<Seq<String>>| start_waves(us, roots, w) && down == w.flatten().reverse();
    waves_are_determined(us, roots, w1, w2);
    lemma_texts_flatten(w1);
    lemma_texts_flatten(w2);
    assert(texts(w2.flatten()) == texts(up));
    assert(texts(down) =~= texts(w2.flatten()).reverse());
}

/// The names of `path`, with `sep` between each two.
pub open spec fn joined_names(path: Seq<String>, sep: Seq<char>) -> Seq<char>
    decreases path.len(),
{
    if path.len() == 0 {
        seq![]
    } else if path.len() == 1 {
        path[0]@
    } else {
        joined_names(path.drop_last(), sep) + sep + path.last()@
    }
}

/// How a trouble reads to people.
pub open spec fn trouble_text(t: Trouble) -> Seq<char> {
    match t {
        Trouble::Missing { unit, needs } => unit@ + " requires "@ + needs@
            + ", and there is no unit by that name.\neither add "@ + needs@
            + ".toml or move it to wants, which tolerates it being absent"@,
        Trouble::Cycle(path) => "these units are ordered in a circle, so none of them can go first:\n  "@
            + joined_names(path@, " -> "@),
        Trouble::Incompatible { unit, with, pulled_in_by } => unit@ + " conflicts with "@ + with@
            + ", but both were pulled in by "@ + pulled_in_by@
            + ".\none of them has to go, or the conflict is wrong"@,
        Trouble::Unknown(name) => "there is no unit called "@ + name@,
    }
}

impl Trouble {
    /// The trouble as it is shown to people.
    pub fn to_string(&self) -> (r: String)
        ensures
            r@ == trouble_text(*self),
    {
        match self {
            Trouble::Missing { unit, needs } => {
                let mut r = String::from_str(unit.as_str());
                r.append(" requires ");
                r.append(needs.as_str());
                r.append(", and there is no unit by that name.\neither add ");
                r.append(needs.as_str());
                r.append(".toml or move it to wants, which tolerates it being absent");
                r
            },
            Trouble::Cycle(path) => {
                let mut r = String::from_str(
                    "these units are ordered in a circle, so none of them can go first:\n  ",
                );
                let ghost head = r@;
                for k in 0..path.len()
                    invariant
                        r@ == head + joined_names(path@.take(k as int), " -> "@),
                {
                    if k > 0 {
                        r.append(" -> ");
                    }
                    r.append(path[k].as_str());
                    proof {
                        assert(path@.take(k + 1).drop_last() =~= path@.take(k as int));
                        if k == 0 {
                            assert(joined_names(path@.take(0), " -> "@) =~= seq![]);
                        }
                    }
                }
                assert(path@.take(path@.len() as int) =~= path@);
                r
            },
            Trouble::Incompatible { unit, with, pulled_in_by } => {
                let mut r = String::from_str(unit.as_str());
                r.append(" conflicts with ");
                r.append(with.as_str());
                r.append(", but both were pulled in by ");
                r.append(pulled_in_by.as_str());
                r.append(".\none of them has to go, or the conflict is wrong");
                r
            },
            Trouble::Unknown(name) => {
                let mut r = String::from_str("there is no unit called ");
                r.append(name.as_str());
                r
            },
        }
    }
}

} // verus!
