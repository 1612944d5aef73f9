//! Service units as the unit files describe them, and the rules a unit has
//! to pass before anything is started from it.
use vstd::prelude::*;
use vstd::string::StringExecFns;
use vstd::utf8::*;
use crate::text::{
    blank, char_count, debug_quoted, debug_text, decimal, decimal_text, first_index, has_char, is_blank,
    is_u32_text, lines, lines_of, newlines_and_tail, occurrences, same_text, spaces, split_once,
    starts_with, tail_len, trim, trimmed, u32_text,
};

verus! {

#[derive(Debug, Clone, Copy, PartialEq, Eq, Structural)]
pub enum Kind {
    Simple,
    Oneshot,
}

#[derive(Debug, Clone, Copy, PartialEq, Eq, Structural)]
pub enum Restart {
    Never,
    OnFailure,
    Always,
}

impl Default for Kind {
    fn default() -> (r: Kind)
        ensures
            r == Kind::Simple,
    {
        Kind::Simple
    }
}

impl Default for Restart {
    fn default() -> (r: Restart)
        ensures
            r == Restart::Never,
    {
        Restart::Never
    }
}

/// Whether `policy` asks for another run after a process ended, cleanly or not.
pub open spec fn retries(policy: Restart, exited_cleanly: bool) -> bool {
    match policy {
        Restart::Never => false,
        Restart::OnFailure => !exited_cleanly,
        Restart::Always => true,
    }
}

impl Restart {
    pub fn wants_another_try(self, exited_cleanly: bool) -> (r: bool)
        ensures
            r == retries(self, exited_cleanly),
            self == Restart::Always ==> r,
            self == Restart::Never ==> !r,
            self == Restart::OnFailure ==> r == !exited_cleanly,
    {
        match self {
            Restart::Never => false,
            Restart::OnFailure => !exited_cleanly,
            Restart::Always => true,
        }
    }
}

/// What each policy means: `always` asks for another run whatever the exit,
/// `never` never does, and `on-failure` does exactly when the exit was not
/// clean.
pub proof fn the_restart_policies_mean_what_they_say(exited_cleanly: bool)
    ensures
        retries(Restart::Always, exited_cleanly),
        !retries(Restart::Never, exited_cleanly),
        retries(Restart::OnFailure, exited_cleanly) == !exited_cleanly,
{
}

#[derive(Debug, Clone, PartialEq, Eq)]
pub struct Unit {
    pub name: String,
    pub description: String,
    pub requires: Vec<String>,
    pub wants: Vec<String>,
    pub after: Vec<String>,
    pub before: Vec<String>,
    pub conflicts: Vec<String>,
    pub kind: Kind,
    pub start: String,
    pub stop: Option<String>,
    pub restart: Restart,
    pub restart_delay: u64,
    pub restart_limit: u32,
    pub start_timeout: u64,
    pub stop_timeout: u64,
    pub directory: Option<String>,
    pub environment: Vec<String>,
}

/// `v` holds an entry that reads `n`.
pub open spec fn lists(v: Seq<String>, n: Seq<char>) -> bool {
    exists|k: int| 0 <= k < v.len() && #[trigger] v[k]@ == n
}

impl Unit {
    /// The units this one pulls in: what it requires, then what it wants.
    pub fn needs(&self) -> (r: Vec<String>)
        ensures
            r@ == self.requires@ + self.wants@,
    {
        let mut r: Vec<String> = Vec::new();
        for k in 0..self.requires.len()
            invariant
                r@ == self.requires@.take(k as int),
        {
            r.push(self.requires[k].clone());
            assert(self.requires@.take(k + 1) =~= self.requires@.take(k as int).push(self.requires@[k as int]));
        }
        assert(self.requires@.take(self.requires@.len() as int) =~= self.requires@);
        for k in 0..self.wants.len()
            invariant
                r@ == self.requires@ + self.wants@.take(k as int),
        {
            r.push(self.wants[k].clone());
            assert(self.wants@.take(k + 1) =~= self.wants@.take(k as int).push(self.wants@[k as int]));
        }
        assert(self.wants@.take(self.wants@.len() as int) =~= self.wants@);
        r
    }
}

/// Where a complaint points: a line (from 1), a column (from 1), and what the line says.
#[derive(Debug, Clone, PartialEq, Eq)]
pub struct Spot {
    pub line: usize,
    pub column: usize,
    pub text: String,
}

/// Why a unit file was refused: the file, where in it, and what is wrong.
#[derive(Debug, Clone, PartialEq, Eq)]
pub struct Problem {
    pub source: String,
    pub at: Option<Spot>,
    pub message: String,
}

/// A spot as plain values: line, column, and the line's text.
pub open spec fn spot_view(s: Option<Spot>) -> Option<(int, int, Seq<char>)> {
    match s {
        Some(p) => Some((p.line as int, p.column as int, p.text@)),
        None => None,
    }
}

/// The keys the TOML parser finds in the tables at the root of `text`: for
/// each, the name of its table, the key, and the byte of `text` at which the
/// key is written, in the order the parser hands them out; none when it
/// refuses the text.
pub uninterp spec fn toml_keys(text: Seq<char>) -> Seq<(Seq<char>, Seq<char>, nat)>;

/// The keys of the tables at the root of `text`, with their tables and the
/// bytes they are written at, as `toml::de::DeTable::parse` finds them; none
/// when it refuses the text. Claimed of it: the list is `toml_keys` of the
/// text, entry by entry.
#[verifier::external_body]
fn keys_of(text: &str) -> (r: Vec<(String, String, usize)>)
    ensures
        r@.len() == toml_keys(text@).len(),
        forall|k: int| 0 <= k < r@.len() ==> (#[trigger] r@[k]).0@ == toml_keys(text@)[k].0
            && r@[k].1@ == toml_keys(text@)[k].1 && r@[k].2 as nat == toml_keys(text@)[k].2,
{
    let mut found = Vec::new();
    if let Ok(root) = toml::de::DeTable::parse(text) {
        for (table, value) in root.get_ref().iter() {
            if let toml::de::DeValue::Table(entries) = value.get_ref() {
                for (key, _) in entries.iter() {
                    found.push((table.get_ref().to_string(), key.get_ref().to_string(), key.span().start));
                }
            }
        }
    }
    found
}

/// Where a key of a unit file is set: the key, and the byte of the text at
/// which it is written.
#[derive(Debug, Clone, PartialEq, Eq)]
pub struct Place {
    pub key: String,
    pub byte: usize,
}

/// Places as plain values.
pub open spec fn place_views(p: Seq<Place>) -> Seq<(Seq<char>, nat)> {
    Seq::new(p.len(), |i: int| (p[i].key@, p[i].byte as nat))
}

/// The keys of `keys` that stand in the `[unit]` or `[service]` table, with
/// their bytes, in order.
pub open spec fn unit_keys(keys: Seq<(Seq<char>, Seq<char>, nat)>) -> Seq<(Seq<char>, nat)>
    decreases keys.len(),
{
    if keys.len() == 0 {
        seq![]
    } else {
        let rest = unit_keys(keys.drop_last());
        let last = keys.last();
        if last.0 == "unit"@ || last.0 == "service"@ {
            rest.push((last.1, last.2))
        } else {
            rest
        }
    }
}

/// Where the parser finds the keys of `[unit]` and `[service]` set in `text`.
pub fn places(text: &str) -> (r: Vec<Place>)
    ensures
        place_views(r@) == unit_keys(toml_keys(text@)),
{
    let keys = keys_of(text);
    let ghost all = toml_keys(text@);
    let mut r: Vec<Place> = Vec::new();
    for i in 0..keys.len()
        invariant
            keys@.len() == all.len(),
            forall|k: int| 0 <= k < keys@.len() ==> (#[trigger] keys@[k]).0@ == all[k].0
                && keys@[k].1@ == all[k].1 && keys@[k].2 as nat == all[k].2,
            place_views(r@) == unit_keys(all.take(i as int)),
    {
        let (table, key, byte) = &keys[i];
        let ghost before = r@;
        assert(all.take(i + 1).drop_last() =~= all.take(i as int));
        assert(all.take(i + 1).last() == all[i as int]);
        if same_text(table.as_str(), "unit") || same_text(table.as_str(), "service") {
            r.push(Place { key: key.clone(), byte: *byte });
            assert(place_views(r@) =~= place_views(before).push((all[i as int].1, all[i as int].2)));
        }
    }
    assert(all.take(keys@.len() as int) =~= all);
    r
}

/// The byte at which `places`, from entry `from` on, first has `key` set.
pub open spec fn place_of(places: Seq<(Seq<char>, nat)>, key: Seq<char>, from: int) -> Option<int>
    decreases places.len() - from,
{
    if from < 0 || from >= places.len() {
        None
    } else if places[from].0 == key {
        Some(places[from].1 as int)
    } else {
        place_of(places, key, from + 1)
    }
}

/// The spot of `key` in `text`: the line where the parser finds the key set
/// in `[unit]` or `[service]`, the key's column on that line, and the line;
/// `None` when the parser finds the key nowhere.
pub open spec fn key_spot(text: Seq<char>, key: Seq<char>) -> Option<(int, int, Seq<char>)> {
    match place_of(unit_keys(toml_keys(text)), key, 0) {
        Some(b) => byte_spot(text, b),
        None => None,
    }
}

/// The byte at which `places` has `key` set, if it has it.
fn find_place(places: &[Place], key: &str) -> (r: Option<usize>)
    ensures
        match r {
            Some(b) => place_of(place_views(places@), key@, 0) == Some(b as int),
            None => place_of(place_views(places@), key@, 0) is None,
        },
{
    let ghost pv = place_views(places@);
    for k in 0..places.len()
        invariant
            pv == place_views(places@),
            place_of(pv, key@, 0) == place_of(pv, key@, k as int),
    {
        assert(pv[k as int] == (places@[k as int].key@, places@[k as int].byte as nat));
        if same_text(places[k].key.as_str(), key) {
            return Some(places[k].byte);
        }
    }
    None
}

/// The five relations of a unit, in the order they are checked.
pub open spec fn relation(u: Unit, f: int) -> Seq<String> {
    if f == 0 {
        u.requires@
    } else if f == 1 {
        u.wants@
    } else if f == 2 {
        u.after@
    } else if f == 3 {
        u.before@
    } else {
        u.conflicts@
    }
}

/// The key each relation is written under.
pub open spec fn relation_field(f: int) -> Seq<char> {
    if f == 0 {
        "requires"@
    } else if f == 1 {
        "wants"@
    } else if f == 2 {
        "after"@
    } else if f == 3 {
        "before"@
    } else {
        "conflicts"@
    }
}

/// What is wrong with entry `k` of relation `f`: a blank name, the unit
/// itself, or a name listed earlier in the same relation.
pub open spec fn entry_complaint(u: Unit, f: int, k: int) -> Option<Seq<char>> {
    let names = relation(u, f);
    let n = names[k]@;
    let field = relation_field(f);
    if blank(n) {
        Some(field + " has an empty name in it"@)
    } else if n == u.name@ {
        Some(field + " lists "@ + n + ", which is this unit itself"@)
    } else if lists(names.take(k), n) {
        Some(field + " lists "@ + n + " twice"@)
    } else {
        None
    }
}

/// The first complaint about a relation entry, from entry `k` of relation `f` on.
pub open spec fn relations_complaint(u: Unit, f: int, k: int) -> Option<(Seq<char>, Seq<char>)>
    decreases 5 - f, relation(u, f).len() - k,
{
    if f < 0 || f >= 5 || k < 0 {
        None
    } else if k >= relation(u, f).len() {
        relations_complaint(u, f + 1, 0)
    } else {
        match entry_complaint(u, f, k) {
            Some(m) => Some((m, relation_field(f))),
            None => relations_complaint(u, f, k + 1),
        }
    }
}

/// The first name of `conflicts`, from `k` on, that is also required or wanted.
pub open spec fn conflict_complaint(u: Unit, k: int) -> Option<Seq<char>>
    decreases u.conflicts@.len() - k,
{
    if k < 0 || k >= u.conflicts@.len() {
        None
    } else if lists(u.requires@, u.conflicts@[k]@) || lists(u.wants@, u.conflicts@[k]@) {
        Some(u.conflicts@[k]@ + " is in conflicts and also in requires or wants"@)
    } else {
        conflict_complaint(u, k + 1)
    }
}

/// The first environment entry, from `k` on, with no `=` in it.
pub open spec fn environment_complaint(u: Unit, k: int) -> Option<Seq<char>>
    decreases u.environment@.len() - k,
{
    if k < 0 || k >= u.environment@.len() {
        None
    } else if !u.environment@[k]@.contains('=') {
        Some("environment entry "@ + debug_text(u.environment@[k]@) + " has no '=', expected NAME=value"@)
    } else {
        environment_complaint(u, k + 1)
    }
}

/// The first rule `u` breaks, as the message and the key to point at, in the
/// order the rules are checked; `None` when it breaks none.
pub open spec fn complaint(u: Unit) -> Option<(Seq<char>, Seq<char>)> {
    if blank(u.start@) {
        Some(("start is empty, so there is nothing to run"@, "start"@))
    } else if blank(u.description@) {
        Some(("description is empty, and it is what people see in status"@, "description"@))
    } else if relations_complaint(u, 0, 0) is Some {
        relations_complaint(u, 0, 0)
    } else if conflict_complaint(u, 0) is Some {
        Some((conflict_complaint(u, 0)->0, "conflicts"@))
    } else if u.restart != Restart::Never && u.restart_limit == 0 {
        Some(("restart_limit is 0, which asks for restarts and forbids them at once"@, "restart_limit"@))
    } else if u.start_timeout == 0 {
        Some(("start_timeout is 0, which would give up before the process starts"@, "start_timeout"@))
    } else if u.stop_timeout == 0 {
        Some(("stop_timeout is 0, which would give up before the process starts"@, "stop_timeout"@))
    } else if environment_complaint(u, 0) is Some {
        Some((environment_complaint(u, 0)->0, "environment"@))
    } else if u.kind == Kind::Oneshot && u.restart == Restart::Always {
        Some(("a oneshot service with restart = \"always\" would never stop running"@, "restart"@))
    } else {
        None
    }
}

/// A problem in `source` with `message`, pointing where the parser found `key` set in `text`.
fn complain(source: &str, text: &str, message: String, key: &str) -> (p: Problem)
    requires
        text@.len() < usize::MAX,
    ensures
        p.source@ == source@,
        p.message@ == message@,
        spot_view(p.at) == key_spot(text@, key@),
{
    let found = places(text);
    let at = match find_place(found.as_slice(), key) {
        Some(b) => Spot::of_byte(text, b),
        None => None,
    };
    Problem { source: source.to_owned(), at, message }
}

/// Whether `names` holds `n` before position `k`.
fn listed_before(names: &Vec<String>, k: usize, n: &String) -> (r: bool)
    requires
        k <= names@.len(),
    ensures
        r == lists(names@.take(k as int), n@),
{
    for j in 0..k
        invariant
            k <= names@.len(),
            forall|j2: int| 0 <= j2 < j ==> names@[j2]@ != n@,
    {
        if names[j] == *n {
            assert(names@.take(k as int)[j as int] == names@[j as int]);
            return true;
        }
    }
    proof {
        assert forall|j2: int| 0 <= j2 < k implies names@.take(k as int)[j2]@ != n@ by {
            assert(names@.take(k as int)[j2] == names@[j2]);
        }
    }
    false
}

/// Whether `names` holds `n`.
fn holds(names: &Vec<String>, n: &String) -> (r: bool)
    ensures
        r == lists(names@, n@),
{
    for j in 0..names.len()
        invariant
            forall|j2: int| 0 <= j2 < j ==> names@[j2]@ != n@,
    {
        if names[j] == *n {
            return true;
        }
    }
    false
}

impl Unit {
    /// A relation and the key it is written under.
    fn relation_at(&self, f: usize) -> (r: (&'static str, &Vec<String>))
        requires
            f < 5,
        ensures
            r.0@ == relation_field(f as int),
            r.1@ == relation(*self, f as int),
    {
        if f == 0 {
            ("requires", &self.requires)
        } else if f == 1 {
            ("wants", &self.wants)
        } else if f == 2 {
            ("after", &self.after)
        } else if f == 3 {
            ("before", &self.before)
        } else {
            ("conflicts", &self.conflicts)
        }
    }
}


/// Entry `k` of relation `f` is a name other than blank, other than the
/// unit's own, and not listed earlier in the same relation.
pub open spec fn entry_ok(u: Unit, f: int, k: int) -> bool {
    let n = relation(u, f)[k]@;
    !blank(n) && n != u.name@ && !lists(relation(u, f).take(k), n)
}

/// The rules a unit has to pass, as the unit files' documentation gives them:
/// something to start, a description, relations without blank names, the
/// unit itself or a name twice, no name both in `conflicts` and in `requires`
/// or `wants`, no restarts asked for with a limit of 0, no timeout of 0,
/// an `=` in every environment entry, and no oneshot that always restarts.
pub open spec fn obeys_rules(u: Unit) -> bool {
    &&& !blank(u.start@)
    &&& !blank(u.description@)
    &&& forall|f: int, k: int| 0 <= f < 5 && 0 <= k < relation(u, f).len() ==> #[trigger] entry_ok(u, f, k)
    &&& forall|k: int| 0 <= k < u.conflicts@.len() ==> !lists(u.requires@, #[trigger] u.conflicts@[k]@) && !lists(
        u.wants@,
        u.conflicts@[k]@,
    )
    &&& !(u.restart != Restart::Never && u.restart_limit == 0)
    &&& u.start_timeout != 0
    &&& u.stop_timeout != 0
    &&& forall|k: int| 0 <= k < u.environment@.len() ==> (#[trigger] u.environment@[k])@.contains('=')
    &&& !(u.kind == Kind::Oneshot && u.restart == Restart::Always)
}

proof fn lemma_relations_complaint(u: Unit, f: int, k: int)
    requires
        0 <= f <= 5,
        0 <= k,
    ensures
        relations_complaint(u, f, k) is None <==> {
            &&& forall|k2: int| k <= k2 < relation(u, f).len() && f < 5 ==> #[trigger] entry_ok(u, f, k2)
            &&& forall|f2: int, k2: int| f < f2 < 5 && 0 <= k2 < relation(u, f2).len() ==> #[trigger] entry_ok(u, f2, k2)
        },
    decreases 5 - f, relation(u, f).len() - k,
{
    if f < 5 {
        if k >= relation(u, f).len() {
            lemma_relations_complaint(u, f + 1, 0);
        } else {
            lemma_relations_complaint(u, f, k + 1);
            assert(entry_ok(u, f, k) == (entry_complaint(u, f, k) is None));
        }
    }
}

proof fn lemma_conflict_complaint(u: Unit, k: int)
    requires
        0 <= k,
    ensures
        conflict_complaint(u, k) is None <==> forall|k2: int| k <= k2 < u.conflicts@.len() ==> !lists(
            u.requires@,
            #[trigger] u.conflicts@[k2]@,
        ) && !lists(u.wants@, u.conflicts@[k2]@),
    decreases u.conflicts@.len() - k,
{
    if k < u.conflicts@.len() {
        lemma_conflict_complaint(u, k + 1);
    }
}

proof fn lemma_environment_complaint(u: Unit, k: int)
    requires
        0 <= k,
    ensures
        environment_complaint(u, k) is None <==> forall|k2: int| k <= k2 < u.environment@.len() ==> (
        #[trigger] u.environment@[k2])@.contains('='),
    decreases u.environment@.len() - k,
{
    if k < u.environment@.len() {
        lemma_environment_complaint(u, k + 1);
    }
}

/// A unit draws no complaint exactly when it passes every rule.
pub proof fn no_complaint_means_every_rule_holds(u: Unit)
    ensures
        complaint(u) is None <==> obeys_rules(u),
{
    lemma_relations_complaint(u, 0, 0);
    lemma_conflict_complaint(u, 0);
    lemma_environment_complaint(u, 0);
}

/// A complaint as plain values: the message and the key to point at.
pub open spec fn pair_view(r: Option<(String, &str)>) -> Option<(Seq<char>, Seq<char>)> {
    match r {
        Some((m, key)) => Some((m@, key@)),
        None => None,
    }
}

/// `r` is what checking a unit with complaint `c` in file `source` with
/// contents `text`, answers:
/// nothing when there is no complaint, else a problem with the file, the
/// message, and the spot where the key at fault is set.
pub open spec fn answered(
    r: Result<(), Problem>,
    source: Seq<char>,
    text: Seq<char>,
    c: Option<(Seq<char>, Seq<char>)>,
) -> bool {
    match c {
        None => r is Ok,
        Some((m, key)) => match r {
            Err(p) => p.source@ == source && p.message@ == m && spot_view(p.at) == key_spot(text, key),
            Ok(_) => false,
        },
    }
}

/// `a`, then `b`, as one text.
fn joined(a: &str, b: &str) -> (r: String)
    ensures
        r@ == a@ + b@,
{
    let mut r = String::from_str(a);
    r.append(b);
    r
}

impl Unit {
    /// The first complaint about an entry of a relation.
    fn relations_check(&self) -> (r: Option<(String, &'static str)>)
        ensures
            pair_view(r) == relations_complaint(*self, 0, 0),
    {
        for f in 0..5usize
            invariant
                relations_complaint(*self, 0, 0) == relations_complaint(*self, f as int, 0),
        {
            let (field, names) = self.relation_at(f);
            for k in 0..names.len()
                invariant
                    f < 5,
                    field@ == relation_field(f as int),
                    names@ == relation(*self, f as int),
                    relations_complaint(*self, 0, 0) == relations_complaint(*self, f as int, k as int),
            {
                let name = &names[k];
                let ghost c = entry_complaint(*self, f as int, k as int);
                if is_blank(name.as_str()) {
                    let m = joined(field, " has an empty name in it");
                    assert(c == Some(m@));
                    return Some((m, field));
                }
                if *name == self.name {
                    let m = joined(field, " lists ");
                    let m = joined(m.as_str(), name.as_str());
                    let m = joined(m.as_str(), ", which is this unit itself");
                    assert(c == Some(m@));
                    return Some((m, field));
                }
                if listed_before(names, k, name) {
                    let m = joined(field, " lists ");
                    let m = joined(m.as_str(), name.as_str());
                    let m = joined(m.as_str(), " twice");
                    assert(c == Some(m@));
                    return Some((m, field));
                }
                assert(c is None);
            }
        }
        None
    }

    /// The first name that is both in `conflicts` and in `requires` or `wants`.
    fn conflicts_check(&self) -> (r: Option<String>)
        ensures
            match r {
                Some(m) => conflict_complaint(*self, 0) == Some(m@),
                None => conflict_complaint(*self, 0) is None,
            },
    {
        for k in 0..self.conflicts.len()
            invariant
                conflict_complaint(*self, 0) == conflict_complaint(*self, k as int),
        {
            let name = &self.conflicts[k];
            if holds(&self.requires, name) || holds(&self.wants, name) {
                return Some(joined(name.as_str(), " is in conflicts and also in requires or wants"));
            }
        }
        None
    }

    /// The first environment entry that is not of the form `NAME=value`.
    fn environment_check(&self) -> (r: Option<String>)
        ensures
            match r {
                Some(m) => environment_complaint(*self, 0) == Some(m@),
                None => environment_complaint(*self, 0) is None,
            },
    {
        for k in 0..self.environment.len()
            invariant
                environment_complaint(*self, 0) == environment_complaint(*self, k as int),
        {
            let entry = &self.environment[k];
            if !has_char(entry.as_str(), '=') {
                let m = joined("environment entry ", debug_quoted(entry.as_str()).as_str());
                return Some(joined(m.as_str(), " has no '=', expected NAME=value"));
            }
        }
        None
    }

    /// The first rule this unit breaks, with the key to point at.
    fn first_complaint(&self) -> (r: Option<(String, &'static str)>)
        ensures
            pair_view(r) == complaint(*self),
    {
        if is_blank(self.start.as_str()) {
            return Some((String::from_str("start is empty, so there is nothing to run"), "start"));
        }
        if is_blank(self.description.as_str()) {
            return Some((
                String::from_str("description is empty, and it is what people see in status"),
                "description",
            ));
        }
        let relations = self.relations_check();
        if relations.is_some() {
            return relations;
        }
        match self.conflicts_check() {
            Some(m) => {
                return Some((m, "conflicts"));
            },
            None => {},
        }
        if self.restart != Restart::Never && self.restart_limit == 0 {
            return Some((
                String::from_str("restart_limit is 0, which asks for restarts and forbids them at once"),
                "restart_limit",
            ));
        }
        if self.start_timeout == 0 {
            return Some((
                String::from_str("start_timeout is 0, which would give up before the process starts"),
                "start_timeout",
            ));
        }
        if self.stop_timeout == 0 {
            return Some((
                String::from_str("stop_timeout is 0, which would give up before the process starts"),
                "stop_timeout",
            ));
        }
        match self.environment_check() {
            Some(m) => {
                return Some((m, "environment"));
            },
            None => {},
        }
        if self.kind == Kind::Oneshot && self.restart == Restart::Always {
            return Some((
                String::from_str("a oneshot service with restart = \"always\" would never stop running"),
                "restart",
            ));
        }
        None
    }

    /// Checks the rules a unit read from `source`, whose contents are `text`,
    /// has to pass; a refusal names the file, says what is wrong, and points
    /// at the line and column where the parser found the key at fault set,
    /// as `toml::de::DeTable::parse` finds it in `[unit]` or `[service]`.
    pub fn check(&self, source: &str, text: &str) -> (r: Result<(), Problem>)
        requires
            text@.len() < usize::MAX,
        ensures
            answered(r, source@, text@, complaint(*self)),
            r is Ok <==> obeys_rules(*self),
    {
        proof {
            no_complaint_means_every_rule_holds(*self);
        }
        match self.first_complaint() {
            None => Ok(()),
            Some((message, key)) => Err(complain(source, text, message, key)),
        }
    }
}

/// The file name ending that marks a unit file.
pub const SUFFIX: &'static str = ".toml";

/// The unit name a file name gives: the file name without [`SUFFIX`], when it
/// ends in it and something is left.
pub open spec fn stem_of(file: Seq<char>) -> Option<Seq<char>> {
    if SUFFIX@.is_suffix_of(file) && file.len() > SUFFIX@.len() {
        Some(file.take(file.len() - SUFFIX@.len()))
    } else {
        None
    }
}

/// `str::strip_suffix` with a text as the pattern.
#[verifier::external_body]
fn strip_suffix<'a>(s: &'a str, suffix: &str) -> (r: Option<&'a str>)
    ensures
        match r {
            Some(t) => suffix@.is_suffix_of(s@) && t@ == s@.take(s@.len() - suffix@.len()),
            None => !suffix@.is_suffix_of(s@),
        },
{
    s.strip_suffix(suffix)
}

impl Unit {
    /// The name of the unit a file describes, from the file's name alone.
    pub fn name_from_file(file: &str) -> (r: Option<&str>)
        ensures
            match r {
                Some(t) => stem_of(file@) == Some(t@),
                None => stem_of(file@) is None,
            },
    {
        match strip_suffix(file, SUFFIX) {
            Some(stem) => {
                if stem.is_empty() {
                    None
                } else {
                    Some(stem)
                }
            },
            None => None,
        }
    }
}

/// How long to wait before a restart, in seconds, when the file does not say.
pub const DEFAULT_RESTART_DELAY: u64 = 1;

/// How many restarts in a row to allow, when the file does not say.
pub const DEFAULT_RESTART_LIMIT: u32 = 5;

/// How long a start may take, in seconds, when the file does not say.
pub const DEFAULT_START_TIMEOUT: u64 = 30;

/// How long a stop may take, in seconds, when the file does not say.
pub const DEFAULT_STOP_TIMEOUT: u64 = 10;

/// The `[unit]` table of a unit file, as read; an absent list is empty.
#[derive(Debug, Clone, PartialEq, Eq)]
pub struct Meta {
    pub description: String,
    pub requires: Vec<String>,
    pub wants: Vec<String>,
    pub after: Vec<String>,
    pub before: Vec<String>,
    pub conflicts: Vec<String>,
}

/// The `[service]` table of a unit file, as read; `None` where a key with a
/// default was left out.
#[derive(Debug, Clone, PartialEq, Eq)]
pub struct Service {
    pub start: String,
    pub stop: Option<String>,
    pub kind: Option<Kind>,
    pub restart: Option<Restart>,
    pub restart_delay: Option<u64>,
    pub restart_limit: Option<u32>,
    pub start_timeout: Option<u64>,
    pub stop_timeout: Option<u64>,
    pub directory: Option<String>,
    pub environment: Vec<String>,
}

/// `v`, or `d` when it is absent.
pub open spec fn or_else<T>(v: Option<T>, d: T) -> T {
    match v {
        Some(x) => x,
        None => d,
    }
}

/// The unit called `name` that the two tables of its file describe, with the
/// defaults filled in.
pub open spec fn assembled(name: String, meta: Meta, service: Service) -> Unit {
    Unit {
        name,
        description: meta.description,
        requires: meta.requires,
        wants: meta.wants,
        after: meta.after,
        before: meta.before,
        conflicts: meta.conflicts,
        kind: or_else(service.kind, Kind::Simple),
        start: service.start,
        stop: service.stop,
        restart: or_else(service.restart, Restart::Never),
        restart_delay: or_else(service.restart_delay, DEFAULT_RESTART_DELAY),
        restart_limit: or_else(service.restart_limit, DEFAULT_RESTART_LIMIT),
        start_timeout: or_else(service.start_timeout, DEFAULT_START_TIMEOUT),
        stop_timeout: or_else(service.stop_timeout, DEFAULT_STOP_TIMEOUT),
        directory: service.directory,
        environment: service.environment,
    }
}

/// `r` is what reading unit `u` from `source`, whose contents are `text` and
/// gives: the unit when it breaks no
/// rule, else the problem with the first rule it breaks.
pub open spec fn read_as(r: Result<Unit, Problem>, source: Seq<char>, text: Seq<char>, u: Unit) -> bool {
    match r {
        Ok(v) => v == u && complaint(u) is None,
        Err(p) => answered(Err(p), source, text, complaint(u)),
    }
}

impl Unit {
    /// The unit called `name` that the tables `meta` and `service` of the file
    /// `source`, whose contents are `text`, describe; refused when it breaks
    /// a rule, pointing at where the key at fault is set in `text`.
    pub fn assemble(
        name: String,
        source: &str,
        text: &str,
        meta: Meta,
        service: Service,
    ) -> (r: Result<Unit, Problem>)
        requires
            text@.len() < usize::MAX,
        ensures
            read_as(r, source@, text@, assembled(name, meta, service)),
            r is Ok <==> obeys_rules(assembled(name, meta, service)),
            r matches Ok(u) ==> {
                &&& u.name == name
                &&& u.description == meta.description
                &&& u.requires == meta.requires
                &&& u.wants == meta.wants
                &&& u.after == meta.after
                &&& u.before == meta.before
                &&& u.conflicts == meta.conflicts
                &&& u.start == service.start
                &&& u.stop == service.stop
                &&& u.directory == service.directory
                &&& u.environment == service.environment
                &&& u.kind == (if service.kind is Some { service.kind->0 } else { Kind::Simple })
                &&& u.restart == (if service.restart is Some { service.restart->0 } else { Restart::Never })
                &&& u.restart_delay == (if service.restart_delay is Some { service.restart_delay->0 } else { 1 })
                &&& u.restart_limit == (if service.restart_limit is Some { service.restart_limit->0 } else { 5 })
                &&& u.start_timeout == (if service.start_timeout is Some { service.start_timeout->0 } else { 30 })
                &&& u.stop_timeout == (if service.stop_timeout is Some { service.stop_timeout->0 } else { 10 })
            },
    {
        let unit = Unit {
            name,
            description: meta.description,
            requires: meta.requires,
            wants: meta.wants,
            after: meta.after,
            before: meta.before,
            conflicts: meta.conflicts,
            kind: match service.kind {
                Some(k) => k,
                None => Kind::Simple,
            },
            start: service.start,
            stop: service.stop,
            restart: match service.restart {
                Some(p) => p,
                None => Restart::Never,
            },
            restart_delay: match service.restart_delay {
                Some(d) => d,
                None => DEFAULT_RESTART_DELAY,
            },
            restart_limit: match service.restart_limit {
                Some(d) => d,
                None => DEFAULT_RESTART_LIMIT,
            },
            start_timeout: match service.start_timeout {
                Some(d) => d,
                None => DEFAULT_START_TIMEOUT,
            },
            stop_timeout: match service.stop_timeout {
                Some(d) => d,
                None => DEFAULT_STOP_TIMEOUT,
            },
            directory: service.directory,
            environment: service.environment,
        };
        match unit.check(source, text) {
            Ok(()) => Ok(unit),
            Err(p) => Err(p),
        }
    }
}

/// A unit is what its tables say: every value a table gives is kept as it
/// is, and each key left out gets its documented default (a simple service
/// that is never restarted, a second between tries, five tries, thirty
/// seconds to start and ten to stop).
pub proof fn a_unit_keeps_what_its_tables_give(name: String, meta: Meta, service: Service)
    ensures
        ({
            let u = assembled(name, meta, service);
            &&& u.name == name
            &&& u.description == meta.description
            &&& u.requires == meta.requires
            &&& u.wants == meta.wants
            &&& u.after == meta.after
            &&& u.before == meta.before
            &&& u.conflicts == meta.conflicts
            &&& u.start == service.start
            &&& u.stop == service.stop
            &&& u.directory == service.directory
            &&& u.environment == service.environment
            &&& (service.kind matches Some(k) ==> u.kind == k)
            &&& (service.kind is None ==> u.kind == Kind::Simple)
            &&& (service.restart matches Some(p) ==> u.restart == p)
            &&& (service.restart is None ==> u.restart == Restart::Never)
            &&& (service.restart_delay matches Some(d) ==> u.restart_delay == d)
            &&& (service.restart_delay is None ==> u.restart_delay == 1)
            &&& (service.restart_limit matches Some(d) ==> u.restart_limit == d)
            &&& (service.restart_limit is None ==> u.restart_limit == 5)
            &&& (service.start_timeout matches Some(d) ==> u.start_timeout == d)
            &&& (service.start_timeout is None ==> u.start_timeout == 30)
            &&& (service.stop_timeout matches Some(d) ==> u.stop_timeout == d)
            &&& (service.stop_timeout is None ==> u.stop_timeout == 10)
        }),
{
}

/// The spot of byte `byte` of `text`: the line it falls on (from 1), its
/// column in chars (from 1), and that line's text; `None` when `byte` is not
/// at a char's start or the end, or falls after the last line.
pub open spec fn byte_spot(text: Seq<char>, byte: int) -> Option<(int, int, Seq<char>)> {
    let bytes = encode_utf8(text);
    if is_char_boundary(bytes, byte) {
        let upto = decode_utf8(bytes.subrange(0, byte));
        let line = occurrences(upto, '\n') + 1;
        if line - 1 < lines_of(text).len() {
            Some((line, tail_len(upto) + 1, lines_of(text)[line - 1]))
        } else {
            None
        }
    } else {
        None
    }
}

impl Spot {
    /// Where byte `byte` of `text` is.
    pub fn of_byte(text: &str, byte: usize) -> (r: Option<Spot>)
        requires
            text@.len() < usize::MAX,
        ensures
            spot_view(r) == byte_spot(text@, byte as int),
    {
        proof {
            encode_utf8_valid_utf8(text@);
        }
        if !text.is_char_boundary(byte) {
            return None;
        }
        let (upto, _rest) = text.split_at(byte);
        proof {
            let bytes = encode_utf8(text@);
            encode_utf8_decode_utf8(upto@);
            encode_utf8_decode_utf8(text@);
            decode_utf8_split(bytes, byte as int);
            assert(upto@ == decode_utf8(bytes.subrange(0, byte as int)));
        }
        let (newlines, tail) = newlines_and_tail(upto);
        let ls = lines(text);
        if newlines < ls.len() {
            Some(Spot { line: newlines + 1, column: tail + 1, text: ls[newlines].to_owned() })
        } else {
            None
        }
    }
}

/// A line of a parser's message that says nothing by itself: blank, part of
/// the drawing of the spot (a `|` or `^` line, or a line number before a
/// `|`), or the header.
pub open spec fn noise(l: Seq<char>) -> bool {
    let t = trimmed(l);
    ||| t.len() == 0
    ||| "|"@.is_prefix_of(t)
    ||| "^"@.is_prefix_of(t)
    ||| "TOML parse error"@.is_prefix_of(t)
    ||| (t.contains('|') && u32_text(trimmed(t.take(first_index(t, '|')))))
}

/// The last line of `ls` before line `k` that is not noise.
pub open spec fn last_signal(ls: Seq<Seq<char>>, k: int) -> Option<int>
    decreases k,
{
    if k <= 0 {
        None
    } else if !noise(ls[k - 1]) {
        Some(k - 1)
    } else {
        last_signal(ls, k - 1)
    }
}

/// What is worth keeping of a parser's message: its last line that is not
/// noise, trimmed; the whole message, trimmed, when every line is noise.
pub open spec fn useful_part(message: Seq<char>) -> Seq<char> {
    let ls = lines_of(message);
    match last_signal(ls, ls.len() as int) {
        Some(i) => trimmed(ls[i]),
        None => trimmed(message),
    }
}

/// Whether a line of a parser's message is noise.
fn is_noise(l: &str) -> (r: bool)
    ensures
        r == noise(l@),
{
    let t = trim(l);
    if t.is_empty() || starts_with(t, "|") || starts_with(t, "^") || starts_with(t, "TOML parse error") {
        return true;
    }
    match split_once(t, '|') {
        Some((before, _after)) => is_u32_text(trim(before)),
        None => false,
    }
}

/// What is worth keeping of a parser's message.
pub fn useful_part_of(message: &str) -> (r: String)
    ensures
        r@ == useful_part(message@),
{
    let ls = lines(message);
    let ghost all = lines_of(message@);
    let mut k = ls.len();
    while k > 0
        invariant
            all == lines_of(message@),
            ls@.len() == all.len(),
            forall|j: int| 0 <= j < ls@.len() ==> (#[trigger] ls@[j])@ == all[j],
            k <= ls@.len(),
            last_signal(all, all.len() as int) == last_signal(all, k as int),
        decreases k,
    {
        if !is_noise(ls[k - 1]) {
            return trim(ls[k - 1]).to_owned();
        }
        k = k - 1;
    }
    trim(message).to_owned()
}

impl Problem {
    /// The problem with a file the parser could not read: `at` is the byte
    /// the parser points at, if it points anywhere, and `message` what it said.
    pub fn unparsable(source: &str, text: &str, at: Option<usize>, message: &str) -> (p: Problem)
        requires
            text@.len() < usize::MAX,
        ensures
            p.source@ == source@,
            p.message@ == useful_part(message@),
            spot_view(p.at) == match at {
                Some(b) => byte_spot(text@, b as int),
                None => None,
            },
    {
        let spot = match at {
            Some(b) => Spot::of_byte(text, b),
            None => None,
        };
        Problem { source: source.to_owned(), at: spot, message: useful_part_of(message) }
    }
}

/// `n` spaces.
pub open spec fn blanks(n: int) -> Seq<char> {
    Seq::new(if n > 0 { n as nat } else { 0 }, |i: int| ' ')
}

/// How a problem reads: the file and the message, and where there is a spot,
/// the line and column, then the line itself under a gutter with its
/// number and a caret under the column.
pub open spec fn problem_text(p: Problem) -> Seq<char> {
    match p.at {
        None => p.source@ + ": "@ + p.message@,
        Some(s) => {
            let gutter = decimal_text(s.line as nat);
            let blank = blanks(gutter.len() as int);
            p.source@ + ":"@ + gutter + ":"@ + decimal_text(s.column as nat) + ": "@ + p.message@
                + "\n"@ + blank + " |\n"@ + gutter + " | "@ + s.text@ + "\n"@ + blank + " | "@
                + blanks(s.column - 1) + "^"@
        },
    }
}

impl Problem {
    /// The problem as it is shown to people.
    pub fn to_string(&self) -> (r: String)
        ensures
            r@ == problem_text(*self),
    {
        match &self.at {
            None => {
                let r = joined(self.source.as_str(), ": ");
                joined(r.as_str(), self.message.as_str())
            },
            Some(spot) => {
                let gutter = decimal(spot.line);
                let blank = spaces(char_count(gutter.as_str()));
                let caret = spaces(if spot.column > 0 { spot.column - 1 } else { 0 });
                let mut r = String::from_str(self.source.as_str());
                r.append(":");
                r.append(gutter.as_str());
                r.append(":");
                r.append(decimal(spot.column).as_str());
                r.append(": ");
                r.append(self.message.as_str());
                r.append("\n");
                r.append(blank.as_str());
                r.append(" |\n");
                r.append(gutter.as_str());
                r.append(" | ");
                r.append(spot.text.as_str());
                r.append("\n");
                r.append(blank.as_str());
                r.append(" | ");
                r.append(caret.as_str());
                r.append("^");
                proof {
                    assert(blank@ =~= blanks(gutter@.len() as int));
                    assert(caret@ =~= blanks(spot.column - 1));
                }
                r
            },
        }
    }
}

} // verus!
