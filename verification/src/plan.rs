//! Executable test plans: named commands with their expected exit codes.

use vstd::prelude::*;

use crate::text::{lemma_lex_irrefl, lemma_lex_total, lemma_lex_trans, lex_lt, str_eq, str_lt};
use vstd::std_specs::cmp::PartialEqSpec;

verus! {

/// How a planned test is launched.
#[derive(Debug, Clone)]
pub enum PlanCommand {
    /// A command line handed to the shell.
    Shell(String),
    /// A program and its arguments, executed directly.
    Exec(Vec<String>),
}

/// The space-joined rendering of the first `i` arguments.
pub open spec fn join_spaced(args: Seq<String>, i: int) -> Seq<char>
    decreases i,
{
    if i <= 0 {
        Seq::empty()
    } else if i == 1 {
        args[0]@
    } else {
        join_spaced(args, i - 1) + seq![' '] + args[i - 1]@
    }
}

/// What [`PlanCommand::display`] renders.
pub open spec fn spec_display(c: PlanCommand) -> Seq<char> {
    match c {
        PlanCommand::Shell(cmd) => "sh -c '"@ + cmd@ + "'"@,
        PlanCommand::Exec(args) => join_spaced(args@, args@.len() as int),
    }
}

/// Element-wise equality of two argument lists.
pub open spec fn strings_eq(a: Seq<String>, b: Seq<String>) -> bool {
    a.len() == b.len() && forall|i: int| 0 <= i < a.len() ==> a[i]@ == b[i]@
}

impl PlanCommand {
    /// A human-readable rendering of the command.
    pub fn display(&self) -> (r: String)
        ensures
            r@ == spec_display(*self),
    {
        match self {
            PlanCommand::Shell(cmd) => {
                let mut out = "sh -c '".to_owned();
                out.append(cmd.as_str());
                out.append("'");
                out
            },
            PlanCommand::Exec(args) => {
                let mut out = String::new();
                let mut i: usize = 0;
                while i < args.len()
                    invariant
                        0 <= i <= args@.len(),
                        out@ == join_spaced(args@, i as int),
                    decreases args@.len() - i,
                {
                    if i > 0 {
                        out.append(" ");
                        proof {
                            reveal_strlit(" ");
                            assert(" "@ =~= seq![' ']);
                        }
                    }
                    out.append(args[i].as_str());
                    i += 1;
                }
                out
            },
        }
    }
}

impl PartialEq for PlanCommand {
    /// Commands are equal when their shapes and texts agree.
    fn eq(&self, other: &PlanCommand) -> (r: bool) {
        match (self, other) {
            (PlanCommand::Shell(a), PlanCommand::Shell(b)) => *a == *b,
            (PlanCommand::Exec(a), PlanCommand::Exec(b)) => {
                if a.len() != b.len() {
                    return false;
                }
                let mut i: usize = 0;
                let mut ok = true;
                while i < a.len()
                    invariant
                        0 <= i <= a@.len(),
                        a@.len() == b@.len(),
                        ok == (forall|q: int| 0 <= q < i ==> a@[q]@ == b@[q]@),
                    decreases a@.len() - i,
                {
                    if !str_eq(a[i].as_str(), b[i].as_str()) {
                        ok = false;
                    }
                    i += 1;
                }
                ok
            },
            _ => false,
        }
    }
}

impl vstd::std_specs::cmp::PartialEqSpecImpl for PlanCommand {
    open spec fn obeys_eq_spec() -> bool {
        true
    }

    open spec fn eq_spec(&self, other: &PlanCommand) -> bool {
        match (self, other) {
            (PlanCommand::Shell(a), PlanCommand::Shell(b)) => a@ == b@,
            (PlanCommand::Exec(a), PlanCommand::Exec(b)) => strings_eq(a@, b@),
            _ => false,
        }
    }
}

/// One planned test: the command to execute and the exit codes to interpret
/// as success, failure or skipped.
#[derive(Debug, Clone)]
pub struct PlanTest {
    /// The command to execute.
    pub command: PlanCommand,
    /// The exit codes to interpret as success.
    pub success: Option<Vec<i32>>,
    /// The exit codes to interpret as failure.
    pub failure: Option<Vec<i32>>,
    /// The exit codes to interpret as skipped.
    pub skipped: Option<Vec<i32>>,
}

/// Equality of two optional exit-code lists.
pub open spec fn opt_codes_eq(a: Option<Vec<i32>>, b: Option<Vec<i32>>) -> bool {
    match (a, b) {
        (Some(x), Some(y)) => x@ == y@,
        (None, None) => true,
        _ => false,
    }
}

/// Equality of two optional exit-code lists, executably.
fn opt_codes_eq_exec(a: &Option<Vec<i32>>, b: &Option<Vec<i32>>) -> (r: bool)
    ensures
        r == opt_codes_eq(*a, *b),
{
    match (a, b) {
        (Some(x), Some(y)) => {
            if x.len() != y.len() {
                proof {
                    assert(x@ != y@);
                }
                return false;
            }
            let mut i: usize = 0;
            let mut ok = true;
            while i < x.len()
                invariant
                    0 <= i <= x@.len(),
                    x@.len() == y@.len(),
                    ok == (forall|q: int| 0 <= q < i ==> x@[q] == y@[q]),
                decreases x@.len() - i,
            {
                if x[i] != y[i] {
                    ok = false;
                }
                i += 1;
            }
            proof {
                if ok {
                    assert(x@ =~= y@);
                }
            }
            ok
        },
        (None, None) => true,
        _ => false,
    }
}

impl PartialEq for PlanTest {
    /// Planned tests are equal when command and all code lists agree.
    fn eq(&self, other: &PlanTest) -> (r: bool) {
        self.command == other.command && opt_codes_eq_exec(&self.success, &other.success)
            && opt_codes_eq_exec(&self.failure, &other.failure) && opt_codes_eq_exec(
            &self.skipped,
            &other.skipped,
        )
    }
}

impl vstd::std_specs::cmp::PartialEqSpecImpl for PlanTest {
    open spec fn obeys_eq_spec() -> bool {
        true
    }

    open spec fn eq_spec(&self, other: &PlanTest) -> bool {
        PartialEqSpec::eq_spec(&self.command, &other.command) && opt_codes_eq(self.success, other.success)
            && opt_codes_eq(self.failure, other.failure) && opt_codes_eq(
            self.skipped,
            other.skipped,
        )
    }
}

/// The planned test registered under `name`, scanning left to right.
pub open spec fn spec_lookup(s: Seq<(String, PlanTest)>, name: Seq<char>) -> Option<PlanTest>
    decreases s.len(),
{
    if s.len() == 0 {
        None
    } else if s[0].0@ == name {
        Some(s[0].1)
    } else {
        spec_lookup(s.skip(1), name)
    }
}

/// No two entries share a name.
pub open spec fn keys_unique(s: Seq<(String, PlanTest)>) -> bool {
    forall|i: int, j: int| 0 <= i < j < s.len() ==> s[i].0@ != s[j].0@
}

/// Names ascend strictly from entry to entry.
pub open spec fn names_ascending(s: Seq<(String, PlanTest)>) -> bool {
    forall|i: int| 0 <= i && i + 1 < s.len() ==> lex_lt((#[trigger] s[i].0)@, s[i + 1].0@)
}

/// Strictly ascending names are pairwise distinct.
proof fn lemma_ascending_unique(s: Seq<(String, PlanTest)>)
    requires
        names_ascending(s),
    ensures
        keys_unique(s),
{
    assert forall|i: int, j: int| 0 <= i < j < s.len() implies s[i].0@ != s[j].0@ by {
        lemma_names_chain(s, i, j);
        lemma_lex_irrefl(s[i].0@);
    }
}

/// In an ascending list, every earlier name orders before every later one.
proof fn lemma_names_chain(s: Seq<(String, PlanTest)>, i: int, j: int)
    requires
        names_ascending(s),
        0 <= i < j < s.len(),
    ensures
        lex_lt(s[i].0@, s[j].0@),
    decreases j - i,
{
    if j > i + 1 {
        lemma_names_chain(s, i, j - 1);
        lemma_lex_trans(s[i].0@, s[j - 1].0@, s[j].0@);
    }
}

/// A lookup finds the entry carrying its name.
proof fn lemma_lookup_at(s: Seq<(String, PlanTest)>, i: int)
    requires
        keys_unique(s),
        0 <= i < s.len(),
    ensures
        spec_lookup(s, s[i].0@) == Some(s[i].1),
    decreases s.len(),
{
    reveal_with_fuel(spec_lookup, 2);
    if i == 0 {
    } else {
        assert(s[0].0@ != s[i].0@);
        assert(keys_unique(s.skip(1))) by {
            assert forall|a: int, b: int| 0 <= a < b < s.skip(1).len() implies s.skip(1)[a].0@
                != s.skip(1)[b].0@ by {
                assert(s.skip(1)[a] == s[a + 1]);
                assert(s.skip(1)[b] == s[b + 1]);
            }
        }
        lemma_lookup_at(s.skip(1), i - 1);
        assert(s.skip(1)[i - 1] == s[i]);
    }
}

/// A name no entry carries is not found.
proof fn lemma_lookup_absent(s: Seq<(String, PlanTest)>, name: Seq<char>)
    requires
        forall|i: int| 0 <= i < s.len() ==> s[i].0@ != name,
    ensures
        spec_lookup(s, name) is None,
    decreases s.len(),
{
    reveal_with_fuel(spec_lookup, 2);
    if s.len() == 0 {
    } else {
        assert forall|i: int| 0 <= i < s.skip(1).len() implies s.skip(1)[i].0@ != name by {
            assert(s.skip(1)[i] == s[i + 1]);
        }
        lemma_lookup_absent(s.skip(1), name);
    }
}

/// Updating the entry at `i` changes only the lookup of its own name.
proof fn lemma_lookup_update(s: Seq<(String, PlanTest)>, i: int, p: (String, PlanTest), k: Seq<char>)
    requires
        keys_unique(s),
        0 <= i < s.len(),
        p.0@ == s[i].0@,
    ensures
        spec_lookup(s.update(i, p), k) == if k == p.0@ {
            Some(p.1)
        } else {
            spec_lookup(s, k)
        },
    decreases s.len(),
{
    reveal_with_fuel(spec_lookup, 2);
    let t = s.update(i, p);
    assert(keys_unique(t)) by {
        assert forall|a: int, b: int| 0 <= a < b < t.len() implies t[a].0@ != t[b].0@ by {
            assert(s[a].0@ != s[b].0@);
        }
    }
    if i == 0 {
        if k == p.0@ {
            assert(t[0] == p);
        } else {
            assert(t.skip(1) =~= s.skip(1));
        }
    } else {
        assert(t[0] == s[0]);
        if k == s[0].0@ {
            assert(k != p.0@);
        } else {
            assert(keys_unique(s.skip(1))) by {
                assert forall|a: int, b: int| 0 <= a < b < s.skip(1).len() implies s.skip(
                    1,
                )[a].0@ != s.skip(1)[b].0@ by {
                    assert(s.skip(1)[a] == s[a + 1]);
                    assert(s.skip(1)[b] == s[b + 1]);
                }
            }
            assert(s.skip(1)[i - 1] == s[i]);
            lemma_lookup_update(s.skip(1), i - 1, p, k);
            assert(t.skip(1) =~= s.skip(1).update(i - 1, p));
        }
    }
}

/// Inserting a fresh name anywhere changes only the lookup of that name.
proof fn lemma_lookup_insert(
    s: Seq<(String, PlanTest)>,
    q: int,
    p: (String, PlanTest),
    k: Seq<char>,
)
    requires
        0 <= q <= s.len(),
        forall|i: int| 0 <= i < s.len() ==> s[i].0@ != p.0@,
    ensures
        spec_lookup(s.insert(q, p), k) == if k == p.0@ {
            Some(p.1)
        } else {
            spec_lookup(s, k)
        },
    decreases s.len(),
{
    reveal_with_fuel(spec_lookup, 2);
    let t = s.insert(q, p);
    s.insert_ensures(q, p);
    if q == 0 {
        assert(t[0] == p);
        if k != p.0@ {
            assert(t.skip(1) =~= s);
        }
    } else {
        assert(t[0] == s[0]);
        if k == s[0].0@ {
            assert(k != p.0@);
        } else {
            assert forall|i: int| 0 <= i < s.skip(1).len() implies s.skip(1)[i].0@ != p.0@ by {
                assert(s.skip(1)[i] == s[i + 1]);
            }
            lemma_lookup_insert(s.skip(1), q - 1, p, k);
            assert(t.skip(1) =~= s.skip(1).insert(q - 1, p));
        }
    }
}

/// A test plan: a collection of planned tests, one per name.
#[derive(Debug, Clone)]
pub struct Plan {
    tests: Vec<(String, PlanTest)>,
}

impl Plan {
    /// The entries of the plan, in ascending name order.
    pub closed spec fn entries(self) -> Seq<(String, PlanTest)> {
        self.tests@
    }

    /// Every plan built through this interface keeps its entries in
    /// strictly ascending name order, so names are unique.
    pub closed spec fn wf(self) -> bool {
        keys_unique(self.tests@) && names_ascending(self.tests@)
    }

    /// An empty plan.
    pub fn new() -> (r: Plan)
        ensures
            r.wf(),
            r.entries().len() == 0,
    {
        Plan { tests: Vec::new() }
    }

    /// How many tests the plan holds.
    pub fn len(&self) -> (r: usize)
        ensures
            r == self.entries().len(),
    {
        self.tests.len()
    }

    /// The entries of the plan, in ascending name order.
    pub fn iter(&self) -> (r: &Vec<(String, PlanTest)>)
        requires
            self.wf(),
        ensures
            r@ == self.entries(),
            names_ascending(r@),
    {
        &self.tests
    }

    /// The planned test registered under `name`, if any.
    pub fn get(&self, name: &str) -> (r: Option<&PlanTest>)
        requires
            self.wf(),
        ensures
            match r {
                Some(t) => spec_lookup(self.entries(), name@) == Some(*t),
                None => spec_lookup(self.entries(), name@) is None,
            },
    {
        let mut i: usize = 0;
        while i < self.tests.len()
            invariant
                0 <= i <= self.tests@.len(),
                keys_unique(self.tests@),
                forall|q: int| 0 <= q < i ==> self.tests@[q].0@ != name@,
            decreases self.tests@.len() - i,
        {
            let entry = &self.tests[i];
            if str_eq(entry.0.as_str(), name) {
                proof {
                    lemma_lookup_at(self.tests@, i as int);
                }
                return Some(&entry.1);
            }
            i += 1;
        }
        proof {
            lemma_lookup_absent(self.tests@, name@);
        }
        None
    }

    /// Registers `test` under `name`, returning whatever was registered
    /// there before.  No other name's entry changes.
    pub fn insert(&mut self, name: &str, test: PlanTest) -> (r: Option<PlanTest>)
        requires
            old(self).wf(),
        ensures
            final(self).wf(),
            match r {
                Some(t) => spec_lookup(old(self).entries(), name@) == Some(t),
                None => spec_lookup(old(self).entries(), name@) is None,
            },
            spec_lookup(final(self).entries(), name@) == Some(test),
            forall|k: Seq<char>|
                k != name@ ==> spec_lookup(final(self).entries(), k) == spec_lookup(
                    old(self).entries(),
                    k,
                ),
    {
        let ghost s = self.tests@;
        let mut i: usize = 0;
        while i < self.tests.len()
            invariant
                0 <= i <= self.tests@.len(),
                self.tests@ == s,
                old(self).entries() == s,
                keys_unique(s),
                names_ascending(s),
                forall|q: int| 0 <= q < i ==> self.tests@[q].0@ != name@,
            decreases self.tests@.len() - i,
        {
            if str_eq(self.tests[i].0.as_str(), name) {
                let old_pair = self.tests.remove(i);
                let key = name.to_owned();
                self.tests.insert(i, (key, test));
                proof {
                    assert(self.tests@ =~= s.update(i as int, self.tests@[i as int]));
                    lemma_lookup_at(s, i as int);
                    assert forall|k: Seq<char>| k != name@ implies spec_lookup(
                        self.tests@,
                        k,
                    ) == spec_lookup(s, k) by {
                        lemma_lookup_update(s, i as int, self.tests@[i as int], k);
                    }
                    lemma_lookup_update(s, i as int, self.tests@[i as int], name@);
                    assert forall|w: int|
                        0 <= w && w + 1 < self.tests@.len() implies lex_lt(
                        (#[trigger] self.tests@[w].0)@,
                        self.tests@[w + 1].0@,
                    ) by {
                        assert(self.tests@[w].0@ == s[w].0@);
                        assert(self.tests@[w + 1].0@ == s[w + 1].0@);
                        assert(lex_lt(s[w].0@, s[w + 1].0@));
                    }
                    lemma_ascending_unique(self.tests@);
                }
                return Some(old_pair.1);
            }
            i += 1;
        }
        let key = name.to_owned();
        let mut q: usize = 0;
        while q < self.tests.len() && !str_lt(name, self.tests[q].0.as_str())
            invariant
                0 <= q <= self.tests@.len(),
                self.tests@ == s,
                name@ == key@,
                forall|w: int| 0 <= w < s.len() ==> s[w].0@ != name@,
                forall|w: int| 0 <= w < q ==> !lex_lt(name@, (#[trigger] s[w].0)@),
            decreases self.tests@.len() - q,
        {
            q += 1;
        }
        let ghost hit = q < s.len();
        proof {
            if hit {
                assert(lex_lt(name@, s[q as int].0@));
            }
        }
        self.tests.insert(q, (key, test));
        proof {
            let p = self.tests@[q as int];
            s.insert_ensures(q as int, p);
            assert(self.tests@ == s.insert(q as int, p));
            lemma_lookup_absent(s, name@);
            assert forall|k: Seq<char>| k != name@ implies spec_lookup(self.tests@, k)
                == spec_lookup(s, k) by {
                lemma_lookup_insert(s, q as int, p, k);
            }
            lemma_lookup_insert(s, q as int, p, name@);
            assert forall|w: int|
                0 <= w && w + 1 < self.tests@.len() implies lex_lt(
                (#[trigger] self.tests@[w].0)@,
                self.tests@[w + 1].0@,
            ) by {
                if w + 1 < q {
                    assert(self.tests@[w] == s[w]);
                    assert(self.tests@[w + 1] == s[w + 1]);
                } else if w + 1 == q {
                    assert(self.tests@[w] == s[w]);
                    assert(self.tests@[w + 1] == p);
                    lemma_lex_total(name@, s[w].0@);
                } else if w == q {
                    assert(self.tests@[w] == p);
                    assert(self.tests@[w + 1] == s[w]);
                    assert(hit && lex_lt(name@, s[q as int].0@));
                } else {
                    assert(self.tests@[w] == s[w - 1]);
                    assert(self.tests@[w + 1] == s[w]);
                }
            }
            lemma_ascending_unique(self.tests@);
        }
        None
    }
}

impl Default for Plan {
    /// The empty plan.
    fn default() -> (r: Plan)
        ensures
            r.wf(),
            r.entries().len() == 0,
    {
        Plan::new()
    }
}

/// The verdict a finished command maps to.
#[derive(Clone, Copy, Debug, PartialEq, Eq, Structural)]
pub enum Verdict {
    /// The exit code counts as success.
    Success,
    /// The exit code counts as an assertion failure.
    Failure,
    /// The exit code counts as skipped.
    Skipped,
    /// The exit code matches no configured list.
    Error,
}

/// Whether `code` is in the configured list, falling back to `fallback`
/// when no list was configured.
pub open spec fn code_listed(codes: Option<Vec<i32>>, fallback: Seq<i32>, code: i32) -> bool {
    match codes {
        Some(v) => v@.contains(code),
        None => fallback.contains(code),
    }
}

/// Whether `codes` (or its fallback) lists `code`.
fn listed(codes: &Option<Vec<i32>>, fallback: &[i32], code: i32) -> (r: bool)
    ensures
        r == code_listed(*codes, fallback@, code),
{
    let actual: &[i32] = match codes {
        Some(v) => v.as_slice(),
        None => fallback,
    };
    let mut i: usize = 0;
    while i < actual.len()
        invariant
            0 <= i <= actual@.len(),
            code_listed(*codes, fallback@, code) == actual@.contains(code),
            forall|q: int| 0 <= q < i ==> actual@[q] != code,
        decreases actual@.len() - i,
    {
        if actual[i] == code {
            proof {
                assert(actual@[i as int] == code);
                assert(actual@.contains(code));
            }
            return true;
        }
        i += 1;
    }
    proof {
        if actual@.contains(code) {
            let w = choose|w: int| 0 <= w < actual@.len() && actual@[w] == code;
            assert(false);
        }
    }
    false
}

impl PlanTest {
    /// The verdict for a command's exit code.  The success list is
    /// consulted first, then the failure list, then the skipped list;
    /// a code on none of them is an error.  When no success list is
    /// configured it defaults to `0`, the failure list to `1`, and the
    /// skipped list to nothing.
    pub fn classify(&self, code: i32) -> (r: Verdict)
        ensures
            (r == Verdict::Success) == code_listed(self.success, seq![0i32], code),
            (r == Verdict::Failure) == (!code_listed(self.success, seq![0i32], code)
                && code_listed(self.failure, seq![1i32], code)),
            (r == Verdict::Skipped) == (!code_listed(self.success, seq![0i32], code)
                && !code_listed(self.failure, seq![1i32], code) && code_listed(
                self.skipped,
                Seq::empty(),
                code,
            )),
            (r == Verdict::Error) == (!code_listed(self.success, seq![0i32], code)
                && !code_listed(self.failure, seq![1i32], code) && !code_listed(
                self.skipped,
                Seq::empty(),
                code,
            )),
    {
        let zero: [i32; 1] = [0];
        let one: [i32; 1] = [1];
        let none: [i32; 0] = [];
        proof {
            assert(zero@ =~= seq![0i32]);
            assert(one@ =~= seq![1i32]);
            assert(none@ =~= Seq::<i32>::empty());
        }
        if listed(&self.success, &zero, code) {
            Verdict::Success
        } else if listed(&self.failure, &one, code) {
            Verdict::Failure
        } else if listed(&self.skipped, &none, code) {
            Verdict::Skipped
        } else {
            Verdict::Error
        }
    }
}

} // verus!
