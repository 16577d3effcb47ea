//! The order in which system guests are booted.
//!
//! Guest names must be unique. Booting proceeds one guest at a time: of the
//! guests not yet booted whose dependencies all name booted guests, the one
//! whose name sorts first is booted next. When none qualifies, a dependency
//! that names no guest at all is reported (the first one of the first such
//! guest by name), and otherwise the remaining guests wait on one another in
//! a cycle.
use vstd::prelude::*;

use crate::text::push_str;

verus! {

// ---------------------------------------------------------------------
// Name order.
// ---------------------------------------------------------------------
/// The order strings sort in: character by character by code point, a
/// proper prefix first.
pub open spec fn lex_lt(a: Seq<char>, b: Seq<char>) -> bool
    decreases a.len(),
{
    if b.len() == 0 {
        false
    } else if a.len() == 0 {
        true
    } else if a[0] != b[0] {
        (a[0] as int) < (b[0] as int)
    } else {
        lex_lt(a.drop_first(), b.drop_first())
    }
}

/// No string sorts before itself, and of two strings at most one sorts
/// first.
pub proof fn lemma_lex_asymmetric(a: Seq<char>, b: Seq<char>)
    ensures
        !(lex_lt(a, b) && lex_lt(b, a)),
    decreases a.len(),
{
    if a.len() > 0 && b.len() > 0 && a[0] == b[0] {
        lemma_lex_asymmetric(a.drop_first(), b.drop_first());
    }
}

/// Sorting before is transitive.
pub proof fn lemma_lex_transitive(a: Seq<char>, b: Seq<char>, c: Seq<char>)
    requires
        lex_lt(a, b),
        lex_lt(b, c),
    ensures
        lex_lt(a, c),
    decreases a.len(),
{
    if a.len() > 0 && b.len() > 0 && c.len() > 0 && a[0] == b[0] && b[0] == c[0] {
        lemma_lex_transitive(a.drop_first(), b.drop_first(), c.drop_first());
    }
}

/// Of two different strings one sorts first.
pub proof fn lemma_lex_total(a: Seq<char>, b: Seq<char>)
    requires
        a != b,
    ensures
        lex_lt(a, b) || lex_lt(b, a),
    decreases a.len(),
{
    if a.len() == 0 && b.len() == 0 {
        assert(a =~= b);
    } else if a.len() > 0 && b.len() > 0 {
        if a[0] == b[0] {
            let (x, y) = (a.drop_first(), b.drop_first());
            if x == y {
                assert(x.len() == y.len());
                assert forall|i: int| 0 <= i < a.len() implies a[i] == b[i] by {
                    if i > 0 {
                        assert(a[i] == x[i - 1]);
                        assert(b[i] == y[i - 1]);
                    }
                }
                assert(a =~= b);
            }
            lemma_lex_total(x, y);
        } else {
            assert((a[0] as int) != (b[0] as int));
        }
    }
}

/// Whether `a` sorts before `b`.
fn lex_less(a: &Vec<char>, b: &Vec<char>) -> (r: bool)
    ensures
        r == lex_lt(a@, b@),
{
    let mut i: usize = 0;
    assert(a@.skip(0) =~= a@ && b@.skip(0) =~= b@);
    while i < a.len() && i < b.len()
        invariant
            i <= a.len(),
            i <= b.len(),
            lex_lt(a@, b@) == lex_lt(a@.skip(i as int), b@.skip(i as int)),
        decreases a.len() - i,
    {
        if a[i] != b[i] {
            assert(a@.skip(i as int)[0] == a@[i as int] && b@.skip(i as int)[0] == b@[i as int]);
            return a[i] < b[i];
        }
        proof {
            assert(a@.skip(i as int).drop_first() =~= a@.skip(i + 1));
            assert(b@.skip(i as int).drop_first() =~= b@.skip(i + 1));
        }
        i = i + 1;
    }
    a.len() < b.len()
}

/// The characters of a string.
fn chars_of(s: &String) -> (r: Vec<char>)
    ensures
        r@ == s@,
{
    let mut out: Vec<char> = Vec::new();
    push_str(&mut out, s.as_str());
    assert(out@ =~= s@);
    out
}

// ---------------------------------------------------------------------
// Guests.
// ---------------------------------------------------------------------
/// A system guest as the boot order sees it: its name and the names of the
/// guests it depends on.
#[derive(Clone, Debug, PartialEq, Eq)]
pub struct GuestDependencies {
    /// The guest's name.
    pub name: String,
    /// The names of the guests that must be booted first.
    pub dependencies: Vec<String>,
}

/// Why the guests cannot be booted.
#[derive(Clone, Debug, PartialEq, Eq)]
pub enum BootstrapError {
    /// Two guests have this name.
    DuplicateDescriptor(String),
    /// A dependency names no guest.
    UnknownDependency(String),
    /// The remaining guests depend on one another.
    DependencyCycle,
}

/// The name of guest `i`.
pub open spec fn name_of(gs: Seq<GuestDependencies>, i: int) -> Seq<char> {
    gs[i].name@
}

/// The `k`-th dependency of guest `i`.
pub open spec fn dep_of(gs: Seq<GuestDependencies>, i: int, k: int) -> Seq<char> {
    gs[i].dependencies@[k]@
}

/// Guest `i` has the name of an earlier guest.
pub open spec fn repeats_earlier(gs: Seq<GuestDependencies>, i: int) -> bool {
    exists|j: int| 0 <= j < i && #[trigger] name_of(gs, j) == name_of(gs, i)
}

/// No two guests share a name.
pub open spec fn names_distinct(gs: Seq<GuestDependencies>) -> bool {
    forall|i: int, j: int|
        0 <= i < gs.len() && 0 <= j < gs.len() && i != j ==> name_of(gs, i) != name_of(gs, j)
}

/// Guest `i` is the first to repeat an earlier name.
pub open spec fn is_first_repeat(gs: Seq<GuestDependencies>, i: int) -> bool {
    &&& 0 <= i < gs.len()
    &&& repeats_earlier(gs, i)
    &&& forall|k: int| 0 <= k < i ==> !repeats_earlier(gs, k)
}

/// The error names the guest `i`.
pub open spec fn names_duplicate(e: BootstrapError, gs: Seq<GuestDependencies>, i: int) -> bool {
    match e {
        BootstrapError::DuplicateDescriptor(s) => s@ == name_of(gs, i),
        _ => false,
    }
}

/// Check that guest names are unique, naming the first guest (in the given
/// order) whose name was already taken.
pub fn check_unique_names(guests: &[GuestDependencies]) -> (r: Result<(), BootstrapError>)
    ensures
        r is Ok <==> names_distinct(guests@),
        r matches Err(e) ==> exists|i: int| is_first_repeat(guests@, i) && names_duplicate(
            e,
            guests@,
            i,
        ),
{
    let ghost gs = guests@;
    let mut i: usize = 0;
    while i < guests.len()
        invariant
            gs == guests@,
            i <= gs.len(),
            forall|k: int| 0 <= k < i ==> !repeats_earlier(gs, k),
        decreases gs.len() - i,
    {
        let mut j: usize = 0;
        while j < i
            invariant
                gs == guests@,
                j <= i < gs.len(),
                forall|k: int| 0 <= k < i ==> !repeats_earlier(gs, k),
                forall|k: int| 0 <= k < j ==> name_of(gs, k) != name_of(gs, i as int),
            decreases i - j,
        {
            if guests[j].name == guests[i].name {
                let e = BootstrapError::DuplicateDescriptor(guests[i].name.clone());
                proof {
                    assert(name_of(gs, j as int) == name_of(gs, i as int));
                    assert(is_first_repeat(gs, i as int));
                    assert(names_duplicate(e, gs, i as int));
                    assert(!names_distinct(gs));
                }
                return Err(e);
            }
            j = j + 1;
        }
        i = i + 1;
    }
    proof {
        assert forall|a: int, b: int|
            0 <= a < gs.len() && 0 <= b < gs.len() && a != b implies name_of(gs, a) != name_of(
            gs,
            b,
        ) by {
            if a < b {
                assert(!repeats_earlier(gs, b));
            } else {
                assert(!repeats_earlier(gs, a));
            }
        }
    }
    Ok(())
}

// ---------------------------------------------------------------------
// The next guest to boot.
// ---------------------------------------------------------------------
/// Some booted guest is named `d`.
pub open spec fn named_by_done(gs: Seq<GuestDependencies>, done: Seq<bool>, d: Seq<char>) -> bool {
    exists|j: int| 0 <= j < gs.len() && done[j] && #[trigger] name_of(gs, j) == d
}

/// Some guest is named `d`.
pub open spec fn names_a_guest(gs: Seq<GuestDependencies>, d: Seq<char>) -> bool {
    exists|j: int| 0 <= j < gs.len() && #[trigger] name_of(gs, j) == d
}

/// Every dependency of guest `i` names a booted guest.
pub open spec fn deps_ready(gs: Seq<GuestDependencies>, done: Seq<bool>, i: int) -> bool {
    forall|k: int|
        0 <= k < gs[i].dependencies@.len() ==> named_by_done(gs, done, #[trigger] dep_of(gs, i, k))
}

/// Guest `i` is waiting and may boot now.
pub open spec fn is_candidate(gs: Seq<GuestDependencies>, done: Seq<bool>, i: int) -> bool {
    0 <= i < gs.len() && !done[i] && deps_ready(gs, done, i)
}

/// Guest `i` is the candidate whose name sorts first.
pub open spec fn is_next(gs: Seq<GuestDependencies>, done: Seq<bool>, i: int) -> bool {
    &&& is_candidate(gs, done, i)
    &&& forall|j: int|
        #[trigger] is_candidate(gs, done, j) && j != i ==> lex_lt(name_of(gs, i), name_of(gs, j))
}

/// Some dependency of guest `i` names no guest.
pub open spec fn has_unknown(gs: Seq<GuestDependencies>, i: int) -> bool {
    exists|k: int|
        0 <= k < gs[i].dependencies@.len() && !names_a_guest(gs, #[trigger] dep_of(gs, i, k))
}

/// Guest `i` is waiting on a dependency that names no guest.
pub open spec fn is_blocked(gs: Seq<GuestDependencies>, done: Seq<bool>, i: int) -> bool {
    0 <= i < gs.len() && !done[i] && has_unknown(gs, i)
}

/// Guest `i` is the blocked guest whose name sorts first.
pub open spec fn is_first_blocked(gs: Seq<GuestDependencies>, done: Seq<bool>, i: int) -> bool {
    &&& is_blocked(gs, done, i)
    &&& forall|j: int|
        #[trigger] is_blocked(gs, done, j) && j != i ==> lex_lt(name_of(gs, i), name_of(gs, j))
}

/// Dependency `k` is the first of guest `i`'s dependencies that names no
/// guest.
pub open spec fn is_first_unknown(gs: Seq<GuestDependencies>, i: int, k: int) -> bool {
    &&& 0 <= k < gs[i].dependencies@.len()
    &&& !names_a_guest(gs, dep_of(gs, i, k))
    &&& forall|m: int| 0 <= m < k ==> names_a_guest(gs, #[trigger] dep_of(gs, i, m))
}

/// Every guest is booted.
pub open spec fn all_done(done: Seq<bool>) -> bool {
    forall|i: int| 0 <= i < done.len() ==> done[i]
}

/// A boot step as a mathematical value.
pub enum StepView {
    /// Boot this guest.
    Spawn(int),
    /// Every guest is booted.
    Finished,
    /// Two guests have this name.
    Duplicate(Seq<char>),
    /// This dependency names no guest.
    Unknown(Seq<char>),
    /// The remaining guests depend on one another.
    Cycle,
}

/// What comes next, given which guests are booted.
pub open spec fn next_step(gs: Seq<GuestDependencies>, done: Seq<bool>) -> StepView {
    if all_done(done) {
        StepView::Finished
    } else if exists|i: int| is_candidate(gs, done, i) {
        StepView::Spawn(choose|i: int| is_next(gs, done, i))
    } else if exists|i: int| is_blocked(gs, done, i) {
        let i = choose|i: int| is_first_blocked(gs, done, i);
        let k = choose|k: int| is_first_unknown(gs, i, k);
        StepView::Unknown(dep_of(gs, i, k))
    } else {
        StepView::Cycle
    }
}

/// The next boot step.
#[derive(Clone, Debug, PartialEq, Eq)]
pub enum BootstrapStep {
    /// Boot the guest at this position.
    Spawn(usize),
    /// Every guest is booted.
    Finished,
    /// Booting cannot go on.
    Fail(BootstrapError),
}

/// A boot step as a mathematical value.
pub open spec fn step_view(s: BootstrapStep) -> StepView {
    match s {
        BootstrapStep::Spawn(i) => StepView::Spawn(i as int),
        BootstrapStep::Finished => StepView::Finished,
        BootstrapStep::Fail(BootstrapError::DuplicateDescriptor(n)) => StepView::Duplicate(n@),
        BootstrapStep::Fail(BootstrapError::UnknownDependency(d)) => StepView::Unknown(d@),
        BootstrapStep::Fail(BootstrapError::DependencyCycle) => StepView::Cycle,
    }
}

proof fn lemma_next_unique(gs: Seq<GuestDependencies>, done: Seq<bool>, i: int)
    requires
        is_next(gs, done, i),
    ensures
        (choose|j: int| is_next(gs, done, j)) == i,
{
    let j = choose|j: int| is_next(gs, done, j);
    if j != i {
        assert(is_candidate(gs, done, j));
        lemma_lex_asymmetric(name_of(gs, i), name_of(gs, j));
    }
}

proof fn lemma_first_blocked_unique(gs: Seq<GuestDependencies>, done: Seq<bool>, i: int)
    requires
        is_first_blocked(gs, done, i),
    ensures
        (choose|j: int| is_first_blocked(gs, done, j)) == i,
{
    let j = choose|j: int| is_first_blocked(gs, done, j);
    if j != i {
        assert(is_blocked(gs, done, j));
        lemma_lex_asymmetric(name_of(gs, i), name_of(gs, j));
    }
}

proof fn lemma_first_unknown_unique(gs: Seq<GuestDependencies>, i: int, k: int)
    requires
        is_first_unknown(gs, i, k),
    ensures
        (choose|m: int| is_first_unknown(gs, i, m)) == k,
{
    let m = choose|m: int| is_first_unknown(gs, i, m);
    if m < k {
        assert(names_a_guest(gs, dep_of(gs, i, m)));
    } else if m > k {
        assert(names_a_guest(gs, dep_of(gs, i, k)));
    }
}

/// Whether some booted guest is named `d`.
fn is_named_by_done(guests: &[GuestDependencies], done: &[bool], d: &String) -> (r: bool)
    requires
        done.len() == guests.len(),
    ensures
        r == named_by_done(guests@, done@, d@),
{
    let mut j: usize = 0;
    while j < guests.len()
        invariant
            done.len() == guests.len(),
            j <= guests.len(),
            forall|m: int| 0 <= m < j ==> !(done@[m] && name_of(guests@, m) == d@),
        decreases guests.len() - j,
    {
        if done[j] && guests[j].name == *d {
            assert(name_of(guests@, j as int) == d@);
            return true;
        }
        j = j + 1;
    }
    false
}

/// Whether some guest is named `d`.
fn is_guest_name(guests: &[GuestDependencies], d: &String) -> (r: bool)
    ensures
        r == names_a_guest(guests@, d@),
{
    let mut j: usize = 0;
    while j < guests.len()
        invariant
            j <= guests.len(),
            forall|m: int| 0 <= m < j ==> name_of(guests@, m) != d@,
        decreases guests.len() - j,
    {
        if guests[j].name == *d {
            assert(name_of(guests@, j as int) == d@);
            return true;
        }
        j = j + 1;
    }
    false
}

/// Whether every dependency of guest `i` names a booted guest.
fn dependencies_ready(guests: &[GuestDependencies], done: &[bool], i: usize) -> (r: bool)
    requires
        done.len() == guests.len(),
        i < guests.len(),
    ensures
        r == deps_ready(guests@, done@, i as int),
{
    let deps = &guests[i].dependencies;
    let mut k: usize = 0;
    while k < deps.len()
        invariant
            done.len() == guests.len(),
            i < guests.len(),
            deps@ == guests@[i as int].dependencies@,
            k <= deps.len(),
            forall|m: int| 0 <= m < k ==> named_by_done(guests@, done@, #[trigger] dep_of(guests@, i as int, m)),
        decreases deps.len() - k,
    {
        if !is_named_by_done(guests, done, &deps[k]) {
            assert(!named_by_done(guests@, done@, dep_of(guests@, i as int, k as int)));
            return false;
        }
        k = k + 1;
    }
    true
}

/// The first dependency of guest `i` that names no guest, if any.
fn first_unknown(guests: &[GuestDependencies], i: usize) -> (r: Option<usize>)
    requires
        i < guests.len(),
    ensures
        match r {
            Some(k) => is_first_unknown(guests@, i as int, k as int),
            None => !has_unknown(guests@, i as int),
        },
{
    let deps = &guests[i].dependencies;
    let mut k: usize = 0;
    while k < deps.len()
        invariant
            i < guests.len(),
            deps@ == guests@[i as int].dependencies@,
            k <= deps.len(),
            forall|m: int| 0 <= m < k ==> names_a_guest(guests@, #[trigger] dep_of(guests@, i as int, m)),
        decreases deps.len() - k,
    {
        if !is_guest_name(guests, &deps[k]) {
            return Some(k);
        }
        k = k + 1;
    }
    None
}

/// Decide the next boot step from which guests are booted (`done`, one flag
/// per guest). Guest names must be unique.
pub fn next_bootstrap_step(guests: &[GuestDependencies], done: &[bool]) -> (r: BootstrapStep)
    requires
        names_distinct(guests@),
        done.len() == guests.len(),
    ensures
        step_view(r) == next_step(guests@, done@),
{
    let ghost gs = guests@;
    let n = guests.len();
    let mut names: Vec<Vec<char>> = Vec::new();
    let mut i: usize = 0;
    while i < n
        invariant
            gs == guests@,
            n == gs.len(),
            i <= n,
            names@.len() == i,
            forall|k: int| 0 <= k < i ==> #[trigger] names@[k]@ == name_of(gs, k),
        decreases n - i,
    {
        names.push(chars_of(&guests[i].name));
        i = i + 1;
    }
    let mut waiting = false;
    let mut best: Option<usize> = None;
    let mut i: usize = 0;
    while i < n
        invariant
            gs == guests@,
            n == gs.len(),
            done@.len() == n,
            names_distinct(gs),
            names@.len() == n,
            forall|k: int| 0 <= k < n ==> #[trigger] names@[k]@ == name_of(gs, k),
            i <= n,
            waiting == exists|k: int| 0 <= k < i && !done@[k],
            match best {
                None => forall|k: int| 0 <= k < i ==> !is_candidate(gs, done@, k),
                Some(b) => b < i && is_candidate(gs, done@, b as int) && forall|k: int|
                    0 <= k < i && #[trigger] is_candidate(gs, done@, k) && k != b ==> lex_lt(
                        name_of(gs, b as int),
                        name_of(gs, k),
                    ),
            },
        decreases n - i,
    {
        if !done[i] {
            waiting = true;
            if dependencies_ready(guests, done, i) {
                match best {
                    None => {
                        best = Some(i);
                    },
                    Some(b) => {
                        if lex_less(&names[i], &names[b]) {
                            proof {
                                assert forall|k: int|
                                    0 <= k < i + 1 && #[trigger] is_candidate(gs, done@, k) && k
                                        != i implies lex_lt(name_of(gs, i as int), name_of(gs, k)) by {
                                    if k != b {
                                        lemma_lex_transitive(
                                            name_of(gs, i as int),
                                            name_of(gs, b as int),
                                            name_of(gs, k),
                                        );
                                    }
                                }
                            }
                            best = Some(i);
                        } else {
                            proof {
                                lemma_lex_total(name_of(gs, i as int), name_of(gs, b as int));
                            }
                        }
                    },
                }
            }
        }
        i = i + 1;
    }
    if !waiting {
        return BootstrapStep::Finished;
    }
    if let Some(b) = best {
        proof {
            lemma_next_unique(gs, done@, b as int);
        }
        return BootstrapStep::Spawn(b);
    }
    let mut holder: Option<(usize, usize)> = None;
    let mut i: usize = 0;
    while i < n
        invariant
            gs == guests@,
            n == gs.len(),
            done@.len() == n,
            names_distinct(gs),
            names@.len() == n,
            forall|k: int| 0 <= k < n ==> #[trigger] names@[k]@ == name_of(gs, k),
            i <= n,
            match holder {
                None => forall|k: int| 0 <= k < i ==> !is_blocked(gs, done@, k),
                Some((b, d)) => b < i && is_blocked(gs, done@, b as int) && is_first_unknown(
                    gs,
                    b as int,
                    d as int,
                ) && forall|k: int|
                    0 <= k < i && #[trigger] is_blocked(gs, done@, k) && k != b ==> lex_lt(
                        name_of(gs, b as int),
                        name_of(gs, k),
                    ),
            },
        decreases n - i,
    {
        if !done[i] {
            if let Some(d) = first_unknown(guests, i) {
                match holder {
                    None => {
                        holder = Some((i, d));
                    },
                    Some((b, _)) => {
                        if lex_less(&names[i], &names[b]) {
                            proof {
                                assert forall|k: int|
                                    0 <= k < i + 1 && #[trigger] is_blocked(gs, done@, k) && k
                                        != i implies lex_lt(name_of(gs, i as int), name_of(gs, k)) by {
                                    if k != b {
                                        lemma_lex_transitive(
                                            name_of(gs, i as int),
                                            name_of(gs, b as int),
                                            name_of(gs, k),
                                        );
                                    }
                                }
                            }
                            holder = Some((i, d));
                        } else {
                            proof {
                                lemma_lex_total(name_of(gs, i as int), name_of(gs, b as int));
                            }
                        }
                    },
                }
            }
        }
        i = i + 1;
    }
    match holder {
        Some((b, d)) => {
            proof {
                lemma_first_blocked_unique(gs, done@, b as int);
                lemma_first_unknown_unique(gs, b as int, d as int);
            }
            BootstrapStep::Fail(BootstrapError::UnknownDependency(guests[b].dependencies[d].clone()))
        },
        None => BootstrapStep::Fail(BootstrapError::DependencyCycle),
    }
}

// ---------------------------------------------------------------------
// Booting to the end.
// ---------------------------------------------------------------------
/// How many guests are still waiting.
pub open spec fn waiting_count(done: Seq<bool>) -> nat
    decreases done.len(),
{
    if done.len() == 0 {
        0
    } else {
        waiting_count(done.drop_last()) + if done.last() {
            0nat
        } else {
            1nat
        }
    }
}

/// Booting a waiting guest leaves one guest fewer waiting.
pub proof fn lemma_waiting_count_mark(done: Seq<bool>, i: int)
    requires
        0 <= i < done.len(),
        !done[i],
    ensures
        waiting_count(done.update(i, true)) + 1 == waiting_count(done),
    decreases done.len(),
{
    if i == done.len() - 1 {
        assert(done.update(i, true).drop_last() =~= done.drop_last());
    } else {
        lemma_waiting_count_mark(done.drop_last(), i);
        assert(done.update(i, true).drop_last() =~= done.drop_last().update(i, true));
    }
}

/// The guests booted, in order, when booting goes on from `done` until it
/// finishes; or the step that stops it.
pub open spec fn bootstrap_run(gs: Seq<GuestDependencies>, done: Seq<bool>) -> Result<
    Seq<int>,
    StepView,
>
    decreases waiting_count(done),
{
    match next_step(gs, done) {
        StepView::Finished => Ok(Seq::empty()),
        StepView::Spawn(i) => {
            if 0 <= i < done.len() && !done[i] {
                proof {
                    lemma_waiting_count_mark(done, i);
                }
                match bootstrap_run(gs, done.update(i, true)) {
                    Ok(rest) => Ok(seq![i] + rest),
                    Err(e) => Err(e),
                }
            } else {
                Err(StepView::Spawn(i))
            }
        },
        other => Err(other),
    }
}

/// No guest is booted yet.
pub open spec fn none_done(n: nat) -> Seq<bool> {
    Seq::new(n, |i: int| false)
}

/// Some guest named `d` was booted before the `k`-th guest of `order`:
/// at the start, or earlier in `order`.
pub open spec fn booted_before(
    gs: Seq<GuestDependencies>,
    done: Seq<bool>,
    order: Seq<int>,
    k: int,
    d: Seq<char>,
) -> bool {
    exists|j: int|
        0 <= j < gs.len() && #[trigger] name_of(gs, j) == d && (done[j] || order.take(k).contains(j))
}

/// Every guest of `order` comes after the guests its dependencies name.
pub open spec fn respects_dependencies(
    gs: Seq<GuestDependencies>,
    done: Seq<bool>,
    order: Seq<int>,
) -> bool {
    forall|k: int, m: int|
        0 <= k < order.len() && 0 <= m < gs[order[k]].dependencies@.len() ==> booted_before(
            gs,
            done,
            order,
            k,
            #[trigger] dep_of(gs, order[k], m),
        )
}

/// Among the candidates before position `p`, one whose name sorts first.
proof fn lemma_first_candidate_exists(gs: Seq<GuestDependencies>, done: Seq<bool>, p: int) -> (b: int)
    requires
        names_distinct(gs),
        done.len() == gs.len(),
        0 <= p <= gs.len(),
        exists|k: int| 0 <= k < p && is_candidate(gs, done, k),
    ensures
        0 <= b < p,
        is_candidate(gs, done, b),
        forall|k: int|
            0 <= k < p && #[trigger] is_candidate(gs, done, k) && k != b ==> lex_lt(
                name_of(gs, b),
                name_of(gs, k),
            ),
    decreases p,
{
    if exists|k: int| 0 <= k < p - 1 && is_candidate(gs, done, k) {
        let b = lemma_first_candidate_exists(gs, done, p - 1);
        if is_candidate(gs, done, p - 1) {
            lemma_lex_total(name_of(gs, b), name_of(gs, p - 1));
            if lex_lt(name_of(gs, p - 1), name_of(gs, b)) {
                assert forall|k: int|
                    0 <= k < p && #[trigger] is_candidate(gs, done, k) && k != p - 1 implies lex_lt(
                    name_of(gs, p - 1),
                    name_of(gs, k),
                ) by {
                    if k != b {
                        lemma_lex_transitive(name_of(gs, p - 1), name_of(gs, b), name_of(gs, k));
                    }
                }
                p - 1
            } else {
                b
            }
        } else {
            b
        }
    } else {
        p - 1
    }
}

/// When some guest may boot, the step boots a waiting one.
proof fn lemma_spawn_is_candidate(gs: Seq<GuestDependencies>, done: Seq<bool>)
    requires
        names_distinct(gs),
        done.len() == gs.len(),
        next_step(gs, done) is Spawn,
    ensures
        is_candidate(gs, done, next_step(gs, done)->Spawn_0),
{
    let b = lemma_first_candidate_exists(gs, done, gs.len() as int);
    assert(is_next(gs, done, b));
}

/// A finished boot run boots every waiting guest exactly once, each after
/// the guests its dependencies name.
pub proof fn lemma_boot_order_respects_dependencies(
    gs: Seq<GuestDependencies>,
    done: Seq<bool>,
    order: Seq<int>,
)
    requires
        names_distinct(gs),
        done.len() == gs.len(),
        bootstrap_run(gs, done) == Ok::<Seq<int>, StepView>(order),
    ensures
        order.no_duplicates(),
        forall|k: int| 0 <= k < order.len() ==> 0 <= order[k] < gs.len() && !done[order[k]],
        forall|i: int| 0 <= i < gs.len() && !done[i] ==> order.contains(i),
        respects_dependencies(gs, done, order),
    decreases waiting_count(done),
{
    match next_step(gs, done) {
        StepView::Finished => {
            assert(order =~= Seq::<int>::empty());
        },
        StepView::Spawn(i) => {
            lemma_spawn_is_candidate(gs, done);
            lemma_waiting_count_mark(done, i);
            let next = done.update(i, true);
            let rest = bootstrap_run(gs, next)->Ok_0;
            assert(order == seq![i] + rest);
            lemma_boot_order_respects_dependencies(gs, next, rest);
            assert forall|k: int| 0 <= k < order.len() implies 0 <= order[k] < gs.len()
                && !done[order[k]] by {
                if k > 0 {
                    assert(order[k] == rest[k - 1]);
                }
            }
            assert(order.no_duplicates()) by {
                assert forall|a: int, b: int|
                    0 <= a < order.len() && 0 <= b < order.len() && a != b implies order[a]
                    != order[b] by {
                    if a > 0 && b > 0 {
                        assert(order[a] == rest[a - 1] && order[b] == rest[b - 1]);
                    } else if a == 0 {
                        assert(order[b] == rest[b - 1]);
                        assert(!next[rest[b - 1]]);
                    } else {
                        assert(order[a] == rest[a - 1]);
                        assert(!next[rest[a - 1]]);
                    }
                }
            }
            assert forall|j: int| 0 <= j < gs.len() && !done[j] implies order.contains(j) by {
                if j == i {
                    assert(order[0] == i);
                } else {
                    assert(!next[j]);
                    let q = choose|q: int| 0 <= q < rest.len() && #[trigger] rest[q] == j;
                    assert(order[q + 1] == j);
                }
            }
            assert forall|k: int, m: int|
                0 <= k < order.len() && 0 <= m < gs[order[k]].dependencies@.len() implies booted_before(
                gs,
                done,
                order,
                k,
                #[trigger] dep_of(gs, order[k], m),
            ) by {
                let d = dep_of(gs, order[k], m);
                if k == 0 {
                    assert(named_by_done(gs, done, dep_of(gs, i, m)));
                    let j = choose|j: int| 0 <= j < gs.len() && done[j] && #[trigger] name_of(gs, j) == d;
                    assert(name_of(gs, j) == d);
                } else {
                    assert(order[k] == rest[k - 1]);
                    assert(booted_before(gs, next, rest, k - 1, dep_of(gs, rest[k - 1], m)));
                    let j = choose|j: int|
                        0 <= j < gs.len() && #[trigger] name_of(gs, j) == d && (next[j] || rest.take(
                            k - 1,
                        ).contains(j));
                    assert(name_of(gs, j) == d);
                    if !done[j] {
                        if j == i {
                            assert(order.take(k)[0] == i);
                        } else {
                            let q = choose|q: int| 0 <= q < k - 1 && #[trigger] rest.take(k - 1)[q] == j;
                            assert(order.take(k)[q + 1] == j);
                        }
                    }
                }
            }
        },
        _ => {},
    }
}

/// A run that stops on a cycle reaches a state, with at least the guests of
/// `done` booted, where no guest may boot and none is blocked.
proof fn lemma_cycle_state(gs: Seq<GuestDependencies>, done: Seq<bool>) -> (stuck: Seq<bool>)
    requires
        names_distinct(gs),
        done.len() == gs.len(),
        bootstrap_run(gs, done) == Err::<Seq<int>, StepView>(StepView::Cycle),
    ensures
        stuck.len() == gs.len(),
        forall|i: int| 0 <= i < gs.len() && done[i] ==> stuck[i],
        next_step(gs, stuck) == StepView::Cycle,
    decreases waiting_count(done),
{
    match next_step(gs, done) {
        StepView::Spawn(i) => {
            lemma_spawn_is_candidate(gs, done);
            lemma_waiting_count_mark(done, i);
            lemma_cycle_state(gs, done.update(i, true))
        },
        _ => done,
    }
}

/// In a state where no guest may boot, a dependency-respecting order from
/// no guest booted keeps to booted guests up to position `k`.
proof fn lemma_order_stays_booted(
    gs: Seq<GuestDependencies>,
    stuck: Seq<bool>,
    order: Seq<int>,
    k: int,
)
    requires
        stuck.len() == gs.len(),
        forall|i: int| !is_candidate(gs, stuck, i),
        forall|q: int| 0 <= q < order.len() ==> 0 <= #[trigger] order[q] < gs.len(),
        respects_dependencies(gs, none_done(gs.len()), order),
        0 <= k < order.len(),
    ensures
        forall|q: int| 0 <= q <= k ==> stuck[order[q]],
    decreases k,
{
    if k > 0 {
        lemma_order_stays_booted(gs, stuck, order, k - 1);
    }
    let g = order[k];
    if !stuck[g] {
        assert forall|m: int| 0 <= m < gs[g].dependencies@.len() implies named_by_done(
            gs,
            stuck,
            #[trigger] dep_of(gs, g, m),
        ) by {
            let d = dep_of(gs, g, m);
            assert(booted_before(gs, none_done(gs.len()), order, k, dep_of(gs, order[k], m)));
            let j = choose|j: int|
                0 <= j < gs.len() && #[trigger] name_of(gs, j) == d && (none_done(gs.len())[j]
                    || order.take(k).contains(j));
            let q = choose|q: int| 0 <= q < k && #[trigger] order.take(k)[q] == j;
            assert(order[q] == j);
            assert(name_of(gs, j) == d);
        }
        assert(is_candidate(gs, stuck, g));
    }
}

/// When booting from no guest booted stops on a dependency cycle, no order
/// of all the guests boots each after the guests its dependencies name.
pub proof fn lemma_cycle_admits_no_order(gs: Seq<GuestDependencies>, order: Seq<int>)
    requires
        names_distinct(gs),
        bootstrap_run(gs, none_done(gs.len())) == Err::<Seq<int>, StepView>(StepView::Cycle),
        forall|q: int| 0 <= q < order.len() ==> 0 <= #[trigger] order[q] < gs.len(),
        forall|i: int| 0 <= i < gs.len() ==> order.contains(i),
    ensures
        !respects_dependencies(gs, none_done(gs.len()), order),
{
    let stuck = lemma_cycle_state(gs, none_done(gs.len()));
    if respects_dependencies(gs, none_done(gs.len()), order) {
        assert(!all_done(stuck));
        let w = choose|i: int| 0 <= i < stuck.len() && !stuck[i];
        assert(order.contains(w));
        let q = choose|q: int| 0 <= q < order.len() && #[trigger] order[q] == w;
        lemma_order_stays_booted(gs, stuck, order, order.len() - 1);
        assert(stuck[order[q]]);
    }
}

// ---------------------------------------------------------------------
// The whole order.
// ---------------------------------------------------------------------
/// Positions as integers.
pub open spec fn as_ints(s: Seq<usize>) -> Seq<int> {
    s.map_values(|x: usize| x as int)
}

/// A finished prefix of a run followed by the rest of the run.
pub open spec fn after_prefix(prefix: Seq<int>, rest: Result<Seq<int>, StepView>) -> Result<
    Seq<int>,
    StepView,
> {
    match rest {
        Ok(tail) => Ok(prefix + tail),
        Err(e) => Err(e),
    }
}

/// The positions of the guests in the order they boot, or why they cannot
/// all boot: duplicate names first, then the first failing step.
pub fn boot_order(guests: &[GuestDependencies]) -> (r: Result<Vec<usize>, BootstrapError>)
    ensures
        !names_distinct(guests@) ==> (r matches Err(e) && exists|i: int|
            is_first_repeat(guests@, i) && names_duplicate(e, guests@, i)),
        names_distinct(guests@) ==> match bootstrap_run(guests@, none_done(guests@.len())) {
            Ok(order) => r matches Ok(v) && as_ints(v@) == order,
            Err(s) => r matches Err(e) && step_view(BootstrapStep::Fail(e)) == s,
        },
{
    match check_unique_names(guests) {
        Ok(()) => {},
        Err(e) => {
            return Err(e);
        },
    }
    let ghost gs = guests@;
    let n = guests.len();
    let mut done: Vec<bool> = Vec::new();
    while done.len() < n
        invariant
            done@.len() <= n,
            forall|k: int| 0 <= k < done@.len() ==> !done@[k],
        decreases n - done@.len(),
    {
        done.push(false);
    }
    assert(done@ =~= none_done(gs.len()));
    let ghost whole = bootstrap_run(gs, none_done(gs.len()));
    let mut order: Vec<usize> = Vec::new();
    loop
        invariant
            gs == guests@,
            n == gs.len(),
            names_distinct(gs),
            done@.len() == n,
            whole == bootstrap_run(gs, none_done(gs.len())),
            whole == after_prefix(as_ints(order@), bootstrap_run(gs, done@)),
        decreases waiting_count(done@),
    {
        let step = next_bootstrap_step(guests, &done);
        match step {
            BootstrapStep::Spawn(i) => {
                proof {
                    lemma_spawn_is_candidate(gs, done@);
                    lemma_waiting_count_mark(done@, i as int);
                }
                let ghost before = done@;
                let ghost prefix = order@;
                done.set(i, true);
                order.push(i);
                proof {
                    assert(done@ == before.update(i as int, true));
                    assert(as_ints(order@) =~= as_ints(prefix).push(i as int));
                    match bootstrap_run(gs, done@) {
                        Ok(tail) => {
                            assert(as_ints(prefix) + (seq![i as int] + tail) =~= as_ints(order@)
                                + tail);
                        },
                        Err(_) => {},
                    }
                }
            },
            BootstrapStep::Finished => {
                proof {
                    assert(as_ints(order@) + Seq::<int>::empty() =~= as_ints(order@));
                }
                return Ok(order);
            },
            BootstrapStep::Fail(e) => {
                return Err(e);
            },
        }
    }
}

} // verus!
