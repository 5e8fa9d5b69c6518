//! Counting semaphores, processes that wait on and release semaphores, and
//! sequences of such processes.

use crate::sync::{address_of, new_condvar, new_mutex, notify_all, share};
use parking_lot::{Condvar, Mutex};
use std::sync::atomic::{AtomicI32, Ordering};
use std::sync::Arc;
use vstd::prelude::*;

verus! {

/// How often `key` occurs in `keys`.
pub open spec fn occurrences(keys: Seq<usize>, key: usize) -> nat
    decreases keys.len(),
{
    if keys.len() == 0 {
        0
    } else {
        occurrences(keys.drop_last(), key) + if keys.last() == key { 1nat } else { 0nat }
    }
}

/// No key occurs in `keys` more often than an `i32` can count.
pub open spec fn multiplicities_fit(keys: Seq<usize>) -> bool {
    forall|i: int| 0 <= i < keys.len() ==> #[trigger] occurrences(keys, keys[i]) <= i32::MAX
}

/// The sum of the counts of `groups`.
pub open spec fn total_count(groups: Seq<(usize, i32)>) -> int
    decreases groups.len(),
{
    if groups.len() == 0 {
        0
    } else {
        total_count(groups.drop_last()) + groups.last().1
    }
}

/// Every group names an index of `keys`.
pub open spec fn indices_within(keys: Seq<usize>, groups: Seq<(usize, i32)>) -> bool {
    forall|j: int| 0 <= j < groups.len() ==> #[trigger] groups[j].0 < keys.len()
}

/// Every group counts how often its key occurs in `keys`.
pub open spec fn counts_match(keys: Seq<usize>, groups: Seq<(usize, i32)>) -> bool {
    forall|j: int|
        0 <= j < groups.len() ==> #[trigger] groups[j].1 == occurrences(
            keys,
            keys[groups[j].0 as int],
        )
}

/// Every group names the first occurrence of its key.
pub open spec fn first_occurrences(keys: Seq<usize>, groups: Seq<(usize, i32)>) -> bool {
    forall|j: int, i: int|
        0 <= j < groups.len() && 0 <= i < groups[j].0 ==> #[trigger] keys[i] != #[trigger] keys[
            groups[j].0 as int
        ]
}

/// The groups come in the order in which their keys first occur.
pub open spec fn in_order(groups: Seq<(usize, i32)>) -> bool {
    forall|j1: int, j2: int|
        0 <= j1 < j2 < groups.len() ==> #[trigger] groups[j1].0 < #[trigger] groups[j2].0
}

/// Every key of `keys` has a group.
pub open spec fn covers(keys: Seq<usize>, groups: Seq<(usize, i32)>) -> bool {
    forall|i: int|
        0 <= i < keys.len() ==> exists|j: int|
            0 <= j < groups.len() && #[trigger] keys[groups[j].0 as int] == #[trigger] keys[i]
}

/// `groups` lists each distinct key of `keys` once, as the index of its first
/// occurrence together with the number of its occurrences, in the order in
/// which the keys first occur.
pub open spec fn is_grouping(keys: Seq<usize>, groups: Seq<(usize, i32)>) -> bool {
    &&& indices_within(keys, groups)
    &&& counts_match(keys, groups)
    &&& first_occurrences(keys, groups)
    &&& in_order(groups)
    &&& covers(keys, groups)
}

proof fn lemma_occurrences_push(keys: Seq<usize>, last: usize, key: usize)
    ensures
        occurrences(keys.push(last), key) == occurrences(keys, key) + if last == key {
            1nat
        } else {
            0nat
        },
{
    assert(keys.push(last).drop_last() =~= keys);
}

proof fn lemma_occurrences_bounded(keys: Seq<usize>, key: usize)
    ensures
        occurrences(keys, key) <= keys.len(),
    decreases keys.len(),
{
    if keys.len() > 0 {
        lemma_occurrences_bounded(keys.drop_last(), key);
    }
}

proof fn lemma_occurrences_prefix(keys: Seq<usize>, n: int, key: usize)
    requires
        0 <= n <= keys.len(),
    ensures
        occurrences(keys.take(n), key) <= occurrences(keys, key),
    decreases keys.len(),
{
    if n == keys.len() {
        assert(keys.take(n) =~= keys);
    } else {
        lemma_occurrences_prefix(keys.drop_last(), n, key);
        assert(keys.drop_last().take(n) =~= keys.take(n));
    }
}

proof fn lemma_occurrences_absent(keys: Seq<usize>, key: usize)
    requires
        forall|i: int| 0 <= i < keys.len() ==> keys[i] != key,
    ensures
        occurrences(keys, key) == 0,
    decreases keys.len(),
{
    if keys.len() > 0 {
        lemma_occurrences_absent(keys.drop_last(), key);
    }
}

proof fn lemma_total_update(groups: Seq<(usize, i32)>, j: int, bumped: (usize, i32))
    requires
        0 <= j < groups.len(),
        bumped.1 == groups[j].1 + 1,
    ensures
        total_count(groups.update(j, bumped)) == total_count(groups) + 1,
    decreases groups.len(),
{
    if j == groups.len() - 1 {
        assert(groups.update(j, bumped).drop_last() =~= groups.drop_last());
    } else {
        lemma_total_update(groups.drop_last(), j, bumped);
        assert(groups.update(j, bumped).drop_last() =~= groups.drop_last().update(j, bumped));
    }
}

/// `is_grouping`, hidden from the solver except where it is revealed.
#[verifier::opaque]
spec fn grouped(keys: Seq<usize>, groups: Seq<(usize, i32)>) -> bool {
    is_grouping(keys, groups)
}

proof fn lemma_grouped_indices(keys: Seq<usize>, groups: Seq<(usize, i32)>)
    requires
        grouped(keys, groups),
    ensures
        indices_within(keys, groups),
{
    reveal(grouped);
}

/// Distinct groups have distinct keys.
proof fn lemma_grouping_distinct(keys: Seq<usize>, groups: Seq<(usize, i32)>, g1: int, g2: int)
    requires
        indices_within(keys, groups),
        first_occurrences(keys, groups),
        in_order(groups),
        0 <= g1 < groups.len(),
        0 <= g2 < groups.len(),
        g1 != g2,
    ensures
        keys[groups[g1].0 as int] != keys[groups[g2].0 as int],
{
    if g1 < g2 {
        assert(groups[g1].0 < groups[g2].0);
        assert(keys[groups[g1].0 as int] != keys[groups[g2].0 as int]);
    } else {
        assert(groups[g2].0 < groups[g1].0);
        assert(keys[groups[g2].0 as int] != keys[groups[g1].0 as int]);
    }
}

proof fn lemma_covers_extend(
    prefix: Seq<usize>,
    key: usize,
    groups: Seq<(usize, i32)>,
    extended: Seq<(usize, i32)>,
    j: int,
)
    requires
        covers(prefix, groups),
        indices_within(prefix, groups),
        groups.len() <= extended.len(),
        forall|g: int| 0 <= g < groups.len() ==> #[trigger] extended[g].0 == groups[g].0,
        0 <= j < extended.len(),
        extended[j].0 <= prefix.len(),
        prefix.push(key)[extended[j].0 as int] == key,
    ensures
        covers(prefix.push(key), extended),
{
    let next = prefix.push(key);
    assert forall|i: int| 0 <= i < next.len() implies exists|g: int|
        0 <= g < extended.len() && #[trigger] next[extended[g].0 as int] == #[trigger] next[i] by {
        if i == prefix.len() {
            assert(next[extended[j].0 as int] == next[i]);
        } else {
            assert(next[i] == prefix[i]);
            let g = choose|g: int|
                0 <= g < groups.len() && #[trigger] prefix[groups[g].0 as int] == #[trigger] prefix[i];
            assert(extended[g].0 == groups[g].0);
            assert(next[groups[g].0 as int] == prefix[groups[g].0 as int]);
            assert(next[extended[g].0 as int] == next[i]);
        }
    }
}

#[verifier::rlimit(40)]
proof fn lemma_grouping_bump(prefix: Seq<usize>, key: usize, groups: Seq<(usize, i32)>, j: int)
    requires
        grouped(prefix, groups),
        0 <= j < groups.len(),
        groups[j].0 < prefix.len(),
        prefix[groups[j].0 as int] == key,
        occurrences(prefix.push(key), key) <= i32::MAX,
    ensures
        groups[j].1 < i32::MAX,
        grouped(prefix.push(key), groups.update(j, (groups[j].0, (groups[j].1 + 1) as i32))),
{
    reveal(grouped);
    let next = prefix.push(key);
    let bumped = groups.update(j, (groups[j].0, (groups[j].1 + 1) as i32));
    lemma_occurrences_push(prefix, key, key);
    assert(groups[j].1 == occurrences(prefix, prefix[groups[j].0 as int]));
    assert forall|g: int| 0 <= g < bumped.len() implies #[trigger] bumped[g].1 == occurrences(
        next,
        next[bumped[g].0 as int],
    ) by {
        assert(next[bumped[g].0 as int] == prefix[groups[g].0 as int]);
        lemma_occurrences_push(prefix, key, prefix[groups[g].0 as int]);
        if g != j {
            lemma_grouping_distinct(prefix, groups, g, j);
        }
    }
    assert forall|g: int, i: int| 0 <= g < bumped.len() && 0 <= i < bumped[g].0 implies #[trigger] next[i]
        != #[trigger] next[bumped[g].0 as int] by {
        assert(prefix[i] != prefix[groups[g].0 as int]);
    }
    assert(in_order(bumped));
    assert(indices_within(next, bumped));
    lemma_covers_extend(prefix, key, groups, bumped, j);
}

#[verifier::rlimit(40)]
proof fn lemma_grouping_new(prefix: Seq<usize>, key: usize, groups: Seq<(usize, i32)>)
    requires
        grouped(prefix, groups),
        forall|g: int| 0 <= g < groups.len() ==> prefix[groups[g].0 as int] != key,
        prefix.len() <= usize::MAX,
    ensures
        grouped(prefix.push(key), groups.push((prefix.len() as usize, 1i32))),
{
    reveal(grouped);
    let next = prefix.push(key);
    let added = groups.push((prefix.len() as usize, 1i32));
    assert forall|i: int| 0 <= i < prefix.len() implies prefix[i] != key by {
        let g = choose|g: int|
            0 <= g < groups.len() && #[trigger] prefix[groups[g].0 as int] == #[trigger] prefix[i];
    }
    lemma_occurrences_absent(prefix, key);
    assert forall|g: int| 0 <= g < added.len() implies #[trigger] added[g].1 == occurrences(
        next,
        next[added[g].0 as int],
    ) by {
        lemma_occurrences_push(prefix, key, next[added[g].0 as int]);
        if g < groups.len() {
            assert(next[added[g].0 as int] == prefix[groups[g].0 as int]);
        }
    }
    assert forall|g: int, i: int| 0 <= g < added.len() && 0 <= i < added[g].0 implies #[trigger] next[i]
        != #[trigger] next[added[g].0 as int] by {
        if g < groups.len() {
            assert(prefix[i] != prefix[groups[g].0 as int]);
        }
    }
    assert(in_order(added));
    assert(indices_within(next, added));
    lemma_covers_extend(prefix, key, groups, added, groups.len() as int);
}

/// Each position of `keys` falls into exactly one group: the groups that
/// hold its key are one and the same.
pub proof fn lemma_one_group_per_position(
    keys: Seq<usize>,
    groups: Seq<(usize, i32)>,
    i: int,
    g1: int,
    g2: int,
)
    requires
        is_grouping(keys, groups),
        0 <= i < keys.len(),
        0 <= g1 < groups.len(),
        0 <= g2 < groups.len(),
        keys[groups[g1].0 as int] == keys[i],
        keys[groups[g2].0 as int] == keys[i],
    ensures
        g1 == g2,
        groups[g1].1 == occurrences(keys, keys[i]),
{
    if g1 != g2 {
        lemma_grouping_distinct(keys, groups, g1, g2);
    }
}

/// Groups equal keys: each distinct key once, with the index of its first
/// occurrence and the number of times it occurs, in order of first
/// occurrence. The counts add up to the number of keys.
#[verifier::spinoff_prover]
#[verifier::rlimit(30)]
pub fn group_occurrences(keys: &Vec<usize>) -> (groups: Vec<(usize, i32)>)
    requires
        multiplicities_fit(keys@),
    ensures
        is_grouping(keys@, groups@),
        total_count(groups@) == keys.len(),
{
    let mut groups: Vec<(usize, i32)> = Vec::new();
    let mut i: usize = 0;
    proof {
        assert(keys@.take(0) =~= Seq::<usize>::empty());
        reveal(grouped);
    }
    while i < keys.len()
        invariant
            i <= keys.len(),
            multiplicities_fit(keys@),
            indices_within(keys@.take(i as int), groups@),
            grouped(keys@.take(i as int), groups@),
            total_count(groups@) == i,
        decreases keys.len() - i,
    {
        let key = keys[i];
        let ghost prefix = keys@.take(i as int);
        proof {
            assert(keys@.take(i + 1) =~= prefix.push(key));
        }
        let mut j: usize = 0;
        let mut found = false;
        while j < groups.len()
            invariant_except_break
                !found,
                forall|j2: int| 0 <= j2 < j ==> keys@[groups@[j2].0 as int] != key,
            invariant
                j <= groups.len(),
                i < keys.len(),
                key == keys@[i as int],
                prefix == keys@.take(i as int),
                prefix.len() == i,
                indices_within(prefix, groups@),
            ensures
                found ==> j < groups.len() && keys@[groups@[j as int].0 as int] == key,
                !found ==> forall|j2: int|
                    0 <= j2 < groups.len() ==> keys@[groups@[j2].0 as int] != key,
            decreases groups.len() - j,
        {
            if keys[groups[j].0] == key {
                found = true;
                break;
            }
            j = j + 1;
        }
        let ghost old_groups = groups@;
        if found {
            let first = groups[j].0;
            let count = groups[j].1;
            proof {
                lemma_occurrences_prefix(keys@, i + 1, key);
                assert(occurrences(keys@, keys@[i as int]) <= i32::MAX);
                lemma_grouping_bump(prefix, key, old_groups, j as int);
            }
            groups.set(j, (first, count + 1));
            proof {
                lemma_total_update(old_groups, j as int, (first, (count + 1) as i32));
                lemma_grouped_indices(keys@.take(i + 1), groups@);
            }
        } else {
            proof {
                assert forall|g: int| 0 <= g < old_groups.len() implies prefix[old_groups[g].0 as int] != key by {
                    assert(prefix[old_groups[g].0 as int] == keys@[old_groups[g].0 as int]);
                }
                lemma_grouping_new(prefix, key, old_groups);
            }
            groups.push((i, 1));
            proof {
                assert(groups@.drop_last() =~= old_groups);
                lemma_grouped_indices(keys@.take(i + 1), groups@);
            }
        }
        i = i + 1;
    }
    proof {
        assert(keys@.take(keys.len() as int) =~= keys@);
        reveal(grouped);
    }
    groups
}

/// What a semaphore holding `current` permits does when asked for `count` of
/// them.
#[derive(PartialEq, Eq, Structural)]
pub enum DecrementStep {
    /// There are too few permits: wait until some are released.
    Wait,
    /// Replace `current` by this remainder.
    Take(i32),
    /// There are enough permits, but the remainder does not fit in an `i32`
    /// (only when `count` is negative).
    Overflow,
}

/// What a semaphore holding `current` permits does when asked for `count`:
/// take them all if there are enough, otherwise wait.
pub open spec fn spec_decrement(current: i32, count: i32) -> DecrementStep {
    if current < count {
        DecrementStep::Wait
    } else if current - count <= i32::MAX {
        DecrementStep::Take((current - count) as i32)
    } else {
        DecrementStep::Overflow
    }
}

/// Decides a decrement of a semaphore that holds `current` permits by `count`.
pub fn decrement_step(current: i32, count: i32) -> (step: DecrementStep)
    ensures
        step == spec_decrement(current, count),
{
    if current >= count {
        match current.checked_sub(count) {
            Some(rest) => DecrementStep::Take(rest),
            None => DecrementStep::Overflow,
        }
    } else {
        DecrementStep::Wait
    }
}

/// A decrement is all or nothing: when it goes ahead it takes exactly
/// `count` permits and never leaves a negative count behind, and it waits
/// only when there are fewer than `count` permits. The remainder overflows
/// only for a negative count.
pub proof fn lemma_decrement_all_or_nothing(current: i32, count: i32)
    ensures
        spec_decrement(current, count) matches DecrementStep::Take(rest) ==> rest == current
            - count && rest >= 0,
        spec_decrement(current, count) is Wait ==> current < count,
        spec_decrement(current, count) is Overflow ==> count < 0,
{
}

/// Giving back the permits that a decrement took restores the count: a
/// guard that acquired `count` permits and then releases them (with the
/// wrapping addition of `fetch_add`) leaves the semaphore as it found it.
pub proof fn lemma_release_restores(current: i32, count: i32)
    requires
        spec_decrement(current, count) is Take,
    ensures
        (spec_decrement(current, count)->Take_0 + count) as i32 == current,
        spec_decrement(current, count)->Take_0 + count == current,
{
}

/// Adding `count` permits (without wrapping) to a semaphore that holds no
/// debt lets exactly `count` permits be taken again, leaving the count as it
/// was before the addition.
pub proof fn lemma_increment_then_decrement(current: i32, count: i32)
    requires
        current >= 0,
        count >= 0,
        current + count <= i32::MAX,
    ensures
        spec_decrement((current + count) as i32, count) == DecrementStep::Take(current),
{
    let raised = (current + count) as i32;
    assert(raised == current + count);
    assert(raised - count == current);
    assert(((raised - count) as i32) == current);
}

/// What one attempt at taking permits from a semaphore came to.
pub enum DecrementOutcome {
    /// The permits were taken; the semaphore held `previous` before.
    Taken { previous: i32 },
    /// The semaphore held only `observed` permits: wait for a release.
    MustWait { observed: i32 },
    /// Another thread changed the count between reading and writing it: try again.
    Contended { observed: i32 },
    /// The semaphore held `observed` permits and the remainder would not fit in an `i32`.
    Overflow { observed: i32 },
}

/// What a compare-exchange of the counter from `current` came to: the
/// permits were taken if it wrote the remainder, and another thread got in
/// between if it did not.
pub fn exchange_outcome(current: i32, exchanged: Result<i32, i32>) -> (outcome: DecrementOutcome)
    ensures
        exchanged is Ok ==> outcome == (DecrementOutcome::Taken { previous: current }),
        exchanged is Err ==> outcome == (DecrementOutcome::Contended { observed: current }),
{
    match exchanged {
        Ok(_) => DecrementOutcome::Taken { previous: current },
        Err(_) => DecrementOutcome::Contended { observed: current },
    }
}

/// The permit counter, the condition variable on which waiters sleep, and the
/// mutex that they hold while they wait.
pub(crate) struct InnerSemaphore(AtomicI32, Condvar, Mutex<()>);

/// A counting semaphore. Clones share the same counter.
pub struct Semaphore(Arc<InnerSemaphore>);

impl Clone for Semaphore {
    fn clone(&self) -> (copy: Self)
        ensures
            copy == *self,
    {
        Semaphore(share(&self.0))
    }
}

impl Semaphore {
    /// A semaphore that holds `capacity` permits.
    pub fn new(capacity: i32) -> (semaphore: Self) {
        Self(Arc::new(InnerSemaphore(AtomicI32::new(capacity), new_condvar(), new_mutex(()))))
    }

    pub fn increment(&self) {
        self.increment_many(1);
    }

    /// Atomically increments the semaphore by a specific count, and wakes all
    /// threads that wait for permits.
    pub fn increment_many(&self, count: i32) {
        self.0.0.fetch_add(count, Ordering::Relaxed);
        notify_all(&self.0.1);
    }

    /// One attempt at taking `count` permits at once: reads the counter and,
    /// if it holds enough, replaces it by the remainder unless another thread
    /// changed it in between.
    pub fn try_decrement(&self, count: i32) -> (outcome: DecrementOutcome)
        ensures
            outcome matches DecrementOutcome::Taken { previous } ==> spec_decrement(
                previous,
                count,
            ) is Take,
            outcome matches DecrementOutcome::MustWait { observed } ==> spec_decrement(
                observed,
                count,
            ) is Wait,
            outcome matches DecrementOutcome::Contended { observed } ==> spec_decrement(
                observed,
                count,
            ) is Take,
            outcome matches DecrementOutcome::Overflow { observed } ==> spec_decrement(
                observed,
                count,
            ) is Overflow,
    {
        let current = self.0.0.load(Ordering::Relaxed);
        match decrement_step(current, count) {
            DecrementStep::Wait => DecrementOutcome::MustWait { observed: current },
            DecrementStep::Overflow => DecrementOutcome::Overflow { observed: current },
            DecrementStep::Take(rest) => {
                let exchanged = self.0.0.compare_exchange(
                    current,
                    rest,
                    Ordering::Relaxed,
                    Ordering::Relaxed,
                );
                exchange_outcome(current, exchanged)
            },
        }
    }

    pub closed spec fn spec_gate(&self) -> Mutex<()> {
        self.0.2
    }

    pub closed spec fn spec_condvar(&self) -> Condvar {
        self.0.1
    }

    /// The mutex that a thread holds while it waits for permits.
    pub fn gate(&self) -> (gate: &Mutex<()>)
        ensures
            *gate == self.spec_gate(),
    {
        &self.0.2
    }

    /// The condition variable on which threads wait for permits.
    pub fn condvar(&self) -> (condvar: &Condvar)
        ensures
            *condvar == self.spec_condvar(),
    {
        &self.0.1
    }

    /// A number that is the same for all clones of one semaphore and differs
    /// between semaphores that exist at the same time.
    pub fn identity(&self) -> usize {
        address_of(&self.0)
    }
}

/// The identity of `sem`, together with the handle it was read from.
fn keyed_identity(sem: &Semaphore) -> (keyed: (usize, Ghost<Semaphore>))
    ensures
        keyed.1@ == *sem,
{
    (sem.identity(), Ghost(*sem))
}

/// The identity of each semaphore of `sems`, in order: the key at each
/// position is read from the handle at that position.
fn identities(sems: &Vec<Semaphore>) -> (keyed: (Vec<usize>, Ghost<Seq<Semaphore>>))
    ensures
        keyed.0.len() == sems.len(),
        keyed.1@ == sems@,
{
    let mut keys: Vec<usize> = Vec::new();
    let ghost mut sources: Seq<Semaphore> = Seq::empty();
    for i in 0..sems.len()
        invariant
            keys.len() == i,
            sources == sems@.take(i as int),
    {
        let (key, source) = keyed_identity(&sems[i]);
        keys.push(key);
        proof {
            assert(sems@.take(i + 1) =~= sems@.take(i as int).push(sems@[i as int]));
            sources = sources.push(source@);
        }
    }
    proof {
        assert(sems@.take(sems@.len() as int) =~= sems@);
    }
    (keys, Ghost(sources))
}

/// How often `key` occurs in `keys`.
fn count_of(keys: &Vec<usize>, key: usize) -> (count: usize)
    ensures
        count == occurrences(keys@, key),
{
    let mut count: usize = 0;
    let mut j: usize = 0;
    proof {
        assert(keys@.take(0) =~= Seq::<usize>::empty());
    }
    while j < keys.len()
        invariant
            j <= keys.len(),
            count == occurrences(keys@.take(j as int), key),
            count <= j,
        decreases keys.len() - j,
    {
        proof {
            assert(keys@.take(j + 1) =~= keys@.take(j as int).push(keys@[j as int]));
            lemma_occurrences_push(keys@.take(j as int), keys@[j as int], key);
        }
        if keys[j] == key {
            count = count + 1;
        }
        j = j + 1;
    }
    proof {
        assert(keys@.take(keys.len() as int) =~= keys@);
    }
    count
}

/// Whether no key occurs in `keys` more often than an `i32` can count.
pub fn counts_fit_i32(keys: &Vec<usize>) -> (fit: bool)
    ensures
        fit == multiplicities_fit(keys@),
{
    if keys.len() <= i32::MAX as usize {
        proof {
            assert forall|i: int| 0 <= i < keys.len() implies #[trigger] occurrences(
                keys@,
                keys@[i],
            ) <= i32::MAX by {
                lemma_occurrences_bounded(keys@, keys@[i]);
            }
        }
        return true;
    }
    for i in 0..keys.len()
        invariant
            forall|i2: int| 0 <= i2 < i ==> #[trigger] occurrences(keys@, keys@[i2]) <= i32::MAX,
    {
        if count_of(keys, keys[i]) > i32::MAX as usize {
            return false;
        }
    }
    true
}

/// The grouping by identity of semaphores whose identities are `keys`: the
/// groups where no semaphore occurs more often than an `i32` can count, and
/// nothing where one does.
pub open spec fn identity_grouping(keys: Seq<usize>, result: Option<Seq<(usize, i32)>>) -> bool {
    match result {
        Some(groups) => is_grouping(keys, groups) && total_count(groups) == keys.len(),
        None => !multiplicities_fit(keys),
    }
}

/// The view of an optional vector of groups.
pub open spec fn groups_view(result: Option<Vec<(usize, i32)>>) -> Option<Seq<(usize, i32)>> {
    match result {
        Some(groups) => Some(groups@),
        None => None,
    }
}

/// Groups the semaphores of `sems` by identity: each group names the first
/// position of a semaphore in `sems` and how often that semaphore occurs
/// there. Where one semaphore occurs more often than an `i32` can count,
/// there is no grouping. The identities come from the allocator, so what is
/// stated is that the result is exactly that for some identities of the
/// semaphores.
pub fn group_by_identity(sems: &Vec<Semaphore>) -> (groups: Option<Vec<(usize, i32)>>)
    ensures
        exists|keys: Seq<usize>|
            keys.len() == sems.len() && #[trigger] identity_grouping(keys, groups_view(groups)),
{
    let (keys, _sources) = identities(sems);
    if !counts_fit_i32(&keys) {
        assert(identity_grouping(keys@, groups_view(None)));
        return None;
    }
    let groups = group_occurrences(&keys);
    assert(identity_grouping(keys@, groups_view(Some(groups))));
    Some(groups)
}

/// Adds `count` permits to `sem`; gives back which semaphore received how
/// many.
fn increment_recorded(sem: &Semaphore, count: i32) -> (done: Ghost<(Semaphore, i32)>)
    ensures
        done@ == (*sem, count),
{
    sem.increment_many(count);
    Ghost((*sem, count))
}

/// The increments that releasing `list` by `groups` makes: for each group,
/// its count, added to the semaphore at the group's first position.
pub open spec fn release_plan(list: Seq<Semaphore>, groups: Seq<(usize, i32)>) -> Seq<(Semaphore, i32)> {
    groups.map_values(|group: (usize, i32)| (list[group.0 as int], group.1))
}

/// Releasing by a grouping of the identities `keys` of `list` touches every
/// semaphore of the list exactly once: for each position `i` there is one
/// increment, and only one, for the key at `i`; it goes to the first
/// position holding that key, at or before `i`, and adds as many permits as
/// the key occurs in the list.
pub proof fn lemma_release_plan(list: Seq<Semaphore>, keys: Seq<usize>, groups: Seq<(usize, i32)>, i: int)
    requires
        keys.len() == list.len(),
        is_grouping(keys, groups),
        0 <= i < list.len(),
    ensures
        exists|j: int|
            0 <= j < groups.len() && keys[groups[j].0 as int] == keys[i] && groups[j].0 <= i
                && #[trigger] release_plan(list, groups)[j] == (
                list[groups[j].0 as int],
                occurrences(keys, keys[i]) as i32,
            ),
        forall|j1: int, j2: int|
            0 <= j1 < groups.len() && 0 <= j2 < groups.len() && #[trigger] keys[groups[j1].0 as int]
                == keys[i] && #[trigger] keys[groups[j2].0 as int] == keys[i] ==> j1 == j2,
{
    let j = choose|j: int|
        0 <= j < groups.len() && #[trigger] keys[groups[j].0 as int] == #[trigger] keys[i];
    assert(groups[j].1 == occurrences(keys, keys[groups[j].0 as int]));
    if groups[j].0 > i {
        assert(keys[i] != keys[groups[j].0 as int]);
    }
    assert(release_plan(list, groups)[j] == (
        list[groups[j].0 as int],
        occurrences(keys, keys[i]) as i32,
    ));
    assert forall|j1: int, j2: int|
        0 <= j1 < groups.len() && 0 <= j2 < groups.len() && #[trigger] keys[groups[j1].0 as int]
            == keys[i] && #[trigger] keys[groups[j2].0 as int] == keys[i] implies j1 == j2 by {
        if j1 != j2 {
            lemma_grouping_distinct(keys, groups, j1, j2);
        }
    }
}

/// A named step that first takes a permit from each semaphore it waits on
/// and, once done, gives a permit back to each semaphore it releases.
/// A semaphore listed several times is waited on, or released, that many
/// times.
pub struct Process {
    name: String,
    wait_on: Vec<Semaphore>,
    release_on: Vec<Semaphore>,
}

impl Clone for Process {
    fn clone(&self) -> (copy: Self)
        ensures
            copy.spec_name() == self.spec_name(),
            copy.waits() == self.waits(),
            copy.releases() == self.releases(),
    {
        let wait_on = self.wait_on.clone();
        let release_on = self.release_on.clone();
        proof {
            assert(wait_on@ =~= self.wait_on@);
            assert(release_on@ =~= self.release_on@);
        }
        Process { name: self.name.clone(), wait_on, release_on }
    }
}

impl Process {
    pub closed spec fn spec_name(&self) -> String {
        self.name
    }

    /// The semaphores to take permits from, in the order they were added.
    pub closed spec fn waits(&self) -> Seq<Semaphore> {
        self.wait_on@
    }

    /// The semaphores to give permits to, in the order they were added.
    pub closed spec fn releases(&self) -> Seq<Semaphore> {
        self.release_on@
    }

    pub fn new<S: Into<String>>(name: S) -> (process: Self)
        ensures
            call_ensures(S::into, (name,), process.spec_name()),
            process.waits() == Seq::<Semaphore>::empty(),
            process.releases() == Seq::<Semaphore>::empty(),
    {
        Self { name: name.into(), wait_on: Vec::new(), release_on: Vec::new() }
    }

    pub fn name(&self) -> (name: &String)
        ensures
            *name == self.spec_name(),
    {
        &self.name
    }

    /// The semaphores to wait on, in the order they were added.
    pub fn waiting_on(&self) -> (sems: &Vec<Semaphore>)
        ensures
            sems@ == self.waits(),
    {
        &self.wait_on
    }

    /// The semaphores to release, in the order they were added.
    pub fn releasing(&self) -> (sems: &Vec<Semaphore>)
        ensures
            sems@ == self.releases(),
    {
        &self.release_on
    }

    /// The semaphores to wait on, grouped by identity: each group is the
    /// first position of a semaphore in the wait list and the number of
    /// permits to take from it at once.
    pub fn wait_groups(&self) -> (groups: Option<Vec<(usize, i32)>>)
        ensures
            exists|keys: Seq<usize>|
                keys.len() == self.waits().len() && #[trigger] identity_grouping(
                    keys,
                    groups_view(groups),
                ),
    {
        group_by_identity(&self.wait_on)
    }

    /// Releases every semaphore of the release list: each distinct semaphore
    /// is incremented once, by the number of times it occurs in the list.
    /// Gives back the groups it applied: for each, the first position of a
    /// semaphore in the release list and the permits added to it. Where one
    /// semaphore occurs more often than an `i32` can count, nothing is
    /// released and there are no groups.
    pub fn release(&self) -> (applied: Option<Vec<(usize, i32)>>)
        ensures
            exists|keys: Seq<usize>|
                keys.len() == self.releases().len() && #[trigger] identity_grouping(
                    keys,
                    groups_view(applied),
                ),
    {
        let grouping = group_by_identity(&self.release_on);
        match grouping {
            None => None,
            Some(groups) => {
                proof {
                    let keys = choose|keys: Seq<usize>|
                        keys.len() == self.releases().len() && #[trigger] identity_grouping(
                            keys,
                            groups_view(Some(groups)),
                        );
                    assert(indices_within(keys, groups@));
                }
                let _applied = self.increment_groups(&groups);
                Some(groups)
            },
        }
    }

    /// Increments the semaphore at the first position of each group by the
    /// group's count; gives back the increments made, in order.
    fn increment_groups(&self, groups: &Vec<(usize, i32)>) -> (applied: Ghost<Seq<(Semaphore, i32)>>)
        requires
            forall|g: int| 0 <= g < groups.len() ==> #[trigger] groups@[g].0 < self.release_on.len(),
        ensures
            applied@ == release_plan(self.releases(), groups@),
    {
        let ghost mut applied: Seq<(Semaphore, i32)> = Seq::empty();
        for g in 0..groups.len()
            invariant
                forall|g: int| 0 <= g < groups.len() ==> #[trigger] groups@[g].0 < self.release_on.len(),
                applied == release_plan(self.releases(), groups@.take(g as int)),
        {
            let (first, count) = groups[g];
            let done = increment_recorded(&self.release_on[first], count);
            proof {
                assert(groups@.take(g + 1) =~= groups@.take(g as int).push(groups@[g as int]));
                assert(release_plan(self.releases(), groups@.take(g + 1)) =~= release_plan(
                    self.releases(),
                    groups@.take(g as int),
                ).push((self.releases()[first as int], count)));
                applied = applied.push(done@);
            }
        }
        proof {
            assert(groups@.take(groups@.len() as int) =~= groups@);
        }
        Ghost(applied)
    }

    #[must_use]
    /// Adds a semaphore to wait on before executing.
    pub fn wait_on(self, sem: &Semaphore) -> (process: Self)
        ensures
            process.spec_name() == self.spec_name(),
            process.waits() == self.waits().push(*sem),
            process.releases() == self.releases(),
    {
        let mut this = self;
        this.wait_on.push(sem.clone());
        this
    }

    /// Adds several semaphores to wait on before executing, in order.
    pub fn wait_on_many(self, sems: &[Semaphore]) -> (process: Self)
        ensures
            process.spec_name() == self.spec_name(),
            process.waits() == self.waits() + sems@,
            process.releases() == self.releases(),
    {
        let mut this = self;
        let ghost before = this.wait_on@;
        for i in 0..sems.len()
            invariant
                this.wait_on@ == before + sems@.take(i as int),
                this.name == self.name,
                this.release_on == self.release_on,
        {
            this.wait_on.push(sems[i].clone());
            proof {
                assert(sems@.take(i + 1) =~= sems@.take(i as int).push(sems@[i as int]));
            }
        }
        proof {
            assert(sems@.take(sems@.len() as int) =~= sems@);
        }
        this
    }

    /// Adds several borrowed semaphores to wait on before executing, in order.
    pub fn wait_on_many_borrowed(self, sems: &[&Semaphore]) -> (process: Self)
        ensures
            process.spec_name() == self.spec_name(),
            process.waits() == self.waits() + sems@.map_values(|sem: &Semaphore| *sem),
            process.releases() == self.releases(),
    {
        let mut this = self;
        let ghost before = this.wait_on@;
        for i in 0..sems.len()
            invariant
                this.wait_on@ == before + sems@.take(i as int).map_values(|sem: &Semaphore| *sem),
                this.name == self.name,
                this.release_on == self.release_on,
        {
            this.wait_on.push(sems[i].clone());
            proof {
                assert(sems@.take(i + 1).map_values(|sem: &Semaphore| *sem)
                    =~= sems@.take(i as int).map_values(|sem: &Semaphore| *sem).push(*sems@[i as int]));
            }
        }
        proof {
            assert(sems@.take(sems@.len() as int) =~= sems@);
        }
        this
    }

    #[must_use]
    /// Adds a semaphore to release after executing.
    pub fn release_on(self, sem: &Semaphore) -> (process: Self)
        ensures
            process.spec_name() == self.spec_name(),
            process.releases() == self.releases().push(*sem),
            process.waits() == self.waits(),
    {
        let mut this = self;
        this.release_on.push(sem.clone());
        this
    }

    /// Adds several semaphores to release after executing, in order.
    pub fn release_on_many(self, sems: &[Semaphore]) -> (process: Self)
        ensures
            process.spec_name() == self.spec_name(),
            process.releases() == self.releases() + sems@,
            process.waits() == self.waits(),
    {
        let mut this = self;
        let ghost before = this.release_on@;
        for i in 0..sems.len()
            invariant
                this.release_on@ == before + sems@.take(i as int),
                this.name == self.name,
                this.wait_on == self.wait_on,
        {
            this.release_on.push(sems[i].clone());
            proof {
                assert(sems@.take(i + 1) =~= sems@.take(i as int).push(sems@[i as int]));
            }
        }
        proof {
            assert(sems@.take(sems@.len() as int) =~= sems@);
        }
        this
    }

    /// Adds several borrowed semaphores to release after executing, in order.
    pub fn release_on_many_borrowed(self, sems: &[&Semaphore]) -> (process: Self)
        ensures
            process.spec_name() == self.spec_name(),
            process.releases() == self.releases() + sems@.map_values(|sem: &Semaphore| *sem),
            process.waits() == self.waits(),
    {
        let mut this = self;
        let ghost before = this.release_on@;
        for i in 0..sems.len()
            invariant
                this.release_on@ == before + sems@.take(i as int).map_values(|sem: &Semaphore| *sem),
                this.name == self.name,
                this.wait_on == self.wait_on,
        {
            this.release_on.push(sems[i].clone());
            proof {
                assert(sems@.take(i + 1).map_values(|sem: &Semaphore| *sem)
                    =~= sems@.take(i as int).map_values(|sem: &Semaphore| *sem).push(*sems@[i as int]));
            }
        }
        proof {
            assert(sems@.take(sems@.len() as int) =~= sems@);
        }
        this
    }
}

/// A process as a sequence holds it; clones share their semaphores.
pub type SharedProcess = Process;

/// The list that adding `sems` one at a time, each at the end, makes of
/// `before`.
pub open spec fn pushed_one_by_one(before: Seq<Semaphore>, sems: Seq<Semaphore>) -> Seq<Semaphore>
    decreases sems.len(),
{
    if sems.len() == 0 {
        before
    } else {
        pushed_one_by_one(before, sems.drop_last()).push(sems.last())
    }
}

/// Adding semaphores one at a time (`wait_on`, `release_on`), all at once
/// from owned handles (`wait_on_many`, `release_on_many`), or all at once
/// from borrowed handles (`wait_on_many_borrowed`, `release_on_many_borrowed`)
/// gives the same list: for borrowed handles `borrowed` and the owned
/// handles `owned` that they point at, in order.
pub proof fn lemma_builders_agree(
    before: Seq<Semaphore>,
    borrowed: Seq<&Semaphore>,
    owned: Seq<Semaphore>,
)
    requires
        owned == borrowed.map_values(|sem: &Semaphore| *sem),
    ensures
        before + borrowed.map_values(|sem: &Semaphore| *sem) == before + owned,
        pushed_one_by_one(before, owned) == before + owned,
    decreases owned.len(),
{
    if owned.len() > 0 {
        let shorter = borrowed.drop_last();
        assert(shorter.map_values(|sem: &Semaphore| *sem) =~= owned.drop_last());
        lemma_builders_agree(before, shorter, owned.drop_last());
        assert(before + owned =~= (before + owned.drop_last()).push(owned.last()));
    } else {
        assert(before + owned =~= before);
    }
}

/// Processes to be run together, each on a thread of its own.
pub struct Sequence {
    elements: Vec<Process>,
}

impl Sequence {
    /// The processes, in the order in which they were added.
    pub closed spec fn processes(&self) -> Seq<Process> {
        self.elements@
    }

    /// Creates a new empty sequence.
    pub fn new() -> (sequence: Self)
        ensures
            sequence.processes() == Seq::<Process>::empty(),
    {
        Self { elements: Vec::new() }
    }

    /// Adds an element to the sequence.
    pub fn add(self, element: Process) -> (sequence: Self)
        ensures
            sequence.processes() == self.processes().push(element),
    {
        let mut this = self;
        this.elements.push(element);
        this
    }

    /// Adds multiple elements to the sequence, in order.
    pub fn add_many(self, elements: Vec<Process>) -> (sequence: Self)
        ensures
            sequence.processes() == self.processes() + elements@,
    {
        let mut this = self;
        let mut elements = elements;
        this.elements.append(&mut elements);
        this
    }

    /// The processes, in the order in which they were added.
    pub fn elements(&self) -> (elements: &Vec<Process>)
        ensures
            elements@ == self.processes(),
    {
        &self.elements
    }
}

impl Default for Sequence {
    fn default() -> (sequence: Self)
        ensures
            sequence.processes() == Seq::<Process>::empty(),
    {
        Self::new()
    }
}

} // verus!
