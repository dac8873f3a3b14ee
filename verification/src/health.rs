//! Hit points.
//!
//! Integers rather than floats, because "one more shell will do it" should be
//! a thing the player can count on rather than a thing that depends on
//! rounding.

use vstd::prelude::*;

verus! {

/// How much punishment something can still take.
#[derive(Clone, Copy, Debug, PartialEq, Eq, Structural)]
pub struct Health {
    current: i32,
    max: i32,
}

/// What a blow of `amount` does to something with `current` hit points: the
/// hit points left and whether this blow was the killing one.
pub open spec fn spec_blow(current: int, amount: int) -> (int, bool) {
    if current <= 0 {
        (current, false)
    } else {
        let left = current - if amount > 0 {
            amount
        } else {
            0
        };
        (left, left <= 0)
    }
}

impl Health {
    /// Hit points left. Can be negative after an overkill.
    pub closed spec fn spec_current(&self) -> int {
        self.current as int
    }

    /// Hit points at full health.
    pub closed spec fn spec_max(&self) -> int {
        self.max as int
    }

    /// Something at full health. Nothing in this game is born dead, so `max`
    /// must be positive.
    pub fn new(max: i32) -> (h: Health)
        requires
            max > 0,
        ensures
            h.spec_current() == max,
            h.spec_max() == max,
    {
        Health { current: max, max }
    }

    /// Hit points left. Can be negative after an overkill.
    pub fn current(&self) -> (r: i32)
        ensures
            r == self.spec_current(),
    {
        self.current
    }

    /// Hit points at full health.
    pub fn max(&self) -> (r: i32)
        ensures
            r == self.spec_max(),
    {
        self.max
    }

    /// Hit points left, counting an overkill as none: what a health bar or a
    /// damage tint reads as the filled part of [`Health::max`].
    pub fn remaining(&self) -> (r: i32)
        ensures
            r == if self.spec_current() > 0 {
                self.spec_current()
            } else {
                0
            },
    {
        if self.current > 0 {
            self.current
        } else {
            0
        }
    }

    /// True once there is nothing left.
    pub fn is_dead(&self) -> (r: bool)
        ensures
            r == (self.spec_current() <= 0),
    {
        self.current <= 0
    }

    /// Applies damage, and reports whether *this* blow was the killing one.
    ///
    /// Only one blow can ever be the killing one: something already dead
    /// takes no more damage and claims no kill. Negative damage is ignored
    /// rather than treated as a repair.
    pub fn damage(&mut self, amount: i32) -> (killed: bool)
        ensures
            final(self).spec_max() == old(self).spec_max(),
            (final(self).spec_current(), killed) == spec_blow(old(self).spec_current(), amount as int),
            old(self).spec_current() > 0 && amount > 0 ==> final(self).spec_current() == old(self).spec_current()
                - amount,
            old(self).spec_current() <= 0 || amount <= 0 ==> final(self).spec_current() == old(self).spec_current(),
            killed == (old(self).spec_current() > 0 && final(self).spec_current() <= 0),
    {
        if self.is_dead() {
            return false;
        }
        let taken = if amount > 0 {
            amount
        } else {
            0
        };
        self.current = self.current - taken;
        self.is_dead()
    }
}

/// Only one blow can ever claim the kill: whatever a killing blow leaves,
/// the next blow, of any size, does not kill again.
pub proof fn lemma_kill_claimed_once(current: int, first: int, second: int)
    requires
        spec_blow(current, first).1,
    ensures
        !spec_blow(spec_blow(current, first).0, second).1,
        spec_blow(spec_blow(current, first).0, second).0 == spec_blow(current, first).0,
{
}

/// A blow to something still standing takes off exactly its amount, when
/// that is positive, and claims the kill exactly when it leaves nothing; a
/// blow to something already down changes nothing.
pub proof fn lemma_blow_takes_its_amount(current: int, amount: int)
    ensures
        current > 0 && amount > 0 ==> spec_blow(current, amount).0 == current - amount,
        current <= 0 || amount <= 0 ==> spec_blow(current, amount).0 == current,
        spec_blow(current, amount).1 == (current > 0 && spec_blow(current, amount).0 <= 0),
{
}

/// Damage of zero or less changes nothing and kills nothing.
pub proof fn lemma_no_damage_no_change(current: int, amount: int)
    requires
        amount <= 0,
    ensures
        spec_blow(current, amount) == (current, false),
{
}

/// The hit points left after blows of `amounts`, dealt in order, to
/// something that started with `current`.
pub open spec fn after_blows(current: int, amounts: Seq<int>) -> int
    decreases amounts.len(),
{
    if amounts.len() == 0 {
        current
    } else {
        spec_blow(after_blows(current, amounts.drop_last()), amounts.last()).0
    }
}

/// Whether blow `k` of `amounts`, dealt in order to something that started
/// with `current`, reports the kill.
pub open spec fn blow_kills(current: int, amounts: Seq<int>, k: int) -> bool {
    spec_blow(after_blows(current, amounts.take(k)), amounts[k]).1
}

/// Once nothing is left, further blows change nothing.
proof fn lemma_dead_stays(current: int, amounts: Seq<int>, m: int, n: int)
    requires
        0 <= m <= n <= amounts.len(),
        after_blows(current, amounts.take(m)) <= 0,
    ensures
        after_blows(current, amounts.take(n)) == after_blows(current, amounts.take(m)),
    decreases n - m,
{
    if n > m {
        lemma_dead_stays(current, amounts, m, n - 1);
        assert(amounts.take(n).drop_last() =~= amounts.take(n - 1));
    }
}

/// However many blows land, at most one reports the kill, and it is the
/// first blow after which nothing is left.
pub proof fn lemma_one_kill_in_any_sequence(current: int, amounts: Seq<int>)
    ensures
        forall|k: int|
            0 <= k < amounts.len() ==> (#[trigger] blow_kills(current, amounts, k) <==> (after_blows(
                current,
                amounts.take(k),
            ) > 0 && after_blows(current, amounts.take(k + 1)) <= 0)),
        forall|j: int, k: int|
            0 <= j < k < amounts.len() && #[trigger] blow_kills(current, amounts, j) ==> !#[trigger] blow_kills(
                current,
                amounts,
                k,
            ),
{
    assert forall|k: int| 0 <= k < amounts.len() implies (#[trigger] blow_kills(current, amounts, k) <==> (
    after_blows(current, amounts.take(k)) > 0 && after_blows(current, amounts.take(k + 1)) <= 0)) by {
        assert(amounts.take(k + 1).drop_last() =~= amounts.take(k));
    }
    assert forall|j: int, k: int|
        0 <= j < k < amounts.len() && #[trigger] blow_kills(current, amounts, j) implies !#[trigger] blow_kills(
            current,
            amounts,
            k,
        ) by {
        assert(amounts.take(j + 1).drop_last() =~= amounts.take(j));
        lemma_dead_stays(current, amounts, j + 1, k);
    }
}

} // verus!
