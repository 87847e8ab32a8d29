//! Round lifecycle: the battle roster and the weighted random draw that
//! orders one round's turns.
//!
//! A round's turn order is a permutation of the full roster, drawn without
//! replacement with probability proportional to each participant's speed.
//! When a single candidate remains it is appended directly, without
//! consuming randomness.

use vstd::prelude::*;

use crate::actions::ActionRepo;
use crate::characters::{CharacterId, CharacterStorage};
use crate::ui::{
    is_confirm, needs_target, spec_action_names, spec_menu_action, strs_of, MenuInput, MenuWorld,
    UiMenuOutput, UiMenus,
};

verus! {

broadcast use vstd::seq_lib::group_to_multiset_ensures, vstd::multiset::group_multiset_axioms;

/// The two disjoint sides of the battle roster.
pub struct Characters {
    friendly: Vec<CharacterId>,
    enemy: Vec<CharacterId>,
}

impl Characters {
    pub closed spec fn spec_friendly(&self) -> Seq<CharacterId> {
        self.friendly@
    }

    pub closed spec fn spec_enemy(&self) -> Seq<CharacterId> {
        self.enemy@
    }

    /// The two sides never intersect and hold no duplicates.
    pub open spec fn wf(&self) -> bool {
        &&& self.spec_friendly().no_duplicates()
        &&& self.spec_enemy().no_duplicates()
        &&& forall|i: int|
            0 <= i < self.spec_friendly().len() ==> !self.spec_enemy().contains(
                #[trigger] self.spec_friendly()[i],
            )
    }

    /// Every roster member resolves in the storage.
    pub open spec fn resolves_in(&self, storage: &CharacterStorage) -> bool {
        &&& forall|i: int|
            0 <= i < self.spec_friendly().len() ==> (#[trigger] self.spec_friendly()[i]).0
                < storage@.len()
        &&& forall|i: int|
            0 <= i < self.spec_enemy().len() ==> (#[trigger] self.spec_enemy()[i]).0
                < storage@.len()
    }

    pub fn new() -> (r: Self)
        ensures
            r.spec_friendly().len() == 0,
            r.spec_enemy().len() == 0,
            r.wf(),
    {
        Self { friendly: Vec::new(), enemy: Vec::new() }
    }

    pub fn friendly(&self) -> (r: &Vec<CharacterId>)
        ensures
            r@ == self.spec_friendly(),
    {
        &self.friendly
    }

    pub fn enemy(&self) -> (r: &Vec<CharacterId>)
        ensures
            r@ == self.spec_enemy(),
    {
        &self.enemy
    }

    /// Adds a participant to the friendly side, unless either side already
    /// holds it: the two sides stay disjoint and duplicate-free.
    pub fn add_friendly(&mut self, id: CharacterId)
        requires
            old(self).wf(),
        ensures
            final(self).wf(),
            final(self).spec_enemy() == old(self).spec_enemy(),
            old(self).spec_friendly().contains(id) || old(self).spec_enemy().contains(id)
                ==> final(self).spec_friendly() == old(self).spec_friendly(),
            !(old(self).spec_friendly().contains(id) || old(self).spec_enemy().contains(id))
                ==> final(self).spec_friendly() == old(self).spec_friendly().push(id),
    {
        if !contains_id(&self.friendly, id) && !contains_id(&self.enemy, id) {
            self.friendly.push(id);
        }
    }

    /// Adds a participant to the enemy side, under the same disjointness rule.
    pub fn add_enemy(&mut self, id: CharacterId)
        requires
            old(self).wf(),
        ensures
            final(self).wf(),
            final(self).spec_friendly() == old(self).spec_friendly(),
            old(self).spec_friendly().contains(id) || old(self).spec_enemy().contains(id)
                ==> final(self).spec_enemy() == old(self).spec_enemy(),
            !(old(self).spec_friendly().contains(id) || old(self).spec_enemy().contains(id))
                ==> final(self).spec_enemy() == old(self).spec_enemy().push(id),
    {
        if !contains_id(&self.friendly, id) && !contains_id(&self.enemy, id) {
            self.enemy.push(id);
        }
    }
}

/// Linear membership scan.
pub fn contains_id(v: &Vec<CharacterId>, id: CharacterId) -> (r: bool)
    ensures
        r == v@.contains(id),
{
    let mut i: usize = 0;
    while i < v.len()
        invariant
            i <= v.len(),
            forall|j: int| 0 <= j < i ==> v@[j] != id,
        decreases v.len() - i,
    {
        if v[i].0 == id.0 {
            assert(v@[i as int] == id);
            return true;
        }
        i += 1;
    }
    false
}

/// Relies on `rand::random_range` over `0..n`: a uniform draw below `n`.
/// The empty range panics, hence the precondition.
#[verifier::external_body]
fn random_below(n: u64) -> (r: u64)
    requires
        n > 0,
    ensures
        r < n,
{
    rand::random_range(0..n)
}

/// Total weight of a candidate pool.
pub closed spec fn sum_weights(s: Seq<(u32, CharacterId)>) -> int
    decreases s.len(),
{
    if s.len() == 0 {
        0
    } else {
        sum_weights(s.drop_last()) + s.last().0
    }
}

/// How many candidates carry weight zero.
pub closed spec fn count_zeros(s: Seq<(u32, CharacterId)>) -> int
    decreases s.len(),
{
    if s.len() == 0 {
        0
    } else {
        count_zeros(s.drop_last()) + if s.last().0 == 0 {
            1int
        } else {
            0int
        }
    }
}

/// The participant references of a pool, in pool order.
pub open spec fn ids_of(s: Seq<(u32, CharacterId)>) -> Seq<CharacterId> {
    s.map_values(|p: (u32, CharacterId)| p.1)
}

proof fn lemma_sum_nonneg(s: Seq<(u32, CharacterId)>)
    ensures
        sum_weights(s) >= 0,
    decreases s.len(),
{
    if s.len() > 0 {
        lemma_sum_nonneg(s.drop_last());
    }
}

proof fn lemma_sum_take_step(s: Seq<(u32, CharacterId)>, i: int)
    requires
        0 <= i < s.len(),
    ensures
        sum_weights(s.take(i + 1)) == sum_weights(s.take(i)) + s[i].0,
        count_zeros(s.take(i + 1)) == count_zeros(s.take(i)) + if s[i].0 == 0 {
            1int
        } else {
            0int
        },
{
    assert(s.take(i + 1).drop_last() =~= s.take(i));
    assert(s.take(i + 1).last() == s[i]);
}

proof fn lemma_sum_lower_bound(s: Seq<(u32, CharacterId)>, j: int)
    requires
        0 <= j < s.len(),
    ensures
        sum_weights(s) >= s[j].0,
    decreases s.len(),
{
    lemma_sum_nonneg(s.drop_last());
    if j < s.len() - 1 {
        lemma_sum_lower_bound(s.drop_last(), j);
    }
}

proof fn lemma_all_zero_count(s: Seq<(u32, CharacterId)>)
    requires
        forall|j: int| 0 <= j < s.len() ==> (#[trigger] s[j]).0 == 0,
    ensures
        count_zeros(s) == s.len(),
    decreases s.len(),
{
    if s.len() > 0 {
        lemma_all_zero_count(s.drop_last());
    }
}

/// A pool with at least two candidates, at most one of them of weight zero,
/// has positive total weight.
proof fn lemma_total_positive(s: Seq<(u32, CharacterId)>)
    requires
        s.len() >= 2,
        count_zeros(s) <= 1,
    ensures
        sum_weights(s) > 0,
{
    if forall|j: int| 0 <= j < s.len() ==> (#[trigger] s[j]).0 == 0 {
        lemma_all_zero_count(s);
    } else {
        let j = choose|j: int| 0 <= j < s.len() && (#[trigger] s[j]).0 != 0;
        lemma_sum_lower_bound(s, j);
    }
}

proof fn lemma_sum_remove(s: Seq<(u32, CharacterId)>, i: int)
    requires
        0 <= i < s.len(),
    ensures
        sum_weights(s.remove(i)) == sum_weights(s) - s[i].0,
        count_zeros(s.remove(i)) == count_zeros(s) - if s[i].0 == 0 {
            1int
        } else {
            0int
        },
    decreases s.len(),
{
    if i == s.len() - 1 {
        assert(s.remove(i) =~= s.drop_last());
    } else {
        assert(s.remove(i).drop_last() =~= s.drop_last().remove(i));
        assert(s.remove(i).last() == s.last());
        lemma_sum_remove(s.drop_last(), i);
    }
}

/// Finds the candidate whose weight band contains the roll: the first index
/// at which the running weight total passes `roll`. A zero-weight candidate
/// owns an empty band, so it is never picked.
fn pick_weighted(pool: &Vec<(u32, CharacterId)>, roll: u64) -> (r: usize)
    requires
        sum_weights(pool@) <= u64::MAX,
        roll < sum_weights(pool@),
    ensures
        r < pool@.len(),
        pool@[r as int].0 > 0,
        sum_weights(pool@.take(r as int)) <= roll < sum_weights(pool@.take(r as int)) + pool@[
            r as int].0,
{
    proof {
        assert(pool@.take(pool@.len() as int) =~= pool@);
    }
    let mut i: usize = 0;
    let mut acc: u64 = 0;
    while i < pool.len()
        invariant
            i <= pool.len(),
            acc == sum_weights(pool@.take(i as int)),
            acc <= roll,
            roll < sum_weights(pool@),
            sum_weights(pool@) <= u64::MAX,
            sum_weights(pool@.take(pool@.len() as int)) == sum_weights(pool@),
        decreases pool.len() - i,
    {
        let w = pool[i].0;
        proof {
            lemma_sum_take_step(pool@, i as int);
            lemma_take_remainder_bound(pool@, i as int);
        }
        if acc + (w as u64) > roll {
            return i;
        }
        acc = acc + (w as u64);
        i += 1;
    }
    proof {
        assert(false);
    }
    0
}

/// The running total over a prefix never exceeds the whole pool's total.
proof fn lemma_take_remainder_bound(s: Seq<(u32, CharacterId)>, i: int)
    requires
        0 <= i < s.len(),
    ensures
        sum_weights(s.take(i)) + s[i].0 <= sum_weights(s),
    decreases s.len(),
{
    if i == s.len() - 1 {
        assert(s.take(i) =~= s.drop_last());
    } else {
        lemma_take_remainder_bound(s.drop_last(), i);
        assert(s.drop_last().take(i) =~= s.take(i));
        assert(s.drop_last()[i] == s[i]);
        lemma_sum_nonneg(s.drop_last());
    }
}

/// Two distinct zero-weight candidates would make the zero count two.
proof fn lemma_count_zeros_nonneg(s: Seq<(u32, CharacterId)>)
    ensures
        count_zeros(s) >= 0,
    decreases s.len(),
{
    if s.len() > 0 {
        lemma_count_zeros_nonneg(s.drop_last());
    }
}

proof fn lemma_zero_count_lower(s: Seq<(u32, CharacterId)>, z: int)
    requires
        0 <= z < s.len(),
        s[z].0 == 0,
    ensures
        count_zeros(s) >= 1,
    decreases s.len(),
{
    if z < s.len() - 1 {
        lemma_zero_count_lower(s.drop_last(), z);
    } else {
        lemma_count_zeros_nonneg(s.drop_last());
    }
}

proof fn lemma_zero_unique(s: Seq<(u32, CharacterId)>, z1: int, z2: int)
    requires
        count_zeros(s) <= 1,
        0 <= z1 < s.len(),
        0 <= z2 < s.len(),
        s[z1].0 == 0,
        s[z2].0 == 0,
    ensures
        z1 == z2,
    decreases s.len(),
{
    if z1 != z2 {
        let lo = if z1 < z2 {
            z1
        } else {
            z2
        };
        let hi = if z1 < z2 {
            z2
        } else {
            z1
        };
        if hi == s.len() - 1 {
            lemma_zero_count_lower(s.drop_last(), lo);
        } else {
            lemma_zero_unique(s.drop_last(), z1, z2);
        }
    }
}

/// Sums the pool's weights.
fn sum_weights_exec(pool: &Vec<(u32, CharacterId)>) -> (r: u64)
    requires
        sum_weights(pool@) <= u64::MAX,
    ensures
        r == sum_weights(pool@),
{
    proof {
        assert(pool@.take(pool@.len() as int) =~= pool@);
    }
    let mut i: usize = 0;
    let mut acc: u64 = 0;
    while i < pool.len()
        invariant
            i <= pool.len(),
            acc == sum_weights(pool@.take(i as int)),
            sum_weights(pool@) <= u64::MAX,
            sum_weights(pool@.take(pool@.len() as int)) == sum_weights(pool@),
        decreases pool.len() - i,
    {
        proof {
            lemma_sum_take_step(pool@, i as int);
            lemma_take_remainder_bound(pool@, i as int);
            lemma_sum_nonneg(pool@.take(i as int));
            lemma_take_prefix_bound(pool@, i as int);
        }
        acc = acc + (pool[i].0 as u64);
        i += 1;
    }
    acc
}

/// A prefix sum never exceeds the total.
proof fn lemma_take_prefix_bound(s: Seq<(u32, CharacterId)>, i: int)
    requires
        0 <= i < s.len(),
    ensures
        sum_weights(s.take(i)) <= sum_weights(s),
    decreases s.len(),
{
    if i == s.len() - 1 {
        assert(s.take(i) =~= s.drop_last());
    } else {
        lemma_take_prefix_bound(s.drop_last(), i);
        assert(s.drop_last().take(i) =~= s.take(i));
    }
}

/// Draws a complete turn order from a weighted candidate pool, without
/// replacement: the result is a permutation of the pool's participants.
/// A lone remaining candidate is appended without drawing randomness, and a
/// candidate of weight zero (at most one is allowed) is always drawn last.
pub fn draw_turn_order(pool: Vec<(u32, CharacterId)>) -> (r: Vec<CharacterId>)
    requires
        count_zeros(pool@) <= 1,
        sum_weights(pool@) <= u64::MAX,
    ensures
        r@.to_multiset() == ids_of(pool@).to_multiset(),
        r@.len() == pool@.len(),
        pool@.len() == 1 ==> r@ == seq![pool@[0].1],
        pool@.len() > 0 ==> (forall|z: int|
            0 <= z < pool@.len() && (#[trigger] pool@[z]).0 == 0 ==> r@[r@.len() - 1] == pool@[
                z].1),
{
    let ghost orig = pool@;
    let ghost has_zero = exists|z: int| 0 <= z < orig.len() && (#[trigger] orig[z]).0 == 0;
    let ghost zid = if has_zero {
        orig[choose|z: int| 0 <= z < orig.len() && (#[trigger] orig[z]).0 == 0].1
    } else {
        arbitrary()
    };
    let mut pool = pool;
    let mut order: Vec<CharacterId> = Vec::new();
    let mut total: u64 = sum_weights_exec(&pool);

    proof {
        if has_zero {
            let zc = choose|z: int| 0 <= z < orig.len() && (#[trigger] orig[z]).0 == 0;
            assert(orig[zc].0 == 0 && orig[zc].1 == zid);
        }
    }
    while pool.len() > 0
        invariant
            count_zeros(pool@) <= 1,
            sum_weights(pool@) <= u64::MAX,
            total == sum_weights(pool@),
            order@.len() + pool@.len() == orig.len(),
            order@.to_multiset().add(ids_of(pool@).to_multiset()) == ids_of(orig).to_multiset(),
            order@.len() == 0 ==> pool@ == orig,
            orig.len() == 1 && order@.len() == 1 ==> order@ == seq![orig[0].1],
            has_zero && pool@.len() > 0 ==> exists|z: int|
                0 <= z < pool@.len() && (#[trigger] pool@[z]).0 == 0 && pool@[z].1 == zid,
            has_zero && pool@.len() == 0 ==> order@.len() > 0 && order@[order@.len() - 1] == zid,
        decreases pool.len(),
    {
        let ghost prev = pool@;
        let i: usize = if pool.len() == 1 {
            0
        } else {
            proof {
                lemma_total_positive(pool@);
            }
            let roll = random_below(total);
            pick_weighted(&pool, roll)
        };
        let picked = pool.remove(i);
        proof {
            lemma_sum_remove(prev, i as int);
            lemma_sum_nonneg(pool@);
        }
        total = total - (picked.0 as u64);
        let ghost oldorder = order@;
        order.push(picked.1);
        proof {
            assert(ids_of(pool@) =~= ids_of(prev).remove(i as int));
            assert(ids_of(prev)[i as int] == picked.1);
            assert(ids_of(prev).to_multiset().count(picked.1) >= 1) by {
                assert(ids_of(prev).contains(picked.1)) by {
                    assert(ids_of(prev)[i as int] == picked.1);
                }
            }
            assert(order@.to_multiset().add(ids_of(pool@).to_multiset()) == ids_of(
                orig,
            ).to_multiset()) by {
                assert(order@ == oldorder.push(picked.1));
                assert(order@.to_multiset() =~= oldorder.to_multiset().insert(picked.1));
                assert(ids_of(pool@).to_multiset() =~= ids_of(prev).to_multiset().remove(
                    picked.1,
                ));
                assert(order@.to_multiset().add(ids_of(pool@).to_multiset())
                    =~= oldorder.to_multiset().add(ids_of(prev).to_multiset()));
            }
            if orig.len() == 1 {
                assert(prev == orig);
                assert(order@ =~= seq![orig[0].1]);
            }
            if has_zero && pool@.len() > 0 {
                let z = choose|z: int|
                    0 <= z < prev.len() && (#[trigger] prev[z]).0 == 0 && prev[z].1 == zid;
                assert(prev[i as int].0 > 0);
                let znew = if z < i as int {
                    z
                } else {
                    z - 1
                };
                assert(pool@[znew] == prev[z]);
            }
            if has_zero && pool@.len() == 0 {
                let z = choose|z: int|
                    0 <= z < prev.len() && (#[trigger] prev[z]).0 == 0 && prev[z].1 == zid;
                assert(prev.len() == 1);
                assert(picked.1 == zid);
            }
        }
    }
    proof {
        if orig.len() > 0 && has_zero {
            assert forall|z: int|
                0 <= z < orig.len() && (#[trigger] orig[z]).0 == 0 implies order@[order@.len() - 1]
                == orig[z].1 by {
                let z0 = choose|z: int| 0 <= z < orig.len() && (#[trigger] orig[z]).0 == 0;
                lemma_zero_unique(orig, z, z0);
            }
        }
    }
    order
}

/// Which roster line a participant stands on.
#[derive(Debug, Clone, Copy, PartialEq, Eq, Structural)]
pub enum RosterSide {
    Friendly,
    Enemy,
}

/// One participant's deterministic grid slot at battle start, indexed by
/// roster order. The two sides stand on parallel opposing lines.
#[derive(Debug, Clone, Copy, PartialEq, Eq, Structural)]
pub struct Placement {
    pub id: CharacterId,
    pub side: RosterSide,
    pub index: usize,
}

/// The phase of the battle loop.
pub enum BattleState {
    Initializing,
    StartingRound,
    StartingTurn,
    WaitingForInput(UiMenus),
    ProcessingCpu,
}

/// A copy of the battle phase without the menu payload, for callers that
/// only inspect where the loop stands.
#[derive(Debug, Clone, Copy, PartialEq, Eq, Structural)]
pub enum BattlePhase {
    Initializing,
    StartingRound,
    StartingTurn,
    WaitingForInput,
    ProcessingCpu,
}

/// Pairs each participant with its turn-order weight, the speed stat.
pub open spec fn pair_of(storage: CharacterStorage) -> spec_fn(CharacterId) -> (u32, CharacterId) {
    |id: CharacterId| (storage@[id.0 as int].stats.speed, id)
}

/// The weighted candidate pool of a roster, friendly side first.
pub open spec fn spec_pool(c: Characters, storage: CharacterStorage) -> Seq<(u32, CharacterId)> {
    (c.spec_friendly() + c.spec_enemy()).map_values(pair_of(storage))
}

/// Collects the weighted candidate pool from the roster.
fn build_pool(characters: &Characters, storage: &CharacterStorage) -> (r: Vec<(u32, CharacterId)>)
    requires
        characters.resolves_in(storage),
    ensures
        r@ == spec_pool(*characters, *storage),
        ids_of(r@) == characters.spec_friendly() + characters.spec_enemy(),
{
    let ghost all = characters.spec_friendly() + characters.spec_enemy();
    let mut pool: Vec<(u32, CharacterId)> = Vec::new();
    let fr = characters.friendly();
    let en = characters.enemy();
    let mut i: usize = 0;
    while i < fr.len()
        invariant
            i <= fr@.len(),
            fr@ == characters.spec_friendly(),
            characters.resolves_in(storage),
            pool@.len() == i,
            forall|k: int| 0 <= k < i ==> #[trigger] pool@[k] == pair_of(*storage)(fr@[k]),
        decreases fr@.len() - i,
    {
        let id = fr[i];
        match storage.character(id) {
            Some(c) => pool.push((c.stats.speed, id)),
            None => {
                proof {
                    assert(false);
                }
            },
        }
        i += 1;
    }
    let mut j: usize = 0;
    while j < en.len()
        invariant
            j <= en@.len(),
            fr@ == characters.spec_friendly(),
            en@ == characters.spec_enemy(),
            characters.resolves_in(storage),
            pool@.len() == fr@.len() + j,
            forall|k: int| 0 <= k < fr@.len() ==> #[trigger] pool@[k] == pair_of(*storage)(fr@[k]),
            forall|k: int|
                0 <= k < j ==> #[trigger] pool@[fr@.len() + k] == pair_of(*storage)(en@[k]),
        decreases en@.len() - j,
    {
        let id = en[j];
        match storage.character(id) {
            Some(c) => pool.push((c.stats.speed, id)),
            None => {
                proof {
                    assert(false);
                }
            },
        }
        j += 1;
    }
    proof {
        let all2 = characters.spec_friendly() + characters.spec_enemy();
        let sp = spec_pool(*characters, *storage);
        assert(sp.len() == all2.len());
        assert forall|k: int| 0 <= k < pool@.len() implies pool@[k] == sp[k] by {
            if k < characters.spec_friendly().len() {
                assert(all2[k] == characters.spec_friendly()[k]);
                assert(pool@[k] == pair_of(*storage)(characters.spec_friendly()[k]));
            } else {
                let k2 = k - characters.spec_friendly().len();
                assert(all2[k] == characters.spec_enemy()[k2]);
                assert(pool@[characters.spec_friendly().len() + k2] == pair_of(*storage)(
                    characters.spec_enemy()[k2],
                ));
            }
        }
        assert(pool@ =~= sp);
        assert(ids_of(pool@) =~= all2);
    }
    pool
}

/// A turn order whose multiset equals a duplicate-free roster is a
/// permutation of it: no duplicates, nothing missing, nothing extra.
pub proof fn lemma_turn_order_permutation(order: Seq<CharacterId>, roster: Seq<CharacterId>)
    requires
        order.to_multiset() == roster.to_multiset(),
        roster.no_duplicates(),
    ensures
        order.no_duplicates(),
        order.len() == roster.len(),
        forall|id: CharacterId| order.contains(id) <==> roster.contains(id),
{
    order.to_multiset_ensures();
    roster.to_multiset_ensures();
    roster.lemma_multiset_has_no_duplicates();
    order.lemma_multiset_has_no_duplicates_conv();
    assert forall|id: CharacterId| order.contains(id) <==> roster.contains(id) by {
        assert(order.contains(id) <==> order.to_multiset().count(id) > 0);
        assert(roster.contains(id) <==> roster.to_multiset().count(id) > 0);
    }
}

/// A well-formed roster's two sides, concatenated, hold no duplicates.
pub proof fn lemma_roster_no_duplicates(c: Characters)
    requires
        c.wf(),
    ensures
        (c.spec_friendly() + c.spec_enemy()).no_duplicates(),
{
    let fr = c.spec_friendly();
    let en = c.spec_enemy();
    let all = fr + en;
    assert forall|i: int, j: int| 0 <= i < j < all.len() implies all[i] != all[j] by {
        if i < fr.len() && j >= fr.len() {
            assert(all[i] == fr[i]);
            assert(all[j] == en[j - fr.len()]);
            assert(en.contains(en[j - fr.len()]));
        } else if i >= fr.len() {
            assert(all[i] == en[i - fr.len()]);
            assert(all[j] == en[j - fr.len()]);
        } else {
            assert(all[i] == fr[i]);
            assert(all[j] == fr[j]);
        }
    }
}

/// Drives rounds and turns: rebuilds the turn order each round by the
/// weighted draw, opens a menu pair for each turn, and advances when the
/// menus resolve.
pub struct BattleServer {
    state: BattleState,
    characters: Characters,
    current_character: Option<CharacterId>,
    turn_order: Vec<CharacterId>,
}

impl BattleServer {
    pub closed spec fn spec_state(&self) -> BattleState {
        self.state
    }

    pub closed spec fn spec_characters(&self) -> Characters {
        self.characters
    }

    pub closed spec fn spec_current(&self) -> Option<CharacterId> {
        self.current_character
    }

    pub closed spec fn spec_turn_order(&self) -> Seq<CharacterId> {
        self.turn_order@
    }

    /// The roster is well formed and resolves, queued turns resolve, and a
    /// waiting state's menus are intact.
    pub open spec fn wf(&self, world: MenuWorld, storage: CharacterStorage) -> bool {
        &&& self.spec_characters().wf()
        &&& self.spec_characters().resolves_in(&storage)
        &&& forall|i: int|
            0 <= i < self.spec_turn_order().len() ==> (#[trigger] self.spec_turn_order()[i]).0
                < storage@.len()
        &&& match self.spec_state() {
            BattleState::WaitingForInput(m) => m.wf(world, storage),
            _ => true,
        }
    }

    pub fn new(characters: Characters) -> (r: Self)
        ensures
            r.spec_state() is Initializing,
            r.spec_characters() == characters,
            r.spec_current() is None,
            r.spec_turn_order().len() == 0,
    {
        Self {
            state: BattleState::Initializing,
            characters,
            current_character: None,
            turn_order: Vec::new(),
        }
    }

    pub fn characters(&self) -> (r: &Characters)
        ensures
            *r == self.spec_characters(),
    {
        &self.characters
    }

    pub fn turn_order(&self) -> (r: &Vec<CharacterId>)
        ensures
            r@ == self.spec_turn_order(),
    {
        &self.turn_order
    }

    pub fn current_character(&self) -> (r: Option<CharacterId>)
        ensures
            r == self.spec_current(),
    {
        self.current_character
    }

    /// The menus of the running turn, while waiting for input.
    pub fn menus(&self) -> (r: Option<&UiMenus>)
        ensures
            match r {
                Some(m) => self.spec_state() == BattleState::WaitingForInput(*m),
                None => !(self.spec_state() is WaitingForInput),
            },
    {
        match &self.state {
            BattleState::WaitingForInput(m) => Some(m),
            _ => None,
        }
    }

    /// Where the battle loop stands.
    pub fn phase(&self) -> (r: BattlePhase)
        ensures
            r == (match self.spec_state() {
                BattleState::Initializing => BattlePhase::Initializing,
                BattleState::StartingRound => BattlePhase::StartingRound,
                BattleState::StartingTurn => BattlePhase::StartingTurn,
                BattleState::WaitingForInput(_) => BattlePhase::WaitingForInput,
                BattleState::ProcessingCpu => BattlePhase::ProcessingCpu,
            }),
    {
        match &self.state {
            BattleState::Initializing => BattlePhase::Initializing,
            BattleState::StartingRound => BattlePhase::StartingRound,
            BattleState::StartingTurn => BattlePhase::StartingTurn,
            BattleState::WaitingForInput(_) => BattlePhase::WaitingForInput,
            BattleState::ProcessingCpu => BattlePhase::ProcessingCpu,
        }
    }

    /// The deterministic grid slots of the roster: each side placed along
    /// its own line, indexed by roster order.
    pub fn placement_plan(&self) -> (r: Vec<Placement>)
        ensures
            r@.len() == self.spec_characters().spec_friendly().len()
                + self.spec_characters().spec_enemy().len(),
            forall|i: int|
                0 <= i < self.spec_characters().spec_friendly().len() ==> r@[i] == (Placement {
                    id: self.spec_characters().spec_friendly()[i],
                    side: RosterSide::Friendly,
                    index: i as usize,
                }),
            forall|i: int|
                0 <= i < self.spec_characters().spec_enemy().len() ==> r@[
                    self.spec_characters().spec_friendly().len() + i] == (Placement {
                    id: self.spec_characters().spec_enemy()[i],
                    side: RosterSide::Enemy,
                    index: i as usize,
                }),
    {
        Self::plan_of(&self.characters)
    }

    /// Runtime check of the weighted-draw preconditions: at most one
    /// zero-speed participant and a roster weight sum that fits the draw's
    /// accumulator. For callers outside verified code that must establish
    /// them before starting a round.
    pub fn draw_ready(&self, storage: &CharacterStorage) -> (r: bool)
        requires
            self.spec_characters().resolves_in(storage),
        ensures
            r == (count_zeros(spec_pool(self.spec_characters(), *storage)) <= 1 && sum_weights(
                spec_pool(self.spec_characters(), *storage),
            ) <= u64::MAX),
    {
        let pool = build_pool(&self.characters, storage);
        proof {
            assert(pool@.take(pool@.len() as int) =~= pool@);
        }
        let mut zeros: usize = 0;
        let mut acc: u64 = 0;
        let mut i: usize = 0;
        while i < pool.len()
            invariant
                i <= pool@.len(),
                pool@ == spec_pool(self.spec_characters(), *storage),
                zeros == count_zeros(pool@.take(i as int)),
                zeros <= i,
                acc == sum_weights(pool@.take(i as int)),
                sum_weights(pool@.take(pool@.len() as int)) == sum_weights(pool@),
                count_zeros(pool@.take(pool@.len() as int)) == count_zeros(pool@),
            decreases pool@.len() - i,
        {
            let w = pool[i].0;
            proof {
                lemma_sum_take_step(pool@, i as int);
                lemma_sum_nonneg(pool@.take(i as int));
            }
            if w == 0 {
                zeros = zeros + 1;
            }
            if acc > u64::MAX - (w as u64) {
                proof {
                    lemma_take_remainder_bound(pool@, i as int);
                }
                return false;
            }
            acc = acc + (w as u64);
            i += 1;
        }
        zeros <= 1
    }

    /// Rebuilds the turn order for a new round: a weighted draw over the
    /// full current roster, a permutation of it.
    pub fn start_round(&mut self, storage: &CharacterStorage)
        requires
            old(self).spec_characters().wf(),
            old(self).spec_characters().resolves_in(storage),
            count_zeros(spec_pool(old(self).spec_characters(), *storage)) <= 1,
            sum_weights(spec_pool(old(self).spec_characters(), *storage)) <= u64::MAX,
        ensures
            final(self).spec_state() == old(self).spec_state(),
            final(self).spec_characters() == old(self).spec_characters(),
            final(self).spec_current() == old(self).spec_current(),
            final(self).spec_turn_order().to_multiset() == (old(self).spec_characters().spec_friendly() + old(self).spec_characters().spec_enemy()).to_multiset(),
            forall|z: int|
                0 <= z < spec_pool(old(self).spec_characters(), *storage).len() && (
                #[trigger] spec_pool(old(self).spec_characters(), *storage)[z]).0 == 0 ==> final(self).spec_turn_order()[final(self).spec_turn_order().len() - 1] == spec_pool(
                    old(self).spec_characters(),
                    *storage,
                )[z].1,
            forall|i: int|
                0 <= i < final(self).spec_turn_order().len() ==> (#[trigger] final(self).spec_turn_order()[i]).0 < storage@.len(),
    {
        let pool = build_pool(&self.characters, storage);
        let ghost all = self.characters.spec_friendly() + self.characters.spec_enemy();
        let order = draw_turn_order(pool);
        self.turn_order = order;
        proof {
            assert(self.turn_order@.to_multiset() == all.to_multiset());
            let sp = spec_pool(old(self).spec_characters(), *storage);
            assert forall|z: int|
                0 <= z < sp.len() && (#[trigger] sp[z]).0 == 0 implies self.turn_order@[
                self.turn_order@.len() - 1] == sp[z].1 by {
                assert(pool@.len() > 0);
                assert(pool@[z].0 == 0);
            }
            assert forall|i: int|
                0 <= i < self.turn_order@.len() implies (#[trigger] self.turn_order@[i]).0
                < storage@.len() by {
                assert(self.turn_order@.contains(self.turn_order@[i]));
                assert(self.turn_order@.to_multiset().count(self.turn_order@[i]) > 0);
                assert(all.to_multiset().count(self.turn_order@[i]) > 0);
                assert(all.contains(self.turn_order@[i]));
                let j = choose|j: int| 0 <= j < all.len() && all[j] == self.turn_order@[i];
                if j < self.characters.spec_friendly().len() {
                    assert(all[j] == self.characters.spec_friendly()[j]);
                } else {
                    assert(all[j] == self.characters.spec_enemy()[
                        j - self.characters.spec_friendly().len()]);
                }
            }
        }
    }

    /// Pops the next queued participant and opens its action menu; an empty
    /// queue ends the round instead.
    pub fn start_turn(&mut self, world: &mut MenuWorld, repo: &ActionRepo, storage: &CharacterStorage)
        requires
            old(world).wf(),
            old(world).spec_next_id() < u64::MAX,
            storage.wf(repo@.len() as nat),
            forall|i: int|
                0 <= i < old(self).spec_turn_order().len() ==> (#[trigger] old(self).spec_turn_order()[i]).0 < storage@.len(),
        ensures
            final(world).wf(),
            final(self).spec_characters() == old(self).spec_characters(),
            forall|i: int|
                0 <= i < final(self).spec_turn_order().len() ==> (#[trigger] final(self).spec_turn_order()[i]).0 < storage@.len(),
            old(self).spec_turn_order().len() == 0 ==> {
                &&& final(self).spec_state() is StartingRound
                &&& final(world)@ == old(world)@
                &&& final(self).spec_turn_order() == old(self).spec_turn_order()
                &&& final(self).spec_current() == old(self).spec_current()
                &&& final(world).spec_next_id() == old(world).spec_next_id()
            },
            old(self).spec_turn_order().len() > 0 ==> {
                &&& final(self).spec_turn_order() == old(self).spec_turn_order().drop_first()
                &&& final(self).spec_current() == Some(old(self).spec_turn_order()[0])
                &&& final(world).spec_next_id() == old(world).spec_next_id() + 1
                &&& match final(self).spec_state() {
                    BattleState::WaitingForInput(m) => {
                        &&& m.wf(*final(world), *storage)
                        &&& m.spec_current() == old(self).spec_turn_order()[0]
                        &&& m.spec_action_menu() == old(world).spec_next_id()
                        &&& m.spec_target_menu() is None
                        &&& !old(world)@.dom().contains(m.spec_action_menu())
                        &&& strs_of(final(world)@[m.spec_action_menu()].options@)
                            == spec_action_names(
                            *repo,
                            storage.spec_character(old(self).spec_turn_order()[0]),
                        )
                        &&& final(world)@[m.spec_action_menu()].selected == 0
                        &&& final(world)@.dom() == old(world)@.dom().insert(m.spec_action_menu())
                        &&& forall|k: u64|
                            k != m.spec_action_menu() && old(world)@.dom().contains(k) ==> final(world)@[k] == old(world)@[k]
                    },
                    _ => false,
                }
            },
    {
        if self.turn_order.len() == 0 {
            self.state = BattleState::StartingRound;
            return ;
        }

        let next = self.turn_order.remove(0);
        proof {
            assert(self.turn_order@ =~= old(self).spec_turn_order().drop_first());
            assert forall|i: int|
                0 <= i < self.turn_order@.len() implies (#[trigger] self.turn_order@[i]).0
                < storage@.len() by {
                assert(self.turn_order@[i] == old(self).spec_turn_order()[i + 1]);
            }
        }
        self.current_character = Some(next);

        match UiMenus::new(world, repo, storage, next) {
            Ok(menu) => {
                self.state = BattleState::WaitingForInput(menu);
            },
            Err(_) => {
                proof {
                    assert(storage@[next.0 as int].actions@.len() > 0);
                    assert(false);
                }
                self.state = BattleState::ProcessingCpu;
            },
        }
    }

    /// Advances the battle loop one frame.
    ///
    /// Initialization yields the placement plan and moves on; a new round
    /// draws the turn order; a new turn opens the action menu; while
    /// waiting, the menus process this frame's input, and a resolved turn
    /// tears both menu panels down together before the next turn begins.
    pub fn tick(
        &mut self,
        world: &mut MenuWorld,
        input: &MenuInput,
        repo: &ActionRepo,
        storage: &CharacterStorage,
    ) -> (r: Option<Vec<Placement>>)
        requires
            old(world).wf(),
            old(world).spec_next_id() < u64::MAX,
            storage.wf(repo@.len() as nat),
            old(self).wf(*old(world), *storage),
            old(self).spec_state() is StartingRound ==> count_zeros(
                spec_pool(old(self).spec_characters(), *storage),
            ) <= 1 && sum_weights(spec_pool(old(self).spec_characters(), *storage)) <= u64::MAX,
        ensures
            final(world).wf(),
            final(self).wf(*final(world), *storage),
            final(self).spec_characters() == old(self).spec_characters(),
            match old(self).spec_state() {
                BattleState::Initializing => {
                    &&& final(self).spec_state() is StartingRound
                    &&& r is Some
                    &&& final(world)@ == old(world)@
                    &&& final(self).spec_turn_order() == old(self).spec_turn_order()
                },
                BattleState::StartingRound => {
                    &&& final(self).spec_state() is StartingTurn
                    &&& final(self).spec_turn_order().to_multiset() == (old(self).spec_characters().spec_friendly() + old(self).spec_characters().spec_enemy()).to_multiset()
                    &&& forall|z: int|
                        0 <= z < spec_pool(old(self).spec_characters(), *storage).len() && (
                        #[trigger] spec_pool(old(self).spec_characters(), *storage)[z]).0 == 0
                            ==> final(self).spec_turn_order()[final(self).spec_turn_order().len()
                            - 1] == spec_pool(old(self).spec_characters(), *storage)[z].1
                    &&& final(world)@ == old(world)@
                    &&& r is None
                },
                BattleState::StartingTurn => {
                    &&& r is None
                    &&& (old(self).spec_turn_order().len() == 0 ==> final(self).spec_state() is StartingRound && final(world)@ == old(world)@)
                    &&& (old(self).spec_turn_order().len() > 0 ==> {
                        &&& final(self).spec_turn_order() == old(self).spec_turn_order().drop_first()
                        &&& final(self).spec_current() == Some(old(self).spec_turn_order()[0])
                        &&& match final(self).spec_state() {
                            BattleState::WaitingForInput(m2) => {
                                &&& m2.spec_current() == old(self).spec_turn_order()[0]
                                &&& strs_of(final(world)@[m2.spec_action_menu()].options@)
                                    == spec_action_names(
                                    *repo,
                                    storage.spec_character(old(self).spec_turn_order()[0]),
                                )
                                &&& final(world)@[m2.spec_action_menu()].selected == 0
                            },
                            _ => false,
                        }
                    })
                },
                BattleState::WaitingForInput(m) => {
                    let resolved = is_confirm(spec_menu_action(*input)) && (
                    m.spec_target_menu() is Some || !needs_target(
                        m.spec_resolved_target(*old(world), *storage, *repo, *input),
                    ));
                    &&& r is None
                    &&& (resolved ==> {
                        &&& !final(world)@.dom().contains(m.spec_action_menu())
                        &&& match m.spec_target_menu() {
                            Some(t) => !final(world)@.dom().contains(t),
                            None => true,
                        }
                        &&& (old(self).spec_turn_order().len() == 0 ==> final(self).spec_state() is StartingRound)
                        &&& (old(self).spec_turn_order().len() > 0 ==> {
                            &&& final(self).spec_turn_order() == old(self).spec_turn_order().drop_first()
                            &&& match final(self).spec_state() {
                                BattleState::WaitingForInput(m2) => {
                                    &&& m2.spec_current() == old(self).spec_turn_order()[0]
                                    &&& strs_of(final(world)@[m2.spec_action_menu()].options@)
                                        == spec_action_names(
                                        *repo,
                                        storage.spec_character(old(self).spec_turn_order()[0]),
                                    )
                                    &&& final(world)@[m2.spec_action_menu()].selected == 0
                                },
                                _ => false,
                            }
                        })
                    })
                    &&& (!resolved ==> final(self).spec_state() is WaitingForInput && final(self).spec_turn_order() == old(self).spec_turn_order())
                },
                BattleState::ProcessingCpu => {
                    &&& final(self).spec_state() is ProcessingCpu
                    &&& final(self).spec_turn_order() == old(self).spec_turn_order()
                    &&& final(self).spec_current() == old(self).spec_current()
                    &&& final(world)@ == old(world)@
                    &&& r is None
                },
            },
    {
        let mut st = BattleState::ProcessingCpu;
        core::mem::swap(&mut st, &mut self.state);
        match st {
            BattleState::Initializing => {
                let plan = Self::plan_of(&self.characters);
                self.state = BattleState::StartingRound;
                Some(plan)
            },
            BattleState::StartingRound => {
                self.start_round(storage);
                self.state = BattleState::StartingTurn;
                None
            },
            BattleState::StartingTurn => {
                self.start_turn(world, repo, storage);
                None
            },
            BattleState::WaitingForInput(mut menus) => {
                let out = menus.tick(world, input, repo, storage, &self.characters);
                match out {
                    UiMenuOutput::Pending => {
                        self.state = BattleState::WaitingForInput(menus);
                        None
                    },
                    UiMenuOutput::SkipTurn => {
                        menus.drop_menus(world);
                        proof {
                            old(world).lemma_wf_key_bound();
                            match old(self).spec_state() {
                                BattleState::WaitingForInput(m0) => {
                                    assert(old(world)@.dom().contains(m0.spec_action_menu()));
                                    assert(m0.spec_action_menu() < old(world).spec_next_id());
                                    match m0.spec_target_menu() {
                                        Some(t) => {
                                            assert(old(world)@.dom().contains(t));
                                            assert(t < old(world).spec_next_id());
                                        },
                                        None => {},
                                    }
                                },
                                _ => {},
                            }
                        }
                        self.start_turn(world, repo, storage);
                        proof {
                            match old(self).spec_state() {
                                BattleState::WaitingForInput(m0) => {
                                    assert(!world@.dom().contains(m0.spec_action_menu()));
                                    match m0.spec_target_menu() {
                                        Some(t) => {
                                            assert(!world@.dom().contains(t));
                                        },
                                        None => {},
                                    }
                                },
                                _ => {},
                            }
                        }
                        None
                    },
                }
            },
            BattleState::ProcessingCpu => None,
        }
    }

    /// The placement plan of a roster; see [`BattleServer::placement_plan`].
    fn plan_of(characters: &Characters) -> (r: Vec<Placement>)
        ensures
            r@.len() == characters.spec_friendly().len() + characters.spec_enemy().len(),
            forall|i: int|
                0 <= i < characters.spec_friendly().len() ==> r@[i] == (Placement {
                    id: characters.spec_friendly()[i],
                    side: RosterSide::Friendly,
                    index: i as usize,
                }),
            forall|i: int|
                0 <= i < characters.spec_enemy().len() ==> r@[characters.spec_friendly().len()
                    + i] == (Placement {
                    id: characters.spec_enemy()[i],
                    side: RosterSide::Enemy,
                    index: i as usize,
                }),
    {
        let fr = characters.friendly();
        let en = characters.enemy();
        let mut plan: Vec<Placement> = Vec::new();
        let mut i: usize = 0;
        while i < fr.len()
            invariant
                i <= fr@.len(),
                fr@ == characters.spec_friendly(),
                plan@.len() == i,
                forall|k: int|
                    0 <= k < i ==> plan@[k] == (Placement {
                        id: fr@[k],
                        side: RosterSide::Friendly,
                        index: k as usize,
                    }),
            decreases fr@.len() - i,
        {
            plan.push(Placement { id: fr[i], side: RosterSide::Friendly, index: i });
            i += 1;
        }
        let mut j: usize = 0;
        while j < en.len()
            invariant
                j <= en@.len(),
                fr@ == characters.spec_friendly(),
                en@ == characters.spec_enemy(),
                plan@.len() == fr@.len() + j,
                forall|k: int|
                    0 <= k < fr@.len() ==> plan@[k] == (Placement {
                        id: fr@[k],
                        side: RosterSide::Friendly,
                        index: k as usize,
                    }),
                forall|k: int|
                    0 <= k < j ==> plan@[fr@.len() + k] == (Placement {
                        id: en@[k],
                        side: RosterSide::Enemy,
                        index: k as usize,
                    }),
            decreases en@.len() - j,
        {
            plan.push(Placement { id: en[j], side: RosterSide::Enemy, index: j });
            j += 1;
        }
        plan
    }
}

} // verus!
