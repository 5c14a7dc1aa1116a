//! Resolution of melee attacks.

use vstd::prelude::*;

verus! {

/// Identifier of an entity in the game world.
pub type EntityId = u64;

/// A pending attack: the entity that carries the intent, and its target.
#[derive(Copy, Clone, Debug, PartialEq, Eq, Structural)]
pub struct Attack {
    /// The message entity that holds the intent; consumed once handled.
    pub message: EntityId,
    /// The entity being attacked.
    pub victim: EntityId,
}

/// What the combat rules need to know of one entity.
#[derive(Copy, Clone, Debug, PartialEq, Eq, Structural)]
pub struct Combatant {
    pub entity: EntityId,
    /// Current hit points, for entities that have any.
    pub health: Option<i32>,
    pub is_player: bool,
}

/// Position of the first combatant with the given id, or the length of the
/// sequence when there is none.
pub open spec fn position_of(world: Seq<Combatant>, entity: EntityId) -> int
    decreases world.len(),
{
    if world.len() == 0 {
        0
    } else if world[0].entity == entity {
        0
    } else {
        1 + position_of(world.drop_first(), entity)
    }
}

/// Whether some combatant has the given id.
pub open spec fn is_present(world: Seq<Combatant>, entity: EntityId) -> bool {
    exists|i: int| 0 <= i < world.len() && #[trigger] world[i].entity == entity
}

/// Hit points after one blow; the count stops at the smallest value.
pub open spec fn wounded(health: i32) -> i32 {
    if health > i32::MIN {
        (health - 1) as i32
    } else {
        health
    }
}

/// The world after one attack lands.
pub open spec fn strike(world: Seq<Combatant>, attack: Attack) -> Seq<Combatant> {
    let i = position_of(world, attack.victim);
    if 0 <= i < world.len() {
        match world[i].health {
            Some(h) => world.update(i, Combatant { health: Some(wounded(h)), ..world[i] }),
            None => world,
        }
    } else {
        world
    }
}

/// The removals one attack asks for, in order: the victim if it is a slain
/// monster, then the message.
pub open spec fn strike_removals(world: Seq<Combatant>, attack: Attack) -> Seq<EntityId> {
    let i = position_of(world, attack.victim);
    if 0 <= i < world.len() && world[i].health is Some && wounded(world[i].health->0) < 1
        && !world[i].is_player {
        seq![attack.victim, attack.message]
    } else {
        seq![attack.message]
    }
}

/// The world after all attacks have landed, in order.
pub open spec fn after_attacks(world: Seq<Combatant>, attacks: Seq<Attack>) -> Seq<Combatant>
    decreases attacks.len(),
{
    if attacks.len() == 0 {
        world
    } else {
        strike(after_attacks(world, attacks.drop_last()), attacks.last())
    }
}

/// All removals that the attacks ask for, in order.
pub open spec fn removals(world: Seq<Combatant>, attacks: Seq<Attack>) -> Seq<EntityId>
    decreases attacks.len(),
{
    if attacks.len() == 0 {
        Seq::empty()
    } else {
        removals(world, attacks.drop_last()) + strike_removals(
            after_attacks(world, attacks.drop_last()),
            attacks.last(),
        )
    }
}

/// A strike keeps every combatant's identity and place.
pub proof fn lemma_strike_keeps_entities(world: Seq<Combatant>, attack: Attack)
    ensures
        strike(world, attack).len() == world.len(),
        forall|i: int|
            0 <= i < world.len() ==> (#[trigger] strike(world, attack)[i]).entity
                == world[i].entity,
        forall|e: EntityId| position_of(strike(world, attack), e) == position_of(world, e),
        forall|e: EntityId| is_present(strike(world, attack), e) == is_present(world, e),
{
    let after = strike(world, attack);
    assert forall|e: EntityId| position_of(after, e) == position_of(world, e) by {
        lemma_position_by_entities(after, world, e);
    }
    assert forall|e: EntityId| is_present(after, e) == is_present(world, e) by {
        if is_present(world, e) {
            let i = choose|i: int| 0 <= i < world.len() && #[trigger] world[i].entity == e;
            assert(after[i].entity == e);
        }
        if is_present(after, e) {
            let i = choose|i: int| 0 <= i < after.len() && #[trigger] after[i].entity == e;
            assert(world[i].entity == e);
        }
    }
}

/// The position of an entity depends on the ids alone.
proof fn lemma_position_by_entities(a: Seq<Combatant>, b: Seq<Combatant>, e: EntityId)
    requires
        a.len() == b.len(),
        forall|i: int| 0 <= i < a.len() ==> (#[trigger] a[i]).entity == b[i].entity,
    ensures
        position_of(a, e) == position_of(b, e),
    decreases a.len(),
{
    if a.len() > 0 {
        assert(a[0].entity == b[0].entity);
        if a[0].entity != e {
            assert forall|i: int| 0 <= i < a.drop_first().len() implies (
            #[trigger] a.drop_first()[i]).entity == b.drop_first()[i].entity by {
                assert(a[i + 1].entity == b[i + 1].entity);
            }
            lemma_position_by_entities(a.drop_first(), b.drop_first(), e);
        }
    }
}

/// `position_of` finds the first match when there is one, and only then
/// stays within the sequence.
pub proof fn lemma_position_of(world: Seq<Combatant>, entity: EntityId)
    ensures
        0 <= position_of(world, entity) <= world.len(),
        position_of(world, entity) < world.len() <==> is_present(world, entity),
        position_of(world, entity) < world.len() ==> world[position_of(
            world,
            entity,
        )].entity == entity,
        forall|j: int| 0 <= j < position_of(world, entity) ==> (#[trigger] world[j]).entity != entity,
    decreases world.len(),
{
    if world.len() > 0 && world[0].entity != entity {
        let rest = world.drop_first();
        lemma_position_of(rest, entity);
        let p = position_of(rest, entity);
        if p < rest.len() {
            assert(world[p + 1] == rest[p]);
        }
        if is_present(world, entity) {
            let i = choose|i: int| 0 <= i < world.len() && #[trigger] world[i].entity == entity;
            assert(rest[i - 1].entity == entity);
        }
        assert forall|j: int| 0 <= j < 1 + p implies (#[trigger] world[j]).entity != entity by {
            if j > 0 {
                assert(world[j] == rest[j - 1]);
            }
        }
    }
}

/// Finds the first combatant with the given id.
pub fn find_combatant(world: &Vec<Combatant>, entity: EntityId) -> (found: Option<usize>)
    ensures
        match found {
            Some(i) => i == position_of(world@, entity) && i < world.len(),
            None => !is_present(world@, entity),
        },
{
    let mut i: usize = 0;
    while i < world.len()
        invariant
            i <= world.len(),
            forall|j: int| 0 <= j < i ==> (#[trigger] world@[j]).entity != entity,
        decreases world.len() - i,
    {
        if world[i].entity == entity {
            proof {
                lemma_position_of(world@, entity);
                let p = position_of(world@, entity);
                assert(is_present(world@, entity));
                if p < i {
                    assert(world@[p].entity == entity);
                }
            }
            return Some(i);
        }
        i += 1;
    }
    proof {
        if is_present(world@, entity) {
            let k = choose|k: int| 0 <= k < world@.len() && #[trigger] world@[k].entity == entity;
            assert(world@[k].entity != entity);
        }
    }
    None
}

/// Lands every attack in order on `world` and returns the entities to remove.
///
/// Each attack takes one hit point from its victim, if the victim has hit
/// points at all. A victim that is left without hit points is removed unless it
/// is the player. The message that carried the attack is always removed.
/// Removals are only collected here, so a victim slain by an earlier attack
/// still stands for the later ones.
pub fn combat(world: &mut Vec<Combatant>, attacks: &Vec<Attack>) -> (commands: Vec<EntityId>)
    requires
        forall|k: int|
            0 <= k < attacks.len() ==> is_present(old(world)@, (#[trigger] attacks@[k]).victim),
    ensures
        final(world)@ == after_attacks(old(world)@, attacks@),
        commands@ == removals(old(world)@, attacks@),
{
    let mut commands: Vec<EntityId> = Vec::new();
    let mut k: usize = 0;
    while k < attacks.len()
        invariant
            k <= attacks.len(),
            world@ == after_attacks(old(world)@, attacks@.take(k as int)),
            commands@ == removals(old(world)@, attacks@.take(k as int)),
            forall|e: EntityId| is_present(world@, e) == is_present(old(world)@, e),
            forall|j: int|
                0 <= j < attacks.len() ==> is_present(old(world)@, (#[trigger] attacks@[j]).victim),
        decreases attacks.len() - k,
    {
        let attack = attacks[k];
        let ghost before = world@;
        proof {
            assert(attacks@.take(k as int + 1).drop_last() == attacks@.take(k as int));
            assert(attacks@.take(k as int + 1).last() == attack);
            lemma_strike_keeps_entities(before, attack);
            assert(is_present(before, attack.victim));
        }
        match find_combatant(world, attack.victim) {
            Some(i) => {
                let target = world[i];
                match target.health {
                    Some(h) => {
                        let left: i32 = if h > i32::MIN {
                            h - 1
                        } else {
                            h
                        };
                        world.set(i, Combatant { entity: target.entity, health: Some(left), is_player: target.is_player });
                        if left < 1 && !target.is_player {
                            commands.push(attack.victim);
                        }
                    },
                    None => {},
                }
            },
            None => {},
        }
        commands.push(attack.message);
        proof {
            assert(world@ == strike(before, attack));
            assert(commands@ == removals(old(world)@, attacks@.take(k as int)) + strike_removals(
                before,
                attack,
            ));
        }
        k += 1;
    }
    proof {
        assert(attacks@.take(k as int) == attacks@);
    }
    commands
}

} // verus!
