//! The ledger: batches of moves, each checked against the flow rule, logged,
//! and then written to both partitions of the store at once.

use crate::centroid::{centroid_now, flip_digit, spec_centroid_now, spec_flip_digit, CentroidDigit};
use crate::encoding::{
    exponent_text, factors_key, lemma_keys_injective, lemma_parse_exponent_text, parse_exponent,
    postings_key, signed_decimal, spec_factors_key, spec_parse_exponent, spec_postings_key,
};
use crate::flow_rule::{
    node_from_u8, spec_allowed_direct, spec_node_from_u8, spec_transition_allowed,
    transition_allowed,
};
use crate::msd::{
    digits_in_range, digits_value, is_minimal, lemma_from_int, spec_from_int, vector_to_vec, Msd,
};
use crate::registry::{prime_to_node, spec_prime_to_node};
use crate::store::Partition;
use chrono::Utc;
use vstd::prelude::*;

verus! {

/// The record of one accepted move.
#[derive(Debug)]
pub struct LedgerEvent {
    /// The entity whose exponent moved.
    pub entity_id: u64,
    /// The prime whose exponent moved.
    pub prime: u32,
    /// The signed digits of the move's delta, least significant first.
    pub msd_digits: Vec<i8>,
    /// Whether the move went through the virtual centre.
    pub via_c: bool,
    /// The centroid digit in effect after this move.
    pub centroid_digit: CentroidDigit,
    /// The batch's timestamp, in milliseconds.
    pub timestamp: u64,
}

/// What an event record holds.
pub struct EventView {
    pub entity_id: u64,
    pub prime: u32,
    pub msd_digits: Seq<i8>,
    pub via_c: bool,
    pub centroid_digit: u8,
    pub timestamp: u64,
}

impl View for LedgerEvent {
    type V = EventView;

    open spec fn view(&self) -> EventView {
        EventView {
            entity_id: self.entity_id,
            prime: self.prime,
            msd_digits: self.msd_digits@,
            via_c: self.via_c,
            centroid_digit: self.centroid_digit,
            timestamp: self.timestamp,
        }
    }
}

impl Clone for LedgerEvent {
    fn clone(&self) -> (copy: LedgerEvent)
        ensures
            copy@ == self@,
    {
        LedgerEvent {
            entity_id: self.entity_id,
            prime: self.prime,
            msd_digits: self.msd_digits.clone(),
            via_c: self.via_c,
            centroid_digit: self.centroid_digit,
            timestamp: self.timestamp,
        }
    }
}

/// Why a batch failed.
#[derive(Debug, Clone, Copy, PartialEq, Eq, Structural)]
pub enum LedgerError {
    /// A command names a prime outside the table.
    UnknownPrime { prime: u32 },
    /// A command that moves an exponent names a target above 7.
    InvalidNode { node: u8 },
    /// The flow rule forbids the move and the centre does not absorb it.
    Forbidden { src: u8, dst: u8 },
}

/// An accepted move: its record, and the exponent to write to the store.
pub struct Anchored {
    pub event: LedgerEvent,
    pub exponent: i32,
}

/// Whether a move from a prime's home node to the target goes through the
/// virtual centre: the home node is even, the target is odd, and the pair is
/// not whitelisted.
pub open spec fn spec_via_centroid(home: u8, target: u8) -> bool {
    &&& home % 2 == 0
    &&& target % 2 == 1
    &&& !((home == 1 && target == 2) || (home == 5 && target == 6) || (home == 3 && target == 0)
        || (home == 7 && target == 4) || (home == 1 && target == 0))
}

/// The exponent that a command starts from: the stored one, or the home
/// node's index when none is stored.
pub open spec fn current_exponent_of(home: u8, stored: Option<i32>) -> int {
    match stored {
        Some(c) => c as int,
        None => home as int,
    }
}

/// What one command comes to, given the exponent stored for its prime and
/// the centroid digit before it.
///
/// An unknown prime fails. A target equal to the current exponent is skipped
/// without any check. Else the target must be a node, and the move from the
/// home node must be allowed by the flow rule or go through the centre, which
/// flips the digit. The event carries the digits of the delta.
pub open spec fn spec_anchor_command(
    entity: u64,
    prime: u32,
    target: u8,
    stored: Option<i32>,
    centroid: u8,
    ts: u64,
) -> Result<Option<EventView>, LedgerError> {
    match spec_prime_to_node(prime) {
        None => Err(LedgerError::UnknownPrime { prime }),
        Some(home) => {
            let delta = target - current_exponent_of(home, stored);
            let bypass = spec_via_centroid(home, target);
            if delta == 0 {
                Ok(None)
            } else if target > 7 {
                Err(LedgerError::InvalidNode { node: target })
            } else if !bypass && !spec_transition_allowed(
                spec_node_from_u8(home).unwrap(),
                spec_node_from_u8(target).unwrap(),
            ) {
                Err(LedgerError::Forbidden { src: home, dst: target })
            } else {
                Ok(
                    Some(
                        EventView {
                            entity_id: entity,
                            prime,
                            msd_digits: spec_from_int(delta),
                            via_c: bypass,
                            centroid_digit: if bypass {
                                spec_flip_digit(centroid)
                            } else {
                                centroid
                            },
                            timestamp: ts,
                        },
                    ),
                )
            }
        },
    }
}

/// What an outcome of a command holds.
pub open spec fn outcome_view(r: Result<Option<Anchored>, LedgerError>) -> Result<
    Option<EventView>,
    LedgerError,
> {
    match r {
        Ok(Some(a)) => Ok(Some(a.event@)),
        Ok(None) => Ok(None),
        Err(e) => Err(e),
    }
}

/// Whether the pair of raw indices goes through the virtual centre.
pub fn via_centroid(home: u8, target: u8) -> (bypass: bool)
    ensures
        bypass == spec_via_centroid(home, target),
        bypass == (home % 2 == 0 && target % 2 == 1),
{
    (home % 2 == 0 && target % 2 == 1) && !match (home, target) {
        (1, 2) => true,
        (5, 6) => true,
        (3, 0) => true,
        (7, 4) => true,
        (1, 0) => true,
        _ => false,
    }
}

/// Decides one command of a batch.
///
/// `stored` is the exponent that the store holds for the entity and the
/// prime, `centroid` the digit before the command, `ts` the batch's
/// timestamp. The result is an error, `None` for a command that moves
/// nothing, or the event to log with the exponent to write.
pub fn anchor_command(
    entity: u64,
    prime: u32,
    target_node: u8,
    stored: Option<i32>,
    centroid: CentroidDigit,
    ts: u64,
) -> (outcome: Result<Option<Anchored>, LedgerError>)
    requires
        centroid <= 1,
        stored matches Some(c) ==> target_node - c <= i32::MAX,
    ensures
        outcome_view(outcome) == spec_anchor_command(
            entity,
            prime,
            target_node,
            stored,
            centroid,
            ts,
        ),
        outcome matches Ok(Some(a)) ==> a.exponent == target_node && target_node <= 7
            && a.event.centroid_digit <= 1,
{
    let src_node = match prime_to_node(prime) {
        Some(n) => n,
        None => {
            return Err(LedgerError::UnknownPrime { prime });
        },
    };
    let dst_node = target_node;
    let current: i32 = match stored {
        Some(c) => c,
        None => src_node as i32,
    };
    let delta: i32 = (dst_node as i32) - current;
    if delta == 0 {
        return Ok(None);
    }
    let msd = Msd::from_int(delta);
    let msd_digits = vector_to_vec(&msd.as_vector());
    let via_c = via_centroid(src_node, dst_node);
    let src_node_enum = match node_from_u8(src_node) {
        Some(n) => n,
        None => {
            return Err(LedgerError::InvalidNode { node: src_node });
        },
    };
    let dst_node_enum = match node_from_u8(dst_node) {
        Some(n) => n,
        None => {
            return Err(LedgerError::InvalidNode { node: dst_node });
        },
    };
    let allowed = transition_allowed(src_node_enum, dst_node_enum);
    if !allowed && !via_c {
        return Err(LedgerError::Forbidden { src: src_node, dst: dst_node });
    }
    let mut digit = centroid;
    if via_c {
        digit = flip_digit(digit);
    }
    let event = LedgerEvent {
        entity_id: entity,
        prime,
        msd_digits,
        via_c,
        centroid_digit: digit,
        timestamp: ts,
    };
    Ok(Some(Anchored { event, exponent: current + delta }))
}

/// The views of a list of event records.
pub open spec fn events_view(s: Seq<LedgerEvent>) -> Seq<EventView> {
    Seq::new(s.len(), |i: int| s[i]@)
}

/// The exponent that the `factors` partition holds for an entity and a
/// prime, if it holds one that reads as an exponent.
pub open spec fn stored_exponent(factors: Map<Seq<u8>, Seq<u8>>, entity: u64, prime: u32) -> Option<
    i32,
> {
    let key = spec_factors_key(entity, prime);
    if factors.contains_key(key) {
        spec_parse_exponent(factors[key])
    } else {
        None
    }
}

/// Whether a value is the text of a node index, 0 to 7.
pub open spec fn is_node_text(value: Seq<u8>) -> bool {
    spec_parse_exponent(value) matches Some(v) && 0 <= v <= 7
}

/// Every value of the partition is the text of a node index.
pub open spec fn exponents_are_nodes(factors: Map<Seq<u8>, Seq<u8>>) -> bool {
    forall|k: Seq<u8>| #[trigger] factors.contains_key(k) ==> is_node_text(factors[k])
}

/// The two partitions hold the same exponents: an entity has a value for a
/// prime in `factors` exactly when `postings` has one for the pair, and the
/// two values are the same.
pub open spec fn partitions_mirrored(
    factors: Map<Seq<u8>, Seq<u8>>,
    postings: Map<Seq<u8>, Seq<u8>>,
) -> bool {
    forall|entity: u64, prime: u32|
        {
            let f_key = #[trigger] spec_factors_key(entity, prime);
            let p_key = spec_postings_key(prime, entity);
            &&& factors.contains_key(f_key) == postings.contains_key(p_key)
            &&& factors.contains_key(f_key) ==> factors[f_key] == postings[p_key]
        }
}

/// How far a batch got: the events accepted in order, the exponent to write
/// for each of them, the centroid digit after them, and the error that
/// stopped the batch, if one did.
pub struct BatchRun {
    pub events: Seq<EventView>,
    pub writes: Seq<(u32, i32)>,
    pub centroid: u8,
    pub failure: Option<LedgerError>,
}

/// Runs the commands in order against the `factors` partition as it was
/// before the batch. Every command reads that same partition: nothing is
/// written before the batch ends. The first error stops the run.
pub open spec fn run_batch(
    factors: Map<Seq<u8>, Seq<u8>>,
    entity: u64,
    commands: Seq<(u32, u8)>,
    seed: u8,
    ts: u64,
) -> BatchRun
    decreases commands.len(),
{
    if commands.len() == 0 {
        BatchRun {
            events: Seq::<EventView>::empty(),
            writes: Seq::<(u32, i32)>::empty(),
            centroid: seed,
            failure: None,
        }
    } else {
        let prev = run_batch(factors, entity, commands.drop_last(), seed, ts);
        let prime = commands.last().0;
        let target = commands.last().1;
        if prev.failure is Some {
            prev
        } else {
            match spec_anchor_command(
                entity,
                prime,
                target,
                stored_exponent(factors, entity, prime),
                prev.centroid,
                ts,
            ) {
                Err(e) => BatchRun {
                    events: prev.events,
                    writes: prev.writes,
                    centroid: prev.centroid,
                    failure: Some(e),
                },
                Ok(None) => prev,
                Ok(Some(event)) => BatchRun {
                    events: prev.events.push(event),
                    writes: prev.writes.push((prime, target as i32)),
                    centroid: event.centroid_digit,
                    failure: None,
                },
            }
        }
    }
}

/// The `factors` partition after the writes of a batch, applied in order.
pub open spec fn staged_factors(
    factors: Map<Seq<u8>, Seq<u8>>,
    entity: u64,
    writes: Seq<(u32, i32)>,
) -> Map<Seq<u8>, Seq<u8>>
    decreases writes.len(),
{
    if writes.len() == 0 {
        factors
    } else {
        staged_factors(factors, entity, writes.drop_last()).insert(
            spec_factors_key(entity, writes.last().0),
            signed_decimal(writes.last().1 as int),
        )
    }
}

/// The `postings` partition after the same writes.
pub open spec fn staged_postings(
    postings: Map<Seq<u8>, Seq<u8>>,
    entity: u64,
    writes: Seq<(u32, i32)>,
) -> Map<Seq<u8>, Seq<u8>>
    decreases writes.len(),
{
    if writes.len() == 0 {
        postings
    } else {
        staged_postings(postings, entity, writes.drop_last()).insert(
            spec_postings_key(writes.last().0, entity),
            signed_decimal(writes.last().1 as int),
        )
    }
}

/// A run that has failed on some first commands stays as it is, whatever
/// commands follow.
pub proof fn lemma_failure_stops(
    factors: Map<Seq<u8>, Seq<u8>>,
    entity: u64,
    commands: Seq<(u32, u8)>,
    k: int,
    seed: u8,
    ts: u64,
)
    requires
        0 <= k <= commands.len(),
        run_batch(factors, entity, commands.take(k), seed, ts).failure is Some,
    ensures
        run_batch(factors, entity, commands, seed, ts) == run_batch(
            factors,
            entity,
            commands.take(k),
            seed,
            ts,
        ),
    decreases commands.len(),
{
    if k == commands.len() {
        assert(commands.take(k) =~= commands);
    } else {
        assert(commands.drop_last().take(k) =~= commands.take(k));
        lemma_failure_stops(factors, entity, commands.drop_last(), k, seed, ts);
    }
}

/// The shape of a run: one write for each event, for the event's prime and
/// with a node index as its exponent; every event carries the batch's entity
/// and timestamp; the digit stays 0 or 1.
pub proof fn lemma_run_shape(
    factors: Map<Seq<u8>, Seq<u8>>,
    entity: u64,
    commands: Seq<(u32, u8)>,
    seed: u8,
    ts: u64,
)
    requires
        seed <= 1,
    ensures
        ({
            let run = run_batch(factors, entity, commands, seed, ts);
            &&& run.events.len() == run.writes.len()
            &&& run.events.len() <= commands.len()
            &&& run.centroid <= 1
            &&& forall|i: int|
                0 <= i < run.events.len() ==> {
                    &&& (#[trigger] run.events[i]).prime == run.writes[i].0
                    &&& run.events[i].entity_id == entity
                    &&& run.events[i].timestamp == ts
                    &&& run.events[i].centroid_digit <= 1
                    &&& 0 <= run.writes[i].1 <= 7
                }
        }),
    decreases commands.len(),
{
    if commands.len() > 0 {
        lemma_run_shape(factors, entity, commands.drop_last(), seed, ts);
    }
}

/// After the writes of a batch, both partitions hold the same value for every
/// prime that was written: the text of the exponent written last for it.
pub proof fn lemma_partitions_mirrored(
    factors: Map<Seq<u8>, Seq<u8>>,
    postings: Map<Seq<u8>, Seq<u8>>,
    entity: u64,
    writes: Seq<(u32, i32)>,
    i: int,
)
    requires
        0 <= i < writes.len(),
    ensures
        staged_factors(factors, entity, writes).contains_key(
            spec_factors_key(entity, writes[i].0),
        ),
        staged_postings(postings, entity, writes).contains_key(
            spec_postings_key(writes[i].0, entity),
        ),
        staged_factors(factors, entity, writes)[spec_factors_key(entity, writes[i].0)]
            == staged_postings(postings, entity, writes)[spec_postings_key(writes[i].0, entity)],
    decreases writes.len(),
{
    let last = writes.last();
    if writes[i].0 != last.0 {
        lemma_keys_injective(entity, writes[i].0, entity, last.0);
        lemma_partitions_mirrored(factors, postings, entity, writes.drop_last(), i);
        assert(writes.drop_last()[i] == writes[i]);
    }
}

/// The exponent written last for a prime among the writes of a batch.
pub open spec fn last_write(writes: Seq<(u32, i32)>, prime: u32) -> Option<i32>
    decreases writes.len(),
{
    if writes.len() == 0 {
        None
    } else if writes.last().0 == prime {
        Some(writes.last().1)
    } else {
        last_write(writes.drop_last(), prime)
    }
}

/// After the writes of a batch, the exponent stored for the entity and a
/// prime is the one written last for that prime; for a prime that was not
/// written it is what it was before.
pub proof fn lemma_stored_after_writes(
    factors: Map<Seq<u8>, Seq<u8>>,
    entity: u64,
    writes: Seq<(u32, i32)>,
    prime: u32,
)
    ensures
        stored_exponent(staged_factors(factors, entity, writes), entity, prime) == match last_write(
            writes,
            prime,
        ) {
            Some(v) => Some(v),
            None => stored_exponent(factors, entity, prime),
        },
    decreases writes.len(),
{
    if writes.len() > 0 {
        lemma_stored_after_writes(factors, entity, writes.drop_last(), prime);
        lemma_keys_injective(entity, prime, entity, writes.last().0);
        lemma_parse_exponent_text(writes.last().1);
    }
}

/// Writing one exponent to both partitions keeps them mirrored.
pub proof fn lemma_write_keeps_mirrored(
    factors: Map<Seq<u8>, Seq<u8>>,
    postings: Map<Seq<u8>, Seq<u8>>,
    entity: u64,
    prime: u32,
    value: Seq<u8>,
)
    requires
        partitions_mirrored(factors, postings),
    ensures
        partitions_mirrored(
            factors.insert(spec_factors_key(entity, prime), value),
            postings.insert(spec_postings_key(prime, entity), value),
        ),
{
    let new_factors = factors.insert(spec_factors_key(entity, prime), value);
    let new_postings = postings.insert(spec_postings_key(prime, entity), value);
    assert forall|e: u64, p: u32|
        {
            let f_key = #[trigger] spec_factors_key(e, p);
            let p_key = spec_postings_key(p, e);
            &&& new_factors.contains_key(f_key) == new_postings.contains_key(p_key)
            &&& new_factors.contains_key(f_key) ==> new_factors[f_key] == new_postings[p_key]
        } by {
        lemma_keys_injective(e, p, entity, prime);
    }
}

/// The writes of a batch keep the partitions mirrored.
pub proof fn lemma_staged_mirrored(
    factors: Map<Seq<u8>, Seq<u8>>,
    postings: Map<Seq<u8>, Seq<u8>>,
    entity: u64,
    writes: Seq<(u32, i32)>,
)
    requires
        partitions_mirrored(factors, postings),
    ensures
        partitions_mirrored(
            staged_factors(factors, entity, writes),
            staged_postings(postings, entity, writes),
        ),
    decreases writes.len(),
{
    if writes.len() > 0 {
        lemma_staged_mirrored(factors, postings, entity, writes.drop_last());
        lemma_write_keeps_mirrored(
            staged_factors(factors, entity, writes.drop_last()),
            staged_postings(postings, entity, writes.drop_last()),
            entity,
            writes.last().0,
            signed_decimal(writes.last().1 as int),
        );
    }
}

/// Writing node indices keeps every value of `factors` a node's text.
pub proof fn lemma_staged_nodes(factors: Map<Seq<u8>, Seq<u8>>, entity: u64, writes: Seq<(u32, i32)>)
    requires
        exponents_are_nodes(factors),
        forall|i: int| 0 <= i < writes.len() ==> 0 <= (#[trigger] writes[i]).1 <= 7,
    ensures
        exponents_are_nodes(staged_factors(factors, entity, writes)),
    decreases writes.len(),
{
    if writes.len() > 0 {
        let front = writes.drop_last();
        assert forall|i: int| 0 <= i < front.len() implies 0 <= (#[trigger] front[i]).1 <= 7 by {
            assert(front[i] == writes[i]);
        }
        lemma_staged_nodes(factors, entity, front);
        assert(0 <= writes[writes.len() - 1].1 <= 7);
        lemma_parse_exponent_text(writes.last().1);
    }
}

/// A command for a known prime whose target is the current exponent is
/// skipped, whatever the target is and whatever the flow rule says of it.
pub proof fn lemma_noop_command(
    entity: u64,
    prime: u32,
    target: u8,
    stored: Option<i32>,
    centroid: u8,
    ts: u64,
)
    requires
        spec_prime_to_node(prime) matches Some(home) && target == current_exponent_of(
            home,
            stored,
        ),
    ensures
        spec_anchor_command(entity, prime, target, stored, centroid, ts) == Ok::<
            Option<EventView>,
            LedgerError,
        >(None),
{
}

/// Whether a command is a no-op against a `factors` partition: its prime is
/// known and its target is the exponent that the entity has for it.
pub open spec fn is_noop(factors: Map<Seq<u8>, Seq<u8>>, entity: u64, command: (u32, u8)) -> bool {
    spec_prime_to_node(command.0) matches Some(home) && command.1 == current_exponent_of(
        home,
        stored_exponent(factors, entity, command.0),
    )
}

/// A no-op command leaves no trace in a batch: the run is the one of the
/// batch without it, with the same events, the same writes, the same digit
/// and the same failure.
pub proof fn lemma_noop_skipped(
    factors: Map<Seq<u8>, Seq<u8>>,
    entity: u64,
    commands: Seq<(u32, u8)>,
    k: int,
    seed: u8,
    ts: u64,
)
    requires
        0 <= k < commands.len(),
        is_noop(factors, entity, commands[k]),
    ensures
        run_batch(factors, entity, commands, seed, ts) == run_batch(
            factors,
            entity,
            commands.remove(k),
            seed,
            ts,
        ),
    decreases commands.len(),
{
    if k == commands.len() - 1 {
        assert(commands.remove(k) =~= commands.drop_last());
    } else {
        lemma_noop_skipped(factors, entity, commands.drop_last(), k, seed, ts);
        assert(commands.drop_last()[k] == commands[k]);
        assert(commands.remove(k).drop_last() =~= commands.drop_last().remove(k));
        assert(commands.remove(k).last() == commands.last());
    }
}

/// A batch of no-op commands accepts nothing, writes nothing and does not
/// fail.
pub proof fn lemma_noop_batch(
    factors: Map<Seq<u8>, Seq<u8>>,
    entity: u64,
    commands: Seq<(u32, u8)>,
    seed: u8,
    ts: u64,
)
    requires
        forall|k: int| 0 <= k < commands.len() ==> is_noop(factors, entity, #[trigger] commands[k]),
    ensures
        run_batch(factors, entity, commands, seed, ts).events.len() == 0,
        run_batch(factors, entity, commands, seed, ts).writes.len() == 0,
        run_batch(factors, entity, commands, seed, ts).failure is None,
        run_batch(factors, entity, commands, seed, ts).centroid == seed,
    decreases commands.len(),
{
    if commands.len() > 0 {
        let front = commands.drop_last();
        assert forall|k: int| 0 <= k < front.len() implies is_noop(
            factors,
            entity,
            #[trigger] front[k],
        ) by {
            assert(front[k] == commands[k]);
        }
        lemma_noop_batch(factors, entity, front, seed, ts);
        assert(is_noop(factors, entity, commands[commands.len() - 1]));
    }
}

/// A move from an even home node to an odd node goes through the centre: it
/// is accepted although the flow rule denies the direct edge, and the digit
/// of its event is the flipped one.
pub proof fn lemma_bypass_accepted(
    entity: u64,
    prime: u32,
    target: u8,
    stored: Option<i32>,
    centroid: u8,
    ts: u64,
)
    requires
        centroid <= 1,
        target <= 7,
        target % 2 == 1,
        spec_prime_to_node(prime) matches Some(home) && home % 2 == 0 && target
            != current_exponent_of(home, stored),
    ensures
        spec_anchor_command(entity, prime, target, stored, centroid, ts) matches Ok(Some(event))
            && event.via_c && event.centroid_digit == spec_flip_digit(centroid)
            && event.centroid_digit != centroid,
        !spec_transition_allowed(
            spec_node_from_u8(spec_prime_to_node(prime).unwrap()).unwrap(),
            spec_node_from_u8(target).unwrap(),
        ),
{
}

/// A command is forbidden exactly when it moves the exponent of a known
/// prime from an odd home node to an even node along an edge that is not
/// whitelisted: every other move between nodes is allowed directly or
/// absorbed by the centre.
pub proof fn lemma_forbidden_moves(
    entity: u64,
    prime: u32,
    target: u8,
    stored: Option<i32>,
    centroid: u8,
    ts: u64,
)
    ensures
        spec_anchor_command(entity, prime, target, stored, centroid, ts) is Err
            && spec_anchor_command(entity, prime, target, stored, centroid, ts)->Err_0
            is Forbidden <==> (spec_prime_to_node(prime) matches Some(home) && target <= 7
            && target != current_exponent_of(home, stored) && home % 2 == 1 && target % 2 == 0
            && !spec_allowed_direct(
            spec_node_from_u8(home).unwrap(),
            spec_node_from_u8(target).unwrap(),
        )),
{
}

/// What an accepted event certifies: its digits lie between -2 and 2 and
/// decode to the delta from the current exponent to the target; the event
/// goes through the centre exactly when the home node is even and the target
/// odd.
pub proof fn lemma_event_certifies(
    entity: u64,
    prime: u32,
    target: u8,
    stored: Option<i32>,
    centroid: u8,
    ts: u64,
)
    requires
        spec_anchor_command(entity, prime, target, stored, centroid, ts) matches Ok(Some(_)),
    ensures
        ({
            let event = spec_anchor_command(
                entity,
                prime,
                target,
                stored,
                centroid,
                ts,
            )->Ok_0->Some_0;
            let home = spec_prime_to_node(prime)->Some_0;
            &&& digits_value(event.msd_digits) == target - current_exponent_of(
                home,
                stored,
            )
            &&& digits_in_range(event.msd_digits)
            &&& is_minimal(event.msd_digits)
            &&& event.via_c == (home % 2 == 0 && target % 2 == 1)
            &&& event.entity_id == entity
            &&& event.prime == prime
            &&& event.timestamp == ts
        }),
{
    let home = spec_prime_to_node(prime)->Some_0;
    lemma_from_int(target - current_exponent_of(home, stored));
}

/// The current time in milliseconds since the epoch.
///
/// Calls `chrono::Utc::now` and `DateTime::timestamp_millis` on what it
/// returns. Nothing is claimed of the result: it is whatever the clock says.
#[verifier::external_body]
fn now_millis() -> u64 {
    Utc::now().timestamp_millis() as u64
}

/// The ledger: the two partitions of the store and the event log.
pub struct Ledger {
    factors: Partition,
    postings: Partition,
    log: Vec<LedgerEvent>,
}

impl Ledger {
    /// The `factors` partition: `"{entity}:{prime}"` to the exponent's text.
    pub closed spec fn factors(&self) -> Map<Seq<u8>, Seq<u8>> {
        self.factors@
    }

    /// The `postings` partition: `"{prime}:{entity}"` to the exponent's text.
    pub closed spec fn postings(&self) -> Map<Seq<u8>, Seq<u8>> {
        self.postings@
    }

    /// The event log, oldest first.
    pub closed spec fn log(&self) -> Seq<EventView> {
        events_view(self.log@)
    }

    /// Both partitions hold each key once.
    pub closed spec fn partitions_wf(&self) -> bool {
        self.factors.wf() && self.postings.wf()
    }

    /// The partitions are well formed and mirror each other, and every
    /// exponent in `factors` is a node index.
    pub open spec fn wf(&self) -> bool {
        &&& self.partitions_wf()
        &&& exponents_are_nodes(self.factors())
        &&& partitions_mirrored(self.factors(), self.postings())
    }

    /// What a batch with timestamp `ts` does to a ledger and returns.
    ///
    /// The events that the run accepts are appended to the log, also when a
    /// later command fails. Success returns those events, and both partitions
    /// take the run's writes; the two then agree on every prime that moved.
    /// Failure returns the run's error and leaves both partitions as they
    /// were.
    pub open spec fn batch_post(
        pre: &Ledger,
        post: &Ledger,
        entity: u64,
        commands: Seq<(u32, u8)>,
        ts: u64,
        result: Result<Vec<LedgerEvent>, LedgerError>,
    ) -> bool {
        let run = run_batch(pre.factors(), entity, commands, spec_centroid_now(ts), ts);
        &&& post.log() == pre.log() + run.events
        &&& match result {
            Ok(events) => {
                &&& run.failure is None
                &&& events_view(events@) == run.events
                &&& post.factors() == staged_factors(pre.factors(), entity, run.writes)
                &&& post.postings() == staged_postings(pre.postings(), entity, run.writes)
                &&& forall|i: int|
                    0 <= i < run.events.len() ==> {
                        let prime = (#[trigger] run.events[i]).prime;
                        &&& post.factors().contains_key(spec_factors_key(entity, prime))
                        &&& post.postings().contains_key(spec_postings_key(prime, entity))
                        &&& post.factors()[spec_factors_key(entity, prime)]
                            == post.postings()[spec_postings_key(prime, entity)]
                    }
            },
            Err(e) => {
                &&& run.failure == Some(e)
                &&& post.factors() == pre.factors()
                &&& post.postings() == pre.postings()
            },
        }
    }

    /// A batch of no-op commands changes nothing: it succeeds without an
    /// event, and the partitions and the log stay as they were.
    pub proof fn lemma_noop_batch_changes_nothing(
        pre: &Ledger,
        post: &Ledger,
        entity: u64,
        commands: Seq<(u32, u8)>,
        ts: u64,
        result: Result<Vec<LedgerEvent>, LedgerError>,
    )
        requires
            Ledger::batch_post(pre, post, entity, commands, ts, result),
            forall|k: int|
                0 <= k < commands.len() ==> is_noop(pre.factors(), entity, #[trigger] commands[k]),
        ensures
            result matches Ok(events) && events@.len() == 0,
            post.factors() == pre.factors(),
            post.postings() == pre.postings(),
            post.log() == pre.log(),
    {
        lemma_noop_batch(pre.factors(), entity, commands, spec_centroid_now(ts), ts);
        let run = run_batch(pre.factors(), entity, commands, spec_centroid_now(ts), ts);
        assert(run.events =~= Seq::<EventView>::empty());
        assert(run.writes =~= Seq::<(u32, i32)>::empty());
        assert(pre.log() + run.events =~= pre.log());
        match result {
            Ok(events) => {
                assert(events_view(events@).len() == events@.len());
            },
            Err(_) => {},
        }
    }

    /// A ledger with an empty store and an empty log.
    pub fn new() -> (ledger: Ledger)
        ensures
            ledger.wf(),
            ledger.factors() == Map::<Seq<u8>, Seq<u8>>::empty(),
            ledger.postings() == Map::<Seq<u8>, Seq<u8>>::empty(),
            ledger.log() == Seq::<EventView>::empty(),
    {
        let ledger = Ledger { factors: Partition::new(), postings: Partition::new(), log: Vec::new() };
        proof {
            assert(ledger.log() =~= Seq::<EventView>::empty());
        }
        ledger
    }

    /// The exponent stored for an entity and a prime; `None` when the store
    /// holds none.
    pub fn current_exponent(&self, entity: u64, prime: u32) -> (exponent: Option<i32>)
        requires
            self.wf(),
        ensures
            exponent == stored_exponent(self.factors(), entity, prime),
            exponent is Some <==> self.factors().contains_key(spec_factors_key(entity, prime)),
            exponent matches Some(c) ==> 0 <= c <= 7,
    {
        let key = factors_key(entity, prime);
        match self.factors.get(key.as_slice()) {
            Some(v) => parse_exponent(v.as_slice()),
            None => None,
        }
    }

    /// The value under a key of the `factors` partition.
    pub fn factor(&self, key: &[u8]) -> (value: Option<&Vec<u8>>)
        requires
            self.wf(),
        ensures
            match value {
                Some(v) => self.factors().contains_key(key@) && self.factors()[key@] == v@,
                None => !self.factors().contains_key(key@),
            },
    {
        self.factors.get(key)
    }

    /// The value under a key of the `postings` partition.
    pub fn posting(&self, key: &[u8]) -> (value: Option<&Vec<u8>>)
        requires
            self.wf(),
        ensures
            match value {
                Some(v) => self.postings().contains_key(key@) && self.postings()[key@] == v@,
                None => !self.postings().contains_key(key@),
            },
    {
        self.postings.get(key)
    }

    /// The event log, oldest first.
    pub fn log_entries(&self) -> (entries: &Vec<LedgerEvent>)
        ensures
            events_view(entries@) == self.log(),
    {
        &self.log
    }

    /// Processes a batch of `(prime, target_node)` commands for an entity,
    /// with `ts` as the batch's timestamp in milliseconds.
    ///
    /// The centroid digit starts as the parity of `ts`. Each command reads
    /// the entity's exponent as it was before the batch, is decided by
    /// `anchor_command`, and, if accepted, is logged at once. The store is
    /// written only after the last command, and not at all if one fails.
    pub fn anchor_batch_at(&mut self, entity: u64, commands: &[(u32, u8)], ts: u64) -> (result:
        Result<Vec<LedgerEvent>, LedgerError>)
        requires
            old(self).wf(),
        ensures
            final(self).wf(),
            Ledger::batch_post(old(self), final(self), entity, commands@, ts, result),
    {
        let ghost factors0 = self.factors();
        let ghost postings0 = self.postings();
        let ghost log0 = self.log();
        let ghost seed = spec_centroid_now(ts);
        let mut base_centroid = centroid_now(ts);
        let mut events: Vec<LedgerEvent> = Vec::with_capacity(commands.len());
        let mut staged: Vec<(u32, i32)> = Vec::new();
        let mut i: usize = 0;
        proof {
            assert(commands@.take(0) =~= Seq::<(u32, u8)>::empty());
            assert(events_view(events@) =~= Seq::<EventView>::empty());
            assert(self.log() =~= log0 + events_view(events@));
        }
        while i < commands.len()
            invariant
                i <= commands@.len(),
                self.wf(),
                factors0 == old(self).factors(),
                postings0 == old(self).postings(),
                log0 == old(self).log(),
                self.factors() == factors0,
                self.postings() == postings0,
                self.log() == log0 + events_view(events@),
                base_centroid <= 1,
                seed == spec_centroid_now(ts),
                run_batch(factors0, entity, commands@.take(i as int), seed, ts).failure is None,
                run_batch(factors0, entity, commands@.take(i as int), seed, ts).events
                    == events_view(events@),
                run_batch(factors0, entity, commands@.take(i as int), seed, ts).writes == staged@,
                run_batch(factors0, entity, commands@.take(i as int), seed, ts).centroid
                    == base_centroid,
                forall|j: int| 0 <= j < staged@.len() ==> 0 <= (#[trigger] staged@[j]).1 <= 7,
            decreases commands@.len() - i,
        {
            let prime = commands[i].0;
            let target_node = commands[i].1;
            let ghost before = run_batch(factors0, entity, commands@.take(i as int), seed, ts);
            let ghost next = run_batch(factors0, entity, commands@.take(i + 1), seed, ts);
            let ghost old_events = events@;
            let ghost old_log = self.log@;
            proof {
                assert(commands@.take(i + 1).drop_last() =~= commands@.take(i as int));
                assert(commands@.take(i + 1).last() == commands@[i as int]);
            }
            let stored = self.current_exponent(entity, prime);
            match anchor_command(entity, prime, target_node, stored, base_centroid, ts) {
                Err(e) => {
                    proof {
                        assert(next.failure == Some(e));
                        assert(next.events == before.events);
                        lemma_failure_stops(factors0, entity, commands@, i + 1, seed, ts);
                    }
                    return Err(e);
                },
                Ok(None) => {
                    proof {
                        assert(next == before);
                    }
                },
                Ok(Some(anchored)) => {
                    base_centroid = anchored.event.centroid_digit;
                    self.log.push(anchored.event.clone());
                    staged.push((prime, anchored.exponent));
                    events.push(anchored.event);
                    proof {
                        assert(events_view(events@) =~= events_view(old_events).push(
                            anchored.event@,
                        ));
                        assert(events_view(self.log@) =~= events_view(old_log).push(
                            anchored.event@,
                        ));
                        assert(self.log() =~= log0 + events_view(events@));
                        assert(next.events == before.events.push(anchored.event@));
                    }
                },
            }
            i += 1;
        }
        proof {
            assert(commands@.take(i as int) =~= commands@);
        }
        let ghost run = run_batch(factors0, entity, commands@, seed, ts);
        let mut j: usize = 0;
        proof {
            assert(staged@.take(0) =~= Seq::<(u32, i32)>::empty());
        }
        while j < staged.len()
            invariant
                j <= staged@.len(),
                self.partitions_wf(),
                self.log() == log0 + events_view(events@),
                self.factors() == staged_factors(factors0, entity, staged@.take(j as int)),
                self.postings() == staged_postings(postings0, entity, staged@.take(j as int)),
            decreases staged@.len() - j,
        {
            let prime = staged[j].0;
            let exponent = staged[j].1;
            proof {
                assert(staged@.take(j + 1).drop_last() =~= staged@.take(j as int));
                assert(staged@.take(j + 1).last() == staged@[j as int]);
            }
            self.factors.put(factors_key(entity, prime), exponent_text(exponent));
            self.postings.put(postings_key(prime, entity), exponent_text(exponent));
            j += 1;
        }
        proof {
            assert(staged@.take(j as int) =~= staged@);
            lemma_staged_nodes(factors0, entity, staged@);
            lemma_staged_mirrored(factors0, postings0, entity, staged@);
            lemma_run_shape(factors0, entity, commands@, seed, ts);
            assert forall|k: int| 0 <= k < run.events.len() implies {
                let prime = (#[trigger] run.events[k]).prime;
                &&& self.factors().contains_key(spec_factors_key(entity, prime))
                &&& self.postings().contains_key(spec_postings_key(prime, entity))
                &&& self.factors()[spec_factors_key(entity, prime)]
                    == self.postings()[spec_postings_key(prime, entity)]
            } by {
                lemma_partitions_mirrored(factors0, postings0, entity, staged@, k);
            }
        }
        Ok(events)
    }

    /// Processes a batch with the current time as its timestamp.
    ///
    /// The ledger ends as `anchor_batch_at` leaves it for some timestamp: the
    /// one that the clock gave.
    pub fn anchor_batch(&mut self, entity: u64, commands: &[(u32, u8)]) -> (result: Result<
        Vec<LedgerEvent>,
        LedgerError,
    >)
        requires
            old(self).wf(),
        ensures
            final(self).wf(),
            exists|ts: u64|
                Ledger::batch_post(old(self), final(self), entity, commands@, ts, result),
    {
        let ts = now_millis();
        self.anchor_batch_at(entity, commands, ts)
    }
}

} // verus!
