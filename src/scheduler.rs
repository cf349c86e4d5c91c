//! Priority accumulation and the bandwidth-budgeted plan of what one tick
//! sends. Costs are in bits of payload.
use vstd::prelude::*;

verus! {

/// The scheduler keeps going while more than this much budget is left.
pub const MIN_USEFUL_PACKET_BITS: usize = 80;

/// The most payload one state or sync packet carries.
pub const MAX_PAYLOAD_BITS: usize = 4800;

/// The cost of one acknowledgement record.
pub const ACK_RECORD_BITS: usize = 80;

/// The cost of the send-time stamp that opens a state or sync packet.
pub const STATE_HEADER_BITS: usize = 64;

/// The cost of the identity-assignment packet.
pub const IDENTITY_BITS: usize = 64;

/// A synchronized entity as the scheduler sees it.
#[derive(Clone, Copy, Debug, PartialEq, Eq, Structural)]
pub struct Entity {
    /// The entity's network id.
    pub id: u16,
    /// The peer that owns it.
    pub owner: u16,
    /// Its accumulated priority; zero right after it was sent.
    pub priority: i64,
    /// The size of its current encoding, in bits.
    pub cost: usize,
}

/// Whether an entity is due for a state update to `recipient`.
pub open spec fn eligible(e: Entity, recipient: u16) -> bool {
    e.priority != 0 && e.owner != recipient
}

/// Entity `i` goes before entity `j`: a higher priority, or the same
/// priority and registered earlier.
pub open spec fn goes_before(ents: Seq<Entity>, i: int, j: int) -> bool {
    ents[i].priority > ents[j].priority || (ents[i].priority == ents[j].priority && i < j)
}

/// Adds each entity's increment to its priority, saturating.
pub fn accumulate(entities: &mut Vec<Entity>, increments: &Vec<i64>)
    requires
        old(entities)@.len() == increments@.len(),
    ensures
        final(entities)@.len() == old(entities)@.len(),
        forall|i: int|
            0 <= i < old(entities)@.len() ==> #[trigger] final(entities)@[i] == (Entity {
                priority: if old(entities)@[i].priority + increments@[i] > i64::MAX {
                    i64::MAX
                } else if old(entities)@[i].priority + increments@[i] < i64::MIN {
                    i64::MIN
                } else {
                    (old(entities)@[i].priority + increments@[i]) as i64
                },
                ..old(entities)@[i]
            }),
{
    let mut i: usize = 0;
    while i < entities.len()
        invariant
            entities@.len() == old(entities)@.len() == increments@.len(),
            i <= entities@.len(),
            forall|k: int| i <= k < entities@.len() ==> entities@[k] == old(entities)@[k],
            forall|k: int|
                0 <= k < i ==> #[trigger] entities@[k] == (Entity {
                    priority: if old(entities)@[k].priority + increments@[k] > i64::MAX {
                        i64::MAX
                    } else if old(entities)@[k].priority + increments@[k] < i64::MIN {
                        i64::MIN
                    } else {
                        (old(entities)@[k].priority + increments@[k]) as i64
                    },
                    ..old(entities)@[k]
                }),
        decreases entities@.len() - i,
    {
        let mut e = entities[i];
        let sum: i128 = e.priority as i128 + increments[i] as i128;
        e.priority = if sum > i64::MAX as i128 {
            i64::MAX
        } else if sum < i64::MIN as i128 {
            i64::MIN
        } else {
            sum as i64
        };
        entities.set(i, e);
        i = i + 1;
    }
}

/// The entity due next: the eligible one with the highest priority, the
/// earliest registered among equals; `None` when none is eligible.
pub fn select_next(entities: &Vec<Entity>, recipient: u16) -> (r: Option<usize>)
    ensures
        match r {
            Some(i) => i < entities@.len() && eligible(entities@[i as int], recipient) && forall|
                j: int,
            |
                0 <= j < entities@.len() && j != i && eligible(#[trigger] entities@[j], recipient)
                    ==> goes_before(entities@, i as int, j),
            None => forall|j: int|
                0 <= j < entities@.len() ==> !eligible(#[trigger] entities@[j], recipient),
        },
{
    let mut best: Option<usize> = None;
    let mut i: usize = 0;
    while i < entities.len()
        invariant
            i <= entities@.len(),
            match best {
                Some(b) => b < i && eligible(entities@[b as int], recipient) && forall|j: int|
                    0 <= j < i && j != b && eligible(#[trigger] entities@[j], recipient)
                        ==> goes_before(entities@, b as int, j),
                None => forall|j: int|
                    0 <= j < i ==> !eligible(#[trigger] entities@[j], recipient),
            },
        decreases entities@.len() - i,
    {
        let e = entities[i];
        if e.priority != 0 && e.owner != recipient {
            match best {
                Some(b) => {
                    if e.priority > entities[b].priority {
                        best = Some(i);
                    }
                },
                None => {
                    best = Some(i);
                },
            }
        }
        i = i + 1;
    }
    best
}

/// The number of entities due for an update to `recipient`.
pub open spec fn count_eligible(ents: Seq<Entity>, recipient: u16) -> nat
    decreases ents.len(),
{
    if ents.len() == 0 {
        0
    } else {
        count_eligible(ents.drop_last(), recipient) + if eligible(ents.last(), recipient) {
            1nat
        } else {
            0nat
        }
    }
}

proof fn lemma_count_after_reset(ents: Seq<Entity>, recipient: u16, m: int)
    requires
        0 <= m < ents.len(),
        eligible(ents[m], recipient),
    ensures
        count_eligible(ents.update(m, Entity { priority: 0, ..ents[m] }), recipient) + 1
            == count_eligible(ents, recipient),
    decreases ents.len(),
{
    let u = ents.update(m, Entity { priority: 0, ..ents[m] });
    if m == ents.len() - 1 {
        assert(u.drop_last() =~= ents.drop_last());
    } else {
        lemma_count_after_reset(ents.drop_last(), recipient, m);
        assert(u.drop_last() =~= ents.drop_last().update(m, Entity { priority: 0, ..ents[m] }));
    }
}

/// The summed cost of the listed entities.
pub open spec fn cost_of(ents: Seq<Entity>, list: Seq<usize>) -> nat
    decreases list.len(),
{
    if list.len() == 0 {
        0
    } else {
        cost_of(ents, list.drop_last()) + ents[list.last() as int].cost as nat
    }
}

/// An entity's state after the state packet `list` was filled: reset to
/// zero priority if it went in, unchanged if not.
pub open spec fn after_fill(e: Entity, i: int, list: Seq<usize>) -> Entity {
    if list.contains(i as usize) {
        Entity { priority: 0, ..e }
    } else {
        e
    }
}

/// Fills one state packet for `recipient`: due entities in priority order
/// (earlier registration first among equals), stopping at the first whose
/// encoding would take the packet past `limit`. Each included entity's
/// priority is reset to zero. Returns the included indices and the
/// packet's cost, send-time stamp included.
pub fn fill_state_packet(entities: &mut Vec<Entity>, recipient: u16, limit: usize) -> (r: (
    Vec<usize>,
    usize,
))
    ensures
        final(entities)@.len() == old(entities)@.len(),
        forall|i: int|
            0 <= i < old(entities)@.len() ==> #[trigger] final(entities)@[i] == after_fill(
                old(entities)@[i],
                i,
                r.0@,
            ),
        forall|a: int|
            0 <= a < r.0@.len() ==> #[trigger] r.0@[a] < old(entities)@.len() && eligible(
                old(entities)@[r.0@[a] as int],
                recipient,
            ),
        forall|a: int, b: int|
            0 <= a < b < r.0@.len() ==> goes_before(
                old(entities)@,
                #[trigger] r.0@[a] as int,
                #[trigger] r.0@[b] as int,
            ),
        forall|a: int, j: int|
            0 <= a < r.0@.len() && 0 <= j < final(entities)@.len() && eligible(
                #[trigger] final(entities)@[j],
                recipient,
            ) ==> goes_before(old(entities)@, #[trigger] r.0@[a] as int, j),
        r.1 == STATE_HEADER_BITS + cost_of(old(entities)@, r.0@),
        r.0@.len() > 0 ==> r.1 <= limit,
        forall|m: int|
            0 <= m < final(entities)@.len() && eligible(#[trigger] final(entities)@[m], recipient)
                && (forall|j: int|
                0 <= j < final(entities)@.len() && j != m && eligible(
                    #[trigger] final(entities)@[j],
                    recipient,
                ) ==> goes_before(final(entities)@, m, j)) ==> r.1 + final(entities)@[m].cost
                > limit,
{
    let ghost pre = entities@;
    let n = entities.len();
    let mut inc: Vec<usize> = Vec::new();
    let mut cost: usize = STATE_HEADER_BITS;
    loop
        invariant
            entities@.len() == pre.len() == n,
            forall|i: int| 0 <= i < pre.len() ==> #[trigger] entities@[i] == after_fill(
                pre[i],
                i,
                inc@,
            ),
            forall|a: int|
                0 <= a < inc@.len() ==> #[trigger] inc@[a] < pre.len() && eligible(
                    pre[inc@[a] as int],
                    recipient,
                ),
            forall|a: int, b: int|
                0 <= a < b < inc@.len() ==> goes_before(
                    pre,
                    #[trigger] inc@[a] as int,
                    #[trigger] inc@[b] as int,
                ),
            forall|a: int, j: int|
                0 <= a < inc@.len() && 0 <= j < entities@.len() && eligible(
                    #[trigger] entities@[j],
                    recipient,
                ) ==> goes_before(pre, #[trigger] inc@[a] as int, j),
            cost == STATE_HEADER_BITS + cost_of(pre, inc@),
            inc@.len() > 0 ==> cost <= limit,
        ensures
            forall|m: int|
                0 <= m < entities@.len() && eligible(#[trigger] entities@[m], recipient) && (forall|
                    j: int,
                |
                    0 <= j < entities@.len() && j != m && eligible(
                        #[trigger] entities@[j],
                        recipient,
                    ) ==> goes_before(entities@, m, j)) ==> cost + entities@[m].cost > limit,
        decreases count_eligible(entities@, recipient),
    {
        match select_next(entities, recipient) {
            None => {
                break ;
            },
            Some(m) => {
                let c = entities[m].cost;
                if cost > limit || c > limit - cost {
                    assert forall|k: int|
                        0 <= k < entities@.len() && eligible(#[trigger] entities@[k], recipient)
                            && (forall|j: int|
                            0 <= j < entities@.len() && j != k && eligible(
                                #[trigger] entities@[j],
                                recipient,
                            ) ==> goes_before(entities@, k, j)) implies cost + entities@[k].cost
                        > limit by {
                        if k != m {
                            assert(goes_before(entities@, m as int, k));
                            assert(goes_before(entities@, k, m as int));
                        }
                    }
                    break ;
                }
                let ghost cur = entities@;
                let ghost old_inc = inc@;
                assert(!inc@.contains(m)) by {
                    if inc@.contains(m) {
                        let a = choose|a: int| 0 <= a < inc@.len() && inc@[a] == m;
                        assert(entities@[m as int] == after_fill(pre[m as int], m as int, inc@));
                    }
                }
                cost = cost + c;
                inc.push(m);
                let mut e = entities[m];
                e.priority = 0;
                entities.set(m, e);
                proof {
                    assert(inc@.drop_last() =~= old_inc);
                    lemma_count_after_reset(cur, recipient, m as int);
                    assert(entities@ == cur.update(m as int, Entity { priority: 0, ..cur[m as int] }));
                    assert forall|i: int| 0 <= i < pre.len() implies #[trigger] entities@[i]
                        == after_fill(pre[i], i, inc@) by {
                        assert(cur[i] == after_fill(pre[i], i, old_inc));
                        let x = i as usize;
                        if i == m {
                            assert(inc@[inc@.len() - 1] == x);
                        } else {
                            assert(inc@.contains(x) == old_inc.contains(x)) by {
                                if inc@.contains(x) {
                                    let a = choose|a: int| 0 <= a < inc@.len() && inc@[a] == x;
                                    assert(old_inc[a] == x);
                                }
                                if old_inc.contains(x) {
                                    let a = choose|a: int| 0 <= a < old_inc.len() && old_inc[a] == x;
                                    assert(inc@[a] == x);
                                }
                            }
                        }
                    }
                    assert forall|a: int, b: int| 0 <= a < b < inc@.len() implies goes_before(
                        pre,
                        #[trigger] inc@[a] as int,
                        #[trigger] inc@[b] as int,
                    ) by {
                        if b == inc@.len() - 1 {
                            assert(eligible(cur[m as int], recipient));
                            assert(goes_before(pre, old_inc[a] as int, m as int));
                        }
                    }
                    assert forall|a: int, j: int|
                        0 <= a < inc@.len() && 0 <= j < entities@.len() && eligible(
                            #[trigger] entities@[j],
                            recipient,
                        ) implies goes_before(pre, #[trigger] inc@[a] as int, j) by {
                        assert(j != m);
                        assert(entities@[j] == cur[j]);
                        assert(cur[j] == pre[j]);
                        if a == inc@.len() - 1 {
                            assert(goes_before(cur, m as int, j));
                            assert(cur[m as int] == pre[m as int]);
                        } else {
                            assert(inc@[a] == old_inc[a]);
                        }
                    }
                }
            },
        }
    }
    (inc, cost)
}

/// What a planned packet carries.
#[derive(Clone, Debug, PartialEq, Eq)]
pub enum Planned {
    /// The recipient's identity.
    Identity,
    /// This many of the pending acknowledgements, oldest first.
    Acks(usize),
    /// The message of this index in the backlog.
    Message(usize),
    /// The full state of entities `start..end`, for the initial sync.
    Sync(usize, usize),
    /// The state of these entities, in this order.
    State(Vec<usize>),
}

/// One packet of a tick's plan, with its cost in bits.
#[derive(Clone, Debug, PartialEq, Eq)]
pub struct PlannedPacket {
    pub kind: Planned,
    pub cost: usize,
}

/// The summed cost of planned packets.
pub open spec fn total_cost(s: Seq<PlannedPacket>) -> nat
    decreases s.len(),
{
    if s.len() == 0 {
        0
    } else {
        total_cost(s.drop_last()) + s.last().cost as nat
    }
}

/// A plan spent from a budget of `start`: no packet cost more than what was
/// left when it was planned, and `remaining` is what is left at the end.
pub open spec fn within_budget(s: Seq<PlannedPacket>, start: nat, remaining: nat) -> bool {
    &&& remaining + total_cost(s) == start
    &&& forall|k: int|
        0 <= k < s.len() ==> #[trigger] s[k].cost + total_cost(s.subrange(0, k)) <= start
}

/// The budget after one tick's allowance is added, saturating.
pub open spec fn replenished(remaining: usize, allowance: usize) -> nat {
    if remaining + allowance > usize::MAX {
        usize::MAX as nat
    } else {
        (remaining + allowance) as nat
    }
}

/// The entities listed in the plan's state packets, in plan order.
pub open spec fn state_indices(plan: Seq<PlannedPacket>) -> Seq<usize>
    decreases plan.len(),
{
    if plan.len() == 0 {
        Seq::empty()
    } else {
        state_indices(plan.drop_last()) + match plan.last().kind {
            Planned::State(list) => list@,
            _ => Seq::empty(),
        }
    }
}

/// The backlog messages the plan sends, in plan order.
pub open spec fn message_indices(plan: Seq<PlannedPacket>) -> Seq<usize>
    decreases plan.len(),
{
    if plan.len() == 0 {
        Seq::empty()
    } else {
        message_indices(plan.drop_last()) + match plan.last().kind {
            Planned::Message(i) => seq![i],
            _ => Seq::empty(),
        }
    }
}

/// The entities the plan's initial-sync packets carry, in plan order.
pub open spec fn sync_indices(plan: Seq<PlannedPacket>) -> Seq<usize>
    decreases plan.len(),
{
    if plan.len() == 0 {
        Seq::empty()
    } else {
        sync_indices(plan.drop_last()) + match plan.last().kind {
            Planned::Sync(a, b) => index_range(a, b),
            _ => Seq::empty(),
        }
    }
}

/// The numbers `a`, `a + 1`, ..., up to but not including `b`.
pub open spec fn index_range(a: usize, b: usize) -> Seq<usize> {
    Seq::new((b - a) as nat, |i: int| (a + i) as usize)
}

/// The live-state selection of a tick, from entities `ents0` to `ents`,
/// listing `si`: every listed entity was due, the list runs in priority
/// order (earlier registration first among equals), every listed entity
/// goes before every entity still due, and exactly the listed entities had
/// their priority reset to zero.
pub open spec fn selected_in_order(
    ents0: Seq<Entity>,
    ents: Seq<Entity>,
    si: Seq<usize>,
    recipient: u16,
) -> bool {
    &&& ents.len() == ents0.len()
    &&& forall|i: int|
        0 <= i < ents0.len() ==> #[trigger] ents[i] == if si.contains(i as usize) {
            Entity { priority: 0, ..ents0[i] }
        } else {
            ents0[i]
        }
    &&& forall|a: int|
        0 <= a < si.len() ==> #[trigger] si[a] < ents0.len() && eligible(
            ents0[si[a] as int],
            recipient,
        )
    &&& forall|a: int, b: int|
        0 <= a < b < si.len() ==> goes_before(ents0, #[trigger] si[a] as int, #[trigger] si[b] as int)
    &&& forall|a: int, j: int|
        0 <= a < si.len() && 0 <= j < ents.len() && eligible(#[trigger] ents[j], recipient)
            ==> goes_before(ents0, #[trigger] si[a] as int, j)
}

proof fn lemma_contains_concat(a: Seq<usize>, b: Seq<usize>, x: usize)
    ensures
        (a + b).contains(x) == (a.contains(x) || b.contains(x)),
{
    if (a + b).contains(x) {
        let k = choose|k: int| 0 <= k < (a + b).len() && (a + b)[k] == x;
        if k >= a.len() {
            assert(b[k - a.len()] == x);
        }
    }
    if a.contains(x) {
        let k = choose|k: int| 0 <= k < a.len() && a[k] == x;
        assert((a + b)[k] == x);
    }
    if b.contains(x) {
        let k = choose|k: int| 0 <= k < b.len() && b[k] == x;
        assert((a + b)[a.len() + k] == x);
    }
}

/// One more state packet, filled from `cur` into `post`, keeps the
/// selection in order.
proof fn lemma_state_step(
    ents0: Seq<Entity>,
    cur: Seq<Entity>,
    post: Seq<Entity>,
    si: Seq<usize>,
    inc: Seq<usize>,
    recipient: u16,
)
    requires
        ents0.len() <= usize::MAX,
        selected_in_order(ents0, cur, si, recipient),
        post.len() == cur.len(),
        forall|i: int| 0 <= i < cur.len() ==> #[trigger] post[i] == after_fill(cur[i], i, inc),
        forall|a: int|
            0 <= a < inc.len() ==> #[trigger] inc[a] < cur.len() && eligible(
                cur[inc[a] as int],
                recipient,
            ),
        forall|a: int, b: int|
            0 <= a < b < inc.len() ==> goes_before(cur, #[trigger] inc[a] as int, #[trigger] inc[b] as int),
        forall|a: int, j: int|
            0 <= a < inc.len() && 0 <= j < post.len() && eligible(#[trigger] post[j], recipient)
                ==> goes_before(cur, #[trigger] inc[a] as int, j),
    ensures
        selected_in_order(ents0, post, si + inc, recipient),
{
    let s2 = si + inc;
    assert forall|i: int| 0 <= i < ents0.len() implies #[trigger] post[i] == if s2.contains(
        i as usize,
    ) {
        Entity { priority: 0, ..ents0[i] }
    } else {
        ents0[i]
    } by {
        lemma_contains_concat(si, inc, i as usize);
        assert(post[i] == after_fill(cur[i], i, inc));
    }
    assert forall|a: int| 0 <= a < s2.len() implies #[trigger] s2[a] < ents0.len() && eligible(
        ents0[s2[a] as int],
        recipient,
    ) by {
        if a >= si.len() {
            let x = inc[a - si.len()];
            assert(eligible(cur[x as int], recipient));
            if si.contains(x) {
                assert(cur[x as int].priority == 0);
            }
        }
    }
    assert forall|a: int, b: int| 0 <= a < b < s2.len() implies goes_before(
        ents0,
        #[trigger] s2[a] as int,
        #[trigger] s2[b] as int,
    ) by {
        if b >= si.len() {
            let y = inc[b - si.len()];
            assert(eligible(cur[y as int], recipient));
            if a < si.len() {
            } else {
                let x = inc[a - si.len()];
                assert(goes_before(cur, x as int, y as int));
                assert(eligible(cur[x as int], recipient));
                if si.contains(x) {
                    assert(cur[x as int].priority == 0);
                }
                if si.contains(y) {
                    assert(cur[y as int].priority == 0);
                }
            }
        }
    }
    assert forall|a: int, j: int|
        0 <= a < s2.len() && 0 <= j < post.len() && eligible(#[trigger] post[j], recipient)
            implies goes_before(ents0, #[trigger] s2[a] as int, j) by {
        assert(post[j] == after_fill(cur[j], j, inc));
        if inc.contains(j as usize) {
            assert(post[j].priority == 0);
        }
        assert(post[j] == cur[j]);
        if a >= si.len() {
            let x = inc[a - si.len()];
            assert(goes_before(cur, x as int, j));
            assert(eligible(cur[x as int], recipient));
            if si.contains(x) {
                assert(cur[x as int].priority == 0);
            }
            if si.contains(j as usize) {
                assert(cur[j].priority == 0);
            }
        }
    }
}

fn emit(plan: &mut Vec<PlannedPacket>, remaining: &mut usize, kind: Planned, cost: usize, start: Ghost<nat>)
    requires
        within_budget(old(plan)@, start@, *old(remaining) as nat),
        cost <= *old(remaining),
    ensures
        final(plan)@ == old(plan)@.push(PlannedPacket { kind, cost }),
        *final(remaining) == *old(remaining) - cost,
        within_budget(final(plan)@, start@, *final(remaining) as nat),
        state_indices(final(plan)@) == state_indices(old(plan)@) + match kind {
            Planned::State(list) => list@,
            _ => Seq::empty(),
        },
        message_indices(final(plan)@) == message_indices(old(plan)@) + match kind {
            Planned::Message(i) => seq![i],
            _ => Seq::empty(),
        },
        sync_indices(final(plan)@) == sync_indices(old(plan)@) + match kind {
            Planned::Sync(a, b) => index_range(a, b),
            _ => Seq::empty(),
        },
{
    let ghost before = plan@;
    plan.push(PlannedPacket { kind, cost });
    *remaining = *remaining - cost;
    assert(plan@.drop_last() =~= before);
    assert forall|k: int| 0 <= k < plan@.len() implies #[trigger] plan@[k].cost + total_cost(
        plan@.subrange(0, k),
    ) <= start@ by {
        if k < before.len() {
            assert(plan@.subrange(0, k) =~= before.subrange(0, k));
        } else {
            assert(plan@.subrange(0, k) =~= before);
        }
    }
}

/// The most one state or sync packet may cost with `remaining` left.
pub open spec fn packet_limit(remaining: usize) -> int {
    if remaining < MAX_PAYLOAD_BITS {
        remaining as int
    } else {
        MAX_PAYLOAD_BITS as int
    }
}

/// Entity `m` is due and goes before every other due entity.
pub open spec fn is_next_due(ents: Seq<Entity>, recipient: u16, m: int) -> bool {
    &&& 0 <= m < ents.len()
    &&& eligible(ents[m], recipient)
    &&& forall|j: int|
        0 <= j < ents.len() && j != m && eligible(#[trigger] ents[j], recipient) ==> goes_before(
            ents,
            m,
            j,
        )
}

/// Why a tick's plan may end: the budget is down to a minimum useful
/// packet; or the pass sent the identity; or only acks were wanted; or the
/// next message does not fit; or, during the initial sync, the next entity
/// does not fit in an empty packet; or, after it, with every message sent,
/// the next due entity (if any) does not.
pub open spec fn tick_done(
    s: Scheduler,
    identity_pass: bool,
    acks_only: bool,
    costs: Seq<usize>,
    ents: Seq<Entity>,
    recipient: u16,
) -> bool {
    ||| s.remaining <= MIN_USEFUL_PACKET_BITS
    ||| identity_pass
    ||| acks_only
    ||| (s.message_cursor < costs.len() && costs[s.message_cursor as int] > s.remaining)
    ||| (!s.sync_finished && s.sync_cursor < ents.len() && STATE_HEADER_BITS + ents[s.sync_cursor as int].cost
        > packet_limit(s.remaining))
    ||| (s.sync_finished && s.message_cursor >= costs.len() && forall|m: int|
        is_next_due(ents, recipient, m) ==> STATE_HEADER_BITS + #[trigger] ents[m].cost
            > packet_limit(s.remaining))
}

/// How many acks the first pass of a tick takes: all that are owed, or as
/// many as the budget holds.
pub open spec fn first_acks(pending: usize, budget: nat) -> usize {
    if pending < budget / 80 {
        pending
    } else {
        (budget / 80) as usize
    }
}

/// The scheduler state kept for one recipient between ticks.
pub struct Scheduler {
    /// Budget left, in bits.
    pub remaining: usize,
    /// Whether the recipient's identity has been sent.
    pub identity_sent: bool,
    /// The next entity the initial sync sends.
    pub sync_cursor: usize,
    /// Whether the initial sync is over.
    pub sync_finished: bool,
    /// The next message of the backlog to send.
    pub message_cursor: usize,
}

impl Scheduler {
    /// The scheduler of a server for a newly joined client: identity not
    /// yet sent, initial sync ahead.
    pub fn for_client() -> (r: Scheduler)
        ensures
            r == (Scheduler {
                remaining: 0,
                identity_sent: false,
                sync_cursor: 0,
                sync_finished: false,
                message_cursor: 0,
            }),
    {
        Scheduler {
            remaining: 0,
            identity_sent: false,
            sync_cursor: 0,
            sync_finished: false,
            message_cursor: 0,
        }
    }

    /// The scheduler of a client for its server: no identity to send and no
    /// initial sync.
    pub fn for_server() -> (r: Scheduler)
        ensures
            r == (Scheduler {
                remaining: 0,
                identity_sent: true,
                sync_cursor: 0,
                sync_finished: true,
                message_cursor: 0,
            }),
    {
        Scheduler {
            remaining: 0,
            identity_sent: true,
            sync_cursor: 0,
            sync_finished: true,
            message_cursor: 0,
        }
    }

    /// Plans one tick. The budget grows by `allowance` (saturating); then,
    /// while more than a minimum useful packet is left, each pass sends:
    /// the identity if it is still owed (and ends the tick); as many
    /// pending acks as fit, in one packet; the message backlog, one packet
    /// each (a message that does not fit ends the tick); during the initial
    /// sync, as many not yet synced entities as fit; after it, a state
    /// packet filled by priority. A pass that sends no sync or state packet
    /// ends the tick. With `acks_only`, a pass sends acks alone.
    ///
    /// No packet costs more than the budget left when it is planned, the
    /// budget never goes below zero, and no state packet is empty.
    #[verifier::rlimit(80)]
    pub fn plan_tick(
        &mut self,
        allowance: usize,
        pending_acks: usize,
        message_costs: &Vec<usize>,
        entities: &mut Vec<Entity>,
        recipient: u16,
        acks_only: bool,
    ) -> (plan: Vec<PlannedPacket>)
        ensures
            within_budget(
                plan@,
                replenished(old(self).remaining, allowance),
                final(self).remaining as nat,
            ),
            forall|k: int|
                0 <= k < plan@.len() ==> match #[trigger] plan@[k].kind {
                    Planned::State(list) => list@.len() >= 1 && plan@[k].cost
                        <= MAX_PAYLOAD_BITS,
                    Planned::Sync(a, b) => a < b <= old(entities)@.len() && plan@[k].cost
                        <= MAX_PAYLOAD_BITS,
                    Planned::Message(i) => i < message_costs@.len() && plan@[k].cost
                        == message_costs@[i as int],
                    Planned::Acks(n) => 1 <= n <= pending_acks && plan@[k].cost == n
                        * ACK_RECORD_BITS,
                    Planned::Identity => plan@[k].cost == IDENTITY_BITS,
                },
            final(entities)@.len() == old(entities)@.len(),
            forall|i: int|
                0 <= i < old(entities)@.len() ==> (#[trigger] final(entities)@[i]).id == old(
                    entities,
                )@[i].id && final(entities)@[i].owner == old(entities)@[i].owner
                    && final(entities)@[i].cost == old(entities)@[i].cost,
            old(self).message_cursor <= final(self).message_cursor,
            old(self).identity_sent ==> final(self).identity_sent,
            old(self).sync_finished ==> final(self).sync_finished,
            !old(self).identity_sent ==> if replenished(old(self).remaining, allowance)
                > MIN_USEFUL_PACKET_BITS {
                plan@ == seq![PlannedPacket { kind: Planned::Identity, cost: IDENTITY_BITS }]
                    && final(self).identity_sent
            } else {
                plan@.len() == 0
            },
            tick_done(
                *final(self),
                !old(self).identity_sent,
                acks_only,
                message_costs@,
                final(entities)@,
                recipient,
            ),
            selected_in_order(old(entities)@, final(entities)@, state_indices(plan@), recipient),
            message_indices(plan@) == index_range(
                old(self).message_cursor,
                final(self).message_cursor,
            ),
            old(self).sync_cursor <= final(self).sync_cursor,
            sync_indices(plan@) == index_range(old(self).sync_cursor, final(self).sync_cursor),
            old(self).identity_sent && pending_acks > 0 && replenished(old(self).remaining, allowance)
                > MIN_USEFUL_PACKET_BITS ==> plan@.len() >= 1 && plan@[0].kind == Planned::Acks(
                first_acks(pending_acks, replenished(old(self).remaining, allowance)),
            ),
    {
        let ghost start: nat = replenished(self.remaining, allowance);
        let ghost ents0 = entities@;
        let n_ents = entities.len();
        let ghost ack_first = old(self).identity_sent && pending_acks > 0 && start
            > MIN_USEFUL_PACKET_BITS;
        proof {
            assert(state_indices(Seq::<PlannedPacket>::empty()) =~= Seq::<usize>::empty());
            assert(index_range(self.message_cursor, self.message_cursor) =~= Seq::<usize>::empty());
            assert(index_range(self.sync_cursor, self.sync_cursor) =~= Seq::<usize>::empty());
            assert(selected_in_order(ents0, entities@, Seq::<usize>::empty(), recipient));
        }
        let mut remaining: usize = if allowance > usize::MAX - self.remaining {
            usize::MAX
        } else {
            self.remaining + allowance
        };
        let mut plan: Vec<PlannedPacket> = Vec::new();
        let mut acks_left: usize = pending_acks;
        assert(within_budget(plan@, start, remaining as nat));
        while remaining > MIN_USEFUL_PACKET_BITS
            invariant_except_break
                !old(self).identity_sent ==> !self.identity_sent,
            invariant
                within_budget(plan@, start, remaining as nat),
                !self.identity_sent ==> plan@.len() == 0 && remaining == start,
                selected_in_order(ents0, entities@, state_indices(plan@), recipient),
                ents0.len() == n_ents,
                message_indices(plan@) == index_range(old(self).message_cursor, self.message_cursor),
                old(self).sync_cursor <= self.sync_cursor,
                sync_indices(plan@) == index_range(old(self).sync_cursor, self.sync_cursor),
                ack_first == (old(self).identity_sent && pending_acks > 0 && start
                    > MIN_USEFUL_PACKET_BITS),
                plan@.len() == 0 ==> acks_left == pending_acks,
                ack_first && plan@.len() > 0 ==> plan@[0].kind == Planned::Acks(
                    first_acks(pending_acks, start),
                ),
                acks_left <= pending_acks,
                old(self).message_cursor <= self.message_cursor,
                old(self).identity_sent ==> self.identity_sent,
                old(self).sync_finished ==> self.sync_finished,
                entities@.len() == ents0.len(),
                forall|i: int|
                    0 <= i < ents0.len() ==> (#[trigger] entities@[i]).id == ents0[i].id
                        && entities@[i].owner == ents0[i].owner && entities@[i].cost
                        == ents0[i].cost,
                forall|k: int|
                    0 <= k < plan@.len() ==> match #[trigger] plan@[k].kind {
                        Planned::State(list) => list@.len() >= 1 && plan@[k].cost
                            <= MAX_PAYLOAD_BITS,
                        Planned::Sync(a, b) => a < b <= entities@.len() && plan@[k].cost
                            <= MAX_PAYLOAD_BITS,
                        Planned::Message(i) => i < message_costs@.len() && plan@[k].cost
                            == message_costs@[i as int],
                        Planned::Acks(n) => 1 <= n <= pending_acks && plan@[k].cost == n
                            * ACK_RECORD_BITS,
                        Planned::Identity => plan@[k].cost == IDENTITY_BITS,
                    },
            ensures
                ack_first ==> plan@.len() >= 1,
                !old(self).identity_sent ==> if start > MIN_USEFUL_PACKET_BITS {
                    plan@ == seq![PlannedPacket { kind: Planned::Identity, cost: IDENTITY_BITS }]
                        && self.identity_sent
                } else {
                    plan@.len() == 0
                },
                tick_done(
                    Scheduler { remaining, ..*self },
                    !old(self).identity_sent,
                    acks_only,
                    message_costs@,
                    entities@,
                    recipient,
                ),
            decreases remaining,
        {
            let ghost top = remaining;
            if !self.identity_sent {
                emit(&mut plan, &mut remaining, Planned::Identity, IDENTITY_BITS, Ghost(start));
                self.identity_sent = true;
                assert(plan@ =~= seq![PlannedPacket { kind: Planned::Identity, cost: IDENTITY_BITS }]);
                break ;
            }
            let fit = remaining / ACK_RECORD_BITS;
            let n = if acks_left < fit {
                acks_left
            } else {
                fit
            };
            if n > 0 {
                assert(n * ACK_RECORD_BITS <= remaining) by (nonlinear_arith)
                    requires
                        n <= remaining / 80,
                ;
                let ghost was_empty = plan@.len() == 0;
                emit(&mut plan, &mut remaining, Planned::Acks(n), n * ACK_RECORD_BITS, Ghost(start));
                proof {
                    if was_empty && ack_first {
                        assert(n == first_acks(pending_acks, start));
                    }
                    assert(message_indices(plan@) =~= index_range(
                        old(self).message_cursor,
                        self.message_cursor,
                    ));
                    assert(sync_indices(plan@) =~= index_range(old(self).sync_cursor, self.sync_cursor));
                    assert(state_indices(plan@) =~= state_indices(plan@.drop_last()));
                }
                acks_left = acks_left - n;
            }
            proof {
                if ack_first {
                    assert(plan@.len() >= 1);
                }
            }
            if acks_only {
                break ;
            }
            let mut blocked = false;
            while self.message_cursor < message_costs.len()
                invariant_except_break
                    !blocked,
                invariant
                    within_budget(plan@, start, remaining as nat),
                    remaining <= top,
                    selected_in_order(ents0, entities@, state_indices(plan@), recipient),
                    ents0.len() == n_ents,
                    message_indices(plan@) == index_range(old(self).message_cursor, self.message_cursor),
                    old(self).sync_cursor <= self.sync_cursor,
                    sync_indices(plan@) == index_range(old(self).sync_cursor, self.sync_cursor),
                    ack_first == (old(self).identity_sent && pending_acks > 0 && start
                        > MIN_USEFUL_PACKET_BITS),
                    ack_first ==> plan@.len() >= 1 && plan@[0].kind == Planned::Acks(
                        first_acks(pending_acks, start),
                    ),
                    old(self).message_cursor <= self.message_cursor,
                    old(self).identity_sent ==> self.identity_sent,
                    old(self).sync_finished ==> self.sync_finished,
                    entities@.len() == ents0.len(),
                    forall|k: int|
                        0 <= k < plan@.len() ==> match #[trigger] plan@[k].kind {
                            Planned::State(list) => list@.len() >= 1 && plan@[k].cost
                                <= MAX_PAYLOAD_BITS,
                            Planned::Sync(a, b) => a < b <= entities@.len() && plan@[k].cost
                                <= MAX_PAYLOAD_BITS,
                            Planned::Message(i) => i < message_costs@.len() && plan@[k].cost
                                == message_costs@[i as int],
                            Planned::Acks(n) => 1 <= n <= pending_acks && plan@[k].cost == n
                                * ACK_RECORD_BITS,
                            Planned::Identity => plan@[k].cost == IDENTITY_BITS,
                        },
                ensures
                    blocked ==> self.message_cursor < message_costs@.len()
                        && message_costs@[self.message_cursor as int] > remaining,
                    !blocked ==> self.message_cursor >= message_costs@.len(),
                decreases message_costs@.len() - self.message_cursor,
            {
                let c = message_costs[self.message_cursor];
                if c > remaining {
                    blocked = true;
                    break ;
                }
                let ghost before_plan = plan@;
                emit(
                    &mut plan,
                    &mut remaining,
                    Planned::Message(self.message_cursor),
                    c,
                    Ghost(start),
                );
                self.message_cursor = self.message_cursor + 1;
                proof {
                    assert(message_indices(plan@) =~= index_range(
                        old(self).message_cursor,
                        self.message_cursor,
                    ));
                    assert(sync_indices(plan@) =~= sync_indices(before_plan));
                    assert(state_indices(plan@) =~= state_indices(before_plan));
                }
            }
            if blocked {
                break ;
            }
            let limit = if remaining < MAX_PAYLOAD_BITS {
                remaining
            } else {
                MAX_PAYLOAD_BITS
            };
            if !self.sync_finished {
                if self.sync_cursor < entities.len() {
                    let begin = self.sync_cursor;
                    let mut end = begin;
                    let mut cost: usize = STATE_HEADER_BITS;
                    while end < entities.len() && cost <= limit && entities[end].cost <= limit
                        - cost
                        invariant
                            begin <= end <= entities@.len(),
                            cost >= STATE_HEADER_BITS,
                            end == begin ==> cost == STATE_HEADER_BITS,
                            end > begin ==> cost <= limit,
                        decreases entities@.len() - end,
                    {
                        cost = cost + entities[end].cost;
                        end = end + 1;
                    }
                    if end > begin {
                        let ghost before_plan = plan@;
                        emit(&mut plan, &mut remaining, Planned::Sync(begin, end), cost, Ghost(start));
                        self.sync_cursor = end;
                        proof {
                            assert(sync_indices(plan@) =~= index_range(
                                old(self).sync_cursor,
                                self.sync_cursor,
                            ));
                            assert(message_indices(plan@) =~= message_indices(before_plan));
                            assert(state_indices(plan@) =~= state_indices(before_plan));
                        }
                        continue ;
                    }
                    assert(STATE_HEADER_BITS + entities@[begin as int].cost > packet_limit(remaining));
                    break ;
                } else {
                    self.sync_finished = true;
                }
            }
            let ghost cur = entities@;
            let (included, cost) = fill_state_packet(entities, recipient, limit);
            proof {
                lemma_state_step(
                    ents0,
                    cur,
                    entities@,
                    state_indices(plan@),
                    included@,
                    recipient,
                );
            }
            if included.len() > 0 {
                let ghost before_plan = plan@;
                emit(&mut plan, &mut remaining, Planned::State(included), cost, Ghost(start));
                proof {
                    assert(message_indices(plan@) =~= message_indices(before_plan));
                    assert(sync_indices(plan@) =~= sync_indices(before_plan));
                }
                continue ;
            }
            assert(state_indices(plan@) + included@ =~= state_indices(plan@));
            assert forall|m: int| is_next_due(entities@, recipient, m) implies STATE_HEADER_BITS
                + #[trigger] entities@[m].cost > packet_limit(remaining) by {
                assert(eligible(entities@[m], recipient));
            }
            break ;
        }
        self.remaining = remaining;
        plan
    }
}

} // verus!
