use butteryfly::scheduler::{
    accumulate, fill_state_packet, select_next, Entity, Planned, Scheduler, ACK_RECORD_BITS,
};

fn entity(id: u16, owner: u16, priority: i64, cost: usize) -> Entity {
    Entity { id, owner, priority, cost }
}

#[test]
fn highest_priority_first_ties_by_registration() {
    let mut ents = vec![entity(1, 0, 5, 10), entity(2, 0, 0, 10), entity(3, 0, 3, 10), entity(4, 0, 3, 10)];
    let mut order = Vec::new();
    while let Some(i) = select_next(&ents, 9) {
        order.push(i);
        ents[i].priority = 0;
    }
    assert_eq!(order, vec![0, 2, 3]);
}

#[test]
fn state_packet_takes_priority_order_and_resets() {
    let mut ents = vec![entity(1, 0, 5, 10), entity(2, 0, 0, 10), entity(3, 0, 3, 10), entity(4, 0, 3, 10)];
    let (included, cost) = fill_state_packet(&mut ents, 9, 4800);
    assert_eq!(included, vec![0, 2, 3]);
    assert_eq!(cost, 64 + 30);
    assert!(ents.iter().all(|e| e.priority == 0));
}

#[test]
fn state_packet_stops_at_the_first_that_does_not_fit() {
    let mut ents = vec![entity(1, 0, 9, 50), entity(2, 0, 8, 100), entity(3, 0, 7, 10)];
    let (included, cost) = fill_state_packet(&mut ents, 9, 64 + 60);
    assert_eq!(included, vec![0]);
    assert_eq!(cost, 114);
    assert_eq!(ents[1].priority, 8);
    assert_eq!(ents[2].priority, 7);
}

#[test]
fn own_entities_are_not_sent_back() {
    let mut ents = vec![entity(1, 5, 9, 10), entity(2, 6, 1, 10)];
    let (included, _) = fill_state_packet(&mut ents, 5, 4800);
    assert_eq!(included, vec![1]);
    assert_eq!(ents[0].priority, 9);
}

#[test]
fn priorities_accumulate_saturating() {
    let mut ents = vec![entity(1, 0, 1, 10), entity(2, 0, i64::MAX - 1, 10)];
    accumulate(&mut ents, &vec![2, 5]);
    assert_eq!(ents[0].priority, 3);
    assert_eq!(ents[1].priority, i64::MAX);
}

#[test]
fn tick_plan_stays_within_budget() {
    let mut s = Scheduler::for_client();
    let mut ents = vec![entity(1, 0, 5, 200), entity(2, 0, 3, 200), entity(3, 0, 1, 200)];
    let plan = s.plan_tick(1000, 0, &Vec::new(), &mut ents, 7, false);
    assert_eq!(plan.len(), 1);
    assert_eq!(plan[0].kind, Planned::Identity);
    assert!(s.identity_sent);
    let plan = s.plan_tick(1000, 2, &vec![100], &mut ents, 7, false);
    let mut left: usize = 936 + 1000;
    for p in &plan {
        assert!(p.cost <= left);
        left -= p.cost;
    }
    assert_eq!(left, s.remaining);
    assert_eq!(plan[0].kind, Planned::Acks(2));
    assert_eq!(plan[0].cost, 2 * ACK_RECORD_BITS);
    assert_eq!(plan[1].kind, Planned::Message(0));
    assert_eq!(plan[2].kind, Planned::Sync(0, 3));
    assert_eq!(plan[2].cost, 64 + 600);
}

#[test]
fn state_updates_follow_the_initial_sync() {
    let mut s = Scheduler::for_server();
    let mut ents = vec![entity(1, 0, 5, 100), entity(2, 0, 0, 100), entity(3, 0, 3, 100), entity(4, 0, 3, 100)];
    let plan = s.plan_tick(2000, 0, &Vec::new(), &mut ents, 9, false);
    assert_eq!(plan.len(), 1);
    assert_eq!(plan[0].kind, Planned::State(vec![0, 2, 3]));
    assert_eq!(plan[0].cost, 364);
    assert_eq!(s.remaining, 2000 - 364);
    assert!(ents.iter().all(|e| e.priority == 0));
}

#[test]
fn budget_never_goes_negative() {
    let mut s = Scheduler::for_server();
    let mut ents = vec![entity(1, 0, 5, 100)];
    let plan = s.plan_tick(50, 3, &vec![10], &mut ents, 9, false);
    assert!(plan.is_empty());
    assert_eq!(s.remaining, 50);
    let plan = s.plan_tick(60, 3, &vec![10], &mut ents, 9, false);
    assert_eq!(plan[0].kind, Planned::Acks(1));
    assert!(plan.iter().map(|p| p.cost).sum::<usize>() <= 110);
}
