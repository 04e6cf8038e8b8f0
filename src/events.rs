//! Lifecycle events of projectiles and the counter that follows them.
use vstd::prelude::*;

verus! {

/// A projectile entered flight, or left it.
#[derive(Clone, Copy, Debug, PartialEq, Eq, Structural)]
pub enum BulletEvent {
    Add,
    Delete,
}

pub open spec fn num_adds(s: Seq<BulletEvent>) -> nat
    decreases s.len(),
{
    if s.len() == 0 {
        0
    } else {
        num_adds(s.drop_last()) + if s.last() == BulletEvent::Add { 1nat } else { 0nat }
    }
}

pub open spec fn num_deletes(s: Seq<BulletEvent>) -> nat
    decreases s.len(),
{
    if s.len() == 0 {
        0
    } else {
        num_deletes(s.drop_last()) + if s.last() == BulletEvent::Delete { 1nat } else { 0nat }
    }
}

/// What a batch of events does to the count: one up per add, one down per delete.
pub open spec fn net(s: Seq<BulletEvent>) -> int {
    num_adds(s) - num_deletes(s)
}

/// `k` delete events.
pub open spec fn deletes(k: nat) -> Seq<BulletEvent> {
    Seq::new(k, |i: int| BulletEvent::Delete)
}

pub proof fn lemma_push_event(s: Seq<BulletEvent>, e: BulletEvent)
    ensures
        num_adds(s.push(e)) == num_adds(s) + if e == BulletEvent::Add { 1nat } else { 0nat },
        num_deletes(s.push(e)) == num_deletes(s) + if e == BulletEvent::Delete { 1nat } else { 0nat },
{
    assert(s.push(e).drop_last() =~= s);
}

pub proof fn lemma_append_deletes(s: Seq<BulletEvent>, k: nat)
    ensures
        num_adds(s + deletes(k)) == num_adds(s),
        num_deletes(s + deletes(k)) == num_deletes(s) + k,
    decreases k,
{
    if k == 0 {
        assert(s + deletes(0) =~= s);
    } else {
        lemma_append_deletes(s, (k - 1) as nat);
        assert(s + deletes(k) =~= (s + deletes((k - 1) as nat)).push(BulletEvent::Delete));
        lemma_push_event(s + deletes((k - 1) as nat), BulletEvent::Delete);
    }
}

/// Apply a batch of events to `count` in order: one up per add, one down per
/// delete. The result has to be a valid count.
pub fn apply_events(count: usize, events: &Vec<BulletEvent>) -> (r: usize)
    requires
        0 <= count + net(events@) <= usize::MAX,
    ensures
        r == count + net(events@),
{
    let mut acc: i128 = count as i128;
    let mut i: usize = 0;
    while i < events.len()
        invariant
            i <= events@.len(),
            acc == count + net(events@.take(i as int)),
            -(i as int) <= net(events@.take(i as int)) <= i,
        decreases events@.len() - i,
    {
        proof {
            assert(events@.take(i as int + 1) =~= events@.take(i as int).push(events@[i as int]));
            lemma_push_event(events@.take(i as int), events@[i as int]);
        }
        match events[i] {
            BulletEvent::Add => {
                acc = acc + 1;
            },
            BulletEvent::Delete => {
                acc = acc - 1;
            },
        }
        i = i + 1;
    }
    assert(events@.take(i as int) =~= events@);
    acc as usize
}

} // verus!
