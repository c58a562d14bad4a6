//! The subscribers of the relay and the fan-out of events to them.

use crate::event::Event;
use std::collections::HashMap;
use std::sync::mpsc::Sender;
use vstd::prelude::*;
use vstd::std_specs::hash::*;
use vstd::std_specs::iter::IteratorSpec;

verus! {

broadcast use vstd::std_specs::hash::group_hash_axioms;

/// The sending half of a subscriber's queue, `std::sync::mpsc::Sender`.
/// Nothing is known of what is inside.
#[verifier::external_type_specification]
#[verifier::external_body]
#[verifier::reject_recursive_types(T)]
pub struct ExSender<T>(Sender<T>);

/// A change of the registry.
#[derive(Debug)]
pub enum Msg {
    /// The subscriber `.0` has connected; `.1` is its queue.
    Init(u32, Sender<String>),
    /// The subscriber `.0` is gone.
    Close(u32),
}

/// How the attempt to reach one subscriber went.
#[derive(Debug, Clone, Copy, PartialEq, Eq)]
pub struct Delivery {
    /// The subscriber.
    pub id: u32,
    /// Whether its queue took the line.
    pub delivered: bool,
}

/// What woke the registry's owner.
#[derive(Debug)]
pub enum Wake {
    /// A classified event is to be handed to the subscribers.
    Event(Event),
    /// A change of the registry was asked for.
    Change(Msg),
    /// Shutdown was requested.
    Stop,
    /// A channel that the owner reads from is gone.
    Closed,
}

/// What the owner does after a turn.
#[derive(Debug)]
pub struct Turn {
    /// How the fan-out went, if the turn handed an event out.
    pub report: Vec<Delivery>,
    /// The changes to ask for: one `Close` for each subscriber that was not
    /// reached.
    pub requests: Vec<Msg>,
    /// Whether the loop goes on.
    pub running: bool,
}

/// The subscribers that `report` speaks of, in its order.
pub open spec fn reached(report: Seq<Delivery>) -> Seq<u32> {
    Seq::new(report.len(), |i: int| report[i].id)
}

/// The subscribers that `report` says were not reached, in its order.
pub open spec fn lost(report: Seq<Delivery>) -> Seq<u32>
    decreases report.len(),
{
    if report.len() == 0 {
        Seq::empty()
    } else if report.last().delivered {
        lost(report.drop_last())
    } else {
        lost(report.drop_last()).push(report.last().id)
    }
}

/// The subscribers after the change `msg`: a subscriber that connects is
/// entered with its queue, in place of an earlier one of the same id; one
/// that is gone is taken out, if it was there.
pub open spec fn changed(subscribers: Map<u32, Sender<String>>, msg: Msg) -> Map<
    u32,
    Sender<String>,
> {
    match msg {
        Msg::Init(id, queue) => subscribers.insert(id, queue),
        Msg::Close(id) => subscribers.remove(id),
    }
}

/// The requests to close the subscribers `ids`, in their order.
pub open spec fn closes(ids: Seq<u32>) -> Seq<Msg> {
    Seq::new(ids.len(), |k: int| Msg::Close(ids[k]))
}

/// The subscribers after the changes `msgs`, carried out from left to right.
pub open spec fn changed_by_all(subscribers: Map<u32, Sender<String>>, msgs: Seq<Msg>) -> Map<
    u32,
    Sender<String>,
>
    decreases msgs.len(),
{
    if msgs.len() == 0 {
        subscribers
    } else {
        changed(changed_by_all(subscribers, msgs.drop_last()), msgs.last())
    }
}

/// Closing removes the named subscribers and nobody else: whoever was not
/// named stays, with the queue it had.
pub proof fn lemma_closes_remove_only_the_named(
    subscribers: Map<u32, Sender<String>>,
    ids: Seq<u32>,
)
    ensures
        changed_by_all(subscribers, closes(ids)) == subscribers.remove_keys(ids.to_set()),
    decreases ids.len(),
{
    if ids.len() > 0 {
        let head = ids.drop_last();
        lemma_closes_remove_only_the_named(subscribers, head);
        assert(closes(ids).drop_last() =~= closes(head));
        assert(closes(ids).last() == Msg::Close(ids.last()));
        assert forall|id: u32| ids.to_set().contains(id) <==> head.to_set().contains(id) || id
            == ids.last() by {
            if ids.to_set().contains(id) {
                let k = choose|k: int| 0 <= k < ids.len() && ids[k] == id;
                if k < head.len() {
                    assert(head[k] == id);
                }
            }
            if head.to_set().contains(id) {
                let k = choose|k: int| 0 <= k < head.len() && head[k] == id;
                assert(ids[k] == id);
            }
            if id == ids.last() {
                assert(ids[ids.len() - 1] == id);
            }
        }
        assert(subscribers.remove_keys(head.to_set()).remove(ids.last()) =~= subscribers.remove_keys(
            ids.to_set(),
        ));
    } else {
        assert(subscribers.remove_keys(ids.to_set()) =~= subscribers);
    }
}

/// A subscriber is lost exactly when the report holds a failed attempt to
/// reach it.
pub proof fn lemma_lost_are_the_failures(report: Seq<Delivery>, id: u32)
    ensures
        lost(report).contains(id) <==> exists|i: int|
            0 <= i < report.len() && #[trigger] report[i] == (Delivery { id, delivered: false }),
    decreases report.len(),
{
    let failed = Delivery { id, delivered: false };
    if report.len() > 0 {
        let head = report.drop_last();
        lemma_lost_are_the_failures(head, id);
        if lost(report).contains(id) {
            if report.last() != failed {
                let k = choose|k: int| 0 <= k < lost(report).len() && lost(report)[k] == id;
                assert(lost(head)[k] == id);
                let i = choose|i: int| 0 <= i < head.len() && #[trigger] head[i] == failed;
                assert(report[i] == failed);
            } else {
                assert(report[report.len() - 1] == failed);
            }
        }
        if exists|i: int| 0 <= i < report.len() && #[trigger] report[i] == failed {
            let i = choose|i: int| 0 <= i < report.len() && #[trigger] report[i] == failed;
            if i < head.len() {
                assert(head[i] == failed);
                let k = choose|k: int| 0 <= k < lost(head).len() && lost(head)[k] == id;
                assert(lost(report)[k] == id);
            } else {
                assert(lost(report).last() == id);
            }
        }
    }
}

/// A severed subscriber is closed, and only it.  Let `report` be how a
/// fan-out over `subscribers` went, and `later` how any fan-out went after
/// the requests of `report` were carried out.  Then
///
/// * the requests are `Close` for exactly the subscribers whose queue did
///   not take the line, and for nobody who was reached;
/// * the registry after them holds exactly the subscribers that were
///   reached, each with the queue it had;
/// * `later` offers nothing to a severed subscriber, and so asks for no
///   second `Close` of it.
pub proof fn lemma_severed_subscriber_is_closed(
    subscribers: Map<u32, Sender<String>>,
    report: Seq<Delivery>,
    later: Seq<Delivery>,
)
    requires
        reached(report).no_duplicates(),
        reached(report).to_set() == subscribers.dom(),
        reached(later).to_set() == changed_by_all(subscribers, closes(lost(report))).dom(),
    ensures
        ({
            let requests = closes(lost(report));
            let after = changed_by_all(subscribers, requests);
            &&& forall|k: int| 0 <= k < requests.len() ==> #[trigger] requests[k] is Close
            &&& forall|id: u32|
                requests.contains(Msg::Close(id)) <==> report.contains(
                    Delivery { id, delivered: false },
                )
            &&& forall|id: u32|
                #[trigger] after.contains_key(id) <==> report.contains(
                    Delivery { id, delivered: true },
                )
            &&& forall|id: u32| #[trigger]
                after.contains_key(id) ==> subscribers.contains_key(id) && after[id]
                    == subscribers[id]
            &&& forall|id: u32|
                report.contains(Delivery { id, delivered: false }) ==> !reached(later).contains(id)
                    && !lost(later).contains(id)
        }),
{
    let ids = lost(report);
    let requests = closes(ids);
    let after = changed_by_all(subscribers, requests);
    lemma_closes_remove_only_the_named(subscribers, ids);
    assert forall|id: u32|
        requests.contains(Msg::Close(id)) <==> report.contains(
            Delivery { id, delivered: false },
        ) by {
        lemma_lost_are_the_failures(report, id);
        if requests.contains(Msg::Close(id)) {
            let k = choose|k: int| 0 <= k < requests.len() && requests[k] == Msg::Close(id);
            assert(ids[k] == id);
        }
        if ids.contains(id) {
            let k = choose|k: int| 0 <= k < ids.len() && ids[k] == id;
            assert(requests[k] == Msg::Close(id));
        }
    }
    assert forall|id: u32|
        #[trigger] after.contains_key(id) <==> report.contains(
            Delivery { id, delivered: true },
        ) by {
        lemma_lost_are_the_failures(report, id);
        if after.contains_key(id) {
            assert(reached(report).to_set().contains(id));
            let i = choose|i: int| 0 <= i < report.len() && reached(report)[i] == id;
            assert(!ids.to_set().contains(id));
            assert(report[i] == Delivery { id, delivered: true });
        }
        if report.contains(Delivery { id, delivered: true }) {
            let i = choose|i: int|
                0 <= i < report.len() && report[i] == (Delivery { id, delivered: true });
            assert(reached(report)[i] == id);
            assert(reached(report).to_set().contains(id));
            if ids.contains(id) {
                let j = choose|j: int|
                    0 <= j < report.len() && #[trigger] report[j] == (Delivery {
                        id,
                        delivered: false,
                    });
                assert(reached(report)[j] == id);
            }
        }
    }
    assert forall|id: u32|
        report.contains(Delivery { id, delivered: false }) implies !reached(later).contains(id)
        && !lost(later).contains(id) by {
        lemma_lost_are_the_failures(report, id);
        lemma_lost_are_the_failures(later, id);
        assert(ids.to_set().contains(id));
        assert(!after.contains_key(id));
        if reached(later).contains(id) {
            assert(reached(later).to_set().contains(id));
        }
        if lost(later).contains(id) {
            let j = choose|j: int|
                0 <= j < later.len() && #[trigger] later[j] == (Delivery { id, delivered: false });
            assert(reached(later)[j] == id);
        }
    }
}

/// The connected subscribers, each with its queue.
pub struct Registry {
    queues: HashMap<u32, Sender<String>>,
}

impl View for Registry {
    type V = Map<u32, Sender<String>>;

    closed spec fn view(&self) -> Map<u32, Sender<String>> {
        self.queues@
    }
}

/// Puts `line` into `queue`, by `Sender::send`, and tells whether the queue
/// took it.  It does not if the receiving half is gone, which nothing here
/// can foresee: nothing is claimed of the answer.
#[verifier::external_body]
fn enqueue(queue: &Sender<String>, line: String) -> (delivered: bool) {
    queue.send(line).is_ok()
}

impl Registry {
    /// A registry without subscribers.
    pub fn new() -> (r: Registry)
        ensures
            r@ == Map::<u32, Sender<String>>::empty(),
    {
        Registry { queues: HashMap::new() }
    }

    /// The number of subscribers.
    pub fn len(&self) -> (n: usize)
        ensures
            n == self@.len(),
    {
        self.queues.len()
    }

    /// Whether `id` is a subscriber.
    pub fn contains(&self, id: u32) -> (b: bool)
        ensures
            b == self@.contains_key(id),
    {
        self.queues.contains_key(&id)
    }

    /// Carries out one change.
    pub fn apply(&mut self, msg: Msg)
        ensures
            final(self)@ == changed(old(self)@, msg),
    {
        match msg {
            Msg::Init(id, queue) => {
                self.queues.insert(id, queue);
            },
            Msg::Close(id) => {
                self.queues.remove(&id);
            },
        }
    }

    /// Offers the line of `event` to every subscriber, once, and reports how
    /// each attempt went.  A queue that does not take the line stops nothing:
    /// the others are still served.
    pub fn broadcast(&self, event: &Event) -> (report: Vec<Delivery>)
        ensures
            reached(report@).no_duplicates(),
            reached(report@).to_set() == self@.dom(),
    {
        let line = event.to_str();
        let mut report: Vec<Delivery> = Vec::new();
        let ghost all = spec_hash_map_iter(&self.queues).remaining();
        for pair in it: self.queues.iter()
            invariant
                it.seq() == all,
                all.no_duplicates(),
                report@.len() == it.index(),
                forall|j: int|
                    0 <= j < report@.len() ==> (#[trigger] report@[j]).id == *all[j].0,
        {
            let (id, queue) = pair;
            let delivered = enqueue(queue, line.clone());
            report.push(Delivery { id: *id, delivered });
        }
        proof {
            let ids = reached(report@);
            assert forall|i: int, j: int|
                0 <= i < ids.len() && 0 <= j < ids.len() && i != j implies ids[i] != ids[j] by {
                assert(report@[i].id == *all[i].0 && report@[j].id == *all[j].0);
                assert(self@.contains_key(*all[i].0) && self@[*all[i].0] == *all[i].1);
                assert(self@.contains_key(*all[j].0) && self@[*all[j].0] == *all[j].1);
                assert(all[i] != all[j]);
            }
            assert forall|id: u32| ids.to_set().contains(id) <==> self@.dom().contains(id) by {
                if ids.to_set().contains(id) {
                    let i = choose|i: int| 0 <= i < ids.len() && ids[i] == id;
                    assert(report@[i].id == *all[i].0);
                    assert(self@.contains_key(*all[i].0));
                }
                if self@.dom().contains(id) {
                    assert(self@.contains_key(id));
                    assert(all.contains((&id, &self@[id])));
                    let i = choose|i: int| 0 <= i < all.len() && all[i] == (&id, &self@[id]);
                    assert(report@[i].id == *all[i].0);
                    assert(ids[i] == id);
                }
            }
            assert(ids.to_set() =~= self@.dom());
        }
        report
    }

    /// Takes what woke the owner and says what to do.
    ///
    /// An event is offered to every subscriber, and those that were not
    /// reached are named in the requests; the registry itself stays as it
    /// is until the requests come back as changes.  A change is carried
    /// out.  A stop request, or the loss of a channel, ends the loop and
    /// changes nothing.
    pub fn turn(&mut self, wake: Wake) -> (t: Turn)
        ensures
            t.running == (wake is Event || wake is Change),
            wake matches Wake::Change(msg) ==> final(self)@ == changed(old(self)@, msg)
                && t.report@.len() == 0 && t.requests@.len() == 0,
            wake is Event ==> final(self)@ == old(self)@ && reached(t.report@).no_duplicates()
                && reached(t.report@).to_set() == old(self)@.dom() && t.requests@ == closes(
                lost(t.report@),
            ),
            wake is Stop || wake is Closed ==> final(self)@ == old(self)@ && t.report@.len() == 0
                && t.requests@.len() == 0,
    {
        match wake {
            Wake::Event(event) => {
                let report = self.broadcast(&event);
                let requests = close_requests(&report);
                Turn { report, requests, running: true }
            },
            Wake::Change(msg) => {
                self.apply(msg);
                Turn { report: Vec::new(), requests: Vec::new(), running: true }
            },
            Wake::Stop | Wake::Closed => Turn {
                report: Vec::new(),
                requests: Vec::new(),
                running: false,
            },
        }
    }
}

/// The changes that a report asks for: the subscribers that were not reached
/// are to be closed, in the order of the report.
pub fn close_requests(report: &Vec<Delivery>) -> (requests: Vec<Msg>)
    ensures
        requests@ == closes(lost(report@)),
{
    let mut requests: Vec<Msg> = Vec::new();
    let mut i: usize = 0;
    while i < report.len()
        invariant
            i <= report@.len(),
            requests@.len() == lost(report@.take(i as int)).len(),
            forall|k: int|
                0 <= k < requests@.len() ==> #[trigger] requests@[k] == Msg::Close(
                    lost(report@.take(i as int))[k],
                ),
        decreases report@.len() - i,
    {
        assert(report@.take(i + 1).drop_last() =~= report@.take(i as int));
        assert(report@.take(i + 1).last() == report@[i as int]);
        if !report[i].delivered {
            requests.push(Msg::Close(report[i].id));
        }
        i = i + 1;
    }
    assert(report@.take(i as int) =~= report@);
    assert(requests@ =~= closes(lost(report@)));
    requests
}

/// The source of subscriber ids: `1`, `2`, `3` and so on, none of them twice.
pub struct Ids {
    last: u32,
}

impl View for Ids {
    type V = u32;

    /// The id that was handed out last; `0` before the first.
    closed spec fn view(&self) -> u32 {
        self.last
    }
}

impl Ids {
    /// A source that has handed out nothing yet.
    pub fn new() -> (ids: Ids)
        ensures
            ids@ == 0,
    {
        Ids { last: 0 }
    }

    /// The next id: one above the last.  When every id has been handed out
    /// there is none, and there never will be.
    pub fn next_id(&mut self) -> (id: Option<u32>)
        ensures
            match id {
                Some(n) => n == old(self)@ + 1 && final(self)@ == n,
                None => old(self)@ == u32::MAX && final(self)@ == u32::MAX,
            },
    {
        if self.last == u32::MAX {
            None
        } else {
            self.last = self.last + 1;
            Some(self.last)
        }
    }
}

} // verus!
