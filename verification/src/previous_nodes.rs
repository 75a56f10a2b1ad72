//! Which slots a task has created in earlier executions, and by which requests, so that
//! the same requests in the next execution get the same slots again.
use std::collections::HashMap;
use vstd::prelude::*;

verus! {

broadcast use vstd::std_specs::hash::group_hash_axioms;

/// The slots that a task has created, by key and by type.
///
/// Types, and pairs of a type and a key, stand here by the numbers that the runtime has
/// given them.
pub struct PreviousNodesMap {
    by_key: HashMap<u64, usize>,
    by_type: HashMap<u64, (usize, Vec<usize>)>,
}

/// The contents of a [`PreviousNodesMap`].
#[verifier::ext_equal]
pub ghost struct PreviousNodes {
    /// For each key the slot that was created for it.
    pub by_key: Map<u64, usize>,
    /// For each type how many slots of it this execution has asked for, and the slots
    /// that were created for it, in the order in which they were asked for.
    pub by_type: Map<u64, (usize, Seq<usize>)>,
}

impl PreviousNodes {
    pub open spec fn empty() -> PreviousNodes {
        PreviousNodes { by_key: Map::empty(), by_type: Map::empty() }
    }

    /// The slots created for a type, and how many of them this execution has asked for.
    pub open spec fn of_type(self, type_id: u64) -> (usize, Seq<usize>) {
        if self.by_type.contains_key(type_id) {
            self.by_type[type_id]
        } else {
            (0, Seq::empty())
        }
    }

    /// The same slots, at the beginning of an execution.
    pub open spec fn rewound(self) -> PreviousNodes {
        PreviousNodes {
            by_type: self.by_type.map_values(|list: (usize, Seq<usize>)| (0usize, list.1)),
            ..self
        }
    }

    /// Whether the slots named here are among the first `slots` ones.
    pub open spec fn fits(self, slots: nat) -> bool {
        &&& forall|key: u64| #[trigger]
            self.by_key.contains_key(key) ==> self.by_key[key] < slots
        &&& forall|type_id: u64| #[trigger]
            self.by_type.contains_key(type_id) ==> self.by_type[type_id].0
                <= self.by_type[type_id].1.len()
        &&& forall|type_id: u64, i: int|
            self.by_type.contains_key(type_id) && 0 <= i < self.by_type[type_id].1.len()
                ==> #[trigger] self.by_type[type_id].1[i] < slots
    }

    /// The slot for the next request for `type_id`, where the task has `slots` slots:
    /// the next one that was created for the type, else a new one at the end.
    pub open spec fn slot_of_type(self, type_id: u64, slots: usize) -> usize {
        let (index, list) = self.of_type(type_id);
        if index < list.len() {
            list[index as int]
        } else {
            slots
        }
    }

    /// What is known after that request.
    pub open spec fn after_type(self, type_id: u64, slots: usize) -> PreviousNodes {
        let (index, list) = self.of_type(type_id);
        let list = if index < list.len() {
            list
        } else {
            list.push(slots)
        };
        PreviousNodes {
            by_type: self.by_type.insert(type_id, ((index + 1) as usize, list)),
            ..self
        }
    }

    /// The slot for `key`, where the task has `slots` slots: the one that was created
    /// for it, else a new one at the end.
    pub open spec fn slot_of_key(self, key: u64, slots: usize) -> usize {
        if self.by_key.contains_key(key) {
            self.by_key[key]
        } else {
            slots
        }
    }

    /// What is known after that request.
    pub open spec fn after_key(self, key: u64, slots: usize) -> PreviousNodes {
        PreviousNodes { by_key: self.by_key.insert(key, self.slot_of_key(key, slots)), ..self }
    }
}

/// What an execution can ask a slot for.
pub ghost enum Request {
    Key(u64),
    Type(u64),
}

impl PreviousNodes {
    /// Whether no slot was created for the request before.
    pub open spec fn is_new(self, request: Request) -> bool {
        match request {
            Request::Key(key) => !self.by_key.contains_key(key),
            Request::Type(type_id) => self.of_type(type_id).0 >= self.of_type(type_id).1.len(),
        }
    }

    /// The slot for the request, where the task has `slots` slots.
    pub open spec fn slot_for(self, request: Request, slots: usize) -> usize {
        match request {
            Request::Key(key) => self.slot_of_key(key, slots),
            Request::Type(type_id) => self.slot_of_type(type_id, slots),
        }
    }

    /// What is known after the request.
    pub open spec fn after(self, request: Request, slots: usize) -> PreviousNodes {
        match request {
            Request::Key(key) => self.after_key(key, slots),
            Request::Type(type_id) => self.after_type(type_id, slots),
        }
    }

    /// How many slots the task has after the request.
    pub open spec fn slots_after(self, request: Request, slots: usize) -> usize {
        if self.is_new(request) {
            (slots + 1) as usize
        } else {
            slots
        }
    }

    /// Whether no slot was created for two of the requests.
    pub open spec fn distinct(self) -> bool {
        &&& forall|k1: u64, k2: u64| #[trigger]
            self.by_key.contains_key(k1) && #[trigger] self.by_key.contains_key(k2) && k1 != k2
                ==> self.by_key[k1] != self.by_key[k2]
        &&& forall|k: u64, t: u64, i: int| #[trigger]
            self.by_key.contains_key(k) && self.by_type.contains_key(t) && 0 <= i
                < self.by_type[t].1.len() ==> self.by_key[k] != #[trigger] self.by_type[t].1[i]
        &&& forall|t1: u64, i1: int, t2: u64, i2: int|
            self.by_type.contains_key(t1) && 0 <= i1 < self.by_type[t1].1.len()
                && self.by_type.contains_key(t2) && 0 <= i2 < self.by_type[t2].1.len() && (t1 != t2
                || i1 != i2) ==> #[trigger] self.by_type[t1].1[i1]
                != #[trigger] self.by_type[t2].1[i2]
    }
}

/// What is known after an execution that makes `requests` one after the other, how
/// many slots the task then has, and the slot that each request got.
pub open spec fn execution(nodes: PreviousNodes, slots: usize, requests: Seq<Request>) -> (
    PreviousNodes,
    usize,
    Seq<usize>,
)
    decreases requests.len(),
{
    if requests.len() == 0 {
        (nodes, slots, Seq::empty())
    } else {
        let rest = execution(
            nodes.after(requests[0], slots),
            nodes.slots_after(requests[0], slots),
            requests.drop_first(),
        );
        (rest.0, rest.1, seq![nodes.slot_for(requests[0], slots)] + rest.2)
    }
}

/// Whether `later` knows of every slot that `earlier` knows of, by the same key or by the
/// same type and number.
pub open spec fn extends(earlier: PreviousNodes, later: PreviousNodes) -> bool {
    &&& forall|k: u64| #[trigger]
        earlier.by_key.contains_key(k) ==> later.by_key.contains_key(k) && later.by_key[k]
            == earlier.by_key[k]
    &&& forall|t: u64| #[trigger]
        earlier.by_type.contains_key(t) ==> later.by_type.contains_key(t)
            && earlier.by_type[t].1.len() <= later.by_type[t].1.len()
    &&& forall|t: u64, i: int|
        earlier.by_type.contains_key(t) && 0 <= i < earlier.by_type[t].1.len()
            ==> later.by_type[t].1[i] == #[trigger] earlier.by_type[t].1[i]
}

proof fn lemma_execution_extends(nodes: PreviousNodes, slots: usize, requests: Seq<Request>)
    ensures
        extends(nodes, execution(nodes, slots, requests).0),
    decreases requests.len(),
{
    if requests.len() > 0 {
        let next = nodes.after(requests[0], slots);
        lemma_execution_extends(
            next,
            nodes.slots_after(requests[0], slots),
            requests.drop_first(),
        );
        let last = execution(nodes, slots, requests).0;
        assert forall|t: u64| #[trigger]
            nodes.by_type.contains_key(t) implies last.by_type.contains_key(t)
            && nodes.by_type[t].1.len() <= last.by_type[t].1.len() by {
            assert(next.by_type.contains_key(t));
        }
        assert forall|t: u64, i: int|
            nodes.by_type.contains_key(t) && 0 <= i
                < nodes.by_type[t].1.len() implies last.by_type[t].1[i]
            == #[trigger] nodes.by_type[t].1[i] by {
            assert(next.by_type.contains_key(t));
            assert(next.by_type[t].1[i] == nodes.by_type[t].1[i]);
        }
        assert forall|k: u64| #[trigger]
            nodes.by_key.contains_key(k) implies last.by_key.contains_key(k) && last.by_key[k]
            == nodes.by_key[k] by {
            assert(next.by_key.contains_key(k));
        }
    }
}

/// `again` has the slots of `last`, and has made as many requests as `nodes`.
spec fn repeats(nodes: PreviousNodes, last: PreviousNodes, again: PreviousNodes) -> bool {
    &&& again.by_key == last.by_key
    &&& again.by_type.dom() == last.by_type.dom()
    &&& forall|t: u64| #[trigger]
        again.by_type.contains_key(t) ==> again.by_type[t].1 == last.by_type[t].1
            && again.by_type[t].0 == nodes.of_type(t).0
}

proof fn lemma_repeated(
    nodes: PreviousNodes,
    slots: usize,
    requests: Seq<Request>,
    again: PreviousNodes,
    again_slots: usize,
)
    requires
        repeats(nodes, execution(nodes, slots, requests).0, again),
        forall|key: u64| nodes.by_type.contains_key(key) ==> #[trigger] nodes.by_type[key].0
            <= nodes.by_type[key].1.len(),
    ensures
        execution(again, again_slots, requests) == (
            execution(nodes, slots, requests).0,
            again_slots,
            execution(nodes, slots, requests).2,
        ),
    decreases requests.len(),
{
    let last = execution(nodes, slots, requests).0;
    if requests.len() == 0 {
        assert(again =~= nodes);
    } else {
        let request = requests[0];
        let next = nodes.after(request, slots);
        let next_slots = nodes.slots_after(request, slots);
        let again_next = again.after(request, again_slots);
        lemma_execution_extends(next, next_slots, requests.drop_first());
        assert(last == execution(next, next_slots, requests.drop_first()).0);
        match request {
            Request::Key(key) => {
                assert(next.by_key.contains_key(key));
                assert(last.by_key.contains_key(key));
                assert(again_next.by_key =~= again.by_key);
            },
            Request::Type(type_id) => {
                assert(next.by_type.contains_key(type_id));
                assert(again.by_type.contains_key(type_id));
                let index = nodes.of_type(type_id).0;
                assert(index < next.by_type[type_id].1.len());
                assert(last.by_type[type_id].1[index as int] == next.by_type[type_id].1[index as int]);
                assert(again_next.by_type.dom() =~= again.by_type.dom());
                assert forall|t: u64| #[trigger]
                    again_next.by_type.contains_key(t) implies again_next.by_type[t].1
                    == last.by_type[t].1 && again_next.by_type[t].0 == next.of_type(t).0 by {
                    assert(again.by_type.contains_key(t));
                }
            },
        }
        assert(!again.is_new(request));
        lemma_repeated(next, next_slots, requests.drop_first(), again_next, again_slots);
    }
}

/// An execution that makes the same requests as the one before it gets the same slots,
/// creates none, and leaves what is known as it was.
pub proof fn law_repeated_execution_gets_the_same_slots(
    nodes: PreviousNodes,
    slots: usize,
    requests: Seq<Request>,
)
    ensures
        ({
            let first = execution(nodes.rewound(), slots, requests);
            execution(first.0.rewound(), first.1, requests) == first
        }),
{
    let first = execution(nodes.rewound(), slots, requests);
    assert(first.0.rewound().by_type.dom() =~= first.0.by_type.dom());
    lemma_repeated(nodes.rewound(), slots, requests, first.0.rewound(), first.1);
}

/// No request gets a slot that another request has got, and the slots that are known
/// stay among those that the task has.
pub proof fn law_requests_never_share_a_slot(nodes: PreviousNodes, slots: usize, request: Request)
    requires
        nodes.fits(slots as nat),
        nodes.distinct(),
        slots < usize::MAX,
    ensures
        nodes.after(request, slots).fits(nodes.slots_after(request, slots) as nat),
        nodes.after(request, slots).distinct(),
        nodes.slot_for(request, slots) < nodes.slots_after(request, slots),
{
}

/// The beginning of an execution changes nothing of this, and a task that was never executed
/// begins with it.
pub proof fn law_rewound_nodes_fit(nodes: PreviousNodes, slots: nat)
    ensures
        nodes.fits(slots) ==> nodes.rewound().fits(slots),
        nodes.distinct() ==> nodes.rewound().distinct(),
        PreviousNodes::empty().fits(slots),
        PreviousNodes::empty().distinct(),
{
    let again = nodes.rewound();
    if nodes.fits(slots) {
        assert forall|t: u64, i: int|
            again.by_type.contains_key(t) && 0 <= i
                < again.by_type[t].1.len() implies #[trigger] again.by_type[t].1[i] < slots by {
            assert(nodes.by_type[t].1[i] < slots);
        }
    }
    if nodes.distinct() {
        assert forall|k: u64, t: u64, i: int| #[trigger]
            again.by_key.contains_key(k) && again.by_type.contains_key(t) && 0 <= i
                < again.by_type[t].1.len() implies again.by_key[k]
            != #[trigger] again.by_type[t].1[i] by {
            assert(nodes.by_key.contains_key(k));
            assert(nodes.by_key[k] != nodes.by_type[t].1[i]);
        }
        assert forall|t1: u64, i1: int, t2: u64, i2: int|
            again.by_type.contains_key(t1) && 0 <= i1 < again.by_type[t1].1.len()
                && again.by_type.contains_key(t2) && 0 <= i2 < again.by_type[t2].1.len() && (t1
                != t2 || i1 != i2) implies #[trigger] again.by_type[t1].1[i1]
            != #[trigger] again.by_type[t2].1[i2] by {
            assert(nodes.by_type[t1].1[i1] != nodes.by_type[t2].1[i2]);
        }
    }
}

/// What is known at the beginning of an execution is kept, and only extended.
pub proof fn law_execution_extends_what_was_known(
    nodes: PreviousNodes,
    slots: usize,
    requests: Seq<Request>,
)
    requires
        slots + requests.len() <= usize::MAX,
    ensures
        extends(nodes, execution(nodes, slots, requests).0),
        extends(nodes, execution(nodes.rewound(), slots, requests).0),
        slots <= execution(nodes, slots, requests).1 <= slots + requests.len(),
{
    lemma_execution_extends(nodes, slots, requests);
    lemma_execution_extends(nodes.rewound(), slots, requests);
    lemma_rewound_extends(nodes, execution(nodes.rewound(), slots, requests).0);
    lemma_execution_slots(nodes, slots, requests);
}

proof fn lemma_execution_slots(nodes: PreviousNodes, slots: usize, requests: Seq<Request>)
    requires
        slots + requests.len() <= usize::MAX,
    ensures
        slots <= execution(nodes, slots, requests).1 <= slots + requests.len(),
    decreases requests.len(),
{
    if requests.len() > 0 {
        lemma_execution_slots(
            nodes.after(requests[0], slots),
            nodes.slots_after(requests[0], slots),
            requests.drop_first(),
        );
    }
}

proof fn lemma_rewound_extends(nodes: PreviousNodes, later: PreviousNodes)
    requires
        extends(nodes.rewound(), later),
    ensures
        extends(nodes, later),
{
    let again = nodes.rewound();
    assert forall|k: u64| #[trigger] nodes.by_key.contains_key(k) implies later.by_key.contains_key(
        k,
    ) && later.by_key[k] == nodes.by_key[k] by {
        assert(again.by_key.contains_key(k));
    }
    assert forall|t: u64| #[trigger]
        nodes.by_type.contains_key(t) implies later.by_type.contains_key(t)
        && nodes.by_type[t].1.len() <= later.by_type[t].1.len() by {
        assert(again.by_type.contains_key(t));
    }
    assert forall|t: u64, i: int|
        nodes.by_type.contains_key(t) && 0 <= i
            < nodes.by_type[t].1.len() implies later.by_type[t].1[i]
        == #[trigger] nodes.by_type[t].1[i] by {
        assert(again.by_type.contains_key(t));
        assert(again.by_type[t].1[i] == nodes.by_type[t].1[i]);
    }
}

/// A key gets the same slot every time, whatever is asked for in between, in this
/// execution or in the next one.
pub proof fn law_key_keeps_its_slot(
    nodes: PreviousNodes,
    slots: usize,
    key: u64,
    requests: Seq<Request>,
    more_slots: usize,
    later_slots: usize,
)
    ensures
        ({
            let later = execution(nodes.after_key(key, slots), more_slots, requests).0;
            &&& later.slot_of_key(key, later_slots) == nodes.slot_of_key(key, slots)
            &&& !later.is_new(Request::Key(key))
            &&& later.rewound().slot_of_key(key, later_slots) == nodes.slot_of_key(key, slots)
        }),
{
    lemma_execution_extends(nodes.after_key(key, slots), more_slots, requests);
    assert(nodes.after_key(key, slots).by_key.contains_key(key));
}

/// How many of the requests are for a slot of the type.
pub open spec fn requests_of_type(requests: Seq<Request>, type_id: u64) -> nat
    decreases requests.len(),
{
    if requests.len() == 0 {
        0
    } else {
        requests_of_type(requests.drop_first(), type_id) + if requests[0] == Request::Type(
            type_id,
        ) {
            1nat
        } else {
            0nat
        }
    }
}

/// Whether `nodes` know `slot` as the one for the request after `earlier`, the requests
/// that were made since `first` was known.
pub open spec fn knows(
    nodes: PreviousNodes,
    first: PreviousNodes,
    earlier: Seq<Request>,
    request: Request,
    slot: usize,
) -> bool {
    match request {
        Request::Key(key) => nodes.by_key.contains_key(key) && nodes.by_key[key] == slot,
        Request::Type(type_id) => {
            let number = first.of_type(type_id).0 + requests_of_type(earlier, type_id);
            &&& nodes.by_type.contains_key(type_id)
            &&& number < nodes.by_type[type_id].1.len()
            &&& nodes.by_type[type_id].1[number] == slot
        },
    }
}

/// Each request gets the slot that is known for it afterwards: for a key the slot of the
/// key, for a type the one of its number among the requests for the type, whatever other
/// requests are made in between.
pub proof fn law_request_gets_the_slot_that_is_known(
    nodes: PreviousNodes,
    slots: usize,
    requests: Seq<Request>,
    k: int,
)
    requires
        0 <= k < requests.len(),
        forall|t: u64|
            (#[trigger] nodes.of_type(t)).0 <= nodes.of_type(t).1.len() && nodes.of_type(t).0
                + requests.len() <= usize::MAX,
    ensures
        execution(nodes, slots, requests).2.len() == requests.len(),
        knows(
            execution(nodes, slots, requests).0,
            nodes,
            requests.take(k),
            requests[k],
            execution(nodes, slots, requests).2[k],
        ),
    decreases requests.len(),
{
    let next = nodes.after(requests[0], slots);
    let next_slots = nodes.slots_after(requests[0], slots);
    let rest = requests.drop_first();
    let whole = execution(nodes, slots, requests);
    let later = execution(next, next_slots, rest);
    lemma_execution_extends(next, next_slots, rest);
    lemma_execution_len(next, next_slots, rest);
    if k == 0 {
        assert(requests.take(0) =~= Seq::empty());
        match requests[0] {
            Request::Key(key) => {
                assert(next.by_key.contains_key(key));
            },
            Request::Type(type_id) => {
                let (index, list) = nodes.of_type(type_id);
                assert(next.by_type.contains_key(type_id));
                assert(index < next.by_type[type_id].1.len());
                assert(later.0.by_type[type_id].1[index as int]
                    == next.by_type[type_id].1[index as int]);
            },
        }
    } else {
        assert forall|t: u64|
            (#[trigger] next.of_type(t)).0 <= next.of_type(t).1.len() && next.of_type(t).0
                + rest.len() <= usize::MAX by {
            assert(nodes.of_type(t).0 <= nodes.of_type(t).1.len());
        }
        law_request_gets_the_slot_that_is_known(next, next_slots, rest, k - 1);
        assert(requests.take(k).drop_first() =~= rest.take(k - 1));
        assert(requests.take(k)[0] == requests[0]);
        assert(rest[k - 1] == requests[k]);
        assert(whole.2[k] == later.2[k - 1]);
        if let Request::Type(t) = requests[k] {
            assert(nodes.of_type(t).0 <= nodes.of_type(t).1.len());
            assert(requests_of_type(requests.take(k), t) == requests_of_type(rest.take(k - 1), t)
                + if requests[0] == Request::Type(t) {
                1nat
            } else {
                0nat
            });
        }
    }
}

proof fn lemma_execution_len(nodes: PreviousNodes, slots: usize, requests: Seq<Request>)
    ensures
        execution(nodes, slots, requests).2.len() == requests.len(),
    decreases requests.len(),
{
    if requests.len() > 0 {
        lemma_execution_len(
            nodes.after(requests[0], slots),
            nodes.slots_after(requests[0], slots),
            requests.drop_first(),
        );
    }
}

/// A request of the next execution gets the slot that the same request has got in this
/// one: the same key, or the same type and number, whatever other requests the two
/// executions make.
pub proof fn law_next_execution_gets_the_slots_of_this_one(
    nodes: PreviousNodes,
    slots: usize,
    requests: Seq<Request>,
    k: int,
    next_requests: Seq<Request>,
    l: int,
)
    requires
        0 <= k < requests.len() <= usize::MAX,
        0 <= l < next_requests.len() <= usize::MAX,
        requests[k] == next_requests[l],
        requests[k] matches Request::Type(t) ==> requests_of_type(requests.take(k), t)
            == requests_of_type(next_requests.take(l), t),
    ensures
        ({
            let first = execution(nodes.rewound(), slots, requests);
            let second = execution(first.0.rewound(), first.1, next_requests);
            second.2[l] == first.2[k]
        }),
{
    let first = execution(nodes.rewound(), slots, requests);
    let again = first.0.rewound();
    let second = execution(again, first.1, next_requests);
    law_request_gets_the_slot_that_is_known(nodes.rewound(), slots, requests, k);
    law_request_gets_the_slot_that_is_known(again, first.1, next_requests, l);
    lemma_execution_extends(again, first.1, next_requests);
    lemma_rewound_extends(first.0, second.0);
    match requests[k] {
        Request::Key(key) => {
            assert(first.0.by_key.contains_key(key));
        },
        Request::Type(t) => {
            let number = requests_of_type(requests.take(k), t) as int;
            assert(nodes.rewound().of_type(t).0 == 0);
            assert(again.of_type(t).0 == 0);
            assert(first.0.by_type.contains_key(t));
            assert(second.0.by_type[t].1[number] == first.0.by_type[t].1[number]);
        },
    }
}

/// Whether `nodes` know the slot, by a key or by a type and a number.
pub open spec fn is_known(nodes: PreviousNodes, slot: int) -> bool {
    ||| exists|key: u64| #[trigger] nodes.by_key.contains_key(key) && nodes.by_key[key] == slot
    ||| exists|t: u64, i: int|
        nodes.by_type.contains_key(t) && 0 <= i < nodes.by_type[t].1.len()
            && #[trigger] nodes.by_type[t].1[i] == slot
}

/// Whether `nodes` know each of the first `slots` slots.
pub open spec fn all_known(nodes: PreviousNodes, slots: nat) -> bool {
    forall|slot: int| 0 <= slot < slots ==> #[trigger] is_known(nodes, slot)
}

/// Each slot of a task is known, so that it can be got again.
pub proof fn law_every_slot_is_known(nodes: PreviousNodes, slots: usize, request: Request)
    requires
        all_known(nodes, slots as nat),
        slots < usize::MAX,
    ensures
        all_known(nodes.after(request, slots), nodes.slots_after(request, slots) as nat),
        all_known(nodes.rewound(), slots as nat),
        all_known(PreviousNodes::empty(), 0),
{
    let next = nodes.after(request, slots);
    let again = nodes.rewound();
    lemma_execution_extends(nodes, slots, seq![request]);
    assert(execution(nodes, slots, seq![request]).0 == next) by {
        assert(seq![request].drop_first() =~= Seq::empty());
        assert(execution(next, nodes.slots_after(request, slots), Seq::empty()).0 == next);
    }
    assert forall|slot: int| 0 <= slot < slots implies #[trigger] is_known(again, slot)
        && is_known(next, slot) by {
        assert(is_known(nodes, slot));
        if exists|key: u64| #[trigger]
            nodes.by_key.contains_key(key) && nodes.by_key[key] == slot {
            let key = choose|key: u64| #[trigger]
                nodes.by_key.contains_key(key) && nodes.by_key[key] == slot;
            assert(again.by_key.contains_key(key));
            assert(next.by_key.contains_key(key));
        } else {
            let (t, i) = choose|t: u64, i: int|
                nodes.by_type.contains_key(t) && 0 <= i < nodes.by_type[t].1.len()
                    && #[trigger] nodes.by_type[t].1[i] == slot;
            assert(again.by_type.contains_key(t));
            assert(again.by_type[t].1[i] == slot);
            assert(next.by_type.contains_key(t));
            assert(next.by_type[t].1[i] == slot);
        }
    }
    assert forall|slot: int| 0 <= slot < nodes.slots_after(request, slots) implies #[trigger] is_known(
        next,
        slot,
    ) by {
        if slot < slots {
            assert(is_known(again, slot));
        } else {
            match request {
                Request::Key(key) => {
                    assert(next.by_key.contains_key(key));
                },
                Request::Type(t) => {
                    let list = nodes.of_type(t).1;
                    assert(next.by_type.contains_key(t));
                    assert(next.by_type[t].1[list.len() as int] == slot);
                },
            }
        }
    }
}

/// The slots that are known fit where each of them is one that the task has, and no more
/// slots of a type were asked for than are known.
pub proof fn law_known_slots_are_there(nodes: PreviousNodes, slots: nat)
    ensures
        nodes.fits(slots) <==> (forall|slot: int| #[trigger]
            is_known(nodes, slot) ==> slot < slots) && (forall|t: u64| #[trigger]
            nodes.by_type.contains_key(t) ==> nodes.by_type[t].0 <= nodes.by_type[t].1.len()),
{
    if nodes.fits(slots) {
        assert forall|slot: int| #[trigger] is_known(nodes, slot) implies slot < slots by {
            if exists|key: u64| #[trigger]
                nodes.by_key.contains_key(key) && nodes.by_key[key] == slot {
                let key = choose|key: u64| #[trigger]
                    nodes.by_key.contains_key(key) && nodes.by_key[key] == slot;
                assert(nodes.by_key[key] < slots);
            } else {
                let (t, i) = choose|t: u64, i: int|
                    nodes.by_type.contains_key(t) && 0 <= i < nodes.by_type[t].1.len()
                        && #[trigger] nodes.by_type[t].1[i] == slot;
                assert(nodes.by_type[t].1[i] < slots);
            }
        }
    }
    if (forall|slot: int| #[trigger] is_known(nodes, slot) ==> slot < slots) && (forall|t: u64|
        #[trigger]
        nodes.by_type.contains_key(t) ==> nodes.by_type[t].0 <= nodes.by_type[t].1.len()) {
        assert forall|key: u64| #[trigger] nodes.by_key.contains_key(key) implies nodes.by_key[key]
            < slots by {
            assert(is_known(nodes, nodes.by_key[key] as int));
        }
        assert forall|t: u64, i: int|
            nodes.by_type.contains_key(t) && 0 <= i
                < nodes.by_type[t].1.len() implies #[trigger] nodes.by_type[t].1[i] < slots by {
            assert(is_known(nodes, nodes.by_type[t].1[i] as int));
        }
    }
}

/// A request that was made before, by its key or by its type and number, gets the slot that
/// is known for it; every other one gets a new slot behind those that the task has. After
/// it that slot is known, nothing else is, and the next request of the type has the next
/// number.
pub proof fn law_request_is_answered_from_what_is_known(
    nodes: PreviousNodes,
    slots: usize,
    key: u64,
    t: u64,
)
    requires
        nodes.by_type.contains_key(t) ==> nodes.by_type[t].0 <= nodes.by_type[t].1.len(),
        nodes.by_type.contains_key(t) ==> nodes.by_type[t].0 < usize::MAX,
        slots < usize::MAX,
    ensures
        nodes.by_key.contains_key(key) ==> nodes.slot_for(Request::Key(key), slots)
            == nodes.by_key[key] && nodes.slots_after(Request::Key(key), slots) == slots,
        !nodes.by_key.contains_key(key) ==> nodes.slot_for(Request::Key(key), slots) == slots
            && nodes.slots_after(Request::Key(key), slots) == slots + 1,
        nodes.after(Request::Key(key), slots).by_type == nodes.by_type,
        forall|other: u64| #[trigger]
            nodes.after(Request::Key(key), slots).by_key.contains_key(other) <==> other == key
                || nodes.by_key.contains_key(other),
        forall|other: u64|
            other != key && nodes.by_key.contains_key(other) ==> #[trigger] nodes.after(
                Request::Key(key),
                slots,
            ).by_key[other] == nodes.by_key[other],
        nodes.after(Request::Key(key), slots).by_key[key] == nodes.slot_for(
            Request::Key(key),
            slots,
        ),
        nodes.after(Request::Type(t), slots).by_key == nodes.by_key,
        nodes.by_type.contains_key(t) && nodes.by_type[t].0 < nodes.by_type[t].1.len()
            ==> nodes.slot_for(Request::Type(t), slots)
            == nodes.by_type[t].1[nodes.by_type[t].0 as int] && nodes.slots_after(
            Request::Type(t),
            slots,
        ) == slots && nodes.after(Request::Type(t), slots).by_type[t].1 == nodes.by_type[t].1,
        nodes.by_type.contains_key(t) && nodes.by_type[t].0 == nodes.by_type[t].1.len()
            ==> nodes.slot_for(Request::Type(t), slots) == slots && nodes.slots_after(
            Request::Type(t),
            slots,
        ) == slots + 1 && nodes.after(Request::Type(t), slots).by_type[t].1
            == nodes.by_type[t].1.push(slots),
        !nodes.by_type.contains_key(t) ==> nodes.slot_for(Request::Type(t), slots) == slots
            && nodes.slots_after(Request::Type(t), slots) == slots + 1 && nodes.after(
            Request::Type(t),
            slots,
        ).by_type[t] == (1usize, seq![slots]),
        nodes.by_type.contains_key(t) ==> nodes.after(Request::Type(t), slots).by_type[t].0
            == nodes.by_type[t].0 + 1,
        forall|other: u64| #[trigger]
            nodes.after(Request::Type(t), slots).by_type.contains_key(other) <==> other == t
                || nodes.by_type.contains_key(other),
        forall|other: u64|
            other != t && nodes.by_type.contains_key(other) ==> #[trigger] nodes.after(
                Request::Type(t),
                slots,
            ).by_type[other] == nodes.by_type[other],
        nodes.rewound().by_key == nodes.by_key,
        nodes.rewound().by_type.contains_key(t) <==> nodes.by_type.contains_key(t),
        nodes.by_type.contains_key(t) ==> nodes.rewound().by_type[t] == (
            0usize,
            nodes.by_type[t].1,
        ),
{
    assert(Seq::<usize>::empty().push(slots) =~= seq![slots]);
}

impl View for PreviousNodesMap {
    type V = PreviousNodes;

    closed spec fn view(&self) -> PreviousNodes {
        PreviousNodes {
            by_key: self.by_key@,
            by_type: self.by_type@.map_values(|list: (usize, Vec<usize>)| (list.0, list.1@)),
        }
    }
}

impl Default for PreviousNodesMap {
    fn default() -> (res: PreviousNodesMap)
        ensures
            res@ == PreviousNodes::empty(),
    {
        let res = PreviousNodesMap { by_key: HashMap::new(), by_type: HashMap::new() };
        assert(res@ =~= PreviousNodes::empty());
        res
    }
}

impl PreviousNodesMap {
    /// Goes back to the beginning of an execution.
    pub fn rewind(&mut self)
        ensures
            final(self)@.by_key == old(self)@.by_key,
            final(self)@.by_type.dom() == old(self)@.by_type.dom(),
            forall|t: u64| #[trigger] old(self)@.by_type.contains_key(t)
                ==> final(self)@.by_type[t].0 == 0
                && final(self)@.by_type[t].1 == old(self)@.by_type[t].1,
            final(self)@ == old(self)@.rewound(),
    {
        let mut types: Vec<u64> = Vec::new();
        for type_id in it: self.by_type.keys()
            invariant
                it.seq().unref().to_set() == self.by_type@.dom(),
                types@.len() == it.index(),
                forall|j: int| 0 <= j < types@.len() ==> types@[j] == *#[trigger] it.seq()[j],
                it.index() == it.seq().len() ==> types@ == it.seq().unref(),
        {
            types.push(*type_id);
        }
        let ghost before = self.by_type@;
        proof {
            assert(types@.to_set() == before.dom());
        }
        let mut i: usize = 0;
        while i < types.len()
            invariant
                i <= types@.len(),
                self.by_key@ == old(self).by_key@,
                self.by_type@.dom() == before.dom(),
                forall|j: int|
                    #![trigger types@[j]]
                    0 <= j < types@.len() ==> before.contains_key(types@[j]),
                forall|t: u64| #[trigger]
                    before.contains_key(t) ==> self.by_type@[t].1@ == before[t].1@,
                forall|j: int|
                    #![trigger types@[j]]
                    0 <= j < i ==> self.by_type@[types@[j]].0 == 0,
            decreases types@.len() - i,
        {
            let type_id: u64 = types[i];
            if let Some(list) = self.by_type.remove(&type_id) {
                self.by_type.insert(type_id, (0, list.1));
            }
            i += 1;
        }
        proof {
            assert forall|t: u64| before.contains_key(t) implies self.by_type@[t].0 == 0 by {
                assert(types@.to_set().contains(t));
                let j = choose|j: int| 0 <= j < types@.len() && types@[j] == t;
                assert(self.by_type@[types@[j]].0 == 0);
            }
            assert(self@ =~= old(self)@.rewound());
        }
    }

    /// The slot for the next request for `type_id`, where the task has `slots` slots.
    pub fn next_of_type(&mut self, type_id: u64, slots: usize) -> (res: usize)
        requires
            old(self)@.fits(slots as nat),
        ensures
            final(self)@.by_key == old(self)@.by_key,
            !old(self)@.by_type.contains_key(type_id) ==> res == slots && final(self)@.by_type
                == old(self)@.by_type.insert(type_id, (1usize, seq![slots])),
            old(self)@.by_type.contains_key(type_id) ==> ({
                let (next, list) = old(self)@.by_type[type_id];
                &&& next < list.len() ==> res == list[next as int] && final(self)@.by_type == old(
                    self)@.by_type.insert(type_id, ((next + 1) as usize, list))
                &&& next >= list.len() ==> res == slots && final(self)@.by_type == old(
                    self)@.by_type.insert(type_id, ((next + 1) as usize, list.push(slots)))
            }),
            res == old(self)@.slot_of_type(type_id, slots),
            final(self)@ == old(self)@.after_type(type_id, slots),
    {
        let (index, mut list): (usize, Vec<usize>) = match self.by_type.remove(&type_id) {
            Some(list) => list,
            None => (0, Vec::new()),
        };
        proof {
            assert(old(self)@.of_type(type_id) == (index, list@));
            if old(self).by_type@.contains_key(type_id) {
                assert(old(self)@.by_type.contains_key(type_id));
            }
        }
        let slot: usize = if index < list.len() {
            list[index]
        } else {
            list.push(slots);
            slots
        };
        assert(index < list.len() <= usize::MAX);
        self.by_type.insert(type_id, (index + 1, list));
        assert(self@ =~= old(self)@.after_type(type_id, slots));
        slot
    }

    /// The slot for `key`, where the task has `slots` slots.
    pub fn next_of_key(&mut self, key: u64, slots: usize) -> (res: usize)
        ensures
            final(self)@.by_type == old(self)@.by_type,
            old(self)@.by_key.contains_key(key) ==> res == old(self)@.by_key[key],
            !old(self)@.by_key.contains_key(key) ==> res == slots,
            final(self)@.by_key == old(self)@.by_key.insert(key, res),
            res == old(self)@.slot_of_key(key, slots),
            final(self)@ == old(self)@.after_key(key, slots),
    {
        let slot: usize = match self.by_key.get(&key) {
            Some(index) => *index,
            None => slots,
        };
        self.by_key.insert(key, slot);
        assert(self@ =~= old(self)@.after_key(key, slots));
        slot
    }
}

} // verus!
