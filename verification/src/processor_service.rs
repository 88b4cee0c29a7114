//! Hosting the plan of a stage, and finding the processors that host the stages it reads.

use std::collections::HashMap;
use std::sync::Arc;

use vstd::prelude::*;

use crate::execution::{executed, located, ExecuteError, Source, TaskContext};
use crate::flight::{internal_status, Code, FlightHandler, Status};
use crate::isolator::PartitionGroup;
use crate::plan::{ExecutionPlan, Tree};
use crate::text::{around, digits, joined};
use crate::ticket::{
    extract_ticket, lemma_ticket_round_trip, ticket_bytes, ticket_of, FlightTicketData,
};
use crate::unmarked::{lemma_unmarked_located, unmarked};

verus! {

broadcast use vstd::std_specs::hash::group_hash_axioms;

/// For a stage and a partition, the clients that can serve it, by their places in the
/// caller's table of clients. To consume a partition is to consume it from all of them and
/// to merge the results.
#[derive(Debug)]
pub struct ServiceClients(pub HashMap<usize, HashMap<usize, Vec<usize>>>);

impl ServiceClients {
    /// The clients that can serve a partition of a stage.
    pub open spec fn at(self, stage_id: usize, partition: usize) -> Option<Seq<usize>> {
        if self.0@.contains_key(stage_id) && self.0@[stage_id]@.contains_key(partition) {
            Some(self.0@[stage_id]@[partition]@)
        } else {
            None
        }
    }

    /// Returns the clients that can serve a partition of a stage.
    pub fn get(&self, stage_id: usize, partition: usize) -> (r: Option<&Vec<usize>>)
        ensures
            match r {
                Some(clients) => self.at(stage_id, partition) == Some(clients@),
                None => self.at(stage_id, partition) is None,
            },
    {
        match self.0.get(&stage_id) {
            Some(partitions) => partitions.get(&partition),
            None => None,
        }
    }

    /// Returns the stages and partitions that can be served, in no particular order.
    pub fn keys(&self) -> (r: Vec<(usize, usize)>)
        ensures
            forall|stage_id: usize, partition: usize| #[trigger]
                r@.contains((stage_id, partition)) <==> self.at(stage_id, partition) is Some,
            r@.no_duplicates(),
    {
        let mut keys: Vec<(usize, usize)> = Vec::new();
        for stage_id in stages: self.0.keys()
            invariant
                forall|k: (usize, usize)| #[trigger]
                    keys@.contains(k) ==> self.at(k.0, k.1) is Some,
                forall|i: int, p: usize|
                    0 <= i < stages.index() && self.at(*stages.seq()[i], p) is Some
                        ==> #[trigger] keys@.contains((*stages.seq()[i], p)),
                forall|s: usize|
                    self.0@.contains_key(s) ==> stages.seq().unref().to_set().contains(s),
                forall|s: usize|
                    stages.seq().unref().to_set().contains(s) ==> self.0@.contains_key(s),
                stages.seq().no_duplicates(),
                keys@.no_duplicates(),
                forall|k: (usize, usize)| #[trigger]
                    keys@.contains(k) ==> exists|i: int|
                        0 <= i < stages.index() && *#[trigger] stages.seq()[i] == k.0,
        {
            let ghost before = keys@;
            proof {
                assert(stages.seq().unref()[stages.index()] == *stage_id);
                assert(stages.seq().unref().to_set().contains(*stage_id));
            }
            if let Some(partitions) = self.0.get(stage_id) {
                for partition in served: partitions.keys()
                    invariant
                        self.0@.contains_key(*stage_id),
                        self.0@[*stage_id] == *partitions,
                        before.len() <= keys@.len(),
                        keys@.take(before.len() as int) == before,
                        forall|k: (usize, usize)| #[trigger]
                            keys@.contains(k) ==> self.at(k.0, k.1) is Some,
                        forall|i: int|
                            0 <= i < served.index() ==> #[trigger] keys@.contains(
                                (*stage_id, *served.seq()[i]),
                            ),
                        forall|p: usize|
                            partitions@.contains_key(p) ==> served.seq().unref().to_set().contains(
                                p,
                            ),
                        forall|p: usize|
                            served.seq().unref().to_set().contains(p) ==> partitions@.contains_key(
                                p,
                            ),
                        served.seq().no_duplicates(),
                        keys@.no_duplicates(),
                        forall|k: (usize, usize)| #[trigger]
                            before.contains(k) ==> k.0 != *stage_id,
                        forall|k: (usize, usize)| #[trigger]
                            keys@.contains(k) ==> before.contains(k) || (k.0 == *stage_id
                                && exists|i: int|
                                0 <= i < served.index() && *#[trigger] served.seq()[i] == k.1),
                {
                    proof {
                        assert(served.seq().unref()[served.index()] == *partition);
                        assert(served.seq().unref().to_set().contains(*partition));
                        lemma_contains_push(keys@, (*stage_id, *partition));
                        assert(*served.seq()[served.index()] == *partition);
                        assert(!keys@.contains((*stage_id, *partition)));
                    }
                    keys.push((*stage_id, *partition));
                }
                proof {
                    assert forall|p: usize| self.at(*stage_id, p) is Some implies #[trigger]
                        keys@.contains((*stage_id, p)) by {
                        assert(partitions@.contains_key(p));
                    }
                }
            }
            proof {
                assert forall|i: int, p: usize|
                    0 <= i <= stages.index() && self.at(
                        *stages.seq()[i],
                        p,
                    ) is Some implies #[trigger] keys@.contains((*stages.seq()[i], p)) by {
                    if i < stages.index() {
                        let k = (*stages.seq()[i], p);
                        assert(before.contains(k));
                        let j = choose|j: int| 0 <= j < before.len() && before[j] == k;
                        assert(keys@.take(before.len() as int)[j] == keys@[j]);
                    } else {
                        assert(*stages.seq()[i] == *stage_id);
                    }
                }
            }
        }
        keys
    }
}

proof fn lemma_contains_push(s: Seq<(usize, usize)>, x: (usize, usize))
    ensures
        forall|k: (usize, usize)| #[trigger]
            s.push(x).contains(k) <==> s.contains(k) || k == x,
{
    assert forall|k: (usize, usize)| #[trigger] s.push(x).contains(k) <==> s.contains(k) || k
        == x by {
        assert(s.push(x)[s.len() as int] == x);
        if s.contains(k) {
            let i = choose|i: int| 0 <= i < s.len() && s[i] == k;
            assert(s.push(x)[i] == k);
        }
    }
}

/// The addresses of the processors that serve each partition of a stage, by stage.
pub open spec fn addresses_at(
    stage_addrs: Map<usize, HashMap<usize, Vec<String>>>,
    stage_id: usize,
    partition: usize,
) -> Option<Seq<String>> {
    if stage_addrs.contains_key(stage_id) && stage_addrs[stage_id]@.contains_key(partition) {
        Some(stage_addrs[stage_id]@[partition]@)
    } else {
        None
    }
}

/// The places in `table` hold the addresses, one for one.
pub open spec fn resolved(places: Seq<usize>, addrs: Seq<String>, table: Seq<String>) -> bool {
    &&& places.len() == addrs.len()
    &&& forall|i: int|
        0 <= i < places.len() ==> (#[trigger] places[i]) < table.len() && table[places[i] as int]@
            == addrs[i]@
}

/// No two entries hold the same address.
pub open spec fn distinct(table: Seq<String>) -> bool {
    forall|i: int, j: int|
        0 <= i < j < table.len() ==> (#[trigger] table[i])@ != (#[trigger] table[j])@
}

/// The address is one of the first `n` of these.
pub open spec fn listed(addr: Seq<char>, addrs: Seq<String>, n: int) -> bool {
    exists|i: int| 0 <= i < n && (#[trigger] addrs[i])@ == addr
}

/// The address serves a partition of a stage.
pub open spec fn serves(addr: Seq<char>, partition_addrs: Map<usize, Vec<String>>) -> bool {
    exists|p: usize| #[trigger]
        partition_addrs.contains_key(p) && listed(
            addr,
            partition_addrs[p]@,
            partition_addrs[p]@.len() as int,
        )
}

/// The address serves one of the first `n` stages that are needed.
pub open spec fn wanted(
    addr: Seq<char>,
    needed: Seq<usize>,
    n: int,
    stage_addrs: Map<usize, HashMap<usize, Vec<String>>>,
) -> bool {
    exists|j: int|
        0 <= j < n && stage_addrs.contains_key(#[trigger] needed[j]) && serves(
            addr,
            stage_addrs[needed[j]]@,
        )
}

/// Returns the place of an address in a table, adding the address where it is not there.
fn place_of(addr: &String, table: &mut Vec<String>) -> (place: usize)
    requires
        distinct(old(table)@),
    ensures
        place < final(table)@.len(),
        final(table)@[place as int]@ == addr@,
        final(table)@ == old(table)@ || final(table)@ == old(table)@.push(
            final(table)@[place as int],
        ),
        distinct(final(table)@),
{
    let mut i: usize = 0;
    while i < table.len()
        invariant
            i <= table.len(),
            table@ == old(table)@,
            distinct(table@),
            forall|j: int| 0 <= j < i ==> (#[trigger] table@[j])@ != addr@,
        decreases table.len() - i,
    {
        if table[i] == *addr {
            return i;
        }
        i += 1;
    }
    table.push(addr.clone());
    i
}

proof fn lemma_resolved_more(places: Seq<usize>, addrs: Seq<String>, a: Seq<String>, b: Seq<String>)
    requires
        resolved(places, addrs, a),
        a.len() <= b.len(),
        b.take(a.len() as int) == a,
    ensures
        resolved(places, addrs, b),
{
    assert forall|i: int| 0 <= i < places.len() implies (#[trigger] places[i]) < b.len()
        && b[places[i] as int]@ == addrs[i]@ by {
        assert(b.take(a.len() as int)[places[i] as int] == b[places[i] as int]);
    }
}

/// Returns the places of some addresses in a table, adding those that are not there.
fn places_of(addrs: &Vec<String>, table: &mut Vec<String>) -> (places: Vec<usize>)
    requires
        distinct(old(table)@),
    ensures
        resolved(places@, addrs@, final(table)@),
        old(table)@.len() <= final(table)@.len(),
        final(table)@.take(old(table)@.len() as int) == old(table)@,
        distinct(final(table)@),
        forall|k: int|
            old(table)@.len() <= k < final(table)@.len() ==> listed(
                (#[trigger] final(table)@[k])@,
                addrs@,
                addrs@.len() as int,
            ),
{
    let mut places: Vec<usize> = Vec::new();
    let mut i: usize = 0;
    proof {
        assert(table@.take(table@.len() as int) =~= table@);
    }
    while i < addrs.len()
        invariant
            i <= addrs.len(),
            places@.len() == i,
            forall|j: int|
                0 <= j < i ==> (#[trigger] places@[j]) < table@.len() && table@[places@[j] as int]@
                    == addrs@[j]@,
            old(table)@.len() <= table@.len(),
            table@.take(old(table)@.len() as int) == old(table)@,
            distinct(table@),
            forall|k: int|
                old(table)@.len() <= k < table@.len() ==> listed(
                    (#[trigger] table@[k])@,
                    addrs@,
                    i as int,
                ),
        decreases addrs.len() - i,
    {
        let ghost before = table@;
        let place = place_of(&addrs[i], table);
        proof {
            assert(table@.take(old(table)@.len() as int) =~= before.take(old(table)@.len() as int));
            assert forall|k: int| old(table)@.len() <= k < table@.len() implies listed(
                (#[trigger] table@[k])@,
                addrs@,
                i + 1,
            ) by {
                if k < before.len() {
                    assert(table@[k] == before[k]);
                    assert(listed(before[k]@, addrs@, i as int));
                } else {
                    assert(addrs@[i as int]@ == table@[k]@);
                }
            }
        }
        places.push(place);
        i += 1;
    }
    places
}

/// How a stage's context reaches the stages that it reads.
#[derive(Debug)]
pub struct Connections {
    /// The addresses to connect to, each once. The clients are numbered by it.
    pub addresses: Vec<String>,
    /// The clients, for the handler and for what executes its plan.
    pub clients: Arc<ServiceClients>,
    /// The first stage that is needed and has no addresses. What comes after it is not
    /// looked at.
    pub missing: Option<usize>,
}

/// How many of the stages that are needed, from the first on, have addresses.
pub open spec fn reachable(
    needed: Seq<usize>,
    stage_addrs: Map<usize, HashMap<usize, Vec<String>>>,
) -> nat
    decreases needed.len(),
{
    if needed.len() == 0 || !stage_addrs.contains_key(needed[0]) {
        0
    } else {
        1 + reachable(needed.drop_first(), stage_addrs)
    }
}

proof fn lemma_reachable(
    needed: Seq<usize>,
    stage_addrs: Map<usize, HashMap<usize, Vec<String>>>,
    n: nat,
)
    requires
        n <= needed.len(),
        forall|i: int| 0 <= i < n ==> stage_addrs.contains_key(#[trigger] needed[i]),
        n < needed.len() ==> !stage_addrs.contains_key(needed[n as int]),
    ensures
        reachable(needed, stage_addrs) == n,
    decreases needed.len(),
{
    if n > 0 {
        assert(stage_addrs.contains_key(needed[0]));
        let rest = needed.drop_first();
        assert forall|i: int| 0 <= i < n - 1 implies stage_addrs.contains_key(
            #[trigger] rest[i],
        ) by {
            assert(rest[i] == needed[i + 1]);
        }
        lemma_reachable(rest, stage_addrs, (n - 1) as nat);
    }
}

/// The clients for the first `n` stages that are needed: all partitions of those stages, and
/// nothing else, each with a client for every address.
pub open spec fn clients_for(
    clients: ServiceClients,
    needed: Seq<usize>,
    n: int,
    stage_addrs: Map<usize, HashMap<usize, Vec<String>>>,
    table: Seq<String>,
) -> bool {
    &&& forall|s: usize| #[trigger]
        clients.0@.contains_key(s) <==> needed.take(n).contains(s)
    &&& forall|s: usize, p: usize| #[trigger]
        clients.at(s, p) is Some ==> addresses_at(stage_addrs, s, p) is Some && resolved(
            clients.at(s, p)->0,
            addresses_at(stage_addrs, s, p)->0,
            table,
        )
    &&& forall|s: usize, p: usize|
        needed.take(n).contains(s) && #[trigger] addresses_at(stage_addrs, s, p) is Some
            ==> clients.at(s, p) is Some
}

/// Returns the clients of one stage, adding their addresses to the table.
fn stage_clients(partition_addrs: &HashMap<usize, Vec<String>>, table: &mut Vec<String>) -> (r:
    HashMap<usize, Vec<usize>>)
    requires
        distinct(old(table)@),
    ensures
        r@.dom() =~= partition_addrs@.dom(),
        forall|p: usize| #[trigger]
            r@.contains_key(p) ==> resolved(r@[p]@, partition_addrs@[p]@, final(table)@),
        old(table)@.len() <= final(table)@.len(),
        final(table)@.take(old(table)@.len() as int) == old(table)@,
        distinct(final(table)@),
        forall|k: int|
            old(table)@.len() <= k < final(table)@.len() ==> serves(
                (#[trigger] final(table)@[k])@,
                partition_addrs@,
            ),
{
    let mut clients: HashMap<usize, Vec<usize>> = HashMap::new();
    proof {
        assert(table@.take(table@.len() as int) =~= table@);
    }
    for partition in it: partition_addrs.keys()
        invariant
            forall|p: usize| #[trigger]
                clients@.contains_key(p) ==> partition_addrs@.contains_key(p) && resolved(
                    clients@[p]@,
                    partition_addrs@[p]@,
                    table@,
                ),
            forall|i: int| 0 <= i < it.index() ==> clients@.contains_key(*#[trigger] it.seq()[i]),
            forall|p: usize| #[trigger]
                partition_addrs@.contains_key(p) ==> it.seq().unref().to_set().contains(p),
            forall|p: usize|
                it.seq().unref().to_set().contains(p) ==> partition_addrs@.contains_key(p),
            old(table)@.len() <= table@.len(),
            table@.take(old(table)@.len() as int) == old(table)@,
            distinct(table@),
            forall|k: int|
                old(table)@.len() <= k < table@.len() ==> serves(
                    (#[trigger] table@[k])@,
                    partition_addrs@,
                ),
    {
        let ghost before = table@;
        let ghost had = clients@;
        proof {
            assert(it.seq().unref()[it.index()] == *partition);
            assert(it.seq().unref().to_set().contains(*partition));
        }
        if let Some(addrs) = partition_addrs.get(partition) {
            let places = places_of(addrs, table);
            proof {
                assert forall|p: usize| #[trigger] had.contains_key(p) implies resolved(
                    had[p]@,
                    partition_addrs@[p]@,
                    table@,
                ) by {
                    lemma_resolved_more(had[p]@, partition_addrs@[p]@, before, table@);
                }
                assert(table@.take(old(table)@.len() as int) =~= table@.take(
                    before.len() as int,
                ).take(old(table)@.len() as int));
                assert forall|k: int| old(table)@.len() <= k < table@.len() implies serves(
                    (#[trigger] table@[k])@,
                    partition_addrs@,
                ) by {
                    if k < before.len() {
                        assert(table@.take(before.len() as int)[k] == table@[k]);
                        assert(serves(before[k]@, partition_addrs@));
                    } else {
                        assert(listed(table@[k]@, addrs@, addrs@.len() as int));
                        assert(partition_addrs@.contains_key(*partition));
                    }
                }
            }
            clients.insert(*partition, places);
        }
    }
    proof {
        assert forall|p: usize| #[trigger] partition_addrs@.contains_key(
            p,
        ) implies clients@.contains_key(p) by {
            assert(partition_addrs@.contains_key(p));
        }
    }
    clients
}

/// Returns how to reach the stages that are needed, given the addresses of those that are
/// hosted. The walk goes over the stages in order and stops at the first without addresses.
pub fn connections(
    needed: &Vec<usize>,
    stage_addrs: &HashMap<usize, HashMap<usize, Vec<String>>>,
) -> (r: Connections)
    ensures
        ({
            let n = reachable(needed@, stage_addrs@) as int;
            &&& r.missing == if n < needed@.len() {
                Some(needed@[n])
            } else {
                None
            }
            &&& clients_for(*r.clients, needed@, n, stage_addrs@, r.addresses@)
            &&& distinct(r.addresses@)
            &&& forall|k: int|
                0 <= k < r.addresses@.len() ==> wanted(
                    (#[trigger] r.addresses@[k])@,
                    needed@,
                    n,
                    stage_addrs@,
                )
        }),
{
    let mut addresses: Vec<String> = Vec::new();
    let mut clients: HashMap<usize, HashMap<usize, Vec<usize>>> = HashMap::new();
    let mut i: usize = 0;
    proof {
        assert(needed@.take(0) =~= seq![]);
    }
    while i < needed.len()
        invariant
            i <= needed.len(),
            forall|j: int| 0 <= j < i ==> stage_addrs@.contains_key(#[trigger] needed@[j]),
            clients_for(ServiceClients(clients), needed@, i as int, stage_addrs@, addresses@),
            distinct(addresses@),
            forall|k: int|
                0 <= k < addresses@.len() ==> wanted(
                    (#[trigger] addresses@[k])@,
                    needed@,
                    i as int,
                    stage_addrs@,
                ),
        decreases needed.len() - i,
    {
        let stage_id = needed[i];
        match stage_addrs.get(&stage_id) {
            None => {
                proof {
                    lemma_reachable(needed@, stage_addrs@, i as nat);
                }
                return Connections {
                    addresses,
                    clients: Arc::new(ServiceClients(clients)),
                    missing: Some(stage_id),
                };
            },
            Some(partition_addrs) => {
                let ghost before = addresses@;
                let ghost had = ServiceClients(clients);
                let served = stage_clients(partition_addrs, &mut addresses);
                let ghost added = served@;
                clients.insert(stage_id, served);
                i += 1;
                proof {
                    let now = ServiceClients(clients);
                    let n = i as int;
                    assert(needed@.take(n) =~= needed@.take(n - 1).push(stage_id));
                    assert forall|s: usize| #[trigger] now.0@.contains_key(s) <==> needed@.take(
                        n,
                    ).contains(s) by {
                        lemma_contains_next(needed@.take(n - 1), stage_id, s);
                        assert(had.0@.contains_key(s) <==> needed@.take(n - 1).contains(s));
                    }
                    assert forall|s: usize, p: usize| #[trigger]
                        now.at(s, p) is Some implies addresses_at(stage_addrs@, s, p) is Some
                        && resolved(
                        now.at(s, p)->0,
                        addresses_at(stage_addrs@, s, p)->0,
                        addresses@,
                    ) by {
                        if s == stage_id {
                            assert(added.contains_key(p));
                        } else {
                            assert(had.at(s, p) is Some);
                            lemma_resolved_more(
                                had.at(s, p)->0,
                                addresses_at(stage_addrs@, s, p)->0,
                                before,
                                addresses@,
                            );
                        }
                    }
                    assert forall|s: usize, p: usize|
                        needed@.take(n).contains(s) && #[trigger] addresses_at(
                            stage_addrs@,
                            s,
                            p,
                        ) is Some implies now.at(s, p) is Some by {
                        lemma_contains_next(needed@.take(n - 1), stage_id, s);
                        if s == stage_id {
                            assert(partition_addrs@.contains_key(p));
                            assert(added.contains_key(p));
                        } else {
                            assert(had.at(s, p) is Some);
                        }
                    }
                    assert forall|k: int| 0 <= k < addresses@.len() implies wanted(
                        (#[trigger] addresses@[k])@,
                        needed@,
                        n,
                        stage_addrs@,
                    ) by {
                        if k < before.len() {
                            assert(addresses@.take(before.len() as int)[k] == addresses@[k]);
                            assert(wanted(before[k]@, needed@, n - 1, stage_addrs@));
                            let j = choose|j: int|
                                0 <= j < n - 1 && stage_addrs@.contains_key(#[trigger] needed@[j])
                                    && serves(before[k]@, stage_addrs@[needed@[j]]@);
                            assert(stage_addrs@.contains_key(needed@[j]));
                        } else {
                            assert(serves(addresses@[k]@, partition_addrs@));
                            assert(stage_addrs@.contains_key(needed@[n - 1]));
                        }
                    }
                }
            },
        }
    }
    proof {
        lemma_reachable(needed@, stage_addrs@, i as nat);
    }
    Connections { addresses, clients: Arc::new(ServiceClients(clients)), missing: None }
}

proof fn lemma_contains_next(s: Seq<usize>, x: usize, y: usize)
    ensures
        s.push(x).contains(y) <==> s.contains(y) || y == x,
{
    assert(s.push(x)[s.len() as int] == x);
    if s.contains(y) {
        let i = choose|i: int| 0 <= i < s.len() && s[i] == y;
        assert(s.push(x)[i] == y);
    }
}

/// Returns how the plan of a stage reaches the stages that it reads, given the addresses of
/// those that are hosted.
pub fn configure_ctx(
    plan: &ExecutionPlan,
    stage_addrs: &HashMap<usize, HashMap<usize, Vec<String>>>,
) -> (r: Connections)
    ensures
        ({
            let needed = plan@.reader_ids();
            let n = reachable(needed, stage_addrs@) as int;
            &&& r.missing == if n < needed.len() {
                Some(needed[n])
            } else {
                None
            }
            &&& clients_for(*r.clients, needed, n, stage_addrs@, r.addresses@)
            &&& distinct(r.addresses@)
            &&& forall|k: int|
                0 <= k < r.addresses@.len() ==> wanted(
                    (#[trigger] r.addresses@[k])@,
                    needed,
                    n,
                    stage_addrs@,
                )
        }),
{
    connections(&plan.input_stage_ids(), stage_addrs)
}

/// The text of the error for a stage that has no addresses, where `shown` are those that
/// there are.
pub open spec fn missing_text(stage_id: usize, shown: Seq<char>) -> Seq<char> {
    "Cannot find stage addr "@ + digits(stage_id as nat) + " in "@ + shown
}

/// The plan that a processor hosts, and what it executes the plan with.
#[derive(Debug)]
pub struct DFRayProcessorHandlerInner {
    /// the physical plan that comprises our stage
    pub(crate) plan: ExecutionPlan,
    /// the clients for the stages that the plan reads
    pub(crate) clients: Arc<ServiceClients>,
    /// the partitions that we serve
    pub(crate) partition_group: PartitionGroup,
}

/// The value of a [`DFRayProcessorHandlerInner`].
pub struct InnerView {
    pub plan: Tree,
    pub clients: ServiceClients,
    pub partition_group: Seq<usize>,
}

impl View for DFRayProcessorHandlerInner {
    type V = InnerView;

    closed spec fn view(&self) -> InnerView {
        InnerView {
            plan: self.plan@,
            clients: *self.clients,
            partition_group: self.partition_group.0@,
        }
    }
}

impl DFRayProcessorHandlerInner {
    /// A processor hosts well-formed plans without stage markers.
    #[verifier::type_invariant]
    spec fn hostable(self) -> bool {
        &&& self.plan@.wf()
        &&& unmarked(self.plan@)
    }

    /// Makes the plan of a stage ready to host, once the addresses of its connections were
    /// tried. `connected` says why one of them could not be connected to, if so, and `shown`
    /// are the addresses of all stages.
    pub fn new(
        connections: Connections,
        connected: Result<(), String>,
        plan: ExecutionPlan,
        partition_group: Vec<usize>,
        shown: &str,
    ) -> (r: Result<Self, String>)
        requires
            plan@.wf(),
            unmarked(plan@),
        ensures
            match (connected, connections.missing) {
                (Err(e), _) => r matches Err(text) && text@ == e@,
                (Ok(_), Some(stage_id)) => r matches Err(text) && text@ == missing_text(
                    stage_id,
                    shown@,
                ),
                (Ok(_), None) => r matches Ok(inner) && inner@ == (InnerView {
                    plan: plan@,
                    clients: *connections.clients,
                    partition_group: partition_group@,
                }),
            },
    {
        if let Err(e) = connected {
            return Err(e);
        }
        match connections.missing {
            Some(stage_id) => {
                let head = around("Cannot find stage addr ", stage_id, " in ");
                Err(joined(head.as_str(), shown))
            },
            None => Ok(
                DFRayProcessorHandlerInner {
                    plan,
                    clients: connections.clients,
                    partition_group: PartitionGroup(partition_group),
                },
            ),
        }
    }
}

/// What a failed execution is answered with, where `error` is the failure as the query engine
/// shows it.
pub open spec fn execution_status(error: Seq<char>) -> Seq<char> {
    "Could not get partition stream from plan "@ + error
}

/// Returns the status that a failed execution is answered with, where `error` is the failure
/// as the query engine shows it.
pub fn execution_failed(error: &str) -> (r: Status)
    ensures
        r@ == internal_status(execution_status(error@)),
{
    Status::internal(joined("Could not get partition stream from plan ", error))
}

/// What asking for a partition of a hosted plan comes to. Where the rows come from an
/// operator of the query engine, the engine has still to be asked.
pub open spec fn streamed(
    inner: InnerView,
    partition: usize,
    r: Result<Source, ExecuteError>,
) -> bool {
    executed(
        located(inner.plan, partition, Some(inner.partition_group)),
        Some(&inner.clients),
        r,
    )
}

/// Returns what asking for a partition of a hosted plan comes to.
pub fn make_stream<'a>(inner: &'a DFRayProcessorHandlerInner, partition: usize) -> (r: Result<
    Source<'a>,
    ExecuteError,
>)
    ensures
        streamed(inner@, partition, r),
{
    let context = TaskContext {
        clients: Some(&*inner.clients),
        partition_group: Some(&inner.partition_group),
    };
    proof {
        use_type_invariant(inner);
        lemma_unmarked_located(inner.plan@, partition, context.group());
    }
    inner.plan.execute(partition, &context)
}

/// Serves streams of partitions of the plan that a processor hosts. It only responds to the
/// DoGet method of Flight.
#[derive(Debug)]
pub struct DFRayProcessorHandler {
    /// our name, useful for logging
    pub name: String,
    /// what we host, once there is a plan
    pub inner: Option<DFRayProcessorHandlerInner>,
}

/// What a handler that hosts `inner` answers to a ticket. Where it hosts something and the
/// ticket is one, the answer is what executing the partition comes to.
pub open spec fn answered(
    name: Seq<char>,
    inner: Option<InnerView>,
    ticket: Seq<u8>,
    r: Result<Result<Source, ExecuteError>, Status>,
) -> bool {
    match ticket_of(ticket) {
        Err(e) => r matches Err(status) && status@ == internal_status(
            name + ", Unexpected error extracting ticket "@ + e,
        ),
        Ok(t) => match inner {
            None => r matches Err(status) && status@ == internal_status(
                name + " No inner found"@,
            ),
            Some(hosted) => r matches Ok(stream) && streamed(
                hosted,
                t.partition as usize,
                stream,
            ),
        },
    }
}

impl DFRayProcessorHandler {
    /// The value of what is hosted.
    pub open spec fn hosted(self) -> Option<InnerView> {
        match self.inner {
            Some(inner) => Some(inner@),
            None => None,
        }
    }

    /// Makes a handler that hosts nothing yet.
    pub fn new(name: String) -> (r: Self)
        ensures
            r.name == name,
            r.hosted() is None,
    {
        DFRayProcessorHandler { name, inner: None }
    }

    /// Replaces what is hosted, where there is something to replace it with. Otherwise what
    /// is hosted stays as it is.
    pub fn update_plan(&mut self, inner: Result<DFRayProcessorHandlerInner, String>) -> (r: Result<
        (),
        String,
    >)
        ensures
            final(self).name == old(self).name,
            match inner {
                Ok(new) => r is Ok && final(self).hosted() == Some(new@),
                Err(e) => r == Err::<(), String>(e) && final(self).hosted() == old(self).hosted(),
            },
    {
        match inner {
            Ok(new) => {
                self.inner = Some(new);
                Ok(())
            },
            Err(e) => Err(e),
        }
    }

    /// Returns the status that a stream ends with where encoding it fails.
    pub fn building_failed(&self, error: &str) -> (r: Status)
        ensures
            r@ == internal_status(self.name@ + " Unexpected error building stream "@ + error@),
    {
        let head = joined(self.name.as_str(), " Unexpected error building stream ");
        Status::internal(joined(head.as_str(), error))
    }
}

impl FlightHandler for DFRayProcessorHandler {
    type Stream<'a> = Result<Source<'a>, ExecuteError>;

    fn get_stream<'a>(&'a self, ticket: &[u8]) -> (r: Result<
        Result<Source<'a>, ExecuteError>,
        Status,
    >)
        ensures
            answered(self.name@, self.hosted(), ticket@, r),
    {
        let partition = match extract_ticket(ticket) {
            Ok(partition) => partition,
            Err(e) => {
                let head = joined(self.name.as_str(), ", Unexpected error extracting ticket ");
                return Err(Status::internal(joined(head.as_str(), e.as_str())));
            },
        };
        match &self.inner {
            None => Err(Status::internal(joined(self.name.as_str(), " No inner found"))),
            Some(inner) => Ok(make_stream(inner, partition)),
        }
    }
}

/// A Flight service that serves streams of partitions of the plan that a processor hosts.
///
/// It is made, started up, given plans, and served once, until it is told that all is done.
#[derive(Debug)]
pub struct DFRayProcessorService {
    pub name: String,
    /// whether a socket is bound that is not served yet
    pub listener: bool,
    pub handler: DFRayProcessorHandler,
    pub addr: Option<String>,
    /// whether nothing waits to be told that all is done
    pub all_done_rx: bool,
}

/// What a service can still be served with.
pub struct Life {
    /// There is a socket.
    pub listener: bool,
    /// There is a way to be told that all is done.
    pub all_done_rx: bool,
}

/// A call of a method of a service.
pub enum Call {
    /// `start_up`, and whether it completed.
    StartUp(bool),
    UpdatePlan,
    Serve,
}

impl Life {
    /// The service can be served.
    pub open spec fn servable(self) -> bool {
        self.listener && self.all_done_rx
    }

    /// What a call leaves.
    pub open spec fn after(self, call: Call) -> Life {
        match call {
            Call::StartUp(completed) => Life {
                listener: self.listener || completed,
                all_done_rx: self.all_done_rx,
            },
            Call::UpdatePlan => self,
            Call::Serve => Life { listener: false, all_done_rx: false },
        }
    }
}

/// What the calls since a service was made leave.
pub open spec fn life_after(calls: Seq<Call>) -> Life
    decreases calls.len(),
{
    if calls.len() == 0 {
        Life { listener: false, all_done_rx: true }
    } else {
        life_after(calls.drop_last()).after(calls.last())
    }
}

/// A service can be served if and only if `start_up` completed and it was not served before.
/// Nothing makes it servable again.
pub proof fn lemma_served_once(calls: Seq<Call>)
    ensures
        life_after(calls).servable() <==> calls.contains(Call::StartUp(true)) && !calls.contains(
            Call::Serve,
        ),
{
    lemma_life(calls);
}

proof fn lemma_life(calls: Seq<Call>)
    ensures
        life_after(calls).all_done_rx <==> !calls.contains(Call::Serve),
        life_after(calls).all_done_rx ==> (life_after(calls).listener <==> calls.contains(
            Call::StartUp(true),
        )),
    decreases calls.len(),
{
    if calls.len() > 0 {
        let before = calls.drop_last();
        lemma_life(before);
        assert(calls =~= before.push(calls.last()));
        assert forall|c: Call| #[trigger] calls.contains(c) <==> before.contains(c) || c
            == calls.last() by {
            assert(calls[calls.len() - 1] == calls.last());
            if before.contains(c) {
                let i = choose|i: int| 0 <= i < before.len() && before[i] == c;
                assert(calls[i] == c);
            }
        }
    }
}

/// The address to bind to on a host: any free port.
pub open spec fn bind_address(ip: Seq<char>) -> Seq<char> {
    ip + ":0"@
}

/// Returns the address to bind to on a host.
pub fn bind_host(ip: &str) -> (s: String)
    ensures
        s@ == bind_address(ip@),
{
    joined(ip, ":0")
}

impl DFRayProcessorService {
    /// What the service can still be served with.
    pub open spec fn life(self) -> Life {
        Life { listener: self.listener, all_done_rx: self.all_done_rx }
    }

    /// Makes a service that is not bound to a socket and hosts nothing.
    pub fn new(name: String) -> (r: Self)
        ensures
            r.name@ == "["@ + name@ + "]"@,
            r.handler.name@ == r.name@,
            r.handler.hosted() is None,
            r.addr is None,
            r.life() == life_after(seq![]),
    {
        let opened = joined("[", name.as_str());
        let name = joined(opened.as_str(), "]");
        let handler = DFRayProcessorHandler::new(name.clone());
        DFRayProcessorService { name, listener: false, handler, addr: None, all_done_rx: true }
    }

    /// Records the address of the socket that the service was bound to, or returns why it was
    /// not. This comes before every other method but `new`.
    pub fn start_up(&mut self, bound: Result<String, String>) -> (r: Result<(), String>)
        ensures
            final(self).name == old(self).name,
            final(self).handler == old(self).handler,
            final(self).life() == old(self).life().after(Call::StartUp(bound is Ok)),
            match bound {
                Ok(addr) => r is Ok && final(self).addr == Some(addr),
                Err(e) => r == Err::<(), String>(e) && final(self).addr == old(self).addr,
            },
    {
        match bound {
            Ok(addr) => {
                self.listener = true;
                self.addr = Some(addr);
                Ok(())
            },
            Err(e) => Err(e),
        }
    }

    /// Returns the address of the socket of the service. There is none until it starts up.
    pub fn addr(&self) -> (r: Result<String, String>)
        ensures
            match self.addr {
                Some(addr) => r == Ok::<String, String>(addr),
                None => r matches Err(e) && e@ == self.name@ + ",Couldn't get addr"@,
            },
    {
        match &self.addr {
            Some(addr) => Ok(addr.clone()),
            None => Err(joined(self.name.as_str(), ",Couldn't get addr")),
        }
    }

    /// Replaces the plan that the service hosts, to reuse it for a later query. Where there
    /// is no plan to replace it with, it stays.
    pub fn update_plan(&mut self, inner: Result<DFRayProcessorHandlerInner, String>) -> (r: Result<
        (),
        String,
    >)
        ensures
            final(self).name == old(self).name,
            final(self).handler.name == old(self).handler.name,
            final(self).addr == old(self).addr,
            final(self).life() == old(self).life().after(Call::UpdatePlan),
            match inner {
                Ok(new) => r is Ok && final(self).handler.hosted() == Some(new@),
                Err(e) => r == Err::<(), String>(e) && final(self).handler.hosted() == old(
                    self,
                ).handler.hosted(),
            },
    {
        self.handler.update_plan(inner)
    }

    /// Returns whether the service can be served: it was started up, and not served before.
    pub fn can_serve(&self) -> (r: bool)
        ensures
            r == self.life().servable(),
    {
        self.listener && self.all_done_rx
    }

    /// Takes the socket and the wait to be told that all is done, to serve on the one until
    /// the other ends.
    pub fn serve(&mut self)
        requires
            old(self).life().servable(),
        ensures
            final(self).life() == old(self).life().after(Call::Serve),
            final(self).name == old(self).name,
            final(self).handler == old(self).handler,
            final(self).addr == old(self).addr,
    {
        self.all_done_rx = false;
        self.listener = false;
    }
}

/// The clients of a partition are those that the map of its stage holds for it.
pub proof fn lemma_clients_at(clients: ServiceClients, stage_id: usize, partition: usize)
    ensures
        clients.at(stage_id, partition) is Some <==> clients.0@.contains_key(stage_id)
            && clients.0@[stage_id]@.contains_key(partition),
        clients.at(stage_id, partition) matches Some(served) ==> served
            == clients.0@[stage_id]@[partition]@,
{
}

/// The stages that can be reached end at the first that is needed and has no addresses.
pub proof fn lemma_reachable_ends(
    needed: Seq<usize>,
    stage_addrs: Map<usize, HashMap<usize, Vec<String>>>,
)
    ensures
        reachable(needed, stage_addrs) <= needed.len(),
        forall|i: int|
            0 <= i < reachable(needed, stage_addrs) ==> stage_addrs.contains_key(
                #[trigger] needed[i],
            ),
        reachable(needed, stage_addrs) < needed.len() ==> !stage_addrs.contains_key(
            needed[reachable(needed, stage_addrs) as int],
        ),
    decreases needed.len(),
{
    if needed.len() > 0 && stage_addrs.contains_key(needed[0]) {
        let rest = needed.drop_first();
        lemma_reachable_ends(rest, stage_addrs);
        assert forall|i: int| 0 <= i < reachable(needed, stage_addrs) implies stage_addrs.contains_key(
            #[trigger] needed[i],
        ) by {
            if i > 0 {
                assert(rest[i - 1] == needed[i]);
            }
        }
    }
}

/// The clients of a stage's context reach every processor that they should: each partition of
/// each stage that can be reached has one client for each of its addresses, in order, and the
/// client is connected to that address. No other partition has clients.
pub proof fn lemma_clients_reach(
    clients: ServiceClients,
    needed: Seq<usize>,
    n: int,
    stage_addrs: Map<usize, HashMap<usize, Vec<String>>>,
    table: Seq<String>,
)
    requires
        clients_for(clients, needed, n, stage_addrs, table),
        0 <= n <= needed.len(),
        forall|i: int| 0 <= i < n ==> stage_addrs.contains_key(#[trigger] needed[i]),
    ensures
        forall|i: int, p: usize|
            0 <= i < n && #[trigger] stage_addrs[needed[i]]@.contains_key(p) ==> {
                let places = clients.0@[needed[i]]@[p]@;
                let addrs = stage_addrs[needed[i]]@[p]@;
                &&& clients.0@.contains_key(needed[i])
                &&& clients.0@[needed[i]]@.contains_key(p)
                &&& places.len() == addrs.len()
                &&& forall|a: int|
                    0 <= a < addrs.len() ==> (#[trigger] places[a]) < table.len()
                        && table[places[a] as int]@ == addrs[a]@
            },
        forall|s: usize, p: usize|
            clients.0@.contains_key(s) && #[trigger] clients.0@[s]@.contains_key(p)
                ==> stage_addrs.contains_key(s) && stage_addrs[s]@.contains_key(p) && exists|i: int|
                0 <= i < n && #[trigger] needed[i] == s,
{
    assert forall|i: int, p: usize|
        0 <= i < n && #[trigger] stage_addrs[needed[i]]@.contains_key(p) implies {
        let places = clients.0@[needed[i]]@[p]@;
        let addrs = stage_addrs[needed[i]]@[p]@;
        &&& clients.0@.contains_key(needed[i])
        &&& clients.0@[needed[i]]@.contains_key(p)
        &&& places.len() == addrs.len()
        &&& forall|a: int|
            0 <= a < addrs.len() ==> (#[trigger] places[a]) < table.len()
                && table[places[a] as int]@ == addrs[a]@
    } by {
        let s = needed[i];
        assert(needed.take(n)[i] == s);
        assert(needed.take(n).contains(s));
        assert(addresses_at(stage_addrs, s, p) is Some);
        assert(clients.at(s, p) is Some);
    }
    assert forall|s: usize, p: usize|
        clients.0@.contains_key(s) && #[trigger] clients.0@[s]@.contains_key(
            p,
        ) implies stage_addrs.contains_key(s) && stage_addrs[s]@.contains_key(p) && exists|i: int|
        0 <= i < n && #[trigger] needed[i] == s by {
        assert(clients.at(s, p) is Some);
        assert(addresses_at(stage_addrs, s, p) is Some);
        assert(needed.take(n).contains(s));
        let i = choose|i: int| 0 <= i < needed.take(n).len() && needed.take(n)[i] == s;
        assert(needed[i] == s);
    }
}

/// The addresses that are connected to are each there once, and each serves a partition of a
/// stage that is needed.
pub proof fn lemma_addresses_needed(
    table: Seq<String>,
    needed: Seq<usize>,
    n: int,
    stage_addrs: Map<usize, HashMap<usize, Vec<String>>>,
    k: int,
)
    requires
        distinct(table),
        0 <= k < table.len(),
        wanted(table[k]@, needed, n, stage_addrs),
    ensures
        forall|i: int| 0 <= i < table.len() && i != k ==> (#[trigger] table[i])@ != table[k]@,
        exists|j: int, p: usize, a: int|
            #![trigger needed[j], stage_addrs[needed[j]]@[p]@[a]]
            0 <= j < n && stage_addrs.contains_key(needed[j])
                && stage_addrs[needed[j]]@.contains_key(p) && 0 <= a
                < stage_addrs[needed[j]]@[p]@.len() && stage_addrs[needed[j]]@[p]@[a]@
                == table[k]@,
{
    let addr = table[k]@;
    let j = choose|j: int|
        0 <= j < n && stage_addrs.contains_key(#[trigger] needed[j]) && serves(
            addr,
            stage_addrs[needed[j]]@,
        );
    let served = stage_addrs[needed[j]]@;
    let p = choose|p: usize| #[trigger]
        served.contains_key(p) && listed(addr, served[p]@, served[p]@.len() as int);
    let a = choose|a: int| 0 <= a < served[p]@.len() && (#[trigger] served[p]@[a])@ == addr;
    assert(stage_addrs[needed[j]]@[p]@[a]@ == addr);
    assert forall|i: int| 0 <= i < table.len() && i != k implies (#[trigger] table[i])@
        != addr by {
        assert(i < k ==> table[i]@ != table[k]@);
        assert(k < i ==> table[k]@ != table[i]@);
    }
}

/// A ticket is answered with the partition that it asks for, of the plan that is hosted, and
/// as the processor's own group and clients have it. Bytes that are no ticket, and any ticket
/// where nothing is hosted, are answered with a failure of this side.
pub proof fn lemma_ticket_answered(
    name: Seq<char>,
    inner: Option<InnerView>,
    ticket: Seq<u8>,
    asked: FlightTicketData,
    r: Result<Result<Source, ExecuteError>, Status>,
)
    requires
        answered(name, inner, ticket, r),
    ensures
        ticket_of(ticket) is Err ==> (r matches Err(status) && status.code == Code::Internal),
        inner is None ==> (r matches Err(status) && status.code == Code::Internal),
        ticket == ticket_bytes(asked) ==> (inner matches Some(hosted) ==> (r matches Ok(stream)
            && executed(
            located(hosted.plan, asked.partition as usize, Some(hosted.partition_group)),
            Some(&hosted.clients),
            stream,
        ))),
{
    lemma_ticket_round_trip(asked);
}

} // verus!
