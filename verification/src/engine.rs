//! The engine: all mutable dataflow state, and one handler per event.
//!
//! The engine is driven by a single event loop. Each handler is a plain
//! function of the old state; where handling an event would suspend on I/O
//! (a timed send on a subscriber queue, spawning a child process), the
//! handler instead returns a plan or an action list, and a second handler
//! takes the observed outcomes back in. Nothing here performs I/O besides
//! allocating shared-memory segments, which the engine owns and frees.

use vstd::prelude::*;

use crate::assoc::{
    elems_unique, find_df_node_elem, find_pair_elem, find_pair_key, find_str, find_str_elem,
    find_u128, find_u64, keys_unique, lemma_idx_of_key, lemma_map_push, lemma_map_remove,
    lemma_map_update, lemma_set_push, lemma_set_remove, map_get, map_has, map_idx, set_has,
};
use crate::shm;
use crate::types::{
    CoordinatorEffects, CoordinatorEvent, CoordinatorReply, DeliveryOutcome, DropOutcome,
    EngineError, InputMapping, Metadata, NodeConfig, SendPlan, SendPlanData, SendPlanEntry,
    SpawnActions, StoppedEffects, TimerPlan, TimerPlanEntry,
};
use crate::RunStatus;

verus! {

/// A shared-memory segment the engine owns, with the OS identifier under
/// which subscribers map it and its byte length.
pub struct Segment {
    pub shm: shared_memory::Shmem,
    pub os_id: String,
    pub len: usize,
}

/// The segment reference of a prepared message: the engine-internal segment
/// key and the byte length. Zero-length outputs carry no segment at all.
#[derive(Clone, Copy)]
pub struct PreparedData {
    pub segment: u64,
    pub len: usize,
}

/// A pending output between prepare and send: the output data id, the
/// timestamped metadata, and the optional segment reference.
pub struct PreparedMessage {
    pub output_id: String,
    pub metadata: Metadata,
    pub data: Option<PreparedData>,
}

/// Per-dataflow routing state.
pub struct RunningDataflow {
    /// Send half (by channel handle) of each subscribed node's event queue.
    pub subscribe_channels: Vec<(String, u64)>,
    /// Routing: output `(source node, output id)` to the set of inputs
    /// `(target node, input id)` it feeds. Built at spawn time, then read-only.
    pub mappings: Vec<((String, String), Vec<(String, String)>)>,
    /// Timer interval (nanoseconds) to the set of inputs ticked at it.
    pub timers: Vec<(u64, Vec<(String, String)>)>,
    /// Per node, the set of its inputs that still have a live upstream.
    pub open_inputs: Vec<(String, Vec<String>)>,
    /// Nodes whose termination has not yet been observed.
    pub running_nodes: Vec<String>,
}

impl RunningDataflow {
    /// Every table keyed once, every set free of duplicates.
    pub open spec fn wf(self) -> bool {
        &&& keys_unique(self.subscribe_channels@)
        &&& keys_unique(self.mappings@)
        &&& keys_unique(self.timers@)
        &&& keys_unique(self.open_inputs@)
        &&& elems_unique(self.running_nodes@)
        &&& forall|i: int|
            0 <= i < self.mappings@.len() ==> elems_unique((#[trigger] self.mappings@[i]).1@)
        &&& forall|i: int|
            0 <= i < self.timers@.len() ==> elems_unique((#[trigger] self.timers@[i]).1@)
        &&& forall|i: int|
            0 <= i < self.open_inputs@.len() ==> elems_unique((#[trigger] self.open_inputs@[i]).1@)
    }

    /// A node is subscribed only while it still has at least one open input.
    /// Holds at the end of every handler, provided every subscribing node has
    /// an open input at subscribe time (a node with no configured inputs may
    /// subscribe and then stands outside this property).
    pub open spec fn subscribed_implies_open(self) -> bool {
        forall|n: Seq<char>| #[trigger]
            map_has(self.subscribe_channels@, n) ==> map_has(self.open_inputs@, n) && map_get(
                self.open_inputs@,
                n,
            )@.len() > 0
    }

    /// Record `input` as an open input of `node`.
    pub fn add_open_input(&mut self, node: &String, input: &String)
        requires
            old(self).wf(),
        ensures
            final(self).wf(),
            final(self).subscribe_channels == old(self).subscribe_channels,
            final(self).mappings == old(self).mappings,
            final(self).timers == old(self).timers,
            final(self).running_nodes == old(self).running_nodes,
            map_has(final(self).open_inputs@, node@),
            set_has(map_get(final(self).open_inputs@, node@)@, input@),
            forall|n: Seq<char>|
                n != node@ ==> #[trigger] map_has(final(self).open_inputs@, n) == map_has(
                    old(self).open_inputs@,
                    n,
                ),
            forall|n: Seq<char>|
                n != node@ && map_has(old(self).open_inputs@, n) ==> #[trigger] map_get(
                    final(self).open_inputs@,
                    n,
                ) == map_get(old(self).open_inputs@, n),
            forall|x: Seq<char>|
                map_has(old(self).open_inputs@, node@) && x != input@ ==> #[trigger] set_has(
                    map_get(final(self).open_inputs@, node@)@,
                    x,
                ) == set_has(map_get(old(self).open_inputs@, node@)@, x),
            forall|x: Seq<char>|
                !map_has(old(self).open_inputs@, node@) && x != input@ ==> !set_has(
                    map_get(final(self).open_inputs@, node@)@,
                    x,
                ),
    {
        let ghost open0 = self.open_inputs@;
        let (okey, mut oset) = match find_str(&self.open_inputs, node) {
            Some(oi) => {
                proof {
                    lemma_idx_of_key(open0, oi as int);
                }
                let pair = self.open_inputs.remove(oi);
                proof {
                    lemma_map_remove(open0, oi as int);
                    assert forall|i: int| 0 <= i < self.open_inputs@.len() implies elems_unique(
                        (#[trigger] self.open_inputs@[i]).1@,
                    ) by {
                        if i < oi {
                            assert(self.open_inputs@[i] == open0[i]);
                        } else {
                            assert(self.open_inputs@[i] == open0[i + 1]);
                        }
                    }
                }
                pair
            },
            None => (node.clone(), Vec::new()),
        };
        let ghost oset0 = oset@;
        match find_str_elem(&oset, input) {
            Some(_) => {},
            None => {
                oset.push(input.clone());
                proof {
                    lemma_set_push(oset0, oset@.last());
                    assert(oset@.drop_last() == oset0);
                }
            },
        }
        let ghost open1 = self.open_inputs@;
        self.open_inputs.push((okey, oset));
        proof {
            lemma_map_push(open1, self.open_inputs@.last().0, self.open_inputs@.last().1);
            assert(self.open_inputs@.drop_last() == open1);
            assert forall|i: int| 0 <= i < self.open_inputs@.len() implies elems_unique(
                (#[trigger] self.open_inputs@[i]).1@,
            ) by {
                if i < open1.len() {
                    assert(self.open_inputs@[i] == open1[i]);
                }
            }
        }
    }

    /// Record that the output `(source, output)` feeds the input
    /// `(node, input)`.
    pub fn add_mapping(&mut self, source: &String, output: &String, node: &String, input: &String)
        requires
            old(self).wf(),
        ensures
            final(self).wf(),
            final(self).subscribe_channels == old(self).subscribe_channels,
            final(self).open_inputs == old(self).open_inputs,
            final(self).timers == old(self).timers,
            final(self).running_nodes == old(self).running_nodes,
            map_has(final(self).mappings@, (source@, output@)),
            set_has(map_get(final(self).mappings@, (source@, output@))@, (node@, input@)),
            forall|k: (Seq<char>, Seq<char>)|
                k != (source@, output@) ==> #[trigger] map_has(final(self).mappings@, k) == map_has(
                    old(self).mappings@,
                    k,
                ),
            forall|k: (Seq<char>, Seq<char>)|
                k != (source@, output@) && map_has(old(self).mappings@, k) ==> #[trigger] map_get(
                    final(self).mappings@,
                    k,
                ) == map_get(old(self).mappings@, k),
            forall|x: (Seq<char>, Seq<char>)|
                map_has(old(self).mappings@, (source@, output@)) && x != (node@, input@)
                    ==> #[trigger] set_has(map_get(final(self).mappings@, (source@, output@))@, x)
                    == set_has(map_get(old(self).mappings@, (source@, output@))@, x),
            forall|x: (Seq<char>, Seq<char>)|
                !map_has(old(self).mappings@, (source@, output@)) && x != (node@, input@)
                    ==> !set_has(map_get(final(self).mappings@, (source@, output@))@, x),
    {
        let ghost maps0 = self.mappings@;
        let (mkey, mut mset) = match find_pair_key(&self.mappings, source, output) {
            Some(mi) => {
                proof {
                    lemma_idx_of_key(maps0, mi as int);
                }
                let pair = self.mappings.remove(mi);
                proof {
                    lemma_map_remove(maps0, mi as int);
                    assert forall|i: int| 0 <= i < self.mappings@.len() implies elems_unique(
                        (#[trigger] self.mappings@[i]).1@,
                    ) by {
                        if i < mi {
                            assert(self.mappings@[i] == maps0[i]);
                        } else {
                            assert(self.mappings@[i] == maps0[i + 1]);
                        }
                    }
                }
                pair
            },
            None => ((source.clone(), output.clone()), Vec::new()),
        };
        let ghost mset0 = mset@;
        match find_pair_elem(&mset, node, input) {
            Some(_) => {},
            None => {
                mset.push((node.clone(), input.clone()));
                proof {
                    lemma_set_push(mset0, mset@.last());
                    assert(mset@.drop_last() == mset0);
                }
            },
        }
        let ghost maps1 = self.mappings@;
        self.mappings.push((mkey, mset));
        proof {
            lemma_map_push(maps1, self.mappings@.last().0, self.mappings@.last().1);
            assert(self.mappings@.drop_last() == maps1);
            assert forall|i: int| 0 <= i < self.mappings@.len() implies elems_unique(
                (#[trigger] self.mappings@[i]).1@,
            ) by {
                if i < maps1.len() {
                    assert(self.mappings@[i] == maps1[i]);
                }
            }
        }
    }

    /// Record that the input `(node, input)` is ticked every
    /// `interval_nanos` nanoseconds.
    pub fn add_timer(&mut self, interval_nanos: u64, node: &String, input: &String)
        requires
            old(self).wf(),
        ensures
            final(self).wf(),
            final(self).subscribe_channels == old(self).subscribe_channels,
            final(self).open_inputs == old(self).open_inputs,
            final(self).mappings == old(self).mappings,
            final(self).running_nodes == old(self).running_nodes,
            map_has(final(self).timers@, interval_nanos),
            set_has(map_get(final(self).timers@, interval_nanos)@, (node@, input@)),
            forall|k: u64|
                k != interval_nanos ==> #[trigger] map_has(final(self).timers@, k) == map_has(
                    old(self).timers@,
                    k,
                ),
            forall|k: u64|
                k != interval_nanos && map_has(old(self).timers@, k) ==> #[trigger] map_get(
                    final(self).timers@,
                    k,
                ) == map_get(old(self).timers@, k),
            forall|x: (Seq<char>, Seq<char>)|
                map_has(old(self).timers@, interval_nanos) && x != (node@, input@)
                    ==> #[trigger] set_has(map_get(final(self).timers@, interval_nanos)@, x)
                    == set_has(map_get(old(self).timers@, interval_nanos)@, x),
            forall|x: (Seq<char>, Seq<char>)|
                !map_has(old(self).timers@, interval_nanos) && x != (node@, input@) ==> !set_has(
                    map_get(final(self).timers@, interval_nanos)@,
                    x,
                ),
    {
        let ghost tim0 = self.timers@;
        let (tkey, mut tset) = match find_u64(&self.timers, interval_nanos) {
            Some(i) => {
                proof {
                    lemma_idx_of_key(tim0, i as int);
                }
                let pair = self.timers.remove(i);
                proof {
                    lemma_map_remove(tim0, i as int);
                    assert forall|i2: int| 0 <= i2 < self.timers@.len() implies elems_unique(
                        (#[trigger] self.timers@[i2]).1@,
                    ) by {
                        if i2 < i {
                            assert(self.timers@[i2] == tim0[i2]);
                        } else {
                            assert(self.timers@[i2] == tim0[i2 + 1]);
                        }
                    }
                }
                pair
            },
            None => (interval_nanos, Vec::new()),
        };
        let ghost tset0 = tset@;
        match find_pair_elem(&tset, node, input) {
            Some(_) => {},
            None => {
                tset.push((node.clone(), input.clone()));
                proof {
                    lemma_set_push(tset0, tset@.last());
                    assert(tset@.drop_last() == tset0);
                }
            },
        }
        let ghost tim1 = self.timers@;
        self.timers.push((tkey, tset));
        proof {
            lemma_map_push(tim1, self.timers@.last().0, self.timers@.last().1);
            assert(self.timers@.drop_last() == tim1);
            assert forall|i2: int| 0 <= i2 < self.timers@.len() implies elems_unique(
                (#[trigger] self.timers@[i2]).1@,
            ) by {
                if i2 < tim1.len() {
                    assert(self.timers@[i2] == tim1[i2]);
                }
            }
        }
    }

    /// A dataflow with no state at all, as installed by a fresh spawn.
    pub fn empty() -> (r: RunningDataflow)
        ensures
            r.wf(),
            r.subscribe_channels@.len() == 0,
            r.mappings@.len() == 0,
            r.timers@.len() == 0,
            r.open_inputs@.len() == 0,
            r.running_nodes@.len() == 0,
    {
        RunningDataflow {
            subscribe_channels: Vec::new(),
            mappings: Vec::new(),
            timers: Vec::new(),
            open_inputs: Vec::new(),
            running_nodes: Vec::new(),
        }
    }
}

/// Node identifiers are distinct and each node's input identifiers are
/// distinct, as the map-shaped wire messages guarantee.
pub open spec fn nodes_config_wf(ns: Seq<NodeConfig>) -> bool {
    &&& forall|i: int, j: int|
        0 <= i < j < ns.len() ==> (#[trigger] ns[i]).node_id@ != (#[trigger] ns[j]).node_id@
    &&& forall|n: int| 0 <= n < ns.len() ==> keys_unique((#[trigger] ns[n]).inputs@)
}

/// The mapping names a sub-operator, which the engine rejects.
pub open spec fn mapping_has_operator(m: InputMapping) -> bool {
    match m {
        InputMapping::User { source: _, output: _, operator } => operator is Some,
        InputMapping::Timer { .. } => false,
    }
}

/// Some configured input of some node names a sub-operator.
pub open spec fn has_operator(ns: Seq<NodeConfig>) -> bool {
    exists|i: int, j: int|
        0 <= i < ns.len() && 0 <= j < (#[trigger] ns[i]).inputs@.len() && mapping_has_operator(
            (#[trigger] ns[i].inputs@[j]).1,
        )
}

/// Configured input `j` of node `nc` is installed in `df`: open, routed or
/// timed as configured, and it names no sub-operator.
pub open spec fn input_installed_at(df: RunningDataflow, nc: NodeConfig, j: int) -> bool {
    0 <= j < nc.inputs@.len() ==> {
        let inp = nc.inputs@[j].0;
        &&& map_has(df.open_inputs@, nc.node_id@)
        &&& set_has(map_get(df.open_inputs@, nc.node_id@)@, inp@)
        &&& !mapping_has_operator(nc.inputs@[j].1)
        &&& (nc.inputs@[j].1 matches InputMapping::User { source, output, operator: _ }
            ==> map_has(df.mappings@, (source@, output@)) && set_has(
            map_get(df.mappings@, (source@, output@))@,
            (nc.node_id@, inp@),
        ))
        &&& (nc.inputs@[j].1 matches InputMapping::Timer { interval_nanos } ==> map_has(
            df.timers@,
            interval_nanos,
        ) && set_has(map_get(df.timers@, interval_nanos)@, (nc.node_id@, inp@)))
    }
}

/// The first `upto` configured inputs of node `nc` are installed in `df`.
pub open spec fn inputs_installed(df: RunningDataflow, nc: NodeConfig, upto: int) -> bool {
    forall|j: int| 0 <= j < upto ==> #[trigger] input_installed_at(df, nc, j)
}

/// The first `upto` nodes are installed in `df`: running, with all of their
/// inputs installed.
pub open spec fn nodes_installed(df: RunningDataflow, ns: Seq<NodeConfig>, upto: int) -> bool {
    forall|i: int|
        0 <= i < upto && i < ns.len() ==> set_has(
            df.running_nodes@,
            (#[trigger] ns[i]).node_id@,
        ) && inputs_installed(df, ns[i], ns[i].inputs@.len() as int)
}

/// Some configured input within the processed range (the nodes before `n`,
/// and the first `jj` inputs of node `n`) is input `inp` of node `node`.
pub open spec fn cfg_open_in_range(
    ns: Seq<NodeConfig>,
    n: int,
    jj: int,
    node: Seq<char>,
    inp: Seq<char>,
) -> bool {
    exists|i: int, j: int|
        0 <= i < ns.len() && 0 <= j < (#[trigger] ns[i]).inputs@.len() && (i < n || (i == n && j
            < jj)) && ns[i].node_id@ == node && (#[trigger] ns[i].inputs@[j]).0@ == inp
}

/// Some configured input within the processed range is a user mapping from
/// the output `key` to the input `target`.
pub open spec fn cfg_mapping_in_range(
    ns: Seq<NodeConfig>,
    n: int,
    jj: int,
    key: (Seq<char>, Seq<char>),
    target: (Seq<char>, Seq<char>),
) -> bool {
    exists|i: int, j: int|
        0 <= i < ns.len() && 0 <= j < (#[trigger] ns[i]).inputs@.len() && (i < n || (i == n && j
            < jj)) && ns[i].node_id@ == target.0 && (#[trigger] ns[i].inputs@[j]).0@ == target.1
            && ((ns[i].inputs@[j]).1 matches InputMapping::User { source, output, operator: _ }
            && (source@, output@) == key)
}

/// Some configured input within the processed range is a timer input at
/// `interval` for the input `target`.
pub open spec fn cfg_timer_in_range(
    ns: Seq<NodeConfig>,
    n: int,
    jj: int,
    interval: u64,
    target: (Seq<char>, Seq<char>),
) -> bool {
    exists|i: int, j: int|
        0 <= i < ns.len() && 0 <= j < (#[trigger] ns[i]).inputs@.len() && (i < n || (i == n && j
            < jj)) && ns[i].node_id@ == target.0 && (#[trigger] ns[i].inputs@[j]).0@ == target.1
            && ((ns[i].inputs@[j]).1 matches InputMapping::Timer { interval_nanos } && interval_nanos
            == interval)
}

/// The routing tables hold nothing beyond the processed configuration: every
/// open input, mapping link and timer link traces back to a configured input
/// within the range, and no table keeps an empty entry.
pub open spec fn tables_from_config(df: RunningDataflow, ns: Seq<NodeConfig>, n: int, jj: int) -> bool {
    &&& forall|node: Seq<char>, inp: Seq<char>|
        map_has(df.open_inputs@, node) && #[trigger] set_has(map_get(df.open_inputs@, node)@, inp)
            ==> cfg_open_in_range(ns, n, jj, node, inp)
    &&& forall|node: Seq<char>| #[trigger]
        map_has(df.open_inputs@, node) ==> map_get(df.open_inputs@, node)@.len() > 0
    &&& forall|key: (Seq<char>, Seq<char>), p: (Seq<char>, Seq<char>)|
        map_has(df.mappings@, key) && #[trigger] set_has(map_get(df.mappings@, key)@, p)
            ==> cfg_mapping_in_range(ns, n, jj, key, p)
    &&& forall|key: (Seq<char>, Seq<char>)| #[trigger]
        map_has(df.mappings@, key) ==> map_get(df.mappings@, key)@.len() > 0
    &&& forall|t: u64, p: (Seq<char>, Seq<char>)|
        map_has(df.timers@, t) && #[trigger] set_has(map_get(df.timers@, t)@, p)
            ==> cfg_timer_in_range(ns, n, jj, t, p)
    &&& forall|t: u64| #[trigger] map_has(df.timers@, t) ==> map_get(df.timers@, t)@.len() > 0
}

/// A freshly spawned dataflow, exactly: no subscribers yet, every configured
/// node running with every configured input installed, and nothing running
/// or routed beyond the configuration.
pub open spec fn dataflow_installed(df: RunningDataflow, ns: Seq<NodeConfig>) -> bool {
    &&& df.subscribe_channels@.len() == 0
    &&& nodes_installed(df, ns, ns.len() as int)
    &&& forall|y: Seq<char>| #[trigger]
        set_has(df.running_nodes@, y) ==> exists|i: int|
            0 <= i < ns.len() && (#[trigger] ns[i]).node_id@ == y
    &&& tables_from_config(df, ns, ns.len() as int, 0)
}

/// The views of a list of string pairs.
pub open spec fn pair_views(s: Seq<(String, String)>) -> Seq<(Seq<char>, Seq<char>)> {
    Seq::new(s.len(), |i: int| (s[i].0@, s[i].1@))
}

/// The `(receiver, input)` routing targets fed by the node's outputs, in
/// table order.
pub open spec fn downstream_targets(
    ms: Seq<((String, String), Vec<(String, String)>)>,
    node: Seq<char>,
) -> Seq<(Seq<char>, Seq<char>)>
    decreases ms.len(),
{
    if ms.len() == 0 {
        Seq::empty()
    } else {
        let rest = downstream_targets(ms.drop_last(), node);
        if ms.last().0.0@ == node {
            rest + pair_views(ms.last().1@)
        } else {
            rest
        }
    }
}

/// The targets whose receiver holds a channel, in order: exactly the inputs
/// a stop closes downstream.
pub open spec fn closed_pairs(
    chans: Seq<(String, u64)>,
    ts: Seq<(Seq<char>, Seq<char>)>,
) -> Seq<(Seq<char>, Seq<char>)>
    decreases ts.len(),
{
    if ts.len() == 0 {
        Seq::empty()
    } else {
        let rest = closed_pairs(chans, ts.drop_last());
        if map_has(chans, ts.last().0) {
            rest.push(ts.last())
        } else {
            rest
        }
    }
}

/// The pair occurs in the list.
pub open spec fn pair_listed(s: Seq<(Seq<char>, Seq<char>)>, p: (Seq<char>, Seq<char>)) -> bool {
    exists|k: int| 0 <= k < s.len() && s[k] == p
}

/// Some listed pair names this receiver.
pub open spec fn receiver_listed(s: Seq<(Seq<char>, Seq<char>)>, r: Seq<char>) -> bool {
    exists|k: int| 0 <= k < s.len() && (#[trigger] s[k]).0 == r
}

/// Every member of the list is the named node (vacuously true of an empty
/// list): removing that node empties the list.
pub open spec fn lone_member(s: Seq<String>, n: Seq<char>) -> bool {
    forall|i: int| 0 <= i < s.len() ==> (#[trigger] s[i]).deep_view() == n
}

/// The segment a prepared message references, if any.
pub open spec fn prep_seg(m: PreparedMessage) -> Option<u64> {
    match m.data {
        Some(d) => Some(d.segment),
        None => None,
    }
}

/// Some remaining drop token references segment `g`.
pub open spec fn seg_referenced(s: Seq<(u64, u64)>, g: u64) -> bool {
    exists|i: int| 0 <= i < s.len() && (#[trigger] s[i]).1 == g
}

/// The reference discipline over segments: every reference from a prepared
/// message or a drop token resolves to a live segment; a segment is never
/// referenced by a prepared message and a drop token at once (it migrates
/// from the prepared table to the token table on send); and no two prepared
/// messages share a segment.
pub open spec fn refs_ok(
    p: Seq<(String, PreparedMessage)>,
    s: Seq<(u64, Segment)>,
    t: Seq<(u64, u64)>,
) -> bool {
    &&& forall|i: int|
        0 <= i < p.len() ==> ((#[trigger] p[i]).1.data matches Some(d) ==> map_has(s, d.segment))
    &&& forall|i: int| 0 <= i < t.len() ==> map_has(s, (#[trigger] t[i]).1)
    &&& forall|i: int, j: int|
        0 <= i < p.len() && 0 <= j < t.len() ==> ((#[trigger] p[i]).1.data matches Some(d) ==> (
        #[trigger] t[j]).1 != d.segment)
    &&& forall|i: int, j: int|
        0 <= i < j < p.len() ==> (prep_seg((#[trigger] p[i]).1) is Some ==> prep_seg(p[i].1)
            != prep_seg((#[trigger] p[j]).1))
}

/// Removing a prepared message keeps the reference discipline.
pub proof fn lemma_refs_ok_prep_remove(
    p: Seq<(String, PreparedMessage)>,
    s: Seq<(u64, Segment)>,
    t: Seq<(u64, u64)>,
    i: int,
)
    requires
        refs_ok(p, s, t),
        0 <= i < p.len(),
    ensures
        refs_ok(p.remove(i), s, t),
{
    let q = p.remove(i);
    assert forall|a: int| 0 <= a < q.len() implies ((#[trigger] q[a]).1.data matches Some(d)
        ==> map_has(s, d.segment)) by {
        let a0: int = if a < i {
            a
        } else {
            a + 1
        };
        assert(q[a] == p[a0]);
    }
    assert forall|a: int, b: int| 0 <= a < q.len() && 0 <= b < t.len() implies ((
    #[trigger] q[a]).1.data matches Some(d) ==> (#[trigger] t[b]).1 != d.segment) by {
        let a0: int = if a < i {
            a
        } else {
            a + 1
        };
        assert(q[a] == p[a0]);
    }
    assert forall|a: int, b: int| 0 <= a < b < q.len() implies (prep_seg((#[trigger] q[a]).1)
        is Some ==> prep_seg(q[a].1) != prep_seg((#[trigger] q[b]).1)) by {
        let a0: int = if a < i {
            a
        } else {
            a + 1
        };
        let b0: int = if b < i {
            b
        } else {
            b + 1
        };
        assert(q[a] == p[a0]);
        assert(q[b] == p[b0]);
    }
}

/// Adding a prepared message whose segment (if any) is live, unshared and
/// untokened keeps the reference discipline.
pub proof fn lemma_refs_ok_prep_push(
    p: Seq<(String, PreparedMessage)>,
    s: Seq<(u64, Segment)>,
    t: Seq<(u64, u64)>,
    h: String,
    m: PreparedMessage,
)
    requires
        refs_ok(p, s, t),
        m.data matches Some(d) ==> map_has(s, d.segment) && (forall|j: int|
            0 <= j < t.len() ==> (#[trigger] t[j]).1 != d.segment) && (forall|i: int|
            0 <= i < p.len() ==> prep_seg((#[trigger] p[i]).1) != Some(d.segment)),
    ensures
        refs_ok(p.push((h, m)), s, t),
{
    let q = p.push((h, m));
    assert forall|a: int| 0 <= a < q.len() implies ((#[trigger] q[a]).1.data matches Some(d)
        ==> map_has(s, d.segment)) by {
        if a < p.len() {
            assert(q[a] == p[a]);
        }
    }
    assert forall|a: int, b: int| 0 <= a < q.len() && 0 <= b < t.len() implies ((
    #[trigger] q[a]).1.data matches Some(d) ==> (#[trigger] t[b]).1 != d.segment) by {
        if a < p.len() {
            assert(q[a] == p[a]);
        }
    }
    assert forall|a: int, b: int| 0 <= a < b < q.len() implies (prep_seg((#[trigger] q[a]).1)
        is Some ==> prep_seg(q[a].1) != prep_seg((#[trigger] q[b]).1)) by {
        if b < p.len() {
            assert(q[a] == p[a]);
            assert(q[b] == p[b]);
        } else {
            assert(q[a] == p[a]);
            assert(q[b] == (h, m));
            match m.data {
                Some(d) => {
                    assert(prep_seg(p[a].1) != Some(d.segment));
                },
                None => {},
            }
        }
    }
}

/// Adding a segment keeps the reference discipline (references only ever
/// point at keys that stay present).
pub proof fn lemma_refs_ok_seg_push(
    p: Seq<(String, PreparedMessage)>,
    s: Seq<(u64, Segment)>,
    t: Seq<(u64, u64)>,
    e: (u64, Segment),
)
    requires
        refs_ok(p, s, t),
    ensures
        refs_ok(p, s.push(e), t),
{
    let s2 = s.push(e);
    assert forall|g: u64| map_has(s, g) implies map_has(s2, g) by {
        let x = map_idx(s, g);
        assert(s2[x].0 == g);
    }
}

/// Removing a segment that nothing references keeps the reference discipline.
pub proof fn lemma_refs_ok_seg_remove(
    p: Seq<(String, PreparedMessage)>,
    s: Seq<(u64, Segment)>,
    t: Seq<(u64, u64)>,
    j: int,
)
    requires
        refs_ok(p, s, t),
        keys_unique(s),
        0 <= j < s.len(),
        forall|i: int| 0 <= i < p.len() ==> prep_seg((#[trigger] p[i]).1) != Some(s[j].0),
        forall|i: int| 0 <= i < t.len() ==> (#[trigger] t[i]).1 != s[j].0,
    ensures
        refs_ok(p, s.remove(j), t),
{
    lemma_map_remove(s, j);
    assert forall|a: int| 0 <= a < p.len() implies ((#[trigger] p[a]).1.data matches Some(d)
        ==> map_has(s.remove(j), d.segment)) by {
        match p[a].1.data {
            Some(d) => {
                assert(prep_seg(p[a].1) == Some(d.segment));
                assert(d.segment != s[j].0);
            },
            None => {},
        }
    }
    assert forall|a: int| 0 <= a < t.len() implies map_has(s.remove(j), (#[trigger] t[a]).1) by {
        assert(t[a].1 != s[j].0);
    }
}

/// Recording a drop token for a live segment that no prepared message
/// references keeps the reference discipline.
pub proof fn lemma_refs_ok_sent_push(
    p: Seq<(String, PreparedMessage)>,
    s: Seq<(u64, Segment)>,
    t: Seq<(u64, u64)>,
    e: (u64, u64),
)
    requires
        refs_ok(p, s, t),
        map_has(s, e.1),
        forall|i: int| 0 <= i < p.len() ==> prep_seg((#[trigger] p[i]).1) != Some(e.1),
    ensures
        refs_ok(p, s, t.push(e)),
{
    let t2 = t.push(e);
    assert forall|a: int| 0 <= a < t2.len() implies map_has(s, (#[trigger] t2[a]).1) by {
        if a < t.len() {
            assert(t2[a] == t[a]);
        }
    }
    assert forall|a: int, b: int| 0 <= a < p.len() && 0 <= b < t2.len() implies ((
    #[trigger] p[a]).1.data matches Some(d) ==> (#[trigger] t2[b]).1 != d.segment) by {
        if b < t.len() {
            assert(t2[b] == t[b]);
        } else {
            match p[a].1.data {
                Some(d) => {
                    assert(prep_seg(p[a].1) == Some(d.segment));
                },
                None => {},
            }
        }
    }
}

/// Releasing a drop token keeps the reference discipline.
pub proof fn lemma_refs_ok_sent_remove(
    p: Seq<(String, PreparedMessage)>,
    s: Seq<(u64, Segment)>,
    t: Seq<(u64, u64)>,
    i: int,
)
    requires
        refs_ok(p, s, t),
        0 <= i < t.len(),
    ensures
        refs_ok(p, s, t.remove(i)),
{
    let t2 = t.remove(i);
    assert forall|a: int| 0 <= a < t2.len() implies map_has(s, (#[trigger] t2[a]).1) by {
        let a0: int = if a < i {
            a
        } else {
            a + 1
        };
        assert(t2[a] == t[a0]);
    }
    assert forall|a: int, b: int| 0 <= a < p.len() && 0 <= b < t2.len() implies ((
    #[trigger] p[a]).1.data matches Some(d) ==> (#[trigger] t2[b]).1 != d.segment) by {
        let b0: int = if b < i {
            b
        } else {
            b + 1
        };
        assert(t2[b] == t[b0]);
    }
}

/// How many drop tokens reference segment `g`.
pub open spec fn seg_token_count(s: Seq<(u64, u64)>, g: u64) -> nat
    decreases s.len(),
{
    if s.len() == 0 {
        0
    } else {
        seg_token_count(s.drop_last(), g) + if s.last().1 == g {
            1nat
        } else {
            0nat
        }
    }
}

/// The targets of a fan-out that are currently subscribed, in target order:
/// the `(receiver, input)` pairs of `targets` whose receiver has a channel.
pub open spec fn filter_subscribed(
    chans: Seq<(String, u64)>,
    targets: Seq<(String, String)>,
) -> Seq<(Seq<char>, Seq<char>)>
    decreases targets.len(),
{
    if targets.len() == 0 {
        Seq::empty()
    } else {
        let rest = filter_subscribed(chans, targets.drop_last());
        if map_has(chans, targets.last().0@) {
            rest.push((targets.last().0@, targets.last().1@))
        } else {
            rest
        }
    }
}

/// Total number of routing targets over all mapping entries; every fan-out
/// of the dataflow mints at most this many drop tokens.
pub open spec fn targets_budget(ms: Seq<((String, String), Vec<(String, String)>)>) -> int
    decreases ms.len(),
{
    if ms.len() == 0 {
        0
    } else {
        targets_budget(ms.drop_last()) + ms.last().1@.len()
    }
}

pub proof fn lemma_targets_budget_nonneg(ms: Seq<((String, String), Vec<(String, String)>)>)
    ensures
        targets_budget(ms) >= 0,
    decreases ms.len(),
{
    if ms.len() > 0 {
        lemma_targets_budget_nonneg(ms.drop_last());
    }
}

/// The budget only grows as more mapping entries are counted.
pub proof fn lemma_targets_budget_mono(ms: Seq<((String, String), Vec<(String, String)>)>, k: int)
    requires
        0 <= k <= ms.len(),
    ensures
        targets_budget(ms.subrange(0, k)) <= targets_budget(ms),
    decreases ms.len() - k,
{
    if k == ms.len() {
        assert(ms.subrange(0, k) =~= ms);
    } else {
        assert(ms.subrange(0, k + 1).drop_last() =~= ms.subrange(0, k));
        assert(ms.subrange(0, k + 1).last() == ms[k]);
        lemma_targets_budget_mono(ms, k + 1);
    }
}

/// Each single mapping entry is within the budget.
pub proof fn lemma_targets_budget_bound(
    ms: Seq<((String, String), Vec<(String, String)>)>,
    i: int,
)
    requires
        0 <= i < ms.len(),
    ensures
        ms[i].1@.len() <= targets_budget(ms),
    decreases ms.len(),
{
    if i == ms.len() - 1 {
        lemma_targets_budget_nonneg(ms.drop_last());
    } else {
        lemma_targets_budget_bound(ms.drop_last(), i);
        assert(ms.drop_last()[i] == ms[i]);
    }
}

/// Among the first `k` planned deliveries, some entry carries token `t` and
/// was delivered.
pub open spec fn delivered_before(
    es: Seq<SendPlanEntry>,
    os: Seq<DeliveryOutcome>,
    k: int,
    t: u64,
) -> bool {
    exists|i: int|
        0 <= i < k && i < es.len() && (#[trigger] es[i]).drop_token == t && os[i]
            == DeliveryOutcome::Delivered
}

/// Some planned delivery carries token `t` and was delivered.
pub open spec fn delivered_token(es: Seq<SendPlanEntry>, os: Seq<DeliveryOutcome>, t: u64) -> bool {
    delivered_before(es, os, es.len() as int, t)
}

/// Some planned delivery was delivered.
pub open spec fn any_delivered(os: Seq<DeliveryOutcome>) -> bool {
    exists|i: int| 0 <= i < os.len() && os[i] == DeliveryOutcome::Delivered
}

/// Among the first `k` planned deliveries, receiver `n` was found closed.
pub open spec fn closed_before(
    es: Seq<SendPlanEntry>,
    os: Seq<DeliveryOutcome>,
    k: int,
    n: Seq<char>,
) -> bool {
    exists|i: int|
        0 <= i < k && i < es.len() && (#[trigger] es[i]).receiver@ == n && os[i]
            == DeliveryOutcome::Closed
}

/// Some planned delivery found receiver `n` closed.
pub open spec fn closed_receiver(
    es: Seq<SendPlanEntry>,
    os: Seq<DeliveryOutcome>,
    n: Seq<char>,
) -> bool {
    closed_before(es, os, es.len() as int, n)
}

impl SendPlan {
    /// What `finish_send` relies on: the dataflow is still there, the minted
    /// tokens are fresh and distinct, and the segment (if any) is live,
    /// unshared and not yet tokened. `start_send` establishes all of it.
    pub open spec fn valid(self, e: Engine) -> bool {
        &&& map_has(e.running@, self.dataflow_id)
        &&& forall|i: int, j: int|
            0 <= i < j < self.entries@.len() ==> (#[trigger] self.entries@[i]).drop_token != (
            #[trigger] self.entries@[j]).drop_token
        &&& forall|i: int|
            0 <= i < self.entries@.len() ==> !map_has(
                e.sent_out@,
                (#[trigger] self.entries@[i]).drop_token,
            ) && self.entries@[i].drop_token < e.next_token
        &&& (self.data matches Some(pd) ==> map_has(e.segments@, pd.segment) && (forall|i: int|
            0 <= i < e.prepared@.len() ==> prep_seg((#[trigger] e.prepared@[i]).1) != Some(
                pd.segment,
            )) && (forall|i: int| 0 <= i < e.sent_out@.len() ==> (#[trigger] e.sent_out@[i]).1
            != pd.segment))
    }
}

/// The engine: event-driven message routing and resource lifecycle for every
/// dataflow running on this machine.
pub struct Engine {
    /// Pending outputs, keyed by prepare handle (the OS identifier of the
    /// allocated segment, or a synthetic identifier for zero-length outputs).
    pub prepared: Vec<(String, PreparedMessage)>,
    /// Shared-memory segments the engine owns, by engine-internal key.
    /// Removing an entry drops the mapping and reclaims its backing.
    pub segments: Vec<(u64, Segment)>,
    /// Drop-token accounting: token to the segment key it keeps alive.
    pub sent_out: Vec<(u64, u64)>,
    /// Running dataflows by identifier.
    pub running: Vec<(u128, RunningDataflow)>,
    /// Next drop token to mint; every outstanding token is below it.
    pub next_token: u64,
    /// Next segment key to mint; every live segment key is below it.
    pub next_segment: u64,
    /// In standalone mode, the `(dataflow, node)` pairs whose termination the
    /// loop waits for before exiting.
    pub exit_when_done: Option<Vec<(u128, String)>>,
}

impl Engine {
    /// Tables keyed once; every segment reference resolves; a segment is
    /// never referenced by a prepared message and a drop token at once;
    /// minted keys stay below their counters.
    pub open spec fn wf(self) -> bool {
        &&& keys_unique(self.prepared@)
        &&& keys_unique(self.segments@)
        &&& keys_unique(self.sent_out@)
        &&& keys_unique(self.running@)
        &&& forall|i: int| 0 <= i < self.running@.len() ==> (#[trigger] self.running@[i]).1.wf()
        &&& refs_ok(self.prepared@, self.segments@, self.sent_out@)
        &&& forall|i: int| 0 <= i < self.sent_out@.len() ==> (#[trigger] self.sent_out@[i]).0
            < self.next_token
        &&& forall|i: int| 0 <= i < self.segments@.len() ==> (#[trigger] self.segments@[i]).0
            < self.next_segment
        &&& (self.exit_when_done matches Some(v) ==> elems_unique(v@))
    }

    /// A fresh engine with no dataflows, no pending outputs and no segments.
    pub fn new(exit_when_done: Option<Vec<(u128, String)>>) -> (r: Engine)
        requires
            exit_when_done matches Some(v) ==> elems_unique(v@),
        ensures
            r.wf(),
            r.prepared@.len() == 0,
            r.segments@.len() == 0,
            r.sent_out@.len() == 0,
            r.running@.len() == 0,
            r.exit_when_done == exit_when_done,
    {
        Engine {
            prepared: Vec::new(),
            segments: Vec::new(),
            sent_out: Vec::new(),
            running: Vec::new(),
            next_token: 0,
            next_segment: 0,
            exit_when_done,
        }
    }

    /// Install a dataflow: one running node per configuration entry, each
    /// configured input recorded as open and either routed from its upstream
    /// output or timed. Rejects a duplicate dataflow identifier outright
    /// (changing nothing) and a sub-operator mapping mid-way (leaving the
    /// partial installation in place, as the coordinator is expected to stop
    /// or destroy it). On success the process spawns the returned nodes, in
    /// order, and starts one tick task per returned timer interval.
    pub fn spawn_dataflow(&mut self, dataflow_id: u128, nodes: &Vec<NodeConfig>) -> (r: Result<
        SpawnActions,
        EngineError,
    >)
        requires
            old(self).wf(),
            nodes_config_wf(nodes@),
        ensures
            final(self).wf(),
            final(self).prepared == old(self).prepared,
            final(self).segments == old(self).segments,
            final(self).sent_out == old(self).sent_out,
            final(self).next_token == old(self).next_token,
            final(self).next_segment == old(self).next_segment,
            final(self).exit_when_done == old(self).exit_when_done,
            map_has(old(self).running@, dataflow_id) ==> (r matches Err(e) && e
                == (EngineError::DuplicateDataflow { dataflow_id })) && *final(self) == *old(self),
            !map_has(old(self).running@, dataflow_id) ==> {
                let df2 = map_get(final(self).running@, dataflow_id);
                &&& (r is Ok <==> !has_operator(nodes@))
                &&& (r matches Err(e) ==> e == EngineError::OperatorsNotSupported)
                &&& map_has(final(self).running@, dataflow_id)
                &&& df2.subscribe_channels@.len() == 0
                &&& df2.subscribed_implies_open()
                &&& (r is Ok ==> dataflow_installed(df2, nodes@))
                &&& forall|d: u128|
                    d != dataflow_id ==> #[trigger] map_has(final(self).running@, d) == map_has(
                        old(self).running@,
                        d,
                    )
                &&& forall|d: u128|
                    d != dataflow_id && map_has(old(self).running@, d) ==> #[trigger] map_get(
                        final(self).running@,
                        d,
                    ) == map_get(old(self).running@, d)
            },
            r matches Ok(a) ==> {
                let df2 = map_get(final(self).running@, dataflow_id);
                &&& a.spawn_nodes@.len() == nodes@.len()
                &&& forall|i: int|
                    0 <= i < nodes@.len() ==> (#[trigger] a.spawn_nodes@[i])@ == nodes@[i].node_id@
                &&& a.timer_intervals@.len() == df2.timers@.len()
                &&& forall|i: int|
                    0 <= i < df2.timers@.len() ==> #[trigger] a.timer_intervals@[i]
                        == df2.timers@[i].0
            },
    {
        match find_u128(&self.running, dataflow_id) {
            Some(i) => {
                proof {
                    lemma_idx_of_key(self.running@, i as int);
                }
                return Err(EngineError::DuplicateDataflow { dataflow_id });
            },
            None => {},
        }
        let mut df = RunningDataflow::empty();
        let mut spawn_nodes: Vec<String> = Vec::new();
        let mut n: usize = 0;
        while n < nodes.len()
            invariant
                n <= nodes@.len(),
                nodes_config_wf(nodes@),
                old(self).wf(),
                self.prepared == old(self).prepared,
                self.segments == old(self).segments,
                self.sent_out == old(self).sent_out,
                self.running == old(self).running,
                self.next_token == old(self).next_token,
                self.next_segment == old(self).next_segment,
                self.exit_when_done == old(self).exit_when_done,
                !map_has(old(self).running@, dataflow_id),
                df.wf(),
                df.subscribe_channels@.len() == 0,
                spawn_nodes@.len() == n,
                forall|i: int|
                    0 <= i < n ==> (#[trigger] spawn_nodes@[i])@ == nodes@[i].node_id@,
                nodes_installed(df, nodes@, n as int),
                tables_from_config(df, nodes@, n as int, 0),
                forall|y: Seq<char>| #[trigger]
                    set_has(df.running_nodes@, y) ==> exists|i: int|
                        0 <= i < n && (#[trigger] nodes@[i]).node_id@ == y,
            decreases nodes@.len() - n,
        {
            let node_id_n = &nodes[n].node_id;
            let ghost df_node_pre = df;
            let ghost nodes_set0 = df.running_nodes@;
            match find_str_elem(&df.running_nodes, node_id_n) {
                Some(dup_i) => {
                    proof {
                        assert(df.running_nodes@[dup_i as int].deep_view() == node_id_n@);
                        assert(set_has(df.running_nodes@, node_id_n@));
                        let i = choose|i: int|
                            0 <= i < n && (#[trigger] nodes@[i]).node_id@ == node_id_n@;
                        assert(nodes@[i].node_id@ != nodes@[n as int].node_id@);
                        assert(false);
                    }
                },
                None => {
                    df.running_nodes.push(node_id_n.clone());
                    proof {
                        lemma_set_push(nodes_set0, df.running_nodes@.last());
                        assert(df.running_nodes@.drop_last() == nodes_set0);
                    }
                },
            }
            proof {
                assert forall|i: int| 0 <= i < n as int implies set_has(
                    df.running_nodes@,
                    (#[trigger] nodes@[i]).node_id@,
                ) && inputs_installed(df, nodes@[i], nodes@[i].inputs@.len() as int) by {
                    assert(set_has(df_node_pre.running_nodes@, nodes@[i].node_id@));
                    assert(nodes@[i].node_id@ != nodes@[n as int].node_id@);
                    assert(inputs_installed(df_node_pre, nodes@[i], nodes@[i].inputs@.len() as int));
                    assert forall|j: int|
                        0 <= j < nodes@[i].inputs@.len() implies #[trigger] input_installed_at(
                        df,
                        nodes@[i],
                        j,
                    ) by {
                        assert(input_installed_at(df_node_pre, nodes@[i], j));
                    }
                }
            }
            let mut ii: usize = 0;
            while ii < nodes[n].inputs.len()
                invariant
                    n < nodes@.len(),
                    node_id_n@ == nodes@[n as int].node_id@,
                    ii <= nodes@[n as int].inputs@.len(),
                    nodes_config_wf(nodes@),
                    old(self).wf(),
                    self.prepared == old(self).prepared,
                    self.segments == old(self).segments,
                    self.sent_out == old(self).sent_out,
                    self.running == old(self).running,
                    self.next_token == old(self).next_token,
                    self.next_segment == old(self).next_segment,
                    self.exit_when_done == old(self).exit_when_done,
                    !map_has(old(self).running@, dataflow_id),
                    df.wf(),
                    df.subscribe_channels@.len() == 0,
                    spawn_nodes@.len() == n,
                    forall|i: int|
                        0 <= i < n ==> (#[trigger] spawn_nodes@[i])@ == nodes@[i].node_id@,
                    nodes_installed(df, nodes@, n as int),
                    tables_from_config(df, nodes@, n as int, ii as int),
                    set_has(df.running_nodes@, nodes@[n as int].node_id@),
                    inputs_installed(df, nodes@[n as int], ii as int),
                    forall|y: Seq<char>| #[trigger]
                        set_has(df.running_nodes@, y) ==> exists|i: int|
                            0 <= i < n + 1 && (#[trigger] nodes@[i]).node_id@ == y,
                decreases nodes@[n as int].inputs@.len() - ii,
            {
                let ghost df_pre = df;
                let ghost mut df_mid = df;
                let input_id = &nodes[n].inputs[ii].0;
                match &nodes[n].inputs[ii].1 {
                    InputMapping::User { source, output, operator } => {
                        df.add_open_input(node_id_n, input_id);
                        proof {
                            df_mid = df;
                        }
                        if operator.is_some() {
                            // the partial installation stays in place
                            let ghost running1 = self.running@;
                            self.running.push((dataflow_id, df));
                            proof {
                                lemma_map_push(running1, dataflow_id, self.running@.last().1);
                                assert(self.running@.drop_last() == running1);
                                assert forall|j: int| 0 <= j < self.running@.len() implies (
                                #[trigger] self.running@[j]).1.wf() by {
                                    if j < running1.len() {
                                        assert(self.running@[j] == running1[j]);
                                    }
                                }
                                assert(mapping_has_operator(nodes@[n as int].inputs@[ii as int].1));
                            }
                            return Err(EngineError::OperatorsNotSupported);
                        }
                        df.add_mapping(source, output, node_id_n, input_id);
                    },
                    InputMapping::Timer { interval_nanos } => {
                        df.add_open_input(node_id_n, input_id);
                        proof {
                            df_mid = df;
                        }
                        df.add_timer(*interval_nanos, node_id_n, input_id);
                    },
                }
                proof {
                    let nc = nodes@[n as int];
                    let ns = nodes@;
                    assert(keys_unique(nc.inputs@));
                    assert forall|j: int| 0 <= j < ii as int + 1 implies #[trigger]
                        input_installed_at(df, nc, j) by {
                        if j < ii as int {
                            assert(input_installed_at(df_pre, nc, j));
                            assert(nc.inputs@[j].0@ != nc.inputs@[ii as int].0@);
                        }
                    }
                    // completeness: everything in the tables traces to a
                    // configured input among those processed so far
                    assert forall|node: Seq<char>, inp: Seq<char>|
                        map_has(df.open_inputs@, node) && #[trigger] set_has(
                            map_get(df.open_inputs@, node)@,
                            inp,
                        ) implies cfg_open_in_range(ns, n as int, ii as int + 1, node, inp) by {
                        if map_has(df_pre.open_inputs@, node) && set_has(
                            map_get(df_pre.open_inputs@, node)@,
                            inp,
                        ) {
                            assert(cfg_open_in_range(ns, n as int, ii as int, node, inp));
                            let (i, j) = choose|i: int, j: int|
                                0 <= i < ns.len() && 0 <= j < (#[trigger] ns[i]).inputs@.len() && (i
                                    < n as int || (i == n as int && j < ii as int))
                                    && ns[i].node_id@ == node && (#[trigger] ns[i].inputs@[j]).0@
                                    == inp;
                            assert(i < n as int || (i == n as int && j < ii as int + 1));
                        } else {
                            // the pair just recorded, at node n, input ii
                            assert(node == nc.node_id@ && inp == nc.inputs@[ii as int].0@);
                            assert((ii as int) < nc.inputs@.len());
                        }
                    }
                    assert forall|key: (Seq<char>, Seq<char>), p: (Seq<char>, Seq<char>)|
                        map_has(df.mappings@, key) && #[trigger] set_has(
                            map_get(df.mappings@, key)@,
                            p,
                        ) implies cfg_mapping_in_range(ns, n as int, ii as int + 1, key, p) by {
                        if map_has(df_pre.mappings@, key) && set_has(
                            map_get(df_pre.mappings@, key)@,
                            p,
                        ) {
                            assert(cfg_mapping_in_range(ns, n as int, ii as int, key, p));
                            let (i, j) = choose|i: int, j: int|
                                0 <= i < ns.len() && 0 <= j < (#[trigger] ns[i]).inputs@.len() && (i
                                    < n as int || (i == n as int && j < ii as int))
                                    && ns[i].node_id@ == p.0 && (#[trigger] ns[i].inputs@[j]).0@
                                    == p.1 && ((ns[i].inputs@[j]).1 matches InputMapping::User {
                                    source,
                                    output,
                                    operator: _,
                                } && (source@, output@) == key);
                            assert(i < n as int || (i == n as int && j < ii as int + 1));
                        } else {
                            // the user link just recorded
                            assert(df_mid.mappings == df_pre.mappings);
                            assert(p == (nc.node_id@, nc.inputs@[ii as int].0@));
                            assert((ii as int) < nc.inputs@.len());
                        }
                    }
                    assert forall|t: u64, p: (Seq<char>, Seq<char>)|
                        map_has(df.timers@, t) && #[trigger] set_has(
                            map_get(df.timers@, t)@,
                            p,
                        ) implies cfg_timer_in_range(ns, n as int, ii as int + 1, t, p) by {
                        if map_has(df_pre.timers@, t) && set_has(map_get(df_pre.timers@, t)@, p) {
                            assert(cfg_timer_in_range(ns, n as int, ii as int, t, p));
                            let (i, j) = choose|i: int, j: int|
                                0 <= i < ns.len() && 0 <= j < (#[trigger] ns[i]).inputs@.len() && (i
                                    < n as int || (i == n as int && j < ii as int))
                                    && ns[i].node_id@ == p.0 && (#[trigger] ns[i].inputs@[j]).0@
                                    == p.1 && ((ns[i].inputs@[j]).1 matches InputMapping::Timer {
                                    interval_nanos,
                                } && interval_nanos == t);
                            assert(i < n as int || (i == n as int && j < ii as int + 1));
                        } else {
                            // the timer link just recorded
                            assert(df_mid.timers == df_pre.timers);
                            assert(p == (nc.node_id@, nc.inputs@[ii as int].0@));
                            assert((ii as int) < nc.inputs@.len());
                        }
                    }
                    assert forall|i: int| 0 <= i < n as int implies set_has(
                        df.running_nodes@,
                        (#[trigger] nodes@[i]).node_id@,
                    ) && inputs_installed(df, nodes@[i], nodes@[i].inputs@.len() as int) by {
                        assert(set_has(df_pre.running_nodes@, nodes@[i].node_id@));
                        assert(inputs_installed(df_pre, nodes@[i], nodes@[i].inputs@.len() as int));
                        assert(nodes@[i].node_id@ != nodes@[n as int].node_id@);
                        assert forall|j: int|
                            0 <= j < nodes@[i].inputs@.len() implies #[trigger] input_installed_at(
                            df,
                            nodes@[i],
                            j,
                        ) by {
                            assert(input_installed_at(df_pre, nodes@[i], j));
                        }
                    }
                }
                ii += 1;
            }
            spawn_nodes.push(node_id_n.clone());
            n += 1;
        }
        let mut timer_intervals: Vec<u64> = Vec::new();
        let mut t: usize = 0;
        while t < df.timers.len()
            invariant
                t <= df.timers@.len(),
                timer_intervals@.len() == t,
                forall|i: int|
                    0 <= i < t ==> #[trigger] timer_intervals@[i] == df.timers@[i].0,
            decreases df.timers@.len() - t,
        {
            timer_intervals.push(df.timers[t].0);
            t += 1;
        }
        let ghost running1 = self.running@;
        self.running.push((dataflow_id, df));
        proof {
            lemma_map_push(running1, dataflow_id, self.running@.last().1);
            assert(self.running@.drop_last() == running1);
            assert forall|j: int| 0 <= j < self.running@.len() implies (
            #[trigger] self.running@[j]).1.wf() by {
                if j < running1.len() {
                    assert(self.running@[j] == running1[j]);
                }
            }
            if has_operator(nodes@) {
                let (i, j) = choose|i: int, j: int|
                    0 <= i < nodes@.len() && 0 <= j < (#[trigger] nodes@[i]).inputs@.len()
                        && mapping_has_operator((#[trigger] nodes@[i].inputs@[j]).1);
                assert(inputs_installed(map_get(self.running@, dataflow_id), nodes@[i],
                nodes@[i].inputs@.len() as int));
                assert(input_installed_at(map_get(self.running@, dataflow_id), nodes@[i], j));
                assert(false);
            }
        }
        Ok(SpawnActions { spawn_nodes, timer_intervals })
    }

    /// Install a node's event queue under its id, replacing any earlier one.
    /// Fails, changing nothing, exactly when the dataflow is unknown.
    pub fn handle_subscribe(&mut self, dataflow_id: u128, node_id: &String, channel: u64) -> (r:
        Result<(), EngineError>)
        requires
            old(self).wf(),
        ensures
            final(self).wf(),
            final(self).prepared == old(self).prepared,
            final(self).segments == old(self).segments,
            final(self).sent_out == old(self).sent_out,
            final(self).next_token == old(self).next_token,
            final(self).next_segment == old(self).next_segment,
            final(self).exit_when_done == old(self).exit_when_done,
            r is Err <==> !map_has(old(self).running@, dataflow_id),
            r matches Err(e) ==> e == (EngineError::NoSuchDataflow { dataflow_id }) && *final(self)
                == *old(self),
            r is Ok ==> {
                let df = map_get(old(self).running@, dataflow_id);
                let df2 = map_get(final(self).running@, dataflow_id);
                &&& map_has(final(self).running@, dataflow_id)
                &&& map_has(df2.subscribe_channels@, node_id.deep_view())
                &&& map_get(df2.subscribe_channels@, node_id.deep_view()) == channel
                &&& forall|n: Seq<char>|
                    n != node_id.deep_view() ==> #[trigger] map_has(df2.subscribe_channels@, n)
                        == map_has(df.subscribe_channels@, n)
                &&& forall|n: Seq<char>|
                    n != node_id.deep_view() && map_has(df.subscribe_channels@, n)
                        ==> #[trigger] map_get(df2.subscribe_channels@, n) == map_get(
                        df.subscribe_channels@,
                        n,
                    )
                &&& df2.mappings == df.mappings
                &&& df2.timers == df.timers
                &&& df2.open_inputs == df.open_inputs
                &&& df2.running_nodes == df.running_nodes
                &&& (df.subscribed_implies_open() && map_has(df.open_inputs@, node_id@)
                    && map_get(df.open_inputs@, node_id@)@.len() > 0
                    ==> df2.subscribed_implies_open())
                &&& forall|d: u128|
                    d != dataflow_id ==> #[trigger] map_has(final(self).running@, d) == map_has(
                        old(self).running@,
                        d,
                    )
                &&& forall|d: u128|
                    d != dataflow_id && map_has(old(self).running@, d) ==> #[trigger] map_get(
                        final(self).running@,
                        d,
                    ) == map_get(old(self).running@, d)
            },
    {
        let i = match find_u128(&self.running, dataflow_id) {
            None => {
                return Err(EngineError::NoSuchDataflow { dataflow_id });
            },
            Some(i) => i,
        };
        proof {
            lemma_idx_of_key(self.running@, i as int);
        }
        let ghost running0 = self.running@;
        let (_, mut df) = self.running.remove(i);
        proof {
            lemma_map_remove(running0, i as int);
            assert forall|j: int| 0 <= j < self.running@.len() implies (
            #[trigger] self.running@[j]).1.wf() by {
                if j < i {
                    assert(self.running@[j] == running0[j]);
                } else {
                    assert(self.running@[j] == running0[j + 1]);
                }
            }
        }
        let ghost chans0 = df.subscribe_channels@;
        match find_str(&df.subscribe_channels, node_id) {
            Some(j) => {
                df.subscribe_channels.remove(j);
                proof {
                    lemma_map_remove(chans0, j as int);
                }
            },
            None => {},
        }
        let ghost chans1 = df.subscribe_channels@;
        df.subscribe_channels.push((node_id.clone(), channel));
        proof {
            lemma_map_push(chans1, df.subscribe_channels@.last().0, channel);
            assert(df.subscribe_channels@.drop_last() == chans1);
        }
        let ghost running1 = self.running@;
        self.running.push((dataflow_id, df));
        proof {
            lemma_map_push(running1, dataflow_id, self.running@.last().1);
            assert(self.running@.drop_last() == running1);
            assert forall|j: int| 0 <= j < self.running@.len() implies (
            #[trigger] self.running@[j]).1.wf() by {
                if j < running1.len() {
                    assert(self.running@[j] == running1[j]);
                }
            }
        }
        Ok(())
    }

    /// Reserve a pending output. A positive `data_len` allocates a
    /// shared-memory segment of that size and uses its OS identifier as the
    /// prepare handle; a zero-length output allocates nothing and gets a
    /// synthetic handle. The handle goes back to the producer, which echoes
    /// it in its send request. A failed allocation is reported to the
    /// producer and changes nothing.
    pub fn handle_prepare(&mut self, output_id: String, metadata: Metadata, data_len: usize) -> (r:
        Result<String, EngineError>)
        requires
            old(self).wf(),
            data_len > 0 ==> old(self).next_segment < u64::MAX,
        ensures
            final(self).wf(),
            final(self).sent_out == old(self).sent_out,
            final(self).running == old(self).running,
            final(self).next_token == old(self).next_token,
            final(self).exit_when_done == old(self).exit_when_done,
            r matches Err(e) ==> e == EngineError::SharedMemoryAllocation && data_len > 0
                && *final(self) == *old(self),
            data_len == 0 ==> r is Ok,
            r matches Ok(h) ==> {
                let m = map_get(final(self).prepared@, h@);
                &&& map_has(final(self).prepared@, h@)
                &&& m.output_id@ == output_id@
                &&& m.metadata == metadata
                &&& (data_len == 0 ==> m.data is None && h@.len() == 36 && final(self).segments
                    == old(self).segments && final(self).next_segment == old(self).next_segment)
                &&& (data_len > 0 ==> {
                    &&& m.data matches Some(d) && d.segment == old(self).next_segment && d.len
                        == data_len
                    &&& map_has(final(self).segments@, old(self).next_segment)
                    &&& map_get(final(self).segments@, old(self).next_segment).len == data_len
                    &&& map_get(final(self).segments@, old(self).next_segment).os_id@ == h@
                    &&& forall|g: u64|
                        g != old(self).next_segment ==> #[trigger] map_has(final(self).segments@, g)
                            == map_has(old(self).segments@, g)
                    &&& forall|g: u64|
                        g != old(self).next_segment && map_has(old(self).segments@, g)
                            ==> #[trigger] map_get(final(self).segments@, g) == map_get(
                            old(self).segments@,
                            g,
                        )
                    &&& final(self).next_segment == old(self).next_segment + 1
                })
                &&& forall|k: Seq<char>|
                    k != h@ ==> #[trigger] map_has(final(self).prepared@, k) == map_has(
                        old(self).prepared@,
                        k,
                    )
                &&& forall|k: Seq<char>|
                    k != h@ && map_has(old(self).prepared@, k) ==> #[trigger] map_get(
                        final(self).prepared@,
                        k,
                    ) == map_get(old(self).prepared@, k)
            },
    {
        let (handle, data, segment) = if data_len > 0 {
            let seg = match shm::alloc_segment(data_len) {
                Ok(s) => s,
                Err(_) => {
                    return Err(EngineError::SharedMemoryAllocation);
                },
            };
            let os_id = shm::segment_os_id(&seg);
            let d = PreparedData { segment: self.next_segment, len: data_len };
            (os_id, Some(d), Some(seg))
        } else {
            (shm::fresh_synthetic_id(), None, None)
        };
        // a handle collision replaces the stale entry, as a map insert would
        let ghost prep0 = self.prepared@;
        match find_str(&self.prepared, &handle) {
            Some(i) => {
                proof {
                    lemma_idx_of_key(prep0, i as int);
                }
                self.prepared.remove(i);
                proof {
                    lemma_map_remove(prep0, i as int);
                    lemma_refs_ok_prep_remove(prep0, self.segments@, self.sent_out@, i as int);
                }
            },
            None => {},
        }
        let ghost prep1 = self.prepared@;
        proof {
            // no existing reference names the key about to be minted: every
            // live reference is below the segment counter
            assert forall|a: int| 0 <= a < prep1.len() implies prep_seg((#[trigger] prep1[a]).1)
                != Some(self.next_segment) by {
                match prep1[a].1.data {
                    Some(d2) => {
                        assert(map_has(self.segments@, d2.segment));
                        let x = map_idx(self.segments@, d2.segment);
                        assert(self.segments@[x].0 == d2.segment);
                    },
                    None => {},
                }
            }
            assert forall|b: int| 0 <= b < self.sent_out@.len() implies (
            #[trigger] self.sent_out@[b]).1 != self.next_segment by {
                assert(map_has(self.segments@, self.sent_out@[b].1));
                let x = map_idx(self.segments@, self.sent_out@[b].1);
                assert(self.segments@[x].0 == self.sent_out@[b].1);
            }
        }
        match segment {
            Some(seg) => {
                let key = self.next_segment;
                self.next_segment = self.next_segment + 1;
                let ghost segs0 = self.segments@;
                self.segments.push(
                    (key, Segment { shm: seg, os_id: handle.clone(), len: data_len }),
                );
                proof {
                    if map_has(segs0, key) {
                        let a = map_idx(segs0, key);
                        assert(segs0[a].0 < key);
                    }
                    lemma_map_push(segs0, key, self.segments@.last().1);
                    assert(self.segments@.drop_last() == segs0);
                    lemma_refs_ok_seg_push(prep1, segs0, self.sent_out@, self.segments@.last());
                    assert(self.segments@ == segs0.push(self.segments@.last()));
                }
            },
            None => {},
        }
        let message = PreparedMessage { output_id, metadata, data };
        self.prepared.push((handle.clone(), message));
        proof {
            lemma_map_push(prep1, self.prepared@.last().0, self.prepared@.last().1);
            assert(self.prepared@.drop_last() == prep1);
            lemma_refs_ok_prep_push(
                prep1,
                self.segments@,
                self.sent_out@,
                self.prepared@.last().0,
                self.prepared@.last().1,
            );
            assert(self.prepared@ == prep1.push(self.prepared@.last()));
        }
        Ok(handle)
    }

    /// Forget a prepared message whose producer could not receive the prepare
    /// reply, freeing its segment: the producer will never send it, and
    /// keeping it would leak the segment. A handle that is not pending (the
    /// usual case) changes nothing.
    pub fn rollback_prepared(&mut self, handle: &String)
        requires
            old(self).wf(),
        ensures
            final(self).wf(),
            final(self).sent_out == old(self).sent_out,
            final(self).running == old(self).running,
            final(self).next_token == old(self).next_token,
            final(self).next_segment == old(self).next_segment,
            final(self).exit_when_done == old(self).exit_when_done,
            !map_has(old(self).prepared@, handle@) ==> *final(self) == *old(self),
            map_has(old(self).prepared@, handle@) ==> {
                let m = map_get(old(self).prepared@, handle@);
                &&& !map_has(final(self).prepared@, handle@)
                &&& forall|k: Seq<char>|
                    k != handle@ ==> #[trigger] map_has(final(self).prepared@, k) == map_has(
                        old(self).prepared@,
                        k,
                    )
                &&& forall|k: Seq<char>|
                    k != handle@ && map_has(old(self).prepared@, k) ==> #[trigger] map_get(
                        final(self).prepared@,
                        k,
                    ) == map_get(old(self).prepared@, k)
                &&& (m.data is None ==> final(self).segments == old(self).segments)
                &&& (m.data matches Some(d) ==> !map_has(final(self).segments@, d.segment) && forall|
                    g: u64,
                |
                    g != d.segment ==> #[trigger] map_has(final(self).segments@, g) == map_has(
                        old(self).segments@,
                        g,
                    ))
            },
    {
        let i = match find_str(&self.prepared, handle) {
            None => {
                return ;
            },
            Some(i) => i,
        };
        proof {
            lemma_idx_of_key(self.prepared@, i as int);
        }
        let ghost prep0 = self.prepared@;
        let (_, message) = self.prepared.remove(i);
        proof {
            lemma_map_remove(prep0, i as int);
            lemma_refs_ok_prep_remove(prep0, self.segments@, self.sent_out@, i as int);
        }
        match message.data {
            None => {},
            Some(d) => {
                proof {
                    assert(prep_seg(prep0[i as int].1) == Some(d.segment));
                }
                let ghost segs0 = self.segments@;
                match find_u64(&self.segments, d.segment) {
                    Some(j) => {
                        proof {
                            lemma_idx_of_key(segs0, j as int);
                            // nothing else references the rolled-back segment:
                            // prepared messages never share one, and a prepared
                            // segment carries no drop token yet
                            assert forall|a: int| 0 <= a < self.prepared@.len() implies prep_seg(
                                (#[trigger] self.prepared@[a]).1,
                            ) != Some(segs0[j as int].0) by {
                                let a0: int = if a < i {
                                    a
                                } else {
                                    a + 1
                                };
                                assert(self.prepared@[a] == prep0[a0]);
                                if a0 < i {
                                    assert(prep_seg(prep0[a0].1) is Some ==> prep_seg(prep0[a0].1)
                                        != prep_seg(prep0[i as int].1));
                                } else {
                                    assert(prep_seg(prep0[i as int].1) is Some ==> prep_seg(
                                        prep0[i as int].1,
                                    ) != prep_seg(prep0[a0].1));
                                }
                            }
                            assert forall|b: int| 0 <= b < self.sent_out@.len() implies (
                            #[trigger] self.sent_out@[b]).1 != segs0[j as int].0 by {
                                assert(prep0[i as int].1.data matches Some(d2) ==> self.sent_out@[b].1
                                    != d2.segment);
                            }
                            lemma_refs_ok_seg_remove(
                                self.prepared@,
                                segs0,
                                self.sent_out@,
                                j as int,
                            );
                            lemma_map_remove(segs0, j as int);
                        }
                        self.segments.remove(j);
                        proof {
                            assert forall|a: int| 0 <= a < self.segments@.len() implies (
                            #[trigger] self.segments@[a]).0 < self.next_segment by {
                                if a < j {
                                    assert(self.segments@[a] == segs0[a]);
                                } else {
                                    assert(self.segments@[a] == segs0[a + 1]);
                                }
                            }
                        }
                    },
                    None => {
                        proof {
                            assert(map_has(segs0, d.segment));
                            assert(false);
                        }
                    },
                }
            },
        }
    }

    /// Whether a send on this dataflow is sure to have drop tokens left:
    /// the token counter has headroom for one token per routing target.
    /// Callers check this once before `start_send`; only a counter near the
    /// end of its 64-bit range can fail it.
    pub fn can_start_send(&self, dataflow_id: u128) -> (r: bool)
        requires
            self.wf(),
        ensures
            r <==> (map_has(self.running@, dataflow_id) ==> self.next_token as int
                + targets_budget(map_get(self.running@, dataflow_id).mappings@)
                <= u64::MAX as int),
    {
        let i = match find_u128(&self.running, dataflow_id) {
            None => {
                return true;
            },
            Some(i) => i,
        };
        proof {
            lemma_idx_of_key(self.running@, i as int);
        }
        let df = &self.running[i].1;
        let mut acc: u128 = self.next_token as u128;
        let mut k: usize = 0;
        while k < df.mappings.len()
            invariant
                k <= df.mappings@.len(),
                acc <= u64::MAX as u128,
                acc as int == self.next_token as int + targets_budget(
                    df.mappings@.subrange(0, k as int),
                ),
                map_has(self.running@, dataflow_id),
                map_get(self.running@, dataflow_id).mappings@ == df.mappings@,
            decreases df.mappings@.len() - k,
        {
            acc = acc + df.mappings[k].1.len() as u128;
            proof {
                assert(df.mappings@.subrange(0, k as int + 1).drop_last() =~= df.mappings@.subrange(
                    0,
                    k as int,
                ));
                assert(df.mappings@.subrange(0, k as int + 1).last() == df.mappings@[k as int]);
            }
            k += 1;
            if acc > u64::MAX as u128 {
                proof {
                    lemma_targets_budget_mono(df.mappings@, k as int);
                }
                return false;
            }
        }
        proof {
            assert(df.mappings@.subrange(0, df.mappings@.len() as int) =~= df.mappings@);
        }
        true
    }

    /// Commit a prepared message: take it out of the prepared table and plan
    /// one delivery per subscribed routing target, each with a freshly minted
    /// drop token. The process performs the timed sends and hands the
    /// outcomes to `finish_send`. Fails on an unknown handle (changing
    /// nothing) or, after consuming the message and releasing its segment,
    /// on an unknown dataflow.
    pub fn start_send(&mut self, dataflow_id: u128, node_id: &String, handle: &String) -> (r:
        Result<SendPlan, EngineError>)
        requires
            old(self).wf(),
            map_has(old(self).running@, dataflow_id) ==> old(self).next_token as int
                + targets_budget(map_get(old(self).running@, dataflow_id).mappings@)
                <= u64::MAX as int,
        ensures
            final(self).wf(),
            final(self).running == old(self).running,
            final(self).sent_out == old(self).sent_out,
            final(self).next_segment == old(self).next_segment,
            final(self).exit_when_done == old(self).exit_when_done,
            r is Err <==> (!map_has(old(self).prepared@, handle@) || !map_has(
                old(self).running@,
                dataflow_id,
            )),
            !map_has(old(self).prepared@, handle@) ==> (r matches Err(e) && e
                == EngineError::UnknownSharedMemoryId) && *final(self) == *old(self),
            map_has(old(self).prepared@, handle@) ==> {
                let msg = map_get(old(self).prepared@, handle@);
                &&& !map_has(final(self).prepared@, handle@)
                &&& forall|k: Seq<char>|
                    k != handle@ ==> #[trigger] map_has(final(self).prepared@, k) == map_has(
                        old(self).prepared@,
                        k,
                    )
                &&& forall|k: Seq<char>|
                    k != handle@ && map_has(old(self).prepared@, k) ==> #[trigger] map_get(
                        final(self).prepared@,
                        k,
                    ) == map_get(old(self).prepared@, k)
                &&& (!map_has(old(self).running@, dataflow_id) ==> (r matches Err(e) && e
                    == (EngineError::NoSuchDataflow { dataflow_id })) && final(self).next_token
                    == old(self).next_token && (msg.data matches Some(d) ==> !map_has(
                    final(self).segments@,
                    d.segment,
                ) && forall|g: u64|
                    g != d.segment ==> #[trigger] map_has(final(self).segments@, g) == map_has(
                        old(self).segments@,
                        g,
                    )) && (msg.data is None ==> final(self).segments == old(self).segments))
            },
            r matches Ok(plan) ==> {
                let msg = map_get(old(self).prepared@, handle@);
                let df = map_get(old(self).running@, dataflow_id);
                let targets = if map_has(df.mappings@, (node_id@, msg.output_id@)) {
                    map_get(df.mappings@, (node_id@, msg.output_id@))@
                } else {
                    Seq::<(String, String)>::empty()
                };
                let filtered = filter_subscribed(df.subscribe_channels@, targets);
                &&& map_has(old(self).prepared@, handle@)
                &&& map_has(old(self).running@, dataflow_id)
                &&& final(self).segments == old(self).segments
                &&& plan.dataflow_id == dataflow_id
                &&& plan.metadata == msg.metadata
                &&& (msg.data is None ==> plan.data is None)
                &&& (msg.data matches Some(d) ==> plan.data matches Some(pd) && pd.segment
                    == d.segment && pd.len == d.len && pd.shared_memory_id@ == handle@)
                &&& plan.entries@.len() == filtered.len()
                &&& forall|i: int|
                    0 <= i < plan.entries@.len() ==> {
                        let en = #[trigger] plan.entries@[i];
                        &&& en.receiver@ == filtered[i].0
                        &&& en.input@ == filtered[i].1
                        &&& en.channel == map_get(df.subscribe_channels@, filtered[i].0)
                        &&& en.drop_token == old(self).next_token + i
                    }
                &&& final(self).next_token == old(self).next_token + filtered.len()
                &&& plan.valid(*final(self))
            },
    {
        match find_str(&self.prepared, handle) {
            None => {
                return Err(EngineError::UnknownSharedMemoryId);
            },
            Some(i) => {
                proof {
                    lemma_idx_of_key(self.prepared@, i as int);
                }
            },
        };
        let d_idx = match find_u128(&self.running, dataflow_id) {
            None => {
                self.rollback_prepared(handle);
                return Err(EngineError::NoSuchDataflow { dataflow_id });
            },
            Some(j) => j,
        };
        proof {
            lemma_idx_of_key(self.running@, d_idx as int);
        }
        let i = match find_str(&self.prepared, handle) {
            None => {
                return Err(EngineError::UnknownSharedMemoryId);
            },
            Some(i) => i,
        };
        proof {
            lemma_idx_of_key(self.prepared@, i as int);
        }
        let ghost prep0 = self.prepared@;
        let (_, message) = self.prepared.remove(i);
        proof {
            lemma_map_remove(prep0, i as int);
            lemma_refs_ok_prep_remove(prep0, self.segments@, self.sent_out@, i as int);
            // the committed segment is now referenced by nothing at all
            match message.data {
                Some(d) => {
                    assert(prep_seg(prep0[i as int].1) == Some(d.segment));
                    assert forall|a: int| 0 <= a < self.prepared@.len() implies prep_seg(
                        (#[trigger] self.prepared@[a]).1,
                    ) != Some(d.segment) by {
                        let a0: int = if a < i {
                            a
                        } else {
                            a + 1
                        };
                        assert(self.prepared@[a] == prep0[a0]);
                        if a0 < i {
                            assert(prep_seg(prep0[a0].1) is Some ==> prep_seg(prep0[a0].1)
                                != prep_seg(prep0[i as int].1));
                        } else {
                            assert(prep_seg(prep0[i as int].1) is Some ==> prep_seg(
                                prep0[i as int].1,
                            ) != prep_seg(prep0[a0].1));
                        }
                    }
                    assert forall|b: int| 0 <= b < self.sent_out@.len() implies (
                    #[trigger] self.sent_out@[b]).1 != d.segment by {
                        assert(prep0[i as int].1.data matches Some(d2) ==> self.sent_out@[b].1
                            != d2.segment);
                    }
                },
                None => {},
            }
        }
        let plan_data = match &message.data {
            Some(d) => Some(
                SendPlanData { segment: d.segment, shared_memory_id: handle.clone(), len: d.len },
            ),
            None => None,
        };
        let base = self.next_token;
        let df = &self.running[d_idx].1;
        let ghost chans = df.subscribe_channels@;
        let mut entries: Vec<SendPlanEntry> = Vec::new();
        match find_pair_key(&df.mappings, node_id, &message.output_id) {
            None => {},
            Some(mi) => {
                proof {
                    lemma_idx_of_key(df.mappings@, mi as int);
                    lemma_targets_budget_bound(df.mappings@, mi as int);
                }
                let targets = &df.mappings[mi].1;
                let mut k: usize = 0;
                while k < targets.len()
                    invariant
                        k <= targets@.len(),
                        keys_unique(chans),
                        chans == df.subscribe_channels@,
                        base as int + targets@.len() <= u64::MAX as int,
                        entries@.len() == filter_subscribed(
                            chans,
                            targets@.subrange(0, k as int),
                        ).len(),
                        entries@.len() <= k,
                        forall|i2: int|
                            0 <= i2 < entries@.len() ==> {
                                let en = #[trigger] entries@[i2];
                                let f = filter_subscribed(chans, targets@.subrange(0, k as int));
                                &&& en.receiver@ == f[i2].0
                                &&& en.input@ == f[i2].1
                                &&& en.channel == map_get(chans, f[i2].0)
                                &&& en.drop_token == base + i2
                            },
                    decreases targets@.len() - k,
                {
                    let ghost fk = filter_subscribed(chans, targets@.subrange(0, k as int));
                    let t_rec = &targets[k].0;
                    let t_inp = &targets[k].1;
                    match find_str(&df.subscribe_channels, t_rec) {
                        Some(ci) => {
                            proof {
                                lemma_idx_of_key(chans, ci as int);
                            }
                            let token = base + entries.len() as u64;
                            entries.push(
                                SendPlanEntry {
                                    receiver: t_rec.clone(),
                                    input: t_inp.clone(),
                                    channel: df.subscribe_channels[ci].1,
                                    drop_token: token,
                                },
                            );
                        },
                        None => {},
                    }
                    k += 1;
                    proof {
                        assert(targets@.subrange(0, k as int).drop_last() =~= targets@.subrange(
                            0,
                            k as int - 1,
                        ));
                        assert(targets@.subrange(0, k as int).last() == targets@[k as int - 1]);
                    }
                }
                proof {
                    assert(targets@.subrange(0, targets@.len() as int) =~= targets@);
                }
            },
        }
        let n = entries.len() as u64;
        self.next_token = base + n;
        proof {
            assert forall|b: int| 0 <= b < self.sent_out@.len() implies (
            #[trigger] self.sent_out@[b]).0 < self.next_token by {
                assert(self.sent_out@[b].0 < base);
            }
            assert forall|i2: int| 0 <= i2 < entries@.len() implies !map_has(
                self.sent_out@,
                (#[trigger] entries@[i2]).drop_token,
            ) by {
                if map_has(self.sent_out@, entries@[i2].drop_token) {
                    let x = map_idx(self.sent_out@, entries@[i2].drop_token);
                    assert(self.sent_out@[x].0 < base);
                }
            }
        }
        let plan = SendPlan { dataflow_id, metadata: message.metadata, data: plan_data, entries };
        proof {
            assert forall|i2: int, j2: int| 0 <= i2 < j2 < plan.entries@.len() implies (
            #[trigger] plan.entries@[i2]).drop_token != (#[trigger] plan.entries@[j2]).drop_token by {
                assert(plan.entries@[i2].drop_token == base + i2);
                assert(plan.entries@[j2].drop_token == base + j2);
            }
        }
        Ok(plan)
    }

    /// Take the observed outcomes of a fan-out back in. Exactly the delivered
    /// entries get their drop token recorded against the plan's segment; a
    /// timed-out delivery records nothing; receivers found closed lose their
    /// channel. The segment is retained while at least one delivery succeeded
    /// and freed right here when none did. Nothing else changes.
    pub fn finish_send(&mut self, plan: SendPlan, outcomes: &Vec<DeliveryOutcome>)
        requires
            old(self).wf(),
            plan.valid(*old(self)),
            outcomes@.len() == plan.entries@.len(),
        ensures
            final(self).wf(),
            final(self).prepared == old(self).prepared,
            final(self).next_token == old(self).next_token,
            final(self).next_segment == old(self).next_segment,
            final(self).exit_when_done == old(self).exit_when_done,
            plan.data is None ==> final(self).sent_out == old(self).sent_out && final(self).segments
                == old(self).segments,
            plan.data matches Some(pd) ==> {
                &&& forall|t: u64| #[trigger]
                    map_has(final(self).sent_out@, t) == (map_has(old(self).sent_out@, t)
                        || delivered_token(plan.entries@, outcomes@, t))
                &&& forall|t: u64|
                    map_has(old(self).sent_out@, t) ==> #[trigger] map_get(final(self).sent_out@, t)
                        == map_get(old(self).sent_out@, t)
                &&& forall|t: u64| #[trigger]
                    delivered_token(plan.entries@, outcomes@, t) ==> map_get(
                        final(self).sent_out@,
                        t,
                    ) == pd.segment
                &&& (any_delivered(outcomes@) ==> final(self).segments == old(self).segments)
                &&& (!any_delivered(outcomes@) ==> !map_has(final(self).segments@, pd.segment)
                    && forall|g: u64|
                    g != pd.segment ==> #[trigger] map_has(final(self).segments@, g) == map_has(
                        old(self).segments@,
                        g,
                    ))
            },
            map_has(final(self).running@, plan.dataflow_id),
            ({
                let df = map_get(old(self).running@, plan.dataflow_id);
                let df2 = map_get(final(self).running@, plan.dataflow_id);
                &&& df2.mappings == df.mappings
                &&& df2.timers == df.timers
                &&& df2.open_inputs == df.open_inputs
                &&& df2.running_nodes == df.running_nodes
                &&& forall|n: Seq<char>| #[trigger]
                    map_has(df2.subscribe_channels@, n) ==> map_has(df.subscribe_channels@, n)
                        && !closed_receiver(plan.entries@, outcomes@, n) && map_get(
                        df2.subscribe_channels@,
                        n,
                    ) == map_get(df.subscribe_channels@, n)
                &&& forall|n: Seq<char>|
                    (#[trigger] map_has(df.subscribe_channels@, n)) && !closed_receiver(
                        plan.entries@,
                        outcomes@,
                        n,
                    ) ==> map_has(df2.subscribe_channels@, n)
                &&& (df.subscribed_implies_open() ==> df2.subscribed_implies_open())
            }),
            forall|d: u128|
                d != plan.dataflow_id ==> #[trigger] map_has(final(self).running@, d) == map_has(
                    old(self).running@,
                    d,
                ),
            forall|d: u128|
                d != plan.dataflow_id && map_has(old(self).running@, d) ==> #[trigger] map_get(
                    final(self).running@,
                    d,
                ) == map_get(old(self).running@, d),
    {
        let ghost es = plan.entries@;
        let ghost os = outcomes@;
        let ghost sent0 = self.sent_out@;
        let seg_opt: Option<u64> = match &plan.data {
            Some(pd) => Some(pd.segment),
            None => None,
        };
        let mut delivered_any = false;
        match seg_opt {
            None => {},
            Some(seg) => {
                let mut k: usize = 0;
                while k < plan.entries.len()
                    invariant
                        k <= es.len(),
                        os.len() == es.len(),
                        plan.entries@ == es,
                        outcomes@ == os,
                        self.wf(),
                        map_has(self.segments@, seg),
                        forall|i2: int, j2: int|
                            0 <= i2 < j2 < es.len() ==> (#[trigger] es[i2]).drop_token != (
                            #[trigger] es[j2]).drop_token,
                        forall|i2: int|
                            0 <= i2 < es.len() ==> !map_has(
                                sent0,
                                (#[trigger] es[i2]).drop_token,
                            ) && es[i2].drop_token < self.next_token,
                        forall|i2: int|
                            0 <= i2 < self.prepared@.len() ==> prep_seg(
                                (#[trigger] self.prepared@[i2]).1,
                            ) != Some(seg),
                        plan.data matches Some(pd2) && pd2.segment == seg,
                        self.prepared == old(self).prepared,
                        self.segments == old(self).segments,
                        self.running == old(self).running,
                        self.next_token == old(self).next_token,
                        self.next_segment == old(self).next_segment,
                        self.exit_when_done == old(self).exit_when_done,
                        sent0 == old(self).sent_out@,
                        forall|t: u64| #[trigger]
                            map_has(self.sent_out@, t) == (map_has(sent0, t) || delivered_before(
                                es,
                                os,
                                k as int,
                                t,
                            )),
                        forall|t: u64|
                            map_has(sent0, t) ==> #[trigger] map_get(self.sent_out@, t) == map_get(
                                sent0,
                                t,
                            ),
                        forall|t: u64| #[trigger]
                            delivered_before(es, os, k as int, t) ==> map_get(self.sent_out@, t)
                                == seg,
                        delivered_any == exists|i2: int|
                            0 <= i2 < k && os[i2] == DeliveryOutcome::Delivered,
                        !delivered_any ==> self.sent_out@ == sent0,
                    decreases es.len() - k,
                {
                    let outcome = outcomes[k];
                    let ghost sent_cur = self.sent_out@;
                    match outcome {
                        DeliveryOutcome::Delivered => {
                            let token = plan.entries[k].drop_token;
                            proof {
                                if map_has(sent_cur, token) {
                                    if delivered_before(es, os, k as int, token) {
                                        let x = choose|x: int|
                                            0 <= x < k && x < es.len() && (
                                            #[trigger] es[x]).drop_token == token && os[x]
                                                == DeliveryOutcome::Delivered;
                                        assert(es[x].drop_token == es[k as int].drop_token);
                                        assert(false);
                                    }
                                    assert(map_has(sent0, token));
                                    assert(false);
                                }
                            }
                            self.sent_out.push((token, seg));
                            proof {
                                lemma_map_push(sent_cur, token, seg);
                                assert(self.sent_out@.drop_last() == sent_cur);
                                lemma_refs_ok_sent_push(
                                    self.prepared@,
                                    self.segments@,
                                    sent_cur,
                                    (token, seg),
                                );
                                assert(self.sent_out@ == sent_cur.push((token, seg)));
                                assert forall|b: int| 0 <= b < self.sent_out@.len() implies (
                                #[trigger] self.sent_out@[b]).0 < self.next_token by {
                                    if b < sent_cur.len() {
                                        assert(self.sent_out@[b] == sent_cur[b]);
                                    }
                                }
                            }
                            delivered_any = true;
                        },
                        _ => {},
                    }
                    k += 1;
                    proof {
                        assert forall|t: u64| #[trigger]
                            delivered_before(es, os, k as int, t) == (delivered_before(
                                es,
                                os,
                                k as int - 1,
                                t,
                            ) || (os[k as int - 1] == DeliveryOutcome::Delivered && es[k as int
                                - 1].drop_token == t)) by {
                            if delivered_before(es, os, k as int, t) {
                                let x = choose|x: int|
                                    0 <= x < k && x < es.len() && (#[trigger] es[x]).drop_token == t
                                        && os[x] == DeliveryOutcome::Delivered;
                                if x < k as int - 1 {
                                    assert(delivered_before(es, os, k as int - 1, t));
                                }
                            }
                            if delivered_before(es, os, k as int - 1, t) {
                                let x = choose|x: int|
                                    0 <= x < k - 1 && x < es.len() && (#[trigger] es[x]).drop_token
                                        == t && os[x] == DeliveryOutcome::Delivered;
                                assert(delivered_before(es, os, k as int, t));
                            }
                            if os[k as int - 1] == DeliveryOutcome::Delivered && es[k as int
                                - 1].drop_token == t {
                                assert(0 <= k - 1 < k && (es[k as int - 1]).drop_token == t
                                    && os[k as int - 1] == DeliveryOutcome::Delivered);
                            }
                        }
                    }
                }
                // a fan-out that retained no delivery must not leak its segment
                if !delivered_any {
                    let ghost segs0 = self.segments@;
                    match find_u64(&self.segments, seg) {
                        Some(j) => {
                            proof {
                                lemma_idx_of_key(segs0, j as int);
                                lemma_refs_ok_seg_remove(
                                    self.prepared@,
                                    segs0,
                                    self.sent_out@,
                                    j as int,
                                );
                                lemma_map_remove(segs0, j as int);
                            }
                            self.segments.remove(j);
                            proof {
                                assert forall|a: int| 0 <= a < self.segments@.len() implies (
                                #[trigger] self.segments@[a]).0 < self.next_segment by {
                                    if a < j {
                                        assert(self.segments@[a] == segs0[a]);
                                    } else {
                                        assert(self.segments@[a] == segs0[a + 1]);
                                    }
                                }
                            }
                        },
                        None => {
                            proof {
                                assert(map_has(segs0, seg));
                                assert(false);
                            }
                        },
                    }
                }
            },
        }
        // prune the receivers whose channel was found closed
        let mut closed_names: Vec<String> = Vec::new();
        let mut k: usize = 0;
        while k < outcomes.len()
            invariant
                k <= os.len(),
                os.len() == es.len(),
                plan.entries@ == es,
                outcomes@ == os,
                forall|n: Seq<char>| #[trigger]
                    set_has(closed_names@, n) == closed_before(es, os, k as int, n),
            decreases os.len() - k,
        {
            let ghost names_cur = closed_names@;
            match outcomes[k] {
                DeliveryOutcome::Closed => {
                    closed_names.push(plan.entries[k].receiver.clone());
                },
                _ => {},
            }
            k += 1;
            proof {
                assert forall|n: Seq<char>| #[trigger]
                    set_has(closed_names@, n) == closed_before(es, os, k as int, n) by {
                    if set_has(closed_names@, n) {
                        let x = choose|x: int|
                            0 <= x < closed_names@.len() && (
                            #[trigger] closed_names@[x]).deep_view() == n;
                        if x < names_cur.len() {
                            assert(closed_names@[x] == names_cur[x]);
                            assert(names_cur[x].deep_view() == n);
                            assert(set_has(names_cur, n));
                            assert(closed_before(es, os, k as int - 1, n));
                            let y = choose|y: int|
                                0 <= y < k - 1 && y < es.len() && (#[trigger] es[y]).receiver@ == n
                                    && os[y] == DeliveryOutcome::Closed;
                            assert(0 <= y < k && es[y].receiver@ == n && os[y]
                                == DeliveryOutcome::Closed);
                        } else {
                            assert(os[k as int - 1] == DeliveryOutcome::Closed);
                            assert(es[k as int - 1].receiver@ == n);
                        }
                    }
                    if closed_before(es, os, k as int, n) {
                        let x = choose|x: int|
                            0 <= x < k && x < es.len() && (#[trigger] es[x]).receiver@ == n && os[x]
                                == DeliveryOutcome::Closed;
                        if x < k as int - 1 {
                            assert(set_has(names_cur, n));
                            let y = choose|y: int|
                                0 <= y < names_cur.len() && (#[trigger] names_cur[y]).deep_view()
                                    == n;
                            assert(closed_names@[y].deep_view() == n);
                        } else {
                            assert(closed_names@[closed_names@.len() - 1].deep_view() == n);
                        }
                    }
                }
            }
        }
        self.prune_closed_channels(plan.dataflow_id, &closed_names);
    }

    /// Plan the fan-out of one timer tick: one delivery per subscribed input
    /// ticked at this interval, with no data attached. Returns nothing, and
    /// touches nothing, when the dataflow is gone or no input is ticked at
    /// this interval; the tick is simply dropped. The process performs the
    /// sends and hands the closed receivers to `prune_closed_channels`.
    pub fn plan_timer(
        &self,
        dataflow_id: u128,
        interval_nanos: u64,
        metadata: Metadata,
    ) -> (r: Option<TimerPlan>)
        requires
            self.wf(),
        ensures
            r is None <==> (!map_has(self.running@, dataflow_id) || !map_has(
                map_get(self.running@, dataflow_id).timers@,
                interval_nanos,
            )),
            r matches Some(plan) ==> {
                let df = map_get(self.running@, dataflow_id);
                let targets = map_get(df.timers@, interval_nanos)@;
                let filtered = filter_subscribed(df.subscribe_channels@, targets);
                &&& plan.metadata == metadata
                &&& plan.entries@.len() == filtered.len()
                &&& forall|i: int|
                    0 <= i < plan.entries@.len() ==> {
                        let en = #[trigger] plan.entries@[i];
                        &&& en.receiver@ == filtered[i].0
                        &&& en.input@ == filtered[i].1
                        &&& en.channel == map_get(df.subscribe_channels@, filtered[i].0)
                    }
            },
    {
        let d_idx = match find_u128(&self.running, dataflow_id) {
            None => {
                return None;
            },
            Some(i) => i,
        };
        proof {
            lemma_idx_of_key(self.running@, d_idx as int);
        }
        let df = &self.running[d_idx].1;
        let ti = match find_u64(&df.timers, interval_nanos) {
            None => {
                return None;
            },
            Some(i) => i,
        };
        proof {
            lemma_idx_of_key(df.timers@, ti as int);
        }
        let targets = &df.timers[ti].1;
        let ghost chans = df.subscribe_channels@;
        let mut entries: Vec<TimerPlanEntry> = Vec::new();
        let mut k: usize = 0;
        while k < targets.len()
            invariant
                k <= targets@.len(),
                keys_unique(chans),
                chans == df.subscribe_channels@,
                entries@.len() == filter_subscribed(chans, targets@.subrange(0, k as int)).len(),
                forall|i2: int|
                    0 <= i2 < entries@.len() ==> {
                        let en = #[trigger] entries@[i2];
                        let f = filter_subscribed(chans, targets@.subrange(0, k as int));
                        &&& en.receiver@ == f[i2].0
                        &&& en.input@ == f[i2].1
                        &&& en.channel == map_get(chans, f[i2].0)
                    },
            decreases targets@.len() - k,
        {
            let t_rec = &targets[k].0;
            let t_inp = &targets[k].1;
            match find_str(&df.subscribe_channels, t_rec) {
                Some(ci) => {
                    proof {
                        lemma_idx_of_key(chans, ci as int);
                    }
                    entries.push(
                        TimerPlanEntry {
                            receiver: t_rec.clone(),
                            input: t_inp.clone(),
                            channel: df.subscribe_channels[ci].1,
                        },
                    );
                },
                None => {},
            }
            k += 1;
            proof {
                assert(targets@.subrange(0, k as int).drop_last() =~= targets@.subrange(
                    0,
                    k as int - 1,
                ));
                assert(targets@.subrange(0, k as int).last() == targets@[k as int - 1]);
            }
        }
        proof {
            assert(targets@.subrange(0, targets@.len() as int) =~= targets@);
        }
        Some(TimerPlan { metadata, entries })
    }

    /// Remove the channels of the named receivers: a send observed their
    /// queues closed. Channels of other receivers, and everything else,
    /// stay exactly as they were.
    pub fn prune_closed_channels(&mut self, dataflow_id: u128, closed: &Vec<String>)
        requires
            old(self).wf(),
            map_has(old(self).running@, dataflow_id),
        ensures
            final(self).wf(),
            final(self).prepared == old(self).prepared,
            final(self).segments == old(self).segments,
            final(self).sent_out == old(self).sent_out,
            final(self).next_token == old(self).next_token,
            final(self).next_segment == old(self).next_segment,
            final(self).exit_when_done == old(self).exit_when_done,
            map_has(final(self).running@, dataflow_id),
            ({
                let df = map_get(old(self).running@, dataflow_id);
                let df2 = map_get(final(self).running@, dataflow_id);
                &&& df2.mappings == df.mappings
                &&& df2.timers == df.timers
                &&& df2.open_inputs == df.open_inputs
                &&& df2.running_nodes == df.running_nodes
                &&& forall|n: Seq<char>| #[trigger]
                    map_has(df2.subscribe_channels@, n) ==> map_has(df.subscribe_channels@, n)
                        && !set_has(closed@, n) && map_get(df2.subscribe_channels@, n) == map_get(
                        df.subscribe_channels@,
                        n,
                    )
                &&& forall|n: Seq<char>|
                    (#[trigger] map_has(df.subscribe_channels@, n)) && !set_has(closed@, n)
                        ==> map_has(df2.subscribe_channels@, n)
                &&& (df.subscribed_implies_open() ==> df2.subscribed_implies_open())
            }),
            forall|d: u128|
                d != dataflow_id ==> #[trigger] map_has(final(self).running@, d) == map_has(
                    old(self).running@,
                    d,
                ),
            forall|d: u128|
                d != dataflow_id && map_has(old(self).running@, d) ==> #[trigger] map_get(
                    final(self).running@,
                    d,
                ) == map_get(old(self).running@, d),
    {
        let i = match find_u128(&self.running, dataflow_id) {
            None => {
                proof {
                    assert(false);
                }
                return ;
            },
            Some(i) => i,
        };
        proof {
            lemma_idx_of_key(self.running@, i as int);
        }
        let ghost running0 = self.running@;
        let (_, mut df) = self.running.remove(i);
        proof {
            lemma_map_remove(running0, i as int);
            assert forall|j: int| 0 <= j < self.running@.len() implies (
            #[trigger] self.running@[j]).1.wf() by {
                if j < i {
                    assert(self.running@[j] == running0[j]);
                } else {
                    assert(self.running@[j] == running0[j + 1]);
                }
            }
        }
        let ghost chans0 = df.subscribe_channels@;
        let mut k: usize = 0;
        while k < closed.len()
            invariant
                k <= closed@.len(),
                keys_unique(df.subscribe_channels@),
                forall|n: Seq<char>| #[trigger]
                    map_has(df.subscribe_channels@, n) ==> map_has(chans0, n) && !set_has(
                        closed@.subrange(0, k as int),
                        n,
                    ) && map_get(df.subscribe_channels@, n) == map_get(chans0, n),
                forall|n: Seq<char>|
                    (#[trigger] map_has(chans0, n)) && !set_has(closed@.subrange(0, k as int), n)
                        ==> map_has(df.subscribe_channels@, n),
                df.mappings == map_get(running0, dataflow_id).mappings,
                df.timers == map_get(running0, dataflow_id).timers,
                df.open_inputs == map_get(running0, dataflow_id).open_inputs,
                df.running_nodes == map_get(running0, dataflow_id).running_nodes,
            decreases closed@.len() - k,
        {
            let ghost cur = df.subscribe_channels@;
            match find_str(&df.subscribe_channels, &closed[k]) {
                Some(ci) => {
                    proof {
                        lemma_idx_of_key(cur, ci as int);
                    }
                    df.subscribe_channels.remove(ci);
                    proof {
                        lemma_map_remove(cur, ci as int);
                    }
                },
                None => {},
            }
            k += 1;
            proof {
                let s1 = closed@.subrange(0, k as int);
                let s0 = closed@.subrange(0, k as int - 1);
                assert forall|n: Seq<char>| #[trigger]
                    set_has(s1, n) == (set_has(s0, n) || n == closed@[k as int - 1]@) by {
                    if set_has(s1, n) {
                        let x = choose|x: int|
                            0 <= x < s1.len() && (#[trigger] s1[x]).deep_view() == n;
                        if x < k as int - 1 {
                            assert(s0[x].deep_view() == n);
                        }
                    }
                    if set_has(s0, n) {
                        let x = choose|x: int|
                            0 <= x < s0.len() && (#[trigger] s0[x]).deep_view() == n;
                        assert(s1[x].deep_view() == n);
                    }
                    if n == closed@[k as int - 1]@ {
                        assert(s1[k as int - 1].deep_view() == n);
                    }
                }
            }
        }
        proof {
            assert(closed@.subrange(0, closed@.len() as int) =~= closed@);
        }
        let ghost running1 = self.running@;
        self.running.push((dataflow_id, df));
        proof {
            lemma_map_push(running1, dataflow_id, self.running@.last().1);
            assert(self.running@.drop_last() == running1);
            assert forall|j: int| 0 <= j < self.running@.len() implies (
            #[trigger] self.running@[j]).1.wf() by {
                if j < running1.len() {
                    assert(self.running@[j] == running1[j]);
                }
            }
            let dfo = map_get(running0, dataflow_id);
            let df2 = map_get(self.running@, dataflow_id);
            if dfo.subscribed_implies_open() {
                assert forall|n: Seq<char>| #[trigger]
                    map_has(df2.subscribe_channels@, n) implies map_has(df2.open_inputs@, n)
                    && map_get(df2.open_inputs@, n)@.len() > 0 by {
                    assert(map_has(dfo.subscribe_channels@, n));
                }
            }
        }
    }

    /// Drain every subscriber channel of the dataflow (the process sends a
    /// stop event on each drained handle). On an absent dataflow this fails
    /// and leaves the whole state unchanged, however often it is retried.
    pub fn handle_stop_dataflow(&mut self, dataflow_id: u128) -> (r: Result<Vec<u64>, EngineError>)
        requires
            old(self).wf(),
        ensures
            final(self).wf(),
            final(self).prepared == old(self).prepared,
            final(self).segments == old(self).segments,
            final(self).sent_out == old(self).sent_out,
            final(self).next_token == old(self).next_token,
            final(self).next_segment == old(self).next_segment,
            final(self).exit_when_done == old(self).exit_when_done,
            r is Err <==> !map_has(old(self).running@, dataflow_id),
            r matches Err(e) ==> e == (EngineError::NoSuchDataflow { dataflow_id }) && *final(self)
                == *old(self),
            r matches Ok(chans) ==> {
                let df = map_get(old(self).running@, dataflow_id);
                let df2 = map_get(final(self).running@, dataflow_id);
                &&& map_has(final(self).running@, dataflow_id)
                &&& df2.subscribe_channels@.len() == 0
                &&& chans@.len() == df.subscribe_channels@.len()
                &&& forall|i: int|
                    0 <= i < chans@.len() ==> #[trigger] chans@[i]
                        == df.subscribe_channels@[i].1
                &&& df2.mappings == df.mappings
                &&& df2.timers == df.timers
                &&& df2.open_inputs == df.open_inputs
                &&& df2.running_nodes == df.running_nodes
                &&& forall|d: u128|
                    d != dataflow_id ==> #[trigger] map_has(final(self).running@, d) == map_has(
                        old(self).running@,
                        d,
                    )
                &&& forall|d: u128|
                    d != dataflow_id && map_has(old(self).running@, d) ==> #[trigger] map_get(
                        final(self).running@,
                        d,
                    ) == map_get(old(self).running@, d)
            },
    {
        let i = match find_u128(&self.running, dataflow_id) {
            None => {
                return Err(EngineError::NoSuchDataflow { dataflow_id });
            },
            Some(i) => i,
        };
        proof {
            lemma_idx_of_key(self.running@, i as int);
        }
        let ghost running0 = self.running@;
        let (_, mut df) = self.running.remove(i);
        proof {
            lemma_map_remove(running0, i as int);
            assert forall|j: int| 0 <= j < self.running@.len() implies (
            #[trigger] self.running@[j]).1.wf() by {
                if j < i {
                    assert(self.running@[j] == running0[j]);
                } else {
                    assert(self.running@[j] == running0[j + 1]);
                }
            }
        }
        let mut chans: Vec<u64> = Vec::new();
        let mut k: usize = 0;
        while k < df.subscribe_channels.len()
            invariant
                k <= df.subscribe_channels@.len(),
                chans@.len() == k,
                forall|i2: int| 0 <= i2 < k ==> #[trigger] chans@[i2]
                    == df.subscribe_channels@[i2].1,
            decreases df.subscribe_channels@.len() - k,
        {
            chans.push(df.subscribe_channels[k].1);
            k += 1;
        }
        df.subscribe_channels = Vec::new();
        let ghost running1 = self.running@;
        self.running.push((dataflow_id, df));
        proof {
            lemma_map_push(running1, dataflow_id, self.running@.last().1);
            assert(self.running@.drop_last() == running1);
            assert forall|j: int| 0 <= j < self.running@.len() implies (
            #[trigger] self.running@[j]).1.wf() by {
                if j < running1.len() {
                    assert(self.running@[j] == running1[j]);
                }
            }
        }
        Ok(chans)
    }

    /// Release a drop token: remove it from the accounting table and free its
    /// segment exactly when no other token still references the segment. An
    /// unknown token is reported and changes nothing; it is never fatal.
    pub fn handle_drop(&mut self, token: u64) -> (r: DropOutcome)
        requires
            old(self).wf(),
        ensures
            final(self).wf(),
            final(self).prepared == old(self).prepared,
            final(self).running == old(self).running,
            final(self).next_token == old(self).next_token,
            final(self).next_segment == old(self).next_segment,
            final(self).exit_when_done == old(self).exit_when_done,
            !map_has(old(self).sent_out@, token) ==> r == DropOutcome::UnknownToken && *final(self)
                == *old(self),
            map_has(old(self).sent_out@, token) ==> {
                let seg = map_get(old(self).sent_out@, token);
                &&& r != DropOutcome::UnknownToken
                &&& !map_has(final(self).sent_out@, token)
                &&& forall|t: u64|
                    t != token ==> #[trigger] map_has(final(self).sent_out@, t) == map_has(
                        old(self).sent_out@,
                        t,
                    )
                &&& forall|t: u64|
                    t != token && map_has(old(self).sent_out@, t) ==> #[trigger] map_get(
                        final(self).sent_out@,
                        t,
                    ) == map_get(old(self).sent_out@, t)
                &&& (r == DropOutcome::Freed <==> !seg_referenced(final(self).sent_out@, seg))
                &&& (r == DropOutcome::Freed ==> !map_has(final(self).segments@, seg) && forall|
                    g: u64,
                |
                    g != seg ==> #[trigger] map_has(final(self).segments@, g) == map_has(
                        old(self).segments@,
                        g,
                    ))
                &&& (r == DropOutcome::Released ==> final(self).segments == old(self).segments)
            },
    {
        let i = match find_u64(&self.sent_out, token) {
            None => {
                return DropOutcome::UnknownToken;
            },
            Some(i) => i,
        };
        proof {
            lemma_idx_of_key(self.sent_out@, i as int);
        }
        let ghost sent0 = self.sent_out@;
        let (_, seg) = self.sent_out.remove(i);
        proof {
            lemma_map_remove(sent0, i as int);
            assert forall|j: int| 0 <= j < self.sent_out@.len() implies map_has(
                self.segments@,
                (#[trigger] self.sent_out@[j]).1,
            ) && self.sent_out@[j].0 < self.next_token by {
                if j < i {
                    assert(self.sent_out@[j] == sent0[j]);
                } else {
                    assert(self.sent_out@[j] == sent0[j + 1]);
                }
            }
        }
        if seg_still_referenced(&self.sent_out, seg) {
            proof {
                assert forall|a: int, b: int|
                    0 <= a < self.prepared@.len() && 0 <= b < self.sent_out@.len() implies ((
                #[trigger] self.prepared@[a]).1.data matches Some(d) ==> (
                #[trigger] self.sent_out@[b]).1 != d.segment) by {
                    if b < i {
                        assert(self.sent_out@[b] == sent0[b]);
                    } else {
                        assert(self.sent_out@[b] == sent0[b + 1]);
                    }
                }
            }
            DropOutcome::Released
        } else {
            // the last reference is gone: unmap the segment
            let ghost segs0 = self.segments@;
            match find_u64(&self.segments, seg) {
                Some(j) => {
                    proof {
                        lemma_idx_of_key(self.segments@, j as int);
                    }
                    self.segments.remove(j);
                    proof {
                        lemma_map_remove(segs0, j as int);
                        assert forall|a: int| 0 <= a < self.segments@.len() implies (
                        #[trigger] self.segments@[a]).0 < self.next_segment by {
                            if a < j {
                                assert(self.segments@[a] == segs0[a]);
                            } else {
                                assert(self.segments@[a] == segs0[a + 1]);
                            }
                        }
                        assert forall|a: int| 0 <= a < self.prepared@.len() implies ((
                        #[trigger] self.prepared@[a]).1.data matches Some(d) ==> map_has(
                            self.segments@,
                            d.segment,
                        )) by {
                            match self.prepared@[a].1.data {
                                Some(d) => {
                                    // no token referenced this prepared segment before
                                    // the drop, so the freed segment is a different one
                                    assert(sent0[i as int].1 != d.segment);
                                },
                                None => {},
                            }
                        }
                        assert forall|a: int| 0 <= a < self.sent_out@.len() implies map_has(
                            self.segments@,
                            (#[trigger] self.sent_out@[a]).1,
                        ) by {
                            assert(self.sent_out@[a].1 != seg);
                        }
                    }
                },
                None => {
                    proof {
                        // a recorded token always references a live segment
                        assert(map_has(segs0, sent0[i as int].1));
                        assert(false);
                    }
                },
            }
            DropOutcome::Freed
        }
    }

    /// Handle a node's own stop notice, after the process has acknowledged
    /// it. Every input fed by one of the node's outputs whose receiver is
    /// subscribed is closed downstream: the receiver gets an input-closed
    /// notification on its channel, the input leaves its open set, and a
    /// receiver whose open-input set is thereby left empty loses its
    /// channel. The node then leaves `running_nodes`; when it was the last
    /// one, the dataflow is removed and the coordinator is to be told that
    /// all of its nodes finished.
    pub fn handle_stopped(&mut self, dataflow_id: u128, node_id: &String) -> (r: Result<
        StoppedEffects,
        EngineError,
    >)
        requires
            old(self).wf(),
        ensures
            final(self).wf(),
            final(self).prepared == old(self).prepared,
            final(self).segments == old(self).segments,
            final(self).sent_out == old(self).sent_out,
            final(self).next_token == old(self).next_token,
            final(self).next_segment == old(self).next_segment,
            final(self).exit_when_done == old(self).exit_when_done,
            r is Err <==> !map_has(old(self).running@, dataflow_id),
            r matches Err(e) ==> e == (EngineError::NoSuchDataflow { dataflow_id }) && *final(self)
                == *old(self),
            forall|d: u128|
                d != dataflow_id ==> #[trigger] map_has(final(self).running@, d) == map_has(
                    old(self).running@,
                    d,
                ),
            forall|d: u128|
                d != dataflow_id && map_has(old(self).running@, d) ==> #[trigger] map_get(
                    final(self).running@,
                    d,
                ) == map_get(old(self).running@, d),
            r matches Ok(eff) ==> {
                let df = map_get(old(self).running@, dataflow_id);
                let cp = closed_pairs(
                    df.subscribe_channels@,
                    downstream_targets(df.mappings@, node_id@),
                );
                &&& eff.notifications@.len() == cp.len()
                &&& forall|q: int|
                    0 <= q < cp.len() ==> (#[trigger] eff.notifications@[q]).0 == map_get(
                        df.subscribe_channels@,
                        cp[q].0,
                    ) && eff.notifications@[q].1@ == cp[q].1
                &&& (eff.all_nodes_finished <==> lone_member(df.running_nodes@, node_id@))
                &&& (eff.all_nodes_finished ==> !map_has(final(self).running@, dataflow_id))
                &&& (!eff.all_nodes_finished ==> map_has(final(self).running@, dataflow_id) && {
                    let df2 = map_get(final(self).running@, dataflow_id);
                    &&& !set_has(df2.running_nodes@, node_id@)
                    &&& forall|y: Seq<char>|
                        y != node_id@ ==> #[trigger] set_has(df2.running_nodes@, y) == set_has(
                            df.running_nodes@,
                            y,
                        )
                    &&& df2.mappings == df.mappings
                    &&& df2.timers == df.timers
                    &&& forall|n: Seq<char>| #[trigger]
                        map_has(df2.open_inputs@, n) == map_has(df.open_inputs@, n)
                    &&& forall|n: Seq<char>, x: Seq<char>|
                        map_has(df.open_inputs@, n) ==> #[trigger] set_has(
                            map_get(df2.open_inputs@, n)@,
                            x,
                        ) == (set_has(map_get(df.open_inputs@, n)@, x) && !pair_listed(cp, (n, x)))
                    &&& forall|n: Seq<char>| #[trigger]
                        map_has(df2.subscribe_channels@, n) == (map_has(df.subscribe_channels@, n)
                            && !(receiver_listed(cp, n) && map_has(df.open_inputs@, n) && map_get(
                            df2.open_inputs@,
                            n,
                        )@.len() == 0))
                    &&& forall|n: Seq<char>|
                        map_has(df2.subscribe_channels@, n) ==> #[trigger] map_get(
                            df2.subscribe_channels@,
                            n,
                        ) == map_get(df.subscribe_channels@, n)
                    &&& (df.subscribed_implies_open() ==> df2.subscribed_implies_open())
                })
            },
    {
        let d_idx = match find_u128(&self.running, dataflow_id) {
            None => {
                return Err(EngineError::NoSuchDataflow { dataflow_id });
            },
            Some(i) => i,
        };
        proof {
            lemma_idx_of_key(self.running@, d_idx as int);
        }
        let ghost running0 = self.running@;
        let (_, mut df) = self.running.remove(d_idx);
        proof {
            lemma_map_remove(running0, d_idx as int);
            assert forall|j: int| 0 <= j < self.running@.len() implies (
            #[trigger] self.running@[j]).1.wf() by {
                if j < d_idx {
                    assert(self.running@[j] == running0[j]);
                } else {
                    assert(self.running@[j] == running0[j + 1]);
                }
            }
        }
        let ghost df0 = df;
        let ghost chans0 = df.subscribe_channels@;
        // the inputs fed by the stopping node, in table order
        let mut targets: Vec<(String, String)> = Vec::new();
        let mut mi: usize = 0;
        while mi < df.mappings.len()
            invariant
                mi <= df.mappings@.len(),
                df == df0,
                pair_views(targets@) == downstream_targets(
                    df.mappings@.subrange(0, mi as int),
                    node_id@,
                ),
            decreases df.mappings@.len() - mi,
        {
            let ghost dt_pre = pair_views(targets@);
            let matches_node = df.mappings[mi].0.0 == *node_id;
            if matches_node {
                let mut ti: usize = 0;
                while ti < df.mappings[mi].1.len()
                    invariant
                        mi < df.mappings@.len(),
                        ti <= df.mappings@[mi as int].1@.len(),
                        df == df0,
                        df.mappings@[mi as int].0.0@ == node_id@,
                        dt_pre == downstream_targets(
                            df.mappings@.subrange(0, mi as int),
                            node_id@,
                        ),
                        pair_views(targets@) == dt_pre + pair_views(
                            df.mappings@[mi as int].1@.subrange(0, ti as int),
                        ),
                    decreases df.mappings@[mi as int].1@.len() - ti,
                {
                    let p0 = df.mappings[mi].1[ti].0.clone();
                    let p1 = df.mappings[mi].1[ti].1.clone();
                    let ghost old_targets = targets@;
                    targets.push((p0, p1));
                    ti += 1;
                    proof {
                        let es = df.mappings@[mi as int].1@;
                        let pe = (es[ti as int - 1].0@, es[ti as int - 1].1@);
                        assert(pair_views(es.subrange(0, ti as int)) =~= pair_views(
                            es.subrange(0, ti as int - 1),
                        ).push(pe));
                        assert(targets@.drop_last() == old_targets);
                        assert(pair_views(targets@) =~= pair_views(old_targets).push(pe));
                        assert(pair_views(old_targets).push(pe) =~= dt_pre + pair_views(
                            es.subrange(0, ti as int),
                        ));
                    }
                }
                proof {
                    assert(df.mappings@[mi as int].1@.subrange(
                        0,
                        df.mappings@[mi as int].1@.len() as int,
                    ) =~= df.mappings@[mi as int].1@);
                }
            }
            mi += 1;
            proof {
                let ms = df.mappings@;
                assert(ms.subrange(0, mi as int).drop_last() =~= ms.subrange(0, mi as int - 1));
                assert(ms.subrange(0, mi as int).last() == ms[mi as int - 1]);
                if !matches_node {
                    assert(pair_views(targets@) =~= dt_pre);
                }
            }
        }
        proof {
            assert(df.mappings@.subrange(0, df.mappings@.len() as int) =~= df.mappings@);
        }
        let ghost dt = pair_views(targets@);
        // decide the notifications against the channels as they stand now
        let mut notifications: Vec<(u64, String)> = Vec::new();
        let mut subs: Vec<(String, String)> = Vec::new();
        let mut k: usize = 0;
        while k < targets.len()
            invariant
                k <= targets@.len(),
                df == df0,
                chans0 == df.subscribe_channels@,
                keys_unique(chans0),
                dt == pair_views(targets@),
                pair_views(subs@) == closed_pairs(chans0, dt.subrange(0, k as int)),
                notifications@.len() == subs@.len(),
                forall|q: int|
                    0 <= q < subs@.len() ==> (#[trigger] notifications@[q]).0 == map_get(
                        chans0,
                        pair_views(subs@)[q].0,
                    ) && notifications@[q].1@ == pair_views(subs@)[q].1,
            decreases targets@.len() - k,
        {
            let ghost subs_pre = pair_views(subs@);
            match find_str(&df.subscribe_channels, &targets[k].0) {
                None => {},
                Some(ci) => {
                    proof {
                        lemma_idx_of_key(chans0, ci as int);
                    }
                    notifications.push((df.subscribe_channels[ci].1, targets[k].1.clone()));
                    subs.push((targets[k].0.clone(), targets[k].1.clone()));
                    proof {
                        assert(pair_views(subs@) =~= subs_pre.push(
                            (targets@[k as int].0@, targets@[k as int].1@),
                        ));
                    }
                },
            }
            k += 1;
            proof {
                assert(dt.subrange(0, k as int).drop_last() =~= dt.subrange(0, k as int - 1));
                assert(dt.subrange(0, k as int).last() == dt[k as int - 1]);
                assert(dt[k as int - 1] == (targets@[k as int - 1].0@, targets@[k as int - 1].1@));
            }
        }
        proof {
            assert(dt.subrange(0, dt.len() as int) =~= dt);
        }
        let ghost cp = closed_pairs(chans0, dt);
        let ghost open0 = df.open_inputs@;
        // close each notified input: it leaves the receiver's open set, and a
        // receiver left without open inputs loses its channel
        let mut k2: usize = 0;
        while k2 < subs.len()
            invariant
                k2 <= subs@.len(),
                pair_views(subs@) == cp,
                keys_unique(df.subscribe_channels@),
                keys_unique(df.open_inputs@),
                forall|i: int|
                    0 <= i < df.open_inputs@.len() ==> elems_unique(
                        (#[trigger] df.open_inputs@[i]).1@,
                    ),
                df.mappings == df0.mappings,
                df.timers == df0.timers,
                df.running_nodes == df0.running_nodes,
                open0 == df0.open_inputs@,
                chans0 == df0.subscribe_channels@,
                forall|n: Seq<char>| #[trigger]
                    map_has(df.open_inputs@, n) == map_has(open0, n),
                forall|n: Seq<char>, x: Seq<char>|
                    map_has(open0, n) ==> #[trigger] set_has(map_get(df.open_inputs@, n)@, x) == (
                    set_has(map_get(open0, n)@, x) && !pair_listed(
                        cp.subrange(0, k2 as int),
                        (n, x),
                    )),
                forall|n: Seq<char>| #[trigger]
                    map_has(df.subscribe_channels@, n) == (map_has(chans0, n) && !(receiver_listed(
                        cp.subrange(0, k2 as int),
                        n,
                    ) && map_has(open0, n) && map_get(df.open_inputs@, n)@.len() == 0)),
                forall|n: Seq<char>|
                    map_has(df.subscribe_channels@, n) ==> #[trigger] map_get(
                        df.subscribe_channels@,
                        n,
                    ) == map_get(chans0, n),
            decreases subs@.len() - k2,
        {
            let rec = &subs[k2].0;
            let inp = &subs[k2].1;
            let ghost open_a = df.open_inputs@;
            let ghost chans_a = df.subscribe_channels@;
            match find_str(&df.open_inputs, rec) {
                None => {},
                Some(oi) => {
                    proof {
                        lemma_idx_of_key(open_a, oi as int);
                    }
                    let (okey, mut oset) = df.open_inputs.remove(oi);
                    proof {
                        lemma_map_remove(open_a, oi as int);
                        assert forall|i: int| 0 <= i < df.open_inputs@.len() implies elems_unique(
                            (#[trigger] df.open_inputs@[i]).1@,
                        ) by {
                            if i < oi {
                                assert(df.open_inputs@[i] == open_a[i]);
                            } else {
                                assert(df.open_inputs@[i] == open_a[i + 1]);
                            }
                        }
                    }
                    let ghost oset0 = oset@;
                    match find_str_elem(&oset, inp) {
                        None => {},
                        Some(xi) => {
                            oset.remove(xi);
                            proof {
                                lemma_set_remove(oset0, xi as int);
                            }
                        },
                    }
                    let now_empty = oset.len() == 0;
                    let ghost open_b = df.open_inputs@;
                    df.open_inputs.push((okey, oset));
                    proof {
                        lemma_map_push(open_b, df.open_inputs@.last().0, df.open_inputs@.last().1);
                        assert(df.open_inputs@.drop_last() == open_b);
                        assert forall|i: int| 0 <= i < df.open_inputs@.len() implies elems_unique(
                            (#[trigger] df.open_inputs@[i]).1@,
                        ) by {
                            if i < open_b.len() {
                                assert(df.open_inputs@[i] == open_b[i]);
                            }
                        }
                    }
                    if now_empty {
                        let ghost chans_b = df.subscribe_channels@;
                        match find_str(&df.subscribe_channels, rec) {
                            None => {},
                            Some(ci2) => {
                                proof {
                                    lemma_idx_of_key(chans_b, ci2 as int);
                                }
                                df.subscribe_channels.remove(ci2);
                                proof {
                                    lemma_map_remove(chans_b, ci2 as int);
                                }
                            },
                        }
                    }
                },
            }
            k2 += 1;
            proof {
                let pre = cp.subrange(0, k2 as int - 1);
                let cur = cp.subrange(0, k2 as int);
                let step = cp[k2 as int - 1];
                assert(step == (subs@[k2 as int - 1].0@, subs@[k2 as int - 1].1@));
                assert forall|p: (Seq<char>, Seq<char>)| #[trigger]
                    pair_listed(cur, p) == (pair_listed(pre, p) || p == step) by {
                    if pair_listed(cur, p) {
                        let x = choose|x: int| 0 <= x < cur.len() && cur[x] == p;
                        if x < k2 as int - 1 {
                            assert(pre[x] == p);
                        }
                    }
                    if pair_listed(pre, p) {
                        let x = choose|x: int| 0 <= x < pre.len() && pre[x] == p;
                        assert(cur[x] == p);
                    }
                    if p == step {
                        assert(cur[k2 as int - 1] == p);
                    }
                }
                assert forall|n: Seq<char>| #[trigger]
                    receiver_listed(cur, n) == (receiver_listed(pre, n) || n == step.0) by {
                    if receiver_listed(cur, n) {
                        let x = choose|x: int| 0 <= x < cur.len() && (#[trigger] cur[x]).0 == n;
                        if x < k2 as int - 1 {
                            assert(pre[x].0 == n);
                        }
                    }
                    if receiver_listed(pre, n) {
                        let x = choose|x: int| 0 <= x < pre.len() && (#[trigger] pre[x]).0 == n;
                        assert(cur[x].0 == n);
                    }
                    if n == step.0 {
                        assert(cur[k2 as int - 1].0 == n);
                    }
                }
            }
        }
        proof {
            assert(cp.subrange(0, cp.len() as int) =~= cp);
        }
        // the node itself stops running
        let ghost nodes0 = df.running_nodes@;
        match find_str_elem(&df.running_nodes, node_id) {
            None => {},
            Some(ni) => {
                df.running_nodes.remove(ni);
                proof {
                    lemma_set_remove(nodes0, ni as int);
                }
            },
        }
        let finished = df.running_nodes.len() == 0;
        proof {
            if finished {
                assert forall|i: int| 0 <= i < nodes0.len() implies (
                #[trigger] nodes0[i]).deep_view() == node_id@ by {
                    if nodes0[i].deep_view() != node_id@ {
                        assert(set_has(df.running_nodes@, nodes0[i].deep_view()));
                    }
                }
            } else {
                let y = df.running_nodes@[0].deep_view();
                assert(set_has(df.running_nodes@, y));
                assert(y != node_id@);
                assert(set_has(nodes0, y));
                assert(nodes0[choose|i: int|
                    0 <= i < nodes0.len() && (#[trigger] nodes0[i]).deep_view() == y].deep_view()
                    == y);
            }
        }
        if finished {
            return Ok(StoppedEffects { notifications, all_nodes_finished: true });
        }
        let ghost running1 = self.running@;
        self.running.push((dataflow_id, df));
        proof {
            lemma_map_push(running1, dataflow_id, self.running@.last().1);
            assert(self.running@.drop_last() == running1);
            assert forall|j: int| 0 <= j < self.running@.len() implies (
            #[trigger] self.running@[j]).1.wf() by {
                if j < running1.len() {
                    assert(self.running@[j] == running1[j]);
                }
            }
            let df2 = map_get(self.running@, dataflow_id);
            if df0.subscribed_implies_open() {
                assert forall|n: Seq<char>| #[trigger]
                    map_has(df2.subscribe_channels@, n) implies map_has(df2.open_inputs@, n)
                    && map_get(df2.open_inputs@, n)@.len() > 0 by {
                    assert(map_has(chans0, n));
                    assert(map_has(open0, n) && map_get(open0, n)@.len() > 0);
                    assert(!(receiver_listed(cp, n) && map_has(open0, n) && map_get(
                        df2.open_inputs@,
                        n,
                    )@.len() == 0));
                    if map_get(df2.open_inputs@, n)@.len() == 0 {
                        // the channel of a receiver whose open set emptied is
                        // gone; an untouched set kept its members
                        assert(!receiver_listed(cp, n));
                        assert forall|x: Seq<char>| #[trigger]
                            set_has(map_get(open0, n)@, x) implies set_has(
                            map_get(df2.open_inputs@, n)@,
                            x,
                        ) by {
                            if pair_listed(cp, (n, x)) {
                                let q = choose|q: int| 0 <= q < cp.len() && cp[q] == (n, x);
                                assert(cp[q].0 == n);
                            }
                        }
                        let x0 = map_get(open0, n)@[0].deep_view();
                        assert(set_has(map_get(open0, n)@, x0));
                        assert(false);
                    }
                }
            }
        }
        Ok(StoppedEffects { notifications, all_nodes_finished: false })
    }

    /// Note a node's reported termination. In standalone mode a failed node
    /// is fatal; otherwise the report only updates the standalone exit set.
    /// `running_nodes` is never touched here: removal happens once, on the
    /// node's own stopped event. Returns the run status and whether the node
    /// finished while still subscribed (it died without saying it stopped).
    pub fn handle_spawned_node_result(
        &mut self,
        dataflow_id: u128,
        node_id: &String,
        success: bool,
    ) -> (r: Result<(RunStatus, bool), EngineError>)
        requires
            old(self).wf(),
        ensures
            final(self).wf(),
            final(self).prepared == old(self).prepared,
            final(self).segments == old(self).segments,
            final(self).sent_out == old(self).sent_out,
            final(self).running == old(self).running,
            final(self).next_token == old(self).next_token,
            final(self).next_segment == old(self).next_segment,
            r is Err <==> (!success && old(self).exit_when_done is Some),
            r matches Err(e) ==> e == (EngineError::NodeFailed {
                dataflow_id,
                node_id: *node_id,
            }) && *final(self) == *old(self),
            r matches Ok((status, warn)) ==> {
                &&& warn == (map_has(old(self).running@, dataflow_id) && map_has(
                    map_get(old(self).running@, dataflow_id).subscribe_channels@,
                    node_id.deep_view(),
                ))
                &&& (old(self).exit_when_done matches Some(v) ==> {
                    &&& final(self).exit_when_done matches Some(v2)
                    &&& !set_has(v2@, (dataflow_id, node_id.deep_view()))
                    &&& forall|y: (u128, Seq<char>)|
                        y != (dataflow_id, node_id.deep_view()) ==> #[trigger] set_has(v2@, y)
                            == set_has(v@, y)
                    &&& (status == RunStatus::Exit <==> v2@.len() == 0)
                })
                &&& (old(self).exit_when_done is None ==> final(self).exit_when_done is None
                    && status == RunStatus::Continue)
            },
    {
        if !success && self.exit_when_done.is_some() {
            return Err(EngineError::NodeFailed { dataflow_id, node_id: node_id.clone() });
        }
        let warn = match find_u128(&self.running, dataflow_id) {
            Some(i) => {
                proof {
                    lemma_idx_of_key(self.running@, i as int);
                }
                match find_str(&self.running[i].1.subscribe_channels, node_id) {
                    Some(j) => {
                        proof {
                            lemma_idx_of_key(self.running@[i as int].1.subscribe_channels@,
                            j as int);
                        }
                        true
                    },
                    None => false,
                }
            },
            None => false,
        };
        let mut status = RunStatus::Continue;
        match &mut self.exit_when_done {
            None => {},
            Some(v) => {
                let ghost v0 = v@;
                match find_df_node_elem(v, dataflow_id, node_id) {
                    Some(i) => {
                        v.remove(i);
                        proof {
                            lemma_set_remove(v0, i as int);
                        }
                    },
                    None => {},
                }
                if v.len() == 0 {
                    status = RunStatus::Exit;
                }
            },
        }
        Ok((status, warn))
    }
}

impl Engine {
    /// Dispatch one coordinator command: spawn or stop a dataflow, exit on
    /// destroy, answer the watchdog. The reply goes back on the command's
    /// reply channel; the effects are for the process to perform. A stop
    /// reply reuses the spawn-result variant for wire compatibility.
    pub fn handle_coordinator_event(&mut self, event: CoordinatorEvent) -> (r: (
        CoordinatorReply,
        RunStatus,
        CoordinatorEffects,
    ))
        requires
            old(self).wf(),
            event matches CoordinatorEvent::Spawn { dataflow_id: _, nodes } ==> nodes_config_wf(
                nodes@,
            ),
        ensures
            final(self).wf(),
            r.1 == RunStatus::Exit <==> event is Destroy,
            event is Destroy ==> *final(self) == *old(self) && (r.0 matches
                CoordinatorReply::DestroyResult(res) && res is Ok),
            event is Watchdog ==> *final(self) == *old(self) && r.0 is WatchdogAck,
            event matches CoordinatorEvent::Spawn { dataflow_id, nodes } ==> (r.0 matches
                CoordinatorReply::SpawnResult(res) && {
                &&& final(self).prepared == old(self).prepared
                &&& final(self).segments == old(self).segments
                &&& final(self).sent_out == old(self).sent_out
                &&& final(self).next_token == old(self).next_token
                &&& final(self).next_segment == old(self).next_segment
                &&& final(self).exit_when_done == old(self).exit_when_done
                &&& (res is Ok <==> !map_has(old(self).running@, dataflow_id) && !has_operator(
                    nodes@,
                ))
                &&& (res is Ok <==> r.2 is SpawnDataflow)
                &&& (map_has(old(self).running@, dataflow_id) ==> (res matches Err(e) && e
                    == (EngineError::DuplicateDataflow { dataflow_id })) && *final(self) == *old(
                    self,
                ))
                &&& (!map_has(old(self).running@, dataflow_id) ==> {
                    let df2 = map_get(final(self).running@, dataflow_id);
                    &&& (res matches Err(e) ==> e == EngineError::OperatorsNotSupported)
                    &&& map_has(final(self).running@, dataflow_id)
                    &&& df2.subscribe_channels@.len() == 0
                    &&& df2.subscribed_implies_open()
                    &&& (res is Ok ==> dataflow_installed(df2, nodes@))
                    &&& forall|d: u128|
                        d != dataflow_id ==> #[trigger] map_has(final(self).running@, d) == map_has(
                            old(self).running@,
                            d,
                        )
                    &&& forall|d: u128|
                        d != dataflow_id && map_has(old(self).running@, d) ==> #[trigger] map_get(
                            final(self).running@,
                            d,
                        ) == map_get(old(self).running@, d)
                })
                &&& (r.2 matches CoordinatorEffects::SpawnDataflow(a) ==> {
                    let df2 = map_get(final(self).running@, dataflow_id);
                    &&& a.spawn_nodes@.len() == nodes@.len()
                    &&& forall|i: int|
                        0 <= i < nodes@.len() ==> (#[trigger] a.spawn_nodes@[i])@
                            == nodes@[i].node_id@
                    &&& a.timer_intervals@.len() == df2.timers@.len()
                    &&& forall|i: int|
                        0 <= i < df2.timers@.len() ==> #[trigger] a.timer_intervals@[i]
                            == df2.timers@[i].0
                })
            }),
            event matches CoordinatorEvent::StopDataflow { dataflow_id } ==> (r.0 matches
                CoordinatorReply::SpawnResult(res) && {
                &&& final(self).prepared == old(self).prepared
                &&& final(self).segments == old(self).segments
                &&& final(self).sent_out == old(self).sent_out
                &&& final(self).next_token == old(self).next_token
                &&& final(self).next_segment == old(self).next_segment
                &&& final(self).exit_when_done == old(self).exit_when_done
                &&& (res is Ok <==> map_has(old(self).running@, dataflow_id))
                &&& (res matches Err(e) ==> e == (EngineError::NoSuchDataflow { dataflow_id })
                    && *final(self) == *old(self))
                &&& (res is Ok <==> r.2 is StopChannels)
                &&& (r.2 matches CoordinatorEffects::StopChannels(chans) ==> {
                    let df = map_get(old(self).running@, dataflow_id);
                    let df2 = map_get(final(self).running@, dataflow_id);
                    &&& map_has(final(self).running@, dataflow_id)
                    &&& df2.subscribe_channels@.len() == 0
                    &&& df2.subscribed_implies_open()
                    &&& chans@.len() == df.subscribe_channels@.len()
                    &&& forall|i: int|
                        0 <= i < chans@.len() ==> #[trigger] chans@[i]
                            == df.subscribe_channels@[i].1
                    &&& df2.mappings == df.mappings
                    &&& df2.timers == df.timers
                    &&& df2.open_inputs == df.open_inputs
                    &&& df2.running_nodes == df.running_nodes
                    &&& forall|d: u128|
                        d != dataflow_id ==> #[trigger] map_has(final(self).running@, d) == map_has(
                            old(self).running@,
                            d,
                        )
                    &&& forall|d: u128|
                        d != dataflow_id && map_has(old(self).running@, d) ==> #[trigger] map_get(
                            final(self).running@,
                            d,
                        ) == map_get(old(self).running@, d)
                })
            }),
    {
        match event {
            CoordinatorEvent::Spawn { dataflow_id, nodes } => {
                match self.spawn_dataflow(dataflow_id, &nodes) {
                    Ok(actions) => (
                        CoordinatorReply::SpawnResult(Ok(())),
                        RunStatus::Continue,
                        CoordinatorEffects::SpawnDataflow(actions),
                    ),
                    Err(e) => (
                        CoordinatorReply::SpawnResult(Err(e)),
                        RunStatus::Continue,
                        CoordinatorEffects::NoEffect,
                    ),
                }
            },
            CoordinatorEvent::StopDataflow { dataflow_id } => {
                match self.handle_stop_dataflow(dataflow_id) {
                    Ok(channels) => (
                        CoordinatorReply::SpawnResult(Ok(())),
                        RunStatus::Continue,
                        CoordinatorEffects::StopChannels(channels),
                    ),
                    Err(e) => (
                        CoordinatorReply::SpawnResult(Err(e)),
                        RunStatus::Continue,
                        CoordinatorEffects::NoEffect,
                    ),
                }
            },
            CoordinatorEvent::Destroy => (
                CoordinatorReply::DestroyResult(Ok(())),
                RunStatus::Exit,
                CoordinatorEffects::NoEffect,
            ),
            CoordinatorEvent::Watchdog => (
                CoordinatorReply::WatchdogAck,
                RunStatus::Continue,
                CoordinatorEffects::NoEffect,
            ),
        }
    }
}

/// The decision after one watchdog round trip: any failure to reach the
/// coordinator, receive its acknowledgement or recognise it is fatal.
pub fn watchdog_result(ok: bool) -> (r: Result<(), EngineError>)
    ensures
        r is Ok <==> ok,
        r matches Err(e) ==> e == EngineError::LostCoordinatorConnection,
{
    if ok {
        Ok(())
    } else {
        Err(EngineError::LostCoordinatorConnection)
    }
}

/// Whether any remaining drop token references segment `g`.
fn seg_still_referenced(v: &Vec<(u64, u64)>, g: u64) -> (r: bool)
    ensures
        r == seg_referenced(v@, g),
{
    let mut i: usize = 0;
    while i < v.len()
        invariant
            i <= v@.len(),
            forall|j: int| 0 <= j < i ==> (#[trigger] v@[j]).1 != g,
        decreases v@.len() - i,
    {
        if v[i].1 == g {
            return true;
        }
        i += 1;
    }
    false
}

} // verus!
