//! The trace walk: from a root message, its resulting transaction, and in
//! emission order every message that transaction emitted, depth first.
//!
//! The walk is a state machine. The caller performs each action it asks for
//! (fetch a message record, try one interface description on a body) and
//! hands back what came of it; the machine decides what follows and finally
//! hands over the assembled tree.
use vstd::prelude::*;
use crate::blockchain::{
    lt_value, parse_lt, DecodedData, GraphQLMessage, GraphQLTransaction, LedgerError, Message,
    Transaction,
};
use crate::decoder::{decoded_view, first_match, outcome_view, paths_of, DecodeSearch};

verus! {

pub type Records = Map<Seq<char>, GraphQLMessage>;

pub type Attempts = Map<Seq<char>, Seq<Option<Seq<char>>>>;

/// `t` carries the fields of the transaction record `r`, its logical time
/// parsed from hexadecimal text.
pub open spec fn tx_matches(t: Transaction, r: GraphQLTransaction) -> bool {
    &&& t.id == r.id
    &&& t.aborted == r.aborted
    &&& t.lt == lt_value(r.lt@)
    &&& t.exit_code == r.compute.exit_code
    &&& t.vm_steps == r.compute.vm_steps
}

/// The attempts `outs`, one per description in list order, went on until
/// one decoded or every description was tried.
pub open spec fn attempts_done(abis: Seq<Seq<char>>, outs: Seq<Option<Seq<char>>>) -> bool {
    &&& outs.len() <= abis.len()
    &&& (first_match(abis, outs) is Some || outs.len() == abis.len())
}

/// `m` is the trace of message `id` within `fuel` levels: it carries the
/// record that the ledger returned for `id` (in `recs`), its body decoded by
/// the first description that matched (the attempts on it are in `decs`,
/// and went on until one matched or all were tried),
/// and its transaction, whose messages are, one for one and in the same
/// order, the traces of the ids that the transaction emitted.
pub open spec fn is_trace(
    m: Message,
    recs: Records,
    decs: Attempts,
    abis: Seq<Seq<char>>,
    decode: bool,
    id: Seq<char>,
    fuel: nat,
) -> bool
    decreases fuel,
{
    if fuel == 0 || !recs.contains_key(id) || !decs.contains_key(id) {
        false
    } else {
        let r = recs[id];
        let outs = r.dst_transaction.out_msgs@;
        &&& m.id == r.id
        &&& m.src == r.src
        &&& m.dst == r.dst
        &&& m.boc == r.boc
        &&& decoded_view(m.decoded) == (if decode {
            first_match(abis, decs[id])
        } else {
            None
        })
        &&& (decode ==> attempts_done(abis, decs[id]))
        &&& m.transaction is Some
        &&& tx_matches(m.transaction->Some_0, r.dst_transaction)
        &&& m.transaction->Some_0.messages@.len() == outs.len()
        &&& forall|j: int|
            0 <= j < outs.len() ==> is_trace(
                #[trigger] m.transaction->Some_0.messages@[j],
                recs,
                decs,
                abis,
                decode,
                outs[j]@,
                (fuel - 1) as nat,
            )
    }
}

/// Every entry of `a` stands unchanged in `b`.
pub open spec fn extends<V>(a: Map<Seq<char>, V>, b: Map<Seq<char>, V>) -> bool {
    forall|k: Seq<char>| #[trigger] a.contains_key(k) ==> b.contains_key(k) && b[k] == a[k]
}

/// A trace stays a trace when more records and attempts become known.
pub proof fn lemma_trace_extends(
    m: Message,
    recs: Records,
    decs: Attempts,
    recs2: Records,
    decs2: Attempts,
    abis: Seq<Seq<char>>,
    decode: bool,
    id: Seq<char>,
    fuel: nat,
)
    requires
        is_trace(m, recs, decs, abis, decode, id, fuel),
        extends(recs, recs2),
        extends(decs, decs2),
    ensures
        is_trace(m, recs2, decs2, abis, decode, id, fuel),
    decreases fuel,
{
    let r = recs[id];
    let outs = r.dst_transaction.out_msgs@;
    let kids = m.transaction->Some_0.messages@;
    assert forall|j: int| 0 <= j < outs.len() implies is_trace(
        #[trigger] kids[j],
        recs2,
        decs2,
        abis,
        decode,
        outs[j]@,
        (fuel - 1) as nat,
    ) by {
        lemma_trace_extends(kids[j], recs, decs, recs2, decs2, abis, decode, outs[j]@, (fuel - 1) as nat);
    }
}

pub open spec fn children_of(m: Message) -> Seq<Message> {
    match m.transaction {
        Some(t) => t.messages@,
        None => Seq::empty(),
    }
}

/// How many levels the tree `m` has, counted down to `fuel`.
pub open spec fn tree_levels(m: Message, fuel: nat) -> nat
    decreases fuel, 0nat,
{
    if fuel == 0 {
        0
    } else {
        1 + forest_levels(children_of(m), children_of(m).len() as int, (fuel - 1) as nat)
    }
}

/// The most levels among the first `n` trees of `kids`.
pub open spec fn forest_levels(kids: Seq<Message>, n: int, fuel: nat) -> nat
    decreases fuel, if n <= 0 { 0nat } else { n as nat },
{
    if n <= 0 {
        0
    } else {
        let a = forest_levels(kids, n - 1, fuel);
        let b = tree_levels(kids[n - 1], fuel);
        if a >= b {
            a
        } else {
            b
        }
    }
}

/// How many levels of emitted messages the records give from `id`: the
/// message itself, and below it the deepest of the messages that its
/// transaction emitted; counted down to `fuel`.
pub open spec fn chain_levels(recs: Records, id: Seq<char>, fuel: nat) -> nat
    decreases fuel, 0nat,
{
    if fuel == 0 || !recs.contains_key(id) {
        0
    } else {
        let outs = recs[id].dst_transaction.out_msgs@;
        1 + emitted_levels(recs, outs, outs.len() as int, (fuel - 1) as nat)
    }
}

/// The most levels among the chains from the first `n` ids of `outs`.
pub open spec fn emitted_levels(recs: Records, outs: Seq<String>, n: int, fuel: nat) -> nat
    decreases fuel, if n <= 0 { 0nat } else { n as nat },
{
    if n <= 0 {
        0
    } else {
        let a = emitted_levels(recs, outs, n - 1, fuel);
        let b = chain_levels(recs, outs[n - 1]@, fuel);
        if a >= b {
            a
        } else {
            b
        }
    }
}

/// A trace has as many levels as the chain of emitted messages in the
/// records it was traced over.
pub proof fn lemma_trace_levels(
    m: Message,
    recs: Records,
    decs: Attempts,
    abis: Seq<Seq<char>>,
    decode: bool,
    id: Seq<char>,
    fuel: nat,
)
    requires
        is_trace(m, recs, decs, abis, decode, id, fuel),
    ensures
        tree_levels(m, fuel) == chain_levels(recs, id, fuel),
    decreases fuel, 0nat,
{
    let outs = recs[id].dst_transaction.out_msgs@;
    assert(fuel > 0);
    lemma_forest_levels(children_of(m), recs, decs, abis, decode, outs, outs.len() as int, (fuel - 1) as nat);
}

proof fn lemma_forest_levels(
    kids: Seq<Message>,
    recs: Records,
    decs: Attempts,
    abis: Seq<Seq<char>>,
    decode: bool,
    outs: Seq<String>,
    n: int,
    fuel: nat,
)
    requires
        0 <= n <= kids.len(),
        kids.len() == outs.len(),
        forall|j: int| 0 <= j < outs.len() ==> is_trace(#[trigger] kids[j], recs, decs, abis, decode, outs[j]@, fuel),
    ensures
        forest_levels(kids, n, fuel) == emitted_levels(recs, outs, n, fuel),
    decreases fuel, n,
{
    if n > 0 {
        lemma_forest_levels(kids, recs, decs, abis, decode, outs, n - 1, fuel);
        lemma_trace_levels(kids[n - 1], recs, decs, abis, decode, outs[n - 1]@, fuel);
    }
}

/// Two messages hold the same content, level by level down to `fuel`.
pub open spec fn same_content(a: Message, b: Message, fuel: nat) -> bool
    decreases fuel,
{
    &&& a.id@ == b.id@
    &&& a.src@ == b.src@
    &&& a.dst@ == b.dst@
    &&& a.boc@ == b.boc@
    &&& decoded_view(a.decoded) == decoded_view(b.decoded)
    &&& a.transaction is Some <==> b.transaction is Some
    &&& a.transaction is Some ==> {
        let ta = a.transaction->Some_0;
        let tb = b.transaction->Some_0;
        &&& ta.id@ == tb.id@
        &&& ta.aborted == tb.aborted
        &&& ta.lt == tb.lt
        &&& ta.exit_code == tb.exit_code
        &&& ta.vm_steps == tb.vm_steps
        &&& ta.messages@.len() == tb.messages@.len()
        &&& fuel > 0 ==> forall|j: int|
            0 <= j < ta.messages@.len() ==> same_content(
                #[trigger] ta.messages@[j],
                tb.messages@[j],
                (fuel - 1) as nat,
            )
    }
}

/// Tracing is a function of what the ledger returned and of what the
/// decoding attempts gave: two traces of one id over the same records and
/// attempts hold the same content at every level.
pub proof fn lemma_trace_deterministic(
    a: Message,
    b: Message,
    recs: Records,
    decs: Attempts,
    abis: Seq<Seq<char>>,
    decode: bool,
    id: Seq<char>,
    fuel: nat,
)
    requires
        is_trace(a, recs, decs, abis, decode, id, fuel),
        is_trace(b, recs, decs, abis, decode, id, fuel),
    ensures
        same_content(a, b, fuel),
    decreases fuel,
{
    let r = recs[id];
    let outs = r.dst_transaction.out_msgs@;
    let ka = a.transaction->Some_0.messages@;
    let kb = b.transaction->Some_0.messages@;
    assert forall|j: int| 0 <= j < ka.len() implies same_content(
        #[trigger] ka[j],
        kb[j],
        (fuel - 1) as nat,
    ) by {
        lemma_trace_deterministic(ka[j], kb[j], recs, decs, abis, decode, outs[j]@, (fuel - 1) as nat);
    }
}

/// One frame of the walk: a fetched record, the search for a description
/// that decodes its body, and the traces of the emitted messages so far.
pub struct TraceFrame {
    pub record: GraphQLMessage,
    pub search: DecodeSearch,
    pub children: Vec<Message>,
}

/// How the walk's stack moves within one step: from `a` some frames at
/// the top finish, each attached as the last child of the frame beneath it;
/// every other frame is kept as it was.
pub open spec fn popped_into(a: Seq<TraceFrame>, b: Seq<TraceFrame>) -> bool {
    &&& b.len() <= a.len()
    &&& b.len() == a.len() ==> b == a
    &&& forall|i: int| 0 <= i < b.len() - 1 ==> #[trigger] b[i] == a[i]
    &&& (0 < b.len() < a.len()) ==> {
        let t = b.len() - 1;
        &&& b[t].record == a[t].record
        &&& b[t].search == a[t].search
        &&& b[t].children@.len() == a[t].children@.len() + 1
        &&& b[t].children@.drop_last() == a[t].children@
        &&& b[t].children@.last().id == a[t + 1].record.id
    }
}

/// Why a trace stopped without a tree.
#[derive(Debug, PartialEq, Eq)]
pub enum TraceError {
    /// Fetching a message failed.
    Ledger(LedgerError),
    /// The chain of emitted messages is deeper than the walk allows.
    TraceTooDeep,
    /// The ledger answered a fetch with the record of another message.
    UnexpectedRecord,
    /// A message id came up a second time in one trace.
    RepeatedMessage,
    /// An event came that the walk was not waiting for.
    UnexpectedEvent,
}

/// What the caller did on the walk's behalf.
#[derive(Debug, PartialEq, Eq)]
pub enum TraceEvent {
    /// The record of the message that was asked for.
    Fetched(GraphQLMessage),
    /// Fetching the message failed.
    FetchFailed(LedgerError),
    /// Decoding the body with the description asked for gave this value,
    /// or nothing.
    Decoded(Option<String>),
}

/// What the walk asks of the caller next.
#[derive(Debug, PartialEq, Eq)]
pub enum TraceAction {
    /// Fetch the record of this message, with its resulting transaction.
    Fetch(String),
    /// Try the description at this index of the list on this body.
    Decode { abi: usize, boc: String },
    /// The trace is complete.
    Done(Message),
    /// The trace stopped.
    Failed(TraceError),
}

/// The state of one trace.
pub struct Tracer {
    pub abis: Vec<String>,
    pub decode: bool,
    pub max_depth: usize,
    pub root: String,
    /// The frames from the root down to the message being handled.
    pub stack: Vec<TraceFrame>,
    /// The message whose record is awaited.
    pub waiting: Option<String>,
    pub finished: bool,
    /// The ids fetched so far.
    pub seen: Vec<String>,
    /// The record that the ledger returned for each fetched id.
    pub records: Ghost<Records>,
    /// The decoding attempts on each finished message.
    pub attempts: Ghost<Attempts>,
}

impl Tracer {
    pub open spec fn abi_paths(&self) -> Seq<Seq<char>> {
        paths_of(self.abis@)
    }

    pub open spec fn top(&self) -> TraceFrame {
        self.stack@.last()
    }

    pub open spec fn frame_ok(&self, i: int) -> bool {
        let f = self.stack@[i];
        let outs = f.record.dst_transaction.out_msgs@;
        &&& f.search.wf(self.abi_paths())
        &&& self.records@.contains_key(f.record.id@)
        &&& self.records@[f.record.id@] == f.record
        &&& !self.attempts@.contains_key(f.record.id@)
        &&& f.children@.len() <= outs.len()
        &&& forall|j: int|
            0 <= j < f.children@.len() ==> is_trace(
                #[trigger] f.children@[j],
                self.records@,
                self.attempts@,
                self.abi_paths(),
                self.decode,
                outs[j]@,
                (self.max_depth - i - 1) as nat,
            )
        &&& i < self.stack@.len() - 1 ==> {
            &&& f.children@.len() < outs.len()
            &&& self.stack@[i + 1].record.id@ == outs[f.children@.len() as int]@
            &&& (self.decode ==> f.search.is_done(self.abi_paths()))
        }
    }

    /// What holds in every state, the phase aside.
    pub open spec fn core_ok(&self) -> bool {
        &&& self.stack@.len() <= self.max_depth
        &&& forall|i: int| 0 <= i < self.stack@.len() ==> #[trigger] self.frame_ok(i)
        &&& self.ids_ok()
    }

    /// The ids in play: the frames' are distinct and start at the root,
    /// `seen` lists those of the records, and each record stands as a frame
    /// or among the finished messages.
    pub open spec fn ids_ok(&self) -> bool {
        &&& forall|i: int, j: int|
            0 <= i < j < self.stack@.len() ==> (#[trigger] self.stack@[i]).record.id@
                != (#[trigger] self.stack@[j]).record.id@
        &&& self.stack@.len() > 0 ==> self.stack@[0].record.id@ == self.root@
        &&& forall|i: int|
            0 <= i < self.seen@.len() ==> self.records@.contains_key((#[trigger] self.seen@[i])@)
        &&& forall|k: Seq<char>|
            #[trigger] self.records@.contains_key(k) ==> exists|i: int|
                0 <= i < self.seen@.len() && (#[trigger] self.seen@[i])@ == k
        &&& forall|k: Seq<char>|
            #[trigger] self.attempts@.contains_key(k) ==> self.records@.contains_key(k)
        &&& forall|k: Seq<char>|
            #[trigger] self.records@.contains_key(k) ==> self.attempts@.contains_key(k) || exists|i: int|
                0 <= i < self.stack@.len() && (#[trigger] self.stack@[i]).record.id@ == k
    }

    /// What the walk waits for: a record (the root's, or that of the next
    /// message that the top frame's transaction emitted), or the outcome of
    /// a decoding attempt on the top frame.
    pub open spec fn phase_ok(&self) -> bool {
        !self.finished ==> match self.waiting {
            Some(w) => !self.records@.contains_key(w@) && self.stack@.len() < self.max_depth && if self.stack@.len() == 0 {
                w@ == self.root@
            } else {
                let t = self.top();
                &&& t.children@.len() < t.record.dst_transaction.out_msgs@.len()
                &&& w@ == t.record.dst_transaction.out_msgs@[t.children@.len() as int]@
                &&& (self.decode ==> t.search.is_done(self.abi_paths()))
            },
            None => {
                &&& self.stack@.len() > 0
                &&& self.decode
                &&& !self.top().search.is_done(self.abi_paths())
            },
        }
    }

    pub open spec fn wf(&self) -> bool {
        self.core_ok() && self.phase_ok()
    }

    /// The attempts `outs` on message `x` are kept: by the frame at index
    /// `k`, or, once that frame finished, in the log of attempts.
    pub open spec fn holds_attempts(&self, k: int, x: Seq<char>, outs: Seq<Option<Seq<char>>>) -> bool {
        ||| {
            &&& 0 <= k < self.stack@.len()
            &&& self.stack@[k].record.id@ == x
            &&& self.stack@[k].search.outcomes@ == outs
        }
        ||| {
            &&& self.attempts@.contains_key(x)
            &&& self.attempts@[x] == outs
        }
    }

    /// `event` is the record that the walk waits for.
    pub open spec fn accepts(&self, event: TraceEvent) -> bool {
        &&& !self.finished
        &&& self.waiting is Some
        &&& event is Fetched
        &&& event->Fetched_0.id@ == self.waiting->Some_0@
    }

    /// `event` is the outcome of the decoding attempt that the walk waits for.
    pub open spec fn takes_outcome(&self, event: TraceEvent) -> bool {
        &&& !self.finished
        &&& self.waiting is None
        &&& event is Decoded
    }

    /// The id that the top frame's transaction emitted next.
    pub open spec fn next_id(&self) -> Seq<char> {
        let t = self.top();
        t.record.dst_transaction.out_msgs@[t.children@.len() as int]@
    }

    /// `r` refuses to fetch the next emitted message: it was fetched
    /// before in this trace, or fetching it would go deeper than allowed.
    pub open spec fn refused_next(&self, r: TraceAction) -> bool {
        &&& self.stack@.len() > 0
        &&& self.top().children@.len() < self.top().record.dst_transaction.out_msgs@.len()
        &&& (self.decode ==> self.top().search.is_done(self.abi_paths()))
        &&& {
            ||| r == TraceAction::Failed(TraceError::RepeatedMessage) && self.records@.contains_key(
                self.next_id(),
            )
            ||| r == TraceAction::Failed(TraceError::TraceTooDeep) && !self.records@.contains_key(
                self.next_id(),
            ) && self.stack@.len() >= self.max_depth
        }
    }

    /// What the state's ghost log says of the trace it hands over.
    pub open spec fn traced(&self, m: Message) -> bool {
        is_trace(
            m,
            self.records@,
            self.attempts@,
            self.abi_paths(),
            self.decode,
            self.root@,
            self.max_depth as nat,
        )
    }
}

impl Tracer {
    /// A walk from the message `root`, at most `max_depth` levels deep,
    /// decoding bodies against `abis` when `decode` is set. The first action
    /// is to fetch the root; with no level allowed, the walk stops at once.
    pub fn new(abis: Vec<String>, decode: bool, max_depth: usize, root: String) -> (r: (Tracer, TraceAction))
        ensures
            r.0.wf(),
            r.0.abis == abis,
            r.0.decode == decode,
            r.0.max_depth == max_depth,
            r.0.root == root,
            r.0.stack@.len() == 0,
            r.0.records@ == Records::empty(),
            r.0.attempts@ == Attempts::empty(),
            max_depth > 0 ==> {
                &&& !r.0.finished
                &&& r.0.waiting == Some(root)
                &&& r.1 == TraceAction::Fetch(root)
            },
            max_depth == 0 ==> r.0.finished && r.1 == TraceAction::Failed(TraceError::TraceTooDeep),
    {
        if max_depth == 0 {
            let t = Tracer {
                abis,
                decode,
                max_depth,
                root,
                stack: Vec::new(),
                waiting: None,
                finished: true,
                seen: Vec::new(),
                records: Ghost(Map::empty()),
                attempts: Ghost(Map::empty()),
            };
            return (t, TraceAction::Failed(TraceError::TraceTooDeep));
        }
        let first = root.clone();
        let waiting = root.clone();
        let t = Tracer {
            abis,
            decode,
            max_depth,
            root,
            stack: Vec::new(),
            waiting: Some(waiting),
            finished: false,
            seen: Vec::new(),
            records: Ghost(Map::empty()),
            attempts: Ghost(Map::empty()),
        };
        (t, TraceAction::Fetch(first))
    }

    /// Moves on from a frame whose record is in hand: tries the next
    /// description on its body, fetches its next emitted message, or, once
    /// all are traced, hands the finished message to the frame above.
    fn advance(&mut self) -> (r: TraceAction)
        requires
            old(self).core_ok(),
            old(self).stack@.len() > 0,
            !old(self).finished,
            old(self).waiting is None,
        ensures
            final(self).wf(),
            final(self).abis == old(self).abis,
            final(self).decode == old(self).decode,
            final(self).max_depth == old(self).max_depth,
            final(self).root == old(self).root,
            final(self).seen == old(self).seen,
            final(self).records == old(self).records,
            extends(old(self).attempts@, final(self).attempts@),
            r is Done ==> final(self).finished && final(self).traced(r->Done_0),
            r is Fetch ==> !final(self).finished && final(self).waiting == Some(r->Fetch_0),
            r is Decode ==> {
                &&& !final(self).finished
                &&& final(self).waiting is None
                &&& r->abi == final(self).top().search.next
                &&& r->boc == final(self).top().record.boc
            },
            r is Failed ==> final(self).finished && final(self).refused_next(r),
            forall|k: int, x: Seq<char>, outs: Seq<Option<Seq<char>>>|
                #[trigger] old(self).holds_attempts(k, x, outs) ==> final(self).holds_attempts(k, x, outs),
            popped_into(old(self).stack@, final(self).stack@),
    {
        loop
            invariant
                self.core_ok(),
                self.stack@.len() > 0,
                !self.finished,
                self.waiting is None,
                self.abis == old(self).abis,
                self.decode == old(self).decode,
                self.max_depth == old(self).max_depth,
                self.root == old(self).root,
                self.seen == old(self).seen,
                self.records == old(self).records,
                extends(old(self).attempts@, self.attempts@),
                forall|k: int, x: Seq<char>, outs: Seq<Option<Seq<char>>>|
                    #[trigger] old(self).holds_attempts(k, x, outs) ==> self.holds_attempts(k, x, outs),
                popped_into(old(self).stack@, self.stack@),
            decreases self.stack@.len(),
        {
            let k = self.stack.len() - 1;
            assert(self.frame_ok(k as int));
            if self.decode {
                match self.stack[k].search.pending(&self.abis) {
                    Some(i) => {
                        let boc = self.stack[k].record.boc.clone();
                        return TraceAction::Decode { abi: i, boc };
                    },
                    None => {},
                }
            }
            let n_children = self.stack[k].children.len();
            if n_children < self.stack[k].record.dst_transaction.out_msgs.len() {
                let next = self.stack[k].record.dst_transaction.out_msgs[n_children].clone();
                assert(self.top() == self.stack@[k as int]);
                if contains_id(&self.seen, &next) {
                    proof {
                        let i = choose|i: int| 0 <= i < self.seen@.len() && (#[trigger] self.seen@[i])@ == next@;
                        assert(self.records@.contains_key(self.seen@[i]@));
                    }
                    return self.fail(TraceError::RepeatedMessage);
                }
                assert(!self.records@.contains_key(next@));
                if self.stack.len() >= self.max_depth {
                    return self.fail(TraceError::TraceTooDeep);
                }
                let ghost before = *self;
                self.waiting = Some(next.clone());
                assert forall|i: int| 0 <= i < self.stack@.len() implies #[trigger] self.frame_ok(i) by {
                    assert(before.frame_ok(i));
                }
                return TraceAction::Fetch(next);
            }
            let ghost old_self = *self;
            let frame = self.stack.pop().unwrap();
            let ghost fid = frame.record.id@;
            let ghost outs = frame.search.outcomes@;
            let ghost fuel = (self.max_depth - k) as nat;
            let ghost kids = frame.children@;
            let m = finish_frame(frame, self.decode, &self.abis);
            proof {
                let decs2 = self.attempts@.insert(fid, outs);
                let outm = frame.record.dst_transaction.out_msgs@;
                assert(extends(self.attempts@, decs2));
                assert forall|j: int| 0 <= j < kids.len() implies is_trace(
                    #[trigger] kids[j],
                    self.records@,
                    decs2,
                    self.abi_paths(),
                    self.decode,
                    outm[j]@,
                    (fuel - 1) as nat,
                ) by {
                    lemma_trace_extends(kids[j], self.records@, self.attempts@, self.records@, decs2,
                        self.abi_paths(), self.decode, outm[j]@, (fuel - 1) as nat);
                }
                assert(m.transaction->Some_0.messages@ == kids);
                assert(is_trace(m, self.records@, decs2, self.abi_paths(), self.decode, fid, fuel));
                assert forall|i: int| 0 <= i < self.stack@.len() implies #[trigger] self.stack@[i].record.id@ != fid by {
                    assert(old_self.stack@[i] == self.stack@[i]);
                    assert(old_self.stack@[k as int].record.id@ == fid);
                }
                assert forall|i: int, j: int| 0 <= i < self.stack@.len() && 0 <= j < self.stack@[i].children@.len()
                    implies is_trace(
                    #[trigger] self.stack@[i].children@[j],
                    self.records@,
                    decs2,
                    self.abi_paths(),
                    self.decode,
                    self.stack@[i].record.dst_transaction.out_msgs@[j]@,
                    (self.max_depth - i - 1) as nat,
                ) by {
                    assert(old_self.frame_ok(i));
                    assert(old_self.stack@[i] == self.stack@[i]);
                    lemma_trace_extends(self.stack@[i].children@[j], self.records@, self.attempts@, self.records@, decs2,
                        self.abi_paths(), self.decode, self.stack@[i].record.dst_transaction.out_msgs@[j]@,
                        (self.max_depth - i - 1) as nat);
                }
                self.attempts = Ghost(decs2);
                assert forall|kk: int, x: Seq<char>, o: Seq<Option<Seq<char>>>|
                    #[trigger] old_self.holds_attempts(kk, x, o) implies self.holds_attempts(kk, x, o) by {
                    if 0 <= kk < old_self.stack@.len() && old_self.stack@[kk].record.id@ == x
                        && old_self.stack@[kk].search.outcomes@ == o {
                        if kk < k {
                            assert(self.stack@[kk] == old_self.stack@[kk]);
                        }
                    }
                }
            }
            proof {
                assert forall|key: Seq<char>| #[trigger] self.records@.contains_key(key) implies self.attempts@.contains_key(key) || exists|i: int|
                    0 <= i < self.stack@.len() && (#[trigger] self.stack@[i]).record.id@ == key by {
                    if key != fid && !old_self.attempts@.contains_key(key) {
                        let w = choose|i: int| 0 <= i < old_self.stack@.len() && (#[trigger] old_self.stack@[i]).record.id@ == key;
                        assert(w != k);
                        assert(self.stack@[w] == old_self.stack@[w]);
                    }
                }
            }
            let ghost popped = *self;
            proof {
                assert forall|i: int, j: int| 0 <= i < j < self.stack@.len() implies
                    (#[trigger] self.stack@[i]).record.id@ != (#[trigger] self.stack@[j]).record.id@ by {
                    assert(old_self.stack@[i] == self.stack@[i]);
                    assert(old_self.stack@[j] == self.stack@[j]);
                }
                if self.stack@.len() > 0 {
                    assert(old_self.stack@[0] == self.stack@[0]);
                }
                assert forall|key: Seq<char>| #[trigger] self.records@.contains_key(key) implies exists|i: int|
                    0 <= i < self.seen@.len() && (#[trigger] self.seen@[i])@ == key by {
                    let w = choose|i: int| 0 <= i < old_self.seen@.len() && (#[trigger] old_self.seen@[i])@ == key;
                    assert(self.seen@[w]@ == key);
                }
                assert(popped.ids_ok());
            }
            if self.stack.len() == 0 {
                self.finished = true;
                return TraceAction::Done(m);
            }
            let ghost mid = *self;
            let ghost m_id = m.id;
            let mut parent = self.stack.pop().unwrap();
            let ghost parent_before = parent;
            parent.children.push(m);
            self.stack.push(parent);
            proof {
                let a = old(self).stack@;
                let b = self.stack@;
                let t = b.len() - 1;
                assert(old_self.stack@[k as int].record.id == m_id);
                assert(old_self.stack@[k as int].record == a[k as int].record);
                assert(parent_before == old_self.stack@[t]);
                assert(old_self.stack@[t] == a[t]);
                assert(b[t].children@.drop_last() =~= a[t].children@);
                assert forall|i: int| 0 <= i < b.len() - 1 implies #[trigger] b[i] == a[i] by {
                    assert(b[i] == old_self.stack@[i]);
                }
            }
            proof {
                assert forall|i: int| 0 <= i < self.stack@.len() implies #[trigger] self.frame_ok(i) by {
                    assert(old_self.frame_ok(i));
                    if i < self.stack@.len() - 1 {
                        assert(self.stack@[i] == mid.stack@[i]);
                        assert(self.stack@[i + 1].record == mid.stack@[i + 1].record);
                    } else {
                        let f = self.stack@[i];
                        assert forall|j: int| 0 <= j < f.children@.len() implies is_trace(
                            #[trigger] f.children@[j],
                            self.records@,
                            self.attempts@,
                            self.abi_paths(),
                            self.decode,
                            f.record.dst_transaction.out_msgs@[j]@,
                            (self.max_depth - i - 1) as nat,
                        ) by {
                            if j < f.children@.len() - 1 {
                                assert(f.children@[j] == mid.stack@[i].children@[j]);
                            }
                        }
                    }
                }
                assert forall|i: int| 0 <= i < self.stack@.len() implies (#[trigger] self.stack@[i]).record
                    == popped.stack@[i].record by {
                    if i < self.stack@.len() - 1 {
                        assert(self.stack@[i] == mid.stack@[i]);
                    }
                }
                lemma_ids_kept(popped, *self);
                lemma_holds_kept(popped, *self);
            }
        }
    }
}

/// A state whose log and whose frames' records are those of a well-formed
/// one keeps its ids in order.
proof fn lemma_ids_kept(a: Tracer, b: Tracer)
    requires
        a.ids_ok(),
        b.root == a.root,
        b.seen == a.seen,
        b.records == a.records,
        b.attempts == a.attempts,
        b.stack@.len() == a.stack@.len(),
        forall|i: int| 0 <= i < a.stack@.len() ==> (#[trigger] b.stack@[i]).record == a.stack@[i].record,
    ensures
        b.ids_ok(),
{
    assert forall|i: int, j: int| 0 <= i < j < b.stack@.len() implies
        (#[trigger] b.stack@[i]).record.id@ != (#[trigger] b.stack@[j]).record.id@ by {
        assert(b.stack@[i].record == a.stack@[i].record);
        assert(b.stack@[j].record == a.stack@[j].record);
    }
    if b.stack@.len() > 0 {
        assert(b.stack@[0].record == a.stack@[0].record);
    }
    assert forall|k: Seq<char>| #[trigger] b.records@.contains_key(k) implies exists|i: int|
        0 <= i < b.seen@.len() && (#[trigger] b.seen@[i])@ == k by {
        let w = choose|i: int| 0 <= i < a.seen@.len() && (#[trigger] a.seen@[i])@ == k;
        assert(b.seen@[w]@ == k);
    }
    assert forall|k: Seq<char>| #[trigger] b.records@.contains_key(k) implies b.attempts@.contains_key(k) || exists|i: int|
        0 <= i < b.stack@.len() && (#[trigger] b.stack@[i]).record.id@ == k by {
        if !a.attempts@.contains_key(k) {
            let w = choose|i: int| 0 <= i < a.stack@.len() && (#[trigger] a.stack@[i]).record.id@ == k;
            assert(b.stack@[w].record == a.stack@[w].record);
        }
    }
}

/// A state that differs from a well-formed one in its phase alone is
/// well-formed but for its phase.
proof fn lemma_core_ok_kept(a: Tracer, b: Tracer)
    requires
        a.core_ok(),
        b.abis == a.abis,
        b.decode == a.decode,
        b.max_depth == a.max_depth,
        b.root == a.root,
        b.stack == a.stack,
        b.seen == a.seen,
        b.records == a.records,
        b.attempts == a.attempts,
    ensures
        b.core_ok(),
{
    assert forall|i: int| 0 <= i < b.stack@.len() implies #[trigger] b.frame_ok(i) by {
        assert(a.frame_ok(i));
    }
    lemma_ids_kept(a, b);
}

/// A state whose frames keep, index by index, the ids and decoding attempts
/// of another's, and whose log extends the other's, keeps every attempt that
/// the other kept.
proof fn lemma_holds_kept(a: Tracer, b: Tracer)
    requires
        extends(a.attempts@, b.attempts@),
        b.stack@.len() >= a.stack@.len(),
        forall|i: int|
            0 <= i < a.stack@.len() ==> (#[trigger] b.stack@[i]).record.id@ == a.stack@[i].record.id@
                && b.stack@[i].search.outcomes@ == a.stack@[i].search.outcomes@,
    ensures
        forall|k: int, x: Seq<char>, outs: Seq<Option<Seq<char>>>|
            #[trigger] a.holds_attempts(k, x, outs) ==> b.holds_attempts(k, x, outs),
{
    assert forall|k: int, x: Seq<char>, outs: Seq<Option<Seq<char>>>|
        #[trigger] a.holds_attempts(k, x, outs) implies b.holds_attempts(k, x, outs) by {
        if 0 <= k < a.stack@.len() && a.stack@[k].record.id@ == x && a.stack@[k].search.outcomes@ == outs {
            assert(b.stack@[k].record.id@ == x);
        }
    }
}

impl Tracer {
    /// Ends the walk with `e`.
    fn fail(&mut self, e: TraceError) -> (r: TraceAction)
        requires
            old(self).core_ok(),
        ensures
            final(self).wf(),
            final(self).finished,
            final(self).abis == old(self).abis,
            final(self).decode == old(self).decode,
            final(self).max_depth == old(self).max_depth,
            final(self).root == old(self).root,
            final(self).records == old(self).records,
            final(self).attempts == old(self).attempts,
            final(self).stack == old(self).stack,
            final(self).seen == old(self).seen,
            r == TraceAction::Failed(e),
    {
        let ghost before = *self;
        self.finished = true;
        proof {
            lemma_core_ok_kept(before, *self);
        }
        TraceAction::Failed(e)
    }

    /// Takes in what came of the last action and returns the next one.
    ///
    /// A record is taken only for the message that was asked for. A fetch
    /// is asked for only of a message not fetched before in this trace and
    /// within `max_depth` levels; otherwise the walk stops with
    /// `RepeatedMessage` or `TraceTooDeep`. Frames are never set aside: a
    /// frame leaves the stack only when it is finished, as the last child of
    /// the frame beneath it. Once the trace is complete, the
    /// tree handed over is the trace of the root over the records and
    /// decoding outcomes that came in.
    pub fn step(&mut self, event: TraceEvent) -> (r: TraceAction)
        requires
            old(self).wf(),
        ensures
            final(self).wf(),
            final(self).abis == old(self).abis,
            final(self).decode == old(self).decode,
            final(self).max_depth == old(self).max_depth,
            final(self).root == old(self).root,
            final(self).records@ == (if old(self).accepts(event) {
                old(self).records@.insert(old(self).waiting->Some_0@, event->Fetched_0)
            } else {
                old(self).records@
            }),
            extends(old(self).attempts@, final(self).attempts@),
            r is Done ==> final(self).finished && final(self).traced(r->Done_0),
            r is Failed ==> final(self).finished,
            r is Fetch ==> {
                &&& !final(self).finished
                &&& final(self).waiting == Some(r->Fetch_0)
                &&& !final(self).records@.contains_key(r->Fetch_0@)
                &&& final(self).stack@.len() < final(self).max_depth
            },
            r is Decode ==> {
                &&& !final(self).finished
                &&& final(self).waiting is None
                &&& r->abi == final(self).top().search.next
                &&& !final(self).top().search.is_done(final(self).abi_paths())
                &&& r->boc == final(self).top().record.boc
            },
            old(self).finished ==> r == TraceAction::Failed(TraceError::UnexpectedEvent),
            !old(self).finished && old(self).waiting is Some && event is FetchFailed ==> r
                == TraceAction::Failed(TraceError::Ledger(event->FetchFailed_0)),
            !old(self).finished && old(self).waiting is Some && event is Fetched ==> {
                if event->Fetched_0.id@ != old(self).waiting->Some_0@ {
                    r == TraceAction::Failed(TraceError::UnexpectedRecord)
                } else {
                    &&& (r is Failed ==> final(self).refused_next(r))
                    &&& final(self).holds_attempts(old(self).stack@.len() as int, event->Fetched_0.id@, Seq::empty())
                }
            },
            !old(self).finished && old(self).waiting is Some && event is Decoded ==> r == TraceAction::Failed(
                TraceError::UnexpectedEvent,
            ),
            !old(self).finished && old(self).waiting is None && !(event is Decoded) ==> r == TraceAction::Failed(
                TraceError::UnexpectedEvent,
            ),
            !old(self).finished && old(self).waiting is None && event is Decoded ==> {
                &&& (r is Failed ==> final(self).refused_next(r))
                &&& final(self).holds_attempts(
                    old(self).stack@.len() - 1,
                    old(self).top().record.id@,
                    old(self).top().search.outcomes@.push(outcome_view(event->Decoded_0)),
                )
            },
            forall|k: int, x: Seq<char>, outs: Seq<Option<Seq<char>>>|
                #[trigger] old(self).holds_attempts(k, x, outs) && !(old(self).takes_outcome(event) && k
                    == old(self).stack@.len() - 1) ==> final(self).holds_attempts(k, x, outs),
            old(self).accepts(event) ==> exists|f: TraceFrame|
                {
                    &&& f.record == event->Fetched_0
                    &&& f.children@.len() == 0
                    &&& f.search.outcomes@.len() == 0
                    &&& #[trigger] popped_into(old(self).stack@.push(f), final(self).stack@)
                },
            old(self).takes_outcome(event) ==> exists|f: TraceFrame|
                {
                    &&& f.record == old(self).top().record
                    &&& f.children == old(self).top().children
                    &&& #[trigger] popped_into(old(self).stack@.drop_last().push(f), final(self).stack@)
                },
            !old(self).accepts(event) && !old(self).takes_outcome(event) ==> final(self).stack == old(self).stack,
    {
        if self.finished {
            return TraceAction::Failed(TraceError::UnexpectedEvent);
        }
        match event {
            TraceEvent::FetchFailed(e) => {
                if self.waiting.is_none() {
                    return self.fail(TraceError::UnexpectedEvent);
                }
                self.fail(TraceError::Ledger(e))
            },
            TraceEvent::Fetched(rec) => {
                let w = match &self.waiting {
                    Some(w) => w.clone(),
                    None => {
                        return self.fail(TraceError::UnexpectedEvent);
                    },
                };
                if rec.id != w {
                    return self.fail(TraceError::UnexpectedRecord);
                }
                let ghost before = *self;
                let ghost recs2 = self.records@.insert(w@, rec);
                proof {
                    assert(!self.records@.contains_key(w@));
                    assert(extends(self.records@, recs2));
                    assert forall|i: int, j: int| 0 <= i < self.stack@.len() && 0 <= j < self.stack@[i].children@.len()
                        implies is_trace(
                        #[trigger] self.stack@[i].children@[j],
                        recs2,
                        self.attempts@,
                        self.abi_paths(),
                        self.decode,
                        self.stack@[i].record.dst_transaction.out_msgs@[j]@,
                        (self.max_depth - i - 1) as nat,
                    ) by {
                        assert(self.frame_ok(i));
                        lemma_trace_extends(self.stack@[i].children@[j], self.records@, self.attempts@, recs2,
                            self.attempts@, self.abi_paths(), self.decode,
                            self.stack@[i].record.dst_transaction.out_msgs@[j]@, (self.max_depth - i - 1) as nat);
                    }
                    self.records = Ghost(recs2);
                }
                self.seen.push(w);
                self.stack.push(TraceFrame { record: rec, search: DecodeSearch::new(), children: Vec::new() });
                self.waiting = None;
                proof {
                    let n = before.stack@.len() as int;
                    assert forall|i: int| 0 <= i < self.stack@.len() implies #[trigger] self.frame_ok(i) by {
                        if i < n {
                            assert(before.frame_ok(i));
                            assert(self.stack@[i] == before.stack@[i]);
                            if i == n - 1 {
                                assert(before.top() == before.stack@[i]);
                            }
                        }
                    }
                    assert forall|i: int, j: int| 0 <= i < j < self.stack@.len() implies
                        (#[trigger] self.stack@[i]).record.id@ != (#[trigger] self.stack@[j]).record.id@ by {
                        if j < n {
                            assert(self.stack@[i] == before.stack@[i]);
                            assert(self.stack@[j] == before.stack@[j]);
                        } else {
                            assert(self.stack@[i] == before.stack@[i]);
                            assert(before.frame_ok(i));
                        }
                    }
                    assert forall|i: int| 0 <= i < self.seen@.len() implies self.records@.contains_key(
                        (#[trigger] self.seen@[i])@) by {
                        if i < before.seen@.len() {
                            assert(self.seen@[i] == before.seen@[i]);
                        }
                    }
                    assert forall|k: Seq<char>| #[trigger] self.records@.contains_key(k) implies exists|i: int|
                        0 <= i < self.seen@.len() && (#[trigger] self.seen@[i])@ == k by {
                        if k == w@ {
                            assert(self.seen@[self.seen@.len() - 1]@ == k);
                        } else {
                            assert(before.records@.contains_key(k));
                            let x = choose|i: int| 0 <= i < before.seen@.len() && (#[trigger] before.seen@[i])@ == k;
                            assert(self.seen@[x]@ == k);
                        }
                    }
                    if n > 0 {
                        assert(self.stack@[0] == before.stack@[0]);
                    }
                    lemma_holds_kept(before, *self);
                    assert forall|key: Seq<char>| #[trigger] self.records@.contains_key(key) implies self.attempts@.contains_key(key) || exists|i: int|
                        0 <= i < self.stack@.len() && (#[trigger] self.stack@[i]).record.id@ == key by {
                        if key == w@ {
                            assert(self.stack@[n].record.id@ == key);
                        } else if !before.attempts@.contains_key(key) {
                            let x = choose|i: int| 0 <= i < before.stack@.len() && (#[trigger] before.stack@[i]).record.id@ == key;
                            assert(self.stack@[x] == before.stack@[x]);
                        }
                    }
                    assert(self.holds_attempts(n, w@, Seq::empty()));
                }
                let ghost mid = self.stack@;
                let r = self.advance();
                proof {
                    assert(mid =~= before.stack@.push(mid.last()));
                    assert(popped_into(before.stack@.push(mid.last()), self.stack@));
                }
                r
            },
            TraceEvent::Decoded(o) => {
                if self.waiting.is_some() {
                    return self.fail(TraceError::UnexpectedEvent);
                }
                let ghost before = *self;
                proof {
                    assert(self.frame_ok(self.stack@.len() - 1));
                }
                let ghost ov = outcome_view(o);
                let mut frame = self.stack.pop().unwrap();
                frame.search.record(&self.abis, o);
                self.stack.push(frame);
                proof {
                    let n = before.stack@.len() as int;
                    assert(self.holds_attempts(n - 1, before.top().record.id@, before.top().search.outcomes@.push(ov)));
                    assert forall|i: int| 0 <= i < self.stack@.len() implies #[trigger] self.frame_ok(i) by {
                        assert(before.frame_ok(i));
                        if i < n - 1 {
                            assert(self.stack@[i] == before.stack@[i]);
                        }
                    }
                    assert forall|i: int| 0 <= i < n implies (#[trigger] self.stack@[i]).record
                        == before.stack@[i].record by {
                        if i < n - 1 {
                            assert(self.stack@[i] == before.stack@[i]);
                        }
                    }
                    lemma_ids_kept(before, *self);
                    assert forall|kk: int, x: Seq<char>, outs: Seq<Option<Seq<char>>>|
                        #[trigger] before.holds_attempts(kk, x, outs) && kk != n - 1 implies self.holds_attempts(
                        kk,
                        x,
                        outs,
                    ) by {
                        if 0 <= kk < n - 1 {
                            assert(self.stack@[kk] == before.stack@[kk]);
                        }
                    }
                }
                let ghost mid = self.stack@;
                let r = self.advance();
                proof {
                    assert(mid =~= before.stack@.drop_last().push(mid.last()));
                    assert(popped_into(before.stack@.drop_last().push(mid.last()), self.stack@));
                }
                r
            },
        }
    }
}

/// The message assembled from a finished frame.
fn finish_frame(frame: TraceFrame, decode: bool, abis: &Vec<String>) -> (m: Message)
    requires
        frame.search.wf(paths_of(abis@)),
    ensures
        m.id == frame.record.id,
        m.src == frame.record.src,
        m.dst == frame.record.dst,
        m.boc == frame.record.boc,
        decoded_view(m.decoded) == (if decode {
            first_match(paths_of(abis@), frame.search.outcomes@)
        } else {
            None
        }),
        m.transaction is Some,
        tx_matches(m.transaction->Some_0, frame.record.dst_transaction),
        m.transaction->Some_0.messages@ == frame.children@,
{
    let TraceFrame { record, search, children } = frame;
    let decoded: Option<DecodedData> = if decode {
        search.finish(abis)
    } else {
        None
    };
    let GraphQLMessage { id, src, dst, boc, dst_transaction } = record;
    let lt = parse_lt(dst_transaction.lt.as_str());
    let transaction = Transaction {
        id: dst_transaction.id,
        aborted: dst_transaction.aborted,
        lt,
        exit_code: dst_transaction.compute.exit_code,
        vm_steps: dst_transaction.compute.vm_steps,
        messages: children,
    };
    Message { id, src, dst, boc, decoded, transaction: Some(transaction) }
}

/// Whether `id` is among `ids`.
fn contains_id(ids: &Vec<String>, id: &String) -> (r: bool)
    ensures
        r == exists|i: int| 0 <= i < ids@.len() && (#[trigger] ids@[i])@ == id@,
{
    let mut i: usize = 0;
    while i < ids.len()
        invariant
            i <= ids@.len(),
            forall|k: int| 0 <= k < i ==> (#[trigger] ids@[k])@ != id@,
        decreases ids@.len() - i,
    {
        if ids[i] == *id {
            return true;
        }
        i = i + 1;
    }
    false
}

} // verus!
