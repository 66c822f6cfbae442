//! First-match decoding over an ordered list of interface descriptions, and
//! the one-shot assembly of a decoded account or message.
use vstd::prelude::*;
use crate::blockchain::{
    Account, AccountDecodedData, DecodedData, GraphQLAccount, GraphQLMessage, Message,
    MessageDecodedData,
};

verus! {

pub open spec fn paths_of(abis: Seq<String>) -> Seq<Seq<char>> {
    abis.map_values(|p: String| p@)
}

pub open spec fn decoded_view(d: Option<DecodedData>) -> Option<(Seq<char>, Seq<char>)> {
    match d {
        Some(d) => Some((d.abi_path@, d.data@)),
        None => None,
    }
}

pub open spec fn outcome_view(o: Option<String>) -> Option<Seq<char>> {
    match o {
        Some(v) => Some(v@),
        None => None,
    }
}

/// The first successful attempt: `outcomes[i]` is what trying `abis[i]`
/// gave; the match is the first description whose attempt produced a value,
/// paired with that value.
pub open spec fn first_match(abis: Seq<Seq<char>>, outcomes: Seq<Option<Seq<char>>>) -> Option<(Seq<char>, Seq<char>)>
    decreases outcomes.len(),
{
    if outcomes.len() == 0 {
        None
    } else {
        let prev = first_match(abis, outcomes.drop_last());
        if prev is Some {
            prev
        } else if outcomes.last() is Some {
            Some((abis[outcomes.len() - 1], outcomes.last()->Some_0))
        } else {
            None
        }
    }
}

/// When the attempt on the `k`-th description is the first that succeeds,
/// that description is the one recorded as the match, whatever the later
/// attempts would give.
pub proof fn lemma_first_match_source(abis: Seq<Seq<char>>, outcomes: Seq<Option<Seq<char>>>, k: int)
    requires
        0 <= k < outcomes.len(),
        outcomes[k] is Some,
        forall|j: int| 0 <= j < k ==> (#[trigger] outcomes[j]) is None,
    ensures
        first_match(abis, outcomes) == Some((abis[k], outcomes[k]->Some_0)),
    decreases outcomes.len(),
{
    if k < outcomes.len() - 1 {
        let p = outcomes.drop_last();
        assert forall|j: int| 0 <= j < k implies (#[trigger] p[j]) is None by {
            assert(p[j] == outcomes[j]);
        }
        lemma_first_match_source(abis, p, k);
    } else {
        lemma_first_match_none(abis, outcomes.drop_last());
    }
}

/// No attempt succeeded, so there is no match.
pub proof fn lemma_first_match_none(abis: Seq<Seq<char>>, outcomes: Seq<Option<Seq<char>>>)
    requires
        forall|j: int| 0 <= j < outcomes.len() ==> (#[trigger] outcomes[j]) is None,
    ensures
        first_match(abis, outcomes) is None,
    decreases outcomes.len(),
{
    if outcomes.len() > 0 {
        let p = outcomes.drop_last();
        assert forall|j: int| 0 <= j < p.len() implies (#[trigger] p[j]) is None by {
            assert(p[j] == outcomes[j]);
        }
        lemma_first_match_none(abis, p);
    }
}

/// A search for the first interface description that decodes a payload.
/// The caller asks `pending` which description to try next, tries it, and
/// hands the outcome to `record`; once a description matched, no further one
/// is asked for.
pub struct DecodeSearch {
    /// How many descriptions were tried.
    pub next: usize,
    /// The match, once one was found.
    pub found: Option<DecodedData>,
    /// What each attempt so far gave.
    pub outcomes: Ghost<Seq<Option<Seq<char>>>>,
}

impl DecodeSearch {
    pub open spec fn wf(&self, abis: Seq<Seq<char>>) -> bool {
        &&& self.outcomes@.len() == self.next
        &&& self.next <= abis.len()
        &&& decoded_view(self.found) == first_match(abis, self.outcomes@)
    }

    pub open spec fn is_done(&self, abis: Seq<Seq<char>>) -> bool {
        self.found is Some || self.next == abis.len()
    }

    /// A search that has tried nothing yet.
    pub fn new() -> (r: DecodeSearch)
        ensures
            r.next == 0,
            r.found is None,
            r.outcomes@ == Seq::<Option<Seq<char>>>::empty(),
            forall|abis: Seq<Seq<char>>| r.wf(abis),
    {
        DecodeSearch { next: 0, found: None, outcomes: Ghost(Seq::empty()) }
    }

    /// The index of the description to try now; `None` once a description
    /// matched or all were tried.
    pub fn pending(&self, abis: &Vec<String>) -> (r: Option<usize>)
        requires
            self.wf(paths_of(abis@)),
        ensures
            r == (if self.is_done(paths_of(abis@)) { None } else { Some(self.next) }),
    {
        if self.found.is_some() || self.next >= abis.len() {
            None
        } else {
            Some(self.next)
        }
    }

    /// Takes in what trying the pending description gave: a decoded value,
    /// or `None` when it did not decode.
    pub fn record(&mut self, abis: &Vec<String>, outcome: Option<String>)
        requires
            old(self).wf(paths_of(abis@)),
            !old(self).is_done(paths_of(abis@)),
        ensures
            final(self).wf(paths_of(abis@)),
            final(self).next == old(self).next + 1,
            final(self).outcomes@ == old(self).outcomes@.push(outcome_view(outcome)),
    {
        let ghost o = outcome_view(outcome);
        let ghost abis_v = paths_of(abis@);
        let i = self.next;
        let n = abis.len();
        assert(abis_v.len() == n);
        proof {
            let outs = self.outcomes@.push(o);
            assert(outs.drop_last() =~= self.outcomes@);
            self.outcomes = Ghost(outs);
        }
        match outcome {
            Some(data) => {
                self.found = Some(DecodedData { abi_path: abis[i].clone(), data });
            },
            None => {},
        }
        self.next = i + 1;
    }

    /// The match that the search found, if any.
    pub fn finish(self, abis: &Vec<String>) -> (r: Option<DecodedData>)
        requires
            self.wf(paths_of(abis@)),
        ensures
            decoded_view(r) == first_match(paths_of(abis@), self.outcomes@),
    {
        self.found
    }
}

/// The account assembled from its record and its decoded data.
pub fn assemble_account(record: GraphQLAccount, decoded: Option<AccountDecodedData>) -> (r: Account)
    ensures
        r.id == record.id,
        record.boc is Some ==> r.boc == record.boc->Some_0,
        record.boc is None ==> r.boc@ == Seq::<char>::empty(),
        r.code == record.code,
        r.data == record.data,
        r.decoded == decoded,
{
    let boc = match record.boc {
        Some(b) => b,
        None => String::new(),
    };
    Account { id: record.id, boc, code: record.code, data: record.data, decoded }
}

/// The message assembled from its record and its decoded body, without its
/// transaction (decode-only mode).
pub fn assemble_message(record: GraphQLMessage, decoded: Option<MessageDecodedData>) -> (r: Message)
    ensures
        r.id == record.id,
        r.src == record.src,
        r.dst == record.dst,
        r.boc == record.boc,
        r.decoded == decoded,
        r.transaction is None,
{
    Message {
        id: record.id,
        src: record.src,
        dst: record.dst,
        boc: record.boc,
        decoded,
        transaction: None,
    }
}

} // verus!
