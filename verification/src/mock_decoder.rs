//! A decoder that records what it is asked to decode, and answers as it was told.
use crate::bin::copy_vec;
use crate::bit_vector::BitVector;
use crate::collections::WordMap;
use crate::hypergraph::DecodingHypergraph;
use crate::registry::Registry;
use crate::status::{decimal, Status, StatusCode};
use vstd::prelude::*;

verus! {

/// How the decoder is set up.
#[derive(Debug, Clone, Copy, PartialEq, Eq, Structural)]
pub struct MockDecoderConfig {
    /// how long a decode takes, in milliseconds
    pub decode_delay_ms: u64,
}

impl MockDecoderConfig {
    /// How long a decode is held back, if at all.
    pub fn delay(&self) -> (ms: Option<u64>)
        ensures
            ms == (if self.decode_delay_ms > 0 {
                Some(self.decode_delay_ms)
            } else {
                None
            }),
    {
        if self.decode_delay_ms > 0 {
            Some(self.decode_delay_ms)
        } else {
            None
        }
    }
}

/// A problem that came with its hypergraph.
#[derive(Debug)]
pub struct DecodeProblem {
    pub hypergraph: DecodingHypergraph,
    pub syndrome: BitVector,
}

/// A problem for a loaded hypergraph.
#[derive(Debug)]
pub struct LoadedDecodeProblem {
    pub hid: u64,
    pub syndrome: BitVector,
}

/// What was recorded.
pub struct MockDecoderState {
    pub decode_calls: Vec<DecodeProblem>,
    pub loaded_hypergraphs: Registry<DecodingHypergraph>,
    pub decode_loaded_calls: Vec<LoadedDecodeProblem>,
    pub next_hid: u64,
    pub reset_count: usize,
    /// the row of the answer to each syndrome
    pub custom_responses: WordMap,
    /// the answers
    pub responses: Vec<Vec<u64>>,
}

/// Bytes as words.
pub open spec fn words_of(data: Seq<u8>) -> Seq<u64> {
    data.map_values(|b: u8| b as u64)
}

/// Bytes as words.
fn to_words(data: &Vec<u8>) -> (words: Vec<u64>)
    ensures
        words@ == words_of(data@),
{
    let mut words: Vec<u64> = Vec::new();
    let mut i: usize = 0;
    while i < data.len()
        invariant
            i <= data@.len(),
            words@ =~= words_of(data@).take(i as int),
        decreases data@.len() - i,
    {
        words.push(data[i] as u64);
        i += 1;
    }
    words
}

/// Different bytes are different words.
proof fn lemma_words_tell_bytes_apart(a: Seq<u8>, b: Seq<u8>)
    requires
        words_of(a) == words_of(b),
    ensures
        a == b,
{
    assert(words_of(a).len() == a.len() && words_of(b).len() == b.len());
    assert forall|i: int| 0 <= i < a.len() implies a[i] == b[i] by {
        assert(words_of(a)[i] == a[i] as u64);
        assert(words_of(b)[i] == b[i] as u64);
    }
    assert(a =~= b);
}

impl MockDecoderState {
    /// Every answer has a row.
    pub open spec fn wf(&self) -> bool {
        &&& self.loaded_hypergraphs.wf()
        &&& forall|words: Seq<u64>| #[trigger]
            self.custom_responses@.contains_key(words) ==> self.custom_responses@[words] < self.responses@.len()
    }

    /// The answer to a syndrome: what was set for it, or nothing.
    pub open spec fn response(&self, data: Seq<u8>) -> Seq<u64> {
        match self.custom_responses@.get(words_of(data)) {
            Some(row) => self.responses@[row as int]@,
            None => Seq::empty(),
        }
    }

    /// Nothing was recorded and no answer is set.
    pub open spec fn is_empty(&self) -> bool {
        &&& self.decode_calls@.len() == 0
        &&& self.loaded_hypergraphs@ == Map::<u64, DecodingHypergraph>::empty()
        &&& self.decode_loaded_calls@.len() == 0
        &&& self.next_hid == 1
        &&& self.reset_count == 0
        &&& forall|data: Seq<u8>| #[trigger] self.response(data) == Seq::<u64>::empty()
    }

    /// A decoder that was asked nothing yet.
    pub fn new() -> (state: MockDecoderState)
        ensures
            state.wf(),
            state.is_empty(),
    {
        MockDecoderState {
            decode_calls: Vec::new(),
            loaded_hypergraphs: Registry::new(),
            decode_loaded_calls: Vec::new(),
            next_hid: 1,
            reset_count: 0,
            custom_responses: WordMap::new(),
            responses: Vec::new(),
        }
    }

    /// Forgets everything.
    pub fn clear(&mut self)
        ensures
            final(self).wf(),
            final(self).is_empty(),
    {
        *self = MockDecoderState::new();
    }

    /// What was recorded of requests.
    pub open spec fn same_record(&self, after: MockDecoderState) -> bool {
        &&& after.decode_calls == self.decode_calls
        &&& after.loaded_hypergraphs == self.loaded_hypergraphs
        &&& after.decode_loaded_calls == self.decode_loaded_calls
        &&& after.next_hid == self.next_hid
        &&& after.reset_count == self.reset_count
    }

    /// Sets the answer to a syndrome.
    pub fn set_response(&mut self, syndrome_data: Vec<u8>, subgraph: Vec<u64>)
        requires
            old(self).wf(),
        ensures
            final(self).wf(),
            old(self).same_record(*final(self)),
            forall|data: Seq<u8>| #[trigger]
                final(self).response(data) == (if data == syndrome_data@ {
                    subgraph@
                } else {
                    old(self).response(data)
                }),
    {
        let ghost before = *self;
        let row: usize = self.responses.len();
        let words = to_words(&syndrome_data);
        let ghost key = words@;
        self.custom_responses.insert(words, row as u64);
        self.responses.push(subgraph);
        proof {
            assert forall|w: Seq<u64>| #[trigger] self.custom_responses@.contains_key(w) implies self.custom_responses@[w]
                < self.responses@.len() by {
                if w != key {
                    assert(before.custom_responses@.contains_key(w));
                }
            }
            assert forall|data: Seq<u8>| #[trigger] self.response(data) == (if data == syndrome_data@ {
                subgraph@
            } else {
                before.response(data)
            }) by {
                if words_of(data) == key {
                    lemma_words_tell_bytes_apart(data, syndrome_data@);
                } else if before.custom_responses@.contains_key(words_of(data)) {
                    let old_row = before.custom_responses@[words_of(data)];
                    assert(self.responses@[old_row as int] == before.responses@[old_row as int]);
                }
            }
        }
    }

    /// The answer to a syndrome.
    fn get_response(&self, syndrome: &BitVector) -> (subgraph: Vec<u64>)
        requires
            self.wf(),
        ensures
            subgraph@ == self.response(syndrome.data@),
    {
        let words = to_words(&syndrome.data);
        match self.custom_responses.get(&words) {
            Some(row) => {
                assert(self.custom_responses@.contains_key(words@));
                assert(row < self.responses.len());
                copy_vec(&self.responses[row as usize])
            },
            None => Vec::new(),
        }
    }

    /// Records a problem and answers it.
    pub fn decode(&mut self, hypergraph: Option<DecodingHypergraph>, syndrome: Option<BitVector>) -> (result: Result<Vec<u64>, Status>)
        requires
            old(self).wf(),
        ensures
            final(self).wf(),
            match result {
                Ok(subgraph) => {
                    &&& hypergraph is Some
                    &&& syndrome is Some
                    &&& subgraph@ == old(self).response(syndrome->0.data@)
                    &&& final(self).decode_calls@ == old(self).decode_calls@.push(
                        (DecodeProblem { hypergraph: hypergraph->0, syndrome: syndrome->0 }),
                    )
                    &&& final(self).loaded_hypergraphs == old(self).loaded_hypergraphs
                    &&& final(self).decode_loaded_calls == old(self).decode_loaded_calls
                    &&& final(self).next_hid == old(self).next_hid
                    &&& final(self).reset_count == old(self).reset_count
                    &&& final(self).custom_responses == old(self).custom_responses
                    &&& final(self).responses == old(self).responses
                },
                Err(status) => {
                    &&& *final(self) == *old(self)
                    &&& if hypergraph is None {
                        status.is(StatusCode::InvalidArgument, "missing hypergraph"@)
                    } else {
                        syndrome is None && status.is(StatusCode::InvalidArgument, "missing syndrome"@)
                    }
                },
            },
    {
        let Some(hypergraph) = hypergraph else {
            return Err(Status::new(StatusCode::InvalidArgument, "missing hypergraph"));
        };
        let Some(syndrome) = syndrome else {
            return Err(Status::new(StatusCode::InvalidArgument, "missing syndrome"));
        };
        let subgraph = self.get_response(&syndrome);
        self.decode_calls.push(DecodeProblem { hypergraph, syndrome });
        Ok(subgraph)
    }

    /// Loads a hypergraph under the next number.
    pub fn load_hypergraph(&mut self, hypergraph: DecodingHypergraph) -> (hid: u64)
        requires
            old(self).wf(),
            old(self).next_hid < u64::MAX,
        ensures
            final(self).wf(),
            hid == old(self).next_hid,
            final(self).next_hid == old(self).next_hid + 1,
            final(self).loaded_hypergraphs@ == old(self).loaded_hypergraphs@.insert(hid, hypergraph),
            final(self).decode_calls == old(self).decode_calls,
            final(self).decode_loaded_calls == old(self).decode_loaded_calls,
            final(self).reset_count == old(self).reset_count,
            final(self).custom_responses == old(self).custom_responses,
            final(self).responses == old(self).responses,
    {
        let hid: u64 = self.next_hid;
        self.next_hid += 1;
        self.loaded_hypergraphs.insert(hid, hypergraph);
        hid
    }

    /// Records a problem for a loaded hypergraph and answers it.
    pub fn decode_loaded(&mut self, hid: u64, syndrome: Option<BitVector>) -> (result: Result<Vec<u64>, Status>)
        requires
            old(self).wf(),
        ensures
            final(self).wf(),
            match result {
                Ok(subgraph) => {
                    &&& syndrome is Some
                    &&& old(self).loaded_hypergraphs@.contains_key(hid)
                    &&& subgraph@ == old(self).response(syndrome->0.data@)
                    &&& final(self).decode_loaded_calls@ == old(self).decode_loaded_calls@.push(
                        (LoadedDecodeProblem { hid, syndrome: syndrome->0 }),
                    )
                    &&& final(self).loaded_hypergraphs == old(self).loaded_hypergraphs
                    &&& final(self).decode_calls == old(self).decode_calls
                    &&& final(self).next_hid == old(self).next_hid
                    &&& final(self).reset_count == old(self).reset_count
                    &&& final(self).custom_responses == old(self).custom_responses
                    &&& final(self).responses == old(self).responses
                },
                Err(status) => {
                    &&& *final(self) == *old(self)
                    &&& if syndrome is None {
                        status.is(StatusCode::InvalidArgument, "missing syndrome"@)
                    } else {
                        !old(self).loaded_hypergraphs@.contains_key(hid) && status.is(
                            StatusCode::NotFound,
                            "hid="@ + decimal(hid as nat),
                        )
                    }
                },
            },
    {
        let Some(syndrome) = syndrome else {
            return Err(Status::new(StatusCode::InvalidArgument, "missing syndrome"));
        };
        if !self.loaded_hypergraphs.contains_key(hid) {
            return Err(Status::with_id(StatusCode::NotFound, "hid=", hid));
        }
        let subgraph = self.get_response(&syndrome);
        self.decode_loaded_calls.push(LoadedDecodeProblem { hid, syndrome });
        Ok(subgraph)
    }

    /// Counts a reset, and forgets the loaded hypergraphs if they are to be reset.
    pub fn reset(&mut self, reset_hypergraphs: bool)
        requires
            old(self).wf(),
            old(self).reset_count < usize::MAX,
        ensures
            final(self).wf(),
            final(self).reset_count == old(self).reset_count + 1,
            final(self).loaded_hypergraphs@ == (if reset_hypergraphs {
                Map::<u64, DecodingHypergraph>::empty()
            } else {
                old(self).loaded_hypergraphs@
            }),
            final(self).next_hid == (if reset_hypergraphs {
                1
            } else {
                old(self).next_hid
            }),
            final(self).decode_calls == old(self).decode_calls,
            final(self).decode_loaded_calls == old(self).decode_loaded_calls,
            final(self).custom_responses == old(self).custom_responses,
            final(self).responses == old(self).responses,
    {
        self.reset_count += 1;
        if reset_hypergraphs {
            self.loaded_hypergraphs = Registry::new();
            self.next_hid = 1;
        }
    }
}

} // verus!
