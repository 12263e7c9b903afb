//! A pool of decoders: each loaded problem has decoders that wait for work, and no
//! problem is dropped while a decoder works on it.
use crate::bit_vector::{is_zero, BitVector};
use crate::hypergraph::DecodingHypergraph;
use crate::registry::Registry;
use crate::status::{decimal, labelled_then, Status, StatusCode};
use vstd::prelude::*;

verus! {

/// How the pool is set up.
#[derive(Debug, Clone, Copy, PartialEq, Eq, Structural)]
pub struct ThreadPoolingConfig {
    /// how many threads there are; 0 for one for each core
    pub parallel: usize,
}

impl ThreadPoolingConfig {
    /// How many threads are asked for, if any number is.
    pub fn num_threads(&self) -> (n: Option<usize>)
        ensures
            n == (if self.parallel != 0 {
                Some(self.parallel)
            } else {
                None
            }),
    {
        if self.parallel != 0 {
            Some(self.parallel)
        } else {
            None
        }
    }
}

/// A syndrome without defects needs no decoder: nothing fires.
pub fn needs_no_decoder(syndrome: &Option<BitVector>) -> (trivial: bool)
    ensures
        trivial == (syndrome is Some && forall|k: int| 0 <= k < syndrome->0.data@.len() ==> syndrome->0.data@[k] == 0),
{
    match syndrome {
        Some(bits) => is_zero(bits),
        None => false,
    }
}

/// A syndrome whose unused bits are clear skips the decoder exactly if it has no defect.
pub proof fn law_no_defects_need_no_decoder(syndrome: BitVector)
    requires
        syndrome.wf(),
        syndrome.padded(),
    ensures
        (forall|k: int| 0 <= k < syndrome.data@.len() ==> syndrome.data@[k] == 0) <==> (forall|i: int|
            0 <= i < syndrome@.len() ==> !#[trigger] syndrome@[i]),
{
    crate::bit_vector::law_clear_means_zero_bytes(syndrome);
}

/// A loaded problem, and the decoders for it that wait for work.
pub struct Loaded<T> {
    pub hypergraph: DecodingHypergraph,
    pub instances: Vec<T>,
}

/// The pool.
pub struct Pool<T> {
    pub loaded: Registry<Loaded<T>>,
    /// how many decodes are under way
    pub decoding: usize,
}

/// What a decode of a loaded problem works with.
pub enum Checkout<T> {
    /// this decoder, which was waiting
    Reuse(T),
    /// a new decoder for the problem
    Build,
}

impl<T> Pool<T> {
    /// The pool's invariant.
    pub open spec fn wf(&self) -> bool {
        self.loaded.wf()
    }

    /// An empty pool.
    pub fn new() -> (pool: Pool<T>)
        ensures
            pool.wf(),
            pool.loaded@ == Map::<u64, Loaded<T>>::empty(),
            pool.decoding == 0,
    {
        Pool { loaded: Registry::new(), decoding: 0 }
    }

    /// Loads a problem, under the number after how many there are.
    pub fn load(&mut self, hypergraph: DecodingHypergraph) -> (hid: u64)
        requires
            old(self).wf(),
            old(self).loaded@.dom().len() < u64::MAX,
        ensures
            final(self).wf(),
            final(self).decoding == old(self).decoding,
            hid == old(self).loaded@.dom().len() + 1,
            final(self).loaded@ == old(self).loaded@.insert(hid, final(self).loaded@[hid]),
            final(self).loaded@[hid].hypergraph == hypergraph,
            final(self).loaded@[hid].instances@ == Seq::<T>::empty(),
    {
        let hid: u64 = self.loaded.len() as u64 + 1;
        self.loaded.insert(hid, Loaded { hypergraph, instances: Vec::new() });
        hid
    }

    /// A decode begins.
    pub fn begin(&mut self)
        requires
            old(self).decoding < usize::MAX,
        ensures
            final(self).loaded == old(self).loaded,
            final(self).decoding == old(self).decoding + 1,
    {
        self.decoding += 1;
    }

    /// A decode ends.
    pub fn end(&mut self)
        requires
            old(self).decoding > 0,
        ensures
            final(self).loaded == old(self).loaded,
            final(self).decoding == old(self).decoding - 1,
    {
        self.decoding -= 1;
    }

    /// Begins a decode of a loaded problem: the decoder that came back last works on it,
    /// or a new one if none waits. A problem that is not loaded is refused.
    pub fn checkout(&mut self, hid: u64) -> (result: Result<Checkout<T>, Status>)
        requires
            old(self).wf(),
            old(self).decoding < usize::MAX,
        ensures
            final(self).wf(),
            match result {
                Err(status) => {
                    &&& !old(self).loaded@.contains_key(hid)
                    &&& *final(self) == *old(self)
                    &&& status.is(StatusCode::NotFound, "hid="@ + decimal(hid as nat))
                },
                Ok(Checkout::Reuse(instance)) => {
                    let waiting = old(self).loaded@[hid].instances@;
                    &&& old(self).loaded@.contains_key(hid)
                    &&& waiting.len() > 0
                    &&& instance == waiting.last()
                    &&& final(self).decoding == old(self).decoding + 1
                    &&& final(self).loaded@ == old(self).loaded@.insert(hid, final(self).loaded@[hid])
                    &&& final(self).loaded@[hid].hypergraph == old(self).loaded@[hid].hypergraph
                    &&& final(self).loaded@[hid].instances@ == waiting.drop_last()
                },
                Ok(Checkout::Build) => {
                    &&& old(self).loaded@.contains_key(hid)
                    &&& old(self).loaded@[hid].instances@.len() == 0
                    &&& final(self).decoding == old(self).decoding + 1
                    &&& final(self).loaded@ == old(self).loaded@
                },
            },
    {
        let Some(entry) = self.loaded.get(hid) else {
            return Err(Status::with_id(StatusCode::NotFound, "hid=", hid));
        };
        self.decoding += 1;
        if entry.instances.len() == 0 {
            return Ok(Checkout::Build);
        }
        let entry = self.loaded.get_mut(hid);
        let instance = entry.instances.pop().unwrap();
        Ok(Checkout::Reuse(instance))
    }

    /// Hands a decoder over to wait for work, if its problem is still loaded.
    pub fn give_back(&mut self, hid: u64, instance: T)
        requires
            old(self).wf(),
        ensures
            final(self).wf(),
            final(self).decoding == old(self).decoding,
            if old(self).loaded@.contains_key(hid) {
                &&& final(self).loaded@ == old(self).loaded@.insert(hid, final(self).loaded@[hid])
                &&& final(self).loaded@[hid].hypergraph == old(self).loaded@[hid].hypergraph
                &&& final(self).loaded@[hid].instances@ == old(self).loaded@[hid].instances@.push(instance)
            } else {
                final(self).loaded@ == old(self).loaded@
            },
    {
        if self.loaded.contains_key(hid) {
            let entry = self.loaded.get_mut(hid);
            entry.instances.push(instance);
        }
    }

    /// Drops all problems, unless a decode is under way. Says whether the pool is reset;
    /// else it is to be asked again when the decodes are done.
    pub fn try_reset(&mut self, reset_hypergraphs: bool) -> (done: bool)
        requires
            old(self).wf(),
        ensures
            final(self).wf(),
            final(self).decoding == old(self).decoding,
            done == (old(self).decoding == 0),
            final(self).loaded@ == (if done && reset_hypergraphs {
                Map::<u64, Loaded<T>>::empty()
            } else {
                old(self).loaded@
            }),
    {
        if self.decoding > 0 {
            return false;
        }
        if reset_hypergraphs {
            self.loaded = Registry::new();
        }
        true
    }
}

/// What a decode that ended without a result is answered with.
pub fn decode_failed() -> (status: Status)
    ensures
        status.is(StatusCode::Internal, "decode panicked or was cancelled"@),
{
    Status::new(StatusCode::Internal, "decode panicked or was cancelled")
}

/// What a load that ended without a decoder is answered with.
pub fn load_failed(hid: u64) -> (status: Status)
    ensures
        status.is(StatusCode::Internal, "hid="@ + decimal(hid as nat) + " load panicked or was cancelled"@),
{
    Status { code: StatusCode::Internal, message: labelled_then("hid=", hid, " load panicked or was cancelled") }
}

/// A decoder that is taken and handed back leaves the waiting decoders as they were.
pub proof fn law_handing_back_restores<T>(waiting: Seq<T>)
    requires
        waiting.len() > 0,
    ensures
        waiting.drop_last().push(waiting.last()) == waiting,
{
    assert(waiting.drop_last().push(waiting.last()) =~= waiting);
}

} // verus!
