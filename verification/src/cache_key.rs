//! What a decoder depends on. Two windows with the same key have the same hyperedges, so
//! that a decoder that was built for one of them serves the other.
use crate::bin::{errors_view, Connector, ErrorModelType, ErrorSpec, ProbabilityModifier, RemoteCheckModel};
use crate::collections::{IdMap, IdSet};
use crate::encode::{
    any, counted, error_fits, error_words, flat, hash_error_model_type_structural, lemma_errors_delimit,
    lemma_errors_fit, lemma_flat_push, lemma_lists_delimit, lemma_numbers_delimit, lemma_options_delimit,
    lemma_pairs_delimit, lemma_words_tell_apart, list_ok, list_words, number_words, option_ok, option_words,
    pair_ok, pair_words, push_numbers, self_delimiting,
};
use crate::hypergraph::{window_edges, WindowEdgeSpec};
use crate::network::ErrorModel;
use crate::order::{
    increasing, lemma_increasing_unique, lemma_strictly_increasing_unique, permutation_of, sort_ids, strictly_increasing,
};
use crate::probability::Probability;
use crate::registry::Registry;
use crate::relative::{
    cids_of, eids_of, indexes, starts_of, ExpandedErrorModel, ExpandedGadget, RelativeMapping,
};
use vstd::prelude::*;

verus! {

// ---------------------------------------------------------------------------
// Fingerprints of error models
// ---------------------------------------------------------------------------

/// The probabilities that an instance overrides, by their bits.
pub type ModifierKey = Option<(Seq<u64>, (Seq<u64>, Seq<u64>))>;

/// What the hyperedges of an error model depend on beside the window: the structure of
/// its type, the probabilities of the instance, and the bias of each slot.
pub type Fingerprint = ((u64, Seq<ErrorSpec>), (ModifierKey, Seq<Option<u64>>));

/// Probabilities by their bits.
pub open spec fn bits_of_probabilities(list: Seq<Probability>) -> Seq<u64> {
    list.map_values(|p: Probability| p.bits)
}

/// The probabilities that an instance overrides.
pub open spec fn modifier_key(instance: crate::bin::ErrorModel) -> ModifierKey {
    match instance.modifier {
        Some(m) => match m.probability_modifier {
            Some(p) => Some(
                (
                    bits_of_probabilities(p.probabilities@),
                    (p.sparse_indices@, bits_of_probabilities(p.sparse_probabilities@)),
                ),
            ),
            None => None,
        },
        None => None,
    }
}

/// The bias of each slot.
pub open spec fn slot_biases(slots: Seq<Option<RemoteCheckModel>>) -> Seq<Option<u64>> {
    slots.map_values(
        |s: Option<RemoteCheckModel>|
            match s {
                Some(r) => Some(r.check_bias),
                None => None,
            },
    )
}

/// The fingerprint of an error model.
pub open spec fn fingerprint(model: ErrorModel, model_type: ErrorModelType) -> Fingerprint {
    (
        (model_type.ctype, errors_view(model_type.errors@)),
        (modifier_key(model.instance), slot_biases(model.modified_remote_check_models@)),
    )
}

/// The words of the probabilities that an instance overrides.
pub open spec fn modifier_words() -> spec_fn(ModifierKey) -> Seq<u64> {
    option_words(pair_words(list_words(number_words()), pair_words(list_words(number_words()), list_words(number_words()))))
}

/// Lists of numbers can be counted.
pub open spec fn numbers_ok() -> spec_fn(Seq<u64>) -> bool {
    list_ok(any::<u64>())
}

/// The lists of a modifier can be counted.
pub open spec fn modifier_ok() -> spec_fn(ModifierKey) -> bool {
    option_ok(pair_ok(numbers_ok(), pair_ok(numbers_ok(), numbers_ok())))
}

/// The words of a list of optional numbers.
pub open spec fn slots_words() -> spec_fn(Seq<Option<u64>>) -> Seq<u64> {
    list_words(option_words(number_words()))
}

/// Lists of optional numbers can be counted.
pub open spec fn slots_ok() -> spec_fn(Seq<Option<u64>>) -> bool {
    list_ok(option_ok(any::<u64>()))
}

/// The words of a fingerprint.
pub open spec fn fingerprint_words() -> spec_fn(Fingerprint) -> Seq<u64> {
    pair_words(pair_words(number_words(), list_words(error_words())), pair_words(modifier_words(), slots_words()))
}

/// The lists of a fingerprint can be counted.
pub open spec fn fingerprint_ok() -> spec_fn(Fingerprint) -> bool {
    pair_ok(pair_ok(any::<u64>(), list_ok(error_fits())), pair_ok(modifier_ok(), slots_ok()))
}

/// Fingerprints show where they end.
proof fn lemma_fingerprints_delimit()
    ensures
        self_delimiting(fingerprint_words(), fingerprint_ok()),
        self_delimiting(slots_words(), slots_ok()),
        self_delimiting(list_words(number_words()), numbers_ok()),
{
    let n = number_words();
    let k = any::<u64>();
    lemma_numbers_delimit();
    lemma_lists_delimit(n, k);
    lemma_pairs_delimit(list_words(n), numbers_ok(), list_words(n), numbers_ok());
    lemma_pairs_delimit(list_words(n), numbers_ok(), pair_words(list_words(n), list_words(n)), pair_ok(numbers_ok(), numbers_ok()));
    lemma_options_delimit(
        pair_words(list_words(n), pair_words(list_words(n), list_words(n))),
        pair_ok(numbers_ok(), pair_ok(numbers_ok(), numbers_ok())),
    );
    lemma_options_delimit(n, k);
    lemma_lists_delimit(option_words(n), option_ok(k));
    lemma_pairs_delimit(modifier_words(), modifier_ok(), slots_words(), slots_ok());
    lemma_errors_delimit();
    lemma_lists_delimit(error_words(), error_fits());
    lemma_pairs_delimit(n, k, list_words(error_words()), list_ok(error_fits()));
    lemma_pairs_delimit(
        pair_words(n, list_words(error_words())),
        pair_ok(k, list_ok(error_fits())),
        pair_words(modifier_words(), slots_words()),
        pair_ok(modifier_ok(), slots_ok()),
    );
}

/// The lists of the fingerprint of an error model can be counted.
proof fn lemma_fingerprint_ok(model: ErrorModel, model_type: ErrorModelType)
    ensures
        fingerprint_ok()(fingerprint(model, model_type)),
{
    let f = fingerprint(model, model_type);
    lemma_errors_fit(model_type.errors@);
    assert(model_type.errors.len() == model_type.errors@.len());
    assert(list_ok(error_fits())(f.0.1));
    assert(model.modified_remote_check_models.len() == model.modified_remote_check_models@.len());
    assert(slots_ok()(f.1.1));
    if let Some(m) = model.instance.modifier {
        if let Some(p) = m.probability_modifier {
            assert(p.probabilities.len() == p.probabilities@.len());
            assert(p.sparse_indices.len() == p.sparse_indices@.len());
            assert(p.sparse_probabilities.len() == p.sparse_probabilities@.len());
            assert(numbers_ok()(bits_of_probabilities(p.probabilities@)));
            assert(numbers_ok()(p.sparse_indices@));
            assert(numbers_ok()(bits_of_probabilities(p.sparse_probabilities@)));
        }
    }
    assert(modifier_ok()(f.1.0));
}

/// Probabilities by their bits.
fn probability_bits(list: &Vec<Probability>) -> (bits: Vec<u64>)
    ensures
        bits@ == bits_of_probabilities(list@),
{
    let mut bits: Vec<u64> = Vec::new();
    let mut i: usize = 0;
    while i < list.len()
        invariant
            i <= list@.len(),
            bits@ =~= bits_of_probabilities(list@).take(i as int),
        decreases list@.len() - i,
    {
        bits.push(list[i].bits);
        i += 1;
    }
    bits
}

/// Appends an optional number.
fn push_option(state: &mut Vec<u64>, o: Option<u64>)
    ensures
        final(state)@ == old(state)@ + option_words(number_words())(o),
{
    match o {
        None => {
            state.push(0);
        },
        Some(x) => {
            state.push(1);
            state.push(x);
        },
    }
    assert(state@ =~= old(state)@ + option_words(number_words())(o));
}

/// Appends a counted list of optional numbers.
fn push_options(state: &mut Vec<u64>, list: &Vec<Option<u64>>)
    ensures
        final(state)@ == old(state)@ + slots_words()(list@),
{
    let ghost start = state@;
    let ghost w = option_words(number_words());
    state.push(list.len() as u64);
    let mut i: usize = 0;
    assert(list@.take(0) =~= Seq::<Option<u64>>::empty());
    while i < list.len()
        invariant
            i <= list@.len(),
            w == option_words(number_words()),
            state@ =~= start + (seq![list@.len() as u64] + flat(list@.take(i as int), w)),
        decreases list@.len() - i,
    {
        push_option(state, list[i]);
        proof {
            assert(list@.take(i as int + 1) =~= list@.take(i as int).push(list@[i as int]));
            lemma_flat_push(list@.take(i as int), list@[i as int], w);
        }
        i += 1;
    }
    assert(list@.take(list@.len() as int) =~= list@);
}

/// Appends the probabilities that an instance overrides.
fn push_modifier(state: &mut Vec<u64>, instance: &crate::bin::ErrorModel)
    ensures
        final(state)@ == old(state)@ + modifier_words()(modifier_key(*instance)),
{
    let ghost start = state@;
    let modifier: Option<&ProbabilityModifier> = match &instance.modifier {
        Some(m) => match &m.probability_modifier {
            Some(p) => Some(p),
            None => None,
        },
        None => None,
    };
    match modifier {
        None => {
            state.push(0);
        },
        Some(p) => {
            state.push(1);
            let probabilities = probability_bits(&p.probabilities);
            push_numbers(state, &probabilities);
            push_numbers(state, &p.sparse_indices);
            let sparse = probability_bits(&p.sparse_probabilities);
            push_numbers(state, &sparse);
        },
    }
    assert(state@ =~= start + modifier_words()(modifier_key(*instance)));
}

/// The words of the fingerprint of an error model.
fn fingerprint_of(model: &ErrorModel, model_type: &ErrorModelType) -> (words: Vec<u64>)
    ensures
        words@ == fingerprint_words()(fingerprint(*model, *model_type)),
{
    let mut words: Vec<u64> = Vec::new();
    hash_error_model_type_structural(model_type, &mut words);
    push_modifier(&mut words, &model.instance);
    let mut biases: Vec<Option<u64>> = Vec::new();
    let mut i: usize = 0;
    while i < model.modified_remote_check_models.len()
        invariant
            i <= model.modified_remote_check_models@.len(),
            biases@ =~= slot_biases(model.modified_remote_check_models@).take(i as int),
        decreases model.modified_remote_check_models@.len() - i,
    {
        let bias = match &model.modified_remote_check_models[i] {
            Some(r) => Some(r.check_bias),
            None => None,
        };
        biases.push(bias);
        i += 1;
    }
    assert(biases@ =~= slot_biases(model.modified_remote_check_models@));
    push_options(&mut words, &biases);
    assert(words@ =~= fingerprint_words()(fingerprint(*model, *model_type)));
    words
}

/// An error model and its type are known.
pub open spec fn model_known(eid: u64, error_models: Map<u64, ErrorModel>, types: Map<u64, ErrorModelType>) -> bool {
    error_models.contains_key(eid) && types.contains_key(error_models[eid].instance.etype)
}

/// The fingerprint of an error model that is known.
pub open spec fn fingerprint_at(eid: u64, error_models: Map<u64, ErrorModel>, types: Map<u64, ErrorModelType>) -> Fingerprint {
    fingerprint(error_models[eid], types[error_models[eid].instance.etype])
}

/// The fingerprints of error models, in order.
pub open spec fn fingerprints_of(eids: Seq<u64>, error_models: Map<u64, ErrorModel>, types: Map<u64, ErrorModelType>) -> Seq<Fingerprint> {
    eids.map_values(|eid: u64| fingerprint_at(eid, error_models, types))
}

/// The fingerprint of each error model of a window, by its local number. `None` if one
/// of them or its type is not known.
pub fn build_modifier_fingerprints(mapping: &RelativeMapping, error_models: &Registry<ErrorModel>, types: &Registry<ErrorModelType>) -> (fingerprints: Option<
    Vec<Vec<u64>>,
>)
    requires
        error_models.wf(),
        types.wf(),
    ensures
        fingerprints is Some == (forall|i: int|
            0 <= i < mapping.global_eid_of@.len() ==> model_known(#[trigger] mapping.global_eid_of@[i], error_models@, types@)),
        fingerprints matches Some(list) ==> {
            &&& list@.len() == mapping.global_eid_of@.len()
            &&& forall|i: int|
                0 <= i < list@.len() ==> (#[trigger] list@[i])@ == fingerprint_words()(
                    fingerprint_at(mapping.global_eid_of@[i], error_models@, types@),
                )
        },
{
    let mut list: Vec<Vec<u64>> = Vec::new();
    let mut i: usize = 0;
    while i < mapping.global_eid_of.len()
        invariant
            i <= mapping.global_eid_of@.len(),
            error_models.wf(),
            types.wf(),
            list@.len() == i,
            forall|k: int| 0 <= k < i ==> model_known(#[trigger] mapping.global_eid_of@[k], error_models@, types@),
            forall|k: int|
                0 <= k < i ==> (#[trigger] list@[k])@ == fingerprint_words()(
                    fingerprint_at(mapping.global_eid_of@[k], error_models@, types@),
                ),
        decreases mapping.global_eid_of@.len() - i,
    {
        let eid: u64 = mapping.global_eid_of[i];
        let Some(model) = error_models.get(eid) else {
            assert(!model_known(mapping.global_eid_of@[i as int], error_models@, types@));
            return None;
        };
        let Some(model_type) = types.get(model.instance.etype) else {
            assert(!model_known(mapping.global_eid_of@[i as int], error_models@, types@));
            return None;
        };
        list.push(fingerprint_of(model, model_type));
        i += 1;
    }
    Some(list)
}

/// Two error models have the same fingerprint words exactly if they have the same
/// structure, the same probabilities and the same biases.
pub proof fn law_fingerprints_are_faithful(a: ErrorModel, at: ErrorModelType, b: ErrorModel, bt: ErrorModelType)
    ensures
        fingerprint_words()(fingerprint(a, at)) == fingerprint_words()(fingerprint(b, bt)) <==> fingerprint(a, at) == fingerprint(b, bt),
{
    lemma_fingerprints_delimit();
    lemma_fingerprint_ok(a, at);
    lemma_fingerprint_ok(b, bt);
    if fingerprint_words()(fingerprint(a, at)) == fingerprint_words()(fingerprint(b, bt)) {
        lemma_words_tell_apart(fingerprint_words(), fingerprint_ok(), fingerprint(a, at), fingerprint(b, bt));
    }
}

// ---------------------------------------------------------------------------
// The program of a window
// ---------------------------------------------------------------------------

/// The check model of a gadget: its type, how many checks it has, and the local gadget of
/// each slot.
pub type CheckModelKey = Option<((u64, u64), Seq<Option<u64>>)>;

/// A gadget of a window by local numbers: its type, its connections, its check model, and
/// the type and the local check models of each error model.
pub type GadgetKey = ((u64, (Seq<Option<(u64, u64)>>, Seq<Option<(u64, u64)>>)), (CheckModelKey, Seq<(u64, Seq<Option<u64>>)>));

/// A local number, if the window has the instance.
pub open spec fn local(id: Option<u64>, numbers: Map<u64, usize>) -> Option<u64> {
    match id {
        Some(id) => if numbers.contains_key(id) {
            Some(numbers[id] as u64)
        } else {
            None
        },
        None => None,
    }
}

/// Local numbers.
pub open spec fn locals(ids: Seq<Option<u64>>, numbers: Map<u64, usize>) -> Seq<Option<u64>> {
    ids.map_values(|id: Option<u64>| local(id, numbers))
}

/// A connection by local numbers, if it stays in the window.
pub open spec fn local_connector(c: Option<Connector>, gids: Map<u64, usize>) -> Option<(u64, u64)> {
    match c {
        Some(c) => if gids.contains_key(c.gid) {
            Some((gids[c.gid] as u64, c.port))
        } else {
            None
        },
        None => None,
    }
}

/// Connections by local numbers.
pub open spec fn local_connectors(list: Seq<Option<Connector>>, gids: Map<u64, usize>) -> Seq<Option<(u64, u64)>> {
    list.map_values(|c: Option<Connector>| local_connector(c, gids))
}

/// The key of a gadget's check model.
pub open spec fn check_model_key(gadget: ExpandedGadget, gids: Map<u64, usize>) -> CheckModelKey {
    match gadget.check_model {
        Some(cm) => Some(((cm.ctype, cm.count_checks as u64), locals(cm.remote_gadgets@, gids))),
        None => None,
    }
}

/// The keys of a gadget's error models.
pub open spec fn error_model_keys(gadget: ExpandedGadget, cids: Map<u64, usize>) -> Seq<(u64, Seq<Option<u64>>)> {
    gadget.error_models@.map_values(|e: ExpandedErrorModel| (e.etype, locals(e.remote_check_models@, cids)))
}

/// The key of a gadget.
pub open spec fn gadget_key(gadget: ExpandedGadget, gids: Map<u64, usize>, cids: Map<u64, usize>) -> GadgetKey {
    (
        (gadget.gtype, (local_connectors(gadget.inputs@, gids), local_connectors(gadget.outputs@, gids))),
        (check_model_key(gadget, gids), error_model_keys(gadget, cids)),
    )
}

/// The keys of the gadgets of a window.
pub open spec fn program_key(gadgets: Seq<ExpandedGadget>, gids: Map<u64, usize>, cids: Map<u64, usize>) -> Seq<GadgetKey> {
    gadgets.map_values(|g: ExpandedGadget| gadget_key(g, gids, cids))
}

/// The words of connections.
pub open spec fn connectors_words() -> spec_fn(Seq<Option<(u64, u64)>>) -> Seq<u64> {
    list_words(option_words(pair_words(number_words(), number_words())))
}

/// Connections can be counted.
pub open spec fn connectors_ok() -> spec_fn(Seq<Option<(u64, u64)>>) -> bool {
    list_ok(option_ok(pair_ok(any::<u64>(), any::<u64>())))
}

/// The words of a check model.
pub open spec fn check_model_words() -> spec_fn(CheckModelKey) -> Seq<u64> {
    option_words(pair_words(pair_words(number_words(), number_words()), slots_words()))
}

/// The slots of a check model can be counted.
pub open spec fn check_model_ok() -> spec_fn(CheckModelKey) -> bool {
    option_ok(pair_ok(pair_ok(any::<u64>(), any::<u64>()), slots_ok()))
}

/// The words of an error model.
pub open spec fn error_model_words() -> spec_fn((u64, Seq<Option<u64>>)) -> Seq<u64> {
    pair_words(number_words(), slots_words())
}

/// The slots of an error model can be counted.
pub open spec fn error_model_ok() -> spec_fn((u64, Seq<Option<u64>>)) -> bool {
    pair_ok(any::<u64>(), slots_ok())
}

/// The words of a gadget.
pub open spec fn gadget_words() -> spec_fn(GadgetKey) -> Seq<u64> {
    pair_words(
        pair_words(number_words(), pair_words(connectors_words(), connectors_words())),
        pair_words(check_model_words(), list_words(error_model_words())),
    )
}

/// The lists of a gadget can be counted.
pub open spec fn gadget_ok() -> spec_fn(GadgetKey) -> bool {
    pair_ok(
        pair_ok(any::<u64>(), pair_ok(connectors_ok(), connectors_ok())),
        pair_ok(check_model_ok(), list_ok(error_model_ok())),
    )
}

/// Gadgets show where they end.
proof fn lemma_gadgets_delimit()
    ensures
        self_delimiting(gadget_words(), gadget_ok()),
{
    let n = number_words();
    let k = any::<u64>();
    lemma_fingerprints_delimit();
    lemma_numbers_delimit();
    lemma_pairs_delimit(n, k, n, k);
    lemma_options_delimit(pair_words(n, n), pair_ok(k, k));
    lemma_lists_delimit(option_words(pair_words(n, n)), option_ok(pair_ok(k, k)));
    lemma_pairs_delimit(connectors_words(), connectors_ok(), connectors_words(), connectors_ok());
    lemma_pairs_delimit(n, k, pair_words(connectors_words(), connectors_words()), pair_ok(connectors_ok(), connectors_ok()));
    lemma_pairs_delimit(pair_words(n, n), pair_ok(k, k), slots_words(), slots_ok());
    lemma_options_delimit(pair_words(pair_words(n, n), slots_words()), pair_ok(pair_ok(k, k), slots_ok()));
    lemma_pairs_delimit(n, k, slots_words(), slots_ok());
    lemma_lists_delimit(error_model_words(), error_model_ok());
    lemma_pairs_delimit(check_model_words(), check_model_ok(), list_words(error_model_words()), list_ok(error_model_ok()));
    lemma_pairs_delimit(
        pair_words(n, pair_words(connectors_words(), connectors_words())),
        pair_ok(k, pair_ok(connectors_ok(), connectors_ok())),
        pair_words(check_model_words(), list_words(error_model_words())),
        pair_ok(check_model_ok(), list_ok(error_model_ok())),
    );
}

/// The lists of a gadget's key can be counted.
proof fn lemma_gadget_ok(gadget: ExpandedGadget, gids: Map<u64, usize>, cids: Map<u64, usize>)
    ensures
        gadget_ok()(gadget_key(gadget, gids, cids)),
{
    let key = gadget_key(gadget, gids, cids);
    assert(gadget.inputs.len() == gadget.inputs@.len());
    assert(gadget.outputs.len() == gadget.outputs@.len());
    assert(gadget.error_models.len() == gadget.error_models@.len());
    assert(connectors_ok()(key.0.1.0));
    assert(connectors_ok()(key.0.1.1));
    if let Some(cm) = gadget.check_model {
        assert(cm.remote_gadgets.len() == cm.remote_gadgets@.len());
        assert(slots_ok()(locals(cm.remote_gadgets@, gids)));
    }
    assert(check_model_ok()(key.1.0));
    assert forall|i: int| 0 <= i < key.1.1.len() implies error_model_ok()(#[trigger] key.1.1[i]) by {
        let e = gadget.error_models@[i];
        assert(e.remote_check_models.len() == e.remote_check_models@.len());
        assert(slots_ok()(locals(e.remote_check_models@, cids)));
    }
    assert(list_ok(error_model_ok())(key.1.1));
}

/// A local number, if the window has the instance.
fn local_of(id: Option<u64>, numbers: &IdMap) -> (number: Option<u64>)
    ensures
        number == local(id, numbers@),
{
    match id {
        Some(id) => match numbers.get(id) {
            Some(n) => Some(n as u64),
            None => None,
        },
        None => None,
    }
}

/// Appends local numbers.
fn push_locals(state: &mut Vec<u64>, ids: &Vec<Option<u64>>, numbers: &IdMap)
    ensures
        final(state)@ == old(state)@ + slots_words()(locals(ids@, numbers@)),
{
    let mut list: Vec<Option<u64>> = Vec::new();
    let mut i: usize = 0;
    while i < ids.len()
        invariant
            i <= ids@.len(),
            list@ =~= locals(ids@, numbers@).take(i as int),
        decreases ids@.len() - i,
    {
        list.push(local_of(ids[i], numbers));
        i += 1;
    }
    assert(list@ =~= locals(ids@, numbers@));
    push_options(state, &list);
}

/// Appends connections by local numbers.
fn push_connectors(state: &mut Vec<u64>, list: &Vec<Option<Connector>>, gids: &IdMap)
    ensures
        final(state)@ == old(state)@ + connectors_words()(local_connectors(list@, gids@)),
{
    let ghost start = state@;
    let ghost w = option_words(pair_words(number_words(), number_words()));
    let ghost all = local_connectors(list@, gids@);
    state.push(list.len() as u64);
    let mut i: usize = 0;
    assert(all.take(0) =~= Seq::<Option<(u64, u64)>>::empty());
    while i < list.len()
        invariant
            i <= list@.len(),
            w == option_words(pair_words(number_words(), number_words())),
            all == local_connectors(list@, gids@),
            state@ =~= start + (seq![all.len() as u64] + flat(all.take(i as int), w)),
        decreases list@.len() - i,
    {
        let ghost before = state@;
        let peer: Option<(u64, u64)> = match list[i] {
            Some(c) => match gids.get(c.gid) {
                Some(n) => Some((n as u64, c.port)),
                None => None,
            },
            None => None,
        };
        match peer {
            None => {
                state.push(0);
            },
            Some((gid, port)) => {
                state.push(1);
                state.push(gid);
                state.push(port);
            },
        }
        proof {
            assert(all[i as int] == peer);
            assert(state@ =~= before + w(peer));
            assert(all.take(i as int + 1) =~= all.take(i as int).push(peer));
            lemma_flat_push(all.take(i as int), peer, w);
        }
        i += 1;
    }
    assert(all.take(all.len() as int) =~= all);
}

/// Appends the key of a gadget.
fn push_gadget(state: &mut Vec<u64>, gadget: &ExpandedGadget, mapping: &RelativeMapping)
    ensures
        final(state)@ == old(state)@ + gadget_words()(gadget_key(*gadget, mapping.local_gid_of@, mapping.local_cid_of@)),
{
    let ghost start = state@;
    let ghost gids = mapping.local_gid_of@;
    let ghost cids = mapping.local_cid_of@;
    let ghost key = gadget_key(*gadget, gids, cids);
    state.push(gadget.gtype);
    push_connectors(state, &gadget.inputs, &mapping.local_gid_of);
    push_connectors(state, &gadget.outputs, &mapping.local_gid_of);
    let ghost head = pair_words(number_words(), pair_words(connectors_words(), connectors_words()))(key.0);
    assert(state@ =~= start + head);
    match &gadget.check_model {
        None => {
            state.push(0);
        },
        Some(cm) => {
            state.push(1);
            state.push(cm.ctype);
            state.push(cm.count_checks as u64);
            push_locals(state, &cm.remote_gadgets, &mapping.local_gid_of);
        },
    }
    let ghost middle = check_model_words()(key.1.0);
    assert(state@ =~= start + head + middle);
    let ghost w = error_model_words();
    let ghost all = key.1.1;
    state.push(gadget.error_models.len() as u64);
    let mut i: usize = 0;
    assert(all.take(0) =~= Seq::<(u64, Seq<Option<u64>>)>::empty());
    while i < gadget.error_models.len()
        invariant
            i <= gadget.error_models@.len(),
            w == error_model_words(),
            cids == mapping.local_cid_of@,
            all == error_model_keys(*gadget, cids),
            state@ =~= start + head + middle + (seq![all.len() as u64] + flat(all.take(i as int), w)),
        decreases gadget.error_models@.len() - i,
    {
        let ghost before = state@;
        let model = &gadget.error_models[i];
        state.push(model.etype);
        push_locals(state, &model.remote_check_models, &mapping.local_cid_of);
        proof {
            assert(state@ =~= before + w(all[i as int]));
            assert(all.take(i as int + 1) =~= all.take(i as int).push(all[i as int]));
            lemma_flat_push(all.take(i as int), all[i as int], w);
        }
        i += 1;
    }
    assert(all.take(all.len() as int) =~= all);
    assert(state@ =~= start + gadget_words()(key));
}

// ---------------------------------------------------------------------------
// The key
// ---------------------------------------------------------------------------

/// The ids of a region that are numbered, in increasing order.
pub open spec fn lists_region(ids: Seq<u64>, region: Set<u64>, cids: Map<u64, usize>) -> bool {
    &&& strictly_increasing(ids)
    &&& forall|cid: u64| #[trigger] ids.contains(cid) <==> region.contains(cid) && cids.contains_key(cid)
}

/// The numbers of ids.
pub open spec fn numbers_of(ids: Seq<u64>, cids: Map<u64, usize>) -> Seq<u64> {
    ids.map_values(|cid: u64| cids[cid] as u64)
}

/// The numbers of the check models of a region, one for each that is numbered, in
/// increasing order.
pub open spec fn is_region_key(list: Seq<u32>, region: Set<u64>, cids: Map<u64, usize>) -> bool {
    &&& increasing(region_words(list))
    &&& exists|ids: Seq<u64>| #[trigger]
        lists_region(ids, region, cids) && permutation_of(region_words(list), numbers_of(ids, cids))
}

/// The local check models of the commit region, in increasing order: those of the
/// region that the window has.
pub fn committing_local_cids_sorted(committing_cids: &IdSet, mapping: &RelativeMapping) -> (list: Vec<u32>)
    requires
        forall|cid: u64| #[trigger]
            committing_cids@.contains(cid) && mapping.local_cid_of@.contains_key(cid) ==> mapping.local_cid_of@[cid] <= u32::MAX,
    ensures
        is_region_key(list@, committing_cids@, mapping.local_cid_of@),
{
    let ghost region = committing_cids@;
    let ghost cids = mapping.local_cid_of@;
    let all = committing_cids.sorted_ids();
    let ghost mut ids: Seq<u64> = Seq::empty();
    let mut numbers: Vec<u64> = Vec::new();
    let mut i: usize = 0;
    while i < all.len()
        invariant
            i <= all@.len(),
            region == committing_cids@,
            cids == mapping.local_cid_of@,
            all@.to_set() == region,
            strictly_increasing(all@),
            forall|cid: u64| #[trigger] region.contains(cid) && cids.contains_key(cid) ==> cids[cid] <= u32::MAX,
            strictly_increasing(ids),
            forall|k: int| 0 <= k < ids.len() ==> region.contains(#[trigger] ids[k]) && cids.contains_key(ids[k]),
            forall|k: int| 0 <= k < ids.len() ==> i < all@.len() ==> (#[trigger] ids[k]) < all@[i as int],
            forall|k: int| 0 <= k < i && cids.contains_key(#[trigger] all@[k]) ==> ids.contains(all@[k]),
            numbers@ =~= numbers_of(ids, cids),
        decreases all@.len() - i,
    {
        let cid: u64 = all[i];
        assert(all@.to_set().contains(cid));
        let ghost before = ids;
        if let Some(number) = mapping.local_cid_of.get(cid) {
            numbers.push(number as u64);
            proof {
                ids = ids.push(cid);
                assert(ids.last() == cid);
            }
        }
        proof {
            assert forall|k: int| 0 <= k < i + 1 && cids.contains_key(#[trigger] all@[k]) implies ids.contains(all@[k]) by {
                if k < i {
                    let m = before.index_of(all@[k]);
                    assert(ids[m] == all@[k]);
                } else {
                    assert(ids[before.len() as int] == cid);
                }
            }
        }
        i += 1;
    }
    proof {
        assert forall|cid: u64| #[trigger] ids.contains(cid) <==> region.contains(cid) && cids.contains_key(cid) by {
            if region.contains(cid) && cids.contains_key(cid) {
                assert(all@.to_set().contains(cid));
                let k = all@.index_of(cid);
                assert(ids.contains(all@[k]));
            }
        }
        assert(lists_region(ids, region, cids));
    }
    let ghost unsorted = numbers@;
    sort_ids(&mut numbers);
    let mut list: Vec<u32> = Vec::new();
    let mut n: usize = 0;
    while n < numbers.len()
        invariant
            n <= numbers@.len(),
            permutation_of(numbers@, unsorted),
            unsorted == numbers_of(ids, cids),
            lists_region(ids, region, cids),
            forall|cid: u64| #[trigger] region.contains(cid) && cids.contains_key(cid) ==> cids[cid] <= u32::MAX,
            region_words(list@) =~= numbers@.take(n as int),
        decreases numbers@.len() - n,
    {
        let number: u64 = numbers[n];
        assert(number <= u32::MAX) by {
            broadcast use vstd::seq_lib::group_to_multiset_ensures;

            assert(numbers@.contains(number));
            assert(numbers@.to_multiset().contains(number));
            assert(unsorted.contains(number));
            let k = unsorted.index_of(number);
            assert(ids.contains(ids[k]));
        }
        let ghost before = list@;
        list.push(number as u32);
        assert(region_words(list@) =~= region_words(before).push(number));
        assert(numbers@.take(n as int + 1) =~= numbers@.take(n as int).push(number));
        n += 1;
    }
    proof {
        assert(region_words(list@) =~= numbers@);
    }
    list
}

/// The numbers in the list of a region are those of its check models.
pub proof fn lemma_region_key_members(list: Seq<u32>, region: Set<u64>, cids: Map<u64, usize>, n: u32)
    requires
        is_region_key(list, region, cids),
    ensures
        list.contains(n) <==> exists|cid: u64| #[trigger] region.contains(cid) && cids.contains_key(cid) && cids[cid] == n,
{
    broadcast use vstd::seq_lib::group_to_multiset_ensures;

    let ids = choose|ids: Seq<u64>| #[trigger]
        lists_region(ids, region, cids) && permutation_of(region_words(list), numbers_of(ids, cids));
    let (words, numbers) = (region_words(list), numbers_of(ids, cids));
    assert(words.contains(n as u64) <==> words.to_multiset().contains(n as u64));
    assert(numbers.contains(n as u64) <==> numbers.to_multiset().contains(n as u64));
    if list.contains(n) {
        let i = list.index_of(n);
        assert(words[i] == n as u64);
        let k = numbers.index_of(n as u64);
        assert(ids.contains(ids[k]));
        assert(region.contains(ids[k]) && cids.contains_key(ids[k]) && cids[ids[k]] == n);
    }
    if exists|cid: u64| #[trigger] region.contains(cid) && cids.contains_key(cid) && cids[cid] == n {
        let cid = choose|cid: u64| #[trigger] region.contains(cid) && cids.contains_key(cid) && cids[cid] == n;
        assert(ids.contains(cid));
        let k = ids.index_of(cid);
        assert(numbers[k] == n as u64);
        let i = words.index_of(n as u64);
        assert(words[i] == list[i] as u64);
        assert(list[i] == n);
    }
}

/// The list of the commit region does not depend on how the region was put together.
pub proof fn law_region_key_is_canonical(a: Seq<u32>, b: Seq<u32>, region: Set<u64>, cids: Map<u64, usize>)
    requires
        is_region_key(a, region, cids),
        is_region_key(b, region, cids),
    ensures
        a == b,
{
    let ia = choose|ids: Seq<u64>| #[trigger]
        lists_region(ids, region, cids) && permutation_of(region_words(a), numbers_of(ids, cids));
    let ib = choose|ids: Seq<u64>| #[trigger]
        lists_region(ids, region, cids) && permutation_of(region_words(b), numbers_of(ids, cids));
    assert forall|cid: u64| ia.to_set().contains(cid) <==> ib.to_set().contains(cid) by {
        assert(ia.contains(cid) <==> ib.contains(cid));
    }
    assert(ia.to_set() =~= ib.to_set());
    lemma_strictly_increasing_unique(ia, ib);
    lemma_increasing_unique(region_words(a), region_words(b));
    assert(region_words(a).len() == a.len() && region_words(b).len() == b.len());
    assert forall|i: int| 0 <= i < a.len() implies a[i] == b[i] by {
        assert(region_words(a)[i] == a[i] as u64);
        assert(region_words(b)[i] == b[i] as u64);
    }
    assert(a =~= b);
}

/// A window: its gadgets with their numbers, what it knows of error models, and its
/// commit region, if not all of it commits.
pub struct Window {
    pub gadgets: Seq<ExpandedGadget>,
    pub local_gid_of: Map<u64, usize>,
    pub local_cid_of: Map<u64, usize>,
    pub error_models: Map<u64, ErrorModel>,
    pub types: Map<u64, ErrorModelType>,
    pub region: Option<Set<u64>>,
}

/// What a decoder depends on.
pub type WindowKey = (Seq<GadgetKey>, (Seq<Fingerprint>, Seq<u64>));

/// The words of a key.
pub open spec fn key_words() -> spec_fn(WindowKey) -> Seq<u64> {
    pair_words(list_words(gadget_words()), pair_words(list_words(fingerprint_words()), list_words(number_words())))
}

/// The lists of a key can be counted.
pub open spec fn key_ok() -> spec_fn(WindowKey) -> bool {
    pair_ok(list_ok(gadget_ok()), pair_ok(list_ok(fingerprint_ok()), numbers_ok()))
}

/// The numbers of a region as words.
pub open spec fn region_words(list: Seq<u32>) -> Seq<u64> {
    list.map_values(|n: u32| n as u64)
}

impl Window {
    /// The window is numbered through, and knows its error models.
    pub open spec fn wf(self) -> bool {
        &&& indexes(self.local_gid_of, crate::relative::gids_of(self.gadgets))
        &&& indexes(self.local_cid_of, cids_of(self.gadgets))
        &&& self.gadgets.len() <= usize::MAX
        &&& cids_of(self.gadgets).len() <= u32::MAX
        &&& eids_of(self.gadgets).len() <= usize::MAX
        &&& forall|i: int|
            0 <= i < eids_of(self.gadgets).len() ==> model_known(#[trigger] eids_of(self.gadgets)[i], self.error_models, self.types)
    }

    /// The key of the window, with the given list of its commit region.
    pub open spec fn key(self, region: Seq<u32>) -> WindowKey {
        (
            program_key(self.gadgets, self.local_gid_of, self.local_cid_of),
            (fingerprints_of(eids_of(self.gadgets), self.error_models, self.types), region_words(region)),
        )
    }

    /// The list stands for the commit region; without a region it is empty.
    pub open spec fn region_listed(self, list: Seq<u32>) -> bool {
        match self.region {
            Some(region) => is_region_key(list, region, self.local_cid_of),
            None => list.len() == 0,
        }
    }

    /// The window has these words.
    pub open spec fn has_words(self, words: Seq<u64>) -> bool {
        exists|list: Seq<u32>| #[trigger] self.region_listed(list) && list.len() <= usize::MAX && words == key_words()(self.key(list))
    }

    /// The hyperedges of the window.
    pub open spec fn edges(self) -> Option<Seq<WindowEdgeSpec>> {
        window_edges(
            self.gadgets,
            self.gadgets.len() as int,
            self.error_models,
            self.types,
            self.local_cid_of,
            starts_of(self.gadgets),
            self.region,
        )
    }
}

/// The words of the key of a window. `None` if an error model or its type is not known.
pub fn cache_key(
    gadgets: &Vec<ExpandedGadget>,
    mapping: &RelativeMapping,
    error_models: &Registry<ErrorModel>,
    types: &Registry<ErrorModelType>,
    committing_cids: Option<&IdSet>,
) -> (words: Option<Vec<u64>>)
    requires
        mapping.numbers(gadgets@),
        mapping.global_cid_of@.len() <= u32::MAX,
        error_models.wf(),
        types.wf(),
    ensures
        ({
            let window = window_of(gadgets@, *mapping, error_models@, types@, region_view(committing_cids));
            &&& words is Some == window.wf()
            &&& words matches Some(w) ==> window.has_words(w@)
        }),
{
    let ghost window = window_of(gadgets@, *mapping, error_models@, types@, region_view(committing_cids));
    let ghost eids = eids_of(gadgets@);
    assert(gadgets.len() == gadgets@.len());
    assert(mapping.global_eid_of.len() == eids.len());
    let Some(fingerprints) = build_modifier_fingerprints(mapping, error_models, types) else {
        return None;
    };
    let mut words: Vec<u64> = Vec::new();
    let ghost all = program_key(gadgets@, mapping.local_gid_of@, mapping.local_cid_of@);
    let ghost gw = gadget_words();
    words.push(gadgets.len() as u64);
    let mut n: usize = 0;
    assert(all.take(0) =~= Seq::<GadgetKey>::empty());
    while n < gadgets.len()
        invariant
            n <= gadgets@.len(),
            gw == gadget_words(),
            all == program_key(gadgets@, mapping.local_gid_of@, mapping.local_cid_of@),
            words@ =~= seq![all.len() as u64] + flat(all.take(n as int), gw),
        decreases gadgets@.len() - n,
    {
        push_gadget(&mut words, &gadgets[n], mapping);
        proof {
            assert(all.take(n as int + 1) =~= all.take(n as int).push(all[n as int]));
            lemma_flat_push(all.take(n as int), all[n as int], gw);
        }
        n += 1;
    }
    assert(all.take(all.len() as int) =~= all);
    let ghost first = list_words(gw)(all);
    assert(words@ =~= first);
    let ghost prints = fingerprints_of(eids, error_models@, types@);
    let ghost fw = fingerprint_words();
    words.push(fingerprints.len() as u64);
    let mut i: usize = 0;
    assert(prints.take(0) =~= Seq::<Fingerprint>::empty());
    while i < fingerprints.len()
        invariant
            i <= fingerprints@.len(),
            fw == fingerprint_words(),
            eids == mapping.global_eid_of@,
            fingerprints@.len() == eids.len(),
            prints == fingerprints_of(eids, error_models@, types@),
            forall|k: int|
                0 <= k < fingerprints@.len() ==> (#[trigger] fingerprints@[k])@ == fingerprint_words()(
                    fingerprint_at(mapping.global_eid_of@[k], error_models@, types@),
                ),
            words@ =~= first + (seq![prints.len() as u64] + flat(prints.take(i as int), fw)),
        decreases fingerprints@.len() - i,
    {
        let ghost before = words@;
        let own = &fingerprints[i];
        let mut k: usize = 0;
        while k < own.len()
            invariant
                k <= own@.len(),
                words@ =~= before + own@.take(k as int),
            decreases own@.len() - k,
        {
            words.push(own[k]);
            k += 1;
        }
        proof {
            assert(words@ =~= before + own@);
            assert(own@ == fw(prints[i as int]));
            assert(prints.take(i as int + 1) =~= prints.take(i as int).push(prints[i as int]));
            lemma_flat_push(prints.take(i as int), prints[i as int], fw);
        }
        i += 1;
    }
    assert(prints.take(prints.len() as int) =~= prints);
    proof {
        assert forall|cid: u64| #[trigger] mapping.local_cid_of@.contains_key(cid) implies mapping.local_cid_of@[cid] <= u32::MAX by {
        }
    }
    let list: Vec<u32> = match committing_cids {
        Some(cids) => committing_local_cids_sorted(cids, mapping),
        None => Vec::new(),
    };
    let mut region: Vec<u64> = Vec::new();
    let mut r: usize = 0;
    while r < list.len()
        invariant
            r <= list@.len(),
            region@ =~= region_words(list@).take(r as int),
        decreases list@.len() - r,
    {
        region.push(list[r] as u64);
        r += 1;
    }
    assert(region@ =~= region_words(list@));
    push_numbers(&mut words, &region);
    proof {
        assert(window.region_listed(list@));
        assert(list.len() == list@.len());
        let key = window.key(list@);
        assert(words@ =~= key_words()(key));
        assert(window.has_words(words@));
    }
    Some(words)
}

/// The words of a key tell it apart from every other key.
pub proof fn law_keys_are_faithful(a: Window, la: Seq<u32>, b: Window, lb: Seq<u32>)
    requires
        a.wf(),
        b.wf(),
        la.len() <= usize::MAX,
        lb.len() <= usize::MAX,
        key_words()(a.key(la)) == key_words()(b.key(lb)),
    ensures
        a.key(la) == b.key(lb),
{
    lemma_gadgets_delimit();
    lemma_fingerprints_delimit();
    lemma_lists_delimit(gadget_words(), gadget_ok());
    lemma_lists_delimit(fingerprint_words(), fingerprint_ok());
    lemma_pairs_delimit(
        list_words(fingerprint_words()),
        list_ok(fingerprint_ok()),
        list_words(number_words()),
        numbers_ok(),
    );
    lemma_pairs_delimit(
        list_words(gadget_words()),
        list_ok(gadget_ok()),
        pair_words(list_words(fingerprint_words()), list_words(number_words())),
        pair_ok(list_ok(fingerprint_ok()), numbers_ok()),
    );
    lemma_key_ok(a, la);
    lemma_key_ok(b, lb);
    lemma_words_tell_apart(key_words(), key_ok(), a.key(la), b.key(lb));
}

/// The lists of a key can be counted.
proof fn lemma_key_ok(window: Window, list: Seq<u32>)
    requires
        window.wf(),
        list.len() <= usize::MAX,
    ensures
        key_ok()(window.key(list)),
{
    let key = window.key(list);
    assert forall|i: int| 0 <= i < key.0.len() implies gadget_ok()(#[trigger] key.0[i]) by {
        lemma_gadget_ok(window.gadgets[i], window.local_gid_of, window.local_cid_of);
    }
    assert(list_ok(gadget_ok())(key.0));
    assert forall|i: int| 0 <= i < key.1.0.len() implies fingerprint_ok()(#[trigger] key.1.0[i]) by {
        let eid = eids_of(window.gadgets)[i];
        lemma_fingerprint_ok(window.error_models[eid], window.types[window.error_models[eid].instance.etype]);
    }
    assert(list_ok(fingerprint_ok())(key.1.0));
    assert(numbers_ok()(key.1.1));
}

/// The optional commit region.
pub open spec fn region_view(committing_cids: Option<&IdSet>) -> Option<Set<u64>> {
    match committing_cids {
        Some(cids) => Some(cids@),
        None => None,
    }
}

/// The window with the given parts.
pub open spec fn window_of(
    gadgets: Seq<ExpandedGadget>,
    mapping: RelativeMapping,
    error_models: Map<u64, ErrorModel>,
    types: Map<u64, ErrorModelType>,
    region: Option<Set<u64>>,
) -> Window {
    Window { gadgets, local_gid_of: mapping.local_gid_of@, local_cid_of: mapping.local_cid_of@, error_models, types, region }
}

} // verus!
