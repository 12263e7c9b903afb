//! How a window is decoded: with a decoder that was built for a window with the same key,
//! or with a new one.
use crate::bin::ErrorModelType;
use crate::bit_vector::{copy_of, BitVector};
use crate::cache_key::{cache_key, region_view, window_of, Window};
use crate::clock::{nanoseconds_since, now};
use crate::collections::{IdSet, WordMap};
use crate::dem::{lemma_local_cid_of, occurs_oddly, vertex_flips, vertex_lists, vertex_owned, DemPrediction};
use crate::hypergraph::{decoding_hypergraph, gadget_edges, window_edges, ProjectionContext, WindowEdgeSpec};
use crate::merge::{
    compact_vertices, law_compaction_keeps_parity, law_compaction_keeps_used_vertices, lemma_best_is_member, lists_below,
    lists_view, remap_syndrome, renames, selected, used_vertices, MergedEdges,
};
use crate::network::ErrorModel;
use crate::order::strictly_increasing;
use crate::prediction::{
    are_merged_tables, are_plain_tables, check_parity_factor, decoder_tables, dem_prediction, is_report,
    is_row, reproduces, tables_fit, DecoderTables, LoadedDecoder,
};
use crate::registry::Registry;
use crate::relative::{checks_of, cids_of, eids_of, starts_of, ExpandedGadget, RelativeMapping};
use crate::reuse::law_same_key_means_same_hyperedges;
use vstd::prelude::*;

verus! {

/// The tables stand for the hyperedges, merged or not.
pub open spec fn are_tables(tables: DecoderTables, edges: Seq<WindowEdgeSpec>, merge: bool) -> bool {
    if merge {
        exists|merged: MergedEdges| #[trigger] are_merged_tables(tables, edges, merged)
    } else {
        are_plain_tables(tables, edges)
    }
}

/// The vertices of a decoder: all of them, or, where isolated ones are removed, those
/// that are left.
pub open spec fn are_vertices(
    vertex_num: u64,
    remap: Option<Seq<u64>>,
    decoder_lists: Seq<Seq<u64>>,
    lists: Seq<Seq<u64>>,
    checks: int,
    compact: bool,
) -> bool {
    &&& lists_below(lists, checks)
    &&& if compact {
        &&& vertex_num == used_vertices(lists, checks).len()
        &&& remap is None == (vertex_num == checks)
        &&& match remap {
            None => decoder_lists == lists,
            Some(r) => r == used_vertices(lists, checks) && renames(decoder_lists, lists, r),
        }
    } else {
        &&& vertex_num == checks
        &&& remap is None
        &&& decoder_lists == lists
    }
}

/// The optional vertices.
pub open spec fn remap_view(remap: Option<Vec<u64>>) -> Option<Seq<u64>> {
    match remap {
        Some(r) => Some(r@),
        None => None,
    }
}

/// A decoder serves a window: it stands for the hyperedges of the window.
pub open spec fn serves(window: Window, decoder: LoadedDecoder, merge: bool, compact: bool) -> bool {
    &&& window.edges() is Some
    &&& are_tables(decoder.tables, window.edges()->0, merge)
    &&& are_vertices(
        decoder.vertex_num,
        remap_view(decoder.vertex_remap),
        lists_view(decoder.decoder_vertices@),
        lists_view(decoder.tables.hyperedge_vertices@),
        checks_of(window.gadgets),
        compact,
    )
}

/// The syndrome that a decoder is given: the bits of its vertices.
pub open spec fn decoder_syndrome(remap: Option<Seq<u64>>, syndrome: Seq<bool>) -> Seq<bool> {
    match remap {
        Some(r) => selected(syndrome, r),
        None => syndrome,
    }
}

/// The decoders that the decoder service holds, by the keys of their windows.
pub struct DecoderCache {
    pub index: WordMap,
    pub rows: Vec<LoadedDecoder>,
    /// hyperedges with the same vertices are merged
    pub merge: bool,
    /// windows have a commit region, and isolated vertices are removed
    pub windowed: bool,
}

/// A window with the given words that the decoder serves.
pub open spec fn built_for(window: Window, words: Seq<u64>, decoder: LoadedDecoder, merge: bool, windowed: bool) -> bool {
    &&& window.wf()
    &&& window.region is Some == windowed
    &&& window.has_words(words)
    &&& serves(window, decoder, merge, windowed)
}

/// A new decoder, before the decoder service has it.
#[derive(Debug)]
pub struct BuiltDecoder {
    pub tables: DecoderTables,
    pub vertex_num: u64,
    pub vertex_remap: Option<Vec<u64>>,
    pub decoder_vertices: Vec<Vec<u64>>,
}

impl BuiltDecoder {
    /// The decoder under a number of the decoder service.
    pub open spec fn loaded(self, hid: u64) -> LoadedDecoder {
        LoadedDecoder {
            hid,
            tables: self.tables,
            vertex_num: self.vertex_num,
            vertex_remap: self.vertex_remap,
            decoder_vertices: self.decoder_vertices,
        }
    }
}

/// How a window is decoded.
#[derive(Debug)]
pub enum DecodePlan {
    /// with this decoder, on this syndrome
    Reuse { row: usize, syndrome: BitVector },
    /// with a new decoder, on this syndrome; the decoder is kept under the key, if there
    /// is one
    Build { key: Option<Vec<u64>>, decoder: BuiltDecoder, syndrome: BitVector, times: BuildTimes },
}

/// How long the steps of building a decoder took, in nanoseconds.
#[derive(Debug, Clone, Copy)]
pub struct BuildTimes {
    pub build_ns: u64,
    pub merge_ns: u64,
    pub compact_ns: u64,
}

impl DecodePlan {
    /// The syndrome that the decoder is handed.
    pub open spec fn syndrome(self) -> BitVector {
        match self {
            DecodePlan::Reuse { syndrome, .. } => syndrome,
            DecodePlan::Build { syndrome, .. } => syndrome,
        }
    }
}

/// The used vertices are below their bound.
proof fn lemma_used_below(lists: Seq<Seq<u64>>, n: int)
    requires
        0 <= n <= u64::MAX,
    ensures
        used_vertices(lists, n).len() <= n,
        forall|i: int| 0 <= i < used_vertices(lists, n).len() ==> (#[trigger] used_vertices(lists, n)[i]) < n,
    decreases n,
{
    if n > 0 {
        lemma_used_below(lists, n - 1);
    }
}

/// A copy of vertex lists.
fn copy_lists(lists: &Vec<Vec<u64>>) -> (copy: Vec<Vec<u64>>)
    ensures
        lists_view(copy@) == lists_view(lists@),
{
    let ghost all = lists_view(lists@);
    let mut copy: Vec<Vec<u64>> = Vec::new();
    let mut i: usize = 0;
    while i < lists.len()
        invariant
            i <= lists@.len(),
            all == lists_view(lists@),
            lists_view(copy@) =~= all.take(i as int),
        decreases lists@.len() - i,
    {
        let ghost before = copy@;
        let list = crate::bin::copy_vec(&lists[i]);
        copy.push(list);
        assert(lists_view(copy@) =~= lists_view(before).push(list@));
        i += 1;
    }
    assert(lists_view(copy@) =~= all);
    copy
}

/// Whether every vertex is below a bound.
fn vertices_below(lists: &Vec<Vec<u64>>, bound: u64) -> (yes: bool)
    ensures
        yes == lists_below(lists_view(lists@), bound as int),
{
    let ghost all = lists_view(lists@);
    let mut e: usize = 0;
    while e < lists.len()
        invariant
            e <= lists@.len(),
            all == lists_view(lists@),
            forall|x: int, y: int| 0 <= x < e && 0 <= y < all[x].len() ==> (#[trigger] all[x][y]) < bound,
        decreases lists@.len() - e,
    {
        assert(all[e as int] == lists@[e as int]@);
        let mut i: usize = 0;
        while i < lists[e].len()
            invariant
                e < lists@.len(),
                all == lists_view(lists@),
                all[e as int] == lists@[e as int]@,
                i <= lists@[e as int]@.len(),
                forall|y: int| 0 <= y < i ==> (#[trigger] all[e as int][y]) < bound,
            decreases lists@[e as int]@.len() - i,
        {
            if lists[e][i] >= bound {
                assert(all[e as int][i as int] >= bound);
                return false;
            }
            i += 1;
        }
        e += 1;
    }
    true
}

/// A hyperedge has a vertex that the window does not have.
pub open spec fn leaves_window(edges: Seq<WindowEdgeSpec>, checks: int, merge: bool) -> bool {
    exists|tables: DecoderTables| #[trigger]
        are_tables(tables, edges, merge) && !lists_below(lists_view(tables.hyperedge_vertices@), checks)
}

impl DecoderCache {
    /// Every decoder serves a window with the words that it is found under.
    pub open spec fn wf(&self) -> bool {
        &&& forall|words: Seq<u64>| #[trigger] self.index@.contains_key(words) ==> self.index@[words] < self.rows@.len()
        &&& forall|words: Seq<u64>| #[trigger]
            self.index@.contains_key(words) ==> exists|w: Window| #[trigger]
                built_for(w, words, self.rows@[self.index@[words] as int], self.merge, self.windowed)
    }

    /// A cache without decoders.
    pub fn new(merge: bool, windowed: bool) -> (cache: DecoderCache)
        ensures
            cache.wf(),
            cache.index@ == Map::<Seq<u64>, u64>::empty(),
            cache.rows@ == Seq::<LoadedDecoder>::empty(),
            cache.merge == merge,
            cache.windowed == windowed,
    {
        DecoderCache { index: WordMap::new(), rows: Vec::new(), merge, windowed }
    }

    /// Forgets all decoders.
    pub fn clear(&mut self)
        ensures
            final(self).wf(),
            final(self).index@ == Map::<Seq<u64>, u64>::empty(),
            final(self).rows@ == Seq::<LoadedDecoder>::empty(),
            final(self).merge == old(self).merge,
            final(self).windowed == old(self).windowed,
    {
        self.index = WordMap::new();
        self.rows = Vec::new();
    }

    /// A plan for a window: a decoder that serves it and is kept under its key, or a new
    /// one if none is kept. None if the hyperedges of the window are invalid.
    pub open spec fn planned(&self, persistent: bool, window: Window, syndrome: Seq<bool>, plan: Option<DecodePlan>) -> bool {
        match plan {
            None => window.edges() is None || leaves_window(window.edges()->0, checks_of(window.gadgets), self.merge),
            Some(DecodePlan::Reuse { row, syndrome: bits }) => {
                &&& persistent
                &&& row < self.rows@.len()
                &&& serves(window, self.rows@[row as int], self.merge, self.windowed)
                &&& bits.wf()
                &&& bits@ == decoder_syndrome(remap_view(self.rows@[row as int].vertex_remap), syndrome)
                &&& exists|words: Seq<u64>| #[trigger]
                    self.index@.contains_key(words) && window.has_words(words) && self.index@[words] == row
            },
            Some(DecodePlan::Build { key, decoder, syndrome: bits, .. }) => {
                &&& forall|hid: u64| serves(window, #[trigger] decoder.loaded(hid), self.merge, self.windowed)
                &&& bits.wf()
                &&& bits@ == decoder_syndrome(remap_view(decoder.vertex_remap), syndrome)
                &&& key is Some ==> persistent && window.wf() && window.has_words(key->0@) && !self.index@.contains_key(key->0@)
                &&& persistent && window.wf() ==> key is Some
            },
        }
    }

    /// Plans how to decode a window: with a decoder that serves it, if one is kept under
    /// its key; else with a new one. `None` if the hyperedges of the window are invalid.
    pub fn plan(
        &self,
        persistent: bool,
        gadgets: &Vec<ExpandedGadget>,
        mapping: &RelativeMapping,
        syndrome: &BitVector,
        error_models: &Registry<ErrorModel>,
        types: &Registry<ErrorModelType>,
        committing_cids: Option<&IdSet>,
    ) -> (plan: Option<DecodePlan>)
        requires
            self.wf(),
            mapping.numbers(gadgets@),
            mapping.global_cid_of@.len() <= u32::MAX,
            error_models.wf(),
            types.wf(),
            syndrome.wf(),
            syndrome.size == mapping.count_checks,
            committing_cids is Some == self.windowed,
        ensures
            self.planned(
                persistent,
                window_of(gadgets@, *mapping, error_models@, types@, region_view(committing_cids)),
                syndrome@,
                plan,
            ),
            syndrome.padded() ==> (plan matches Some(p) ==> p.syndrome().padded()),
    {
        let ghost window = window_of(gadgets@, *mapping, error_models@, types@, region_view(committing_cids));
        let key: Option<Vec<u64>> = if persistent {
            cache_key(gadgets, mapping, error_models, types, committing_cids)
        } else {
            None
        };
        if let Some(words) = &key {
            if let Some(row) = self.index.get(words) {
                assert(self.index@.contains_key(words@));
                assert(row < self.rows.len());
                let decoder = &self.rows[row as usize];
                proof {
                    let other = choose|w: Window| #[trigger] built_for(w, words@, *decoder, self.merge, self.windowed);
                    law_same_key_means_same_hyperedges(other, window, words@);
                }
                let bits = match &decoder.vertex_remap {
                    Some(remap) => {
                        proof {
                            lemma_used_below(lists_view(decoder.tables.hyperedge_vertices@), checks_of(gadgets@));
                        }
                        remap_syndrome(syndrome, remap)
                    },
                    None => copy_of(syndrome),
                };
                return Some(DecodePlan::Reuse { row: row as usize, syndrome: bits });
            }
        }
        let build_started = now();
        let Some(edges) = decoding_hypergraph(gadgets, mapping, error_models, types, committing_cids) else {
            return None;
        };
        let build_ns: u64 = nanoseconds_since(build_started);
        let merge_started = now();
        let tables = decoder_tables(&edges, self.merge);
        let merge_ns: u64 = if self.merge {
            nanoseconds_since(merge_started)
        } else {
            0
        };
        assert(are_tables(tables, window.edges()->0, self.merge));
        let vertex_num: u64 = mapping.count_checks as u64;
        if !vertices_below(&tables.hyperedge_vertices, vertex_num) {
            return None;
        }
        if self.windowed {
            let compact_started = now();
            let compacted = compact_vertices(vertex_num, &tables.hyperedge_vertices, syndrome);
            let decoder = BuiltDecoder {
                tables,
                vertex_num: compacted.vertex_num,
                vertex_remap: compacted.vertex_remap,
                decoder_vertices: compacted.hyperedge_vertices,
            };
            assert forall|hid: u64| serves(window, #[trigger] decoder.loaded(hid), self.merge, self.windowed) by {}
            let times = BuildTimes { build_ns, merge_ns, compact_ns: nanoseconds_since(compact_started) };
            Some(DecodePlan::Build { key, decoder, syndrome: compacted.syndrome, times })
        } else {
            let decoder_vertices = copy_lists(&tables.hyperedge_vertices);
            let decoder = BuiltDecoder { tables, vertex_num, vertex_remap: None, decoder_vertices };
            assert forall|hid: u64| serves(window, #[trigger] decoder.loaded(hid), self.merge, self.windowed) by {}
            let times = BuildTimes { build_ns, merge_ns, compact_ns: 0 };
            Some(DecodePlan::Build { key, decoder, syndrome: copy_of(syndrome), times })
        }
    }

    /// Keeps a decoder that was built for a window and that the decoder service loaded.
    pub fn keep(&mut self, key: Vec<u64>, hid: u64, decoder: BuiltDecoder) -> (row: usize)
        requires
            old(self).wf(),
            exists|w: Window| #[trigger] built_for(w, key@, decoder.loaded(hid), old(self).merge, old(self).windowed),
        ensures
            final(self).wf(),
            final(self).merge == old(self).merge,
            final(self).windowed == old(self).windowed,
            row == old(self).rows@.len(),
            final(self).rows@ == old(self).rows@.push(decoder.loaded(hid)),
            final(self).index@ == old(self).index@.insert(key@, row as u64),
    {
        let ghost before = *self;
        let row: usize = self.rows.len();
        let ghost words = key@;
        self.index.insert(key, row as u64);
        self.rows.push(
            LoadedDecoder {
                hid,
                tables: decoder.tables,
                vertex_num: decoder.vertex_num,
                vertex_remap: decoder.vertex_remap,
                decoder_vertices: decoder.decoder_vertices,
            },
        );
        proof {
            assert(self.rows@ =~= before.rows@.push(decoder.loaded(hid)));
            assert forall|w: Seq<u64>| #[trigger] self.index@.contains_key(w) implies self.index@[w] < self.rows@.len() by {
                if w != words {
                    assert(before.index@.contains_key(w));
                }
            }
            assert forall|w: Seq<u64>| #[trigger] self.index@.contains_key(w) implies exists|window: Window| #[trigger]
                built_for(window, w, self.rows@[self.index@[w] as int], self.merge, self.windowed) by {
                if w != words {
                    assert(before.index@.contains_key(w));
                    let at = before.index@[w] as int;
                    assert(self.rows@[at] == before.rows@[at]);
                    let window = choose|window: Window| #[trigger]
                        built_for(window, w, before.rows@[at], before.merge, before.windowed);
                    assert(built_for(window, w, self.rows@[at], self.merge, self.windowed));
                } else {
                    let window = choose|window: Window| #[trigger]
                        built_for(window, words, decoder.loaded(hid), before.merge, before.windowed);
                    assert(built_for(window, w, self.rows@[row as int], self.merge, self.windowed));
                }
            }
        }
        row
    }
}

// ---------------------------------------------------------------------------
// After the decode
// ---------------------------------------------------------------------------

/// The hyperedges of an error model name mechanisms of that model.
proof fn lemma_model_edges_numbered(context: ProjectionContext, local_eid: int, errors: Seq<crate::bin::ErrorSpec>, n: int)
    requires
        0 <= local_eid <= u64::MAX,
        context.edges_upto(local_eid, errors, n) is Some,
    ensures
        forall|i: int|
            0 <= i < context.edges_upto(local_eid, errors, n)->0.len() ==> (#[trigger] context.edges_upto(local_eid, errors, n)->0[i]).error.eid
                == local_eid,
    decreases n,
{
    if n > 0 {
        lemma_model_edges_numbered(context, local_eid, errors, n - 1);
    }
}

/// The hyperedges of a gadget name error models up to those of the gadget.
proof fn lemma_gadget_edges_numbered(window: Window, g: int, n: int, bias: int)
    requires
        0 <= g < window.gadgets.len(),
        0 <= n <= window.gadgets[g].error_models@.len(),
        0 <= bias,
        bias + n <= u64::MAX,
        gadget_edges(
            window.gadgets[g],
            n,
            bias,
            window.error_models,
            window.types,
            window.local_cid_of,
            starts_of(window.gadgets),
            window.region,
        ) is Some,
    ensures
        ({
            let edges = gadget_edges(
                window.gadgets[g],
                n,
                bias,
                window.error_models,
                window.types,
                window.local_cid_of,
                starts_of(window.gadgets),
                window.region,
            )->0;
            forall|i: int| 0 <= i < edges.len() ==> (#[trigger] edges[i]).error.eid < bias + n
        }),
    decreases n,
{
    if n > 0 {
        lemma_gadget_edges_numbered(window, g, n - 1, bias);
        let gadget = window.gadgets[g];
        let eid = gadget.error_models@[n - 1].eid;
        let model = window.error_models[eid];
        let base = crate::bin::errors_view(window.types[model.instance.etype].errors@);
        let errors = crate::dem::effective_errors_spec(base, model.instance);
        let context = crate::hypergraph::context_of(
            gadget,
            n - 1,
            model,
            window.local_cid_of,
            starts_of(window.gadgets),
            window.region,
        );
        lemma_model_edges_numbered(context, bias + n - 1, errors, base.len() as int);
    }
}

/// More gadgets have no fewer error models.
proof fn lemma_eids_grow(g: Seq<ExpandedGadget>, n: int)
    requires
        0 <= n < g.len(),
    ensures
        eids_of(g.take(n)).len() + g[n].error_models@.len() == eids_of(g.take(n + 1)).len(),
{
    assert(g.take(n + 1).drop_last() =~= g.take(n));
    assert(g.take(n + 1).last() == g[n]);
}

/// The hyperedges of a window name error models of the window.
proof fn lemma_window_edges_numbered(window: Window, n: int)
    requires
        0 <= n <= window.gadgets.len(),
        eids_of(window.gadgets.take(n)).len() <= u64::MAX,
        window_edges(
            window.gadgets,
            n,
            window.error_models,
            window.types,
            window.local_cid_of,
            starts_of(window.gadgets),
            window.region,
        ) is Some,
    ensures
        ({
            let edges = window_edges(
                window.gadgets,
                n,
                window.error_models,
                window.types,
                window.local_cid_of,
                starts_of(window.gadgets),
                window.region,
            )->0;
            forall|i: int| 0 <= i < edges.len() ==> (#[trigger] edges[i]).error.eid < eids_of(window.gadgets.take(n)).len()
        }),
    decreases n,
{
    if n > 0 {
        lemma_eids_grow(window.gadgets, n - 1);
        lemma_window_edges_numbered(window, n - 1);
        lemma_gadget_edges_numbered(
            window,
            n - 1,
            window.gadgets[n - 1].error_models@.len() as int,
            eids_of(window.gadgets.take(n - 1)).len() as int,
        );
    }
}

/// The first checks of the check models do not fall, and start at 0.
proof fn lemma_starts_sorted(g: Seq<ExpandedGadget>)
    requires
        checks_of(g) <= usize::MAX,
    ensures
        checks_of(g) >= 0,
        starts_of(g).len() == cids_of(g).len(),
        forall|i: int, j: int| 0 <= i <= j < starts_of(g).len() ==> #[trigger] starts_of(g)[i] <= #[trigger] starts_of(g)[j],
        forall|i: int| 0 <= i < starts_of(g).len() ==> (#[trigger] starts_of(g)[i]) <= checks_of(g),
        starts_of(g).len() > 0 ==> starts_of(g)[0] == 0,
        starts_of(g).len() == 0 ==> checks_of(g) == 0,
    decreases g.len(),
{
    if g.len() > 0 {
        lemma_checks_nonnegative(g.drop_last());
        lemma_starts_sorted(g.drop_last());
    }
}

/// There are no fewer checks than none.
proof fn lemma_checks_nonnegative(g: Seq<ExpandedGadget>)
    ensures
        checks_of(g) >= 0,
    decreases g.len(),
{
    if g.len() > 0 {
        lemma_checks_nonnegative(g.drop_last());
    }
}

/// The tables of a decoder that serves a window name error models of the window.
proof fn lemma_tables_fit(window: Window, decoder: LoadedDecoder, merge: bool, compact: bool)
    requires
        serves(window, decoder, merge, compact),
        eids_of(window.gadgets).len() <= u64::MAX,
    ensures
        tables_fit(decoder.tables, eids_of(window.gadgets)),
{
    let edges = window.edges()->0;
    let tables = decoder.tables;
    let count = eids_of(window.gadgets).len();
    assert(window.gadgets.take(window.gadgets.len() as int) =~= window.gadgets);
    lemma_window_edges_numbered(window, window.gadgets.len() as int);
    if merge {
        let merged = choose|merged: MergedEdges| #[trigger] are_merged_tables(tables, edges, merged);
        assert forall|k: int| 0 <= k < tables.errors@.len() implies (#[trigger] tables.errors@[k]).eid < count by {
            let group = merged.edges@[k];
            assert(crate::merge::is_group(edges, edges.len() as int, group));
            lemma_best_is_member(edges, group.members@);
            let m = group.members@.index_of(group.representative);
            assert(group.members@[m] < edges.len());
            assert(edges[group.representative as int].error.eid < count);
        }
        assert forall|k: int, j: int| 0 <= k < tables.constituents@.len() && 0 <= j < tables.constituents@[k]@.len() implies (
        #[trigger] tables.constituents@[k]@[j]).eid < count by {
            let group = merged.edges@[k];
            assert(crate::merge::is_group(edges, edges.len() as int, group));
            assert(group.members@[j] < edges.len());
            assert(edges[group.members@[j] as int].error.eid < count);
        }
    } else {
        assert forall|k: int| 0 <= k < tables.errors@.len() implies (#[trigger] tables.errors@[k]).eid < count by {
            assert(is_row(tables, k, edges, seq![k as usize], k, edges[k].vertices));
            assert(edges[k].error.eid < count);
        }
        assert forall|k: int, j: int| 0 <= k < tables.constituents@.len() && 0 <= j < tables.constituents@[k]@.len() implies (
        #[trigger] tables.constituents@[k]@[j]).eid < count by {
            assert(is_row(tables, k, edges, seq![k as usize], k, edges[k].vertices));
            assert(tables.constituents.len() == tables.constituents@.len());
            assert(edges[k].error.eid < count);
        }
    }
}

/// Every hyperedge that fired is one that the decoder has.
pub open spec fn fired_exist(subgraph: Seq<u64>, count: int) -> bool {
    forall|i: int| 0 <= i < subgraph.len() ==> (#[trigger] subgraph[i]) < count
}

/// Whether every hyperedge that fired is one that the decoder has.
pub fn check_fired(subgraph: &Vec<u64>, count: usize) -> (yes: bool)
    ensures
        yes == fired_exist(subgraph@, count as int),
{
    let mut i: usize = 0;
    while i < subgraph.len()
        invariant
            i <= subgraph@.len(),
            forall|k: int| 0 <= k < i ==> (#[trigger] subgraph@[k]) < count,
        decreases subgraph@.len() - i,
    {
        if subgraph[i] >= count as u64 {
            assert(subgraph@[i as int] >= count);
            return false;
        }
        i += 1;
    }
    true
}

/// Reports a decode of a window by a decoder that serves it. `None` if a hyperedge fired
/// that the decoder does not have.
pub fn report_decode(
    gid: u64,
    subgraph: &Vec<u64>,
    decoder: &LoadedDecoder,
    committing_cids: Option<&IdSet>,
    gadgets: &Vec<ExpandedGadget>,
    mapping: &RelativeMapping,
    error_models: &Registry<ErrorModel>,
    types: &Registry<ErrorModelType>,
    cache: &DecoderCache,
) -> (report: Option<DemPrediction>)
    requires
        mapping.numbers(gadgets@),
        serves(
            window_of(gadgets@, *mapping, error_models@, types@, region_view(committing_cids)),
            *decoder,
            cache.merge,
            cache.windowed,
        ),
    ensures
        report is Some == fired_exist(subgraph@, decoder.tables.errors@.len() as int),
        report matches Some(r) ==> is_report(r, gid, subgraph@, decoder.tables, region_view(committing_cids), *mapping),
{
    if !check_fired(subgraph, decoder.tables.errors.len()) {
        return None;
    }
    proof {
        let window = window_of(gadgets@, *mapping, error_models@, types@, region_view(committing_cids));
        assert(mapping.global_eid_of.len() == eids_of(gadgets@).len());
        lemma_tables_fit(window, *decoder, cache.merge, cache.windowed);
        lemma_starts_sorted(gadgets@);
        let lists = lists_view(decoder.tables.hyperedge_vertices@);
        assert(lists.len() == decoder.tables.hyperedge_vertices@.len());
        assert forall|k: int, j: int|
            0 <= k < subgraph@.len() && 0 <= j < decoder.tables.hyperedge_vertices@[subgraph@[k] as int]@.len() implies vertex_owned(
            mapping.start_indices@,
            mapping.global_cid_of@,
            #[trigger] decoder.tables.hyperedge_vertices@[subgraph@[k] as int]@[j],
        ) by {
            assert(subgraph@[k] < decoder.tables.errors@.len());
            let v = lists[subgraph@[k] as int][j];
            assert(v < checks_of(gadgets@));
            lemma_local_cid_of(mapping.start_indices@, v);
        }
    }
    Some(dem_prediction(gid, subgraph, &decoder.tables, committing_cids, mapping))
}

/// Checks that the hyperedges that fired give exactly the syndrome that was decoded.
/// `None` if a hyperedge fired that the decoder does not have.
pub fn check_decode(decoder_vertices: &Vec<Vec<u64>>, subgraph: &Vec<u64>, syndrome: &BitVector) -> (ok: Option<bool>)
    requires
        syndrome.wf(),
    ensures
        ok is Some == fired_exist(subgraph@, decoder_vertices@.len() as int),
        ok matches Some(yes) ==> yes == reproduces(subgraph@, vertex_lists(decoder_vertices@), syndrome@),
{
    if !check_fired(subgraph, decoder_vertices.len()) {
        return None;
    }
    assert forall|i: int| 0 <= i < subgraph@.len() implies subgraph@[i] < decoder_vertices@.len() by {
        assert(subgraph@[i] < decoder_vertices@.len());
    }
    Some(check_parity_factor(decoder_vertices, subgraph, syndrome))
}

/// Compaction changes no answer: hyperedges that explain what the decoder sees explain the
/// syndrome of the window, where no vertex without hyperedges is set.
pub proof fn law_compacted_answer_explains_the_window(
    vertex_num: u64,
    remap: Option<Seq<u64>>,
    decoder_lists: Seq<Seq<u64>>,
    lists: Seq<Seq<u64>>,
    compact: bool,
    syndrome: Seq<bool>,
    subgraph: Seq<u64>,
)
    requires
        are_vertices(vertex_num, remap, decoder_lists, lists, syndrome.len() as int, compact),
        syndrome.len() <= u64::MAX,
        fired_exist(subgraph, lists.len() as int),
        forall|v: u64|
            v < syndrome.len() && (forall|e: int, i: int|
                0 <= e < lists.len() && 0 <= i < lists[e].len() ==> #[trigger] lists[e][i] != v)
                ==> !#[trigger] syndrome[v as int],
        reproduces(subgraph, decoder_lists, decoder_syndrome(remap, syndrome)),
    ensures
        reproduces(subgraph, lists, syndrome),
{
    if let Some(r) = remap {
        let n = syndrome.len() as int;
        law_compaction_keeps_used_vertices(lists, n, syndrome, 0);
        assert forall|v: int| 0 <= v < n implies #[trigger] vertex_flips(subgraph, lists, None, true, v as u64)
            == syndrome[v] by {
            law_compaction_keeps_used_vertices(lists, n, syndrome, v as u64);
            if r.contains(v as u64) {
                let w = r.index_of(v as u64);
                lemma_renamed_flips(subgraph, decoder_lists, lists, r, w as u64);
                assert(vertex_flips(subgraph, decoder_lists, None, true, w as u64) == decoder_syndrome(remap, syndrome)[w]);
            } else {
                assert(forall|e: int, i: int|
                    0 <= e < lists.len() && 0 <= i < lists[e].len() ==> #[trigger] lists[e][i] != v as u64);
                assert(!syndrome[v as u64 as int]);
                lemma_unused_never_flips(subgraph, lists, v as u64);
            }
        }
    }
}

proof fn lemma_renamed_flips(subgraph: Seq<u64>, compact: Seq<Seq<u64>>, original: Seq<Seq<u64>>, remap: Seq<u64>, w: u64)
    requires
        renames(compact, original, remap),
        fired_exist(subgraph, original.len() as int),
        strictly_increasing(remap),
        w < remap.len(),
    ensures
        vertex_flips(subgraph, compact, None, true, w) == vertex_flips(subgraph, original, None, true, remap[w as int]),
    decreases subgraph.len(),
{
    if subgraph.len() > 0 {
        let rest = subgraph.drop_last();
        assert forall|i: int| 0 <= i < rest.len() implies (#[trigger] rest[i]) < original.len() by {
            assert(rest[i] == subgraph[i]);
        }
        lemma_renamed_flips(rest, compact, original, remap, w);
        let e = subgraph.last() as int;
        assert(subgraph[subgraph.len() - 1] < original.len());
        assert(compact[e].len() == original[e].len());
        law_compaction_keeps_parity(compact[e], original[e], remap, w);
    }
}

proof fn lemma_unused_never_flips(subgraph: Seq<u64>, lists: Seq<Seq<u64>>, v: u64)
    requires
        fired_exist(subgraph, lists.len() as int),
        forall|e: int, i: int| 0 <= e < lists.len() && 0 <= i < lists[e].len() ==> #[trigger] lists[e][i] != v,
    ensures
        !vertex_flips(subgraph, lists, None, true, v),
    decreases subgraph.len(),
{
    if subgraph.len() > 0 {
        let rest = subgraph.drop_last();
        assert forall|i: int| 0 <= i < rest.len() implies (#[trigger] rest[i]) < lists.len() by {
            assert(rest[i] == subgraph[i]);
        }
        lemma_unused_never_flips(rest, lists, v);
        let e = subgraph.last() as int;
        assert(subgraph[subgraph.len() - 1] < lists.len());
        lemma_never_listed(lists[e], v);
    }
}

proof fn lemma_never_listed(list: Seq<u64>, v: u64)
    requires
        forall|i: int| 0 <= i < list.len() ==> #[trigger] list[i] != v,
    ensures
        !occurs_oddly(list, v),
    decreases list.len(),
{
    if list.len() > 0 {
        let rest = list.drop_last();
        assert forall|i: int| 0 <= i < rest.len() implies #[trigger] rest[i] != v by {
            assert(rest[i] == list[i]);
        }
        lemma_never_listed(rest, v);
        assert(list[list.len() - 1] != v);
    }
}

/// Whichever decoder is planned, its vertices stand for checks of the window, and it is
/// handed the syndrome of the checks that its vertices stand for.
pub proof fn law_planned_decoder_sees_the_window(
    cache: DecoderCache,
    persistent: bool,
    window: Window,
    syndrome: Seq<bool>,
    plan: DecodePlan,
    v: u64,
)
    requires
        cache.planned(persistent, window, syndrome, Some(plan)),
        syndrome.len() == checks_of(window.gadgets),
        syndrome.len() <= u64::MAX,
    ensures
        ({
            let remap = match plan {
                DecodePlan::Reuse { row, .. } => cache.rows@[row as int].vertex_remap,
                DecodePlan::Build { decoder, .. } => decoder.vertex_remap,
            };
            let seen = plan.syndrome()@;
            &&& window.edges() is Some
            &&& remap is None ==> seen == syndrome
            &&& remap matches Some(r) ==> {
                &&& seen.len() == r@.len()
                &&& v < seen.len() ==> r@[v as int] < syndrome.len() && seen[v as int] == syndrome[r@[v as int] as int]
            }
        }),
{
    let n = syndrome.len() as int;
    match plan {
        DecodePlan::Reuse { row, .. } => {
            let decoder = cache.rows@[row as int];
            assert(serves(window, decoder, cache.merge, cache.windowed));
            lemma_used_below(lists_view(decoder.tables.hyperedge_vertices@), n);
        },
        DecodePlan::Build { decoder, .. } => {
            assert(serves(window, decoder.loaded(0), cache.merge, cache.windowed));
            lemma_used_below(lists_view(decoder.tables.hyperedge_vertices@), n);
        },
    }
}

} // verus!
